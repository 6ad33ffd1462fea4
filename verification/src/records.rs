//! The structured records of the `passwd`, `group` and `shadow`
//! databases, their mathematical views, and the validity conditions
//! under which the line codec is lossless.

use vstd::prelude::*;
use crate::strfmt::no_char;
use crate::strfmt::views;

verus! {

/// A record of the `passwd` database.
#[derive(Clone, Debug, PartialEq, Eq)]
pub struct PasswdEntry {
    pub name: String,
    pub passwd: String,
    pub uid: u32,
    pub gid: u32,
    pub gecos: String,
    pub dir: String,
    pub shell: String,
}

/// A record of the `group` database.
#[derive(Clone, Debug, PartialEq, Eq)]
pub struct GroupEntry {
    pub name: String,
    pub passwd: String,
    pub gid: u32,
    pub members: Vec<String>,
}

/// A record of the `shadow` database. An aging field that is `None` is
/// unset and renders as an empty field.
#[derive(Clone, Debug, PartialEq, Eq)]
pub struct ShadowEntry {
    pub name: String,
    pub passwd: String,
    pub last_change: Option<u32>,
    pub min: Option<u32>,
    pub max: Option<u32>,
    pub warning: Option<u32>,
    pub inactivity: Option<u32>,
    pub expires: Option<u32>,
    pub flag: Option<u32>,
}

#[verifier::ext_equal]
pub struct PasswdEntryV {
    pub name: Seq<char>,
    pub passwd: Seq<char>,
    pub uid: u32,
    pub gid: u32,
    pub gecos: Seq<char>,
    pub dir: Seq<char>,
    pub shell: Seq<char>,
}

#[verifier::ext_equal]
pub struct GroupEntryV {
    pub name: Seq<char>,
    pub passwd: Seq<char>,
    pub gid: u32,
    pub members: Seq<Seq<char>>,
}

#[verifier::ext_equal]
pub struct ShadowEntryV {
    pub name: Seq<char>,
    pub passwd: Seq<char>,
    pub last_change: Option<u32>,
    pub min: Option<u32>,
    pub max: Option<u32>,
    pub warning: Option<u32>,
    pub inactivity: Option<u32>,
    pub expires: Option<u32>,
    pub flag: Option<u32>,
}

impl View for PasswdEntry {
    type V = PasswdEntryV;

    open spec fn view(&self) -> PasswdEntryV {
        PasswdEntryV {
            name: self.name@,
            passwd: self.passwd@,
            uid: self.uid,
            gid: self.gid,
            gecos: self.gecos@,
            dir: self.dir@,
            shell: self.shell@,
        }
    }
}

impl View for GroupEntry {
    type V = GroupEntryV;

    open spec fn view(&self) -> GroupEntryV {
        GroupEntryV {
            name: self.name@,
            passwd: self.passwd@,
            gid: self.gid,
            members: views(self.members@),
        }
    }
}

impl View for ShadowEntry {
    type V = ShadowEntryV;

    open spec fn view(&self) -> ShadowEntryV {
        ShadowEntryV {
            name: self.name@,
            passwd: self.passwd@,
            last_change: self.last_change,
            min: self.min,
            max: self.max,
            warning: self.warning,
            inactivity: self.inactivity,
            expires: self.expires,
            flag: self.flag,
        }
    }
}

pub open spec fn passwd_views(s: Seq<PasswdEntry>) -> Seq<PasswdEntryV> {
    s.map_values(|e: PasswdEntry| e@)
}

pub open spec fn group_views(s: Seq<GroupEntry>) -> Seq<GroupEntryV> {
    s.map_values(|e: GroupEntry| e@)
}

pub open spec fn shadow_views(s: Seq<ShadowEntry>) -> Seq<ShadowEntryV> {
    s.map_values(|e: ShadowEntry| e@)
}

/// An ordinary field must not contain the field or line separator.
pub open spec fn valid_field(s: Seq<char>) -> bool {
    no_char(s, ':') && no_char(s, '\n')
}

/// A user or group name: a non-empty field that also avoids the member
/// list separator.
pub open spec fn valid_name(s: Seq<char>) -> bool {
    valid_field(s) && s.len() > 0 && no_char(s, ',')
}

impl PasswdEntryV {
    pub open spec fn valid(self) -> bool {
        valid_name(self.name) && valid_field(self.passwd) && valid_field(self.gecos)
            && valid_field(self.dir) && valid_field(self.shell)
    }
}

impl GroupEntryV {
    pub open spec fn valid(self) -> bool {
        valid_name(self.name) && valid_field(self.passwd) && forall|i: int|
            0 <= i < self.members.len() ==> valid_name(#[trigger] self.members[i])
    }
}

impl ShadowEntryV {
    pub open spec fn valid(self) -> bool {
        valid_name(self.name) && valid_field(self.passwd)
    }
}

impl PasswdEntry {
    /// A field-by-field copy whose equality Verus can see.
    pub fn duplicate(&self) -> (r: Self)
        ensures
            r == *self,
    {
        PasswdEntry {
            name: self.name.clone(),
            passwd: self.passwd.clone(),
            uid: self.uid,
            gid: self.gid,
            gecos: self.gecos.clone(),
            dir: self.dir.clone(),
            shell: self.shell.clone(),
        }
    }
}

impl GroupEntry {
    /// A field-by-field copy whose view Verus can see is unchanged.
    pub fn duplicate(&self) -> (r: Self)
        ensures
            r@ == self@,
            r.name@ == self.name@,
            r.gid == self.gid,
    {
        let r = GroupEntry {
            name: self.name.clone(),
            passwd: self.passwd.clone(),
            gid: self.gid,
            members: clone_strings(&self.members),
        };
        proof {
            assert(r@ =~= self@);
        }
        r
    }
}

impl ShadowEntry {
    /// A field-by-field copy whose equality Verus can see.
    pub fn duplicate(&self) -> (r: Self)
        ensures
            r == *self,
    {
        ShadowEntry {
            name: self.name.clone(),
            passwd: self.passwd.clone(),
            last_change: self.last_change,
            min: self.min,
            max: self.max,
            warning: self.warning,
            inactivity: self.inactivity,
            expires: self.expires,
            flag: self.flag,
        }
    }
}

/// An element-by-element copy of a vector of strings.
pub fn clone_strings(v: &Vec<String>) -> (r: Vec<String>)
    ensures
        r@ == v@,
{
    let mut r: Vec<String> = Vec::new();
    let mut i: usize = 0;
    while i < v.len()
        invariant
            0 <= i <= v@.len(),
            r@ == v@.take(i as int),
        decreases v@.len() - i,
    {
        r.push(v[i].clone());
        proof {
            assert(v@.take(i as int + 1) =~= v@.take(i as int).push(v@[i as int]));
        }
        i = i + 1;
    }
    proof {
        assert(v@.take(v@.len() as int) =~= v@);
    }
    r
}

} // verus!
