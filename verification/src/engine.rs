//! The reconciliation engine: given the declarative specification, the
//! current database records and the persisted bookkeeping state, it
//! computes the next records, allocates identifiers for newly declared
//! entities, and decides what to do with entities no longer declared.

use vstd::prelude::*;
use crate::records::GroupEntry;
use crate::records::GroupEntryV;
use crate::records::PasswdEntry;
use crate::records::PasswdEntryV;
use crate::records::ShadowEntry;
use crate::records::ShadowEntryV;
use crate::records::group_views;
use crate::records::passwd_views;
use crate::records::shadow_views;
use crate::records::clone_strings;
use crate::strfmt::views;
use crate::idalloc::IdKind;
use crate::idalloc::alloc_spec;
use crate::idalloc::allocate;
use crate::idalloc::ceiling_of;
use crate::idalloc::contains_u32;
use crate::idalloc::floor_of;
use crate::EngineError;

verus! {

// ---------------------------------------------------------------------
// The specification and the persisted bookkeeping state
// ---------------------------------------------------------------------

/// A desired group, as one entry of the specification.
#[derive(Clone, Debug)]
pub struct GroupSpec {
    pub name: String,
    /// An explicit gid; ignored with a warning if the group already
    /// exists with a different gid.
    pub gid: Option<u32>,
    pub members: Vec<String>,
    /// A group password hash; a fresh group without one gets the
    /// placeholder meaning "no password".
    pub password: Option<String>,
}

/// A desired user, as one entry of the specification. The password
/// sources are listed in falling precedence. The engine stores whichever
/// source wins verbatim: the caller reads a password file's contents
/// before the engine runs, and a plaintext source is stored as the
/// deployment's hashing step left it — hashing is outside this crate.
#[derive(Clone, Debug)]
pub struct UserSpec {
    pub name: String,
    /// An explicit uid; ignored with a warning if the user already
    /// exists with a different uid.
    pub uid: Option<u32>,
    /// The name of the user's primary group; it must resolve against
    /// the group database after the groups were reconciled.
    pub group: String,
    pub description: String,
    pub home: String,
    pub shell: String,
    /// Whether the caller should create the home directory.
    pub create_home: bool,
    /// Whether a fresh uid is drawn from the system range.
    pub is_system: bool,
    /// An explicitly given hash: the strongest source.
    pub hashed_password: Option<String>,
    /// The hash of an explicitly given plaintext password.
    pub password: Option<String>,
    /// The hash read from a password file.
    pub password_file: Option<String>,
    /// A given hash applied only when the account is new.
    pub initial_hashed_password: Option<String>,
    /// The hash of a plaintext applied only when the account is new.
    pub initial_password: Option<String>,
}

/// The declarative specification of one reconciliation pass.
#[derive(Clone, Debug)]
pub struct Specification {
    pub users: Vec<UserSpec>,
    pub groups: Vec<GroupSpec>,
    /// With `true`, entities on disk that the specification does not
    /// mention and that no prior declarative run created are retained;
    /// with `false`, every undeclared entity is removed.
    pub mutable_users: bool,
}

/// One persisted name-to-identifier binding.
#[derive(Clone, Debug, PartialEq, Eq)]
pub struct IdMapEntry {
    pub name: String,
    pub id: u32,
}

/// A non-fatal condition, reported but not applied.
#[derive(Clone, Debug, PartialEq, Eq)]
pub enum Warning {
    /// An explicit gid differed from an existing group's gid; the
    /// existing gid was kept.
    GidChangeIgnored { name: String, existing: u32, requested: u32 },
    /// An explicit uid differed from an existing user's uid; the
    /// existing uid was kept.
    UidChangeIgnored { name: String, existing: u32, requested: u32 },
    /// Members added outside the specification were retained.
    MembersMerged { name: String },
    /// An undeclared group was removed.
    RemovedGroup { name: String },
    /// An undeclared user was removed.
    RemovedUser { name: String },
}

#[verifier::ext_equal]
pub struct GroupSpecV {
    pub name: Seq<char>,
    pub gid: Option<u32>,
    pub members: Seq<Seq<char>>,
    pub password: Option<Seq<char>>,
}

#[verifier::ext_equal]
pub struct UserSpecV {
    pub name: Seq<char>,
    pub uid: Option<u32>,
    pub group: Seq<char>,
    pub description: Seq<char>,
    pub home: Seq<char>,
    pub shell: Seq<char>,
    pub create_home: bool,
    pub is_system: bool,
    pub hashed_password: Option<Seq<char>>,
    pub password: Option<Seq<char>>,
    pub password_file: Option<Seq<char>>,
    pub initial_hashed_password: Option<Seq<char>>,
    pub initial_password: Option<Seq<char>>,
}

#[verifier::ext_equal]
pub struct IdMapEntryV {
    pub name: Seq<char>,
    pub id: u32,
}

#[verifier::ext_equal]
pub enum WarningV {
    GidChangeIgnored { name: Seq<char>, existing: u32, requested: u32 },
    UidChangeIgnored { name: Seq<char>, existing: u32, requested: u32 },
    MembersMerged { name: Seq<char> },
    RemovedGroup { name: Seq<char> },
    RemovedUser { name: Seq<char> },
}

pub open spec fn opt_view(o: Option<String>) -> Option<Seq<char>> {
    match o {
        None => None,
        Some(s) => Some(s@),
    }
}

impl View for GroupSpec {
    type V = GroupSpecV;

    open spec fn view(&self) -> GroupSpecV {
        GroupSpecV {
            name: self.name@,
            gid: self.gid,
            members: views(self.members@),
            password: opt_view(self.password),
        }
    }
}

impl View for UserSpec {
    type V = UserSpecV;

    open spec fn view(&self) -> UserSpecV {
        UserSpecV {
            name: self.name@,
            uid: self.uid,
            group: self.group@,
            description: self.description@,
            home: self.home@,
            shell: self.shell@,
            create_home: self.create_home,
            is_system: self.is_system,
            hashed_password: opt_view(self.hashed_password),
            password: opt_view(self.password),
            password_file: opt_view(self.password_file),
            initial_hashed_password: opt_view(self.initial_hashed_password),
            initial_password: opt_view(self.initial_password),
        }
    }
}

impl View for IdMapEntry {
    type V = IdMapEntryV;

    open spec fn view(&self) -> IdMapEntryV {
        IdMapEntryV { name: self.name@, id: self.id }
    }
}

impl View for Warning {
    type V = WarningV;

    open spec fn view(&self) -> WarningV {
        match self {
            Warning::GidChangeIgnored { name, existing, requested } => WarningV::GidChangeIgnored {
                name: name@,
                existing: *existing,
                requested: *requested,
            },
            Warning::UidChangeIgnored { name, existing, requested } => WarningV::UidChangeIgnored {
                name: name@,
                existing: *existing,
                requested: *requested,
            },
            Warning::MembersMerged { name } => WarningV::MembersMerged { name: name@ },
            Warning::RemovedGroup { name } => WarningV::RemovedGroup { name: name@ },
            Warning::RemovedUser { name } => WarningV::RemovedUser { name: name@ },
        }
    }
}

pub open spec fn group_spec_views(s: Seq<GroupSpec>) -> Seq<GroupSpecV> {
    s.map_values(|g: GroupSpec| g@)
}

pub open spec fn user_spec_views(s: Seq<UserSpec>) -> Seq<UserSpecV> {
    s.map_values(|u: UserSpec| u@)
}

pub open spec fn idmap_views(s: Seq<IdMapEntry>) -> Seq<IdMapEntryV> {
    s.map_values(|e: IdMapEntry| e@)
}

pub open spec fn warning_views(s: Seq<Warning>) -> Seq<WarningV> {
    s.map_values(|w: Warning| w@)
}

/// The working state of one reconciliation pass: the three databases
/// and the four persisted bookkeeping artifacts.
pub struct UsersGroups {
    pub passwd: Vec<PasswdEntry>,
    pub shadow: Vec<ShadowEntry>,
    pub group: Vec<GroupEntry>,
    pub uid_map: Vec<IdMapEntry>,
    pub gid_map: Vec<IdMapEntry>,
    pub declarative_users: Vec<String>,
    pub declarative_groups: Vec<String>,
}

// ---------------------------------------------------------------------
// Lookups and name sequences
// ---------------------------------------------------------------------

pub open spec fn lookup_group(gs: Seq<GroupEntryV>, name: Seq<char>) -> Option<GroupEntryV>
    decreases gs.len(),
{
    if gs.len() == 0 {
        None
    } else if gs[0].name == name {
        Some(gs[0])
    } else {
        lookup_group(gs.drop_first(), name)
    }
}

pub open spec fn lookup_passwd(ps: Seq<PasswdEntryV>, name: Seq<char>) -> Option<PasswdEntryV>
    decreases ps.len(),
{
    if ps.len() == 0 {
        None
    } else if ps[0].name == name {
        Some(ps[0])
    } else {
        lookup_passwd(ps.drop_first(), name)
    }
}

pub open spec fn lookup_shadow(ss: Seq<ShadowEntryV>, name: Seq<char>) -> Option<ShadowEntryV>
    decreases ss.len(),
{
    if ss.len() == 0 {
        None
    } else if ss[0].name == name {
        Some(ss[0])
    } else {
        lookup_shadow(ss.drop_first(), name)
    }
}

pub open spec fn group_spec_names(s: Seq<GroupSpecV>) -> Seq<Seq<char>> {
    s.map_values(|g: GroupSpecV| g.name)
}

pub open spec fn user_spec_names(s: Seq<UserSpecV>) -> Seq<Seq<char>> {
    s.map_values(|u: UserSpecV| u.name)
}

pub open spec fn group_names(s: Seq<GroupEntryV>) -> Seq<Seq<char>> {
    s.map_values(|g: GroupEntryV| g.name)
}

pub open spec fn passwd_names(s: Seq<PasswdEntryV>) -> Seq<Seq<char>> {
    s.map_values(|p: PasswdEntryV| p.name)
}

pub open spec fn group_spec_gids(s: Seq<GroupSpecV>) -> Seq<Option<u32>> {
    s.map_values(|g: GroupSpecV| g.gid)
}

pub open spec fn user_spec_uids(s: Seq<UserSpecV>) -> Seq<Option<u32>> {
    s.map_values(|u: UserSpecV| u.uid)
}

pub open spec fn group_gids(s: Seq<GroupEntryV>) -> Seq<u32> {
    s.map_values(|g: GroupEntryV| g.gid)
}

pub open spec fn passwd_uids(s: Seq<PasswdEntryV>) -> Seq<u32> {
    s.map_values(|p: PasswdEntryV| p.uid)
}

/// Two entries claim the same name.
pub open spec fn has_dup_names(names: Seq<Seq<char>>) -> bool {
    exists|i: int, j: int| 0 <= i < j < names.len() && names[i] == names[j]
}

/// Two entries claim the same explicit identifier.
pub open spec fn has_dup_explicit_ids(ids: Seq<Option<u32>>) -> bool {
    exists|i: int, j: int| 0 <= i < j < ids.len() && ids[i] is Some && ids[i] == ids[j]
}

/// The names a group member may refer to: users of the specification
/// and users already in the passwd database.
pub open spec fn member_universe(users: Seq<UserSpecV>, passwd: Seq<PasswdEntryV>) -> Seq<
    Seq<char>,
> {
    user_spec_names(users) + passwd_names(passwd)
}

/// Some group member does not resolve to a known user name.
pub open spec fn member_unresolved(specs: Seq<GroupSpecV>, universe: Seq<Seq<char>>) -> bool {
    exists|i: int, k: int|
        0 <= i < specs.len() && 0 <= k < specs[i].members.len() && !universe.contains(
            #[trigger] specs[i].members[k],
        )
}

// ---------------------------------------------------------------------
// The group pass, modelled
// ---------------------------------------------------------------------

/// Spec members first, then every previous member not in the spec, in
/// their previous order: members added outside the specification are
/// retained for a group the specification does not fully own.
pub open spec fn merge_members(spec_m: Seq<Seq<char>>, old_m: Seq<Seq<char>>) -> Seq<Seq<char>>
    decreases old_m.len(),
{
    if old_m.len() == 0 {
        spec_m
    } else {
        let pre = merge_members(spec_m, old_m.drop_last());
        if spec_m.contains(old_m.last()) {
            pre
        } else {
            pre.push(old_m.last())
        }
    }
}

/// The accumulated result of reconciling groups.
#[verifier::ext_equal]
pub struct GroupsAcc {
    pub groups: Seq<GroupEntryV>,
    pub gid_map: Seq<IdMapEntryV>,
    pub declarative: Seq<Seq<char>>,
    pub taken: Seq<u32>,
    pub warnings: Seq<WarningV>,
}

pub open spec fn groups_init(existing: Seq<GroupEntryV>) -> GroupsAcc {
    GroupsAcc {
        groups: Seq::empty(),
        gid_map: Seq::empty(),
        declarative: Seq::empty(),
        taken: group_gids(existing),
        warnings: Seq::empty(),
    }
}

/// How one group of the specification is reconciled against the
/// existing database.
pub open spec fn group_step(
    acc: GroupsAcc,
    g: GroupSpecV,
    existing: Seq<GroupEntryV>,
    decl: Seq<Seq<char>>,
) -> Result<GroupsAcc, EngineError> {
    match lookup_group(existing, g.name) {
        Some(e) => {
            let owned = decl.contains(g.name);
            let members = if owned {
                g.members
            } else {
                merge_members(g.members, e.members)
            };
            let w1 = if g.gid is Some && g.gid.unwrap() != e.gid {
                seq![
                    WarningV::GidChangeIgnored {
                        name: g.name,
                        existing: e.gid,
                        requested: g.gid.unwrap(),
                    },
                ]
            } else {
                Seq::empty()
            };
            let w2 = if !owned && members.len() > g.members.len() {
                seq![WarningV::MembersMerged { name: g.name }]
            } else {
                Seq::empty()
            };
            Ok(
                GroupsAcc {
                    groups: acc.groups.push(
                        GroupEntryV { name: g.name, passwd: e.passwd, gid: e.gid, members },
                    ),
                    gid_map: acc.gid_map.push(IdMapEntryV { name: g.name, id: e.gid }),
                    declarative: if owned {
                        acc.declarative.push(g.name)
                    } else {
                        acc.declarative
                    },
                    taken: acc.taken.push(e.gid),
                    warnings: acc.warnings + w1 + w2,
                },
            )
        },
        None => {
            if g.gid is Some && acc.taken.contains(g.gid.unwrap()) {
                Err(EngineError::DuplicateIdentifier)
            } else {
                let gid_o = match g.gid {
                    Some(x) => Some(x),
                    None => alloc_spec(
                        floor_of(IdKind::SystemGroup) as int,
                        ceiling_of(IdKind::SystemGroup) as int,
                        acc.taken,
                    ),
                };
                match gid_o {
                    None => Err(EngineError::ExhaustedRange),
                    Some(gid) => Ok(
                    GroupsAcc {
                        groups: acc.groups.push(
                            GroupEntryV {
                                name: g.name,
                                passwd: match g.password {
                                    Some(p) => p,
                                    None => seq!['x'],
                                },
                                gid,
                                members: g.members,
                            },
                        ),
                            gid_map: acc.gid_map.push(IdMapEntryV { name: g.name, id: gid }),
                            declarative: acc.declarative.push(g.name),
                            taken: acc.taken.push(gid),
                            warnings: acc.warnings,
                        },
                    ),
                }
            }
        },
    }
}

/// Reconciles the first `specs.len()` groups of the specification.
pub open spec fn groups_pass1(
    specs: Seq<GroupSpecV>,
    existing: Seq<GroupEntryV>,
    decl: Seq<Seq<char>>,
) -> Result<GroupsAcc, EngineError>
    decreases specs.len(),
{
    if specs.len() == 0 {
        Ok(groups_init(existing))
    } else {
        match groups_pass1(specs.drop_last(), existing, decl) {
            Err(e) => Err(e),
            Ok(acc) => group_step(acc, specs.last(), existing, decl),
        }
    }
}

/// The existing groups that are retained although the specification no
/// longer names them: only in mutable mode, and only when no prior
/// declarative run created them.
pub open spec fn kept_groups(
    existing: Seq<GroupEntryV>,
    spec_names: Seq<Seq<char>>,
    decl: Seq<Seq<char>>,
    mutable: bool,
) -> Seq<GroupEntryV>
    decreases existing.len(),
{
    if existing.len() == 0 {
        Seq::empty()
    } else {
        let pre = kept_groups(existing.drop_last(), spec_names, decl, mutable);
        let e = existing.last();
        if !spec_names.contains(e.name) && mutable && !decl.contains(e.name) {
            pre.push(e)
        } else {
            pre
        }
    }
}

/// One removal warning for every existing group that is neither in the
/// specification nor retained.
pub open spec fn removed_group_warnings(
    existing: Seq<GroupEntryV>,
    spec_names: Seq<Seq<char>>,
    decl: Seq<Seq<char>>,
    mutable: bool,
) -> Seq<WarningV>
    decreases existing.len(),
{
    if existing.len() == 0 {
        Seq::empty()
    } else {
        let pre = removed_group_warnings(existing.drop_last(), spec_names, decl, mutable);
        let e = existing.last();
        if !spec_names.contains(e.name) && !(mutable && !decl.contains(e.name)) {
            pre.push(WarningV::RemovedGroup { name: e.name })
        } else {
            pre
        }
    }
}

/// The names the group pass's new declarative set holds: the declared
/// names that did not exist before or were already declarative, in
/// specification order.
pub open spec fn declared_group_names(
    specs: Seq<GroupSpecV>,
    existing: Seq<GroupEntryV>,
    decl: Seq<Seq<char>>,
) -> Seq<Seq<char>>
    decreases specs.len(),
{
    if specs.len() == 0 {
        Seq::empty()
    } else {
        let pre = declared_group_names(specs.drop_last(), existing, decl);
        let g = specs.last();
        if lookup_group(existing, g.name) is None || decl.contains(g.name) {
            pre.push(g.name)
        } else {
            pre
        }
    }
}

/// The specification errors of the group pass, checked before anything
/// is reconciled.
pub open spec fn groups_spec_error(
    specs: Seq<GroupSpecV>,
    users: Seq<UserSpecV>,
    existing: Seq<GroupEntryV>,
    passwd: Seq<PasswdEntryV>,
) -> Option<EngineError> {
    if has_dup_names(group_spec_names(specs)) || has_dup_explicit_ids(group_spec_gids(specs)) {
        Some(EngineError::DuplicateIdentifier)
    } else if member_unresolved(specs, member_universe(users, passwd)) {
        Some(EngineError::MalformedSpecification)
    } else {
        None
    }
}

// ---------------------------------------------------------------------
// The user pass, modelled
// ---------------------------------------------------------------------

/// The stored hash of a reconciled user, by falling precedence:
/// explicit hash, hashed plaintext, password-file hash, the initial
/// variants when the account is new, the previously stored hash, and
/// finally the placeholder that locks the account.
pub open spec fn resolve_password(
    u: UserSpecV,
    existing_hash: Option<Seq<char>>,
    is_new: bool,
) -> Seq<char> {
    if u.hashed_password is Some {
        u.hashed_password.unwrap()
    } else if u.password is Some {
        u.password.unwrap()
    } else if u.password_file is Some {
        u.password_file.unwrap()
    } else if is_new && u.initial_hashed_password is Some {
        u.initial_hashed_password.unwrap()
    } else if is_new && u.initial_password is Some {
        u.initial_password.unwrap()
    } else if existing_hash is Some {
        existing_hash.unwrap()
    } else {
        seq!['!']
    }
}

/// The accumulated result of reconciling users.
#[verifier::ext_equal]
pub struct UsersAcc {
    pub passwd: Seq<PasswdEntryV>,
    pub shadow: Seq<ShadowEntryV>,
    pub uid_map: Seq<IdMapEntryV>,
    pub declarative: Seq<Seq<char>>,
    pub taken: Seq<u32>,
    pub warnings: Seq<WarningV>,
}

pub open spec fn users_init(existing: Seq<PasswdEntryV>) -> UsersAcc {
    UsersAcc {
        passwd: Seq::empty(),
        shadow: Seq::empty(),
        uid_map: Seq::empty(),
        declarative: Seq::empty(),
        taken: passwd_uids(existing),
        warnings: Seq::empty(),
    }
}

/// The shadow record of a reconciled user: the resolved hash, with the
/// aging fields preserved from the previous shadow record, or unset for
/// a user that had none.
pub open spec fn shadow_of(
    name: Seq<char>,
    hash: Seq<char>,
    prev: Option<ShadowEntryV>,
) -> ShadowEntryV {
    match prev {
        Some(se) => ShadowEntryV {
            name,
            passwd: hash,
            last_change: se.last_change,
            min: se.min,
            max: se.max,
            warning: se.warning,
            inactivity: se.inactivity,
            expires: se.expires,
            flag: se.flag,
        },
        None => ShadowEntryV {
            name,
            passwd: hash,
            last_change: None,
            min: None,
            max: None,
            warning: None,
            inactivity: None,
            expires: None,
            flag: None,
        },
    }
}

/// How one user of the specification is reconciled.
pub open spec fn user_step(
    acc: UsersAcc,
    u: UserSpecV,
    existing: Seq<PasswdEntryV>,
    existing_shadow: Seq<ShadowEntryV>,
    groups: Seq<GroupEntryV>,
    decl: Seq<Seq<char>>,
) -> Result<UsersAcc, EngineError> {
    match lookup_group(groups, u.group) {
        None => Err(EngineError::MalformedSpecification),
        Some(grp) => {
            let prev_shadow = lookup_shadow(existing_shadow, u.name);
            let existing_hash = match prev_shadow {
                Some(se) => Some(se.passwd),
                None => None,
            };
            match lookup_passwd(existing, u.name) {
                Some(e) => {
                    let w = if u.uid is Some && u.uid.unwrap() != e.uid {
                        seq![
                            WarningV::UidChangeIgnored {
                                name: u.name,
                                existing: e.uid,
                                requested: u.uid.unwrap(),
                            },
                        ]
                    } else {
                        Seq::empty()
                    };
                    Ok(
                        UsersAcc {
                            passwd: acc.passwd.push(
                                PasswdEntryV {
                                    name: u.name,
                                    passwd: e.passwd,
                                    uid: e.uid,
                                    gid: grp.gid,
                                    gecos: u.description,
                                    dir: u.home,
                                    shell: u.shell,
                                },
                            ),
                            shadow: acc.shadow.push(
                                shadow_of(
                                    u.name,
                                    resolve_password(u, existing_hash, false),
                                    prev_shadow,
                                ),
                            ),
                            uid_map: acc.uid_map.push(IdMapEntryV { name: u.name, id: e.uid }),
                            declarative: if decl.contains(u.name) {
                                acc.declarative.push(u.name)
                            } else {
                                acc.declarative
                            },
                            taken: acc.taken.push(e.uid),
                            warnings: acc.warnings + w,
                        },
                    )
                },
                None => {
                    if u.uid is Some && acc.taken.contains(u.uid.unwrap()) {
                        Err(EngineError::DuplicateIdentifier)
                    } else {
                        let kind = if u.is_system {
                            IdKind::SystemUser
                        } else {
                            IdKind::NormalUser
                        };
                        let uid_o = match u.uid {
                            Some(x) => Some(x),
                            None => alloc_spec(
                                floor_of(kind) as int,
                                ceiling_of(kind) as int,
                                acc.taken,
                            ),
                        };
                        match uid_o {
                            None => Err(EngineError::ExhaustedRange),
                            Some(uid) => Ok(
                            UsersAcc {
                                passwd: acc.passwd.push(
                                    PasswdEntryV {
                                        name: u.name,
                                        passwd: seq!['x'],
                                        uid,
                                        gid: grp.gid,
                                        gecos: u.description,
                                        dir: u.home,
                                        shell: u.shell,
                                    },
                                ),
                                shadow: acc.shadow.push(
                                    shadow_of(u.name, resolve_password(u, None, true), None),
                                ),
                                    uid_map: acc.uid_map.push(
                                        IdMapEntryV { name: u.name, id: uid },
                                    ),
                                    declarative: acc.declarative.push(u.name),
                                    taken: acc.taken.push(uid),
                                    warnings: acc.warnings,
                                },
                            ),
                        }
                    }
                },
            }
        },
    }
}

/// Reconciles the first `specs.len()` users of the specification.
pub open spec fn users_pass1(
    specs: Seq<UserSpecV>,
    existing: Seq<PasswdEntryV>,
    existing_shadow: Seq<ShadowEntryV>,
    groups: Seq<GroupEntryV>,
    decl: Seq<Seq<char>>,
) -> Result<UsersAcc, EngineError>
    decreases specs.len(),
{
    if specs.len() == 0 {
        Ok(users_init(existing))
    } else {
        match users_pass1(specs.drop_last(), existing, existing_shadow, groups, decl) {
            Err(e) => Err(e),
            Ok(acc) => user_step(acc, specs.last(), existing, existing_shadow, groups, decl),
        }
    }
}

/// The existing users that are retained although the specification no
/// longer names them.
pub open spec fn kept_users(
    existing: Seq<PasswdEntryV>,
    spec_names: Seq<Seq<char>>,
    decl: Seq<Seq<char>>,
    mutable: bool,
) -> Seq<PasswdEntryV>
    decreases existing.len(),
{
    if existing.len() == 0 {
        Seq::empty()
    } else {
        let pre = kept_users(existing.drop_last(), spec_names, decl, mutable);
        let e = existing.last();
        if !spec_names.contains(e.name) && mutable && !decl.contains(e.name) {
            pre.push(e)
        } else {
            pre
        }
    }
}

/// The shadow records of retained users, in their previous order; a
/// shadow record whose user is gone is dropped with it.
pub open spec fn kept_shadows(
    existing_shadow: Seq<ShadowEntryV>,
    kept_names: Seq<Seq<char>>,
) -> Seq<ShadowEntryV>
    decreases existing_shadow.len(),
{
    if existing_shadow.len() == 0 {
        Seq::empty()
    } else {
        let pre = kept_shadows(existing_shadow.drop_last(), kept_names);
        let e = existing_shadow.last();
        if kept_names.contains(e.name) {
            pre.push(e)
        } else {
            pre
        }
    }
}

/// One removal warning for every existing user that is neither in the
/// specification nor retained.
pub open spec fn removed_user_warnings(
    existing: Seq<PasswdEntryV>,
    spec_names: Seq<Seq<char>>,
    decl: Seq<Seq<char>>,
    mutable: bool,
) -> Seq<WarningV>
    decreases existing.len(),
{
    if existing.len() == 0 {
        Seq::empty()
    } else {
        let pre = removed_user_warnings(existing.drop_last(), spec_names, decl, mutable);
        let e = existing.last();
        if !spec_names.contains(e.name) && !(mutable && !decl.contains(e.name)) {
            pre.push(WarningV::RemovedUser { name: e.name })
        } else {
            pre
        }
    }
}

/// The names the user pass's new declarative set holds: the declared
/// names that did not exist before or were already declarative, in
/// specification order.
pub open spec fn declared_user_names(
    specs: Seq<UserSpecV>,
    existing: Seq<PasswdEntryV>,
    decl: Seq<Seq<char>>,
) -> Seq<Seq<char>>
    decreases specs.len(),
{
    if specs.len() == 0 {
        Seq::empty()
    } else {
        let pre = declared_user_names(specs.drop_last(), existing, decl);
        let u = specs.last();
        if lookup_passwd(existing, u.name) is None || decl.contains(u.name) {
            pre.push(u.name)
        } else {
            pre
        }
    }
}

/// The specification errors of the user pass: duplicate names or
/// explicit uids, or a primary group that does not resolve.
pub open spec fn users_spec_error(specs: Seq<UserSpecV>, groups: Seq<GroupEntryV>) -> Option<
    EngineError,
> {
    if has_dup_names(user_spec_names(specs)) || has_dup_explicit_ids(user_spec_uids(specs)) {
        Some(EngineError::DuplicateIdentifier)
    } else if exists|i: int|
        0 <= i < specs.len() && lookup_group(groups, (#[trigger] specs[i]).group) is None {
        Some(EngineError::MalformedSpecification)
    } else {
        None
    }
}

// ---------------------------------------------------------------------
// Error propagation through the folds
// ---------------------------------------------------------------------

pub proof fn lemma_groups_pass1_err(
    specs: Seq<GroupSpecV>,
    existing: Seq<GroupEntryV>,
    decl: Seq<Seq<char>>,
    i: int,
)
    requires
        0 <= i <= specs.len(),
        groups_pass1(specs.take(i), existing, decl) is Err,
    ensures
        groups_pass1(specs, existing, decl) == groups_pass1(specs.take(i), existing, decl),
    decreases specs.len() - i,
{
    if i == specs.len() {
        assert(specs.take(i) =~= specs);
    } else {
        assert(specs.take(i + 1).drop_last() =~= specs.take(i));
        assert(groups_pass1(specs.take(i + 1), existing, decl) == groups_pass1(
            specs.take(i),
            existing,
            decl,
        ));
        lemma_groups_pass1_err(specs, existing, decl, i + 1);
    }
}

pub proof fn lemma_users_pass1_err(
    specs: Seq<UserSpecV>,
    existing: Seq<PasswdEntryV>,
    existing_shadow: Seq<ShadowEntryV>,
    groups: Seq<GroupEntryV>,
    decl: Seq<Seq<char>>,
    i: int,
)
    requires
        0 <= i <= specs.len(),
        users_pass1(specs.take(i), existing, existing_shadow, groups, decl) is Err,
    ensures
        users_pass1(specs, existing, existing_shadow, groups, decl) == users_pass1(
            specs.take(i),
            existing,
            existing_shadow,
            groups,
            decl,
        ),
    decreases specs.len() - i,
{
    if i == specs.len() {
        assert(specs.take(i) =~= specs);
    } else {
        assert(specs.take(i + 1).drop_last() =~= specs.take(i));
        assert(users_pass1(specs.take(i + 1), existing, existing_shadow, groups, decl)
            == users_pass1(specs.take(i), existing, existing_shadow, groups, decl));
        lemma_users_pass1_err(specs, existing, existing_shadow, groups, decl, i + 1);
    }
}

// ---------------------------------------------------------------------
// Executable lookups
// ---------------------------------------------------------------------

/// Whether `name` occurs in `v`.
pub fn contains_name(v: &Vec<String>, name: &String) -> (r: bool)
    ensures
        r == views(v@).contains(name@),
{
    let mut i: usize = 0;
    while i < v.len()
        invariant
            0 <= i <= v@.len(),
            forall|j: int| 0 <= j < i ==> views(v@)[j] != name@,
        decreases v@.len() - i,
    {
        if v[i] == *name {
            proof {
                assert(views(v@)[i as int] == name@);
            }
            return true;
        }
        proof {
            assert(views(v@)[i as int] == v@[i as int]@);
        }
        i = i + 1;
    }
    false
}

/// The index of the first group of that name, if any.
pub fn find_group(gs: &Vec<GroupEntry>, name: &String) -> (r: Option<usize>)
    ensures
        match r {
            Some(i) => i < gs@.len() && lookup_group(group_views(gs@), name@) == Some(
                gs@[i as int]@,
            ),
            None => lookup_group(group_views(gs@), name@) is None,
        },
{
    let ghost gv = group_views(gs@);
    proof {
        assert(gv.skip(0) =~= gv);
    }
    let mut i: usize = 0;
    while i < gs.len()
        invariant
            0 <= i <= gs@.len(),
            gv == group_views(gs@),
            lookup_group(gv, name@) == lookup_group(gv.skip(i as int), name@),
        decreases gs@.len() - i,
    {
        proof {
            assert(gv.skip(i as int) =~= seq![gv[i as int]] + gv.skip(i as int + 1));
            assert(gv.skip(i as int)[0] == gv[i as int]);
            assert(gv.skip(i as int).drop_first() =~= gv.skip(i as int + 1));
        }
        if gs[i].name == *name {
            return Some(i);
        }
        i = i + 1;
    }
    proof {
        assert(gv.skip(gs@.len() as int) =~= Seq::<GroupEntryV>::empty());
    }
    None
}

/// The index of the first passwd record of that name, if any.
pub fn find_passwd(ps: &Vec<PasswdEntry>, name: &String) -> (r: Option<usize>)
    ensures
        match r {
            Some(i) => i < ps@.len() && lookup_passwd(passwd_views(ps@), name@) == Some(
                ps@[i as int]@,
            ),
            None => lookup_passwd(passwd_views(ps@), name@) is None,
        },
{
    let ghost pv = passwd_views(ps@);
    proof {
        assert(pv.skip(0) =~= pv);
    }
    let mut i: usize = 0;
    while i < ps.len()
        invariant
            0 <= i <= ps@.len(),
            pv == passwd_views(ps@),
            lookup_passwd(pv, name@) == lookup_passwd(pv.skip(i as int), name@),
        decreases ps@.len() - i,
    {
        proof {
            assert(pv.skip(i as int) =~= seq![pv[i as int]] + pv.skip(i as int + 1));
            assert(pv.skip(i as int)[0] == pv[i as int]);
            assert(pv.skip(i as int).drop_first() =~= pv.skip(i as int + 1));
        }
        if ps[i].name == *name {
            return Some(i);
        }
        i = i + 1;
    }
    proof {
        assert(pv.skip(ps@.len() as int) =~= Seq::<PasswdEntryV>::empty());
    }
    None
}

/// The index of the first shadow record of that name, if any.
pub fn find_shadow(ss: &Vec<ShadowEntry>, name: &String) -> (r: Option<usize>)
    ensures
        match r {
            Some(i) => i < ss@.len() && lookup_shadow(shadow_views(ss@), name@) == Some(
                ss@[i as int]@,
            ),
            None => lookup_shadow(shadow_views(ss@), name@) is None,
        },
{
    let ghost sv = shadow_views(ss@);
    proof {
        assert(sv.skip(0) =~= sv);
    }
    let mut i: usize = 0;
    while i < ss.len()
        invariant
            0 <= i <= ss@.len(),
            sv == shadow_views(ss@),
            lookup_shadow(sv, name@) == lookup_shadow(sv.skip(i as int), name@),
        decreases ss@.len() - i,
    {
        proof {
            assert(sv.skip(i as int) =~= seq![sv[i as int]] + sv.skip(i as int + 1));
            assert(sv.skip(i as int)[0] == sv[i as int]);
            assert(sv.skip(i as int).drop_first() =~= sv.skip(i as int + 1));
        }
        if ss[i].name == *name {
            return Some(i);
        }
        i = i + 1;
    }
    proof {
        assert(sv.skip(ss@.len() as int) =~= Seq::<ShadowEntryV>::empty());
    }
    None
}

// ---------------------------------------------------------------------
// Executable specification checks
// ---------------------------------------------------------------------

fn group_specs_have_dup_names(specs: &Vec<GroupSpec>) -> (r: bool)
    ensures
        r == has_dup_names(group_spec_names(group_spec_views(specs@))),
{
    let ghost names = group_spec_names(group_spec_views(specs@));
    let mut i: usize = 0;
    while i < specs.len()
        invariant
            0 <= i <= specs@.len(),
            names == group_spec_names(group_spec_views(specs@)),
            forall|a: int, b: int| 0 <= a < b < i ==> names[a] != names[b],
        decreases specs@.len() - i,
    {
        let mut j: usize = 0;
        while j < i
            invariant
                0 <= j <= i < specs@.len(),
                names == group_spec_names(group_spec_views(specs@)),
                forall|a: int, b: int| 0 <= a < b < i ==> names[a] != names[b],
                forall|a: int| 0 <= a < j ==> names[a] != names[i as int],
            decreases i - j,
        {
            if specs[j].name == specs[i].name {
                proof {
                    assert(names[j as int] == names[i as int]);
                    assert(has_dup_names(names));
                }
                return true;
            }
            proof {
                assert(names[j as int] == specs@[j as int]@.name);
                assert(names[i as int] == specs@[i as int]@.name);
            }
            j = j + 1;
        }
        i = i + 1;
    }
    false
}

fn group_specs_have_dup_gids(specs: &Vec<GroupSpec>) -> (r: bool)
    ensures
        r == has_dup_explicit_ids(group_spec_gids(group_spec_views(specs@))),
{
    let ghost ids = group_spec_gids(group_spec_views(specs@));
    let mut i: usize = 0;
    while i < specs.len()
        invariant
            0 <= i <= specs@.len(),
            ids == group_spec_gids(group_spec_views(specs@)),
            forall|a: int, b: int|
                0 <= a < b < i ==> !(ids[a] is Some && ids[a] == ids[b]),
        decreases specs@.len() - i,
    {
        let mut j: usize = 0;
        while j < i
            invariant
                0 <= j <= i < specs@.len(),
                ids == group_spec_gids(group_spec_views(specs@)),
                forall|a: int, b: int|
                    0 <= a < b < i ==> !(ids[a] is Some && ids[a] == ids[b]),
                forall|a: int| 0 <= a < j ==> !(ids[a] is Some && ids[a] == ids[i as int]),
            decreases i - j,
        {
            proof {
                assert(ids[j as int] == specs@[j as int]@.gid);
                assert(ids[i as int] == specs@[i as int]@.gid);
            }
            match (specs[j].gid, specs[i].gid) {
                (Some(a), Some(b)) => {
                    if a == b {
                        proof {
                            assert(ids[j as int] is Some && ids[j as int] == ids[i as int]);
                            assert(has_dup_explicit_ids(ids));
                        }
                        return true;
                    }
                },
                _ => {},
            }
            j = j + 1;
        }
        i = i + 1;
    }
    false
}

fn user_specs_have_dup_names(specs: &Vec<UserSpec>) -> (r: bool)
    ensures
        r == has_dup_names(user_spec_names(user_spec_views(specs@))),
{
    let ghost names = user_spec_names(user_spec_views(specs@));
    let mut i: usize = 0;
    while i < specs.len()
        invariant
            0 <= i <= specs@.len(),
            names == user_spec_names(user_spec_views(specs@)),
            forall|a: int, b: int| 0 <= a < b < i ==> names[a] != names[b],
        decreases specs@.len() - i,
    {
        let mut j: usize = 0;
        while j < i
            invariant
                0 <= j <= i < specs@.len(),
                names == user_spec_names(user_spec_views(specs@)),
                forall|a: int, b: int| 0 <= a < b < i ==> names[a] != names[b],
                forall|a: int| 0 <= a < j ==> names[a] != names[i as int],
            decreases i - j,
        {
            if specs[j].name == specs[i].name {
                proof {
                    assert(names[j as int] == names[i as int]);
                    assert(has_dup_names(names));
                }
                return true;
            }
            proof {
                assert(names[j as int] == specs@[j as int]@.name);
                assert(names[i as int] == specs@[i as int]@.name);
            }
            j = j + 1;
        }
        i = i + 1;
    }
    false
}

fn user_specs_have_dup_uids(specs: &Vec<UserSpec>) -> (r: bool)
    ensures
        r == has_dup_explicit_ids(user_spec_uids(user_spec_views(specs@))),
{
    let ghost ids = user_spec_uids(user_spec_views(specs@));
    let mut i: usize = 0;
    while i < specs.len()
        invariant
            0 <= i <= specs@.len(),
            ids == user_spec_uids(user_spec_views(specs@)),
            forall|a: int, b: int|
                0 <= a < b < i ==> !(ids[a] is Some && ids[a] == ids[b]),
        decreases specs@.len() - i,
    {
        let mut j: usize = 0;
        while j < i
            invariant
                0 <= j <= i < specs@.len(),
                ids == user_spec_uids(user_spec_views(specs@)),
                forall|a: int, b: int|
                    0 <= a < b < i ==> !(ids[a] is Some && ids[a] == ids[b]),
                forall|a: int| 0 <= a < j ==> !(ids[a] is Some && ids[a] == ids[i as int]),
            decreases i - j,
        {
            proof {
                assert(ids[j as int] == specs@[j as int]@.uid);
                assert(ids[i as int] == specs@[i as int]@.uid);
            }
            match (specs[j].uid, specs[i].uid) {
                (Some(a), Some(b)) => {
                    if a == b {
                        proof {
                            assert(ids[j as int] is Some && ids[j as int] == ids[i as int]);
                            assert(has_dup_explicit_ids(ids));
                        }
                        return true;
                    }
                },
                _ => {},
            }
            j = j + 1;
        }
        i = i + 1;
    }
    false
}

fn build_member_universe(users: &Vec<UserSpec>, passwd: &Vec<PasswdEntry>) -> (r: Vec<String>)
    ensures
        views(r@) == member_universe(user_spec_views(users@), passwd_views(passwd@)),
{
    let mut r: Vec<String> = Vec::new();
    let mut i: usize = 0;
    while i < users.len()
        invariant
            0 <= i <= users@.len(),
            r@.len() == i,
            forall|j: int| 0 <= j < i ==> #[trigger] r@[j]@ == users@[j]@.name,
        decreases users@.len() - i,
    {
        r.push(users[i].name.clone());
        i = i + 1;
    }
    let n = users.len();
    let mut k: usize = 0;
    while k < passwd.len()
        invariant
            0 <= k <= passwd@.len(),
            n == users@.len(),
            r@.len() == n + k,
            forall|j: int| 0 <= j < n ==> #[trigger] r@[j]@ == users@[j]@.name,
            forall|j: int| n <= j < n + k ==> #[trigger] r@[j]@ == passwd@[j - n]@.name,
        decreases passwd@.len() - k,
    {
        r.push(passwd[k].name.clone());
        k = k + 1;
    }
    proof {
        let target = member_universe(user_spec_views(users@), passwd_views(passwd@));
        assert forall|j: int| 0 <= j < target.len() implies views(r@)[j] == target[j] by {
            assert(views(r@)[j] == r@[j]@);
        }
        assert(views(r@) =~= target);
    }
    r
}

fn members_resolve(specs: &Vec<GroupSpec>, universe: &Vec<String>) -> (r: bool)
    ensures
        r == !member_unresolved(group_spec_views(specs@), views(universe@)),
{
    let ghost sv = group_spec_views(specs@);
    let ghost uni = views(universe@);
    let mut i: usize = 0;
    while i < specs.len()
        invariant
            0 <= i <= specs@.len(),
            sv == group_spec_views(specs@),
            uni == views(universe@),
            forall|a: int, k: int|
                0 <= a < i && 0 <= k < sv[a].members.len() ==> uni.contains(
                    #[trigger] sv[a].members[k],
                ),
        decreases specs@.len() - i,
    {
        let ms = &specs[i].members;
        let mut k: usize = 0;
        while k < ms.len()
            invariant
                0 <= k <= ms@.len(),
                sv == group_spec_views(specs@),
                uni == views(universe@),
                i < specs@.len(),
                ms@ == specs@[i as int].members@,
                forall|a: int, k2: int|
                    0 <= a < i && 0 <= k2 < sv[a].members.len() ==> uni.contains(
                        #[trigger] sv[a].members[k2],
                    ),
                forall|k2: int|
                    0 <= k2 < k ==> uni.contains(#[trigger] sv[i as int].members[k2]),
            decreases ms@.len() - k,
        {
            proof {
                assert(sv[i as int].members[k as int] == ms@[k as int]@);
            }
            if !contains_name(universe, &ms[k]) {
                proof {
                    assert(!uni.contains(sv[i as int].members[k as int]));
                    assert(member_unresolved(sv, uni));
                }
                return false;
            }
            k = k + 1;
        }
        i = i + 1;
    }
    true
}

fn spec_groups_contain_name(specs: &Vec<GroupSpec>, name: &String) -> (r: bool)
    ensures
        r == group_spec_names(group_spec_views(specs@)).contains(name@),
{
    let ghost names = group_spec_names(group_spec_views(specs@));
    let mut i: usize = 0;
    while i < specs.len()
        invariant
            0 <= i <= specs@.len(),
            names == group_spec_names(group_spec_views(specs@)),
            forall|j: int| 0 <= j < i ==> names[j] != name@,
        decreases specs@.len() - i,
    {
        if specs[i].name == *name {
            proof {
                assert(names[i as int] == name@);
            }
            return true;
        }
        proof {
            assert(names[i as int] == specs@[i as int]@.name);
        }
        i = i + 1;
    }
    false
}

fn spec_users_contain_name(specs: &Vec<UserSpec>, name: &String) -> (r: bool)
    ensures
        r == user_spec_names(user_spec_views(specs@)).contains(name@),
{
    let ghost names = user_spec_names(user_spec_views(specs@));
    let mut i: usize = 0;
    while i < specs.len()
        invariant
            0 <= i <= specs@.len(),
            names == user_spec_names(user_spec_views(specs@)),
            forall|j: int| 0 <= j < i ==> names[j] != name@,
        decreases specs@.len() - i,
    {
        if specs[i].name == *name {
            proof {
                assert(names[i as int] == name@);
            }
            return true;
        }
        proof {
            assert(names[i as int] == specs@[i as int]@.name);
        }
        i = i + 1;
    }
    false
}

/// Spec members first, then every previous member absent from the spec.
pub fn merge_member_lists(spec_m: &Vec<String>, old_m: &Vec<String>) -> (r: Vec<String>)
    ensures
        views(r@) == merge_members(views(spec_m@), views(old_m@)),
{
    let mut r = clone_strings(spec_m);
    proof {
        assert(views(old_m@).take(0) =~= Seq::<Seq<char>>::empty());
    }
    let mut k: usize = 0;
    while k < old_m.len()
        invariant
            0 <= k <= old_m@.len(),
            views(r@) == merge_members(views(spec_m@), views(old_m@).take(k as int)),
        decreases old_m@.len() - k,
    {
        proof {
            assert(views(old_m@).take(k as int + 1).drop_last() =~= views(old_m@).take(k as int));
            assert(views(old_m@).take(k as int + 1).last() == old_m@[k as int]@);
        }
        if !contains_name(spec_m, &old_m[k]) {
            r.push(old_m[k].clone());
            proof {
                assert(views(r@) =~= merge_members(
                    views(spec_m@),
                    views(old_m@).take(k as int),
                ).push(old_m@[k as int]@));
            }
        }
        k = k + 1;
    }
    proof {
        assert(views(old_m@).take(old_m@.len() as int) =~= views(old_m@));
    }
    r
}

/// The placeholder meaning "no password".
fn placeholder_password() -> (r: String)
    ensures
        r@ == seq!['x'],
{
    let s = "x";
    proof {
        reveal_strlit("x");
        assert(s@ =~= seq!['x']);
    }
    s.to_owned()
}

/// The placeholder that locks an account.
fn locked_password() -> (r: String)
    ensures
        r@ == seq!['!'],
{
    let s = "!";
    proof {
        reveal_strlit("!");
        assert(s@ =~= seq!['!']);
    }
    s.to_owned()
}

impl UsersGroups {
    /// Reconciles the group database against the specification.
    ///
    /// Each declared group resolves its gid in this order: the gid of
    /// an existing group of that name always wins (a differing explicit
    /// gid is ignored with a warning), else an explicit gid is used
    /// as given, else a fresh gid is allocated from the system group
    /// range. An explicit gid already in use — by any existing group or
    /// one resolved earlier in the pass — fails with
    /// `DuplicateIdentifier`, so gids stay unique. An existing group
    /// keeps its password; members added
    /// outside the specification are retained unless a prior run
    /// declared the group. Existing groups the specification no longer
    /// names are retained only in mutable mode and only when no prior
    /// declarative run created them; all others are removed with a
    /// warning. The gid map records the resolved gid of every declared
    /// group, and the declarative set the declared groups that this or
    /// a prior run created. On any error the state is unchanged.
    pub fn update_groups(&mut self, spec: &Specification) -> (r: Result<
        Vec<Warning>,
        EngineError,
    >)
        ensures
            final(self).passwd == old(self).passwd,
            final(self).shadow == old(self).shadow,
            final(self).uid_map == old(self).uid_map,
            final(self).declarative_users == old(self).declarative_users,
            ({
                let specs = group_spec_views(spec.groups@);
                let existing = group_views(old(self).group@);
                let decl = views(old(self).declarative_groups@);
                let err = groups_spec_error(
                    specs,
                    user_spec_views(spec.users@),
                    existing,
                    passwd_views(old(self).passwd@),
                );
                match r {
                    Ok(warnings) => {
                        &&& err is None
                        &&& groups_pass1(specs, existing, decl) is Ok
                        &&& group_views(final(self).group@) == groups_pass1(
                            specs,
                            existing,
                            decl,
                        ).unwrap().groups + kept_groups(
                            existing,
                            group_spec_names(specs),
                            decl,
                            spec.mutable_users,
                        )
                        &&& idmap_views(final(self).gid_map@) == groups_pass1(
                            specs,
                            existing,
                            decl,
                        ).unwrap().gid_map
                        &&& views(final(self).declarative_groups@) == groups_pass1(
                            specs,
                            existing,
                            decl,
                        ).unwrap().declarative
                        &&& warning_views(warnings@) == groups_pass1(
                            specs,
                            existing,
                            decl,
                        ).unwrap().warnings + removed_group_warnings(
                            existing,
                            group_spec_names(specs),
                            decl,
                            spec.mutable_users,
                        )
                    },
                    Err(e) => {
                        &&& match err {
                            Some(e2) => e == e2,
                            None => groups_pass1(specs, existing, decl) == Err::<
                                GroupsAcc,
                                EngineError,
                            >(e),
                        }
                        &&& final(self).group == old(self).group
                        &&& final(self).gid_map == old(self).gid_map
                        &&& final(self).declarative_groups == old(self).declarative_groups
                    },
                }
            }),
    {
        let ghost specs = group_spec_views(spec.groups@);
        let ghost existing = group_views(self.group@);
        let ghost decl = views(self.declarative_groups@);

        if group_specs_have_dup_names(&spec.groups) || group_specs_have_dup_gids(&spec.groups) {
            return Err(EngineError::DuplicateIdentifier);
        }
        let universe = build_member_universe(&spec.users, &self.passwd);
        if !members_resolve(&spec.groups, &universe) {
            return Err(EngineError::MalformedSpecification);
        }

        let mut taken: Vec<u32> = Vec::new();
        let mut t: usize = 0;
        while t < self.group.len()
            invariant
                0 <= t <= self.group@.len(),
                taken@.len() == t,
                forall|j: int| 0 <= j < t ==> #[trigger] taken@[j] == self.group@[j]@.gid,
            decreases self.group@.len() - t,
        {
            taken.push(self.group[t].gid);
            t = t + 1;
        }
        proof {
            assert(taken@ =~= group_gids(existing));
        }

        let mut groups_out: Vec<GroupEntry> = Vec::new();
        let mut gid_map_out: Vec<IdMapEntry> = Vec::new();
        let mut decl_out: Vec<String> = Vec::new();
        let mut warns: Vec<Warning> = Vec::new();

        proof {
            assert(specs.take(0) =~= Seq::<GroupSpecV>::empty());
            assert(group_views(groups_out@) =~= Seq::<GroupEntryV>::empty());
            assert(idmap_views(gid_map_out@) =~= Seq::<IdMapEntryV>::empty());
            assert(views(decl_out@) =~= Seq::<Seq<char>>::empty());
            assert(warning_views(warns@) =~= Seq::<WarningV>::empty());
            assert((GroupsAcc {
                groups: group_views(groups_out@),
                gid_map: idmap_views(gid_map_out@),
                declarative: views(decl_out@),
                taken: taken@,
                warnings: warning_views(warns@),
            }) =~~= groups_init(existing));
        }
        let mut i: usize = 0;
        while i < spec.groups.len()
            invariant
                0 <= i <= spec.groups@.len(),
                *self == *old(self),
                specs == group_spec_views(spec.groups@),
                existing == group_views(self.group@),
                decl == views(self.declarative_groups@),
                groups_spec_error(
                    specs,
                    user_spec_views(spec.users@),
                    existing,
                    passwd_views(old(self).passwd@),
                ) is None,
                groups_pass1(specs.take(i as int), existing, decl) == Ok::<
                    GroupsAcc,
                    EngineError,
                >(
                    GroupsAcc {
                        groups: group_views(groups_out@),
                        gid_map: idmap_views(gid_map_out@),
                        declarative: views(decl_out@),
                        taken: taken@,
                        warnings: warning_views(warns@),
                    },
                ),
            decreases spec.groups@.len() - i,
        {
            let g = &spec.groups[i];
            let ghost acc_prev = GroupsAcc {
                groups: group_views(groups_out@),
                gid_map: idmap_views(gid_map_out@),
                declarative: views(decl_out@),
                taken: taken@,
                warnings: warning_views(warns@),
            };
            proof {
                assert(specs.take(i as int + 1).drop_last() =~= specs.take(i as int));
                assert(specs.take(i as int + 1).last() == specs[i as int]);
                assert(specs[i as int] == g@);
            }
            match find_group(&self.group, &g.name) {
                Some(idx) => {
                    let e = &self.group[idx];
                    proof {
                        assert(lookup_group(existing, g@.name) == Some(e@));
                    }
                    let owned = contains_name(&self.declarative_groups, &g.name);
                    let members = if owned {
                        clone_strings(&g.members)
                    } else {
                        merge_member_lists(&g.members, &e.members)
                    };
                    match g.gid {
                        Some(x) => {
                            if x != e.gid {
                                warns.push(
                                    Warning::GidChangeIgnored {
                                        name: g.name.clone(),
                                        existing: e.gid,
                                        requested: x,
                                    },
                                );
                            }
                        },
                        None => {},
                    }
                    if !owned && members.len() > g.members.len() {
                        warns.push(Warning::MembersMerged { name: g.name.clone() });
                    }
                    let gid = e.gid;
                    groups_out.push(
                        GroupEntry { name: g.name.clone(), passwd: e.passwd.clone(), gid, members },
                    );
                    gid_map_out.push(IdMapEntry { name: g.name.clone(), id: gid });
                    if owned {
                        decl_out.push(g.name.clone());
                    }
                    taken.push(gid);
                    proof {
                        let stepped = group_step(acc_prev, specs[i as int], existing, decl);
                        let acc_new = GroupsAcc {
                            groups: group_views(groups_out@),
                            gid_map: idmap_views(gid_map_out@),
                            declarative: views(decl_out@),
                            taken: taken@,
                            warnings: warning_views(warns@),
                        };
                        assert(stepped is Ok);
                        assert(acc_new =~~= stepped.unwrap());
                        assert(groups_pass1(specs.take(i as int + 1), existing, decl)
                            == Ok::<GroupsAcc, EngineError>(acc_new));
                    }
                },
                None => {
                    match g.gid {
                        Some(x) => {
                            if contains_u32(&taken, x) {
                                proof {
                                    assert(group_step(acc_prev, specs[i as int], existing, decl)
                                        == Err::<GroupsAcc, EngineError>(
                                        EngineError::DuplicateIdentifier,
                                    ));
                                    assert(groups_pass1(specs.take(i as int + 1), existing, decl)
                                        == Err::<GroupsAcc, EngineError>(
                                        EngineError::DuplicateIdentifier,
                                    ));
                                    lemma_groups_pass1_err(specs, existing, decl, i as int + 1);
                                }
                                return Err(EngineError::DuplicateIdentifier);
                            }
                        },
                        None => {},
                    }
                    let gid = match g.gid {
                        Some(x) => x,
                        None => {
                            match allocate(IdKind::SystemGroup, &taken) {
                                Ok(id) => id,
                                Err(_) => {
                                    proof {
                                        assert(group_step(acc_prev, specs[i as int], existing, decl)
                                            == Err::<GroupsAcc, EngineError>(
                                            EngineError::ExhaustedRange,
                                        ));
                                        assert(groups_pass1(specs.take(i as int + 1), existing, decl)
                                            == Err::<GroupsAcc, EngineError>(
                                            EngineError::ExhaustedRange,
                                        ));
                                        lemma_groups_pass1_err(specs, existing, decl, i as int + 1);
                                    }
                                    return Err(EngineError::ExhaustedRange);
                                },
                            }
                        },
                    };
                    let passwd = match &g.password {
                        Some(p) => p.clone(),
                        None => placeholder_password(),
                    };
                    groups_out.push(
                        GroupEntry {
                            name: g.name.clone(),
                            passwd,
                            gid,
                            members: clone_strings(&g.members),
                        },
                    );
                    gid_map_out.push(IdMapEntry { name: g.name.clone(), id: gid });
                    decl_out.push(g.name.clone());
                    taken.push(gid);
                    proof {
                        let stepped = group_step(acc_prev, specs[i as int], existing, decl);
                        let acc_new = GroupsAcc {
                            groups: group_views(groups_out@),
                            gid_map: idmap_views(gid_map_out@),
                            declarative: views(decl_out@),
                            taken: taken@,
                            warnings: warning_views(warns@),
                        };
                        assert(stepped is Ok);
                        assert(acc_new =~~= stepped.unwrap());
                        assert(groups_pass1(specs.take(i as int + 1), existing, decl)
                            == Ok::<GroupsAcc, EngineError>(acc_new));
                    }
                },
            }
            i = i + 1;
        }
        proof {
            assert(specs.take(spec.groups@.len() as int) =~= specs);
        }
        let ghost acc1 = groups_pass1(specs, existing, decl).unwrap();
        let ghost spec_names = group_spec_names(specs);

        let mut kept: Vec<GroupEntry> = Vec::new();
        proof {
            assert(existing.take(0) =~= Seq::<GroupEntryV>::empty());
            assert(group_views(kept@) =~= kept_groups(
                existing.take(0),
                spec_names,
                decl,
                spec.mutable_users,
            ));
            assert(warning_views(warns@) =~= acc1.warnings + removed_group_warnings(
                existing.take(0),
                spec_names,
                decl,
                spec.mutable_users,
            ));
        }
        let mut k: usize = 0;
        while k < self.group.len()
            invariant
                0 <= k <= self.group@.len(),
                *self == *old(self),
                specs == group_spec_views(spec.groups@),
                existing == group_views(self.group@),
                decl == views(self.declarative_groups@),
                spec_names == group_spec_names(specs),
                groups_pass1(specs, existing, decl) == Ok::<GroupsAcc, EngineError>(acc1),
                group_views(kept@) == kept_groups(
                    existing.take(k as int),
                    spec_names,
                    decl,
                    spec.mutable_users,
                ),
                warning_views(warns@) == acc1.warnings + removed_group_warnings(
                    existing.take(k as int),
                    spec_names,
                    decl,
                    spec.mutable_users,
                ),
            decreases self.group@.len() - k,
        {
            proof {
                assert(existing.take(k as int + 1).drop_last() =~= existing.take(k as int));
                assert(existing.take(k as int + 1).last() == existing[k as int]);
                assert(existing[k as int] == self.group@[k as int]@);
            }
            let e = &self.group[k];
            let in_spec = spec_groups_contain_name(&spec.groups, &e.name);
            if !in_spec {
                let owned = contains_name(&self.declarative_groups, &e.name);
                if spec.mutable_users && !owned {
                    kept.push(e.duplicate());
                    proof {
                        assert(group_views(kept@) =~= kept_groups(
                            existing.take(k as int + 1),
                            spec_names,
                            decl,
                            spec.mutable_users,
                        ));
                    }
                } else {
                    let ghost wpre = warns@;
                    let w = Warning::RemovedGroup { name: e.name.clone() };
                    let ghost wv = w@;
                    proof {
                        assert(wv == WarningV::RemovedGroup { name: existing[k as int].name });
                    }
                    warns.push(w);
                    proof {
                        assert(warning_views(warns@) =~= warning_views(wpre).push(wv));
                        assert(removed_group_warnings(
                            existing.take(k as int + 1),
                            spec_names,
                            decl,
                            spec.mutable_users,
                        ) == removed_group_warnings(
                            existing.take(k as int),
                            spec_names,
                            decl,
                            spec.mutable_users,
                        ).push(WarningV::RemovedGroup { name: existing[k as int].name }));
                        assert(warning_views(warns@) =~= acc1.warnings + removed_group_warnings(
                            existing.take(k as int + 1),
                            spec_names,
                            decl,
                            spec.mutable_users,
                        ));
                    }
                }
            }
            k = k + 1;
        }
        proof {
            assert(existing.take(self.group@.len() as int) =~= existing);
        }

        let ghost pre = groups_out@;
        let ghost kv = kept@;
        groups_out.append(&mut kept);
        proof {
            let target = acc1.groups + kept_groups(existing, spec_names, decl, spec.mutable_users);
            assert forall|j: int|
                0 <= j < groups_out@.len() implies group_views(groups_out@)[j] == target[j] by {
                if j < pre.len() {
                    assert(groups_out@[j] == pre[j]);
                    assert(group_views(pre)[j] == acc1.groups[j]);
                } else {
                    assert(groups_out@[j] == kv[j - pre.len()]);
                    assert(group_views(kv)[j - pre.len()] == kept_groups(
                        existing,
                        spec_names,
                        decl,
                        spec.mutable_users,
                    )[j - pre.len()]);
                }
            }
            assert(group_views(groups_out@) =~= acc1.groups + kept_groups(
                existing,
                spec_names,
                decl,
                spec.mutable_users,
            ));
        }
        self.group = groups_out;
        self.gid_map = gid_map_out;
        self.declarative_groups = decl_out;
        Ok(warns)
    }

    /// Reconciles the passwd and shadow databases against the
    /// specification.
    ///
    /// Each declared user resolves its uid as groups resolve gids: an
    /// existing uid always wins (a differing explicit uid is ignored
    /// with a warning), else an explicit uid is used, else a fresh uid
    /// is allocated from the system or normal range as the user's
    /// system flag says. An explicit uid already in use — by any
    /// existing user or one resolved earlier in the pass — fails with
    /// `DuplicateIdentifier`, so uids stay unique. The primary gid
    /// comes from the group database,
    /// which must already contain the user's group. The stored hash is
    /// resolved by the documented precedence; the aging fields of an
    /// existing shadow record are preserved. Undeclared users are
    /// retained or removed as groups are, their shadow records with
    /// them. On any error the state is unchanged.
    pub fn update_users(&mut self, spec: &Specification) -> (r: Result<
        Vec<Warning>,
        EngineError,
    >)
        ensures
            final(self).group == old(self).group,
            final(self).gid_map == old(self).gid_map,
            final(self).declarative_groups == old(self).declarative_groups,
            ({
                let specs = user_spec_views(spec.users@);
                let existing = passwd_views(old(self).passwd@);
                let existing_shadow = shadow_views(old(self).shadow@);
                let groups = group_views(old(self).group@);
                let decl = views(old(self).declarative_users@);
                let err = users_spec_error(specs, groups);
                match r {
                    Ok(warnings) => {
                        &&& err is None
                        &&& users_pass1(specs, existing, existing_shadow, groups, decl) is Ok
                        &&& ({
                            let acc = users_pass1(
                                specs,
                                existing,
                                existing_shadow,
                                groups,
                                decl,
                            ).unwrap();
                            let spec_names = user_spec_names(specs);
                            let kept = kept_users(existing, spec_names, decl, spec.mutable_users);
                            &&& passwd_views(final(self).passwd@) == acc.passwd + kept
                            &&& shadow_views(final(self).shadow@) == acc.shadow + kept_shadows(
                                existing_shadow,
                                passwd_names(kept),
                            )
                            &&& idmap_views(final(self).uid_map@) == acc.uid_map
                            &&& views(final(self).declarative_users@) == acc.declarative
                            &&& warning_views(warnings@) == acc.warnings + removed_user_warnings(
                                existing,
                                spec_names,
                                decl,
                                spec.mutable_users,
                            )
                        })
                    },
                    Err(e) => {
                        &&& match err {
                            Some(e2) => e == e2,
                            None => users_pass1(specs, existing, existing_shadow, groups, decl)
                                == Err::<UsersAcc, EngineError>(e),
                        }
                        &&& final(self).passwd == old(self).passwd
                        &&& final(self).shadow == old(self).shadow
                        &&& final(self).uid_map == old(self).uid_map
                        &&& final(self).declarative_users == old(self).declarative_users
                    },
                }
            }),
    {
        let ghost specs = user_spec_views(spec.users@);
        let ghost existing = passwd_views(self.passwd@);
        let ghost existing_shadow = shadow_views(self.shadow@);
        let ghost groups = group_views(self.group@);
        let ghost decl = views(self.declarative_users@);

        if user_specs_have_dup_names(&spec.users) || user_specs_have_dup_uids(&spec.users) {
            return Err(EngineError::DuplicateIdentifier);
        }
        if !user_groups_resolve(&spec.users, &self.group) {
            return Err(EngineError::MalformedSpecification);
        }

        let mut taken: Vec<u32> = Vec::new();
        let mut t: usize = 0;
        while t < self.passwd.len()
            invariant
                0 <= t <= self.passwd@.len(),
                taken@.len() == t,
                forall|j: int| 0 <= j < t ==> #[trigger] taken@[j] == self.passwd@[j]@.uid,
            decreases self.passwd@.len() - t,
        {
            taken.push(self.passwd[t].uid);
            t = t + 1;
        }
        proof {
            assert(taken@ =~= passwd_uids(existing));
        }

        let mut passwd_out: Vec<PasswdEntry> = Vec::new();
        let mut shadow_out: Vec<ShadowEntry> = Vec::new();
        let mut uid_map_out: Vec<IdMapEntry> = Vec::new();
        let mut decl_out: Vec<String> = Vec::new();
        let mut warns: Vec<Warning> = Vec::new();

        proof {
            assert(specs.take(0) =~= Seq::<UserSpecV>::empty());
            assert(passwd_views(passwd_out@) =~= Seq::<PasswdEntryV>::empty());
            assert(shadow_views(shadow_out@) =~= Seq::<ShadowEntryV>::empty());
            assert(idmap_views(uid_map_out@) =~= Seq::<IdMapEntryV>::empty());
            assert(views(decl_out@) =~= Seq::<Seq<char>>::empty());
            assert(warning_views(warns@) =~= Seq::<WarningV>::empty());
            assert((UsersAcc {
                passwd: passwd_views(passwd_out@),
                shadow: shadow_views(shadow_out@),
                uid_map: idmap_views(uid_map_out@),
                declarative: views(decl_out@),
                taken: taken@,
                warnings: warning_views(warns@),
            }) =~~= users_init(existing));
        }
        let mut i: usize = 0;
        while i < spec.users.len()
            invariant
                0 <= i <= spec.users@.len(),
                *self == *old(self),
                specs == user_spec_views(spec.users@),
                existing == passwd_views(self.passwd@),
                existing_shadow == shadow_views(self.shadow@),
                groups == group_views(self.group@),
                decl == views(self.declarative_users@),
                users_spec_error(specs, groups) is None,
                users_pass1(specs.take(i as int), existing, existing_shadow, groups, decl) == Ok::<
                    UsersAcc,
                    EngineError,
                >(
                    UsersAcc {
                        passwd: passwd_views(passwd_out@),
                        shadow: shadow_views(shadow_out@),
                        uid_map: idmap_views(uid_map_out@),
                        declarative: views(decl_out@),
                        taken: taken@,
                        warnings: warning_views(warns@),
                    },
                ),
            decreases spec.users@.len() - i,
        {
            let u = &spec.users[i];
            let ghost acc_prev = UsersAcc {
                passwd: passwd_views(passwd_out@),
                shadow: shadow_views(shadow_out@),
                uid_map: idmap_views(uid_map_out@),
                declarative: views(decl_out@),
                taken: taken@,
                warnings: warning_views(warns@),
            };
            proof {
                assert(specs.take(i as int + 1).drop_last() =~= specs.take(i as int));
                assert(specs.take(i as int + 1).last() == specs[i as int]);
                assert(specs[i as int] == u@);
            }
            let grp_gid = match find_group(&self.group, &u.group) {
                Some(gidx) => self.group[gidx].gid,
                None => {
                    proof {
                        assert(lookup_group(groups, specs[i as int].group) is None);
                        assert(false);
                    }
                    return Err(EngineError::MalformedSpecification);
                },
            };
            let prev_shadow_idx = find_shadow(&self.shadow, &u.name);
            match find_passwd(&self.passwd, &u.name) {
                Some(idx) => {
                    let e = &self.passwd[idx];
                    proof {
                        assert(lookup_passwd(existing, u@.name) == Some(e@));
                    }
                    let existing_hash: Option<String> = match prev_shadow_idx {
                        Some(si) => Some(self.shadow[si].passwd.clone()),
                        None => None,
                    };
                    let hash = resolve_password_exec(u, &existing_hash, false);
                    match u.uid {
                        Some(x) => {
                            if x != e.uid {
                                warns.push(
                                    Warning::UidChangeIgnored {
                                        name: u.name.clone(),
                                        existing: e.uid,
                                        requested: x,
                                    },
                                );
                            }
                        },
                        None => {},
                    }
                    let uid = e.uid;
                    passwd_out.push(
                        PasswdEntry {
                            name: u.name.clone(),
                            passwd: e.passwd.clone(),
                            uid,
                            gid: grp_gid,
                            gecos: u.description.clone(),
                            dir: u.home.clone(),
                            shell: u.shell.clone(),
                        },
                    );
                    let se_new = match prev_shadow_idx {
                        Some(si) => {
                            let se = &self.shadow[si];
                            ShadowEntry {
                                name: u.name.clone(),
                                passwd: hash,
                                last_change: se.last_change,
                                min: se.min,
                                max: se.max,
                                warning: se.warning,
                                inactivity: se.inactivity,
                                expires: se.expires,
                                flag: se.flag,
                            }
                        },
                        None => ShadowEntry {
                            name: u.name.clone(),
                            passwd: hash,
                            last_change: None,
                            min: None,
                            max: None,
                            warning: None,
                            inactivity: None,
                            expires: None,
                            flag: None,
                        },
                    };
                    shadow_out.push(se_new);
                    uid_map_out.push(IdMapEntry { name: u.name.clone(), id: uid });
                    if contains_name(&self.declarative_users, &u.name) {
                        decl_out.push(u.name.clone());
                    }
                    taken.push(uid);
                    proof {
                        let stepped = user_step(
                            acc_prev,
                            specs[i as int],
                            existing,
                            existing_shadow,
                            groups,
                            decl,
                        );
                        let acc_new = UsersAcc {
                            passwd: passwd_views(passwd_out@),
                            shadow: shadow_views(shadow_out@),
                            uid_map: idmap_views(uid_map_out@),
                            declarative: views(decl_out@),
                            taken: taken@,
                            warnings: warning_views(warns@),
                        };
                        assert(stepped is Ok);
                        assert(acc_new =~~= stepped.unwrap());
                        assert(users_pass1(specs.take(i as int + 1), existing, existing_shadow, groups, decl)
                            == Ok::<UsersAcc, EngineError>(acc_new));
                    }
                },
                None => {
                    match u.uid {
                        Some(x) => {
                            if contains_u32(&taken, x) {
                                proof {
                                    assert(user_step(
                                        acc_prev,
                                        specs[i as int],
                                        existing,
                                        existing_shadow,
                                        groups,
                                        decl,
                                    ) == Err::<UsersAcc, EngineError>(
                                        EngineError::DuplicateIdentifier,
                                    ));
                                    assert(users_pass1(
                                        specs.take(i as int + 1),
                                        existing,
                                        existing_shadow,
                                        groups,
                                        decl,
                                    ) == Err::<UsersAcc, EngineError>(
                                        EngineError::DuplicateIdentifier,
                                    ));
                                    lemma_users_pass1_err(
                                        specs,
                                        existing,
                                        existing_shadow,
                                        groups,
                                        decl,
                                        i as int + 1,
                                    );
                                }
                                return Err(EngineError::DuplicateIdentifier);
                            }
                        },
                        None => {},
                    }
                    let kind = if u.is_system {
                        IdKind::SystemUser
                    } else {
                        IdKind::NormalUser
                    };
                    let uid = match u.uid {
                        Some(x) => x,
                        None => {
                            match allocate(kind, &taken) {
                                Ok(id) => id,
                                Err(_) => {
                                    proof {
                                        assert(user_step(
                                            acc_prev,
                                            specs[i as int],
                                            existing,
                                            existing_shadow,
                                            groups,
                                            decl,
                                        ) == Err::<UsersAcc, EngineError>(
                                            EngineError::ExhaustedRange,
                                        ));
                                        assert(users_pass1(
                                            specs.take(i as int + 1),
                                            existing,
                                            existing_shadow,
                                            groups,
                                            decl,
                                        ) == Err::<UsersAcc, EngineError>(
                                            EngineError::ExhaustedRange,
                                        ));
                                        lemma_users_pass1_err(
                                            specs,
                                            existing,
                                            existing_shadow,
                                            groups,
                                            decl,
                                            i as int + 1,
                                        );
                                    }
                                    return Err(EngineError::ExhaustedRange);
                                },
                            }
                        },
                    };
                    let none_hash: Option<String> = None;
                    let hash = resolve_password_exec(u, &none_hash, true);
                    passwd_out.push(
                        PasswdEntry {
                            name: u.name.clone(),
                            passwd: placeholder_password(),
                            uid,
                            gid: grp_gid,
                            gecos: u.description.clone(),
                            dir: u.home.clone(),
                            shell: u.shell.clone(),
                        },
                    );
                    shadow_out.push(
                        ShadowEntry {
                            name: u.name.clone(),
                            passwd: hash,
                            last_change: None,
                            min: None,
                            max: None,
                            warning: None,
                            inactivity: None,
                            expires: None,
                            flag: None,
                        },
                    );
                    uid_map_out.push(IdMapEntry { name: u.name.clone(), id: uid });
                    decl_out.push(u.name.clone());
                    taken.push(uid);
                    proof {
                        let stepped = user_step(
                            acc_prev,
                            specs[i as int],
                            existing,
                            existing_shadow,
                            groups,
                            decl,
                        );
                        let acc_new = UsersAcc {
                            passwd: passwd_views(passwd_out@),
                            shadow: shadow_views(shadow_out@),
                            uid_map: idmap_views(uid_map_out@),
                            declarative: views(decl_out@),
                            taken: taken@,
                            warnings: warning_views(warns@),
                        };
                        assert(stepped is Ok);
                        assert(acc_new =~~= stepped.unwrap());
                        assert(users_pass1(specs.take(i as int + 1), existing, existing_shadow, groups, decl)
                            == Ok::<UsersAcc, EngineError>(acc_new));
                    }
                },
            }
            i = i + 1;
        }
        proof {
            assert(specs.take(spec.users@.len() as int) =~= specs);
        }
        let ghost acc1 = users_pass1(specs, existing, existing_shadow, groups, decl).unwrap();
        let ghost spec_names = user_spec_names(specs);

        let mut kept: Vec<PasswdEntry> = Vec::new();
        let mut kept_names: Vec<String> = Vec::new();
        proof {
            assert(existing.take(0) =~= Seq::<PasswdEntryV>::empty());
            assert(passwd_views(kept@) =~= kept_users(
                existing.take(0),
                spec_names,
                decl,
                spec.mutable_users,
            ));
            assert(views(kept_names@) =~= passwd_names(kept_users(
                existing.take(0),
                spec_names,
                decl,
                spec.mutable_users,
            )));
            assert(warning_views(warns@) =~= acc1.warnings + removed_user_warnings(
                existing.take(0),
                spec_names,
                decl,
                spec.mutable_users,
            ));
        }
        let mut k: usize = 0;
        while k < self.passwd.len()
            invariant
                0 <= k <= self.passwd@.len(),
                *self == *old(self),
                specs == user_spec_views(spec.users@),
                existing == passwd_views(self.passwd@),
                existing_shadow == shadow_views(self.shadow@),
                groups == group_views(self.group@),
                decl == views(self.declarative_users@),
                spec_names == user_spec_names(specs),
                users_pass1(specs, existing, existing_shadow, groups, decl) == Ok::<
                    UsersAcc,
                    EngineError,
                >(acc1),
                passwd_views(kept@) == kept_users(
                    existing.take(k as int),
                    spec_names,
                    decl,
                    spec.mutable_users,
                ),
                views(kept_names@) == passwd_names(kept_users(
                    existing.take(k as int),
                    spec_names,
                    decl,
                    spec.mutable_users,
                )),
                warning_views(warns@) == acc1.warnings + removed_user_warnings(
                    existing.take(k as int),
                    spec_names,
                    decl,
                    spec.mutable_users,
                ),
            decreases self.passwd@.len() - k,
        {
            proof {
                assert(existing.take(k as int + 1).drop_last() =~= existing.take(k as int));
                assert(existing.take(k as int + 1).last() == existing[k as int]);
                assert(existing[k as int] == self.passwd@[k as int]@);
            }
            let e = &self.passwd[k];
            let in_spec = spec_users_contain_name(&spec.users, &e.name);
            if !in_spec {
                let owned = contains_name(&self.declarative_users, &e.name);
                if spec.mutable_users && !owned {
                    let ghost knpre = kept_names@;
                    kept.push(e.duplicate());
                    kept_names.push(e.name.clone());
                    proof {
                        assert(views(kept_names@) =~= views(knpre).push(existing[k as int].name));
                        assert(kept_users(
                            existing.take(k as int + 1),
                            spec_names,
                            decl,
                            spec.mutable_users,
                        ) == kept_users(
                            existing.take(k as int),
                            spec_names,
                            decl,
                            spec.mutable_users,
                        ).push(existing[k as int]));
                        assert(passwd_names(kept_users(
                            existing.take(k as int + 1),
                            spec_names,
                            decl,
                            spec.mutable_users,
                        )) =~= passwd_names(kept_users(
                            existing.take(k as int),
                            spec_names,
                            decl,
                            spec.mutable_users,
                        )).push(existing[k as int].name));
                        assert(passwd_views(kept@) =~= kept_users(
                            existing.take(k as int + 1),
                            spec_names,
                            decl,
                            spec.mutable_users,
                        ));
                        assert(views(kept_names@) =~= passwd_names(kept_users(
                            existing.take(k as int + 1),
                            spec_names,
                            decl,
                            spec.mutable_users,
                        )));
                    }
                } else {
                    let ghost wpre = warns@;
                    let w = Warning::RemovedUser { name: e.name.clone() };
                    let ghost wv = w@;
                    proof {
                        assert(wv == WarningV::RemovedUser { name: existing[k as int].name });
                    }
                    warns.push(w);
                    proof {
                        assert(warning_views(warns@) =~= warning_views(wpre).push(wv));
                        assert(removed_user_warnings(
                            existing.take(k as int + 1),
                            spec_names,
                            decl,
                            spec.mutable_users,
                        ) == removed_user_warnings(
                            existing.take(k as int),
                            spec_names,
                            decl,
                            spec.mutable_users,
                        ).push(WarningV::RemovedUser { name: existing[k as int].name }));
                        assert(warning_views(warns@) =~= acc1.warnings + removed_user_warnings(
                            existing.take(k as int + 1),
                            spec_names,
                            decl,
                            spec.mutable_users,
                        ));
                    }
                }
            }
            k = k + 1;
        }
        proof {
            assert(existing.take(self.passwd@.len() as int) =~= existing);
        }
        let ghost keptv = kept_users(existing, spec_names, decl, spec.mutable_users);

        let mut shadow_kept: Vec<ShadowEntry> = Vec::new();
        proof {
            assert(existing_shadow.take(0) =~= Seq::<ShadowEntryV>::empty());
            assert(shadow_views(shadow_kept@) =~= kept_shadows(
                existing_shadow.take(0),
                passwd_names(keptv),
            ));
        }
        let mut sk: usize = 0;
        while sk < self.shadow.len()
            invariant
                0 <= sk <= self.shadow@.len(),
                *self == *old(self),
                existing_shadow == shadow_views(self.shadow@),
                keptv == kept_users(existing, spec_names, decl, spec.mutable_users),
                views(kept_names@) == passwd_names(keptv),
                shadow_views(shadow_kept@) == kept_shadows(
                    existing_shadow.take(sk as int),
                    passwd_names(keptv),
                ),
            decreases self.shadow@.len() - sk,
        {
            proof {
                assert(existing_shadow.take(sk as int + 1).drop_last() =~= existing_shadow.take(
                    sk as int,
                ));
                assert(existing_shadow.take(sk as int + 1).last() == existing_shadow[sk as int]);
                assert(existing_shadow[sk as int] == self.shadow@[sk as int]@);
            }
            let se = &self.shadow[sk];
            if contains_name(&kept_names, &se.name) {
                shadow_kept.push(se.duplicate());
                proof {
                    assert(shadow_views(shadow_kept@) =~= kept_shadows(
                        existing_shadow.take(sk as int + 1),
                        passwd_names(keptv),
                    ));
                }
            }
            sk = sk + 1;
        }
        proof {
            assert(existing_shadow.take(self.shadow@.len() as int) =~= existing_shadow);
        }

        let ghost ppre = passwd_out@;
        let ghost pkv = kept@;
        passwd_out.append(&mut kept);
        proof {
            let target = acc1.passwd + keptv;
            assert forall|j: int|
                0 <= j < passwd_out@.len() implies passwd_views(passwd_out@)[j] == target[j] by {
                if j < ppre.len() {
                    assert(passwd_out@[j] == ppre[j]);
                    assert(passwd_views(ppre)[j] == acc1.passwd[j]);
                } else {
                    assert(passwd_out@[j] == pkv[j - ppre.len()]);
                    assert(passwd_views(pkv)[j - ppre.len()] == keptv[j - ppre.len()]);
                }
            }
            assert(passwd_views(passwd_out@) =~= acc1.passwd + keptv);
        }
        let ghost spre = shadow_out@;
        let ghost skv = shadow_kept@;
        shadow_out.append(&mut shadow_kept);
        proof {
            let target = acc1.shadow + kept_shadows(existing_shadow, passwd_names(keptv));
            assert forall|j: int|
                0 <= j < shadow_out@.len() implies shadow_views(shadow_out@)[j] == target[j] by {
                if j < spre.len() {
                    assert(shadow_out@[j] == spre[j]);
                    assert(shadow_views(spre)[j] == acc1.shadow[j]);
                } else {
                    assert(shadow_out@[j] == skv[j - spre.len()]);
                    assert(shadow_views(skv)[j - spre.len()] == kept_shadows(
                        existing_shadow,
                        passwd_names(keptv),
                    )[j - spre.len()]);
                }
            }
            assert(shadow_views(shadow_out@) =~= acc1.shadow + kept_shadows(
                existing_shadow,
                passwd_names(keptv),
            ));
        }
        self.passwd = passwd_out;
        self.shadow = shadow_out;
        self.uid_map = uid_map_out;
        self.declarative_users = decl_out;
        Ok(warns)
    }
}

/// Whether every user of the specification names a group that resolves.
fn user_groups_resolve(specs: &Vec<UserSpec>, groups: &Vec<GroupEntry>) -> (r: bool)
    ensures
        r == !(exists|i: int|
            0 <= i < user_spec_views(specs@).len() && lookup_group(
                group_views(groups@),
                (#[trigger] user_spec_views(specs@)[i]).group,
            ) is None),
{
    let ghost sv = user_spec_views(specs@);
    let ghost gv = group_views(groups@);
    let mut i: usize = 0;
    while i < specs.len()
        invariant
            0 <= i <= specs@.len(),
            sv == user_spec_views(specs@),
            gv == group_views(groups@),
            forall|j: int| 0 <= j < i ==> lookup_group(gv, (#[trigger] sv[j]).group) is Some,
        decreases specs@.len() - i,
    {
        proof {
            assert(sv[i as int].group == specs@[i as int]@.group);
        }
        match find_group(groups, &specs[i].group) {
            Some(_) => {},
            None => {
                proof {
                    assert(lookup_group(gv, sv[i as int].group) is None);
                }
                return false;
            },
        }
        i = i + 1;
    }
    true
}

/// The stored hash for one user, by the documented precedence. The
/// `existing_hash` is the hash of the user's previous shadow record.
fn resolve_password_exec(u: &UserSpec, existing_hash: &Option<String>, is_new: bool) -> (r: String)
    ensures
        r@ == resolve_password(u@, opt_view(*existing_hash), is_new),
{
    if let Some(h) = &u.hashed_password {
        return h.clone();
    }
    if let Some(h) = &u.password {
        return h.clone();
    }
    if let Some(h) = &u.password_file {
        return h.clone();
    }
    if is_new {
        if let Some(h) = &u.initial_hashed_password {
            return h.clone();
        }
        if let Some(h) = &u.initial_password {
            return h.clone();
        }
    }
    if let Some(h) = existing_hash {
        return h.clone();
    }
    locked_password()
}

} // verus!
