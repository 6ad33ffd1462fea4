//! The record codec: converts between structured `passwd`, `group` and
//! `shadow` records and their colon-delimited line formats, and proves
//! that decoding inverts encoding for every valid record set.

use vstd::prelude::*;
use vstd::string::StrSliceExecFns;
use crate::strfmt::dec_str;
use crate::strfmt::fmt_u32;
use crate::strfmt::join_str;
use crate::strfmt::join_with;
use crate::strfmt::lemma_dec_str_digits;
use crate::strfmt::lemma_dec_str_round_trip;
use crate::strfmt::lemma_digits_no_char;
use crate::strfmt::lemma_join_first_len;
use crate::strfmt::lemma_join_no_char;
use crate::strfmt::lemma_split_join;
use crate::strfmt::no_char;
use crate::strfmt::parse_u32;
use crate::strfmt::spec_parse_u32;
use crate::strfmt::split_str;
use crate::strfmt::split_with;
use crate::strfmt::views;
use crate::records::GroupEntry;
use crate::records::GroupEntryV;
use crate::records::PasswdEntry;
use crate::records::PasswdEntryV;
use crate::records::ShadowEntry;
use crate::records::ShadowEntryV;
use crate::records::group_views;
use crate::records::passwd_views;
use crate::records::shadow_views;
use crate::EngineError;

verus! {

// ---------------------------------------------------------------------
// Line formats
// ---------------------------------------------------------------------

/// The member list field: comma-joined names, empty for no members.
pub open spec fn members_field(ms: Seq<Seq<char>>) -> Seq<char> {
    if ms.len() == 0 {
        Seq::empty()
    } else {
        join_with(ms, ',')
    }
}

/// An optional numeric field: empty when unset.
pub open spec fn opt_field(o: Option<u32>) -> Seq<char> {
    match o {
        None => Seq::empty(),
        Some(n) => dec_str(n as nat),
    }
}

/// What parsing an optional numeric field yields: unset for the empty
/// field, otherwise the decimal value.
pub open spec fn spec_parse_opt_u32(s: Seq<char>) -> Option<Option<u32>> {
    if s.len() == 0 {
        Some(None)
    } else {
        match spec_parse_u32(s) {
            None => None,
            Some(n) => Some(Some(n)),
        }
    }
}

pub open spec fn group_fields(g: GroupEntryV) -> Seq<Seq<char>> {
    seq![g.name, g.passwd, dec_str(g.gid as nat), members_field(g.members)]
}

pub open spec fn passwd_fields(p: PasswdEntryV) -> Seq<Seq<char>> {
    seq![
        p.name,
        p.passwd,
        dec_str(p.uid as nat),
        dec_str(p.gid as nat),
        p.gecos,
        p.dir,
        p.shell,
    ]
}

pub open spec fn shadow_fields(s: ShadowEntryV) -> Seq<Seq<char>> {
    seq![
        s.name,
        s.passwd,
        opt_field(s.last_change),
        opt_field(s.min),
        opt_field(s.max),
        opt_field(s.warning),
        opt_field(s.inactivity),
        opt_field(s.expires),
        opt_field(s.flag),
    ]
}

pub open spec fn spec_encode_group_line(g: GroupEntryV) -> Seq<char> {
    join_with(group_fields(g), ':')
}

pub open spec fn spec_encode_passwd_line(p: PasswdEntryV) -> Seq<char> {
    join_with(passwd_fields(p), ':')
}

pub open spec fn spec_encode_shadow_line(s: ShadowEntryV) -> Seq<char> {
    join_with(shadow_fields(s), ':')
}

pub open spec fn decode_members(f: Seq<char>) -> Seq<Seq<char>> {
    if f.len() == 0 {
        Seq::empty()
    } else {
        split_with(f, ',')
    }
}

pub open spec fn spec_decode_group_line(s: Seq<char>) -> Option<GroupEntryV> {
    let fs = split_with(s, ':');
    if fs.len() != 4 {
        None
    } else if fs[0].len() == 0 {
        None
    } else {
        match spec_parse_u32(fs[2]) {
            None => None,
            Some(gid) => Some(
                GroupEntryV { name: fs[0], passwd: fs[1], gid, members: decode_members(fs[3]) },
            ),
        }
    }
}

pub open spec fn spec_decode_passwd_line(s: Seq<char>) -> Option<PasswdEntryV> {
    let fs = split_with(s, ':');
    if fs.len() != 7 {
        None
    } else if fs[0].len() == 0 {
        None
    } else {
        match (spec_parse_u32(fs[2]), spec_parse_u32(fs[3])) {
            (Some(uid), Some(gid)) => Some(
                PasswdEntryV {
                    name: fs[0],
                    passwd: fs[1],
                    uid,
                    gid,
                    gecos: fs[4],
                    dir: fs[5],
                    shell: fs[6],
                },
            ),
            _ => None,
        }
    }
}

pub open spec fn spec_decode_shadow_line(s: Seq<char>) -> Option<ShadowEntryV> {
    let fs = split_with(s, ':');
    if fs.len() != 9 {
        None
    } else if fs[0].len() == 0 {
        None
    } else {
        match (
            spec_parse_opt_u32(fs[2]),
            spec_parse_opt_u32(fs[3]),
            spec_parse_opt_u32(fs[4]),
            spec_parse_opt_u32(fs[5]),
            spec_parse_opt_u32(fs[6]),
            spec_parse_opt_u32(fs[7]),
            spec_parse_opt_u32(fs[8]),
        ) {
            (
                Some(last_change),
                Some(min),
                Some(max),
                Some(warning),
                Some(inactivity),
                Some(expires),
                Some(flag),
            ) => Some(
                ShadowEntryV {
                    name: fs[0],
                    passwd: fs[1],
                    last_change,
                    min,
                    max,
                    warning,
                    inactivity,
                    expires,
                    flag,
                },
            ),
            _ => None,
        }
    }
}

// ---------------------------------------------------------------------
// File formats: one record per line, no trailing newline
// ---------------------------------------------------------------------

pub open spec fn spec_encode_group_file(gs: Seq<GroupEntryV>) -> Seq<char> {
    if gs.len() == 0 {
        Seq::empty()
    } else {
        join_with(gs.map_values(|g: GroupEntryV| spec_encode_group_line(g)), '\n')
    }
}

pub open spec fn spec_encode_passwd_file(ps: Seq<PasswdEntryV>) -> Seq<char> {
    if ps.len() == 0 {
        Seq::empty()
    } else {
        join_with(ps.map_values(|p: PasswdEntryV| spec_encode_passwd_line(p)), '\n')
    }
}

pub open spec fn spec_encode_shadow_file(ss: Seq<ShadowEntryV>) -> Seq<char> {
    if ss.len() == 0 {
        Seq::empty()
    } else {
        join_with(ss.map_values(|s: ShadowEntryV| spec_encode_shadow_line(s)), '\n')
    }
}

pub open spec fn spec_decode_group_file(s: Seq<char>) -> Option<Seq<GroupEntryV>> {
    if s.len() == 0 {
        Some(Seq::empty())
    } else {
        let lines = split_with(s, '\n');
        if forall|i: int| 0 <= i < lines.len() ==> (#[trigger] spec_decode_group_line(
            lines[i],
        )) is Some {
            Some(lines.map_values(|l: Seq<char>| spec_decode_group_line(l).unwrap()))
        } else {
            None
        }
    }
}

pub open spec fn spec_decode_passwd_file(s: Seq<char>) -> Option<Seq<PasswdEntryV>> {
    if s.len() == 0 {
        Some(Seq::empty())
    } else {
        let lines = split_with(s, '\n');
        if forall|i: int| 0 <= i < lines.len() ==> (#[trigger] spec_decode_passwd_line(
            lines[i],
        )) is Some {
            Some(lines.map_values(|l: Seq<char>| spec_decode_passwd_line(l).unwrap()))
        } else {
            None
        }
    }
}

pub open spec fn spec_decode_shadow_file(s: Seq<char>) -> Option<Seq<ShadowEntryV>> {
    if s.len() == 0 {
        Some(Seq::empty())
    } else {
        let lines = split_with(s, '\n');
        if forall|i: int| 0 <= i < lines.len() ==> (#[trigger] spec_decode_shadow_line(
            lines[i],
        )) is Some {
            Some(lines.map_values(|l: Seq<char>| spec_decode_shadow_line(l).unwrap()))
        } else {
            None
        }
    }
}

// ---------------------------------------------------------------------
// Round trip: decoding inverts encoding on valid records
// ---------------------------------------------------------------------

proof fn lemma_opt_field_ok(o: Option<u32>)
    ensures
        no_char(opt_field(o), ':'),
        no_char(opt_field(o), '\n'),
        spec_parse_opt_u32(opt_field(o)) == Some(o),
{
    match o {
        None => {},
        Some(n) => {
            lemma_dec_str_digits(n as nat);
            lemma_digits_no_char(dec_str(n as nat), ':');
            lemma_digits_no_char(dec_str(n as nat), '\n');
            lemma_dec_str_round_trip(n);
        },
    }
}

proof fn lemma_group_fields_ok(g: GroupEntryV)
    requires
        g.valid(),
    ensures
        forall|i: int|
            0 <= i < group_fields(g).len() ==> no_char(#[trigger] group_fields(g)[i], ':')
                && no_char(group_fields(g)[i], '\n'),
{
    lemma_dec_str_digits(g.gid as nat);
    lemma_digits_no_char(dec_str(g.gid as nat), ':');
    lemma_digits_no_char(dec_str(g.gid as nat), '\n');
    if g.members.len() > 0 {
        lemma_join_no_char(g.members, ',', ':');
        lemma_join_no_char(g.members, ',', '\n');
    }
}

proof fn lemma_passwd_fields_ok(p: PasswdEntryV)
    requires
        p.valid(),
    ensures
        forall|i: int|
            0 <= i < passwd_fields(p).len() ==> no_char(#[trigger] passwd_fields(p)[i], ':')
                && no_char(passwd_fields(p)[i], '\n'),
{
    lemma_dec_str_digits(p.uid as nat);
    lemma_digits_no_char(dec_str(p.uid as nat), ':');
    lemma_digits_no_char(dec_str(p.uid as nat), '\n');
    lemma_dec_str_digits(p.gid as nat);
    lemma_digits_no_char(dec_str(p.gid as nat), ':');
    lemma_digits_no_char(dec_str(p.gid as nat), '\n');
}

proof fn lemma_shadow_fields_ok(s: ShadowEntryV)
    requires
        s.valid(),
    ensures
        forall|i: int|
            0 <= i < shadow_fields(s).len() ==> no_char(#[trigger] shadow_fields(s)[i], ':')
                && no_char(shadow_fields(s)[i], '\n'),
{
    lemma_opt_field_ok(s.last_change);
    lemma_opt_field_ok(s.min);
    lemma_opt_field_ok(s.max);
    lemma_opt_field_ok(s.warning);
    lemma_opt_field_ok(s.inactivity);
    lemma_opt_field_ok(s.expires);
    lemma_opt_field_ok(s.flag);
}

/// Decoding a group line inverts encoding it.
pub proof fn lemma_group_line_round_trip(g: GroupEntryV)
    requires
        g.valid(),
    ensures
        spec_decode_group_line(spec_encode_group_line(g)) == Some(g),
{
    let fs = group_fields(g);
    lemma_group_fields_ok(g);
    lemma_split_join(fs, ':');
    lemma_dec_str_round_trip(g.gid);
    if g.members.len() > 0 {
        lemma_join_first_len(g.members, ',');
        lemma_split_join(g.members, ',');
    }
    assert(spec_decode_group_line(spec_encode_group_line(g)).unwrap() =~= g);
}

/// Decoding a passwd line inverts encoding it.
pub proof fn lemma_passwd_line_round_trip(p: PasswdEntryV)
    requires
        p.valid(),
    ensures
        spec_decode_passwd_line(spec_encode_passwd_line(p)) == Some(p),
{
    let fs = passwd_fields(p);
    lemma_passwd_fields_ok(p);
    lemma_split_join(fs, ':');
    lemma_dec_str_round_trip(p.uid);
    lemma_dec_str_round_trip(p.gid);
    assert(spec_decode_passwd_line(spec_encode_passwd_line(p)).unwrap() =~= p);
}

/// Decoding a shadow line inverts encoding it, including lines with
/// every aging field unset.
pub proof fn lemma_shadow_line_round_trip(s: ShadowEntryV)
    requires
        s.valid(),
    ensures
        spec_decode_shadow_line(spec_encode_shadow_line(s)) == Some(s),
{
    let fs = shadow_fields(s);
    lemma_shadow_fields_ok(s);
    lemma_split_join(fs, ':');
    lemma_opt_field_ok(s.last_change);
    lemma_opt_field_ok(s.min);
    lemma_opt_field_ok(s.max);
    lemma_opt_field_ok(s.warning);
    lemma_opt_field_ok(s.inactivity);
    lemma_opt_field_ok(s.expires);
    lemma_opt_field_ok(s.flag);
    assert(spec_decode_shadow_line(spec_encode_shadow_line(s)).unwrap() =~= s);
}

/// Decoding a group file inverts encoding it, for every valid record
/// set, including the empty one and groups with no members.
pub proof fn lemma_group_file_round_trip(gs: Seq<GroupEntryV>)
    requires
        forall|i: int| 0 <= i < gs.len() ==> (#[trigger] gs[i]).valid(),
    ensures
        spec_decode_group_file(spec_encode_group_file(gs)) == Some(gs),
{
    if gs.len() == 0 {
        assert(spec_decode_group_file(spec_encode_group_file(gs)) =~~= Some(gs));
    } else {
        let lines = gs.map_values(|g: GroupEntryV| spec_encode_group_line(g));
        assert forall|i: int| 0 <= i < lines.len() implies no_char(#[trigger] lines[i], '\n') by {
            lemma_group_fields_ok(gs[i]);
            lemma_join_no_char(group_fields(gs[i]), ':', '\n');
        }
        lemma_split_join(lines, '\n');
        lemma_join_first_len(lines, '\n');
        lemma_join_first_len(group_fields(gs[0]), ':');
        assert(lines[0].len() >= gs[0].name.len());
        assert(spec_encode_group_file(gs).len() >= 1);
        assert forall|i: int| 0 <= i < lines.len() implies (#[trigger] spec_decode_group_line(
            lines[i],
        )) == Some(gs[i]) by {
            lemma_group_line_round_trip(gs[i]);
        }
        assert(lines.map_values(|l: Seq<char>| spec_decode_group_line(l).unwrap()) =~= gs);
    }
}

/// Decoding a passwd file inverts encoding it, for every valid record set.
pub proof fn lemma_passwd_file_round_trip(ps: Seq<PasswdEntryV>)
    requires
        forall|i: int| 0 <= i < ps.len() ==> (#[trigger] ps[i]).valid(),
    ensures
        spec_decode_passwd_file(spec_encode_passwd_file(ps)) == Some(ps),
{
    if ps.len() == 0 {
        assert(spec_decode_passwd_file(spec_encode_passwd_file(ps)) =~~= Some(ps));
    } else {
        let lines = ps.map_values(|p: PasswdEntryV| spec_encode_passwd_line(p));
        assert forall|i: int| 0 <= i < lines.len() implies no_char(#[trigger] lines[i], '\n') by {
            lemma_passwd_fields_ok(ps[i]);
            lemma_join_no_char(passwd_fields(ps[i]), ':', '\n');
        }
        lemma_split_join(lines, '\n');
        lemma_join_first_len(lines, '\n');
        lemma_join_first_len(passwd_fields(ps[0]), ':');
        assert(lines[0].len() >= ps[0].name.len());
        assert(spec_encode_passwd_file(ps).len() >= 1);
        assert forall|i: int| 0 <= i < lines.len() implies (#[trigger] spec_decode_passwd_line(
            lines[i],
        )) == Some(ps[i]) by {
            lemma_passwd_line_round_trip(ps[i]);
        }
        assert(lines.map_values(|l: Seq<char>| spec_decode_passwd_line(l).unwrap()) =~= ps);
    }
}

/// Decoding a shadow file inverts encoding it, for every valid record set.
pub proof fn lemma_shadow_file_round_trip(ss: Seq<ShadowEntryV>)
    requires
        forall|i: int| 0 <= i < ss.len() ==> (#[trigger] ss[i]).valid(),
    ensures
        spec_decode_shadow_file(spec_encode_shadow_file(ss)) == Some(ss),
{
    if ss.len() == 0 {
        assert(spec_decode_shadow_file(spec_encode_shadow_file(ss)) =~~= Some(ss));
    } else {
        let lines = ss.map_values(|s: ShadowEntryV| spec_encode_shadow_line(s));
        assert forall|i: int| 0 <= i < lines.len() implies no_char(#[trigger] lines[i], '\n') by {
            lemma_shadow_fields_ok(ss[i]);
            lemma_join_no_char(shadow_fields(ss[i]), ':', '\n');
        }
        lemma_split_join(lines, '\n');
        lemma_join_first_len(lines, '\n');
        lemma_join_first_len(shadow_fields(ss[0]), ':');
        assert(lines[0].len() >= ss[0].name.len());
        assert(spec_encode_shadow_file(ss).len() >= 1);
        assert forall|i: int| 0 <= i < lines.len() implies (#[trigger] spec_decode_shadow_line(
            lines[i],
        )) == Some(ss[i]) by {
            lemma_shadow_line_round_trip(ss[i]);
        }
        assert(lines.map_values(|l: Seq<char>| spec_decode_shadow_line(l).unwrap()) =~= ss);
    }
}

// ---------------------------------------------------------------------
// Executable codec
// ---------------------------------------------------------------------

fn fmt_opt_u32(o: &Option<u32>) -> (r: String)
    ensures
        r@ == opt_field(*o),
{
    match o {
        None => String::new(),
        Some(n) => fmt_u32(*n),
    }
}

fn parse_opt_u32(s: &str) -> (r: Option<Option<u32>>)
    ensures
        r == spec_parse_opt_u32(s@),
{
    if s.unicode_len() == 0 {
        Some(None)
    } else {
        match parse_u32(s) {
            None => None,
            Some(n) => Some(Some(n)),
        }
    }
}

/// Encodes one group record as its colon-delimited line.
pub fn encode_group_line(e: &GroupEntry) -> (r: String)
    ensures
        r@ == spec_encode_group_line(e@),
{
    let members_s = if e.members.len() == 0 {
        String::new()
    } else {
        join_str(&e.members, ',')
    };
    let mut fields: Vec<String> = Vec::new();
    fields.push(e.name.clone());
    fields.push(e.passwd.clone());
    fields.push(fmt_u32(e.gid));
    fields.push(members_s);
    proof {
        assert(views(fields@) =~= group_fields(e@));
    }
    join_str(&fields, ':')
}

/// Encodes one passwd record as its colon-delimited line.
pub fn encode_passwd_line(e: &PasswdEntry) -> (r: String)
    ensures
        r@ == spec_encode_passwd_line(e@),
{
    let mut fields: Vec<String> = Vec::new();
    fields.push(e.name.clone());
    fields.push(e.passwd.clone());
    fields.push(fmt_u32(e.uid));
    fields.push(fmt_u32(e.gid));
    fields.push(e.gecos.clone());
    fields.push(e.dir.clone());
    fields.push(e.shell.clone());
    proof {
        assert(views(fields@) =~= passwd_fields(e@));
    }
    join_str(&fields, ':')
}

/// Encodes one shadow record as its colon-delimited line; unset aging
/// fields render as empty fields.
pub fn encode_shadow_line(e: &ShadowEntry) -> (r: String)
    ensures
        r@ == spec_encode_shadow_line(e@),
{
    let mut fields: Vec<String> = Vec::new();
    fields.push(e.name.clone());
    fields.push(e.passwd.clone());
    fields.push(fmt_opt_u32(&e.last_change));
    fields.push(fmt_opt_u32(&e.min));
    fields.push(fmt_opt_u32(&e.max));
    fields.push(fmt_opt_u32(&e.warning));
    fields.push(fmt_opt_u32(&e.inactivity));
    fields.push(fmt_opt_u32(&e.expires));
    fields.push(fmt_opt_u32(&e.flag));
    proof {
        assert(views(fields@) =~= shadow_fields(e@));
    }
    join_str(&fields, ':')
}

/// Decodes one group line; `None` for a malformed line.
pub fn decode_group_line(s: &str) -> (r: Option<GroupEntry>)
    ensures
        r is Some <==> spec_decode_group_line(s@) is Some,
        r is Some ==> r.unwrap()@ == spec_decode_group_line(s@).unwrap(),
{
    let fields = split_str(s, ':');
    if fields.len() != 4 {
        return None;
    }
    if fields[0].as_str().unicode_len() == 0 {
        return None;
    }
    let gid = match parse_u32(fields[2].as_str()) {
        None => {
            return None;
        },
        Some(g) => g,
    };
    let members: Vec<String> = if fields[3].as_str().unicode_len() == 0 {
        Vec::new()
    } else {
        split_str(fields[3].as_str(), ',')
    };
    let e = GroupEntry { name: fields[0].clone(), passwd: fields[1].clone(), gid, members };
    proof {
        assert(e@ =~= spec_decode_group_line(s@).unwrap());
    }
    Some(e)
}

/// Decodes one passwd line; `None` for a malformed line.
pub fn decode_passwd_line(s: &str) -> (r: Option<PasswdEntry>)
    ensures
        r is Some <==> spec_decode_passwd_line(s@) is Some,
        r is Some ==> r.unwrap()@ == spec_decode_passwd_line(s@).unwrap(),
{
    let fields = split_str(s, ':');
    if fields.len() != 7 {
        return None;
    }
    if fields[0].as_str().unicode_len() == 0 {
        return None;
    }
    let uid = match parse_u32(fields[2].as_str()) {
        None => {
            return None;
        },
        Some(u) => u,
    };
    let gid = match parse_u32(fields[3].as_str()) {
        None => {
            return None;
        },
        Some(g) => g,
    };
    let e = PasswdEntry {
        name: fields[0].clone(),
        passwd: fields[1].clone(),
        uid,
        gid,
        gecos: fields[4].clone(),
        dir: fields[5].clone(),
        shell: fields[6].clone(),
    };
    proof {
        assert(e@ =~= spec_decode_passwd_line(s@).unwrap());
    }
    Some(e)
}

/// Decodes one shadow line; `None` for a malformed line.
pub fn decode_shadow_line(s: &str) -> (r: Option<ShadowEntry>)
    ensures
        r is Some <==> spec_decode_shadow_line(s@) is Some,
        r is Some ==> r.unwrap()@ == spec_decode_shadow_line(s@).unwrap(),
{
    let fields = split_str(s, ':');
    if fields.len() != 9 {
        return None;
    }
    if fields[0].as_str().unicode_len() == 0 {
        return None;
    }
    let last_change = match parse_opt_u32(fields[2].as_str()) {
        None => {
            return None;
        },
        Some(v) => v,
    };
    let min = match parse_opt_u32(fields[3].as_str()) {
        None => {
            return None;
        },
        Some(v) => v,
    };
    let max = match parse_opt_u32(fields[4].as_str()) {
        None => {
            return None;
        },
        Some(v) => v,
    };
    let warning = match parse_opt_u32(fields[5].as_str()) {
        None => {
            return None;
        },
        Some(v) => v,
    };
    let inactivity = match parse_opt_u32(fields[6].as_str()) {
        None => {
            return None;
        },
        Some(v) => v,
    };
    let expires = match parse_opt_u32(fields[7].as_str()) {
        None => {
            return None;
        },
        Some(v) => v,
    };
    let flag = match parse_opt_u32(fields[8].as_str()) {
        None => {
            return None;
        },
        Some(v) => v,
    };
    let e = ShadowEntry {
        name: fields[0].clone(),
        passwd: fields[1].clone(),
        last_change,
        min,
        max,
        warning,
        inactivity,
        expires,
        flag,
    };
    proof {
        assert(e@ =~= spec_decode_shadow_line(s@).unwrap());
    }
    Some(e)
}

/// Encodes a whole group database, one record per line.
pub fn encode_group_file(entries: &Vec<GroupEntry>) -> (r: String)
    ensures
        r@ == spec_encode_group_file(group_views(entries@)),
{
    let mut lines: Vec<String> = Vec::new();
    let mut i: usize = 0;
    while i < entries.len()
        invariant
            0 <= i <= entries@.len(),
            lines@.len() == i,
            forall|j: int|
                0 <= j < i ==> #[trigger] lines@[j]@ == spec_encode_group_line(entries@[j]@),
        decreases entries@.len() - i,
    {
        lines.push(encode_group_line(&entries[i]));
        i = i + 1;
    }
    proof {
        let target = group_views(entries@).map_values(|g: GroupEntryV| spec_encode_group_line(g));
        assert forall|j: int| 0 <= j < lines@.len() implies views(lines@)[j] == target[j] by {
            assert(views(lines@)[j] == lines@[j]@);
        }
        assert(views(lines@) =~= target);
    }
    if lines.len() == 0 {
        String::new()
    } else {
        join_str(&lines, '\n')
    }
}

/// Encodes a whole passwd database, one record per line.
pub fn encode_passwd_file(entries: &Vec<PasswdEntry>) -> (r: String)
    ensures
        r@ == spec_encode_passwd_file(passwd_views(entries@)),
{
    let mut lines: Vec<String> = Vec::new();
    let mut i: usize = 0;
    while i < entries.len()
        invariant
            0 <= i <= entries@.len(),
            lines@.len() == i,
            forall|j: int|
                0 <= j < i ==> #[trigger] lines@[j]@ == spec_encode_passwd_line(entries@[j]@),
        decreases entries@.len() - i,
    {
        lines.push(encode_passwd_line(&entries[i]));
        i = i + 1;
    }
    proof {
        let target = passwd_views(entries@).map_values(
            |p: PasswdEntryV| spec_encode_passwd_line(p),
        );
        assert forall|j: int| 0 <= j < lines@.len() implies views(lines@)[j] == target[j] by {
            assert(views(lines@)[j] == lines@[j]@);
        }
        assert(views(lines@) =~= target);
    }
    if lines.len() == 0 {
        String::new()
    } else {
        join_str(&lines, '\n')
    }
}

/// Encodes a whole shadow database, one record per line.
pub fn encode_shadow_file(entries: &Vec<ShadowEntry>) -> (r: String)
    ensures
        r@ == spec_encode_shadow_file(shadow_views(entries@)),
{
    let mut lines: Vec<String> = Vec::new();
    let mut i: usize = 0;
    while i < entries.len()
        invariant
            0 <= i <= entries@.len(),
            lines@.len() == i,
            forall|j: int|
                0 <= j < i ==> #[trigger] lines@[j]@ == spec_encode_shadow_line(entries@[j]@),
        decreases entries@.len() - i,
    {
        lines.push(encode_shadow_line(&entries[i]));
        i = i + 1;
    }
    proof {
        let target = shadow_views(entries@).map_values(
            |s: ShadowEntryV| spec_encode_shadow_line(s),
        );
        assert forall|j: int| 0 <= j < lines@.len() implies views(lines@)[j] == target[j] by {
            assert(views(lines@)[j] == lines@[j]@);
        }
        assert(views(lines@) =~= target);
    }
    if lines.len() == 0 {
        String::new()
    } else {
        join_str(&lines, '\n')
    }
}

/// Decodes a whole group database. A malformed line fails the decode
/// and names the first offending line.
pub fn decode_group_file(s: &str) -> (r: Result<Vec<GroupEntry>, EngineError>)
    ensures
        r is Ok <==> spec_decode_group_file(s@) is Some,
        r is Ok ==> group_views(r.unwrap()@) == spec_decode_group_file(s@).unwrap(),
        r is Err ==> (r->Err_0 matches EngineError::MalformedRecord { line } && {
            let lines = split_with(s@, '\n');
            &&& line < lines.len()
            &&& spec_decode_group_line(lines[line as int]) is None
            &&& forall|j: int| 0 <= j < line ==> spec_decode_group_line(#[trigger] lines[j]) is Some
        }),
{
    if s.unicode_len() == 0 {
        let out: Vec<GroupEntry> = Vec::new();
        proof {
            assert(group_views(out@) =~= Seq::<GroupEntryV>::empty());
        }
        return Ok(out);
    }
    let lines = split_str(s, '\n');
    let ghost lns = split_with(s@, '\n');
    let mut out: Vec<GroupEntry> = Vec::new();
    let mut i: usize = 0;
    while i < lines.len()
        invariant
            0 <= i <= lines@.len(),
            s@.len() != 0,
            lns == split_with(s@, '\n'),
            views(lines@) == lns,
            out@.len() == i,
            forall|j: int| 0 <= j < i ==> spec_decode_group_line(#[trigger] lns[j]) is Some,
            forall|j: int|
                0 <= j < i ==> #[trigger] out@[j]@ == spec_decode_group_line(lns[j]).unwrap(),
        decreases lines@.len() - i,
    {
        match decode_group_line(lines[i].as_str()) {
            None => {
                proof {
                    let lines_s = split_with(s@, '\n');
                    assert(lines_s == lns);
                    assert(lines_s[i as int] == lines@[i as int]@);
                    assert(spec_decode_group_line(lines_s[i as int]) is None);
                    assert(!(forall|j: int|
                        0 <= j < lines_s.len() ==> (#[trigger] spec_decode_group_line(
                            lines_s[j],
                        )) is Some));
                    assert(spec_decode_group_file(s@) is None);
                    assert(forall|j: int|
                        0 <= j < i ==> (#[trigger] spec_decode_group_line(lines_s[j])) is Some);
                }
                return Err(EngineError::MalformedRecord { line: i });
            },
            Some(e) => {
                out.push(e);
            },
        }
        i = i + 1;
    }
    proof {
        assert(group_views(out@) =~= lns.map_values(
            |l: Seq<char>| spec_decode_group_line(l).unwrap(),
        ));
    }
    Ok(out)
}

/// Decodes a whole passwd database. A malformed line fails the decode
/// and names the first offending line.
pub fn decode_passwd_file(s: &str) -> (r: Result<Vec<PasswdEntry>, EngineError>)
    ensures
        r is Ok <==> spec_decode_passwd_file(s@) is Some,
        r is Ok ==> passwd_views(r.unwrap()@) == spec_decode_passwd_file(s@).unwrap(),
        r is Err ==> (r->Err_0 matches EngineError::MalformedRecord { line } && {
            let lines = split_with(s@, '\n');
            &&& line < lines.len()
            &&& spec_decode_passwd_line(lines[line as int]) is None
            &&& forall|j: int| 0 <= j < line ==> spec_decode_passwd_line(#[trigger] lines[j]) is Some
        }),
{
    if s.unicode_len() == 0 {
        let out: Vec<PasswdEntry> = Vec::new();
        proof {
            assert(passwd_views(out@) =~= Seq::<PasswdEntryV>::empty());
        }
        return Ok(out);
    }
    let lines = split_str(s, '\n');
    let ghost lns = split_with(s@, '\n');
    let mut out: Vec<PasswdEntry> = Vec::new();
    let mut i: usize = 0;
    while i < lines.len()
        invariant
            0 <= i <= lines@.len(),
            s@.len() != 0,
            lns == split_with(s@, '\n'),
            views(lines@) == lns,
            out@.len() == i,
            forall|j: int| 0 <= j < i ==> spec_decode_passwd_line(#[trigger] lns[j]) is Some,
            forall|j: int|
                0 <= j < i ==> #[trigger] out@[j]@ == spec_decode_passwd_line(lns[j]).unwrap(),
        decreases lines@.len() - i,
    {
        match decode_passwd_line(lines[i].as_str()) {
            None => {
                proof {
                    let lines_s = split_with(s@, '\n');
                    assert(lines_s == lns);
                    assert(lines_s[i as int] == lines@[i as int]@);
                    assert(spec_decode_passwd_line(lines_s[i as int]) is None);
                    assert(!(forall|j: int|
                        0 <= j < lines_s.len() ==> (#[trigger] spec_decode_passwd_line(
                            lines_s[j],
                        )) is Some));
                    assert(spec_decode_passwd_file(s@) is None);
                    assert(forall|j: int|
                        0 <= j < i ==> (#[trigger] spec_decode_passwd_line(lines_s[j])) is Some);
                }
                return Err(EngineError::MalformedRecord { line: i });
            },
            Some(e) => {
                out.push(e);
            },
        }
        i = i + 1;
    }
    proof {
        assert(passwd_views(out@) =~= lns.map_values(
            |l: Seq<char>| spec_decode_passwd_line(l).unwrap(),
        ));
    }
    Ok(out)
}

/// Decodes a whole shadow database. A malformed line fails the decode
/// and names the first offending line.
pub fn decode_shadow_file(s: &str) -> (r: Result<Vec<ShadowEntry>, EngineError>)
    ensures
        r is Ok <==> spec_decode_shadow_file(s@) is Some,
        r is Ok ==> shadow_views(r.unwrap()@) == spec_decode_shadow_file(s@).unwrap(),
        r is Err ==> (r->Err_0 matches EngineError::MalformedRecord { line } && {
            let lines = split_with(s@, '\n');
            &&& line < lines.len()
            &&& spec_decode_shadow_line(lines[line as int]) is None
            &&& forall|j: int| 0 <= j < line ==> spec_decode_shadow_line(#[trigger] lines[j]) is Some
        }),
{
    if s.unicode_len() == 0 {
        let out: Vec<ShadowEntry> = Vec::new();
        proof {
            assert(shadow_views(out@) =~= Seq::<ShadowEntryV>::empty());
        }
        return Ok(out);
    }
    let lines = split_str(s, '\n');
    let ghost lns = split_with(s@, '\n');
    let mut out: Vec<ShadowEntry> = Vec::new();
    let mut i: usize = 0;
    while i < lines.len()
        invariant
            0 <= i <= lines@.len(),
            s@.len() != 0,
            lns == split_with(s@, '\n'),
            views(lines@) == lns,
            out@.len() == i,
            forall|j: int| 0 <= j < i ==> spec_decode_shadow_line(#[trigger] lns[j]) is Some,
            forall|j: int|
                0 <= j < i ==> #[trigger] out@[j]@ == spec_decode_shadow_line(lns[j]).unwrap(),
        decreases lines@.len() - i,
    {
        match decode_shadow_line(lines[i].as_str()) {
            None => {
                proof {
                    let lines_s = split_with(s@, '\n');
                    assert(lines_s == lns);
                    assert(lines_s[i as int] == lines@[i as int]@);
                    assert(spec_decode_shadow_line(lines_s[i as int]) is None);
                    assert(!(forall|j: int|
                        0 <= j < lines_s.len() ==> (#[trigger] spec_decode_shadow_line(
                            lines_s[j],
                        )) is Some));
                    assert(spec_decode_shadow_file(s@) is None);
                    assert(forall|j: int|
                        0 <= j < i ==> (#[trigger] spec_decode_shadow_line(lines_s[j])) is Some);
                }
                return Err(EngineError::MalformedRecord { line: i });
            },
            Some(e) => {
                out.push(e);
            },
        }
        i = i + 1;
    }
    proof {
        assert(shadow_views(out@) =~= lns.map_values(
            |l: Seq<char>| spec_decode_shadow_line(l).unwrap(),
        ));
    }
    Ok(out)
}

} // verus!
