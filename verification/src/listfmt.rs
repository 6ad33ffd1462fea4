//! Whitespace-separated name lists: names joined by single spaces, and
//! read back by splitting on any blank character.

use vstd::prelude::*;
use vstd::string::StrSliceExecFns;
use crate::strfmt::join_str;
use crate::strfmt::push_char;
use crate::strfmt::join_with;
use crate::strfmt::lemma_join_no_char;
use crate::strfmt::lemma_split_join;
use crate::strfmt::no_char;
use crate::strfmt::split_str;
use crate::strfmt::split_with;
use crate::strfmt::views;

verus! {

/// A blank character of the list format: space, tab, newline or
/// carriage return.
pub open spec fn is_blank(c: char) -> bool {
    c == ' ' || c == '\t' || c == '\n' || c == '\r'
}

/// The sequence with every blank character replaced by a space.
pub open spec fn blanks_to_spaces(s: Seq<char>) -> Seq<char> {
    s.map_values(
        |c: char|
            if is_blank(c) {
                ' '
            } else {
                c
            },
    )
}

/// The fields that are not empty, in order.
pub open spec fn nonempty_fields(fs: Seq<Seq<char>>) -> Seq<Seq<char>>
    decreases fs.len(),
{
    if fs.len() == 0 {
        Seq::empty()
    } else {
        let pre = nonempty_fields(fs.drop_last());
        if fs.last().len() > 0 {
            pre.push(fs.last())
        } else {
            pre
        }
    }
}

/// Builds the content of a list file: the values joined by single
/// spaces.
pub fn write_list(values: &Vec<String>) -> (r: String)
    ensures
        r@ == join_with(views(values@), ' '),
{
    join_str(values, ' ')
}

/// Reads the values a list file holds: its non-empty fields, delimited
/// by any run of blank characters.
pub fn read_list(s: &str) -> (r: Vec<String>)
    ensures
        views(r@) == nonempty_fields(split_with(blanks_to_spaces(s@), ' ')),
{
    let len = s.unicode_len();
    let mut norm = String::new();
    let mut k: usize = 0;
    while k < len
        invariant
            0 <= k <= len,
            len == s@.len(),
            norm@.len() == k,
            forall|j: int|
                0 <= j < k ==> #[trigger] norm@[j] == (if is_blank(s@[j]) {
                    ' '
                } else {
                    s@[j]
                }),
        decreases len - k,
    {
        let c = s.get_char(k);
        let blank = c == ' ' || c == '\t' || c == '\n' || c == '\r';
        push_char(
            &mut norm,
            if blank {
                ' '
            } else {
                c
            },
        );
        k = k + 1;
    }
    proof {
        assert(norm@ =~= blanks_to_spaces(s@));
    }
    let fields = split_str(norm.as_str(), ' ');
    let ghost fs = split_with(blanks_to_spaces(s@), ' ');
    let mut r: Vec<String> = Vec::new();
    proof {
        assert(fs.take(0) =~= Seq::<Seq<char>>::empty());
        assert(views(r@) =~= nonempty_fields(fs.take(0)));
    }
    let mut i: usize = 0;
    while i < fields.len()
        invariant
            0 <= i <= fields@.len(),
            fs == split_with(blanks_to_spaces(s@), ' '),
            views(fields@) == fs,
            views(r@) == nonempty_fields(fs.take(i as int)),
        decreases fields@.len() - i,
    {
        proof {
            assert(fs.take(i as int + 1).drop_last() =~= fs.take(i as int));
            assert(fs.take(i as int + 1).last() == fs[i as int]);
            assert(fs[i as int] == fields@[i as int]@);
        }
        if fields[i].as_str().unicode_len() > 0 {
            r.push(fields[i].clone());
            proof {
                assert(views(r@) =~= nonempty_fields(fs.take(i as int)).push(fs[i as int]));
            }
        }
        i = i + 1;
    }
    proof {
        assert(fs.take(fields@.len() as int) =~= fs);
    }
    r
}

proof fn lemma_nonempty_fields_id(fs: Seq<Seq<char>>)
    requires
        forall|i: int| 0 <= i < fs.len() ==> (#[trigger] fs[i]).len() > 0,
    ensures
        nonempty_fields(fs) == fs,
    decreases fs.len(),
{
    if fs.len() == 0 {
        assert(nonempty_fields(fs) =~= fs);
    } else {
        assert(forall|i: int|
            0 <= i < fs.drop_last().len() ==> (#[trigger] fs.drop_last()[i]).len() > 0);
        lemma_nonempty_fields_id(fs.drop_last());
        assert(nonempty_fields(fs) =~= fs);
    }
}

/// Reading back a written list restores it, provided every value is
/// non-empty and contains no blank character.
pub proof fn lemma_list_round_trip(vs: Seq<Seq<char>>)
    requires
        forall|i: int|
            0 <= i < vs.len() ==> (#[trigger] vs[i]).len() > 0 && no_char(vs[i], ' ') && no_char(
                vs[i],
                '\t',
            ) && no_char(vs[i], '\n') && no_char(vs[i], '\r'),
    ensures
        nonempty_fields(split_with(blanks_to_spaces(join_with(vs, ' ')), ' ')) == vs,
{
    let j = join_with(vs, ' ');
    lemma_join_no_char(vs, ' ', '\t');
    lemma_join_no_char(vs, ' ', '\n');
    lemma_join_no_char(vs, ' ', '\r');
    assert forall|k: int| 0 <= k < j.len() implies blanks_to_spaces(j)[k] == j[k] by {
        if j[k] == ' ' {
        }
    }
    assert(blanks_to_spaces(j) =~= j);
    if vs.len() == 0 {
        assert(join_with(vs, ' ') == Seq::<char>::empty());
        assert(split_with(Seq::<char>::empty(), ' ') == seq![Seq::<char>::empty()]);
        assert((seq![Seq::<char>::empty()]).drop_last() =~= Seq::<Seq<char>>::empty());
        assert(nonempty_fields(Seq::<Seq<char>>::empty()) == Seq::<Seq<char>>::empty());
        assert((seq![Seq::<char>::empty()]).last().len() == 0);
        assert(nonempty_fields(seq![Seq::<char>::empty()]) =~= vs);
    } else {
        lemma_split_join(vs, ' ');
        lemma_nonempty_fields_id(vs);
    }
}

} // verus!
