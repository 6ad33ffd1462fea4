//! Character-sequence formatting primitives shared by the record codec:
//! joining and splitting fields on a separator character, and decimal
//! rendering and parsing of numeric identifiers.

use vstd::prelude::*;
use vstd::string::StrSliceExecFns;
use vstd::string::StringExecFns;

verus! {

/// No character of `s` equals `c`.
pub open spec fn no_char(s: Seq<char>, c: char) -> bool {
    forall|i: int| 0 <= i < s.len() ==> s[i] != c
}

/// The views of a sequence of strings.
pub open spec fn views(v: Seq<String>) -> Seq<Seq<char>> {
    v.map_values(|x: String| x@)
}

// ---------------------------------------------------------------------
// Splitting and joining on a separator character
// ---------------------------------------------------------------------

/// The fields of `s` delimited by `sep`. There is always at least one
/// field; the empty sequence splits into one empty field.
pub open spec fn split_with(s: Seq<char>, sep: char) -> Seq<Seq<char>>
    decreases s.len(),
{
    if s.len() == 0 {
        seq![Seq::<char>::empty()]
    } else if s[0] == sep {
        seq![Seq::<char>::empty()] + split_with(s.drop_first(), sep)
    } else {
        let rest = split_with(s.drop_first(), sep);
        seq![seq![s[0]] + rest[0]] + rest.drop_first()
    }
}

/// The fields joined back into one sequence, with `sep` between fields.
pub open spec fn join_with(fs: Seq<Seq<char>>, sep: char) -> Seq<char>
    decreases fs.len(),
{
    if fs.len() == 0 {
        Seq::empty()
    } else if fs.len() == 1 {
        fs[0]
    } else {
        join_with(fs.drop_last(), sep) + seq![sep] + fs.last()
    }
}

pub proof fn lemma_split_len(s: Seq<char>, sep: char)
    ensures
        split_with(s, sep).len() >= 1,
    decreases s.len(),
{
    if s.len() != 0 {
        lemma_split_len(s.drop_first(), sep);
    }
}

/// Appending a separator ends the current field and opens an empty one.
pub proof fn lemma_split_append_sep(s: Seq<char>, sep: char)
    ensures
        split_with(s + seq![sep], sep) == split_with(s, sep) + seq![Seq::<char>::empty()],
    decreases s.len(),
{
    lemma_split_len(s, sep);
    if s.len() == 0 {
        assert(s + seq![sep] =~= seq![sep]);
        assert(split_with(Seq::<char>::empty(), sep) == seq![Seq::<char>::empty()]);
        assert((seq![sep]).drop_first() =~= Seq::<char>::empty());
        assert(split_with(seq![sep], sep) == seq![Seq::<char>::empty()] + split_with(
            Seq::<char>::empty(),
            sep,
        ));
        assert(split_with(s + seq![sep], sep) =~~= split_with(s, sep) + seq![Seq::<char>::empty()]);
    } else {
        assert((s + seq![sep]).drop_first() =~= s.drop_first() + seq![sep]);
        lemma_split_append_sep(s.drop_first(), sep);
        lemma_split_len(s.drop_first(), sep);
        if s[0] == sep {
            assert(split_with(s + seq![sep], sep) =~~= split_with(s, sep) + seq![Seq::<char>::empty()]);
        } else {
            let g = split_with(s.drop_first(), sep);
            assert(split_with(s.drop_first() + seq![sep], sep) == g + seq![Seq::<char>::empty()]);
            assert((g + seq![Seq::<char>::empty()])[0] == g[0]);
            assert((g + seq![Seq::<char>::empty()]).drop_first() =~= g.drop_first() + seq![
                Seq::<char>::empty(),
            ]);
            assert(split_with(s + seq![sep], sep) =~~= split_with(s, sep) + seq![Seq::<char>::empty()]);
        }
    }
}

/// Appending an ordinary character extends the last field.
pub proof fn lemma_split_append_char(s: Seq<char>, c: char, sep: char)
    requires
        c != sep,
    ensures
        split_with(s + seq![c], sep) == split_with(s, sep).drop_last().push(
            split_with(s, sep).last() + seq![c],
        ),
    decreases s.len(),
{
    lemma_split_len(s, sep);
    if s.len() == 0 {
        assert(s + seq![c] =~= seq![c]);
        assert(split_with(Seq::<char>::empty(), sep) == seq![Seq::<char>::empty()]);
        assert((seq![c]).drop_first() =~= Seq::<char>::empty());
        assert(seq![c][0] == c);
        assert(split_with(seq![c], sep) == seq![seq![c] + split_with(Seq::<char>::empty(), sep)[0]]
            + split_with(Seq::<char>::empty(), sep).drop_first());
        assert(seq![Seq::<char>::empty()].drop_first() =~= Seq::<Seq<char>>::empty());
        assert(seq![c] + seq![Seq::<char>::empty()][0] =~= seq![c]);
        assert(split_with(seq![c], sep) =~~= seq![seq![c]]);
        assert(Seq::<char>::empty() + seq![c] =~= seq![c]);
        assert(split_with(s, sep).drop_last().push(split_with(s, sep).last() + seq![c]) =~~= seq![
            seq![c],
        ]);
    } else {
        assert((s + seq![c]).drop_first() =~= s.drop_first() + seq![c]);
        lemma_split_append_char(s.drop_first(), c, sep);
        lemma_split_len(s.drop_first(), sep);
        let g = split_with(s.drop_first(), sep);
        let gx = g.drop_last().push(g.last() + seq![c]);
        assert(gx.len() == g.len());
        if s[0] == sep {
            let f = split_with(s, sep);
            assert(f == seq![Seq::<char>::empty()] + g);
            assert(split_with(s + seq![c], sep) == seq![Seq::<char>::empty()] + gx);
            assert(f.last() == g.last());
            assert(seq![Seq::<char>::empty()] + gx =~~= f.drop_last().push(f.last() + seq![c]));
        } else {
            let f = split_with(s, sep);
            assert(f == seq![seq![s[0]] + g[0]] + g.drop_first());
            assert(split_with(s + seq![c], sep) == seq![seq![s[0]] + gx[0]] + gx.drop_first());
            if g.len() == 1 {
                assert(gx[0] == g[0] + seq![c]);
                assert(seq![s[0]] + (g[0] + seq![c]) =~= (seq![s[0]] + g[0]) + seq![c]);
                assert(f.last() == seq![s[0]] + g[0]);
                assert(seq![seq![s[0]] + gx[0]] + gx.drop_first() =~~= f.drop_last().push(
                    f.last() + seq![c],
                ));
            } else {
                assert(gx[0] == g[0]);
                assert(f.last() == g.last());
                assert(seq![seq![s[0]] + gx[0]] + gx.drop_first() =~~= f.drop_last().push(
                    f.last() + seq![c],
                ));
            }
        }
    }
}

/// Appending a field with no separator in it extends the last field.
pub proof fn lemma_split_append_field(s: Seq<char>, f: Seq<char>, sep: char)
    requires
        no_char(f, sep),
    ensures
        split_with(s + f, sep) == split_with(s, sep).drop_last().push(
            split_with(s, sep).last() + f,
        ),
    decreases f.len(),
{
    lemma_split_len(s, sep);
    let r = split_with(s, sep);
    if f.len() == 0 {
        assert(s + f =~= s);
        assert(r.last() + f =~= r.last());
        assert(r.drop_last().push(r.last() + f) =~~= r);
    } else {
        let f0 = f.drop_last();
        assert(no_char(f0, sep));
        lemma_split_append_field(s, f0, sep);
        assert(s + f =~= (s + f0) + seq![f.last()]);
        lemma_split_append_char(s + f0, f.last(), sep);
        let m = r.drop_last().push(r.last() + f0);
        assert(m.last() == r.last() + f0);
        assert(m.drop_last() =~= r.drop_last());
        assert((r.last() + f0) + seq![f.last()] =~= r.last() + f);
        assert(split_with(s + f, sep) =~~= r.drop_last().push(r.last() + f));
    }
}

/// A field with no separator splits into exactly itself.
pub proof fn lemma_split_single(f: Seq<char>, sep: char)
    requires
        no_char(f, sep),
    ensures
        split_with(f, sep) == seq![f],
{
    lemma_split_append_field(Seq::<char>::empty(), f, sep);
    assert(Seq::<char>::empty() + f =~= f);
    assert(split_with(Seq::<char>::empty(), sep) == seq![Seq::<char>::empty()]);
    assert(Seq::<char>::empty() + f =~= f);
    assert(seq![Seq::<char>::empty()].drop_last().push(Seq::<char>::empty() + f) =~~= seq![f]);
}

/// Splitting inverts joining, provided no field contains the separator.
pub proof fn lemma_split_join(fs: Seq<Seq<char>>, sep: char)
    requires
        fs.len() >= 1,
        forall|i: int| 0 <= i < fs.len() ==> no_char(#[trigger] fs[i], sep),
    ensures
        split_with(join_with(fs, sep), sep) == fs,
    decreases fs.len(),
{
    if fs.len() == 1 {
        lemma_split_single(fs[0], sep);
        assert(split_with(join_with(fs, sep), sep) =~~= fs);
    } else {
        let dl = fs.drop_last();
        assert(forall|i: int| 0 <= i < dl.len() ==> no_char(#[trigger] dl[i], sep));
        lemma_split_join(dl, sep);
        let j = join_with(dl, sep);
        lemma_split_append_sep(j, sep);
        lemma_split_append_field(j + seq![sep], fs.last(), sep);
        assert(join_with(fs, sep) == (j + seq![sep]) + fs.last());
        let a = split_with(j + seq![sep], sep);
        assert(a == dl + seq![Seq::<char>::empty()]);
        assert(a.last() == Seq::<char>::empty());
        assert(a.drop_last() =~= dl);
        assert(Seq::<char>::empty() + fs.last() =~= fs.last());
        assert(split_with(join_with(fs, sep), sep) =~~= fs);
    }
}

/// A join of fields that all avoid `c` avoids `c` itself, provided the
/// separator is not `c`.
pub proof fn lemma_join_no_char(fs: Seq<Seq<char>>, sep: char, c: char)
    requires
        c != sep,
        forall|i: int| 0 <= i < fs.len() ==> no_char(#[trigger] fs[i], c),
    ensures
        no_char(join_with(fs, sep), c),
    decreases fs.len(),
{
    if fs.len() <= 1 {
    } else {
        let dl = fs.drop_last();
        assert(forall|i: int| 0 <= i < dl.len() ==> no_char(#[trigger] dl[i], c));
        lemma_join_no_char(dl, sep, c);
        let j = join_with(dl, sep);
        assert forall|k: int| 0 <= k < join_with(fs, sep).len() implies join_with(fs, sep)[k]
            != c by {
            if k < j.len() {
                assert(join_with(fs, sep)[k] == j[k]);
            } else if k == j.len() {
                assert(join_with(fs, sep)[k] == sep);
            } else {
                assert(join_with(fs, sep)[k] == fs.last()[k - j.len() - 1]);
            }
        }
    }
}

/// A join is at least as long as its first field.
pub proof fn lemma_join_first_len(fs: Seq<Seq<char>>, sep: char)
    requires
        fs.len() >= 1,
    ensures
        join_with(fs, sep).len() >= fs[0].len(),
    decreases fs.len(),
{
    if fs.len() > 1 {
        lemma_join_first_len(fs.drop_last(), sep);
    }
}

// ---------------------------------------------------------------------
// Decimal rendering and parsing
// ---------------------------------------------------------------------

pub open spec fn is_digit(c: char) -> bool {
    c == '0' || c == '1' || c == '2' || c == '3' || c == '4' || c == '5' || c == '6' || c == '7'
        || c == '8' || c == '9'
}

pub open spec fn digit_val(c: char) -> nat {
    if c == '0' {
        0
    } else if c == '1' {
        1
    } else if c == '2' {
        2
    } else if c == '3' {
        3
    } else if c == '4' {
        4
    } else if c == '5' {
        5
    } else if c == '6' {
        6
    } else if c == '7' {
        7
    } else if c == '8' {
        8
    } else {
        9
    }
}

pub open spec fn digit_char(d: nat) -> char {
    if d == 0 {
        '0'
    } else if d == 1 {
        '1'
    } else if d == 2 {
        '2'
    } else if d == 3 {
        '3'
    } else if d == 4 {
        '4'
    } else if d == 5 {
        '5'
    } else if d == 6 {
        '6'
    } else if d == 7 {
        '7'
    } else if d == 8 {
        '8'
    } else {
        '9'
    }
}

/// The canonical decimal rendering of `n`, most significant digit first.
pub open spec fn dec_str(n: nat) -> Seq<char>
    decreases n,
{
    if n < 10 {
        seq![digit_char(n)]
    } else {
        dec_str(n / 10) + seq![digit_char(n % 10)]
    }
}

/// The numeric value of a digit string, read left to right.
pub open spec fn digits_val(s: Seq<char>) -> nat
    decreases s.len(),
{
    if s.len() == 0 {
        0
    } else {
        digits_val(s.drop_last()) * 10 + digit_val(s.last())
    }
}

pub open spec fn all_digits(s: Seq<char>) -> bool {
    forall|i: int| 0 <= i < s.len() ==> is_digit(#[trigger] s[i])
}

/// What parsing a decimal identifier field yields: the value of a
/// non-empty, all-digit string that fits in `u32`, and nothing else.
pub open spec fn spec_parse_u32(s: Seq<char>) -> Option<u32> {
    if s.len() > 0 && all_digits(s) && digits_val(s) <= u32::MAX {
        Some(digits_val(s) as u32)
    } else {
        None
    }
}

pub proof fn lemma_dec_str_digits(n: nat)
    ensures
        dec_str(n).len() >= 1,
        all_digits(dec_str(n)),
    decreases n,
{
    if n >= 10 {
        lemma_dec_str_digits(n / 10);
        assert forall|i: int| 0 <= i < dec_str(n).len() implies is_digit(#[trigger] dec_str(n)[i]) by {
            if i < dec_str(n / 10).len() {
                assert(dec_str(n)[i] == dec_str(n / 10)[i]);
            } else {
                assert(dec_str(n)[i] == digit_char(n % 10));
            }
        }
    }
}

pub proof fn lemma_dec_str_val(n: nat)
    ensures
        digits_val(dec_str(n)) == n,
    decreases n,
{
    if n < 10 {
        assert(dec_str(n).drop_last() =~= Seq::<char>::empty());
        assert(digits_val(Seq::<char>::empty()) == 0);
        assert(dec_str(n).last() == digit_char(n));
        assert(digit_val(digit_char(n)) == n);
        assert(digits_val(dec_str(n)) == 0 * 10 + digit_val(digit_char(n)));
    } else {
        lemma_dec_str_val(n / 10);
        lemma_dec_str_digits(n / 10);
        assert(dec_str(n).drop_last() =~= dec_str(n / 10));
        assert(dec_str(n).last() == digit_char(n % 10));
        assert(digit_val(digit_char(n % 10)) == n % 10);
        assert(digits_val(dec_str(n)) == (n / 10) * 10 + n % 10);
    }
}

/// Parsing inverts decimal rendering.
pub proof fn lemma_dec_str_round_trip(n: u32)
    ensures
        spec_parse_u32(dec_str(n as nat)) == Some(n),
{
    lemma_dec_str_digits(n as nat);
    lemma_dec_str_val(n as nat);
}

/// Digit strings never contain a field or line separator.
pub proof fn lemma_digits_no_char(s: Seq<char>, c: char)
    requires
        all_digits(s),
        !is_digit(c),
    ensures
        no_char(s, c),
{
}

/// The value of a digit string is no less than the value of any prefix.
pub proof fn lemma_digits_val_prefix(s: Seq<char>, i: int)
    requires
        0 <= i <= s.len(),
    ensures
        digits_val(s.take(i)) <= digits_val(s),
    decreases s.len(),
{
    if i < s.len() {
        assert(s.take(i) =~= s.drop_last().take(i));
        lemma_digits_val_prefix(s.drop_last(), i);
    } else {
        assert(s.take(i) =~= s);
    }
}

// ---------------------------------------------------------------------
// Executable counterparts
// ---------------------------------------------------------------------

/// Relies on `String::push`: appends exactly one character at the end.
#[verifier::external_body]
pub(crate) fn push_char(s: &mut String, c: char)
    ensures
        final(s)@ == old(s)@ + seq![c],
{
    s.push(c);
}

fn digit_of(c: char) -> (r: Option<u32>)
    ensures
        r is Some <==> is_digit(c),
        r is Some ==> r->0 == digit_val(c),
{
    match c {
        '0' => Some(0),
        '1' => Some(1),
        '2' => Some(2),
        '3' => Some(3),
        '4' => Some(4),
        '5' => Some(5),
        '6' => Some(6),
        '7' => Some(7),
        '8' => Some(8),
        '9' => Some(9),
        _ => None,
    }
}

fn char_of_digit(d: u32) -> (r: char)
    requires
        d < 10,
    ensures
        r == digit_char(d as nat),
{
    match d {
        0 => '0',
        1 => '1',
        2 => '2',
        3 => '3',
        4 => '4',
        5 => '5',
        6 => '6',
        7 => '7',
        8 => '8',
        _ => '9',
    }
}

/// Renders `n` in decimal.
pub fn fmt_u32(n: u32) -> (r: String)
    ensures
        r@ == dec_str(n as nat),
    decreases n,
{
    if n < 10 {
        let mut s = String::new();
        push_char(&mut s, char_of_digit(n));
        proof {
            assert(s@ =~= dec_str(n as nat));
        }
        s
    } else {
        let mut s = fmt_u32(n / 10);
        push_char(&mut s, char_of_digit(n % 10));
        s
    }
}

/// Parses a decimal identifier field.
pub fn parse_u32(s: &str) -> (r: Option<u32>)
    ensures
        r == spec_parse_u32(s@),
{
    let len = s.unicode_len();
    if len == 0 {
        return None;
    }
    let mut val: u32 = 0;
    let mut i: usize = 0;
    while i < len
        invariant
            0 <= i <= len,
            len == s@.len(),
            all_digits(s@.take(i as int)),
            val == digits_val(s@.take(i as int)),
        decreases len - i,
    {
        let c = s.get_char(i);
        proof {
            assert(s@.take(i as int + 1) =~= s@.take(i as int) + seq![s@[i as int]]);
            assert(s@.take(i as int + 1).drop_last() =~= s@.take(i as int));
        }
        match digit_of(c) {
            None => {
                assert(!all_digits(s@));
                return None;
            },
            Some(d) => {
                if val > (u32::MAX - d) / 10 {
                    proof {
                        assert(digits_val(s@.take(i as int + 1)) > u32::MAX);
                        lemma_digits_val_prefix(s@, i as int + 1);
                    }
                    return None;
                }
                proof {
                    assert(val * 10 + d <= ((u32::MAX - d) / 10) * 10 + d <= u32::MAX) by (nonlinear_arith)
                        requires
                            val <= (u32::MAX - d) / 10,
                            d <= 9,
                    ;
                }
                val = val * 10 + d;
            },
        }
        i = i + 1;
    }
    proof {
        assert(s@.take(len as int) =~= s@);
    }
    Some(val)
}

/// Splits `s` into its fields delimited by `sep`.
pub fn split_str(s: &str, sep: char) -> (r: Vec<String>)
    ensures
        views(r@) == split_with(s@, sep),
{
    let len = s.unicode_len();
    let mut fields: Vec<String> = Vec::new();
    let mut cur = String::new();
    let mut i: usize = 0;
    while i < len
        invariant
            0 <= i <= len,
            len == s@.len(),
            split_with(s@.take(i as int), sep) == views(fields@).push(cur@),
        decreases len - i,
    {
        let c = s.get_char(i);
        proof {
            assert(s@.take(i as int + 1) =~= s@.take(i as int) + seq![s@[i as int]]);
        }
        if c == sep {
            proof {
                lemma_split_append_sep(s@.take(i as int), sep);
            }
            fields.push(cur);
            cur = String::new();
            proof {
                assert(views(fields@).push(cur@) =~= split_with(s@.take(i as int + 1), sep));
            }
        } else {
            proof {
                lemma_split_append_char(s@.take(i as int), c, sep);
                assert(views(fields@).push(cur@).drop_last() =~= views(fields@));
                assert(views(fields@).push(cur@).last() == cur@);
            }
            push_char(&mut cur, c);
            proof {
                assert(views(fields@).push(cur@) =~= split_with(s@.take(i as int + 1), sep));
            }
        }
        i = i + 1;
    }
    proof {
        assert(s@.take(len as int) =~= s@);
    }
    fields.push(cur);
    proof {
        assert(views(fields@) =~= split_with(s@, sep));
    }
    fields
}

/// Joins the given parts with `sep` between them.
pub fn join_str(parts: &Vec<String>, sep: char) -> (r: String)
    ensures
        r@ == join_with(views(parts@), sep),
{
    let mut r = String::new();
    let mut i: usize = 0;
    while i < parts.len()
        invariant
            0 <= i <= parts@.len(),
            r@ == join_with(views(parts@.take(i as int)), sep),
        decreases parts@.len() - i,
    {
        proof {
            assert(views(parts@.take(i as int + 1)) =~= views(parts@.take(i as int)).push(
                parts@[i as int]@,
            ));
            assert(views(parts@.take(i as int + 1)).drop_last() =~= views(parts@.take(i as int)));
        }
        if i > 0 {
            push_char(&mut r, sep);
        }
        let part: &String = &parts[i];
        r.append(part.as_str());
        proof {
            if i == 0 {
                assert(Seq::<char>::empty() + parts@[0]@ =~= parts@[0]@);
                assert(views(parts@.take(1)).len() == 1);
                assert(views(parts@.take(1))[0] == parts@[0]@);
            }
        }
        i = i + 1;
    }
    proof {
        assert(parts@.take(parts@.len() as int) =~= parts@);
    }
    r
}

} // verus!
