//! Small executable helpers for working with strings as sequences of
//! characters.

use vstd::prelude::*;
use vstd::slice::slice_subrange;
use vstd::std_specs::iter::IteratorSpec;

verus! {

/// Relies on `String::push`: appends the given character to the end of
/// the string.
pub assume_specification[ String::push ](s: &mut String, c: char)
    ensures
        final(s)@ == old(s)@.push(c),
;

/// Collects the characters of a string slice into a vector.
pub fn str_to_chars(s: &str) -> (r: Vec<char>)
    ensures
        r@ == s@,
{
    broadcast use vstd::string::next_postcondition;

    let mut it = s.chars();
    let mut out: Vec<char> = Vec::new();
    loop
        invariant
            it.obeys_prophetic_iter_laws(),
            it.decrease() is Some,
            out@ + it.remaining() == s@,
        ensures
            out@ == s@,
        decreases it.decrease()->0,
    {
        match it.next() {
            Some(c) => {
                out.push(c);
            },
            None => {
                assert(out@ =~= s@);
                break ;
            },
        }
    }
    out
}

/// Builds a string whose characters are exactly the given slice.
pub fn chars_to_string(v: &[char]) -> (r: String)
    ensures
        r@ == v@,
{
    let mut out = String::new();
    let n = v.len();
    let mut i: usize = 0;
    while i < n
        invariant
            n == v@.len(),
            i <= n,
            out@ == v@.take(i as int),
        decreases n - i,
    {
        out.push(v[i]);
        i = i + 1;
        assert(out@ =~= v@.take(i as int));
    }
    assert(out@ =~= v@);
    out
}

/// Extracts the characters of a subrange of a slice.
pub fn chars_range(v: &[char], from: usize, to: usize) -> (r: &[char])
    requires
        from <= to <= v@.len(),
    ensures
        r@ == v@.subrange(from as int, to as int),
{
    slice_subrange(v, from, to)
}

/// The pieces of `s` between occurrences of the separator, in order.
/// Splitting the empty string yields one empty piece, and a separator
/// at the start or end yields an empty piece there, as `str::split`
/// does.
pub open spec fn spec_split(s: Seq<char>, sep: char) -> Seq<Seq<char>>
    decreases s.len(),
{
    if s.len() == 0 {
        seq![Seq::<char>::empty()]
    } else if s[0] == sep {
        seq![Seq::<char>::empty()] + spec_split(s.drop_first(), sep)
    } else {
        let rest = spec_split(s.drop_first(), sep);
        rest.update(0, seq![s[0]] + rest[0])
    }
}

/// Splitting yields at least one piece.
pub proof fn lemma_split_len(s: Seq<char>, sep: char)
    ensures
        spec_split(s, sep).len() >= 1,
    decreases s.len(),
{
    if s.len() == 0 {
    } else {
        lemma_split_len(s.drop_first(), sep);
    }
}

/// A string without the separator is a single piece.
pub proof fn lemma_split_no_sep(s: Seq<char>, sep: char)
    requires
        forall|i: int| 0 <= i < s.len() ==> s[i] != sep,
    ensures
        spec_split(s, sep) =~= seq![s],
    decreases s.len(),
{
    if s.len() == 0 {
        assert(s =~= Seq::<char>::empty());
    } else {
        lemma_split_no_sep(s.drop_first(), sep);
        lemma_split_len(s.drop_first(), sep);
        assert(seq![s[0]] + s.drop_first() =~= s);
    }
}

/// Splitting at the first separator: if `a` holds no separator, the
/// pieces of `a + sep + b` are `a` followed by the pieces of `b`.
pub proof fn lemma_split_at_sep(a: Seq<char>, b: Seq<char>, sep: char)
    requires
        forall|i: int| 0 <= i < a.len() ==> a[i] != sep,
    ensures
        spec_split(a + seq![sep] + b, sep) =~= seq![a] + spec_split(b, sep),
    decreases a.len(),
{
    let s = a + seq![sep] + b;
    if a.len() == 0 {
        assert(a =~= Seq::<char>::empty());
        assert(s[0] == sep);
        assert(s.drop_first() =~= b);
    } else {
        lemma_split_at_sep(a.drop_first(), b, sep);
        lemma_split_len(b, sep);
        assert(s.drop_first() =~= a.drop_first() + seq![sep] + b);
        assert(s[0] == a[0]);
        assert(seq![a[0]] + a.drop_first() =~= a);
    }
}

/// Whether two string slices hold the same characters.
pub fn str_eq(a: &str, b: &str) -> (r: bool)
    ensures
        r == (a@ == b@),
{
    let owned = a.to_owned();
    owned.eq(&b.to_owned())
}

/// The decimal digit character for a value below ten.
pub open spec fn spec_digit_char(d: u128) -> char {
    if d == 0 {
        '0'
    } else if d == 1 {
        '1'
    } else if d == 2 {
        '2'
    } else if d == 3 {
        '3'
    } else if d == 4 {
        '4'
    } else if d == 5 {
        '5'
    } else if d == 6 {
        '6'
    } else if d == 7 {
        '7'
    } else if d == 8 {
        '8'
    } else {
        '9'
    }
}

/// The decimal digits of a value, most significant first.
pub open spec fn spec_decimal(v: u128) -> Seq<char>
    decreases v,
{
    if v < 10 {
        seq![spec_digit_char(v)]
    } else {
        spec_decimal(v / 10) + seq![spec_digit_char(v % 10)]
    }
}

fn digit_char(d: u128) -> (r: char)
    requires
        d < 10,
    ensures
        r == spec_digit_char(d),
{
    if d == 0 {
        '0'
    } else if d == 1 {
        '1'
    } else if d == 2 {
        '2'
    } else if d == 3 {
        '3'
    } else if d == 4 {
        '4'
    } else if d == 5 {
        '5'
    } else if d == 6 {
        '6'
    } else if d == 7 {
        '7'
    } else if d == 8 {
        '8'
    } else {
        '9'
    }
}

/// Renders a value in decimal.
pub fn decimal_string(v: u128) -> (r: String)
    ensures
        r@ == spec_decimal(v),
    decreases v,
{
    if v < 10 {
        let mut out = String::new();
        out.push(digit_char(v));
        proof {
            assert(out@ =~= spec_decimal(v));
        }
        out
    } else {
        let mut out = decimal_string(v / 10);
        out.push(digit_char(v % 10));
        proof {
            assert(out@ =~= spec_decimal(v));
        }
        out
    }
}

/// Splitting distributes over concatenation at a separator: the
/// pieces of `a + sep + b` are the pieces of `a` followed by the
/// pieces of `b`.
pub proof fn lemma_split_concat(a: Seq<char>, b: Seq<char>, sep: char)
    ensures
        spec_split(a + seq![sep] + b, sep) =~= spec_split(a, sep) + spec_split(b, sep),
    decreases a.len(),
{
    let s = a + seq![sep] + b;
    if a.len() == 0 {
        assert(a =~= Seq::<char>::empty());
        assert(s[0] == sep);
        assert(s.drop_first() =~= b);
    } else if a[0] == sep {
        lemma_split_concat(a.drop_first(), b, sep);
        assert(s.drop_first() =~= a.drop_first() + seq![sep] + b);
    } else {
        lemma_split_concat(a.drop_first(), b, sep);
        lemma_split_len(a.drop_first(), sep);
        assert(s.drop_first() =~= a.drop_first() + seq![sep] + b);
        assert(s[0] == a[0]);
        let rest = spec_split(s.drop_first(), sep);
        let r2 = spec_split(a.drop_first(), sep);
        assert(rest =~= r2 + spec_split(b, sep));
        assert(rest[0] == r2[0]);
        assert(rest.update(0, seq![a[0]] + rest[0]) =~= r2.update(0, seq![a[0]] + r2[0])
            + spec_split(b, sep));
    }
}

/// Splits a string at every occurrence of the separator.
pub fn split_str(input: &str, sep: char) -> (r: Vec<String>)
    ensures
        r.deep_view() == spec_split(input@, sep),
{
    let chars = str_to_chars(input);
    let n = chars.len();
    let mut out: Vec<String> = Vec::new();
    let mut buf = String::new();
    let mut i: usize = 0;
    let ghost mut start: int = 0;
    proof {
        assert(out.deep_view() =~= Seq::<Seq<char>>::empty());
        assert(input@.skip(0) =~= input@);
        assert(out.deep_view() + spec_split(input@, sep) =~= spec_split(input@, sep));
    }
    while i < n
        invariant
            n == input@.len(),
            chars@ == input@,
            i <= n,
            0 <= start <= i,
            buf@ == input@.subrange(start, i as int),
            forall|j: int| start <= j < i ==> input@[j] != sep,
            spec_split(input@, sep) == out.deep_view() + spec_split(input@.skip(start), sep),
        decreases n - i,
    {
        let c = chars[i];
        if c == sep {
            proof {
                assert(input@.skip(start) =~= buf@ + seq![sep] + input@.skip(i + 1));
                lemma_split_at_sep(buf@, input@.skip(i + 1), sep);
            }
            let done = buf;
            let ghost bv = done@;
            buf = String::new();
            let ghost old_out = out.deep_view();
            out.push(done);
            proof {
                assert(out.deep_view() =~= old_out.push(bv));
                start = i + 1;
                assert(out.deep_view() + spec_split(input@.skip(start), sep) =~= (old_out + (seq![
                    bv,
                ] + spec_split(input@.skip(start), sep))));
            }
        } else {
            buf.push(c);
            proof {
                assert(buf@ =~= input@.subrange(start, i + 1));
            }
        }
        i = i + 1;
    }
    proof {
        assert(input@.skip(start) =~= buf@);
        lemma_split_no_sep(buf@, sep);
    }
    let ghost bv = buf@;
    let ghost old_out = out.deep_view();
    out.push(buf);
    proof {
        assert(out.deep_view() =~= old_out.push(bv));
        assert(out.deep_view() =~= spec_split(input@, sep));
    }
    out
}

} // verus!
