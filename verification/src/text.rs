//! Verified text utilities shared by the parser, the URI model and the
//! response serializer: byte/character classification, byte-to-string
//! conversion for ASCII data, string equality and splitting, and decimal
//! numerals.

use vstd::prelude::*;

verus! {

/// The characters that stand for a sequence of bytes, one character per byte.
/// Meaningful for ASCII bytes, where UTF-8 encodes each character as itself.
pub open spec fn chars_of(bytes: Seq<u8>) -> Seq<char> {
    Seq::new(bytes.len(), |i: int| bytes[i] as char)
}

/// All bytes of the sequence are ASCII.
pub open spec fn all_ascii(bytes: Seq<u8>) -> bool {
    forall|i: int| 0 <= i < bytes.len() ==> bytes[i] < 128
}

/// Relies on `String::from_utf8`: a vector of bytes that is valid UTF-8 is
/// turned into the string those bytes encode; for ASCII bytes, each byte
/// encodes exactly its own character.
#[verifier::external_body]
pub fn string_from_ascii(bytes: Vec<u8>) -> (r: String)
    requires
        all_ascii(bytes@),
    ensures
        r@ == chars_of(bytes@),
{
    match String::from_utf8(bytes) {
        Ok(s) => s,
        Err(_) => String::new(),
    }
}

/// String equality by characters: true exactly when the two views are equal.
pub fn str_eq(a: &str, b: &str) -> (r: bool)
    ensures
        r == (a@ == b@),
{
    let a_len = a.unicode_len();
    let b_len = b.unicode_len();
    if a_len != b_len {
        return false;
    }
    let mut i: usize = 0;
    while i < a_len
        invariant
            a_len == a@.len(),
            b_len == b@.len(),
            a_len == b_len,
            i <= a_len,
            forall|j: int| 0 <= j < i ==> a@[j] == b@[j],
        decreases a_len - i,
    {
        if a.get_char(i) != b.get_char(i) {
            return false;
        }
        i += 1;
    }
    proof {
        assert(a@ =~= b@);
    }
    true
}

/// The decimal numeral of `n`, most significant digit first, no leading
/// zeros (the numeral of zero is `"0"`).
pub open spec fn dec_digits(n: nat) -> Seq<char>
    decreases n,
{
    if n < 10 {
        seq![((n + 48) as u8) as char]
    } else {
        dec_digits(n / 10).push(((n % 10 + 48) as u8) as char)
    }
}

/// `c` is a decimal digit.
pub open spec fn is_digit(c: char) -> bool {
    '0' <= c <= '9'
}

/// A non-empty string of decimal digits.
pub open spec fn all_digits(s: Seq<char>) -> bool {
    s.len() > 0 && forall|i: int| 0 <= i < s.len() ==> is_digit(s[i])
}

/// The value of a string of decimal digits, read most significant first.
pub open spec fn dec_value(s: Seq<char>) -> nat
    decreases s.len(),
{
    if s.len() == 0 {
        0
    } else {
        dec_value(s.drop_last()) * 10 + (s.last() as nat - 48) as nat
    }
}

/// The reversal of `digits`, read as characters.
pub open spec fn rev_chars(digits: Seq<u8>) -> Seq<char> {
    chars_of(digits).reverse()
}

proof fn lemma_rev_chars_push(digits: Seq<u8>, d: u8)
    ensures
        rev_chars(digits.push(d)) =~= seq![d as char] + rev_chars(digits),
{
}

/// Writes `n` in decimal, most significant digit first.
pub fn usize_to_string(n: usize) -> (r: String)
    ensures
        r@ == dec_digits(n as nat),
{
    let mut rev: Vec<u8> = Vec::new();
    let mut m: usize = n;
    loop
        invariant_except_break
            (rev@.len() > 0 ==> m > 0),
            dec_digits(n as nat) =~= if rev@.len() == 0 {
                dec_digits(m as nat)
            } else {
                dec_digits(m as nat) + rev_chars(rev@)
            },
        invariant
            forall|j: int| 0 <= j < rev@.len() ==> 48 <= #[trigger] rev@[j] <= 57,
        ensures
            forall|j: int| 0 <= j < rev@.len() ==> 48 <= #[trigger] rev@[j] <= 57,
            dec_digits(n as nat) =~= rev_chars(rev@),
        decreases m,
    {
        let ghost old_rev = rev@;
        let ghost m0 = m as nat;
        let d: u8 = (m % 10) as u8 + 48;
        rev.push(d);
        m = m / 10;
        proof {
            lemma_rev_chars_push(old_rev, d);
            if m0 < 10 {
                assert(dec_digits(m0) =~= seq![d as char]);
                if old_rev.len() == 0 {
                    assert(dec_digits(n as nat) =~= rev_chars(rev@));
                } else {
                    assert(dec_digits(n as nat) =~= dec_digits(m0) + rev_chars(old_rev));
                    assert(dec_digits(n as nat) =~= rev_chars(rev@));
                }
            } else {
                assert(dec_digits(m0) == dec_digits(m0 / 10).push(((m0 % 10 + 48) as u8) as char));
                assert(dec_digits(m0) =~= dec_digits(m0 / 10) + seq![d as char]);
                if old_rev.len() == 0 {
                    assert(dec_digits(n as nat) =~= dec_digits(m as nat) + rev_chars(rev@));
                } else {
                    assert(dec_digits(n as nat) =~= dec_digits(m0) + rev_chars(old_rev));
                    assert(dec_digits(n as nat) =~= dec_digits(m as nat) + rev_chars(rev@));
                }
            }
        }
        if m == 0 {
            break;
        }
    }
    let mut out: Vec<u8> = Vec::new();
    let mut i: usize = rev.len();
    while i > 0
        invariant
            i <= rev@.len(),
            out@.len() == rev@.len() - i,
            forall|j: int| 0 <= j < out@.len() ==> out@[j] == rev@[rev@.len() - 1 - j],
            forall|j: int| 0 <= j < rev@.len() ==> 48 <= #[trigger] rev@[j] <= 57,
            dec_digits(n as nat) =~= rev_chars(rev@),
        decreases i,
    {
        i -= 1;
        let d = rev[i];
        out.push(d);
    }
    proof {
        assert(chars_of(out@) =~= rev_chars(rev@));
    }
    string_from_ascii(out)
}

proof fn lemma_dec_value_prefix_le(s: Seq<char>, i: int)
    requires
        0 <= i <= s.len(),
        forall|j: int| 0 <= j < s.len() ==> is_digit(s[j]),
    ensures
        dec_value(s.take(i)) <= dec_value(s),
    decreases s.len() - i,
{
    if i == s.len() {
        assert(s.take(i) =~= s);
    } else {
        assert(s.take(i + 1).drop_last() =~= s.take(i));
        assert(s.take(i + 1).last() == s[i]);
        assert(dec_value(s.take(i)) <= dec_value(s.take(i + 1)));
        lemma_dec_value_prefix_le(s, i + 1);
    }
}

/// Reads a decimal numeral no greater than `max`: `Some` exactly when the
/// whole string is one or more digits and its value fits.
pub fn parse_dec(s: &str, max: usize) -> (r: Option<usize>)
    ensures
        match r {
            Some(v) => all_digits(s@) && v == dec_value(s@) && v <= max,
            None => !all_digits(s@) || dec_value(s@) > max,
        },
{
    let n = s.unicode_len();
    if n == 0 {
        return None;
    }
    let mut acc: usize = 0;
    let mut i: usize = 0;
    while i < n
        invariant
            n == s@.len(),
            0 < n,
            i <= n,
            forall|j: int| 0 <= j < i ==> is_digit(s@[j]),
            acc == dec_value(s@.take(i as int)),
            acc <= max,
        decreases n - i,
    {
        let c = s.get_char(i);
        let u = c as u32;
        if u < 48 || u > 57 {
            return None;
        }
        let d: usize = (u - 48) as usize;
        proof {
            assert(s@.take(i + 1).drop_last() =~= s@.take(i as int));
            assert(s@.take(i + 1).last() == s@[i as int]);
        }
        let wide: u128 = acc as u128 * 10 + d as u128;
        if wide > max as u128 {
            proof {
                assert(dec_value(s@.take(i + 1)) > max);
                if forall|j: int| 0 <= j < s@.len() ==> is_digit(s@[j]) {
                    lemma_dec_value_prefix_le(s@, i + 1);
                    assert(dec_value(s@) > max);
                }
            }
            return None;
        }
        acc = (acc * 10 + d) as usize;
        i += 1;
    }
    proof {
        assert(s@.take(n as int) =~= s@);
    }
    Some(acc)
}

/// The index of the first character at or after `from` that fails `p`, or
/// the length of `s` when every later character satisfies `p`.
pub open spec fn span(s: Seq<char>, from: int, p: spec_fn(char) -> bool) -> int
    decreases s.len() - from when 0 <= from <= s.len()
{
    if from >= s.len() || !p(s[from]) {
        from
    } else {
        span(s, from + 1, p)
    }
}

pub proof fn lemma_span_bounds(s: Seq<char>, from: int, p: spec_fn(char) -> bool)
    requires
        0 <= from <= s.len(),
    ensures
        from <= span(s, from, p) <= s.len(),
        forall|j: int| from <= j < span(s, from, p) ==> p(s[j]),
        span(s, from, p) < s.len() ==> !p(s[span(s, from, p)]),
    decreases s.len() - from,
{
    if from < s.len() && p(s[from]) {
        lemma_span_bounds(s, from + 1, p);
    }
}

pub proof fn lemma_span_is(s: Seq<char>, from: int, to: int, p: spec_fn(char) -> bool)
    requires
        0 <= from <= to <= s.len(),
        forall|j: int| from <= j < to ==> p(s[j]),
        to < s.len() ==> !p(s[to]),
    ensures
        span(s, from, p) == to,
    decreases to - from,
{
    if from < to {
        lemma_span_is(s, from + 1, to, p);
    }
}

/// The segments of `s` between occurrences of `sep`: one more segment than
/// there are separators, in order, none containing `sep`.
pub open spec fn not_sep(sep: char) -> spec_fn(char) -> bool {
    |c: char| c != sep
}

pub open spec fn spec_split(s: Seq<char>, sep: char) -> Seq<Seq<char>>
    decreases s.len(),
{
    let e = span(s, 0, not_sep(sep));
    if 0 <= e < s.len() && s[e] == sep {
        seq![s.take(e)] + spec_split(s.skip(e + 1), sep)
    } else {
        seq![s]
    }
}

pub proof fn lemma_split_no_sep(s: Seq<char>, sep: char)
    requires
        forall|j: int| 0 <= j < s.len() ==> s[j] != sep,
    ensures
        spec_split(s, sep) == seq![s],
{
    lemma_span_is(s, 0, s.len() as int, not_sep(sep));
}

pub proof fn lemma_split_first(s: Seq<char>, sep: char, i: int)
    requires
        0 <= i < s.len(),
        s[i] == sep,
        forall|j: int| 0 <= j < i ==> s[j] != sep,
    ensures
        spec_split(s, sep) == seq![s.take(i)] + spec_split(s.skip(i + 1), sep),
{
    lemma_span_is(s, 0, i, not_sep(sep));
}

/// No piece of a split contains the separator: a segment matcher applied
/// piece by piece can never reach across a separator.
pub proof fn lemma_split_pieces_no_sep(s: Seq<char>, sep: char)
    ensures
        forall|i: int| 0 <= i < spec_split(s, sep).len() ==> !(#[trigger] spec_split(s, sep)[i]).contains(
            sep,
        ),
    decreases s.len(),
{
    let e = span(s, 0, not_sep(sep));
    lemma_span_bounds(s, 0, not_sep(sep));
    if 0 <= e < s.len() && s[e] == sep {
        lemma_split_pieces_no_sep(s.skip(e + 1), sep);
        let parts = seq![s.take(e)] + spec_split(s.skip(e + 1), sep);
        assert forall|i: int| 0 <= i < parts.len() implies !(#[trigger] parts[i]).contains(sep) by {
            if i == 0 {
                assert(parts[0] == s.take(e));
                if s.take(e).contains(sep) {
                    let j = choose|j: int| 0 <= j < s.take(e).len() && s.take(e)[j] == sep;
                    assert(not_sep(sep)(s[j]));
                }
            } else {
                assert(parts[i] == spec_split(s.skip(e + 1), sep)[i - 1]);
            }
        }
    } else {
        assert(e == s.len());
        let parts = seq![s];
        assert forall|i: int| 0 <= i < parts.len() implies !(#[trigger] parts[i]).contains(sep) by {
            if s.contains(sep) {
                let j = choose|j: int| 0 <= j < s.len() && s[j] == sep;
                assert(not_sep(sep)(s[j]));
            }
        }
    }
}

/// Splits `s` at every occurrence of `sep`.
pub fn split_on(s: &str, sep: char) -> (r: Vec<String>)
    ensures
        r.deep_view() == spec_split(s@, sep),
{
    let n = s.unicode_len();
    let mut r: Vec<String> = Vec::new();
    let mut start: usize = 0;
    let mut i: usize = 0;
    proof {
        assert(s@.skip(0) =~= s@);
        assert(r.deep_view() + spec_split(s@, sep) =~= spec_split(s@, sep));
    }
    while i < n
        invariant
            n == s@.len(),
            start <= i <= n,
            forall|j: int| start <= j < i ==> s@[j] != sep,
            spec_split(s@, sep) =~~= r.deep_view() + spec_split(s@.skip(start as int), sep),
        decreases n - i,
    {
        let c = s.get_char(i);
        if c == sep {
            let seg = s.substring_char(start, i).to_owned();
            proof {
                let t = s@.skip(start as int);
                lemma_split_first(t, sep, i - start);
                assert(t.take(i - start) =~= s@.subrange(start as int, i as int));
                assert(t.skip(i - start + 1) =~= s@.skip(i + 1));
                assert((r.deep_view().push(seg@)) =~= r.deep_view() + seq![seg@]);
            }
            let ghost r_old = r.deep_view();
            r.push(seg);
            proof {
                assert(r.deep_view() =~~= r_old.push(seg@));
                assert(spec_split(s@, sep) =~~= r.deep_view() + spec_split(
                    s@.skip(i + 1),
                    sep,
                ));
            }
            start = i + 1;
        }
        i += 1;
    }
    let seg = s.substring_char(start, n).to_owned();
    proof {
        let t = s@.skip(start as int);
        lemma_split_no_sep(t, sep);
        assert(t =~= s@.subrange(start as int, n as int));
    }
    let ghost r_old = r.deep_view();
    r.push(seg);
    proof {
        assert(r.deep_view() =~~= r_old.push(seg@));
        assert(r.deep_view() =~~= r_old + seq![seg@]);
        assert(r.deep_view() =~~= spec_split(s@, sep));
    }
    r
}

} // verus!
