//! Bencode primitives: decimal digit runs, length-prefixed byte
//! strings, and integers. Enough to render the `info` dictionary
//! byte-exactly, which the torrent's identity (its info-hash) rests
//! on.

use vstd::prelude::*;
use vstd::arithmetic::div_mod::{
    lemma_div_is_strictly_smaller, lemma_fundamental_div_mod_converse, lemma_mod_bound,
};

verus! {

/// The ASCII decimal digits of `n`, most significant first.
pub open spec fn spec_digits(n: int) -> Seq<u8>
    decreases n,
{
    if n < 10 {
        seq![(48 + n) as u8]
    } else {
        spec_digits(n / 10) + seq![(48 + n % 10) as u8]
    }
}

/// A bencoded byte string: its decimal length, a colon, the bytes.
pub open spec fn spec_bstr(s: Seq<u8>) -> Seq<u8> {
    spec_digits(s.len() as int) + seq![58u8] + s
}

/// A bencoded nonnegative integer: `i`, its decimal digits, `e`.
pub open spec fn spec_bint(n: int) -> Seq<u8> {
    seq![105u8] + spec_digits(n) + seq![101u8]
}

/// Appends the decimal digits of `n`.
pub fn encode_digits(out: &mut Vec<u8>, n: usize)
    ensures
        final(out)@ == old(out)@ + spec_digits(n as int),
    decreases n,
{
    if n < 10 {
        out.push(48 + (n as u8));
        assert(out@ =~= old(out)@ + spec_digits(n as int));
    } else {
        proof {
            lemma_div_is_strictly_smaller(n as int, 10);
            lemma_mod_bound(n as int, 10);
        }
        encode_digits(out, n / 10);
        out.push(48 + ((n % 10) as u8));
        assert(out@ =~= old(out)@ + spec_digits(n as int));
    }
}

/// Appends the bencoding of the byte string `s`.
pub fn encode_bstr(out: &mut Vec<u8>, s: &[u8])
    ensures
        final(out)@ == old(out)@ + spec_bstr(s@),
{
    encode_digits(out, s.len());
    out.push(58);
    crate::push_bytes(out, s);
    assert(out@ =~= old(out)@ + spec_bstr(s@));
}

/// Appends the bencoding of the integer `n`.
pub fn encode_bint(out: &mut Vec<u8>, n: usize)
    ensures
        final(out)@ == old(out)@ + spec_bint(n as int),
{
    out.push(105);
    encode_digits(out, n);
    out.push(101);
    assert(out@ =~= old(out)@ + spec_bint(n as int));
}

// ---------------------------------------------------------------------
// Strict parsing, the inverse of the encoders above
// ---------------------------------------------------------------------

/// An ASCII decimal digit.
pub open spec fn is_digit(c: u8) -> bool {
    48 <= c <= 57
}

/// The length of the digit run at the front of `b`.
pub open spec fn digit_run_len(b: Seq<u8>) -> int
    decreases b.len(),
{
    if b.len() > 0 && is_digit(b[0]) {
        1 + digit_run_len(b.drop_first())
    } else {
        0
    }
}

/// The value of a digit run, most significant digit first.
pub open spec fn digits_value(d: Seq<u8>) -> int
    decreases d.len(),
{
    if d.len() == 0 {
        0
    } else {
        10 * digits_value(d.drop_last()) + (d.last() - 48)
    }
}

/// Parses the canonical decimal number at the front of `b`: a
/// nonempty digit run, with no leading zero unless it is `0` itself.
pub open spec fn spec_parse_number(b: Seq<u8>) -> Option<(int, Seq<u8>)> {
    let k = digit_run_len(b);
    if k == 0 {
        None
    } else if b[0] == 48 && k > 1 {
        None
    } else {
        Some((digits_value(b.take(k)), b.skip(k)))
    }
}

/// Consumes the exact token `tok` at the front of `b`.
pub open spec fn spec_expect(b: Seq<u8>, tok: Seq<u8>) -> Option<Seq<u8>> {
    if b.len() >= tok.len() && b.take(tok.len() as int) == tok {
        Some(b.skip(tok.len() as int))
    } else {
        None
    }
}

/// Parses a bencoded nonnegative integer: `i`, a canonical number,
/// `e`.
pub open spec fn spec_parse_bint(b: Seq<u8>) -> Option<(int, Seq<u8>)> {
    match spec_expect(b, seq![105u8]) {
        None => None,
        Some(r) => match spec_parse_number(r) {
            None => None,
            Some((n, r2)) => match spec_expect(r2, seq![101u8]) {
                None => None,
                Some(r3) => Some((n, r3)),
            },
        },
    }
}

/// Parses a bencoded byte string: its decimal length, a colon, that
/// many bytes.
pub open spec fn spec_parse_bstr(b: Seq<u8>) -> Option<(Seq<u8>, Seq<u8>)> {
    match spec_parse_number(b) {
        None => None,
        Some((n, r)) => match spec_expect(r, seq![58u8]) {
            None => None,
            Some(r2) => if r2.len() >= n {
                Some((r2.take(n), r2.skip(n)))
            } else {
                None
            },
        },
    }
}

proof fn lemma_digits_shape(n: int)
    requires
        n >= 0,
    ensures
        spec_digits(n).len() >= 1,
        forall|i: int| 0 <= i < spec_digits(n).len() ==> is_digit(#[trigger] spec_digits(n)[i]),
        n > 0 ==> spec_digits(n)[0] != 48,
        n == 0 ==> spec_digits(n) =~= seq![48u8],
    decreases n,
{
    if n >= 10 {
        lemma_div_is_strictly_smaller(n, 10);
        lemma_mod_bound(n, 10);
        vstd::arithmetic::div_mod::lemma_div_pos_is_pos(n, 10);
        vstd::arithmetic::div_mod::lemma_fundamental_div_mod(n, 10);
        lemma_digits_shape(n / 10);
        assert(n / 10 > 0) by {
            if n / 10 == 0 {
                assert(n == 10 * (n / 10) + n % 10);
            }
        }
    }
}

proof fn lemma_run_len_of_digits(s: Seq<u8>, rest: Seq<u8>)
    requires
        forall|i: int| 0 <= i < s.len() ==> is_digit(#[trigger] s[i]),
        rest.len() == 0 || !is_digit(rest[0]),
    ensures
        digit_run_len(s + rest) == s.len(),
    decreases s.len(),
{
    if s.len() == 0 {
        assert(s + rest =~= rest);
    } else {
        assert((s + rest).drop_first() =~= s.drop_first() + rest);
        lemma_run_len_of_digits(s.drop_first(), rest);
    }
}

proof fn lemma_digits_value_roundtrip(n: int)
    requires
        n >= 0,
    ensures
        digits_value(spec_digits(n)) == n,
    decreases n,
{
    if n < 10 {
        let d = spec_digits(n);
        assert(d =~= seq![(48 + n) as u8]);
        assert(d.drop_last() =~= Seq::<u8>::empty());
        assert(digits_value(d.drop_last()) == 0);
        assert(d.last() == (48 + n) as u8);
    } else {
        lemma_div_is_strictly_smaller(n, 10);
        lemma_mod_bound(n, 10);
        vstd::arithmetic::div_mod::lemma_div_pos_is_pos(n, 10);
        vstd::arithmetic::div_mod::lemma_fundamental_div_mod(n, 10);
        lemma_digits_value_roundtrip(n / 10);
        assert(spec_digits(n).drop_last() =~= spec_digits(n / 10));
    }
}

/// Printing a number and parsing it back returns the number, whatever
/// non-digit material follows.
pub proof fn lemma_parse_number_of_digits(n: int, rest: Seq<u8>)
    requires
        n >= 0,
        rest.len() == 0 || !is_digit(rest[0]),
    ensures
        spec_parse_number(spec_digits(n) + rest) == Some((n, rest)),
{
    lemma_digits_shape(n);
    lemma_run_len_of_digits(spec_digits(n), rest);
    let b = spec_digits(n) + rest;
    let k = spec_digits(n).len() as int;
    assert(b.take(k) =~= spec_digits(n));
    assert(b.skip(k) =~= rest);
    lemma_digits_value_roundtrip(n);
}

proof fn lemma_run_props(b: Seq<u8>)
    ensures
        0 <= digit_run_len(b) <= b.len(),
        forall|i: int| 0 <= i < digit_run_len(b) ==> is_digit(#[trigger] b[i]),
        digit_run_len(b) < b.len() ==> !is_digit(b[digit_run_len(b)]),
    decreases b.len(),
{
    if b.len() > 0 && is_digit(b[0]) {
        lemma_run_props(b.drop_first());
        assert forall|i: int| 0 <= i < digit_run_len(b) implies is_digit(#[trigger] b[i]) by {
            if i > 0 {
                assert(b.drop_first()[i - 1] == b[i]);
            }
        }
        if digit_run_len(b) < b.len() {
            assert(b.drop_first()[digit_run_len(b) - 1] == b[digit_run_len(b)]);
        }
    }
}

proof fn lemma_value_positive(run: Seq<u8>)
    requires
        run.len() >= 1,
        forall|i: int| 0 <= i < run.len() ==> is_digit(#[trigger] run[i]),
        run[0] != 48,
    ensures
        digits_value(run) >= 1,
    decreases run.len(),
{
    if run.len() > 1 {
        assert(run.drop_last()[0] == run[0]);
        assert forall|i: int| 0 <= i < run.drop_last().len() implies is_digit(
            #[trigger] run.drop_last()[i],
        ) by {
            assert(run.drop_last()[i] == run[i]);
        }
        lemma_value_positive(run.drop_last());
        assert(digits_value(run) >= 10) by (nonlinear_arith)
            requires
                digits_value(run) == 10 * digits_value(run.drop_last()) + (run.last() - 48),
                digits_value(run.drop_last()) >= 1,
                run.last() >= 48,
        ;
    } else {
        assert(run.drop_last() =~= Seq::<u8>::empty());
        assert(digits_value(run.drop_last()) == 0);
        assert(run.last() == run[0]);
    }
}

proof fn lemma_digits_of_value(run: Seq<u8>)
    requires
        run.len() >= 1,
        forall|i: int| 0 <= i < run.len() ==> is_digit(#[trigger] run[i]),
        run[0] != 48 || run.len() == 1,
    ensures
        digits_value(run) >= 0,
        spec_digits(digits_value(run)) == run,
    decreases run.len(),
{
    let v = digits_value(run);
    if run.len() == 1 {
        assert(run.drop_last() =~= Seq::<u8>::empty());
        assert(spec_digits(v) =~= run);
    } else {
        let head = run.drop_last();
        assert(head[0] == run[0]);
        assert forall|i: int| 0 <= i < head.len() implies is_digit(#[trigger] head[i]) by {
            assert(head[i] == run[i]);
        }
        lemma_value_positive(head);
        lemma_digits_of_value(head);
        let vh = digits_value(head);
        let d = run.last() - 48;
        assert(v == 10 * vh + d);
        assert(v >= 10) by (nonlinear_arith)
            requires vh >= 1, d >= 0, v == 10 * vh + d;
        lemma_fundamental_div_mod_converse(v, 10, vh, d);
        assert(spec_digits(v) =~= run);
    }
}

/// Parsing a number is strict: the input was exactly the number's
/// canonical digits followed by the rest.
pub proof fn lemma_parse_number_strict(b: Seq<u8>, n: int, rest: Seq<u8>)
    requires
        spec_parse_number(b) == Some((n, rest)),
    ensures
        n >= 0,
        b == spec_digits(n) + rest,
        rest.len() == 0 || !is_digit(rest[0]),
{
    lemma_run_props(b);
    let k = digit_run_len(b);
    let run = b.take(k);
    assert(run.len() == k);
    assert forall|i: int| 0 <= i < run.len() implies is_digit(#[trigger] run[i]) by {
        assert(run[i] == b[i]);
    }
    assert(run[0] == b[0]);
    lemma_digits_of_value(run);
    assert(b =~= run + b.skip(k));
    if b.skip(k).len() > 0 {
        assert(b.skip(k)[0] == b[k]);
    }
}

/// Consuming a token it was given back is exact.
pub proof fn lemma_expect_of(tok: Seq<u8>, rest: Seq<u8>)
    ensures
        spec_expect(tok + rest, tok) == Some(rest),
{
    let b = tok + rest;
    assert(b.take(tok.len() as int) =~= tok);
    assert(b.skip(tok.len() as int) =~= rest);
}

/// Consuming a token is strict: the input was the token then the rest.
pub proof fn lemma_expect_strict(b: Seq<u8>, tok: Seq<u8>, r: Seq<u8>)
    requires
        spec_expect(b, tok) == Some(r),
    ensures
        b == tok + r,
{
    assert(b =~= b.take(tok.len() as int) + b.skip(tok.len() as int));
}

/// An encoded integer parses back, whatever follows.
pub proof fn lemma_parse_bint_of(n: int, rest: Seq<u8>)
    requires
        n >= 0,
    ensures
        spec_parse_bint(spec_bint(n) + rest) == Some((n, rest)),
{
    let b = spec_bint(n) + rest;
    assert(b =~= seq![105u8] + (spec_digits(n) + (seq![101u8] + rest)));
    lemma_expect_of(seq![105u8], spec_digits(n) + (seq![101u8] + rest));
    lemma_parse_number_of_digits(n, seq![101u8] + rest);
    lemma_expect_of(seq![101u8], rest);
}

/// Parsing an integer is strict.
pub proof fn lemma_parse_bint_strict(b: Seq<u8>, n: int, rest: Seq<u8>)
    requires
        spec_parse_bint(b) == Some((n, rest)),
    ensures
        n >= 0,
        b == spec_bint(n) + rest,
{
    let r = spec_expect(b, seq![105u8]).unwrap();
    lemma_expect_strict(b, seq![105u8], r);
    let (n2, r2) = spec_parse_number(r).unwrap();
    lemma_parse_number_strict(r, n2, r2);
    let r3 = spec_expect(r2, seq![101u8]).unwrap();
    lemma_expect_strict(r2, seq![101u8], r3);
    assert(b =~= spec_bint(n) + rest);
}

/// An encoded byte string parses back, whatever follows.
pub proof fn lemma_parse_bstr_of(s: Seq<u8>, rest: Seq<u8>)
    ensures
        spec_parse_bstr(spec_bstr(s) + rest) == Some((s, rest)),
{
    let b = spec_bstr(s) + rest;
    assert(b =~= spec_digits(s.len() as int) + (seq![58u8] + (s + rest)));
    lemma_parse_number_of_digits(s.len() as int, seq![58u8] + (s + rest));
    lemma_expect_of(seq![58u8], s + rest);
    let r2 = s + rest;
    assert(r2.take(s.len() as int) =~= s);
    assert(r2.skip(s.len() as int) =~= rest);
}

/// Parsing a byte string is strict.
pub proof fn lemma_parse_bstr_strict(b: Seq<u8>, s: Seq<u8>, rest: Seq<u8>)
    requires
        spec_parse_bstr(b) == Some((s, rest)),
    ensures
        b == spec_bstr(s) + rest,
{
    let (n, r) = spec_parse_number(b).unwrap();
    lemma_parse_number_strict(b, n, r);
    let r2 = spec_expect(r, seq![58u8]).unwrap();
    lemma_expect_strict(r, seq![58u8], r2);
    assert(s == r2.take(n));
    assert(rest == r2.skip(n));
    assert(s.len() == n);
    assert(r2 =~= s + rest);
    assert(b =~= spec_bstr(s) + rest);
}

} // verus!
