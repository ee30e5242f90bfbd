//! The mathematical model of the rpeg wire format.
//!
//! Everything here is specification: a byte-level description of what the
//! decoder accepts and what the encoder emits. The executable code in
//! `decode` and `encode` is proved against these functions.

use vstd::prelude::*;

use crate::errors::RpegError;

verus! {

/// The fixed header literal, `"Compressed image format 2"` as ASCII bytes.
pub open spec fn spec_tag() -> Seq<u8> {
    seq![
        0x43u8, 0x6Fu8, 0x6Du8, 0x70u8, 0x72u8, 0x65u8, 0x73u8, 0x73u8, 0x65u8, 0x64u8,
        0x20u8, 0x69u8, 0x6Du8, 0x61u8, 0x67u8, 0x65u8,
        0x20u8, 0x66u8, 0x6Fu8, 0x72u8, 0x6Du8, 0x61u8, 0x74u8,
        0x20u8, 0x32u8,
    ]
}

/// The suffix `" [DEBUG]"` that the human-readable rendering appends to the tag.
pub open spec fn spec_debug_suffix() -> Seq<u8> {
    seq![0x20u8, 0x5Bu8, 0x44u8, 0x45u8, 0x42u8, 0x55u8, 0x47u8, 0x5Du8]
}

/// An ASCII decimal digit, `'0'` through `'9'`.
pub open spec fn spec_is_digit(b: u8) -> bool {
    0x30 <= b && b <= 0x39
}

/// The sequences the decoder accepts as one line terminator: a bare line
/// feed, a bare carriage return, or a carriage return followed by a line feed.
pub open spec fn is_newline_token(nl: Seq<u8>) -> bool {
    ||| nl == seq![0x0Au8]
    ||| nl == seq![0x0Du8]
    ||| nl == seq![0x0Du8, 0x0Au8]
}

/// A well-formed dimension field: one or more ASCII digits.
pub open spec fn is_digit_string(s: Seq<u8>) -> bool {
    s.len() > 0 && forall|j: int| 0 <= j < s.len() ==> spec_is_digit(#[trigger] s[j])
}

/// Matching a literal against the front of the input: on success the rest of
/// the input is returned; a mismatching byte or early exhaustion fails.
pub open spec fn spec_take_literal(lit: Seq<u8>, s: Seq<u8>) -> Result<Seq<u8>, RpegError>
    decreases lit.len(),
{
    if lit.len() == 0 {
        Ok(s)
    } else if s.len() == 0 {
        Err(RpegError::TruncatedInput)
    } else if s[0] != lit[0] {
        Err(RpegError::UnexpectedByte { expected: lit[0], found: s[0] })
    } else {
        spec_take_literal(lit.skip(1), s.skip(1))
    }
}

/// Consuming one line terminator from the front of the input. A carriage
/// return always completes the terminator; a line feed directly after it is
/// consumed as well, but never required.
pub open spec fn spec_take_newline(s: Seq<u8>) -> Result<Seq<u8>, RpegError> {
    if s.len() == 0 {
        Err(RpegError::MalformedNewline)
    } else if s[0] == 0x0A {
        Ok(s.skip(1))
    } else if s[0] == 0x0D {
        if s.len() >= 2 && s[1] == 0x0A {
            Ok(s.skip(2))
        } else {
            Ok(s.skip(1))
        }
    } else {
        Err(RpegError::MalformedNewline)
    }
}

/// The length of the maximal run of digits at the front of the input.
pub open spec fn spec_digit_run(s: Seq<u8>) -> nat
    decreases s.len(),
{
    if s.len() > 0 && spec_is_digit(s[0]) {
        (1 + spec_digit_run(s.skip(1))) as nat
    } else {
        0
    }
}

/// The value of a digit string read in base ten, without any width bound.
pub open spec fn spec_digits_value(s: Seq<u8>) -> nat
    decreases s.len(),
{
    if s.len() == 0 {
        0
    } else {
        (spec_digits_value(s.drop_last()) * 10 + (s.last() - 0x30)) as nat
    }
}

/// Consuming one decimal dimension from the front of the input: the maximal
/// digit run is read in base ten. At least one digit is required, and a value
/// past the unsigned 32-bit range is an overflow, never a wrap.
pub open spec fn spec_read_u32(s: Seq<u8>) -> Result<(u32, Seq<u8>), RpegError> {
    if s.len() == 0 || !spec_is_digit(s[0]) {
        Err(RpegError::ExpectedNumber)
    } else {
        let run = spec_digit_run(s) as int;
        let value = spec_digits_value(s.take(run));
        if value > u32::MAX {
            Err(RpegError::IntegerOverflow)
        } else {
            Ok((value as u32, s.skip(run)))
        }
    }
}

/// The payload split into consecutive four-byte words, in input order.
pub open spec fn spec_group(s: Seq<u8>) -> Seq<Seq<u8>> {
    Seq::new(s.len() / 4, |i: int| s.subrange(4 * i, 4 * i + 4))
}

/// The bytes of a word sequence, concatenated in order with no separators.
pub open spec fn spec_words_flat(ws: Seq<Seq<u8>>) -> Seq<u8>
    decreases ws.len(),
{
    if ws.len() == 0 {
        Seq::empty()
    } else {
        ws[0] + spec_words_flat(ws.skip(1))
    }
}

/// The view of a vector of four-byte words as a sequence of byte sequences.
pub open spec fn words_view(ws: Seq<[u8; 4]>) -> Seq<Seq<u8>> {
    ws.map_values(|w: [u8; 4]| w@)
}

/// What decoding a whole byte stream yields: the header is validated and
/// stripped, the dimensions are read, and the remaining payload is split
/// into words. The first failing step decides the error.
pub open spec fn spec_decode(s: Seq<u8>) -> Result<(Seq<Seq<u8>>, u32, u32), RpegError> {
    match spec_take_literal(spec_tag(), s) {
        Err(e) => Err(e),
        Ok(s1) => match spec_take_newline(s1) {
            Err(e) => Err(e),
            Ok(s2) => match spec_read_u32(s2) {
                Err(e) => Err(e),
                Ok((width, s3)) => match spec_take_literal(seq![0x20u8], s3) {
                    Err(e) => Err(e),
                    Ok(s4) => match spec_read_u32(s4) {
                        Err(e) => Err(e),
                        Ok((height, s5)) => match spec_take_newline(s5) {
                            Err(e) => Err(e),
                            Ok(payload) => if payload.len() % 4 == 0 {
                                Ok((spec_group(payload), width, height))
                            } else {
                                Err(RpegError::MisalignedPayload {
                                    length: payload.len() as usize,
                                })
                            },
                        },
                    },
                },
            },
        },
    }
}

/// The shortest decimal rendering of a number: no sign and no leading zero,
/// except that zero itself is the single digit `'0'`.
pub open spec fn spec_u32_decimal(n: nat) -> Seq<u8>
    decreases n,
{
    if n < 10 {
        seq![(0x30 + n) as u8]
    } else {
        spec_u32_decimal(n / 10).push((0x30 + n % 10) as u8)
    }
}

/// The header the encoder emits: the tag line and the dimension line, each
/// terminated by a single line feed.
pub open spec fn spec_header(width: u32, height: u32) -> Seq<u8> {
    spec_tag() + seq![0x0Au8] + spec_u32_decimal(width as nat) + seq![0x20u8]
        + spec_u32_decimal(height as nat) + seq![0x0Au8]
}

/// What encoding yields: the header followed by the raw word bytes.
pub open spec fn spec_encode(ws: Seq<Seq<u8>>, width: u32, height: u32) -> Seq<u8> {
    spec_header(width, height) + spec_words_flat(ws)
}

/// The upper-case hexadecimal digit for a value below sixteen.
pub open spec fn spec_hex_digit(n: u8) -> u8 {
    if n < 10 {
        (0x30 + n) as u8
    } else {
        (0x37 + n) as u8
    }
}

/// One byte rendered as two upper-case hexadecimal digits.
pub open spec fn spec_hex_pair(b: u8) -> Seq<u8> {
    seq![spec_hex_digit(b / 16), spec_hex_digit(b % 16)]
}

/// A byte sequence rendered as hexadecimal pairs separated by single spaces,
/// with no separator before the first byte and none after the last.
pub open spec fn spec_hex_body(s: Seq<u8>) -> Seq<u8>
    decreases s.len(),
{
    if s.len() == 0 {
        Seq::empty()
    } else if s.len() == 1 {
        spec_hex_pair(s[0])
    } else {
        spec_hex_body(s.drop_last()) + seq![0x20u8] + spec_hex_pair(s.last())
    }
}

/// What the human-readable rendering yields: the tag with its debug suffix,
/// the dimension line, and the payload bytes in spaced hexadecimal. There is
/// no corresponding parser; this form is for inspection only.
pub open spec fn spec_debug_render(ws: Seq<Seq<u8>>, width: u32, height: u32) -> Seq<u8> {
    spec_tag() + spec_debug_suffix() + seq![0x0Au8] + spec_u32_decimal(width as nat)
        + seq![0x20u8] + spec_u32_decimal(height as nat) + seq![0x0Au8]
        + spec_hex_body(spec_words_flat(ws))
}

/// The header literal as a byte array, for the executable parser and encoder.
pub fn tag_bytes() -> (arr: [u8; 25])
    ensures
        arr@ == spec_tag(),
{
    let arr: [u8; 25] = [
        0x43u8, 0x6Fu8, 0x6Du8, 0x70u8, 0x72u8, 0x65u8, 0x73u8, 0x73u8, 0x65u8, 0x64u8,
        0x20u8, 0x69u8, 0x6Du8, 0x61u8, 0x67u8, 0x65u8,
        0x20u8, 0x66u8, 0x6Fu8, 0x72u8, 0x6Du8, 0x61u8, 0x74u8,
        0x20u8, 0x32u8,
    ];
    proof {
        assert(arr@ =~= spec_tag());
    }
    arr
}

/// Every byte of the digit run is a digit, the run never passes the end of
/// the input, and it stops exactly at the first non-digit byte.
pub proof fn lemma_digit_run_facts(s: Seq<u8>)
    ensures
        spec_digit_run(s) <= s.len(),
        forall|j: int| 0 <= j < spec_digit_run(s) ==> spec_is_digit(#[trigger] s[j]),
        spec_digit_run(s) < s.len() ==> !spec_is_digit(s[spec_digit_run(s) as int]),
    decreases s.len(),
{
    if s.len() > 0 && spec_is_digit(s[0]) {
        lemma_digit_run_facts(s.skip(1));
        assert forall|j: int| 0 <= j < spec_digit_run(s) implies spec_is_digit(
            #[trigger] s[j],
        ) by {
            if j > 0 {
                assert(s.skip(1)[j - 1] == s[j]);
            }
        }
        if spec_digit_run(s) < s.len() {
            assert(s.skip(1)[spec_digit_run(s.skip(1)) as int] == s[spec_digit_run(s) as int]);
        }
    }
}

/// A run of digits followed by the end of the input or a non-digit byte is
/// exactly the digit run of the concatenation.
pub proof fn lemma_digit_run_of_concat(d: Seq<u8>, rest: Seq<u8>)
    requires
        forall|j: int| 0 <= j < d.len() ==> spec_is_digit(#[trigger] d[j]),
        rest.len() == 0 || !spec_is_digit(rest[0]),
    ensures
        spec_digit_run(d + rest) == d.len(),
    decreases d.len(),
{
    if d.len() == 0 {
        assert(d + rest =~= rest);
    } else {
        assert((d + rest)[0] == d[0]);
        assert forall|j: int| 0 <= j < d.skip(1).len() implies spec_is_digit(
            #[trigger] d.skip(1)[j],
        ) by {
            assert(d.skip(1)[j] == d[j + 1]);
        }
        lemma_digit_run_of_concat(d.skip(1), rest);
        assert((d + rest).skip(1) =~= d.skip(1) + rest);
    }
}

/// A literal is consumed from the front of any input that starts with it,
/// leaving exactly the bytes after it.
pub proof fn lemma_take_literal_prefix(lit: Seq<u8>, rest: Seq<u8>)
    ensures
        spec_take_literal(lit, lit + rest) == Ok::<Seq<u8>, RpegError>(rest),
    decreases lit.len(),
{
    if lit.len() == 0 {
        assert(lit + rest =~= rest);
    } else {
        assert((lit + rest)[0] == lit[0]);
        lemma_take_literal_prefix(lit.skip(1), rest);
        assert((lit + rest).skip(1) =~= lit.skip(1) + rest);
    }
}

/// Any recognized line terminator at the front of the input is consumed
/// whole, leaving exactly the bytes after it. A bare carriage return
/// directly followed by a line feed is excluded: the line feed would be
/// consumed as part of the terminator.
pub proof fn lemma_take_newline_token(nl: Seq<u8>, rest: Seq<u8>)
    requires
        is_newline_token(nl),
        nl == seq![0x0Du8] ==> rest.len() == 0 || rest[0] != 0x0A,
    ensures
        spec_take_newline(nl + rest) == Ok::<Seq<u8>, RpegError>(rest),
{
    let s = nl + rest;
    if nl == seq![0x0Au8] {
        assert(s[0] == 0x0A);
        assert(s.skip(1) =~= rest);
    } else if nl == seq![0x0Du8] {
        assert(s[0] == 0x0D);
        if s.len() >= 2 {
            assert(s[1] == rest[0]);
        }
        assert(s.skip(1) =~= rest);
    } else {
        assert(s[0] == 0x0D);
        assert(s[1] == 0x0A);
        assert(s.skip(2) =~= rest);
    }
}

/// A digit field followed by the end of the input or a non-digit byte reads
/// as its base-ten value, leaving exactly the bytes after it.
pub proof fn lemma_read_u32_value(d: Seq<u8>, rest: Seq<u8>)
    requires
        is_digit_string(d),
        spec_digits_value(d) <= u32::MAX,
        rest.len() == 0 || !spec_is_digit(rest[0]),
    ensures
        spec_read_u32(d + rest) == Ok::<(u32, Seq<u8>), RpegError>(
            (spec_digits_value(d) as u32, rest),
        ),
{
    let s = d + rest;
    lemma_digit_run_of_concat(d, rest);
    assert(s[0] == d[0]);
    assert(s.take(d.len() as int) =~= d);
    assert(s.skip(d.len() as int) =~= rest);
}

/// The decimal rendering of a number is a digit string whose base-ten value
/// is the number itself.
pub proof fn lemma_u32_decimal_digits(n: nat)
    ensures
        spec_u32_decimal(n).len() > 0,
        forall|j: int|
            0 <= j < spec_u32_decimal(n).len() ==> spec_is_digit(#[trigger] spec_u32_decimal(n)[j]),
        spec_digits_value(spec_u32_decimal(n)) == n,
    decreases n,
{
    if n < 10 {
        let d = spec_u32_decimal(n);
        assert(d.len() == 1);
        assert(d.last() == (0x30 + n) as u8);
        assert(d.drop_last() =~= Seq::<u8>::empty());
        assert(spec_digits_value(Seq::<u8>::empty()) == 0);
        assert(spec_digits_value(d) == n);
    } else {
        lemma_u32_decimal_digits(n / 10);
        let prev = spec_u32_decimal(n / 10);
        let d = spec_u32_decimal(n);
        assert(d == prev.push((0x30 + n % 10) as u8));
        assert(d.drop_last() =~= prev);
        assert(d.last() == (0x30 + n % 10) as u8);
        assert(spec_digits_value(d) == spec_digits_value(prev) * 10 + n % 10);
        assert((n / 10) * 10 + n % 10 == n);
        assert forall|j: int| 0 <= j < d.len() implies spec_is_digit(#[trigger] d[j]) by {
            if j < prev.len() {
                assert(d[j] == prev[j]);
            } else {
                assert(d[j] == d.last());
            }
        }
    }
}

/// The concatenated bytes of words of four bytes each take four bytes per word.
pub proof fn lemma_words_flat_len(ws: Seq<Seq<u8>>)
    requires
        forall|i: int| 0 <= i < ws.len() ==> #[trigger] ws[i].len() == 4,
    ensures
        spec_words_flat(ws).len() == 4 * ws.len(),
    decreases ws.len(),
{
    if ws.len() > 0 {
        assert forall|i: int| 0 <= i < ws.skip(1).len() implies #[trigger] ws.skip(1)[i].len()
            == 4 by {
            assert(ws.skip(1)[i] == ws[i + 1]);
        }
        lemma_words_flat_len(ws.skip(1));
    }
}

/// Each word stands unchanged at its own offset in the concatenated bytes.
pub proof fn lemma_words_flat_index(ws: Seq<Seq<u8>>, i: int)
    requires
        forall|k: int| 0 <= k < ws.len() ==> #[trigger] ws[k].len() == 4,
        0 <= i < ws.len(),
    ensures
        spec_words_flat(ws).subrange(4 * i, 4 * i + 4) == ws[i],
    decreases i,
{
    lemma_words_flat_len(ws);
    assert forall|k: int| 0 <= k < ws.skip(1).len() implies #[trigger] ws.skip(1)[k].len() == 4 by {
        assert(ws.skip(1)[k] == ws[k + 1]);
    }
    lemma_words_flat_len(ws.skip(1));
    if i == 0 {
        assert(spec_words_flat(ws).subrange(0, 4) =~= ws[0]);
    } else {
        lemma_words_flat_index(ws.skip(1), i - 1);
        assert(spec_words_flat(ws).subrange(4 * i, 4 * i + 4) =~= spec_words_flat(
            ws.skip(1),
        ).subrange(4 * (i - 1), 4 * (i - 1) + 4));
        assert(ws.skip(1)[i - 1] == ws[i]);
    }
}

/// Grouping the concatenated bytes of four-byte words recovers the words.
pub proof fn lemma_group_flat(ws: Seq<Seq<u8>>)
    requires
        forall|i: int| 0 <= i < ws.len() ==> #[trigger] ws[i].len() == 4,
    ensures
        spec_group(spec_words_flat(ws)) == ws,
{
    lemma_words_flat_len(ws);
    let flat = spec_words_flat(ws);
    assert forall|i: int| 0 <= i < ws.len() implies spec_group(flat)[i] == ws[i] by {
        lemma_words_flat_index(ws, i);
    }
    assert(spec_group(flat) =~= ws);
}

/// Concatenated word bytes grow at the back as words are appended.
pub proof fn lemma_words_flat_push(ws: Seq<Seq<u8>>, w: Seq<u8>)
    ensures
        spec_words_flat(ws.push(w)) == spec_words_flat(ws) + w,
    decreases ws.len(),
{
    if ws.len() == 0 {
        assert(ws.push(w)[0] == w);
        assert(ws.push(w).skip(1) =~= Seq::<Seq<u8>>::empty());
        assert(spec_words_flat(ws.push(w).skip(1)) =~= Seq::<u8>::empty());
        assert(spec_words_flat(ws) =~= Seq::<u8>::empty());
        assert(w + Seq::<u8>::empty() =~= w);
        assert(Seq::<u8>::empty() + w =~= w);
    } else {
        assert(ws.push(w)[0] == ws[0]);
        assert(ws.push(w).skip(1) =~= ws.skip(1).push(w));
        lemma_words_flat_push(ws.skip(1), w);
        assert(ws[0] + (spec_words_flat(ws.skip(1)) + w) =~= (ws[0] + spec_words_flat(ws.skip(1)))
            + w);
    }
}

/// Reading more digits never shrinks the value.
pub proof fn lemma_digits_value_monotone(s: Seq<u8>, a: int, b: int)
    requires
        0 <= a <= b <= s.len(),
        forall|j: int| 0 <= j < b ==> spec_is_digit(#[trigger] s[j]),
    ensures
        spec_digits_value(s.take(a)) <= spec_digits_value(s.take(b)),
    decreases b - a,
{
    if a < b {
        lemma_digits_value_monotone(s, a, b - 1);
        let t = s.take(b);
        assert(t.drop_last() =~= s.take(b - 1));
        assert(t.last() == s[b - 1]);
        assert(spec_digits_value(s.take(b - 1)) * 10 >= spec_digits_value(s.take(b - 1)));
    }
}

} // verus!
