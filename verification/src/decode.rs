//! The executable decoder: header validation, dimension parsing, and the
//! grouping of the payload into four-byte words, each step proved against
//! the model in `format`.

use vstd::prelude::*;

use crate::cursor::ByteCursor;
use crate::errors::RpegError;
use crate::format::lemma_digit_run_facts;
use crate::format::lemma_digits_value_monotone;
use crate::format::spec_decode;
use crate::format::spec_digit_run;
use crate::format::spec_digits_value;
use crate::format::spec_group;
use crate::format::spec_is_digit;
use crate::format::spec_read_u32;
use crate::format::spec_take_literal;
use crate::format::spec_take_newline;
use crate::format::tag_bytes;
use crate::format::words_view;

verus! {

/// Consume the given literal from the cursor byte by byte. A mismatching
/// byte or an exhausted cursor fails exactly as the model says.
#[verifier::loop_isolation(false)]
pub fn expect(expected_bytes: &[u8], cursor: &mut ByteCursor) -> (r: Result<(), RpegError>)
    requires
        old(cursor).wf(),
    ensures
        final(cursor).wf(),
        (match spec_take_literal(expected_bytes@, old(cursor).remaining()) {
            Ok(rest) => r is Ok && final(cursor).remaining() == rest,
            Err(e) => r == Err::<(), RpegError>(e),
        }),
{
    let ghost orig = cursor.remaining();
    proof {
        assert(expected_bytes@.skip(0) =~= expected_bytes@);
    }
    let mut i: usize = 0;
    while i < expected_bytes.len()
        invariant
            cursor.wf(),
            i <= expected_bytes@.len(),
            spec_take_literal(expected_bytes@, orig) == spec_take_literal(
                expected_bytes@.skip(i as int),
                cursor.remaining(),
            ),
        decreases expected_bytes@.len() - i,
    {
        let expected_byte = expected_bytes[i];
        proof {
            assert(expected_bytes@.skip(i as int)[0] == expected_bytes@[i as int]);
        }
        match cursor.advance() {
            Some(byte) => {
                if byte != expected_byte {
                    return Err(RpegError::UnexpectedByte {
                        expected: expected_byte,
                        found: byte,
                    });
                }
                proof {
                    assert(expected_bytes@.skip(i as int).skip(1) =~= expected_bytes@.skip(
                        i as int + 1,
                    ));
                }
            },
            None => {
                return Err(RpegError::TruncatedInput);
            },
        }
        i = i + 1;
    }
    proof {
        assert(expected_bytes@.skip(i as int) =~= Seq::<u8>::empty());
    }
    Ok(())
}

/// Consume one line terminator: a line feed, or a carriage return after
/// which a directly following line feed is consumed as well, never required.
pub fn expect_newline(cursor: &mut ByteCursor) -> (r: Result<(), RpegError>)
    requires
        old(cursor).wf(),
    ensures
        final(cursor).wf(),
        (match spec_take_newline(old(cursor).remaining()) {
            Ok(rest) => r is Ok && final(cursor).remaining() == rest,
            Err(e) => r == Err::<(), RpegError>(e),
        }),
{
    match cursor.advance() {
        Some(byte) => {
            if byte == 0x0A {
                Ok(())
            } else if byte == 0x0D {
                let next = cursor.peek();
                if let Some(after) = next {
                    if after == 0x0A {
                        cursor.advance();
                        proof {
                            assert(old(cursor).remaining().skip(1).skip(1) =~= old(
                                cursor,
                            ).remaining().skip(2));
                        }
                    }
                }
                Ok(())
            } else {
                Err(RpegError::MalformedNewline)
            }
        },
        None => Err(RpegError::MalformedNewline),
    }
}

/// Whether the byte is an ASCII decimal digit.
pub fn is_ascii_digit(byte: u8) -> (r: bool)
    ensures
        r == spec_is_digit(byte),
{
    0x30 <= byte && byte <= 0x39
}

/// The value of one ASCII decimal digit; any other byte is rejected.
pub fn parse_ascii_digit(digit: u8) -> (r: Result<u32, RpegError>)
    ensures
        spec_is_digit(digit) ==> r == Ok::<u32, RpegError>((digit - 0x30) as u32),
        !spec_is_digit(digit) ==> r == Err::<u32, RpegError>(RpegError::ExpectedNumber),
{
    if !is_ascii_digit(digit) {
        Err(RpegError::ExpectedNumber)
    } else {
        Ok((digit - 0x30) as u32)
    }
}

/// Read the maximal digit run from the cursor as a base-ten number. At
/// least one digit is required, and a value past the unsigned 32-bit range
/// is reported as an overflow rather than wrapped.
pub fn read_u32(cursor: &mut ByteCursor) -> (r: Result<u32, RpegError>)
    requires
        old(cursor).wf(),
    ensures
        final(cursor).wf(),
        (match spec_read_u32(old(cursor).remaining()) {
            Ok(res) => r == Ok::<u32, RpegError>(res.0) && final(cursor).remaining() == res.1,
            Err(e) => r == Err::<u32, RpegError>(e),
        }),
{
    let ghost orig = cursor.remaining();
    let ghost run = spec_digit_run(orig) as int;
    proof {
        lemma_digit_run_facts(orig);
    }
    let first = match cursor.peek() {
        Some(byte) => byte,
        None => {
            return Err(RpegError::ExpectedNumber);
        },
    };
    if !is_ascii_digit(first) {
        return Err(RpegError::ExpectedNumber);
    }
    cursor.advance();
    let mut num: u32 = match parse_ascii_digit(first) {
        Ok(digit) => digit,
        Err(e) => {
            return Err(e);
        },
    };
    let ghost mut i: int = 1;
    proof {
        assert(orig.take(1).len() == 1);
        assert(orig.take(1).drop_last() =~= Seq::<u8>::empty());
        assert(orig.take(1).last() == orig[0]);
        assert(spec_digits_value(Seq::<u8>::empty()) == 0);
        assert(spec_digits_value(orig.take(1)) == orig[0] - 0x30);
    }
    loop
        invariant
            cursor.wf(),
            orig == old(cursor).remaining(),
            orig.len() > 0,
            spec_is_digit(orig[0]),
            1 <= i <= run,
            run == spec_digit_run(orig),
            run <= orig.len(),
            forall|j: int| 0 <= j < run ==> spec_is_digit(#[trigger] orig[j]),
            run < orig.len() ==> !spec_is_digit(orig[run]),
            cursor.remaining() == orig.skip(i),
            num == spec_digits_value(orig.take(i)),
        ensures
            cursor.wf(),
            cursor.remaining() == orig.skip(run),
            num == spec_digits_value(orig.take(run)),
        decreases orig.len() - i,
    {
        let byte = match cursor.peek() {
            Some(byte) => byte,
            None => {
                break;
            },
        };
        if !is_ascii_digit(byte) {
            proof {
                assert(byte == orig[i]);
            }
            break;
        }
        proof {
            assert(byte == orig[i]);
        }
        cursor.advance();
        let digit: u32 = (byte - 0x30) as u32;
        proof {
            assert(i < run);
            assert(orig.take(i + 1).drop_last() =~= orig.take(i));
            assert(orig.take(i + 1).last() == orig[i]);
            assert(orig.skip(i).skip(1) =~= orig.skip(i + 1));
            assert(spec_digits_value(orig.take(i + 1)) == num * 10 + digit);
        }
        num = match num.checked_mul(10) {
            Some(shifted) => match shifted.checked_add(digit) {
                Some(total) => total,
                None => {
                    proof {
                        lemma_digits_value_monotone(orig, i + 1, run);
                    }
                    return Err(RpegError::IntegerOverflow);
                },
            },
            None => {
                proof {
                    lemma_digits_value_monotone(orig, i + 1, run);
                }
                return Err(RpegError::IntegerOverflow);
            },
        };
        proof {
            i = i + 1;
        }
    }
    Ok(num)
}

/// Partition the payload into consecutive four-byte words in input order.
/// A payload whose length is not a multiple of four is rejected whole: no
/// partial word is produced and nothing is truncated or padded.
#[verifier::loop_isolation(false)]
pub fn group_words(raw_bytes: Vec<u8>) -> (r: Result<Vec<[u8; 4]>, RpegError>)
    ensures
        raw_bytes@.len() % 4 == 0 ==> r is Ok && words_view(r->Ok_0@) == spec_group(raw_bytes@),
        raw_bytes@.len() % 4 != 0 ==> r == Err::<Vec<[u8; 4]>, RpegError>(
            RpegError::MisalignedPayload { length: raw_bytes@.len() as usize },
        ),
{
    if raw_bytes.len() % 4 != 0 {
        return Err(RpegError::MisalignedPayload { length: raw_bytes.len() });
    }
    let mut words: Vec<[u8; 4]> = Vec::new();
    let mut i: usize = 0;
    while i < raw_bytes.len()
        invariant
            i <= raw_bytes@.len(),
            i % 4 == 0,
            raw_bytes@.len() % 4 == 0,
            words@.len() == i / 4,
            forall|j: int|
                0 <= j < words@.len() ==> #[trigger] words@[j]@ == raw_bytes@.subrange(
                    4 * j,
                    4 * j + 4,
                ),
        decreases raw_bytes@.len() - i,
    {
        let word: [u8; 4] = [raw_bytes[i], raw_bytes[i + 1], raw_bytes[i + 2], raw_bytes[i + 3]];
        proof {
            assert(word@ =~= raw_bytes@.subrange(i as int, i as int + 4));
        }
        words.push(word);
        i = i + 4;
    }
    proof {
        assert(words_view(words@) =~= spec_group(raw_bytes@));
    }
    Ok(words)
}

/// Decode a whole rpeg byte stream: validate and strip the header, read the
/// two dimensions, and split the remaining payload into four-byte words.
/// The result is exactly what the model `spec_decode` yields on the same
/// bytes, error for error; no consistency between the dimensions and the
/// word count is required by the format, so none is checked.
pub fn read_in_rpeg_data(bytes: Vec<u8>) -> (r: Result<(Vec<[u8; 4]>, u32, u32), RpegError>)
    ensures
        (match spec_decode(bytes@) {
            Ok(decoded) => {
                &&& r is Ok
                &&& words_view(r->Ok_0.0@) == decoded.0
                &&& r->Ok_0.1 == decoded.1
                &&& r->Ok_0.2 == decoded.2
            },
            Err(e) => r == Err::<(Vec<[u8; 4]>, u32, u32), RpegError>(e),
        }),
{
    let mut cursor = ByteCursor::new(bytes);

    let tag = tag_bytes();
    match expect(tag.as_slice(), &mut cursor) {
        Ok(()) => {},
        Err(e) => {
            return Err(e);
        },
    }
    match expect_newline(&mut cursor) {
        Ok(()) => {},
        Err(e) => {
            return Err(e);
        },
    }

    let width = match read_u32(&mut cursor) {
        Ok(width) => width,
        Err(e) => {
            return Err(e);
        },
    };
    let space: [u8; 1] = [0x20u8];
    proof {
        assert(space@ =~= seq![0x20u8]);
    }
    match expect(space.as_slice(), &mut cursor) {
        Ok(()) => {},
        Err(e) => {
            return Err(e);
        },
    }
    let height = match read_u32(&mut cursor) {
        Ok(height) => height,
        Err(e) => {
            return Err(e);
        },
    };
    match expect_newline(&mut cursor) {
        Ok(()) => {},
        Err(e) => {
            return Err(e);
        },
    }

    let raw_bytes = cursor.take_rest();
    let grouped = match group_words(raw_bytes) {
        Ok(grouped) => grouped,
        Err(e) => {
            return Err(e);
        },
    };
    Ok((grouped, width, height))
}

} // verus!
