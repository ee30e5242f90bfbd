//! The format's general laws, stated over the model in `format` and proved
//! once for all inputs.

use vstd::prelude::*;

use crate::errors::RpegError;
use crate::format::is_digit_string;
use crate::format::is_newline_token;
use crate::format::lemma_group_flat;
use crate::format::lemma_read_u32_value;
use crate::format::lemma_take_literal_prefix;
use crate::format::lemma_take_newline_token;
use crate::format::lemma_u32_decimal_digits;
use crate::format::lemma_words_flat_len;
use crate::format::spec_decode;
use crate::format::spec_digits_value;
use crate::format::spec_encode;
use crate::format::spec_group;
use crate::format::spec_tag;
use crate::format::spec_u32_decimal;
use crate::format::spec_words_flat;

verus! {

/// Any input assembled from the header literal, a recognized line
/// terminator, a width field, a space, a height field, a second terminator
/// and a payload decodes as those parts say: the dimensions are the fields'
/// base-ten values, a payload of whole words is grouped in order, and a
/// misaligned payload is rejected whole with its length. One assembly is
/// excluded: after a bare carriage return, a payload that itself starts
/// with a line feed, since the decoder consumes that byte as part of the
/// terminator.
#[verifier::rlimit(50)]
pub proof fn lemma_decode_of_wellformed_header(
    nl1: Seq<u8>,
    nl2: Seq<u8>,
    width_digits: Seq<u8>,
    height_digits: Seq<u8>,
    payload: Seq<u8>,
)
    requires
        is_newline_token(nl1),
        is_newline_token(nl2),
        is_digit_string(width_digits),
        spec_digits_value(width_digits) <= u32::MAX,
        is_digit_string(height_digits),
        spec_digits_value(height_digits) <= u32::MAX,
        nl2 == seq![0x0Du8] ==> payload.len() == 0 || payload[0] != 0x0A,
    ensures
        spec_decode(spec_tag() + nl1 + width_digits + seq![0x20u8] + height_digits + nl2 + payload)
            == (if payload.len() % 4 == 0 {
            Ok::<(Seq<Seq<u8>>, u32, u32), RpegError>(
                (
                    spec_group(payload),
                    spec_digits_value(width_digits) as u32,
                    spec_digits_value(height_digits) as u32,
                ),
            )
        } else {
            Err::<(Seq<Seq<u8>>, u32, u32), RpegError>(RpegError::MisalignedPayload {
                length: payload.len() as usize,
            })
        }),
{
    let s = spec_tag() + nl1 + width_digits + seq![0x20u8] + height_digits + nl2 + payload;
    let r1 = nl1 + width_digits + seq![0x20u8] + height_digits + nl2 + payload;
    assert(s =~= spec_tag() + r1);
    lemma_take_literal_prefix(spec_tag(), r1);

    let r2 = width_digits + seq![0x20u8] + height_digits + nl2 + payload;
    assert(r1 =~= nl1 + r2);
    assert(r2[0] == width_digits[0]);
    lemma_take_newline_token(nl1, r2);

    let r3 = seq![0x20u8] + height_digits + nl2 + payload;
    assert(r2 =~= width_digits + r3);
    assert(r3[0] == 0x20);
    lemma_read_u32_value(width_digits, r3);

    let r4 = height_digits + nl2 + payload;
    assert(r3 =~= seq![0x20u8] + r4);
    lemma_take_literal_prefix(seq![0x20u8], r4);

    let r5 = nl2 + payload;
    assert(r4 =~= height_digits + r5);
    assert(r5[0] == nl2[0]);
    lemma_read_u32_value(height_digits, r5);

    lemma_take_newline_token(nl2, payload);
}

/// Round trip: decoding what the encoder emitted yields exactly the words
/// and the dimensions that were encoded, for every word sequence and every
/// pair of dimensions.
pub proof fn lemma_round_trip(ws: Seq<Seq<u8>>, width: u32, height: u32)
    requires
        forall|i: int| 0 <= i < ws.len() ==> #[trigger] ws[i].len() == 4,
    ensures
        spec_decode(spec_encode(ws, width, height)) == Ok::<(Seq<Seq<u8>>, u32, u32), RpegError>(
            (ws, width, height),
        ),
{
    lemma_u32_decimal_digits(width as nat);
    lemma_u32_decimal_digits(height as nat);
    lemma_words_flat_len(ws);
    assert(seq![0x0Au8][0] == 0x0A);
    assert(seq![0x0Du8][0] == 0x0D);
    lemma_decode_of_wellformed_header(
        seq![0x0Au8],
        seq![0x0Au8],
        spec_u32_decimal(width as nat),
        spec_u32_decimal(height as nat),
        spec_words_flat(ws),
    );
    assert(spec_encode(ws, width, height) =~= spec_tag() + seq![0x0Au8] + spec_u32_decimal(
        width as nat,
    ) + seq![0x20u8] + spec_u32_decimal(height as nat) + seq![0x0Au8] + spec_words_flat(ws));
    lemma_group_flat(ws);
}

/// Newline tolerance: two inputs that differ only in which recognized line
/// terminators close the two header lines both decode, and they yield the
/// same dimensions and the same words. Excluded as in
/// `lemma_decode_of_wellformed_header`: a bare carriage return directly
/// before a payload whose first byte is a line feed.
pub proof fn lemma_newline_tolerance(
    nl1a: Seq<u8>,
    nl2a: Seq<u8>,
    nl1b: Seq<u8>,
    nl2b: Seq<u8>,
    width_digits: Seq<u8>,
    height_digits: Seq<u8>,
    payload: Seq<u8>,
)
    requires
        is_newline_token(nl1a),
        is_newline_token(nl2a),
        is_newline_token(nl1b),
        is_newline_token(nl2b),
        is_digit_string(width_digits),
        spec_digits_value(width_digits) <= u32::MAX,
        is_digit_string(height_digits),
        spec_digits_value(height_digits) <= u32::MAX,
        payload.len() % 4 == 0,
        nl2a == seq![0x0Du8] ==> payload.len() == 0 || payload[0] != 0x0A,
        nl2b == seq![0x0Du8] ==> payload.len() == 0 || payload[0] != 0x0A,
    ensures
        spec_decode(
            spec_tag() + nl1a + width_digits + seq![0x20u8] + height_digits + nl2a + payload,
        ) is Ok,
        spec_decode(
            spec_tag() + nl1a + width_digits + seq![0x20u8] + height_digits + nl2a + payload,
        ) == spec_decode(
            spec_tag() + nl1b + width_digits + seq![0x20u8] + height_digits + nl2b + payload,
        ),
{
    lemma_decode_of_wellformed_header(nl1a, nl2a, width_digits, height_digits, payload);
    lemma_decode_of_wellformed_header(nl1b, nl2b, width_digits, height_digits, payload);
}

/// Misalignment rejection: under a well-formed header, a payload whose
/// length is not a multiple of four makes the whole decode fail with
/// `MisalignedPayload` carrying that length; nothing is truncated or padded.
pub proof fn lemma_misaligned_payload_rejected(
    nl1: Seq<u8>,
    nl2: Seq<u8>,
    width_digits: Seq<u8>,
    height_digits: Seq<u8>,
    payload: Seq<u8>,
)
    requires
        is_newline_token(nl1),
        is_newline_token(nl2),
        is_digit_string(width_digits),
        spec_digits_value(width_digits) <= u32::MAX,
        is_digit_string(height_digits),
        spec_digits_value(height_digits) <= u32::MAX,
        nl2 == seq![0x0Du8] ==> payload.len() == 0 || payload[0] != 0x0A,
        payload.len() % 4 != 0,
    ensures
        spec_decode(spec_tag() + nl1 + width_digits + seq![0x20u8] + height_digits + nl2 + payload)
            == Err::<(Seq<Seq<u8>>, u32, u32), RpegError>(RpegError::MisalignedPayload {
            length: payload.len() as usize,
        }),
{
    lemma_decode_of_wellformed_header(nl1, nl2, width_digits, height_digits, payload);
}

} // verus!
