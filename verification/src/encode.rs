//! The executable encoder and the human-readable formatter, each proved to
//! emit exactly the bytes the model in `format` describes.

use vstd::prelude::*;

use crate::format::lemma_words_flat_push;
use crate::format::spec_debug_render;
use crate::format::spec_debug_suffix;
use crate::format::spec_encode;
use crate::format::spec_hex_body;
use crate::format::spec_hex_digit;
use crate::format::spec_hex_pair;
use crate::format::spec_u32_decimal;
use crate::format::spec_words_flat;
use crate::format::tag_bytes;
use crate::format::words_view;

verus! {

/// Append every byte of the slice to the vector, in order.
#[verifier::loop_isolation(false)]
fn push_slice(out: &mut Vec<u8>, bytes: &[u8])
    ensures
        final(out)@ == old(out)@ + bytes@,
{
    proof {
        assert(out@ =~= old(out)@ + bytes@.take(0));
    }
    let mut i: usize = 0;
    while i < bytes.len()
        invariant
            i <= bytes@.len(),
            out@ == old(out)@ + bytes@.take(i as int),
        decreases bytes@.len() - i,
    {
        out.push(bytes[i]);
        proof {
            assert(out@ =~= old(out)@ + bytes@.take(i as int + 1));
        }
        i = i + 1;
    }
    proof {
        assert(bytes@.take(bytes@.len() as int) =~= bytes@);
    }
}

/// The shortest decimal rendering of a number, most significant digit first.
pub fn u32_to_decimal(n: u32) -> (v: Vec<u8>)
    ensures
        v@ == spec_u32_decimal(n as nat),
    decreases n,
{
    if n < 10 {
        let mut v: Vec<u8> = Vec::new();
        v.push(0x30 + (n as u8));
        proof {
            assert(v@ =~= spec_u32_decimal(n as nat));
        }
        v
    } else {
        let mut v = u32_to_decimal(n / 10);
        v.push(0x30 + ((n % 10) as u8));
        proof {
            assert(v@ =~= spec_u32_decimal(n as nat));
        }
        v
    }
}

/// The bytes of the given words, concatenated in order with no separators.
#[verifier::loop_isolation(false)]
pub fn words_to_bytes(raw_bytes: &[[u8; 4]]) -> (v: Vec<u8>)
    ensures
        v@ == spec_words_flat(words_view(raw_bytes@)),
{
    let mut v: Vec<u8> = Vec::new();
    proof {
        assert(words_view(raw_bytes@.take(0)) =~= Seq::<Seq<u8>>::empty());
    }
    let mut i: usize = 0;
    while i < raw_bytes.len()
        invariant
            i <= raw_bytes@.len(),
            v@ == spec_words_flat(words_view(raw_bytes@.take(i as int))),
        decreases raw_bytes@.len() - i,
    {
        let word = raw_bytes[i];
        v.push(word[0]);
        v.push(word[1]);
        v.push(word[2]);
        v.push(word[3]);
        proof {
            lemma_words_flat_push(words_view(raw_bytes@.take(i as int)), word@);
            assert(words_view(raw_bytes@.take(i as int)).push(word@) =~= words_view(
                raw_bytes@.take(i as int + 1),
            ));
            assert(v@ =~= spec_words_flat(words_view(raw_bytes@.take(i as int))) + word@);
        }
        i = i + 1;
    }
    proof {
        assert(raw_bytes@.take(raw_bytes@.len() as int) =~= raw_bytes@);
    }
    v
}

/// Serialize words and dimensions into the wire form: the tag line and the
/// dimension line, each closed by a single line feed, then the raw word
/// bytes. No relation between the dimensions and the word count is required
/// by the format, so any combination is written as given.
pub fn encode_rpeg_data(raw_bytes: &[[u8; 4]], width: u32, height: u32) -> (v: Vec<u8>)
    ensures
        v@ == spec_encode(words_view(raw_bytes@), width, height),
{
    let mut v: Vec<u8> = Vec::new();
    let tag = tag_bytes();
    push_slice(&mut v, tag.as_slice());
    v.push(0x0A);
    let mut width_digits = u32_to_decimal(width);
    v.append(&mut width_digits);
    v.push(0x20);
    let mut height_digits = u32_to_decimal(height);
    v.append(&mut height_digits);
    v.push(0x0A);
    let mut body = words_to_bytes(raw_bytes);
    v.append(&mut body);
    proof {
        assert(v@ =~= spec_encode(words_view(raw_bytes@), width, height));
    }
    v
}

/// The upper-case hexadecimal digit for a value below sixteen.
fn hex_digit(n: u8) -> (r: u8)
    requires
        n < 16,
    ensures
        r == spec_hex_digit(n),
{
    if n < 10 {
        0x30 + n
    } else {
        0x37 + n
    }
}

/// Render words and dimensions in the human-readable form: the tag with a
/// debug marker, the dimension line, and every payload byte as upper-case
/// hexadecimal pairs separated by single spaces, with no trailing newline.
/// This form has no parser and is unsuitable for round-tripping; it exists
/// for inspection only.
#[verifier::loop_isolation(false)]
pub fn debug_format_rpeg_data(raw_bytes: &[[u8; 4]], width: u32, height: u32) -> (v: Vec<u8>)
    ensures
        v@ == spec_debug_render(words_view(raw_bytes@), width, height),
{
    let mut v: Vec<u8> = Vec::new();
    let tag = tag_bytes();
    push_slice(&mut v, tag.as_slice());
    let suffix: [u8; 8] = [0x20u8, 0x5Bu8, 0x44u8, 0x45u8, 0x42u8, 0x55u8, 0x47u8, 0x5Du8];
    proof {
        assert(suffix@ =~= spec_debug_suffix());
    }
    push_slice(&mut v, suffix.as_slice());
    v.push(0x0A);
    let mut width_digits = u32_to_decimal(width);
    v.append(&mut width_digits);
    v.push(0x20);
    let mut height_digits = u32_to_decimal(height);
    v.append(&mut height_digits);
    v.push(0x0A);
    let body = words_to_bytes(raw_bytes);
    let ghost header = v@;
    let ghost flat = spec_words_flat(words_view(raw_bytes@));
    proof {
        assert(v@ =~= header + spec_hex_body(flat.take(0)));
    }
    let mut i: usize = 0;
    while i < body.len()
        invariant
            i <= body@.len(),
            body@ == flat,
            v@ == header + spec_hex_body(flat.take(i as int)),
        decreases body@.len() - i,
    {
        if i > 0 {
            v.push(0x20);
        }
        let byte = body[i];
        v.push(hex_digit(byte / 16));
        v.push(hex_digit(byte % 16));
        proof {
            assert(flat.take(i as int + 1).drop_last() =~= flat.take(i as int));
            assert(flat.take(i as int + 1).last() == flat[i as int]);
            assert(spec_hex_pair(flat[i as int]) == seq![
                spec_hex_digit(flat[i as int] / 16),
                spec_hex_digit(flat[i as int] % 16),
            ]);
            assert(v@ =~= header + spec_hex_body(flat.take(i as int + 1)));
        }
        i = i + 1;
    }
    proof {
        assert(flat.take(flat.len() as int) =~= flat);
        assert(v@ =~= spec_debug_render(words_view(raw_bytes@), width, height));
    }
    v
}

} // verus!
