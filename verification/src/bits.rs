//! Bit vectors and their written form.
//!
//! A bit vector is a sequence of bytes, each of which is `0` or `1`. In its
//! written form every bit is the character `0` or `1`.

use crate::text::push_char;
use vstd::prelude::*;

verus! {

/// Whether every element of the stream is `0` or `1`.
pub open spec fn all_bits(bits: Seq<u8>) -> bool {
    forall|i: int| 0 <= i < bits.len() ==> bits[i] <= 1
}

/// What the bytes of a written bit vector stand for: each byte with the
/// fifth and sixth of its bits inverted, which makes `0` of the character
/// `0` and `1` of the character `1`.
pub open spec fn read_bits(bytes: Seq<u8>) -> Seq<u8> {
    Seq::new(bytes.len(), |i: int| bytes[i] ^ 0x30)
}

/// The written form of a bit vector: for each of its elements the character
/// whose code point is the element with the fifth and sixth of its bits
/// set, which is `0` for the bit 0 and `1` for the bit 1.
pub open spec fn written_bits(bits: Seq<u8>) -> Seq<char> {
    Seq::new(bits.len(), |i: int| (bits[i] | 0x30) as char)
}

/// Setting two bits of a bit gives the code of its digit, and inverting them
/// gives the bit back.
proof fn lemma_digit_of_bit(bit: u8)
    by (bit_vector)
    requires
        bit <= 1,
    ensures
        bit | 0x30 == 0x30 + bit,
        (bit | 0x30) ^ 0x30 == bit,
{
}

/// A bit is written as the character `0` or `1`.
pub proof fn lemma_written_bit(bits: Seq<u8>, i: int)
    requires
        all_bits(bits),
        0 <= i < bits.len(),
    ensures
        written_bits(bits)[i] == (if bits[i] == 0 {
            '0'
        } else {
            '1'
        }),
{
    lemma_digit_of_bit(bits[i]);
}

/// A bit vector that is written and read again is as it was.
pub proof fn lemma_read_inverts_write(bits: Seq<u8>)
    requires
        all_bits(bits),
    ensures
        read_bits(vstd::utf8::encode_utf8(written_bits(bits))) == bits,
{
    let text = written_bits(bits);
    assert forall|i: int| 0 <= i < text.len() implies '\0' <= #[trigger] text[i] <= '\u{7f}' by {
        lemma_digit_of_bit(bits[i]);
    }
    vstd::utf8::is_ascii_chars_encode_utf8(text);
    let bytes = vstd::utf8::encode_utf8(text);
    assert forall|i: int| 0 <= i < bits.len() implies read_bits(bytes)[i] == bits[i] by {
        lemma_digit_of_bit(bits[i]);
        assert(text[i] as u8 == bytes[i]);
    }
    assert(read_bits(bytes) =~= bits);
}

/// Reads a written bit vector.
pub fn bits_from_text(text: &str) -> (bits: Vec<u8>)
    ensures
        bits@ == read_bits(vstd::utf8::encode_utf8(text@)),
{
    let bytes = text.as_bytes();
    let mut bits: Vec<u8> = Vec::new();
    let mut i: usize = 0;
    while i < bytes.len()
        invariant
            i <= bytes@.len(),
            bits@ == read_bits(bytes@).take(i as int),
        decreases bytes@.len() - i,
    {
        bits.push(bytes[i] ^ 0x30);
        proof {
            assert(bits@ =~= read_bits(bytes@).take(i + 1));
        }
        i += 1;
    }
    proof {
        assert(bits@ =~= read_bits(bytes@));
    }
    bits
}

/// Writes a bit vector.
pub fn bits_to_text(bits: &Vec<u8>) -> (text: String)
    ensures
        text@ == written_bits(bits@),
{
    let mut text = String::new();
    let mut i: usize = 0;
    while i < bits.len()
        invariant
            i <= bits@.len(),
            text@ == written_bits(bits@).take(i as int),
        decreases bits@.len() - i,
    {
        push_char(&mut text, (bits[i] | 0x30) as char);
        proof {
            assert(text@ =~= written_bits(bits@).take(i + 1));
        }
        i += 1;
    }
    proof {
        assert(text@ =~= written_bits(bits@));
    }
    text
}

} // verus!
