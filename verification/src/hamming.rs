//! Hamming(7,4) decoding.
//!
//! A block holds seven bits. Positions 1 to 4 carry the data bits `d1..d4`,
//! positions 5 to 7 the parity bits `p1 = d1 ^ d2 ^ d3`, `p2 = d1 ^ d2 ^ d4`
//! and `p3 = d2 ^ d3 ^ d4`. The first bit of a block is position 1.
//!
//! The three parity checks locate an error among the four data bits only: a
//! damaged parity bit is left as it is, and so are the data bits beside it.

use crate::bits::all_bits;
use crate::error::CodecError;
use vstd::prelude::*;

verus! {

/// The data position (1 to 4) that the three parity checks single out, or 0
/// when they agree on no data bit.
pub open spec fn syndrome_position(
    c1: u8,
    c2: u8,
    c3: u8,
    c4: u8,
    c5: u8,
    c6: u8,
    c7: u8,
) -> usize {
    let e1 = c5 != c1 ^ c2 ^ c3;
    let e2 = c6 != c1 ^ c2 ^ c4;
    let e3 = c7 != c2 ^ c3 ^ c4;
    if e1 && e2 && !e3 {
        1
    } else if e1 && e2 && e3 {
        2
    } else if e1 && !e2 && e3 {
        3
    } else if !e1 && e2 && e3 {
        4
    } else {
        0
    }
}

/// The syndrome position of the block that starts at `start`.
pub open spec fn block_syndrome(bits: Seq<u8>, start: int) -> usize {
    syndrome_position(
        bits[start],
        bits[start + 1],
        bits[start + 2],
        bits[start + 3],
        bits[start + 4],
        bits[start + 5],
        bits[start + 6],
    )
}

/// Bit `k` of the stream after correction: flipped when the block it lies in
/// singles it out, unchanged otherwise.
pub open spec fn corrected_at(bits: Seq<u8>, k: int) -> u8 {
    if k % 7 + 1 == block_syndrome(bits, k - k % 7) {
        bits[k] ^ 1
    } else {
        bits[k]
    }
}

/// The stream with every block corrected.
pub open spec fn corrected(bits: Seq<u8>) -> Seq<u8> {
    Seq::new(bits.len(), |k: int| corrected_at(bits, k))
}

/// The data bits of every block, in order, without the parity bits.
pub open spec fn reduced(bits: Seq<u8>) -> Seq<u8> {
    Seq::new((bits.len() / 7 * 4) as nat, |i: int| bits[i / 4 * 7 + i % 4])
}

/// The corrected data bits of every block.
pub open spec fn decoded(bits: Seq<u8>) -> Seq<u8> {
    reduced(corrected(bits))
}

/// The codeword of four data bits.
pub open spec fn codeword(d1: u8, d2: u8, d3: u8, d4: u8) -> Seq<u8> {
    seq![d1, d2, d3, d4, d1 ^ d2 ^ d3, d1 ^ d2 ^ d4, d2 ^ d3 ^ d4]
}

/// The block with the bit at position `flip` (1 to 7) inverted; any other
/// `flip` leaves the block as it is.
pub open spec fn with_flip(block: Seq<u8>, flip: int) -> Seq<u8> {
    if 1 <= flip <= block.len() {
        block.update(flip - 1, block[flip - 1] ^ 1)
    } else {
        block
    }
}

/// Inverting one bit changes the parity of any three bits that hold it, and
/// inverting it twice restores it.
proof fn lemma_flip_changes_parity(a: u8, b: u8, c: u8)
    by (bit_vector)
    ensures
        (a ^ 1) ^ b ^ c != a ^ b ^ c,
        a ^ (b ^ 1) ^ c != a ^ b ^ c,
        a ^ b ^ (c ^ 1) != a ^ b ^ c,
        (a ^ b ^ c) ^ 1 != a ^ b ^ c,
        (a ^ 1) ^ 1 == a,
{
}

/// A block whose first four bits, after the one that its syndrome singles
/// out is inverted, are `data` decodes to `data`.
proof fn lemma_block_decodes(block: Seq<u8>, data: Seq<u8>)
    requires
        block.len() == 7,
        data.len() == 4,
        forall|i: int|
            0 <= i < 4 ==> data[i] == (if i + 1 == block_syndrome(block, 0) {
                block[i] ^ 1
            } else {
                block[i]
            }),
    ensures
        decoded(block) == data,
{
    let out = decoded(block);
    assert(out.len() == 4);
    assert forall|i: int| 0 <= i < 4 implies out[i] == data[i] by {
        assert(i / 4 * 7 + i % 4 == i);
        assert(i % 7 == i);
        assert(out[i] == corrected_at(block, i));
    }
    assert(out =~= data);
}

/// A codeword with at most one inverted bit decodes to the data bits it was
/// built from. An inverted data bit is located and corrected; an inverted
/// parity bit is located nowhere and leaves the data bits as they are.
pub proof fn lemma_single_flip_recovered(d1: u8, d2: u8, d3: u8, d4: u8, flip: int)
    requires
        0 <= flip <= 7,
    ensures
        decoded(with_flip(codeword(d1, d2, d3, d4), flip)) == seq![d1, d2, d3, d4],
        block_syndrome(with_flip(codeword(d1, d2, d3, d4), flip), 0) == (if flip <= 4 {
            flip
        } else {
            0
        }),
{
    lemma_flip_changes_parity(d1, d2, d3);
    lemma_flip_changes_parity(d1, d2, d4);
    lemma_flip_changes_parity(d2, d3, d4);
    lemma_flip_changes_parity(d3, d4, d1);
    lemma_flip_changes_parity(d4, d1, d2);
    let p1 = d1 ^ d2 ^ d3;
    let p2 = d1 ^ d2 ^ d4;
    let p3 = d2 ^ d3 ^ d4;
    let data = seq![d1, d2, d3, d4];
    let received = with_flip(codeword(d1, d2, d3, d4), flip);
    if flip == 0 {
        assert(received =~= seq![d1, d2, d3, d4, p1, p2, p3]);
        assert(block_syndrome(received, 0) == 0);
    } else if flip == 1 {
        assert(received =~= seq![d1 ^ 1, d2, d3, d4, p1, p2, p3]);
        assert(block_syndrome(received, 0) == 1);
    } else if flip == 2 {
        assert(received =~= seq![d1, d2 ^ 1, d3, d4, p1, p2, p3]);
        assert(block_syndrome(received, 0) == 2);
    } else if flip == 3 {
        assert(received =~= seq![d1, d2, d3 ^ 1, d4, p1, p2, p3]);
        assert(block_syndrome(received, 0) == 3);
    } else if flip == 4 {
        assert(received =~= seq![d1, d2, d3, d4 ^ 1, p1, p2, p3]);
        assert(block_syndrome(received, 0) == 4);
    } else if flip == 5 {
        assert(received =~= seq![d1, d2, d3, d4, p1 ^ 1, p2, p3]);
        assert(block_syndrome(received, 0) == 0);
    } else if flip == 6 {
        assert(received =~= seq![d1, d2, d3, d4, p1, p2 ^ 1, p3]);
        assert(block_syndrome(received, 0) == 0);
    } else {
        assert(received =~= seq![d1, d2, d3, d4, p1, p2, p3 ^ 1]);
        assert(block_syndrome(received, 0) == 0);
    }
    assert(received[0] == if flip == 1 { d1 ^ 1 } else { d1 });
    assert(received[1] == if flip == 2 { d2 ^ 1 } else { d2 });
    assert(received[2] == if flip == 3 { d3 ^ 1 } else { d3 });
    assert(received[3] == if flip == 4 { d4 ^ 1 } else { d4 });
    lemma_block_decodes(received, data);
}

/// An inverted bit is a bit.
proof fn lemma_inverted_bit(bit: u8)
    by (bit_vector)
    requires
        bit <= 1,
    ensures
        bit ^ 1 <= 1,
{
}

/// Correcting a bit vector gives a bit vector, and so does decoding it.
pub proof fn lemma_corrected_are_bits(bits: Seq<u8>)
    requires
        all_bits(bits),
        bits.len() % 7 == 0,
    ensures
        all_bits(corrected(bits)),
        all_bits(decoded(bits)),
{
    assert forall|k: int| 0 <= k < bits.len() implies corrected(bits)[k] <= 1 by {
        lemma_inverted_bit(bits[k]);
    }
    assert forall|i: int| 0 <= i < decoded(bits).len() implies decoded(bits)[i] <= 1 by {
        let k = i / 4 * 7 + i % 4;
        assert(0 <= k < bits.len());
        assert(decoded(bits)[i] == corrected(bits)[k]);
    }
}

/// Locates the error in a received block from its seven bits.
pub fn hamming7(c1: u8, c2: u8, c3: u8, c4: u8, c5: u8, c6: u8, c7: u8) -> (position: usize)
    ensures
        position == syndrome_position(c1, c2, c3, c4, c5, c6, c7),
        position <= 4,
{
    let p1 = c1 ^ c2 ^ c3;
    let p2 = c1 ^ c2 ^ c4;
    let p3 = c2 ^ c3 ^ c4;
    match (c5 != p1, c6 != p2, c7 != p3) {
        (true, true, false) => 1,
        (true, true, true) => 2,
        (true, false, true) => 3,
        (false, true, true) => 4,
        _ => 0,
    }
}

/// Builds the seven-bit codeword of four data bits.
pub fn encode_block(d1: u8, d2: u8, d3: u8, d4: u8) -> (block: [u8; 7])
    ensures
        block@ == codeword(d1, d2, d3, d4),
{
    [d1, d2, d3, d4, d1 ^ d2 ^ d3, d1 ^ d2 ^ d4, d2 ^ d3 ^ d4]
}

/// Decodes one block into its four corrected data bits and the position of
/// the bit that was corrected (0 when none was).
pub fn decode_block(block: &[u8]) -> (result: Result<([u8; 4], usize), CodecError>)
    ensures
        result is Ok <==> block@.len() == 7,
        result matches Err(e) ==> e == CodecError::IncompleteBlock,
        result matches Ok((data, position)) ==> {
            &&& position == block_syndrome(block@, 0)
            &&& data@ == decoded(block@)
        },
{
    if block.len() != 7 {
        return Err(CodecError::IncompleteBlock);
    }
    let position = hamming7(block[0], block[1], block[2], block[3], block[4], block[5], block[6]);
    let d1 = if position == 1 { block[0] ^ 1 } else { block[0] };
    let d2 = if position == 2 { block[1] ^ 1 } else { block[1] };
    let d3 = if position == 3 { block[2] ^ 1 } else { block[2] };
    let d4 = if position == 4 { block[3] ^ 1 } else { block[3] };
    let data = [d1, d2, d3, d4];
    assert(data@ =~= decoded(block@));
    Ok((data, position))
}

/// Corrects every block of the stream in place of the bit that its parity
/// checks single out. The parity bits stay in the result.
pub fn correct_errors(input: Vec<u8>) -> (result: Result<Vec<u8>, CodecError>)
    ensures
        result is Ok <==> input@.len() % 7 == 0,
        result matches Err(e) ==> e == CodecError::IncompleteBlock,
        result matches Ok(output) ==> output@ == corrected(input@),
{
    let len = input.len();
    if len % 7 != 0 {
        return Err(CodecError::IncompleteBlock);
    }
    let mut output: Vec<u8> = Vec::new();
    let mut i: usize = 0;
    while i < len
        invariant
            len == input@.len(),
            len % 7 == 0,
            i % 7 == 0,
            i <= len,
            output@ == corrected(input@).take(i as int),
        decreases len - i,
    {
        let position = hamming7(
            input[i],
            input[i + 1],
            input[i + 2],
            input[i + 3],
            input[i + 4],
            input[i + 5],
            input[i + 6],
        );
        let mut j: usize = 0;
        while j < 7
            invariant
                len == input@.len(),
                i % 7 == 0,
                i + 7 <= len,
                j <= 7,
                position == block_syndrome(input@, i as int),
                output@ == corrected(input@).take(i + j),
            decreases 7 - j,
        {
            let bit = if j + 1 != position {
                input[i + j]
            } else {
                input[i + j] ^ 1
            };
            assert(bit == corrected_at(input@, i + j));
            output.push(bit);
            assert(output@ =~= corrected(input@).take(i + j + 1));
            j += 1;
        }
        i += 7;
    }
    assert(output@ =~= corrected(input@));
    Ok(output)
}

/// Keeps the four data bits of every block and drops its parity bits.
pub fn reduce(input: Vec<u8>) -> (result: Result<Vec<u8>, CodecError>)
    ensures
        result is Ok <==> input@.len() % 7 == 0,
        result matches Err(e) ==> e == CodecError::IncompleteBlock,
        result matches Ok(output) ==> output@ == reduced(input@),
{
    let len = input.len();
    if len % 7 != 0 {
        return Err(CodecError::IncompleteBlock);
    }
    let mut output: Vec<u8> = Vec::new();
    let mut i: usize = 0;
    while i < len
        invariant
            len == input@.len(),
            len % 7 == 0,
            i % 7 == 0,
            i <= len,
            output@ == reduced(input@).take(i / 7 * 4),
        decreases len - i,
    {
        let mut j: usize = 0;
        while j < 4
            invariant
                len == input@.len(),
                len % 7 == 0,
                i % 7 == 0,
                i + 7 <= len,
                j <= 4,
                output@ == reduced(input@).take(i / 7 * 4 + j),
            decreases 4 - j,
        {
            output.push(input[i + j]);
            assert(output@ =~= reduced(input@).take(i / 7 * 4 + j + 1));
            j += 1;
        }
        i += 7;
    }
    assert(output@ =~= reduced(input@));
    Ok(output)
}

/// Decodes a stream of blocks into the corrected data bits of each, in order.
pub fn decode(input: &[u8]) -> (result: Result<Vec<u8>, CodecError>)
    ensures
        result is Ok <==> input@.len() % 7 == 0,
        result matches Err(e) ==> e == CodecError::IncompleteBlock,
        result matches Ok(output) ==> output@ == decoded(input@),
{
    let len = input.len();
    if len % 7 != 0 {
        return Err(CodecError::IncompleteBlock);
    }
    let mut output: Vec<u8> = Vec::new();
    let mut i: usize = 0;
    while i < len
        invariant
            len == input@.len(),
            len % 7 == 0,
            i % 7 == 0,
            i <= len,
            output@ == decoded(input@).take(i / 7 * 4),
        decreases len - i,
    {
        let position = hamming7(
            input[i],
            input[i + 1],
            input[i + 2],
            input[i + 3],
            input[i + 4],
            input[i + 5],
            input[i + 6],
        );
        let mut j: usize = 0;
        while j < 4
            invariant
                len == input@.len(),
                len % 7 == 0,
                i % 7 == 0,
                i + 7 <= len,
                j <= 4,
                position == block_syndrome(input@, i as int),
                output@ == decoded(input@).take(i / 7 * 4 + j),
            decreases 4 - j,
        {
            let bit = if j + 1 != position {
                input[i + j]
            } else {
                input[i + j] ^ 1
            };
            assert(bit == corrected_at(input@, i + j));
            output.push(bit);
            assert(output@ =~= decoded(input@).take(i / 7 * 4 + j + 1));
            j += 1;
        }
        i += 7;
    }
    assert(output@ =~= decoded(input@));
    Ok(output)
}

} // verus!
