//! Packing bits into symbols and back.
//!
//! Eight bits make one symbol; the first bit of a group is the most
//! significant one. Bits at the end of a stream that do not fill a group are
//! dropped.

use crate::bits::all_bits;
use crate::text::push_char;
use vstd::prelude::*;

verus! {

/// The bits shifted into a byte one after the other, the first one first.
pub open spec fn folded(bits: Seq<u8>) -> u8
    decreases bits.len(),
{
    if bits.len() == 0 {
        0
    } else {
        (folded(bits.drop_last()) << 1) | bits.last()
    }
}

/// The symbols that the groups of eight bits make.
pub open spec fn packed(bits: Seq<u8>) -> Seq<u8> {
    Seq::new(bits.len() / 8, |k: int| folded(bits.subrange(8 * k, 8 * k + 8)))
}

/// Bit `i` of a symbol, counted from the most significant one.
pub open spec fn bit_of(symbol: u8, i: int) -> u8 {
    (symbol >> ((7 - i) as u8)) & 1
}

/// The bits of the symbols, eight for each.
pub open spec fn unpacked(symbols: Seq<u8>) -> Seq<u8> {
    Seq::new(symbols.len() * 8, |i: int| bit_of(symbols[i / 8], i % 8))
}

/// The characters whose code points are the symbols.
pub open spec fn as_characters(symbols: Seq<u8>) -> Seq<char> {
    Seq::new(symbols.len(), |k: int| symbols[k] as char)
}

/// Eight bits that are shifted into a byte one after the other.
pub open spec fn folded_eight(
    b0: u8,
    b1: u8,
    b2: u8,
    b3: u8,
    b4: u8,
    b5: u8,
    b6: u8,
    b7: u8,
) -> u8 {
    ((((((((0u8 << 1 | b0) << 1 | b1) << 1 | b2) << 1 | b3) << 1 | b4) << 1 | b5) << 1 | b6) << 1
        | b7)
}

/// A group of eight bits folds as its bits do, one after the other.
proof fn lemma_folded_group(group: Seq<u8>)
    requires
        group.len() == 8,
    ensures
        folded(group) == folded_eight(
            group[0],
            group[1],
            group[2],
            group[3],
            group[4],
            group[5],
            group[6],
            group[7],
        ),
{
    assert(folded(group.take(0)) == 0);
    assert(group.take(1).drop_last() =~= group.take(0));
    assert(group.take(2).drop_last() =~= group.take(1));
    assert(group.take(3).drop_last() =~= group.take(2));
    assert(group.take(4).drop_last() =~= group.take(3));
    assert(group.take(5).drop_last() =~= group.take(4));
    assert(group.take(6).drop_last() =~= group.take(5));
    assert(group.take(7).drop_last() =~= group.take(6));
    assert(group.take(8).drop_last() =~= group.take(7));
    assert(group.take(8) =~= group);
    assert(folded(group.take(1)) == (folded(group.take(0)) << 1) | group[0]);
    assert(folded(group.take(2)) == (folded(group.take(1)) << 1) | group[1]);
    assert(folded(group.take(3)) == (folded(group.take(2)) << 1) | group[2]);
    assert(folded(group.take(4)) == (folded(group.take(3)) << 1) | group[3]);
    assert(folded(group.take(5)) == (folded(group.take(4)) << 1) | group[4]);
    assert(folded(group.take(6)) == (folded(group.take(5)) << 1) | group[5]);
    assert(folded(group.take(7)) == (folded(group.take(6)) << 1) | group[6]);
    assert(folded(group.take(8)) == (folded(group.take(7)) << 1) | group[7]);
}

/// Each of eight bits can be read back from the symbol that they fold into,
/// and the symbol is the number that the bits spell in base two.
proof fn lemma_bits_of_folded(b0: u8, b1: u8, b2: u8, b3: u8, b4: u8, b5: u8, b6: u8, b7: u8)
    by (bit_vector)
    requires
        b0 <= 1,
        b1 <= 1,
        b2 <= 1,
        b3 <= 1,
        b4 <= 1,
        b5 <= 1,
        b6 <= 1,
        b7 <= 1,
    ensures
        (folded_eight(b0, b1, b2, b3, b4, b5, b6, b7) >> 7u8) & 1 == b0,
        (folded_eight(b0, b1, b2, b3, b4, b5, b6, b7) >> 6u8) & 1 == b1,
        (folded_eight(b0, b1, b2, b3, b4, b5, b6, b7) >> 5u8) & 1 == b2,
        (folded_eight(b0, b1, b2, b3, b4, b5, b6, b7) >> 4u8) & 1 == b3,
        (folded_eight(b0, b1, b2, b3, b4, b5, b6, b7) >> 3u8) & 1 == b4,
        (folded_eight(b0, b1, b2, b3, b4, b5, b6, b7) >> 2u8) & 1 == b5,
        (folded_eight(b0, b1, b2, b3, b4, b5, b6, b7) >> 1u8) & 1 == b6,
        (folded_eight(b0, b1, b2, b3, b4, b5, b6, b7) >> 0u8) & 1 == b7,
        folded_eight(b0, b1, b2, b3, b4, b5, b6, b7) == 128 * b0 + 64 * b1 + 32 * b2 + 16 * b3 + 8
            * b4 + 4 * b5 + 2 * b6 + b7,
{
}

/// The eight bits of a symbol fold into the symbol.
proof fn lemma_folded_bits_of(symbol: u8)
    by (bit_vector)
    ensures
        folded_eight(
            (symbol >> 7u8) & 1,
            (symbol >> 6u8) & 1,
            (symbol >> 5u8) & 1,
            (symbol >> 4u8) & 1,
            (symbol >> 3u8) & 1,
            (symbol >> 2u8) & 1,
            (symbol >> 1u8) & 1,
            (symbol >> 0u8) & 1,
        ) == symbol,
        (symbol >> 7u8) & 1 <= 1,
        (symbol >> 6u8) & 1 <= 1,
        (symbol >> 5u8) & 1 <= 1,
        (symbol >> 4u8) & 1 <= 1,
        (symbol >> 3u8) & 1 <= 1,
        (symbol >> 2u8) & 1 <= 1,
        (symbol >> 1u8) & 1 <= 1,
        (symbol >> 0u8) & 1 <= 1,
{
}

/// The symbol that eight bits make is the number that they spell in base
/// two, the first bit being worth the most.
pub proof fn lemma_symbol_value(group: Seq<u8>)
    requires
        group.len() == 8,
        all_bits(group),
    ensures
        folded(group) == 128 * group[0] + 64 * group[1] + 32 * group[2] + 16 * group[3] + 8
            * group[4] + 4 * group[5] + 2 * group[6] + group[7],
        forall|i: int| 0 <= i < 8 ==> bit_of(folded(group), i) == group[i],
{
    lemma_folded_group(group);
    lemma_bits_of_folded(
        group[0],
        group[1],
        group[2],
        group[3],
        group[4],
        group[5],
        group[6],
        group[7],
    );
}

/// Unpacking gives bits.
pub proof fn lemma_unpacked_are_bits(symbols: Seq<u8>)
    ensures
        all_bits(unpacked(symbols)),
        unpacked(symbols).len() == 8 * symbols.len(),
{
    assert forall|i: int| 0 <= i < unpacked(symbols).len() implies unpacked(symbols)[i] <= 1 by {
        lemma_folded_bits_of(symbols[i / 8]);
    }
}

/// Bits come back from packing and unpacking as they were, but for those at
/// the end that fill no group. Where the number of bits is a multiple of
/// eight, all of them come back.
pub proof fn lemma_unpack_inverts_pack(bits: Seq<u8>)
    requires
        all_bits(bits),
    ensures
        unpacked(packed(bits)) == bits.take(bits.len() - bits.len() % 8),
        bits.len() % 8 == 0 ==> unpacked(packed(bits)) == bits,
{
    let symbols = packed(bits);
    let back = unpacked(symbols);
    let kept = bits.take(bits.len() - bits.len() % 8);
    assert(back.len() == kept.len());
    assert forall|i: int| 0 <= i < kept.len() implies back[i] == kept[i] by {
        let k = i / 8;
        let group = bits.subrange(8 * k, 8 * k + 8);
        lemma_symbol_value(group);
        assert(group[i % 8] == bits[i]);
    }
    assert(back =~= kept);
    if bits.len() % 8 == 0 {
        assert(kept =~= bits);
    }
}

/// Symbols come back from unpacking and packing as they were.
pub proof fn lemma_pack_inverts_unpack(symbols: Seq<u8>)
    ensures
        packed(unpacked(symbols)) == symbols,
{
    let bits = unpacked(symbols);
    let back = packed(bits);
    assert(back.len() == symbols.len());
    assert forall|k: int| 0 <= k < symbols.len() implies back[k] == symbols[k] by {
        let group = bits.subrange(8 * k, 8 * k + 8);
        lemma_folded_group(group);
        lemma_folded_bits_of(symbols[k]);
        assert forall|i: int| 0 <= i < 8 implies group[i] == bit_of(symbols[k], i) by {
            assert((8 * k + i) / 8 == k);
            assert((8 * k + i) % 8 == i);
        }
    }
    assert(back =~= symbols);
}

/// Groups the bits by eight into symbols.
pub fn group_bytes(bytes: &Vec<u8>) -> (grouped: Vec<u8>)
    ensures
        grouped@ == packed(bytes@),
{
    let mut grouped: Vec<u8> = Vec::new();
    let mut i: usize = 0;
    let mut b: u8 = 0;
    let mut n: usize = 0;
    proof {
        assert(bytes@.subrange(0, 0) =~= Seq::<u8>::empty());
    }
    while n < bytes.len()
        invariant
            n <= bytes@.len(),
            i == n % 8,
            b == folded(bytes@.subrange(n - i, n as int)),
            grouped@ == packed(bytes@).take(n as int / 8),
        decreases bytes@.len() - n,
    {
        proof {
            assert(bytes@.subrange(n - i, n + 1).drop_last() =~= bytes@.subrange(n - i, n as int));
        }
        b = b << 1 | bytes[n];
        i += 1;
        n += 1;
        if i == 8 {
            grouped.push(b);
            proof {
                assert(8 * (n as int / 8 - 1) == n - 8);
                assert(grouped@ =~= packed(bytes@).take(n as int / 8));
                assert(bytes@.subrange(n as int, n as int) =~= Seq::<u8>::empty());
            }
            b = 0;
            i = 0;
        }
    }
    proof {
        assert(grouped@ =~= packed(bytes@));
    }
    grouped
}

/// Spreads every symbol into its eight bits.
pub fn unpack(symbols: &[u8]) -> (bits: Vec<u8>)
    ensures
        bits@ == unpacked(symbols@),
{
    let mut bits: Vec<u8> = Vec::new();
    let mut k: usize = 0;
    while k < symbols.len()
        invariant
            k <= symbols@.len(),
            bits@ == unpacked(symbols@).take(8 * k),
        decreases symbols@.len() - k,
    {
        let symbol = symbols[k];
        let mut i: u8 = 0;
        while i < 8
            invariant
                k < symbols@.len(),
                symbol == symbols@[k as int],
                i <= 8,
                bits@ == unpacked(symbols@).take(8 * k + i),
            decreases 8 - i,
        {
            bits.push((symbol >> (7 - i)) & 1);
            proof {
                assert((8 * k + i) / 8 == k as int);
                assert((8 * k + i) % 8 == i as int);
                assert(bits@ =~= unpacked(symbols@).take(8 * k + i + 1));
            }
            i += 1;
        }
        k += 1;
    }
    proof {
        assert(bits@ =~= unpacked(symbols@));
    }
    bits
}

/// Spreads the bytes of a text, in UTF-8, into their bits.
pub fn convert_to_bin(input: String) -> (bits: Vec<u8>)
    ensures
        bits@ == unpacked(vstd::utf8::encode_utf8(input@)),
{
    unpack(input.as_str().as_bytes())
}

/// Groups the bits by eight and makes a text of the characters whose code
/// points are the symbols.
pub fn convert_to_ascii(input: Vec<u8>) -> (text: String)
    ensures
        text@ == as_characters(packed(input@)),
{
    let symbols = group_bytes(&input);
    let mut text = String::new();
    let mut k: usize = 0;
    while k < symbols.len()
        invariant
            k <= symbols@.len(),
            symbols@ == packed(input@),
            text@ == as_characters(symbols@).take(k as int),
        decreases symbols@.len() - k,
    {
        push_char(&mut text, symbols[k] as char);
        proof {
            assert(text@ =~= as_characters(symbols@).take(k + 1));
        }
        k += 1;
    }
    proof {
        assert(text@ =~= as_characters(symbols@));
    }
    text
}

} // verus!
