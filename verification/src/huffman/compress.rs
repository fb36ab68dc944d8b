//! Compressing a stream of bits, and listing the codes that were used.
//!
//! The listing holds one line for every symbol that has a code, in the order
//! of the frequency table. A line holds the symbol in eight binary digits,
//! the symbol in three decimal digits between brackets, the code, and the
//! frequency of the symbol in decimal digits.

use super::codes::{codes_of, encode, encoded, huffman, huffman_codes, lemma_encoded_exists};
use super::frequency::{frequency_table, stats, FrequencyTable};
use super::laws::lemma_symbol_has_code;
use crate::packer::{bit_of, group_bytes, packed};
use crate::text::push_char;
use vstd::pervasive::unreached;
use vstd::prelude::*;

verus! {

/// The character of a decimal digit.
pub open spec fn digit(d: int) -> char {
    ('0' as int + d) as char
}

/// The character of a bit.
pub open spec fn bit_char(bit: u8) -> char {
    if bit == 0 {
        '0'
    } else {
        '1'
    }
}

/// The eight binary digits of a symbol.
pub open spec fn binary(symbol: u8) -> Seq<char> {
    Seq::new(8, |i: int| bit_char(bit_of(symbol, i)))
}

/// The three decimal digits of a symbol.
pub open spec fn padded(symbol: u8) -> Seq<char> {
    seq![digit(symbol as int / 100), digit(symbol as int / 10 % 10), digit(symbol as int % 10)]
}

/// The decimal digits of a number.
pub open spec fn decimal(n: nat) -> Seq<char>
    decreases n,
{
    if n < 10 {
        seq![digit(n as int)]
    } else {
        decimal(n / 10).push(digit(n as int % 10))
    }
}

/// The characters of the bits of a code.
pub open spec fn code_text(code: Seq<u8>) -> Seq<char> {
    Seq::new(code.len(), |i: int| bit_char(code[i]))
}

/// The line of a symbol.
pub open spec fn line(symbol: u8, frequency: u128, code: Seq<u8>) -> Seq<char> {
    binary(symbol) + seq![' ', '\t', ' ', '('] + padded(symbol) + seq![')', ':', ' ', '\t', ' ']
        + code_text(code) + seq![' ', '\t', ' '] + decimal(frequency as nat) + seq!['\n']
}

/// The lines of one entry of the frequency table: one for every code of its
/// symbol.
pub open spec fn lines_of(entry: (u8, u128), codes: Seq<(u8, Seq<u8>)>) -> Seq<char>
    decreases codes.len(),
{
    if codes.len() == 0 {
        Seq::empty()
    } else if codes.last().0 == entry.0 {
        lines_of(entry, codes.drop_last()) + line(entry.0, entry.1, codes.last().1)
    } else {
        lines_of(entry, codes.drop_last())
    }
}

/// The listing of the codes.
pub open spec fn listing(table: Seq<(u8, u128)>, codes: Seq<(u8, Seq<u8>)>) -> Seq<char>
    decreases table.len(),
{
    if table.len() == 0 {
        Seq::empty()
    } else {
        listing(table.drop_last(), codes) + lines_of(table.last(), codes)
    }
}

/// The stream that the symbols are compressed to.
pub open spec fn compressed(symbols: Seq<u8>) -> Seq<u8> {
    encoded(symbols, huffman_codes(frequency_table(symbols)))->0
}

/// Appends a decimal digit.
fn push_digit(text: &mut String, d: u8)
    requires
        d < 10,
    ensures
        final(text)@ == old(text)@.push(digit(d as int)),
{
    push_char(text, ('0' as u8 + d) as char);
}

/// Appends the character of a bit.
fn push_bit(text: &mut String, bit: u8)
    ensures
        final(text)@ == old(text)@.push(bit_char(bit)),
{
    if bit == 0 {
        push_char(text, '0');
    } else {
        push_char(text, '1');
    }
}

/// Appends the eight binary digits of a symbol.
fn push_binary(text: &mut String, symbol: u8)
    ensures
        final(text)@ == old(text)@ + binary(symbol),
{
    let mut i: u8 = 0;
    while i < 8
        invariant
            i <= 8,
            text@ == old(text)@ + binary(symbol).take(i as int),
        decreases 8 - i,
    {
        push_bit(text, (symbol >> (7 - i)) & 1);
        proof {
            assert(text@ =~= old(text)@ + binary(symbol).take(i + 1));
        }
        i += 1;
    }
    proof {
        assert(binary(symbol).take(8) =~= binary(symbol));
    }
}

/// Appends the three decimal digits of a symbol.
fn push_padded(text: &mut String, symbol: u8)
    ensures
        final(text)@ == old(text)@ + padded(symbol),
{
    push_digit(text, symbol / 100);
    push_digit(text, symbol / 10 % 10);
    push_digit(text, symbol % 10);
    proof {
        assert(text@ =~= old(text)@ + padded(symbol));
    }
}

/// Appends the decimal digits of a number.
fn push_decimal(text: &mut String, n: u128)
    ensures
        final(text)@ == old(text)@ + decimal(n as nat),
    decreases n,
{
    if n >= 10 {
        push_decimal(text, n / 10);
    }
    push_digit(text, (n % 10) as u8);
    proof {
        assert(text@ =~= old(text)@ + decimal(n as nat));
    }
}

/// Appends the characters of the bits of a code.
fn push_code(text: &mut String, code: &Vec<u8>)
    ensures
        final(text)@ == old(text)@ + code_text(code@),
{
    let mut i: usize = 0;
    while i < code.len()
        invariant
            i <= code@.len(),
            text@ == old(text)@ + code_text(code@).take(i as int),
        decreases code@.len() - i,
    {
        push_bit(text, code[i]);
        proof {
            assert(text@ =~= old(text)@ + code_text(code@).take(i + 1));
        }
        i += 1;
    }
    proof {
        assert(code_text(code@).take(i as int) =~= code_text(code@));
    }
}

/// Appends what stands between two columns of a line.
fn push_gap(text: &mut String)
    ensures
        final(text)@ == old(text)@ + seq![' ', '\t', ' '],
{
    push_char(text, ' ');
    push_char(text, '\t');
    push_char(text, ' ');
    proof {
        assert(text@ =~= old(text)@ + seq![' ', '\t', ' ']);
    }
}

/// Appends the line of a symbol.
fn push_line(text: &mut String, symbol: u8, frequency: u128, code: &Vec<u8>)
    ensures
        final(text)@ == old(text)@ + line(symbol, frequency, code@),
{
    push_binary(text, symbol);
    push_gap(text);
    push_char(text, '(');
    push_padded(text, symbol);
    push_char(text, ')');
    push_char(text, ':');
    push_gap(text);
    push_code(text, code);
    push_gap(text);
    push_decimal(text, frequency);
    push_char(text, '\n');
    proof {
        assert(text@ =~= old(text)@ + line(symbol, frequency, code@));
    }
}

/// Lists the codes with their frequencies, a line for every symbol that has
/// a code.
pub fn encoding_to_string(stats: &FrequencyTable, encoding: &Vec<(u8, Vec<u8>)>) -> (text: String)
    ensures
        text@ == listing(stats@, codes_of(encoding@)),
{
    let entries = stats.entries();
    let ghost codes = codes_of(encoding@);
    let mut text = String::new();
    let mut i: usize = 0;
    while i < entries.len()
        invariant
            i <= entries@.len(),
            codes == codes_of(encoding@),
            text@ == listing(entries@.take(i as int), codes),
        decreases entries@.len() - i,
    {
        let (symbol, frequency) = entries[i];
        let ghost before = text@;
        let mut j: usize = 0;
        while j < encoding.len()
            invariant
                j <= encoding@.len(),
                codes == codes_of(encoding@),
                text@ == before + lines_of((symbol, frequency), codes.take(j as int)),
            decreases encoding@.len() - j,
        {
            proof {
                assert(codes.take(j + 1).drop_last() =~= codes.take(j as int));
            }
            if encoding[j].0 == symbol {
                push_line(&mut text, symbol, frequency, &encoding[j].1);
                proof {
                    assert(text@ =~= before + lines_of((symbol, frequency), codes.take(j + 1)));
                }
            }
            j += 1;
        }
        proof {
            assert(codes.take(j as int) =~= codes);
            assert(entries@.take(i + 1).drop_last() =~= entries@.take(i as int));
        }
        i += 1;
    }
    proof {
        assert(entries@.take(i as int) =~= entries@);
    }
    text
}

/// Compresses a stream of bits: groups the bits into symbols, gives every
/// symbol that occurs its code, and replaces every symbol by its code. The
/// listing of the codes comes with the compressed stream.
pub fn compress(input: Vec<u8>) -> (result: (Vec<u8>, String))
    ensures
        encoded(packed(input@), huffman_codes(frequency_table(packed(input@)))) is Some,
        result.0@ == compressed(packed(input@)),
        result.1@ == listing(
            frequency_table(packed(input@)),
            huffman_codes(frequency_table(packed(input@))),
        ),
{
    let data = group_bytes(&input);
    let table = stats(&data);
    let codes = huffman(&table);
    proof {
        assert forall|n: int| 0 <= n < data@.len() implies super::codes::lookup(
            codes_of(codes@),
            #[trigger] data@[n],
        ) is Some by {
            lemma_symbol_has_code(data@, table@, n);
        }
        lemma_encoded_exists(data@, codes_of(codes@));
    }
    let stream = match encode(&data, &codes) {
        Ok(stream) => stream,
        Err(_) => unreached(),
    };
    let text = encoding_to_string(&table, &codes);
    (stream, text)
}

} // verus!
