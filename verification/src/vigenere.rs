//! The substitution cipher that the letter was written in: a Vigenère cipher
//! over the Latin letters with the key `python`.
//!
//! Each letter is moved back in its alphabet by the key letter that falls on
//! it; the case of a letter is kept. Any other character is left as it is
//! and uses up no key letter.

use crate::text::push_char;
use vstd::prelude::*;

verus! {

/// The number of letters in the key.
pub const KEY_LEN: usize = 6;

/// The key letter at index `i`.
pub open spec fn key_letter(i: int) -> char {
    if i == 0 {
        'p'
    } else if i == 1 {
        'y'
    } else if i == 2 {
        't'
    } else if i == 3 {
        'h'
    } else if i == 4 {
        'o'
    } else {
        'n'
    }
}

/// Whether `c` is a lower-case Latin letter.
pub open spec fn is_lower(c: char) -> bool {
    'a' <= c <= 'z'
}

/// Whether `c` is an upper-case Latin letter.
pub open spec fn is_upper(c: char) -> bool {
    'A' <= c <= 'Z'
}

/// Whether `c` is a Latin letter.
pub open spec fn is_letter(c: char) -> bool {
    is_lower(c) || is_upper(c)
}

/// The number of letters in `text`.
pub open spec fn letter_count(text: Seq<char>) -> nat
    decreases text.len(),
{
    if text.len() == 0 {
        0
    } else {
        letter_count(text.drop_last()) + (if is_letter(text.last()) {
            1nat
        } else {
            0nat
        })
    }
}

/// The letter `c` moved back by the key letter `k`, within its own case.
pub open spec fn shifted_back(c: char, k: char) -> char {
    let base = if is_lower(c) {
        'a' as int
    } else {
        'A' as int
    };
    (((c as int - base) + 26 - (k as int - 'a' as int)) % 26 + base) as char
}

/// The character at index `n` of the decrypted text.
pub open spec fn decrypted_at(text: Seq<char>, n: int) -> char {
    if is_letter(text[n]) {
        shifted_back(text[n], key_letter(letter_count(text.take(n)) as int % 6))
    } else {
        text[n]
    }
}

/// The decrypted text.
pub open spec fn decrypted(text: Seq<char>) -> Seq<char> {
    Seq::new(text.len(), |n: int| decrypted_at(text, n))
}

/// The key letter at index `i`, as a byte.
fn key_byte(i: usize) -> (k: u8)
    requires
        i < KEY_LEN,
    ensures
        k == key_letter(i as int) as u8,
        'a' as u8 <= k <= 'z' as u8,
{
    if i == 0 {
        'p' as u8
    } else if i == 1 {
        'y' as u8
    } else if i == 2 {
        't' as u8
    } else if i == 3 {
        'h' as u8
    } else if i == 4 {
        'o' as u8
    } else {
        'n' as u8
    }
}

/// Decrypts a text.
pub fn decrypt(input: String) -> (output: String)
    ensures
        output@ == decrypted(input@),
{
    let mut output = String::new();
    let mut i: usize = 0;
    let text = input.as_str();
    for c in it: text.chars()
        invariant
            it.seq() == input@,
            i < KEY_LEN,
            i == letter_count(input@.take(it.index() as int)) % 6,
            output@ == decrypted(input@).take(it.index() as int),
    {
        let ghost n = it.index() as int;
        proof {
            assert(input@.take(n + 1).drop_last() =~= input@.take(n));
            assert(input@.take(n + 1).last() == input@[n]);
        }
        let base: u8 = if c >= 'a' && c <= 'z' {
            'a' as u8
        } else if c >= 'A' && c <= 'Z' {
            'A' as u8
        } else {
            0
        };
        if base != 0 {
            let l: u8 = c as u8 - base;
            let k: u8 = key_byte(i) - 'a' as u8;
            let d: u8 = (l + 26 - k) % 26 + base;
            let moved = d as char;
            assert(moved == decrypted_at(input@, n));
            push_char(&mut output, moved);
            i = (i + 1) % KEY_LEN;
        } else {
            assert(c == decrypted_at(input@, n));
            push_char(&mut output, c);
        }
        assert(output@ =~= decrypted(input@).take(n + 1));
    }
    assert(output@ =~= decrypted(input@));
    output
}

} // verus!
