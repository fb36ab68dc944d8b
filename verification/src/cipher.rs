//! A one-time pad over bits.
//!
//! Every bit of the text is combined by exclusive or with one bit of the key
//! token, which is as long as the text. Doing so twice with one token gives
//! the text back.
//!
//! The pad is an exercise, not a security primitive: its token bits come
//! from a general-purpose random number generator.

use crate::bits::all_bits;
use crate::error::CodecError;
use vstd::prelude::*;

verus! {

/// The two streams combined bit by bit by exclusive or.
pub open spec fn xored(text: Seq<u8>, token: Seq<u8>) -> Seq<u8> {
    Seq::new(text.len(), |i: int| text[i] ^ token[i])
}

/// Combining twice with one byte changes nothing.
proof fn lemma_xor_twice(a: u8, b: u8)
    by (bit_vector)
    ensures
        (a ^ b) ^ b == a,
{
}

/// Two bits combine to a bit.
proof fn lemma_xor_of_bits(a: u8, b: u8)
    by (bit_vector)
    requires
        a <= 1,
        b <= 1,
    ensures
        a ^ b <= 1,
{
}

/// The lowest bit of a byte is a bit.
proof fn lemma_low_bit(a: u8)
    by (bit_vector)
    ensures
        a & 1 <= 1,
{
}

/// What was encrypted with a token is decrypted by the same token.
pub proof fn lemma_decrypt_inverts_encrypt(plaintext: Seq<u8>, token: Seq<u8>)
    requires
        plaintext.len() == token.len(),
    ensures
        xored(xored(plaintext, token), token) == plaintext,
{
    assert forall|i: int| 0 <= i < plaintext.len() implies xored(xored(plaintext, token), token)[i]
        == plaintext[i] by {
        lemma_xor_twice(plaintext[i], token[i]);
    }
    assert(xored(xored(plaintext, token), token) =~= plaintext);
}

/// Bits combined with bits are bits.
pub proof fn lemma_xored_are_bits(text: Seq<u8>, token: Seq<u8>)
    requires
        text.len() == token.len(),
        all_bits(text),
        all_bits(token),
    ensures
        all_bits(xored(text, token)),
{
    assert forall|i: int| 0 <= i < text.len() implies xored(text, token)[i] <= 1 by {
        lemma_xor_of_bits(text[i], token[i]);
    }
}

/// Draws one byte from the random number generator of the thread.
///
/// Stands for `rand::random::<u8>()`. Nothing is known of the byte. The
/// generator is seeded from the operating system on its first use in a
/// thread and panics if that fails.
#[verifier::external_body]
fn random_byte() -> u8 {
    rand::random::<u8>()
}

/// Combines two streams of equal length bit by bit.
fn combine(text: &Vec<u8>, token: &Vec<u8>) -> (combined: Vec<u8>)
    requires
        text@.len() == token@.len(),
    ensures
        combined@ == xored(text@, token@),
{
    let mut combined: Vec<u8> = Vec::new();
    let mut i: usize = 0;
    while i < text.len()
        invariant
            i <= text@.len(),
            text@.len() == token@.len(),
            combined@ == xored(text@, token@).take(i as int),
        decreases text@.len() - i,
    {
        combined.push(text[i] ^ token[i]);
        proof {
            assert(combined@ =~= xored(text@, token@).take(i + 1));
        }
        i += 1;
    }
    proof {
        assert(combined@ =~= xored(text@, token@));
    }
    combined
}

/// A source of random bytes.
///
/// A source keeps account of what it has handed out, so that what is made
/// of its bytes can be said in terms of them.
pub trait RandomSource {
    /// The bytes that the source has handed out so far, the first one
    /// first.
    spec fn drawn(&self) -> Seq<u8>;

    /// Hands out the next byte.
    fn next_byte(&mut self) -> (byte: u8)
        ensures
            final(self).drawn() == old(self).drawn().push(byte),
    ;
}

/// The random number generator of the thread.
pub struct ThreadRandom {
    history: Ghost<Seq<u8>>,
}

impl ThreadRandom {
    /// A source that has handed out nothing yet.
    pub fn new() -> (source: Self)
        ensures
            source.drawn() == Seq::<u8>::empty(),
    {
        ThreadRandom { history: Ghost(Seq::empty()) }
    }
}

impl RandomSource for ThreadRandom {
    closed spec fn drawn(&self) -> Seq<u8> {
        self.history@
    }

    fn next_byte(&mut self) -> (byte: u8) {
        let byte = random_byte();
        self.history = Ghost(self.history@.push(byte));
        byte
    }
}

/// A source that hands out the bytes that it was given, in their order, and
/// zeros when it has run out of them.
pub struct Replay {
    bytes: Vec<u8>,
    next: usize,
    history: Ghost<Seq<u8>>,
}

impl Replay {
    #[verifier::type_invariant]
    spec fn in_range(&self) -> bool {
        self.next <= self.bytes@.len()
    }

    /// The bytes that the source has still to hand out.
    pub closed spec fn pending(&self) -> Seq<u8> {
        self.bytes@.skip(self.next as int)
    }

    /// A source that will hand out `bytes`.
    pub fn new(bytes: Vec<u8>) -> (source: Self)
        ensures
            source.drawn() == Seq::<u8>::empty(),
            source.pending() == bytes@,
    {
        proof {
            assert(bytes@.skip(0) =~= bytes@);
        }
        Replay { bytes, next: 0, history: Ghost(Seq::empty()) }
    }
}

impl RandomSource for Replay {
    closed spec fn drawn(&self) -> Seq<u8> {
        self.history@
    }

    fn next_byte(&mut self) -> (byte: u8)
        ensures
            old(self).pending().len() > 0 ==> byte == old(self).pending()[0],
            old(self).pending().len() > 0 ==> final(self).pending()
                == old(self).pending().drop_first(),
            old(self).pending().len() == 0 ==> byte == 0,
            old(self).pending().len() == 0 ==> final(self).pending() == old(self).pending(),
    {
        proof {
            use_type_invariant(&*self);
        }
        let byte = if self.next < self.bytes.len() {
            let byte = self.bytes[self.next];
            proof {
                assert(self.bytes@.skip(self.next as int).drop_first() =~= self.bytes@.skip(
                    self.next + 1,
                ));
            }
            self.next = self.next + 1;
            byte
        } else {
            0
        };
        self.history = Ghost(self.history@.push(byte));
        byte
    }
}

/// The lowest bit of every byte.
pub open spec fn low_bits(bytes: Seq<u8>) -> Seq<u8> {
    Seq::new(bytes.len(), |i: int| bytes[i] & 1)
}

/// Draws a key token of `len` bits: the lowest bit of each of the next `len`
/// bytes of the source.
pub fn draw_token<S: RandomSource>(source: &mut S, len: usize) -> (token: Vec<u8>)
    ensures
        token@.len() == len,
        all_bits(token@),
        final(source).drawn().len() == old(source).drawn().len() + len,
        final(source).drawn().take(old(source).drawn().len() as int) == old(source).drawn(),
        token@ == low_bits(final(source).drawn().skip(old(source).drawn().len() as int)),
{
    let mut token: Vec<u8> = Vec::new();
    let mut i: usize = 0;
    let ghost before = source.drawn();
    proof {
        assert(before.take(before.len() as int) =~= before);
        assert(token@ =~= low_bits(before.skip(before.len() as int)));
    }
    while i < len
        invariant
            i <= len,
            token@.len() == i,
            all_bits(token@),
            before == old(source).drawn(),
            source.drawn().len() == before.len() + i,
            source.drawn().take(before.len() as int) == before,
            token@ == low_bits(source.drawn().skip(before.len() as int)),
        decreases len - i,
    {
        let ghost so_far = source.drawn();
        let byte = source.next_byte();
        proof {
            lemma_low_bit(byte);
            assert(source.drawn().take(before.len() as int) =~= so_far.take(before.len() as int));
        }
        token.push(byte & 1);
        proof {
            assert(token@ =~= low_bits(source.drawn().skip(before.len() as int)));
        }
        i += 1;
    }
    token
}

/// Encrypts the text with the given key token.
pub fn encrypt_with_token(plaintext: &Vec<u8>, token: &Vec<u8>) -> (result: Result<
    Vec<u8>,
    CodecError,
>)
    ensures
        result is Ok <==> plaintext@.len() == token@.len(),
        result matches Err(e) ==> e == CodecError::LengthMismatch,
        result matches Ok(ciphertext) ==> ciphertext@ == xored(plaintext@, token@),
{
    if plaintext.len() != token.len() {
        return Err(CodecError::LengthMismatch);
    }
    Ok(combine(plaintext, token))
}

/// Encrypts the text with a key token drawn from the source, and hands out
/// both the ciphertext and the token.
pub fn encrypt<S: RandomSource>(plaintext: &Vec<u8>, source: &mut S) -> (result: (
    Vec<u8>,
    Vec<u8>,
))
    ensures
        result.1@.len() == plaintext@.len(),
        all_bits(result.1@),
        result.0@ == xored(plaintext@, result.1@),
        final(source).drawn().len() == old(source).drawn().len() + plaintext@.len(),
        final(source).drawn().take(old(source).drawn().len() as int) == old(source).drawn(),
        result.1@ == low_bits(final(source).drawn().skip(old(source).drawn().len() as int)),
{
    let token = draw_token(source, plaintext.len());
    let ciphertext = combine(plaintext, &token);
    (ciphertext, token)
}

/// Decrypts the ciphertext with the key token that it was encrypted with.
pub fn decrypt(ciphertext: &Vec<u8>, token: &Vec<u8>) -> (result: Result<Vec<u8>, CodecError>)
    ensures
        result is Ok <==> ciphertext@.len() == token@.len(),
        result matches Err(e) ==> e == CodecError::LengthMismatch,
        result matches Ok(plaintext) ==> plaintext@ == xored(ciphertext@, token@),
{
    if ciphertext.len() != token.len() {
        return Err(CodecError::LengthMismatch);
    }
    Ok(combine(ciphertext, token))
}

} // verus!
