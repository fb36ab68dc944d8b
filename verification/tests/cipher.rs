use bitcodec::cipher::{
    decrypt, draw_token, encrypt, encrypt_with_token, RandomSource, Replay, ThreadRandom,
};
use bitcodec::error::CodecError;

#[test]
fn encrypt_with_token_combines_bit_by_bit() {
    let plaintext = vec![0, 0, 1, 1];
    let token = vec![0, 1, 0, 1];
    assert_eq!(encrypt_with_token(&plaintext, &token), Ok(vec![0, 1, 1, 0]));
}

#[test]
fn encrypt_with_token_of_zeros_changes_nothing() {
    let plaintext = vec![1, 0, 1, 1, 0];
    assert_eq!(encrypt_with_token(&plaintext, &vec![0; 5]), Ok(plaintext.clone()));
}

#[test]
fn encrypt_with_token_rejects_unequal_lengths() {
    assert_eq!(encrypt_with_token(&vec![0, 1], &vec![0]), Err(CodecError::LengthMismatch));
    assert_eq!(encrypt_with_token(&vec![], &vec![0]), Err(CodecError::LengthMismatch));
}

#[test]
fn decrypt_rejects_unequal_lengths() {
    assert_eq!(decrypt(&vec![0, 1, 1], &vec![0, 1]), Err(CodecError::LengthMismatch));
}

#[test]
fn decrypt_inverts_encrypt_with_token() {
    let plaintext = vec![1, 0, 0, 1, 1, 1, 0, 0, 1, 0];
    let token = vec![1, 1, 0, 0, 1, 0, 1, 0, 1, 1];
    let ciphertext = encrypt_with_token(&plaintext, &token).unwrap();
    assert_eq!(ciphertext, vec![0, 1, 0, 1, 0, 1, 1, 0, 0, 1]);
    assert_eq!(decrypt(&ciphertext, &token), Ok(plaintext));
}

#[test]
fn encrypt_hands_out_the_token_it_used() {
    let plaintext: Vec<u8> = (0..400).map(|i| (i % 3 == 0) as u8).collect();
    let mut source = ThreadRandom::new();
    let (ciphertext, token) = encrypt(&plaintext, &mut source);
    assert_eq!(token.len(), plaintext.len());
    assert_eq!(ciphertext.len(), plaintext.len());
    assert!(token.iter().all(|bit| *bit <= 1));
    for i in 0..plaintext.len() {
        assert_eq!(ciphertext[i], plaintext[i] ^ token[i]);
    }
    assert_eq!(encrypt_with_token(&plaintext, &token), Ok(ciphertext.clone()));
    assert_eq!(decrypt(&ciphertext, &token), Ok(plaintext));
}

#[test]
fn encrypt_takes_the_lowest_bit_of_each_byte_of_the_source() {
    let plaintext = vec![1, 1, 0, 0, 1, 0];
    let mut source = Replay::new(vec![0, 1, 2, 3, 254, 255]);
    let (ciphertext, token) = encrypt(&plaintext, &mut source);
    assert_eq!(token, vec![0, 1, 0, 1, 0, 1]);
    assert_eq!(ciphertext, vec![1, 0, 0, 1, 1, 1]);
    assert_eq!(decrypt(&ciphertext, &token), Ok(plaintext));
}

#[test]
fn encrypt_goes_on_where_the_source_stands() {
    let mut source = Replay::new(vec![1, 1, 0, 1, 0]);
    let (first, first_token) = encrypt(&vec![0, 0], &mut source);
    let (second, second_token) = encrypt(&vec![1, 1, 1], &mut source);
    assert_eq!(first_token, vec![1, 1]);
    assert_eq!(first, vec![1, 1]);
    assert_eq!(second_token, vec![0, 1, 0]);
    assert_eq!(second, vec![1, 0, 1]);
}

#[test]
fn encrypt_of_nothing_is_nothing() {
    let mut source = ThreadRandom::new();
    let (ciphertext, token) = encrypt(&Vec::new(), &mut source);
    assert!(ciphertext.is_empty());
    assert!(token.is_empty());
}

#[test]
fn replay_hands_out_its_bytes_and_then_zeros() {
    let mut source = Replay::new(vec![7, 9]);
    assert_eq!(source.next_byte(), 7);
    assert_eq!(source.next_byte(), 9);
    assert_eq!(source.next_byte(), 0);
    assert_eq!(source.next_byte(), 0);
}

#[test]
fn draw_token_of_the_thread_generator_holds_bits_of_both_values() {
    let mut source = ThreadRandom::new();
    let token = draw_token(&mut source, 2000);
    assert_eq!(token.len(), 2000);
    assert!(token.iter().all(|bit| *bit <= 1));
    assert!(token.iter().any(|bit| *bit == 0));
    assert!(token.iter().any(|bit| *bit == 1));
}

#[test]
fn thread_generator_hands_out_more_than_one_value() {
    let mut source = ThreadRandom::new();
    let first = source.next_byte();
    let mut differs = false;
    for _ in 0..1000 {
        if source.next_byte() != first {
            differs = true;
        }
    }
    assert!(differs);
}
