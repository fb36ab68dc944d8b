use bitcodec::vigenere::decrypt;

#[test]
fn decrypt_moves_letters_back_by_the_key() {
    assert_eq!(decrypt(String::from("python")), "aaaaaa");
    assert_eq!(decrypt(String::from("Wcesc, Jdpek!")), "Hello, World!");
}

#[test]
fn decrypt_keeps_the_case() {
    assert_eq!(decrypt(String::from("PYTHON python")), "AAAAAA aaaaaa");
    assert_eq!(decrypt(String::from("abc xyz, ABC!")), "ldj qkm, LDJ!");
}

#[test]
fn decrypt_spends_no_key_letter_on_other_characters() {
    assert_eq!(decrypt(String::from("\u{e9}1 a")), "\u{e9}1 l");
    assert_eq!(decrypt(String::from("1234 !?")), "1234 !?");
}

#[test]
fn decrypt_of_nothing_is_nothing() {
    assert_eq!(decrypt(String::new()), "");
}
