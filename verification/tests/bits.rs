use bitcodec::bits::{bits_from_text, bits_to_text};

#[test]
fn bits_from_text_reads_the_characters_0_and_1() {
    assert_eq!(bits_from_text("0101101"), vec![0, 1, 0, 1, 1, 0, 1]);
    assert_eq!(bits_from_text(""), Vec::<u8>::new());
}

#[test]
fn bits_from_text_inverts_two_bits_of_any_other_byte() {
    // a line feed is 0x0a, and 0x0a ^ 0x30 is 0x3a
    assert_eq!(bits_from_text("1\n"), vec![1, 0x3a]);
    assert_eq!(bits_from_text("2 a"), vec![2, 0x10, 0x51]);
}

#[test]
fn bits_to_text_writes_the_characters_0_and_1() {
    assert_eq!(bits_to_text(&vec![0, 1, 1, 0]), "0110");
    assert_eq!(bits_to_text(&Vec::new()), "");
}

#[test]
fn bits_to_text_sets_two_bits_of_any_other_byte() {
    assert_eq!(bits_to_text(&vec![2, 0x0a, 0xc0]), "2:\u{f0}");
}

#[test]
fn bits_come_back_from_their_written_form() {
    let bits = vec![1, 0, 0, 1, 1, 1, 0, 1, 0, 0, 0];
    assert_eq!(bits_from_text(&bits_to_text(&bits)), bits);
    assert_eq!(bits_to_text(&bits_from_text("0001110")), "0001110");
}
