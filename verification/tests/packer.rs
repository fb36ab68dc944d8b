use bitcodec::packer::{convert_to_ascii, convert_to_bin, group_bytes, unpack};

#[test]
fn group_bytes_puts_the_first_bit_highest() {
    assert_eq!(group_bytes(&vec![0, 1, 0, 0, 0, 0, 0, 1]), vec![65]);
    assert_eq!(group_bytes(&vec![1, 0, 0, 0, 0, 0, 0, 0]), vec![128]);
    assert_eq!(group_bytes(&vec![0, 0, 0, 0, 0, 0, 0, 1]), vec![1]);
    assert_eq!(group_bytes(&vec![1, 1, 1, 1, 1, 1, 1, 1]), vec![255]);
}

#[test]
fn group_bytes_drops_a_trailing_remainder() {
    let bits = vec![0, 1, 0, 0, 0, 0, 0, 1, 0, 1, 0, 0, 0, 0, 1, 0, 1, 1, 1];
    assert_eq!(group_bytes(&bits), vec![65, 66]);
    assert_eq!(group_bytes(&vec![1, 1, 1]), Vec::<u8>::new());
    assert_eq!(group_bytes(&Vec::new()), Vec::<u8>::new());
}

#[test]
fn unpack_spreads_the_highest_bit_first() {
    assert_eq!(unpack(&[65]), vec![0, 1, 0, 0, 0, 0, 0, 1]);
    assert_eq!(unpack(&[128, 1]), vec![1, 0, 0, 0, 0, 0, 0, 0, 0, 0, 0, 0, 0, 0, 0, 1]);
    assert_eq!(unpack(&[]), Vec::<u8>::new());
}

#[test]
fn unpack_inverts_group_bytes() {
    let bits = vec![1, 0, 1, 1, 0, 0, 1, 0, 0, 0, 0, 1, 1, 1, 1, 0, 1, 1, 1, 1, 1, 1, 1, 1];
    assert_eq!(unpack(&group_bytes(&bits)), bits);
}

#[test]
fn group_bytes_inverts_unpack() {
    let symbols: Vec<u8> = (0..=255).collect();
    assert_eq!(group_bytes(&unpack(&symbols)), symbols);
}

#[test]
fn unpack_after_group_bytes_loses_only_the_remainder() {
    let bits = vec![1, 0, 1, 1, 0, 0, 1, 0, 1, 1, 0];
    assert_eq!(unpack(&group_bytes(&bits)), vec![1, 0, 1, 1, 0, 0, 1, 0]);
}

#[test]
fn convert_to_bin_spreads_the_bytes_of_a_text() {
    assert_eq!(convert_to_bin(String::from("A")), vec![0, 1, 0, 0, 0, 0, 0, 1]);
    assert_eq!(
        convert_to_bin(String::from("Hi")),
        vec![0, 1, 0, 0, 1, 0, 0, 0, 0, 1, 1, 0, 1, 0, 0, 1]
    );
    assert_eq!(convert_to_bin(String::new()), Vec::<u8>::new());
}

#[test]
fn convert_to_bin_uses_two_bytes_for_e_acute() {
    // U+00E9 is 0xC3 0xA9 in UTF-8
    assert_eq!(
        convert_to_bin(String::from("\u{e9}")),
        vec![1, 1, 0, 0, 0, 0, 1, 1, 1, 0, 1, 0, 1, 0, 0, 1]
    );
}

#[test]
fn convert_to_ascii_reads_symbols_as_code_points() {
    let bits = vec![0, 1, 0, 0, 1, 0, 0, 0, 0, 1, 1, 0, 1, 0, 0, 1];
    assert_eq!(convert_to_ascii(bits), "Hi");
    assert_eq!(convert_to_ascii(vec![1, 1, 1, 0, 1, 0, 0, 1]), "\u{e9}");
    assert_eq!(convert_to_ascii(vec![0, 1, 0, 0, 0, 0, 0, 1, 1, 1]), "A");
    assert_eq!(convert_to_ascii(Vec::new()), "");
}
