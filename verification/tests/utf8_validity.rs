use ante::encoding::check_utf8;

#[test]
fn ascii_is_valid() {
    assert!(check_utf8(&b"abc".to_vec()));
    assert!(check_utf8(&Vec::new()));
}

#[test]
fn complete_multibyte_sequences_are_valid() {
    assert!(check_utf8(&vec![0xc3, 0xa9]));
    assert!(check_utf8(&vec![0xe2, 0x99, 0xa6]));
    assert!(check_utf8(&vec![0xf0, 0x9f, 0x98, 0x80]));
}

#[test]
fn truncated_sequences_are_invalid() {
    assert!(!check_utf8(&vec![0xc3]));
    assert!(!check_utf8(&vec![0xe2, 0x99]));
    assert!(!check_utf8(&vec![0xf0, 0x9f, 0x98]));
}

#[test]
fn stray_continuation_is_invalid() {
    assert!(!check_utf8(&vec![0x80]));
    assert!(!check_utf8(&vec![0x61, 0xbf]));
}

#[test]
fn overlong_encodings_are_invalid() {
    assert!(!check_utf8(&vec![0xc0, 0x80]));
    assert!(!check_utf8(&vec![0xe0, 0x80, 0x80]));
    assert!(!check_utf8(&vec![0xf0, 0x80, 0x80, 0x80]));
}

#[test]
fn surrogates_and_out_of_range_are_invalid() {
    assert!(!check_utf8(&vec![0xed, 0xa0, 0x80]));
    assert!(!check_utf8(&vec![0xf4, 0x90, 0x80, 0x80]));
    assert!(!check_utf8(&vec![0xff]));
}

#[test]
fn mixed_text_is_checked_whole() {
    assert!(check_utf8(&"caf\u{e9} \u{2666}".as_bytes().to_vec()));
    assert!(!check_utf8(&vec![0x61, 0xc3, 0xa9, 0xc3]));
}
