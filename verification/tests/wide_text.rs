use port_manager::wide::{to_wide, wide_to_string};

#[test]
fn encodes_utf16_with_nul() {
    assert_eq!(to_wide("A\u{20ac}\u{1f600}"), vec![0x41, 0x20ac, 0xd83d, 0xde00, 0]);
    assert_eq!(to_wide("runas"), "runas\0".encode_utf16().collect::<Vec<u16>>());
    assert_eq!(to_wide(""), vec![0]);
}

#[test]
fn decodes_up_to_first_nul() {
    assert_eq!(wide_to_string(&[0x48, 0x69, 0, 0x41]), "Hi");
    assert_eq!(wide_to_string(&[0x48, 0x69]), "Hi");
    assert_eq!(wide_to_string(&[0xd83d, 0xde00, 0]), "\u{1f600}");
    assert_eq!(wide_to_string(&[0xd800, 0x41]), "\u{fffd}A");
}

#[test]
fn wide_round_trip() {
    for text in ["", "runas", "C:\\Program Files\\app.exe", "h\u{e9}llo \u{1f600}"] {
        assert_eq!(wide_to_string(&to_wide(text)), text);
    }
}
