use ce_fleet::text::trim;
use ce_fleet::util::{
    data_dir, device_label, first_label, now_secs, parse_node_id, reading_secs, short_id, HexError,
    NodeIdError,
};

#[test]
fn short_id_takes_twelve_characters() {
    assert_eq!(short_id("0123456789abcdef"), "0123456789ab");
    assert_eq!(short_id("0123456789ab"), "0123456789ab");
    assert_eq!(short_id("abc"), "abc");
    assert_eq!(short_id("\u{e9}\u{e9}\u{e9}\u{e9}\u{e9}\u{e9}\u{e9}\u{e9}\u{e9}\u{e9}\u{e9}\u{e9}x").chars().count(), 12);
}

#[test]
fn node_ids_are_parsed() {
    let id = parse_node_id("  00FFa1B2030405060708090a0b0c0d0e0f101112131415161718191a1b1c1d1e\n").unwrap();
    assert_eq!(&id[..5], &[0x00, 0xff, 0xa1, 0xb2, 0x03]);
    assert_eq!(id[31], 0x1e);
    let bytes: Vec<u8> = (0..32u8).map(|i| i.wrapping_mul(37)).collect();
    assert_eq!(parse_node_id(&hex::encode(&bytes)).unwrap().to_vec(), bytes);
    assert_eq!(parse_node_id(&hex::encode_upper(&bytes)).unwrap().to_vec(), bytes);
}

#[test]
fn bad_node_ids_are_told_apart() {
    assert_eq!(parse_node_id("abc"), Err(NodeIdError::Hex(HexError::OddLength)));
    assert_eq!(
        parse_node_id("0g"),
        Err(NodeIdError::Hex(HexError::InvalidHexCharacter { c: 'g', index: 1 }))
    );
    assert_eq!(
        parse_node_id("ab\u{e9}"),
        Err(NodeIdError::Hex(HexError::InvalidHexCharacter { c: '\u{c3}', index: 2 }))
    );
    assert_eq!(parse_node_id(""), Err(NodeIdError::Length));
    assert_eq!(parse_node_id("abcd"), Err(NodeIdError::Length));
}

#[test]
fn node_id_errors_are_worded() {
    let text = |s: &str| parse_node_id(s).unwrap_err().message();
    assert_eq!(text("abc"), "invalid node id hex: Odd number of digits");
    assert_eq!(text("0g"), "invalid node id hex: Invalid character 'g' at position 1");
    assert_eq!(text("a\nbc"), "invalid node id hex: Invalid character '\\n' at position 1");
    assert_eq!(text("ab"), "node id must be 32 bytes (64 hex chars)");
    assert_eq!(
        NodeIdError::Hex(HexError::InvalidStringLength).message(),
        "invalid node id hex: Invalid string length"
    );
}

#[test]
fn trimming_agrees_with_the_standard_library() {
    for c in (0..=0x10ffffu32).filter_map(char::from_u32) {
        let s = format!("{c}a{c}b{c}{c}");
        if c.is_whitespace() || c as u32 <= 0x4000 || c as u32 % 101 == 0 {
            assert_eq!(trim(&s), s.trim(), "{:?}", c);
        }
    }
    assert_eq!(trim(" \t\r\n"), "");
    assert_eq!(trim(""), "");
}

#[test]
fn labels_come_from_the_first_source_with_text() {
    let some = |s: &str| Some(s.to_string());
    assert_eq!(first_label(&vec![None, some("  "), some(" box \n"), some("other")]).as_deref(), Some("box"));
    assert_eq!(first_label(&vec![None, some("")]), None);
    let none = vec![None, some("\t")];
    assert_eq!(device_label(&vec![some("mine")], Some(b"host\n".to_vec()), "0123456789abcdef"), "mine");
    assert_eq!(device_label(&none, Some("h\u{f6}st\n".as_bytes().to_vec()), "0123456789abcdef"), "h\u{f6}st");
    assert_eq!(device_label(&none, Some(b" \n".to_vec()), "0123456789abcdef"), "0123456789ab");
    assert_eq!(device_label(&none, Some(vec![0xff, 0xfe]), "0123456789abcdef"), "0123456789ab");
    assert_eq!(device_label(&none, None, "0123456789abcdef"), "0123456789ab");
}

#[test]
fn data_dir_prefers_the_override() {
    assert_eq!(data_dir(Some(1), Some(2), Some(3), 4), 1);
    assert_eq!(data_dir(None, Some(2), Some(3), 4), 2);
    assert_eq!(data_dir(None, None, Some(3), 4), 3);
    assert_eq!(data_dir(None, None, None, 4), 4);
}

#[test]
fn the_clock_stands_after_the_epoch() {
    let now = std::time::SystemTime::now()
        .duration_since(std::time::UNIX_EPOCH)
        .unwrap()
        .as_secs();
    let read = now_secs();
    assert!(read >= now && read <= now + 5);
    assert_eq!(reading_secs(Some(7)), 7);
    assert_eq!(reading_secs(None), 0);
}
