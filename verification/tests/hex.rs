use unei::editing::hex::{hex_dump, is_binary};

#[test]
fn detects_binary_without_a_nul_byte() {
    let prg = [0x01u8, 0x08, 0xA9, 0x02, 0x8D, 0x20, 0xD0, 0xA2, 0xFF, 0xCA];
    assert!(is_binary(&prg));
    assert!(!is_binary(b"fn main() {}\n// plain rust\n"));
    let mut cut = "café au lait ".repeat(4).into_bytes();
    cut.push(0xC3);
    assert!(!is_binary(&cut));
}

#[test]
fn hex_dump_has_offset_bytes_and_ascii_gutter() {
    let rows = hex_dump(&[0x00, 0xC0, 0x41, 0x42], 8);
    assert_eq!(rows.len(), 1);
    assert!(rows[0].starts_with("00000000  00 c0 41 42 "), "{}", rows[0]);
    assert!(rows[0].ends_with("|..AB|"), "{}", rows[0]);
}

#[test]
fn hex_dump_respects_the_line_cap() {
    let data = vec![0u8; 16 * 100];
    assert_eq!(hex_dump(&data, 4).len(), 4);
}

#[test]
fn binary_edge_cases() {
    assert!(is_binary(&[b'a', 0, b'b']));
    assert!(!is_binary(b""));
    // a stray control char in a short text is more than one in twenty
    assert!(is_binary(b"ab\x01"));
    assert!(!is_binary(b"tab\tform\x0cfeed\r\n"));
    // invalid bytes that are not a clipped lead byte
    assert!(is_binary(&[b'a', 0xFF]));
    assert!(is_binary(&[b'a', 0xC3, b'b']));
    // a clipped three-byte char
    assert!(!is_binary(&[b'a', 0xE2, 0x82]));
}

#[test]
fn hex_dump_full_row_layout() {
    let data: Vec<u8> = (0u8..20).collect();
    let rows = hex_dump(&data, 10);
    assert_eq!(rows.len(), 2);
    assert_eq!(
        rows[0],
        "00000000  00 01 02 03 04 05 06 07  08 09 0a 0b 0c 0d 0e 0f |................|"
    );
    assert_eq!(
        rows[1],
        "00000010  10 11 12 13                                      |....|"
    );
    assert!(hex_dump(&[], 3).is_empty());
}

#[test]
fn hex_rows_put_their_first_bar_at_char_59() {
    let data: Vec<u8> = (0u8..40).collect();
    let rows = hex_dump(&data, 8);
    assert_eq!(rows.len(), 3);
    for (r, row) in rows.iter().enumerate() {
        assert!(row.starts_with(&format!("{:08x}  ", 16 * r)));
        assert_eq!(row.chars().position(|c| c == '|'), Some(59));
        assert!(row.ends_with('|'));
    }
    assert!(rows[2].ends_with("| !\"#$%&'|"));
    let mut with_nul = b"plain text".to_vec();
    with_nul.insert(3, 0);
    assert!(is_binary(&with_nul));
}
