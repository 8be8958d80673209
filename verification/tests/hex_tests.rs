use dnssd::hex::Hex;

#[test]
fn test_length_0() {
    assert_eq!(Hex::new(&[], 0).to_hex_string(), "");
}

#[test]
fn test_length_1() {
    assert_eq!(Hex::new(&[0], 1).to_hex_string(), "0000  00");
}

#[test]
fn test_length_3() {
    assert_eq!(Hex::new(&[1, 2, 3], 3).to_hex_string(), "0000  01 02 03");
}

#[test]
fn test_length_16() {
    let data: [u8; 16] = [1, 2, 3, 4, 5, 6, 7, 8, 9, 10, 11, 12, 13, 14, 15, 16];
    assert_eq!(
        Hex::new(&data, 16).to_hex_string(),
        "0000  01 02 03 04 05 06 07 08 09 0a 0b 0c 0d 0e 0f 10"
    );
}

#[test]
fn test_length_17() {
    let data: [u8; 17] = [1, 2, 3, 4, 5, 6, 7, 8, 9, 10, 11, 12, 13, 14, 15, 16, 17];
    assert_eq!(
        Hex::new(&data, 17).to_hex_string(),
        "0000  01 02 03 04 05 06 07 08 09 0a 0b 0c 0d 0e 0f 10\n0010  11"
    );
}

#[test]
fn test_length_cutoff() {
    let data: [u8; 17] = [1, 2, 3, 4, 5, 6, 7, 8, 9, 10, 11, 12, 13, 14, 15, 16, 17];
    assert_eq!(
        Hex::new(&data, 15).to_hex_string(),
        "0000  01 02 03 04 05 06 07 08 09 0a 0b 0c 0d 0e 0f"
    );
}

#[test]
fn test_offset_column_beyond_four_digits() {
    let data = vec![0xabu8; 0x10001];
    let dump = Hex::new(&data, 0x10001).to_hex_string();
    let last_line = dump.lines().last().unwrap();
    assert_eq!(last_line, "10000  ab");
}
