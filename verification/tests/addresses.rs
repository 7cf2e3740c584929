use trace_explorer::symbols::{parse_hex_addr, LlvmSymbolizerItem};

#[test]
fn parses_hex_addresses() {
    assert_eq!(parse_hex_addr("0x0"), Some(0));
    assert_eq!(parse_hex_addr("0x10"), Some(16));
    assert_eq!(parse_hex_addr("0xff"), Some(255));
    assert_eq!(parse_hex_addr("0xDeadBeef"), Some(0xdead_beef));
    assert_eq!(parse_hex_addr("0xffffffffffffffff"), Some(u64::MAX));
}

#[test]
fn rejects_malformed_addresses() {
    assert_eq!(parse_hex_addr(""), None);
    assert_eq!(parse_hex_addr("0x"), None);
    assert_eq!(parse_hex_addr("10"), None);
    assert_eq!(parse_hex_addr("x10"), None);
    assert_eq!(parse_hex_addr("0xg1"), None);
    assert_eq!(parse_hex_addr("0x12 "), None);
    // one digit past the largest 64-bit value
    assert_eq!(parse_hex_addr("0x10000000000000000"), None);
}

#[test]
fn symbolizer_item_address() {
    let item = LlvmSymbolizerItem {
        address: "0x1a2b".to_string(),
        module_name: "vmlinux".to_string(),
        symbol: Vec::new(),
    };
    assert_eq!(item.address_(), 0x1a2b);
}
