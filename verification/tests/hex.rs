//! Hexadecimal address parsing.

use stm32_uart_loader::u32_from_hex;

#[test]
fn parses_plain_and_prefixed_hex() {
    assert_eq!(u32_from_hex("0x08000000"), Some(0x0800_0000));
    assert_eq!(u32_from_hex("08000000"), Some(0x0800_0000));
    assert_eq!(u32_from_hex("ff"), Some(0xFF));
    assert_eq!(u32_from_hex("FF"), Some(0xFF));
    assert_eq!(u32_from_hex("0"), Some(0));
    assert_eq!(u32_from_hex("0xFFFFFFFF"), Some(u32::MAX));
}

#[test]
fn strips_repeated_markers_like_the_radix_parser() {
    // trimming removes every leading marker, and the radix parser itself
    // accepts one leading plus sign
    assert_eq!(u32_from_hex("0x0x1F"), Some(0x1F));
    assert_eq!(u32_from_hex("0x+1F"), Some(0x1F));
}

#[test]
fn rejects_empty_and_invalid() {
    assert_eq!(u32_from_hex(""), None);
    assert_eq!(u32_from_hex("0x"), None);
    assert_eq!(u32_from_hex("+"), None);
    assert_eq!(u32_from_hex("0xG1"), None);
    assert_eq!(u32_from_hex("12 34"), None);
    assert_eq!(u32_from_hex("-1"), None);
    assert_eq!(u32_from_hex("+0xFF"), None);
}

#[test]
fn rejects_values_beyond_32_bits() {
    assert_eq!(u32_from_hex("0x100000000"), None);
    assert_eq!(u32_from_hex("FFFFFFFFF"), None);
    assert_eq!(u32_from_hex("0x0FFFFFFFF"), Some(u32::MAX));
}
