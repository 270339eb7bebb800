use gfh::device::{
    decimal_string, hid_serial, is_yubikey_product, is_yubikey_reader, merge_devices,
    mentions_yubikey, FidoDevice,
};

fn generic(product: &str, info: &str) -> FidoDevice {
    FidoDevice::Generic { product_string: product.to_owned(), info: info.to_owned() }
}

fn yubikey(name: &str, serial: u32) -> FidoDevice {
    FidoDevice::YubiKey { name: name.to_owned(), serial }
}

#[test]
fn yubikey_serial_is_decimal() {
    let d = yubikey("YubiKey 5C NFC", 12345678);
    assert_eq!(d.serial(), Some("12345678".to_owned()));
    assert_eq!(d.name(), "YubiKey 5C NFC");
    assert_eq!(d.label(), "12345678 - YubiKey 5C NFC");
}

#[test]
fn decimal_numerals() {
    assert_eq!(decimal_string(0), "0");
    assert_eq!(decimal_string(7), "7");
    assert_eq!(decimal_string(10), "10");
    assert_eq!(decimal_string(4294967295), "4294967295");
}

#[test]
fn hid_serial_from_info_string() {
    let info = "product=Token vid=0x1234 serial_number=ABC123 path=/dev/hidraw0";
    assert_eq!(hid_serial(info), Some("ABC123".to_owned()));
    let d = generic("Token2 FIDO2", info);
    assert_eq!(d.serial(), Some("ABC123".to_owned()));
    assert_eq!(d.label(), "ABC123 - Token2 FIDO2");
}

#[test]
fn hid_serial_first_field_wins_and_keeps_later_equals() {
    assert_eq!(hid_serial("serial_number=a=b serial_number=c"), Some("a=b".to_owned()));
    assert_eq!(hid_serial(" serial_number="), Some(String::new()));
    assert_eq!(hid_serial("xserial_number=1"), None);
}

#[test]
fn hid_without_serial_reports_none() {
    let d = generic("Token", "product=Token vid=0x1234");
    assert_eq!(d.serial(), None);
    // The placeholder is only a label, never a serial.
    assert_eq!(d.label(), "unknown - Token");
    assert_eq!(hid_serial(""), None);
}

#[test]
fn yubikey_products_are_recognised_in_any_case() {
    assert!(is_yubikey_product("YubiKey OTP+FIDO+CCID"));
    assert!(is_yubikey_product("my YUBIKEY"));
    assert!(!is_yubikey_product("Token2 FIDO2"));
    // The Kelvin sign lowercases to an ASCII `k`.
    assert!(is_yubikey_product("Yubi\u{212A}ey"));
    assert!(mentions_yubikey("a yubikey"));
    assert!(!mentions_yubikey("YubiKey"));
}

#[test]
fn yubikey_readers_are_recognised_in_ascii_case() {
    assert!(is_yubikey_reader("Yubico YubiKey OTP+FIDO+CCID 00 00"));
    assert!(!is_yubikey_reader("Generic Smart Card Reader"));
    assert!(!is_yubikey_reader("Yubi\u{212A}ey"));
}

#[test]
fn merge_drops_hid_yubikeys_and_appends_pcsc_ones() {
    let generics = vec![
        generic("Token2", "serial_number=1"),
        generic("Yubico YubiKey FIDO", "serial_number="),
        yubikey("stray", 5),
        generic("SoloKey", "serial_number=2"),
    ];
    let yubikeys = vec![yubikey("YubiKey 5", 42)];
    let (all, warn) = merge_devices(generics, yubikeys);
    let labels: Vec<String> = all.iter().map(|d| d.label()).collect();
    assert_eq!(labels, vec!["1 - Token2", "2 - SoloKey", "42 - YubiKey 5"]);
    assert!(!warn);
}

#[test]
fn merge_warns_when_only_hid_devices_remain() {
    let (all, warn) = merge_devices(vec![generic("Token2", "serial_number=1")], Vec::new());
    assert_eq!(all.len(), 1);
    assert!(warn);
    let (none, warn) = merge_devices(vec![generic("YubiKey", "")], Vec::new());
    assert!(none.is_empty());
    assert!(!warn);
}
