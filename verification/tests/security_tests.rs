use esp32_nimble::security::BLESecurity;

#[test]
fn passkey_defaults_to_zero() {
    let s = BLESecurity::new();
    assert_eq!(s.get_passkey(), 0);
}

#[test]
fn set_passkey_is_returned() {
    let mut s = BLESecurity::new();
    s.set_passkey(123456);
    assert_eq!(s.get_passkey(), 123456);
}

#[test]
fn set_passkey_chains() {
    let mut s = BLESecurity::new();
    s.set_passkey(111111).set_passkey(999999);
    assert_eq!(s.get_passkey(), 999999);
}
