use zmap_rs::mac::MacAddress;

#[test]
fn mac_round_trip() {
    let bytes = [0xaa, 0x41, 0x72, 0x51, 0x54, 0x42];
    let m = MacAddress::new(bytes);
    assert_eq!(m.octets(), bytes);
    assert_eq!(m.as_bytes(), &bytes[..]);
    assert_eq!(MacAddress::from_bytes(&bytes).octets(), bytes);
}

#[test]
fn mac_from_text() {
    let m = MacAddress::from_str("aa:41:72:51:54:42").unwrap();
    assert_eq!(m.octets(), [0xaa, 0x41, 0x72, 0x51, 0x54, 0x42]);
    let m = MacAddress::from_str("F6-D4-88-07-37-64").unwrap();
    assert_eq!(m.octets(), [0xf6, 0xd4, 0x88, 0x07, 0x37, 0x64]);
    let m = MacAddress::from_str("00:00:00:00:00:00").unwrap();
    assert_eq!(m.octets(), [0; 6]);
}

#[test]
fn mac_from_bad_text() {
    assert!(MacAddress::from_str("").is_err());
    assert!(MacAddress::from_str("aa:41:72").is_err());
    assert!(MacAddress::from_str("zz:zz:zz:zz:zz:zz").is_err());
}
