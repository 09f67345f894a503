use lib::compact::Region;

#[test]
fn region_handle_roundtrip() {
    let r = Region::from_raw(0x1234);
    assert_eq!(r.handle(), 0x1234);
    assert_eq!(r.into_raw(), 0x1234);
}
