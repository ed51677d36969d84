use lib::base_serde::{ByteReader, Deserialize, Serialize};

#[test]
fn asset_values_read_back() {
    let long: String = "ab".repeat(150);
    let mut data: Vec<u8> = Vec::new();
    i64::MIN.serialize(&mut data).unwrap();
    u32::MAX.serialize(&mut data).unwrap();
    (-1i16).serialize(&mut data).unwrap();
    long.serialize(&mut data).unwrap();
    true.serialize(&mut data).unwrap();
    let mut reader = ByteReader::new(&data);
    assert_eq!(i64::deserialize(&mut reader).unwrap(), i64::MIN);
    assert_eq!(u32::deserialize(&mut reader).unwrap(), u32::MAX);
    assert_eq!(i16::deserialize(&mut reader).unwrap(), -1);
    assert_eq!(String::deserialize(&mut reader).unwrap(), long);
    assert_eq!(bool::deserialize(&mut reader).unwrap(), true);
}
