use std::io::Write;

use aur_mirror_meta::ids::ObjectId;
use aur_mirror_meta::supplement::decompress_if_needed;

#[test]
fn hex_round_trips_through_object_id() {
    let hexes = "0123456789abcdef0123456789abcdef01234567";
    let id = ObjectId::from_hex(hexes.as_bytes()).unwrap();
    assert_eq!(id.to_hex_bytes(), hexes.as_bytes().to_vec());
}

#[test]
fn upper_case_hex_is_accepted_and_lowered() {
    let id = ObjectId::from_hex(b"0123456789ABCDEF0123456789ABCDEF01234567").unwrap();
    assert_eq!(
        id.to_hex_bytes(),
        b"0123456789abcdef0123456789abcdef01234567".to_vec()
    );
}

#[test]
fn short_and_non_hex_inputs_are_rejected() {
    assert!(ObjectId::from_hex(b"abc").is_err());
    assert!(ObjectId::from_hex(b"g123456789abcdef0123456789abcdef01234567").is_err());
}

#[test]
fn gzip_snapshot_is_decompressed() {
    let mut enc = flate2::write::GzEncoder::new(Vec::new(), flate2::Compression::default());
    enc.write_all(b"[{\"Name\":\"p\"}]").unwrap();
    let packed = enc.finish().unwrap();
    assert_eq!(packed[0], 0x1f);
    assert_eq!(packed[1], 0x8b);
    let out = decompress_if_needed(&packed).unwrap();
    assert_eq!(out, b"[{\"Name\":\"p\"}]".to_vec());
}

#[test]
fn plain_snapshot_passes_through() {
    let data = b"[{\"Name\":\"p\"}]".to_vec();
    let out = decompress_if_needed(&data).unwrap();
    assert_eq!(out, data);
}

#[test]
fn corrupt_gzip_is_refused() {
    let data = vec![0x1f, 0x8b, 0x00, 0x00, 0x00];
    assert!(decompress_if_needed(&data).is_none());
}
