use std::io::Write;

use aur_mirror_meta::harvest::{fetch_srcinfo_batch, parse_commit_ids};
use aur_mirror_meta::objects::{
    map_blob_id_to_content, map_commit_id_to_srcinfo_blob_id_and_timestamp,
};
use aur_mirror_meta::pack::decode_pack;

fn zlib(data: &[u8]) -> Vec<u8> {
    let mut enc = flate2::write::ZlibEncoder::new(Vec::new(), flate2::Compression::default());
    enc.write_all(data).unwrap();
    enc.finish().unwrap()
}

fn entry_header(kind: u8, size: usize) -> Vec<u8> {
    let mut out = Vec::new();
    let mut first = (kind << 4) | ((size & 0x0f) as u8);
    let mut rest = size >> 4;
    while rest > 0 {
        out.push(first | 0x80);
        first = (rest & 0x7f) as u8;
        rest >>= 7;
    }
    out.push(first);
    out
}

fn object_id(kind: gix_object::Kind, data: &[u8]) -> Vec<u8> {
    gix_object::compute_hash(gix_hash::Kind::Sha1, kind, data)
        .unwrap()
        .as_slice()
        .to_vec()
}

fn sha1(data: &[u8]) -> Vec<u8> {
    let mut h = gix_hash::hasher(gix_hash::Kind::Sha1);
    h.update(data);
    h.try_finalize().unwrap().as_slice().to_vec()
}

fn hex(bytes: &[u8]) -> String {
    let mut s = String::new();
    for b in bytes {
        s.push_str(&format!("{:02x}", b));
    }
    s
}

/// A pack holding one commit, its tree and the tree's `.SRCINFO` blob.
fn srcinfo_pack() -> (Vec<u8>, String, Vec<u8>, i64) {
    let blob: &[u8] = b"pkgname = foo\nversion = 1\n";
    let blob_id = object_id(gix_object::Kind::Blob, blob);

    let mut tree = Vec::new();
    tree.extend_from_slice(b"100644 .SRCINFO\0");
    tree.extend_from_slice(&blob_id);
    let tree_id = object_id(gix_object::Kind::Tree, &tree);

    let commit = format!(
        "tree {}\nauthor A <a@example.org> 1700000000 +0000\ncommitter C <c@example.org> 1700000123 +0000\n\nupdate\n",
        hex(&tree_id)
    );
    let commit_id = object_id(gix_object::Kind::Commit, commit.as_bytes());

    let mut pack = Vec::new();
    pack.extend_from_slice(b"PACK");
    pack.extend_from_slice(&[0, 0, 0, 2]);
    pack.extend_from_slice(&[0, 0, 0, 3]);
    for (kind, body) in [
        (1u8, commit.as_bytes().to_vec()),
        (2u8, tree.clone()),
        (3u8, blob.to_vec()),
    ] {
        pack.extend_from_slice(&entry_header(kind, body.len()));
        pack.extend_from_slice(&zlib(&body));
    }
    let trailer = sha1(&pack);
    pack.extend_from_slice(&trailer);
    (pack, hex(&commit_id), blob.to_vec(), 1700000123)
}

#[test]
fn decode_accepts_fixture_and_recomputes_reference_ids() {
    let (pack, commit_hex, blob, _) = srcinfo_pack();
    let objs = decode_pack(&pack).unwrap_or_else(|_| panic!("pack refused"));
    assert_eq!(objs.len(), 3);
    // The first entry is the commit; its recomputed SHA-1 must equal the
    // reference value computed independently.
    assert_eq!(hex(objs[0].id.as_bytes_ref()), commit_hex);
    assert_eq!(objs[0].kind, 1);
    // The blob's id equals the reference hash of its bytes.
    let blob_ref = object_id(gix_object::Kind::Blob, &blob);
    assert_eq!(objs[2].id.as_bytes_ref(), &blob_ref[..]);
    assert_eq!(objs[2].data, blob);
}

#[test]
fn corrupted_trailer_is_refused() {
    let (mut pack, _, _, _) = srcinfo_pack();
    let n = pack.len();
    pack[n - 1] ^= 0xff;
    assert!(decode_pack(&pack).is_err());
}

#[test]
fn bad_signature_is_refused() {
    let (mut pack, _, _, _) = srcinfo_pack();
    pack[0] = b'Q';
    assert!(decode_pack(&pack).is_err());
}

#[test]
fn batch_yields_text_and_timestamp_at_input_position() {
    let (pack, commit_hex, blob, epoch) = srcinfo_pack();
    let objs = decode_pack(&pack).unwrap_or_else(|_| panic!("pack refused"));
    let commits = map_commit_id_to_srcinfo_blob_id_and_timestamp(&objs)
        .unwrap_or_else(|_| panic!("extraction refused"));
    let blobs = map_blob_id_to_content(&objs);
    let absent = "0000000000000000000000000000000000000000".to_string();
    let ids = parse_commit_ids(&vec![absent, commit_hex]).unwrap();
    let batch = fetch_srcinfo_batch(&ids, &commits, blobs);
    assert_eq!(batch.len(), 2);
    assert!(batch[0].is_none());
    let rec = batch[1].as_ref().unwrap();
    assert_eq!(rec.srcinfo_text.as_bytes(), &blob[..]);
    assert_eq!(rec.committed_at, epoch);
}

#[test]
fn malformed_input_id_is_rejected_before_any_network() {
    let bad = vec!["zzzz".to_string()];
    assert!(parse_commit_ids(&bad).is_err());
    let bad_len = vec!["abcd".to_string()];
    assert!(parse_commit_ids(&bad_len).is_err());
}

#[test]
fn reharvest_of_same_pack_is_byte_identical() {
    let (pack, commit_hex, _, _) = srcinfo_pack();
    let run = |p: &[u8]| {
        let objs = decode_pack(p).unwrap_or_else(|_| panic!("pack refused"));
        let commits = map_commit_id_to_srcinfo_blob_id_and_timestamp(&objs).unwrap_or_else(
            |_| panic!("extraction refused"),
        );
        let blobs = map_blob_id_to_content(&objs);
        let ids = parse_commit_ids(&vec![commit_hex.clone()]).unwrap();
        fetch_srcinfo_batch(&ids, &commits, blobs)
    };
    let first = run(&pack);
    let second = run(&pack);
    assert_eq!(first, second);
}

#[test]
fn ofs_delta_resolves_against_earlier_entry() {
    // A blob "hello world" and an ofs-delta over it that copies the first
    // five bytes and appends "XYZ".
    let base: &[u8] = b"hello world";
    let mut delta = Vec::new();
    delta.push(base.len() as u8); // base size
    delta.push(8u8); // result size
    delta.push(0x90); // copy, one size byte
    delta.push(5); // size 5, offset 0
    delta.push(3); // insert three bytes
    delta.extend_from_slice(b"XYZ");

    let mut pack = Vec::new();
    pack.extend_from_slice(b"PACK");
    pack.extend_from_slice(&[0, 0, 0, 2]);
    pack.extend_from_slice(&[0, 0, 0, 2]);
    let base_off = pack.len();
    pack.extend_from_slice(&entry_header(3, base.len()));
    pack.extend_from_slice(&zlib(base));
    let delta_off = pack.len();
    pack.extend_from_slice(&entry_header(6, delta.len()));
    pack.push((delta_off - base_off) as u8); // backwards distance
    pack.extend_from_slice(&zlib(&delta));
    let trailer = sha1(&pack);
    pack.extend_from_slice(&trailer);

    let objs = decode_pack(&pack).unwrap_or_else(|_| panic!("pack refused"));
    assert_eq!(objs.len(), 2);
    assert_eq!(objs[1].kind, 3);
    assert_eq!(objs[1].data, b"helloXYZ".to_vec());
    let expect = object_id(gix_object::Kind::Blob, b"helloXYZ");
    assert_eq!(objs[1].id.as_bytes_ref(), &expect[..]);
}

#[test]
fn commit_missing_committer_is_fatal_with_id() {
    let commit = b"tree 0000000000000000000000000000000000000000\n\nempty\n".to_vec();
    let commit_id = object_id(gix_object::Kind::Commit, &commit);
    let mut pack = Vec::new();
    pack.extend_from_slice(b"PACK");
    pack.extend_from_slice(&[0, 0, 0, 2]);
    pack.extend_from_slice(&[0, 0, 0, 1]);
    pack.extend_from_slice(&entry_header(1, commit.len()));
    pack.extend_from_slice(&zlib(&commit));
    let trailer = sha1(&pack);
    pack.extend_from_slice(&trailer);

    let objs = decode_pack(&pack).unwrap_or_else(|_| panic!("pack refused"));
    match map_commit_id_to_srcinfo_blob_id_and_timestamp(&objs) {
        Err(aur_mirror_meta::errors::HarvestError::CommitShape(id)) => {
            assert_eq!(id.as_bytes_ref(), &commit_id[..]);
        }
        _ => panic!("expected a commit shape failure"),
    }
}

#[test]
fn non_utf8_blob_is_skipped_not_fatal() {
    let blob = vec![0xffu8, 0xfe, 0x00, 0x01];
    let mut pack = Vec::new();
    pack.extend_from_slice(b"PACK");
    pack.extend_from_slice(&[0, 0, 0, 2]);
    pack.extend_from_slice(&[0, 0, 0, 1]);
    pack.extend_from_slice(&entry_header(3, blob.len()));
    pack.extend_from_slice(&zlib(&blob));
    let trailer = sha1(&pack);
    pack.extend_from_slice(&trailer);

    let objs = decode_pack(&pack).unwrap_or_else(|_| panic!("pack refused"));
    let blobs = map_blob_id_to_content(&objs);
    assert_eq!(blobs.len(), 0);
}

#[test]
fn ref_delta_resolves_by_base_id() {
    // A blob and a ref-delta naming the blob's id as its base.
    let base: &[u8] = b"hello world";
    let base_id = object_id(gix_object::Kind::Blob, base);
    let mut delta = Vec::new();
    delta.push(base.len() as u8);
    delta.push(8u8);
    delta.push(0x90);
    delta.push(5);
    delta.push(3);
    delta.extend_from_slice(b"XYZ");

    let mut pack = Vec::new();
    pack.extend_from_slice(b"PACK");
    pack.extend_from_slice(&[0, 0, 0, 2]);
    pack.extend_from_slice(&[0, 0, 0, 2]);
    pack.extend_from_slice(&entry_header(3, base.len()));
    pack.extend_from_slice(&zlib(base));
    pack.extend_from_slice(&entry_header(7, delta.len()));
    pack.extend_from_slice(&base_id);
    pack.extend_from_slice(&zlib(&delta));
    let trailer = sha1(&pack);
    pack.extend_from_slice(&trailer);

    let objs = decode_pack(&pack).unwrap_or_else(|_| panic!("pack refused"));
    assert_eq!(objs.len(), 2);
    assert_eq!(objs[1].kind, 3);
    assert_eq!(objs[1].data, b"helloXYZ".to_vec());
}

#[test]
fn ref_delta_with_unknown_base_fails_loudly() {
    let delta = vec![1u8, 1u8, 0x01, b'x'];
    let mut pack = Vec::new();
    pack.extend_from_slice(b"PACK");
    pack.extend_from_slice(&[0, 0, 0, 2]);
    pack.extend_from_slice(&[0, 0, 0, 1]);
    pack.extend_from_slice(&entry_header(7, delta.len()));
    pack.extend_from_slice(&[0u8; 20]);
    pack.extend_from_slice(&zlib(&delta));
    let trailer = sha1(&pack);
    pack.extend_from_slice(&trailer);
    assert!(decode_pack(&pack).is_err());
}

#[test]
fn two_deltas_share_one_cached_base() {
    let base: &[u8] = b"shared base content";
    let mut delta = Vec::new();
    delta.push(base.len() as u8);
    delta.push(6u8);
    delta.push(0x90);
    delta.push(6);

    let mut pack = Vec::new();
    pack.extend_from_slice(b"PACK");
    pack.extend_from_slice(&[0, 0, 0, 2]);
    pack.extend_from_slice(&[0, 0, 0, 3]);
    let base_off = pack.len();
    pack.extend_from_slice(&entry_header(3, base.len()));
    pack.extend_from_slice(&zlib(base));
    for _ in 0..2 {
        let delta_off = pack.len();
        pack.extend_from_slice(&entry_header(6, delta.len()));
        pack.push((delta_off - base_off) as u8);
        pack.extend_from_slice(&zlib(&delta));
    }
    let trailer = sha1(&pack);
    pack.extend_from_slice(&trailer);

    let objs = decode_pack(&pack).unwrap_or_else(|_| panic!("pack refused"));
    assert_eq!(objs.len(), 3);
    assert_eq!(objs[1].data, b"shared".to_vec());
    assert_eq!(objs[2].data, b"shared".to_vec());
    // The two deltas yield the same object, so the same name.
    assert!(objs[1].id.eq_id(&objs[2].id));
}
