use std::io::Write;

use aur_mirror_meta::branches::parse_branch_list;
use aur_mirror_meta::errors::HarvestError;
use aur_mirror_meta::harvest::parse_commit_ids;
use aur_mirror_meta::wire::{build_fetch_request_body, read_packfile_from_fetch_response};

fn pkt(payload: &[u8]) -> Vec<u8> {
    let mut out = format!("{:04x}", payload.len() + 5).into_bytes();
    out.extend_from_slice(payload);
    out.push(b'\n');
    out
}

fn raw_pkt(payload: &[u8]) -> Vec<u8> {
    let mut out = format!("{:04x}", payload.len() + 4).into_bytes();
    out.extend_from_slice(payload);
    out
}

#[test]
fn fetch_body_lists_wants_between_delimiters() {
    let ids = parse_commit_ids(&vec![
        "aaaaaaaaaaaaaaaaaaaaaaaaaaaaaaaaaaaaaaaa".to_string(),
    ])
    .unwrap();
    let body = build_fetch_request_body(&ids, true);
    let mut expect = Vec::new();
    expect.extend_from_slice(&pkt(b"command=fetch"));
    expect.extend_from_slice(&pkt(b"agent=git/aur-mirror"));
    expect.extend_from_slice(b"0001");
    expect.extend_from_slice(&pkt(b"want aaaaaaaaaaaaaaaaaaaaaaaaaaaaaaaaaaaaaaaa"));
    expect.extend_from_slice(&pkt(b"ofs-delta"));
    expect.extend_from_slice(&pkt(b"deepen 1"));
    expect.extend_from_slice(&pkt(b"filter blob:none"));
    expect.extend_from_slice(&pkt(b"no-progress"));
    expect.extend_from_slice(&pkt(b"done"));
    expect.extend_from_slice(b"0000");
    assert_eq!(body, expect);
}

#[test]
fn second_phase_body_omits_shallow_and_filter() {
    let ids = parse_commit_ids(&vec![
        "bbbbbbbbbbbbbbbbbbbbbbbbbbbbbbbbbbbbbbbb".to_string(),
    ])
    .unwrap();
    let body = build_fetch_request_body(&ids, false);
    let text = String::from_utf8_lossy(&body).to_string();
    assert!(!text.contains("deepen"));
    assert!(!text.contains("filter"));
    assert!(text.contains("want bbbbbbbbbbbbbbbbbbbbbbbbbbbbbbbbbbbbbbbb"));
}

#[test]
fn acknowledgments_section_is_skipped_before_packfile() {
    let mut resp = Vec::new();
    resp.extend_from_slice(&pkt(b"acknowledgments"));
    resp.extend_from_slice(&pkt(b"NAK"));
    resp.extend_from_slice(b"0000");
    resp.extend_from_slice(&pkt(b"packfile"));
    let mut data_line = vec![1u8];
    data_line.extend_from_slice(b"PACKDATA");
    resp.extend_from_slice(&raw_pkt(&data_line));
    resp.extend_from_slice(b"0000");
    let pack = read_packfile_from_fetch_response(&resp).unwrap();
    assert_eq!(pack, b"PACKDATA".to_vec());
}

#[test]
fn sideband_error_aborts_with_message_preserved() {
    let mut resp = Vec::new();
    resp.extend_from_slice(&pkt(b"packfile"));
    let mut data_line = vec![1u8];
    data_line.extend_from_slice(b"PACK");
    resp.extend_from_slice(&raw_pkt(&data_line));
    let mut err_line = vec![3u8];
    err_line.extend_from_slice(b"ERR upload-pack: not our ref");
    resp.extend_from_slice(&raw_pkt(&err_line));
    resp.extend_from_slice(b"0000");
    match read_packfile_from_fetch_response(&resp) {
        Err(HarvestError::UpstreamError(msg)) => {
            assert_eq!(msg, b"ERR upload-pack: not our ref".to_vec());
        }
        _ => panic!("expected the upstream error to surface"),
    }
}

#[test]
fn progress_lines_are_dropped_from_pack_data() {
    let mut resp = Vec::new();
    resp.extend_from_slice(&pkt(b"packfile"));
    let mut progress = vec![2u8];
    progress.extend_from_slice(b"Counting objects");
    resp.extend_from_slice(&raw_pkt(&progress));
    let mut a = vec![1u8];
    a.extend_from_slice(b"AB");
    resp.extend_from_slice(&raw_pkt(&a));
    let mut b = vec![1u8];
    b.extend_from_slice(b"CD");
    resp.extend_from_slice(&raw_pkt(&b));
    resp.extend_from_slice(b"0000");
    let pack = read_packfile_from_fetch_response(&resp).unwrap();
    assert_eq!(pack, b"ABCD".to_vec());
}

#[test]
fn missing_packfile_section_is_reported() {
    let mut resp = Vec::new();
    resp.extend_from_slice(&pkt(b"acknowledgments"));
    resp.extend_from_slice(b"0000");
    match read_packfile_from_fetch_response(&resp) {
        Err(HarvestError::NoPackSection) => {}
        _ => panic!("expected the missing section to be reported"),
    }
}

#[test]
fn broken_framing_is_reported() {
    let resp = b"zzzz".to_vec();
    match read_packfile_from_fetch_response(&resp) {
        Err(HarvestError::WireFraming) => {}
        _ => panic!("expected a framing failure"),
    }
}

#[test]
fn branch_map_excludes_main() {
    let mut resp = Vec::new();
    resp.extend_from_slice(&pkt(b"version 2"));
    resp.extend_from_slice(&pkt(b"agent=git/upstream"));
    resp.extend_from_slice(b"0000");
    resp.extend_from_slice(&pkt(
        b"abcabcabcabcabcabcabcabcabcabcabcabcabca refs/heads/main",
    ));
    resp.extend_from_slice(&pkt(
        b"defdefdefdefdefdefdefdefdefdefdefdefdefd refs/heads/foo-pkg",
    ));
    resp.extend_from_slice(b"0000");
    let branches = parse_branch_list(&resp).unwrap();
    assert_eq!(branches.len(), 1);
    assert_eq!(branches[0].0, "foo-pkg".to_string());
    assert_eq!(
        branches[0].1,
        "defdefdefdefdefdefdefdefdefdefdefdefdefd".to_string()
    );
}

#[test]
fn branch_enumeration_is_idempotent_on_same_bytes() {
    let mut resp = Vec::new();
    resp.extend_from_slice(&pkt(b"version 2"));
    resp.extend_from_slice(b"0000");
    resp.extend_from_slice(&pkt(
        b"abcabcabcabcabcabcabcabcabcabcabcabcabca refs/heads/one",
    ));
    resp.extend_from_slice(&pkt(
        b"defdefdefdefdefdefdefdefdefdefdefdefdefd refs/heads/two",
    ));
    resp.extend_from_slice(b"0000");
    let first = parse_branch_list(&resp).unwrap();
    let second = parse_branch_list(&resp).unwrap();
    assert_eq!(first, second);
}

#[test]
fn lines_of_other_shapes_are_ignored() {
    let mut resp = Vec::new();
    resp.extend_from_slice(b"0000");
    resp.extend_from_slice(&pkt(b"not a ref line"));
    resp.extend_from_slice(&pkt(
        b"zzzzzzzzzzzzzzzzzzzzzzzzzzzzzzzzzzzzzzzz refs/heads/bad-hex",
    ));
    resp.extend_from_slice(&pkt(
        b"abcabcabcabcabcabcabcabcabcabcabcabcabca refs/tags/v1",
    ));
    resp.extend_from_slice(b"0000");
    let branches = parse_branch_list(&resp).unwrap();
    assert_eq!(branches.len(), 0);
}

#[test]
fn response_to_records_end_to_end() {
    // A fetch response whose packfile section carries a real pack holding
    // one commit, its tree and its `.SRCINFO` blob, split over two
    // channel-1 lines; the harvest yields that blob's text.
    let zlib = |data: &[u8]| {
        let mut enc = flate2::write::ZlibEncoder::new(Vec::new(), flate2::Compression::default());
        enc.write_all(data).unwrap();
        enc.finish().unwrap()
    };
    let object_id = |kind: gix_object::Kind, data: &[u8]| {
        gix_object::compute_hash(gix_hash::Kind::Sha1, kind, data)
            .unwrap()
            .as_slice()
            .to_vec()
    };
    let hex = |bytes: &[u8]| {
        let mut s = String::new();
        for b in bytes {
            s.push_str(&format!("{:02x}", b));
        }
        s
    };

    let blob: &[u8] = b"pkgname = foo\nversion = 1\n";
    let blob_id = object_id(gix_object::Kind::Blob, blob);
    let mut tree = Vec::new();
    tree.extend_from_slice(b"100644 .SRCINFO\0");
    tree.extend_from_slice(&blob_id);
    let tree_id = object_id(gix_object::Kind::Tree, &tree);
    let commit = format!(
        "tree {}\ncommitter C <c@example.org> 42 +0000\n\nm\n",
        hex(&tree_id)
    );
    let commit_id = object_id(gix_object::Kind::Commit, commit.as_bytes());

    let mut pack = Vec::new();
    pack.extend_from_slice(b"PACK");
    pack.extend_from_slice(&[0, 0, 0, 2]);
    pack.extend_from_slice(&[0, 0, 0, 3]);
    for (kind, body) in [
        (1u8, commit.as_bytes().to_vec()),
        (2u8, tree.clone()),
        (3u8, blob.to_vec()),
    ] {
        let mut header = Vec::new();
        let mut first = (kind << 4) | ((body.len() & 0x0f) as u8);
        let mut rest = body.len() >> 4;
        while rest > 0 {
            header.push(first | 0x80);
            first = (rest & 0x7f) as u8;
            rest >>= 7;
        }
        header.push(first);
        pack.extend_from_slice(&header);
        pack.extend_from_slice(&zlib(&body));
    }
    let mut h = gix_hash::hasher(gix_hash::Kind::Sha1);
    h.update(&pack);
    let trailer = h.try_finalize().unwrap().as_slice().to_vec();
    pack.extend_from_slice(&trailer);

    let mut resp = Vec::new();
    resp.extend_from_slice(&pkt(b"acknowledgments"));
    resp.extend_from_slice(&pkt(b"NAK"));
    resp.extend_from_slice(b"0000");
    resp.extend_from_slice(&pkt(b"packfile"));
    let mid = pack.len() / 2;
    for part in [&pack[..mid], &pack[mid..]] {
        let mut line = vec![1u8];
        line.extend_from_slice(part);
        resp.extend_from_slice(&raw_pkt(&line));
    }
    resp.extend_from_slice(b"0000");

    let received = read_packfile_from_fetch_response(&resp).unwrap();
    assert_eq!(received, pack);
    let objs = aur_mirror_meta::pack::decode_pack(&received)
        .unwrap_or_else(|_| panic!("pack refused"));
    let commits =
        aur_mirror_meta::objects::map_commit_id_to_srcinfo_blob_id_and_timestamp(&objs)
            .unwrap_or_else(|_| panic!("extraction refused"));
    let blobs = aur_mirror_meta::objects::map_blob_id_to_content(&objs);
    let ids = parse_commit_ids(&vec![hex(&commit_id)]).unwrap();
    let batch = aur_mirror_meta::harvest::fetch_srcinfo_batch(&ids, &commits, blobs);
    let rec = batch[0].as_ref().unwrap();
    assert_eq!(rec.srcinfo_text.as_bytes(), blob);
    assert_eq!(rec.committed_at, 42);
}

#[test]
fn pack_section_without_closing_flush_is_corrupt() {
    let mut resp = Vec::new();
    resp.extend_from_slice(&pkt(b"packfile"));
    let mut data_line = vec![1u8];
    data_line.extend_from_slice(b"PACKDATA");
    resp.extend_from_slice(&raw_pkt(&data_line));
    // The stream ends without the section's flush.
    match read_packfile_from_fetch_response(&resp) {
        Err(HarvestError::WireFraming) => {}
        _ => panic!("expected truncation to surface as framing corruption"),
    }
}

#[test]
fn broken_advertisement_framing_is_fatal() {
    let mut resp = Vec::new();
    resp.extend_from_slice(&pkt(b"version 2"));
    resp.extend_from_slice(b"zz");
    match parse_branch_list(&resp) {
        Err(HarvestError::WireFraming) => {}
        _ => panic!("expected a framing failure"),
    }
}
