use loose_objects::codec::{decode_object, encode_object, DecodeError};
use loose_objects::kind::Kind;
use sha1::{Digest, Sha1};
use std::io::Write;

fn compress(data: &[u8]) -> Vec<u8> {
    let mut enc = flate2::write::ZlibEncoder::new(Vec::new(), flate2::Compression::default());
    enc.write_all(data).unwrap();
    enc.finish().unwrap()
}

#[test]
fn round_trip_blob() {
    let payload = b"hi\n";
    let enc = encode_object(Kind::Blob, payload);
    let obj = decode_object(&enc.stored).unwrap();
    assert_eq!(obj.kind, Kind::Blob);
    assert_eq!(obj.content, payload.to_vec());
}

#[test]
fn round_trip_binary_payloads() {
    let payload: Vec<u8> = vec![0, 32, 255, 0, 10, 13, 7];
    for kind in [Kind::Blob, Kind::Tree, Kind::Commit] {
        let enc = encode_object(kind, &payload);
        let obj = decode_object(&enc.stored).unwrap();
        assert_eq!(obj.kind, kind);
        assert_eq!(obj.content, payload);
    }
}

#[test]
fn round_trip_empty_payload() {
    let enc = encode_object(Kind::Commit, b"");
    let obj = decode_object(&enc.stored).unwrap();
    assert_eq!(obj.kind, Kind::Commit);
    assert_eq!(obj.content, Vec::<u8>::new());
}

#[test]
fn address_is_deterministic() {
    let a = encode_object(Kind::Blob, b"same bytes");
    let b = encode_object(Kind::Blob, b"same bytes");
    assert_eq!(a.id, b.id);
}

#[test]
fn empty_blob_has_known_address() {
    let enc = encode_object(Kind::Blob, b"");
    assert_eq!(hex::encode(&enc.id), "e69de29bb2d1d6434b8b29ae775ad8c2e48c5391");
}

#[test]
fn empty_tree_has_known_address() {
    let enc = encode_object(Kind::Tree, b"");
    assert_eq!(hex::encode(&enc.id), "4b825dc642cb6eb9a060e54bf8d69288fbee4904");
}

#[test]
fn address_is_sha1_of_framed_bytes() {
    let enc = encode_object(Kind::Blob, b"hi\n");
    let expected = Sha1::digest(b"blob 3\0hi\n").to_vec();
    assert_eq!(enc.id, expected);
}

#[test]
fn not_zlib_is_corrupt() {
    assert_eq!(decode_object(b"this is not a zlib stream"), Err(DecodeError::Corrupt));
}

#[test]
fn header_without_nul_is_missing_header() {
    let stored = compress(b"blob 3");
    assert_eq!(decode_object(&stored), Err(DecodeError::MissingHeader));
}

#[test]
fn header_without_space_is_missing_header() {
    let stored = compress(b"blob3\0abc");
    assert_eq!(decode_object(&stored), Err(DecodeError::MissingHeader));
}

#[test]
fn unknown_kind_is_its_own_error() {
    let stored = compress(b"blobby 3\0abc");
    assert_eq!(decode_object(&stored), Err(DecodeError::UnknownKind));
}

#[test]
fn non_numeric_size_is_its_own_error() {
    let stored = compress(b"blob 3x\0abc");
    assert_eq!(decode_object(&stored), Err(DecodeError::BadSize));
}

#[test]
fn empty_size_is_bad_size() {
    let stored = compress(b"blob \0abc");
    assert_eq!(decode_object(&stored), Err(DecodeError::BadSize));
}

#[test]
fn size_beyond_u64_is_bad_size() {
    let stored = compress(b"blob 18446744073709551616\0hi");
    assert_eq!(decode_object(&stored), Err(DecodeError::BadSize));
}

#[test]
fn huge_declared_size_is_size_mismatch() {
    let stored = compress(b"blob 18446744073709551615\0hi");
    assert_eq!(decode_object(&stored), Err(DecodeError::SizeMismatch));
}

#[test]
fn declared_size_beyond_data_is_size_mismatch() {
    let stored = compress(b"blob 5\0hi");
    assert_eq!(decode_object(&stored), Err(DecodeError::SizeMismatch));
}

#[test]
fn content_is_truncated_at_declared_size() {
    let stored = compress(b"blob 2\0hiXX");
    let obj = decode_object(&stored).unwrap();
    assert_eq!(obj.content, b"hi".to_vec());
}

#[test]
fn decode_accepts_independent_compression() {
    let stored = compress(b"commit 4\0wait");
    let obj = decode_object(&stored).unwrap();
    assert_eq!(obj.kind, Kind::Commit);
    assert_eq!(obj.content, b"wait".to_vec());
}
