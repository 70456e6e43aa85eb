use loose_objects::codec::encode_object;
use loose_objects::kind::Kind;
use loose_objects::store::{hex_rel_path, object_rel_dir, object_rel_path, temp_rel_path};

#[test]
fn object_path_splits_hex_after_two_digits() {
    let enc = encode_object(Kind::Blob, b"");
    let path = object_rel_path(&enc.id);
    assert_eq!(path, b"objects/e6/9de29bb2d1d6434b8b29ae775ad8c2e48c5391".to_vec());
    let dir = object_rel_dir(&enc.id);
    assert_eq!(dir, b"objects/e6".to_vec());
}

#[test]
fn displayed_address_maps_to_the_same_path() {
    let hex_id = b"e69de29bb2d1d6434b8b29ae775ad8c2e48c5391";
    let path = hex_rel_path(hex_id).unwrap();
    assert_eq!(path, b"objects/e6/9de29bb2d1d6434b8b29ae775ad8c2e48c5391".to_vec());
}

#[test]
fn malformed_addresses_are_rejected() {
    assert!(hex_rel_path(b"e69de2").is_none());
    assert!(hex_rel_path(b"E69DE29BB2D1D6434B8B29AE775AD8C2E48C5391").is_none());
    assert!(hex_rel_path(b"e69de29bb2d1d6434b8b29ae775ad8c2e48c539z").is_none());
}

#[test]
fn writers_with_different_tokens_get_different_temp_files() {
    let one = temp_rel_path(b"pid-1000-7");
    let two = temp_rel_path(b"pid-1001-7");
    assert_eq!(one, b"objects/tmp-pid-1000-7".to_vec());
    assert_ne!(one, two);
}

#[test]
fn identical_content_from_two_writers_shares_one_final_path() {
    let a = encode_object(Kind::Blob, b"same blob\n");
    let b = encode_object(Kind::Blob, b"same blob\n");
    assert_eq!(a.id, b.id);
    assert_eq!(object_rel_path(&a.id), object_rel_path(&b.id));
    assert_eq!(a.stored.is_empty(), false);
}
