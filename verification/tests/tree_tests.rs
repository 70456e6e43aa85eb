use loose_objects::codec::{decode_object, encode_object};
use loose_objects::kind::Kind;
use loose_objects::tree::{
    build_tree, entry_le, parse_tree, serialize_entries, tree_entries_of, FsChild, FsNode,
    TreeEntry, TreeError,
};

fn entry(mode: &[u8], name: &[u8], id_byte: u8) -> TreeEntry {
    TreeEntry { mode: mode.to_vec(), name: name.to_vec(), id: vec![id_byte; 20] }
}

fn file(content: &[u8]) -> FsNode {
    FsNode::File { content: content.to_vec(), executable: false }
}

fn child(name: &[u8], node: FsNode) -> FsChild {
    FsChild { name: name.to_vec(), node }
}

#[test]
fn short_file_name_sorts_before_its_extension() {
    // plain files compare byte-wise: a strict prefix sorts first
    let a = entry(b"100644", b"a", 1);
    let ab = entry(b"100644", b"ab", 2);
    assert!(entry_le(&a, &ab));
    assert!(!entry_le(&ab, &a));
}

#[test]
fn directory_orders_as_if_slash_followed() {
    // "a" as a directory keys as "a/"; since '.' < '/', "a.txt" comes first
    let dir_a = entry(b"40000", b"a", 1);
    let a_txt = entry(b"100644", b"a.txt", 2);
    assert!(entry_le(&a_txt, &dir_a));
    assert!(!entry_le(&dir_a, &a_txt));
    // and a plain file "a" still comes before the directory "a0"
    let file_a = entry(b"100644", b"a", 3);
    let dir_a0 = entry(b"40000", b"a0", 4);
    assert!(entry_le(&file_a, &dir_a0));
}

#[test]
fn empty_directory_yields_no_object() {
    let root = FsNode::Dir { entries: vec![] };
    assert!(build_tree(&root).is_none());
}

#[test]
fn recursively_empty_directories_yield_no_object() {
    let inner = FsNode::Dir { entries: vec![] };
    let mid = FsNode::Dir { entries: vec![child(b"inner", inner)] };
    let root = FsNode::Dir {
        entries: vec![
            child(b"mid", mid),
            child(b".git", file(b"excluded even as a file")),
        ],
    };
    assert!(build_tree(&root).is_none());
}

#[test]
fn single_file_tree_has_expected_entry() {
    let root = FsNode::Dir { entries: vec![child(b"f", file(b"hi\n"))] };
    let built = build_tree(&root).unwrap();
    let blob = encode_object(Kind::Blob, b"hi\n");

    // the root tree object is stored under the returned address
    let tree_obj = built.objects.iter().find(|o| o.id == built.root).unwrap();
    let decoded = decode_object(&tree_obj.stored).unwrap();
    assert_eq!(decoded.kind, Kind::Tree);
    let entries = tree_entries_of(&decoded).unwrap();
    assert_eq!(entries.len(), 1);
    assert_eq!(entries[0].mode, b"100644".to_vec());
    assert_eq!(entries[0].name, b"f".to_vec());
    assert_eq!(entries[0].id, blob.id);
}

#[test]
fn reader_recovers_what_the_builder_wrote() {
    // children deliberately out of order; one excluded .git directory
    let sub = FsNode::Dir {
        entries: vec![child(
            b"x",
            FsNode::File { content: b"#!/bin/sh\n".to_vec(), executable: true },
        )],
    };
    let root = FsNode::Dir {
        entries: vec![
            child(b"ln", FsNode::Symlink { target: b"a/x".to_vec() }),
            child(b"b", file(b"bee\n")),
            child(b".git", FsNode::Dir { entries: vec![child(b"junk", file(b"zzz"))] }),
            child(b"a", sub),
        ],
    };
    let built = build_tree(&root).unwrap();
    let tree_obj = built.objects.iter().find(|o| o.id == built.root).unwrap();
    let decoded = decode_object(&tree_obj.stored).unwrap();
    let entries = tree_entries_of(&decoded).unwrap();

    // canonical order: "a" (directory), then "b", then "ln"
    let names: Vec<Vec<u8>> = entries.iter().map(|e| e.name.clone()).collect();
    assert_eq!(names, vec![b"a".to_vec(), b"b".to_vec(), b"ln".to_vec()]);
    assert_eq!(entries[0].mode, b"40000".to_vec());
    assert_eq!(entries[1].mode, b"100644".to_vec());
    assert_eq!(entries[2].mode, b"120000".to_vec());
    assert_eq!(entries[1].id, encode_object(Kind::Blob, b"bee\n").id);
    assert_eq!(entries[2].id, encode_object(Kind::Blob, b"a/x").id);

    // the subtree entry references the stored subtree object
    let sub_obj = built.objects.iter().find(|o| o.id == entries[0].id).unwrap();
    let sub_decoded = decode_object(&sub_obj.stored).unwrap();
    let sub_entries = tree_entries_of(&sub_decoded).unwrap();
    assert_eq!(sub_entries.len(), 1);
    assert_eq!(sub_entries[0].mode, b"100755".to_vec());
    assert_eq!(sub_entries[0].name, b"x".to_vec());

    // serializing the parsed entries reproduces the payload byte for byte
    assert_eq!(serialize_entries(&entries), decoded.content);
}

#[test]
fn parse_of_serialized_entries_is_identity() {
    let entries = vec![
        entry(b"100644", b"name with spaces", 7),
        entry(b"40000", b"d", 9),
    ];
    let payload = serialize_entries(&entries);
    let parsed = parse_tree(&payload).unwrap();
    assert_eq!(parsed, entries);
}

#[test]
fn truncated_entry_is_reported() {
    let mut payload = serialize_entries(&vec![entry(b"100644", b"f", 3)]);
    payload.extend_from_slice(b"100644 g\0shorthash");
    assert_eq!(parse_tree(&payload), Err(TreeError::Truncated));
}

#[test]
fn entry_without_space_is_reported() {
    let mut payload = b"100644f\0".to_vec();
    payload.extend_from_slice(&[9u8; 20]);
    assert_eq!(parse_tree(&payload), Err(TreeError::NoName));
}

#[test]
fn listing_a_blob_as_a_tree_is_a_usage_error() {
    let enc = encode_object(Kind::Blob, b"hi\n");
    let obj = decode_object(&enc.stored).unwrap();
    assert_eq!(tree_entries_of(&obj), Err(TreeError::NotATree));
}
