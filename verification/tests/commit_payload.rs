use loose_objects::codec::{decode_object, encode_object};
use loose_objects::commit::{commit_payload, CommitInfo, Identity};
use loose_objects::kind::Kind;

fn ident(name: &[u8], email: &[u8]) -> Identity {
    Identity { name: name.to_vec(), email: email.to_vec() }
}

#[test]
fn commit_payload_renders_exactly() {
    let info = CommitInfo {
        tree_hex: b"4b825dc642cb6eb9a060e54bf8d69288fbee4904".to_vec(),
        parent_hex: None,
        author: ident(b"Ada", b"ada@example.com"),
        committer: ident(b"Bob", b"bob@example.com"),
        timestamp: 1700000000,
        tz_offset_secs: 3600,
        message: b"first".to_vec(),
    };
    let payload = commit_payload(&info);
    let expected = b"tree 4b825dc642cb6eb9a060e54bf8d69288fbee4904\n\
author Ada <ada@example.com> 1700000000 +0100\n\
committer Bob <bob@example.com> 1700000000 +0100\n\
\n\
first\n";
    assert_eq!(payload, expected.to_vec());
}

#[test]
fn commit_payload_with_parent_and_negative_offset() {
    let info = CommitInfo {
        tree_hex: b"4b825dc642cb6eb9a060e54bf8d69288fbee4904".to_vec(),
        parent_hex: Some(b"e69de29bb2d1d6434b8b29ae775ad8c2e48c5391".to_vec()),
        author: ident(b"Ada", b"ada@example.com"),
        committer: ident(b"Ada", b"ada@example.com"),
        timestamp: -5,
        tz_offset_secs: -1800,
        message: b"older than the epoch\n".to_vec(),
    };
    let payload = commit_payload(&info);
    let expected = b"tree 4b825dc642cb6eb9a060e54bf8d69288fbee4904\n\
parent e69de29bb2d1d6434b8b29ae775ad8c2e48c5391\n\
author Ada <ada@example.com> -5 -0030\n\
committer Ada <ada@example.com> -5 -0030\n\
\n\
older than the epoch\n\n";
    assert_eq!(payload, expected.to_vec());
}

#[test]
fn commit_object_round_trips() {
    let info = CommitInfo {
        tree_hex: b"4b825dc642cb6eb9a060e54bf8d69288fbee4904".to_vec(),
        parent_hex: None,
        author: ident(b"Ada", b"ada@example.com"),
        committer: ident(b"Ada", b"ada@example.com"),
        timestamp: 0,
        tz_offset_secs: 0,
        message: b"hello".to_vec(),
    };
    let payload = commit_payload(&info);
    let enc = encode_object(Kind::Commit, &payload);
    let decoded = decode_object(&enc.stored).unwrap();
    assert_eq!(decoded.kind, Kind::Commit);
    assert_eq!(decoded.content, payload);
}
