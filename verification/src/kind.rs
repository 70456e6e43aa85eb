use vstd::prelude::*;
use crate::bytes::bytes_eq;

verus! {

/// The three kinds of loose object. They share only the header framing;
/// every consumer matches on the kind exhaustively.
#[derive(Clone, Copy, PartialEq, Eq, Structural, Debug)]
pub enum Kind {
    Blob,
    Tree,
    Commit,
}

/// The name of a kind as it appears in an object header: `blob`, `tree`
/// or `commit`, as ASCII bytes.
pub open spec fn spec_kind_name(k: Kind) -> Seq<u8> {
    match k {
        Kind::Blob => seq![98u8, 108u8, 111u8, 98u8],
        Kind::Tree => seq![116u8, 114u8, 101u8, 101u8],
        Kind::Commit => seq![99u8, 111u8, 109u8, 109u8, 105u8, 116u8],
    }
}

/// Which kind, if any, a byte string names.
pub open spec fn spec_parse_kind(s: Seq<u8>) -> Option<Kind> {
    if s == spec_kind_name(Kind::Blob) {
        Some(Kind::Blob)
    } else if s == spec_kind_name(Kind::Tree) {
        Some(Kind::Tree)
    } else if s == spec_kind_name(Kind::Commit) {
        Some(Kind::Commit)
    } else {
        None
    }
}

/// Parsing a kind's own name gives that kind back.
pub proof fn lemma_kind_name_round_trip(k: Kind)
    ensures
        spec_parse_kind(spec_kind_name(k)) == Some(k),
{
    match k {
        Kind::Blob => {
            assert(spec_kind_name(Kind::Blob) != spec_kind_name(Kind::Tree));
        },
        Kind::Tree => {
            assert(spec_kind_name(Kind::Tree) != spec_kind_name(Kind::Blob));
        },
        Kind::Commit => {
            assert(spec_kind_name(Kind::Commit) != spec_kind_name(Kind::Blob));
            assert(spec_kind_name(Kind::Commit) != spec_kind_name(Kind::Tree));
        },
    }
}

/// The kind's name, as bytes.
pub fn kind_name(k: Kind) -> (r: Vec<u8>)
    ensures
        r@ == spec_kind_name(k),
{
    let mut v: Vec<u8> = Vec::new();
    match k {
        Kind::Blob => {
            v.push(98);
            v.push(108);
            v.push(111);
            v.push(98);
        },
        Kind::Tree => {
            v.push(116);
            v.push(114);
            v.push(101);
            v.push(101);
        },
        Kind::Commit => {
            v.push(99);
            v.push(111);
            v.push(109);
            v.push(109);
            v.push(105);
            v.push(116);
        },
    }
    proof {
        assert(v@ =~= spec_kind_name(k));
    }
    v
}

/// The kind a byte string names, if any.
pub fn parse_kind(s: &[u8]) -> (r: Option<Kind>)
    ensures
        r == spec_parse_kind(s@),
{
    let blob = kind_name(Kind::Blob);
    let tree = kind_name(Kind::Tree);
    let commit = kind_name(Kind::Commit);
    if bytes_eq(s, blob.as_slice()) {
        Some(Kind::Blob)
    } else if bytes_eq(s, tree.as_slice()) {
        Some(Kind::Tree)
    } else if bytes_eq(s, commit.as_slice()) {
        Some(Kind::Commit)
    } else {
        None
    }
}

} // verus!
