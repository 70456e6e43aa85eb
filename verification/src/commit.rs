use vstd::prelude::*;
use crate::bytes::push_bytes;
use crate::num::{spec_dec, u64_to_dec};

verus! {

/// Who made a commit: a display name and an address. Both pass through
/// as raw bytes; no encoding is enforced or repaired here.
pub struct Identity {
    pub name: Vec<u8>,
    pub email: Vec<u8>,
}

/// Everything a commit is made of: the tree, an optional parent, who
/// wrote and who committed, when (seconds since the epoch, and the
/// local offset from UTC in seconds), and the message.
pub struct CommitInfo {
    pub tree_hex: Vec<u8>,
    pub parent_hex: Option<Vec<u8>>,
    pub author: Identity,
    pub committer: Identity,
    pub timestamp: i64,
    pub tz_offset_secs: i32,
    pub message: Vec<u8>,
}

/// The decimal rendering of a signed number.
pub open spec fn spec_dec_i64(n: int) -> Seq<u8> {
    if n >= 0 {
        spec_dec(n as nat)
    } else {
        seq![45u8] + spec_dec((-n) as nat)
    }
}

/// A number below one hundred, as exactly two digits.
pub open spec fn spec_two_digits(n: nat) -> Seq<u8> {
    if n < 10 {
        seq![48u8] + spec_dec(n)
    } else {
        spec_dec(n)
    }
}

/// A UTC offset as sign, two hour digits and two minute digits.
pub open spec fn spec_tz(off: int) -> Seq<u8> {
    let sign: u8 = if off >= 0 { 43u8 } else { 45u8 };
    let abs = if off >= 0 { off } else { -off };
    seq![sign] + spec_two_digits((abs / 3600) as nat) + spec_two_digits(
    ((abs % 3600) / 60) as nat)
}

/// One identity line: tag, name, `<`, address, `>`, time, offset.
pub open spec fn spec_ident_line(tag: Seq<u8>, who: Identity, ts: int, off: int) -> Seq<u8> {
    tag + seq![32u8] + who.name@ + seq![32u8, 60u8] + who.email@ + seq![62u8, 32u8]
        + spec_dec_i64(ts) + seq![32u8] + spec_tz(off) + seq![10u8]
}

/// The word `author`.
pub open spec fn author_tag() -> Seq<u8> {
    seq![97u8, 117u8, 116u8, 104u8, 111u8, 114u8]
}

/// The word `committer`.
pub open spec fn committer_tag() -> Seq<u8> {
    seq![99u8, 111u8, 109u8, 109u8, 105u8, 116u8, 116u8, 101u8, 114u8]
}

/// The whole commit payload: the tree line, the parent line when there
/// is a parent, the author and committer lines, a blank line, and the
/// message with a final newline.
pub open spec fn spec_commit_payload(c: CommitInfo) -> Seq<u8> {
    let tree_line = seq![116u8, 114u8, 101u8, 101u8, 32u8] + c.tree_hex@ + seq![10u8];
    let parent_line = match c.parent_hex {
        Some(p) => seq![112u8, 97u8, 114u8, 101u8, 110u8, 116u8, 32u8] + p@ + seq![10u8],
        None => Seq::<u8>::empty(),
    };
    tree_line + parent_line + spec_ident_line(
        author_tag(),
        c.author,
        c.timestamp as int,
        c.tz_offset_secs as int,
    ) + spec_ident_line(
        committer_tag(),
        c.committer,
        c.timestamp as int,
        c.tz_offset_secs as int,
    ) + seq![10u8] + c.message@ + seq![10u8]
}

/// Push a signed number's decimal rendering.
fn push_dec_i64(v: &mut Vec<u8>, n: i64)
    ensures
        final(v)@ == old(v)@ + spec_dec_i64(n as int),
{
    if n >= 0 {
        let d = u64_to_dec(n as u64);
        push_bytes(v, d.as_slice());
    } else {
        v.push(45);
        let mag: u64 = ((-(n + 1)) as u64) + 1;
        proof {
            assert(mag == -(n as int));
        }
        let d = u64_to_dec(mag);
        push_bytes(v, d.as_slice());
        proof {
            assert(old(v)@ + seq![45u8] + spec_dec(mag as nat) =~= old(v)@ + spec_dec_i64(
            n as int));
        }
    }
}

/// Push a number below one hundred as exactly two digits.
fn push_two_digits(v: &mut Vec<u8>, n: u64)
    requires
        n < 100,
    ensures
        final(v)@ == old(v)@ + spec_two_digits(n as nat),
{
    if n < 10 {
        v.push(48);
        let d = u64_to_dec(n);
        push_bytes(v, d.as_slice());
        proof {
            assert(old(v)@ + seq![48u8] + spec_dec(n as nat) =~= old(v)@ + spec_two_digits(
            n as nat));
        }
    } else {
        let d = u64_to_dec(n);
        push_bytes(v, d.as_slice());
    }
}

/// Push a UTC offset as sign and four digits.
fn push_tz(v: &mut Vec<u8>, off: i32)
    requires
        -359999 <= off <= 359999,
    ensures
        final(v)@ == old(v)@ + spec_tz(off as int),
{
    let ghost before = v@;
    let abs: u64;
    if off >= 0 {
        v.push(43);
        abs = off as u64;
    } else {
        v.push(45);
        abs = (-(off as i64)) as u64;
    }
    proof {
        assert(abs == if off >= 0 { off as int } else { -(off as int) });
    }
    push_two_digits(v, abs / 3600);
    push_two_digits(v, (abs % 3600) / 60);
    proof {
        assert(v@ =~= before + spec_tz(off as int));
    }
}

/// Push one identity line.
fn push_ident_line(v: &mut Vec<u8>, tag: &[u8], who: &Identity, ts: i64, off: i32)
    requires
        -359999 <= off <= 359999,
    ensures
        final(v)@ == old(v)@ + spec_ident_line(tag@, *who, ts as int, off as int),
{
    let ghost before = v@;
    push_bytes(v, tag);
    v.push(32);
    push_bytes(v, who.name.as_slice());
    v.push(32);
    v.push(60);
    push_bytes(v, who.email.as_slice());
    v.push(62);
    v.push(32);
    push_dec_i64(v, ts);
    v.push(32);
    push_tz(v, off);
    v.push(10);
    proof {
        assert(v@ =~= before + spec_ident_line(tag@, *who, ts as int, off as int));
    }
}

/// Render the commit payload, byte for byte.
pub fn commit_payload(c: &CommitInfo) -> (r: Vec<u8>)
    requires
        -359999 <= c.tz_offset_secs <= 359999,
    ensures
        r@ == spec_commit_payload(*c),
{
    let mut v: Vec<u8> = Vec::new();
    v.push(116);
    v.push(114);
    v.push(101);
    v.push(101);
    v.push(32);
    push_bytes(&mut v, c.tree_hex.as_slice());
    v.push(10);
    match &c.parent_hex {
        Some(p) => {
            v.push(112);
            v.push(97);
            v.push(114);
            v.push(101);
            v.push(110);
            v.push(116);
            v.push(32);
            push_bytes(&mut v, p.as_slice());
            v.push(10);
        },
        None => {},
    }
    let author_word: [u8; 6] = [97, 117, 116, 104, 111, 114];
    let committer_word: [u8; 9] = [99, 111, 109, 109, 105, 116, 116, 101, 114];
    proof {
        assert(author_word@ =~= author_tag());
        assert(committer_word@ =~= committer_tag());
    }
    push_ident_line(&mut v, author_word.as_slice(), &c.author, c.timestamp, c.tz_offset_secs);
    push_ident_line(
        &mut v,
        committer_word.as_slice(),
        &c.committer,
        c.timestamp,
        c.tz_offset_secs,
    );
    v.push(10);
    push_bytes(&mut v, c.message.as_slice());
    v.push(10);
    proof {
        assert(v@ =~= spec_commit_payload(*c));
    }
    v
}

} // verus!
