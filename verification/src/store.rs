use vstd::prelude::*;
use crate::addr::{hex_bytes, lemma_hex_len, spec_hex};
use crate::bytes::push_bytes;
use vstd::slice::slice_subrange;

verus! {

/// The store-relative prefix of every object path: `objects/`.
pub open spec fn objects_prefix() -> Seq<u8> {
    seq![111u8, 98u8, 106u8, 101u8, 99u8, 116u8, 115u8, 47u8]
}

/// The store-relative prefix of every writer-private temporary file:
/// `objects/tmp-`.
pub open spec fn temp_prefix() -> Seq<u8> {
    objects_prefix() + seq![116u8, 109u8, 112u8, 45u8]
}

/// The store-relative path of the object with the given raw address:
/// `objects/`, the first two hex digits, `/`, the other thirty-eight.
pub open spec fn spec_object_rel_path(id: Seq<u8>) -> Seq<u8> {
    objects_prefix() + spec_hex(id).take(2) + seq![47u8] + spec_hex(id).skip(2)
}

/// The store-relative directory the object's path lies in.
pub open spec fn spec_object_rel_dir(id: Seq<u8>) -> Seq<u8> {
    objects_prefix() + spec_hex(id).take(2)
}

/// Push the eight bytes of `objects/`.
fn push_objects_prefix(v: &mut Vec<u8>)
    ensures
        final(v)@ == old(v)@ + objects_prefix(),
{
    let ghost before = v@;
    v.push(111);
    v.push(98);
    v.push(106);
    v.push(101);
    v.push(99);
    v.push(116);
    v.push(115);
    v.push(47);
    proof {
        assert(v@ =~= before + objects_prefix());
    }
}

/// The store-relative path of an object, from its raw 20-byte address.
pub fn object_rel_path(id: &[u8]) -> (r: Vec<u8>)
    requires
        id@.len() == 20,
    ensures
        r@ == spec_object_rel_path(id@),
{
    let h = hex_bytes(id);
    proof {
        lemma_hex_len(id@);
    }
    let mut v: Vec<u8> = Vec::new();
    push_objects_prefix(&mut v);
    push_bytes(&mut v, slice_subrange(h.as_slice(), 0, 2));
    v.push(47);
    push_bytes(&mut v, slice_subrange(h.as_slice(), 2, 40));
    proof {
        assert(h@.subrange(0, 2) =~= spec_hex(id@).take(2));
        assert(h@.subrange(2, 40) =~= spec_hex(id@).skip(2));
        assert(v@ =~= spec_object_rel_path(id@));
    }
    v
}

/// The store-relative directory of an object's path, from its address.
pub fn object_rel_dir(id: &[u8]) -> (r: Vec<u8>)
    requires
        id@.len() == 20,
    ensures
        r@ == spec_object_rel_dir(id@),
{
    let h = hex_bytes(id);
    proof {
        lemma_hex_len(id@);
    }
    let mut v: Vec<u8> = Vec::new();
    push_objects_prefix(&mut v);
    push_bytes(&mut v, slice_subrange(h.as_slice(), 0, 2));
    proof {
        assert(h@.subrange(0, 2) =~= spec_hex(id@).take(2));
        assert(v@ =~= spec_object_rel_dir(id@));
    }
    v
}

/// A lowercase hex digit.
pub open spec fn spec_is_hex_digit(b: u8) -> bool {
    (48 <= b <= 57) || (97 <= b <= 102)
}

/// A displayed address: exactly forty lowercase hex digits.
pub open spec fn spec_is_hex_id(s: Seq<u8>) -> bool {
    s.len() == 40 && forall|i: int| 0 <= i < 40 ==> spec_is_hex_digit(#[trigger] s[i])
}

/// The store-relative path for a displayed address, or nothing when the
/// text is no forty-digit lowercase hex address at all.
pub fn hex_rel_path(h: &[u8]) -> (r: Option<Vec<u8>>)
    ensures
        r is Some <==> spec_is_hex_id(h@),
        r matches Some(v) ==> v@ == objects_prefix() + h@.take(2) + seq![47u8] + h@.skip(2),
{
    if h.len() != 40 {
        return None;
    }
    let mut i: usize = 0;
    while i < 40
        invariant
            h@.len() == 40,
            i <= 40,
            forall|j: int| 0 <= j < i ==> spec_is_hex_digit(#[trigger] h@[j]),
        decreases 40 - i,
    {
        let b = h[i];
        if !((48 <= b && b <= 57) || (97 <= b && b <= 102)) {
            return None;
        }
        i = i + 1;
    }
    let mut v: Vec<u8> = Vec::new();
    push_objects_prefix(&mut v);
    push_bytes(&mut v, slice_subrange(h, 0, 2));
    v.push(47);
    push_bytes(&mut v, slice_subrange(h, 2, 40));
    proof {
        assert(h@.subrange(0, 2) =~= h@.take(2));
        assert(h@.subrange(2, 40) =~= h@.skip(2));
        assert(v@ =~= objects_prefix() + h@.take(2) + seq![47u8] + h@.skip(2));
    }
    Some(v)
}

/// The store-relative path of a writer's private temporary file, from
/// the writer's own token.
pub fn temp_rel_path(token: &[u8]) -> (r: Vec<u8>)
    ensures
        r@ == temp_prefix() + token@,
{
    let mut v: Vec<u8> = Vec::new();
    push_objects_prefix(&mut v);
    v.push(116);
    v.push(109);
    v.push(112);
    v.push(45);
    push_bytes(&mut v, token);
    proof {
        assert(v@ =~= temp_prefix() + token@);
    }
    v
}

/// Writers with different tokens never share a temporary file: their
/// temporary paths differ.
pub proof fn lemma_temp_paths_distinct(t1: Seq<u8>, t2: Seq<u8>)
    requires
        t1 != t2,
    ensures
        temp_prefix() + t1 != temp_prefix() + t2,
{
    assert((temp_prefix() + t1).skip(12) =~= t1);
    assert((temp_prefix() + t2).skip(12) =~= t2);
}

/// Hex digits of distinct values below sixteen differ.
proof fn lemma_hex_digit_injective(a: u8, b: u8)
    requires
        a < 16,
        b < 16,
        crate::addr::spec_hex_digit(a) == crate::addr::spec_hex_digit(b),
    ensures
        a == b,
{
}

/// The hex rendering loses nothing: distinct byte strings render to
/// distinct hex strings.
proof fn lemma_hex_injective(a: Seq<u8>, b: Seq<u8>)
    requires
        spec_hex(a) == spec_hex(b),
        a.len() == b.len(),
    ensures
        a == b,
    decreases a.len(),
{
    if a.len() == 0 {
        assert(a =~= b);
    } else {
        assert(spec_hex(a)[0] == crate::addr::spec_hex_digit(a[0] / 16));
        assert(spec_hex(a)[1] == crate::addr::spec_hex_digit(a[0] % 16));
        assert(spec_hex(b)[0] == crate::addr::spec_hex_digit(b[0] / 16));
        assert(spec_hex(b)[1] == crate::addr::spec_hex_digit(b[0] % 16));
        lemma_hex_digit_injective(a[0] / 16, b[0] / 16);
        lemma_hex_digit_injective(a[0] % 16, b[0] % 16);
        assert(a[0] == b[0]);
        lemma_hex_len(a.drop_first());
        lemma_hex_len(b.drop_first());
        assert(spec_hex(a.drop_first()) =~= spec_hex(a).skip(2));
        assert(spec_hex(b.drop_first()) =~= spec_hex(b).skip(2));
        lemma_hex_injective(a.drop_first(), b.drop_first());
        assert forall|i: int| 0 <= i < a.len() implies a[i] == b[i] by {
            if i > 0 {
                assert(a[i] == a.drop_first()[i - 1]);
                assert(b[i] == b.drop_first()[i - 1]);
            }
        }
        assert(a =~= b);
    }
}

/// Different addresses live at different paths: writers of different
/// content never contend for one file.
pub proof fn lemma_distinct_ids_distinct_paths(id1: Seq<u8>, id2: Seq<u8>)
    requires
        id1.len() == 20,
        id2.len() == 20,
        id1 != id2,
    ensures
        spec_object_rel_path(id1) != spec_object_rel_path(id2),
{
    lemma_hex_len(id1);
    lemma_hex_len(id2);
    if spec_object_rel_path(id1) == spec_object_rel_path(id2) {
        let p1 = spec_object_rel_path(id1);
        let p2 = spec_object_rel_path(id2);
        assert(p1.subrange(8, 10) =~= spec_hex(id1).take(2));
        assert(p1.subrange(11, 49) =~= spec_hex(id1).skip(2));
        assert(p2.subrange(8, 10) =~= spec_hex(id2).take(2));
        assert(p2.subrange(11, 49) =~= spec_hex(id2).skip(2));
        assert(spec_hex(id1) =~= spec_hex(id1).take(2) + spec_hex(id1).skip(2));
        assert(spec_hex(id2) =~= spec_hex(id2).take(2) + spec_hex(id2).skip(2));
        lemma_hex_injective(id1, id2);
    }
}

} // verus!
