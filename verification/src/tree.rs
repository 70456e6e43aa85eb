use vstd::prelude::*;
use crate::bytes::{bytes_eq, copy_bytes, copy_range, find_byte, push_bytes};
use vstd::multiset::Multiset;
use vstd::slice::slice_subrange;
use crate::codec::{encode_object, spec_frame, spec_object_id, Object};
use crate::kind::Kind;
use crate::zip::zlib_inflate_of;

verus! {

// ---------------------------------------------------------------------
// Tree entries and their serialized form
// ---------------------------------------------------------------------

/// One entry of a tree object's payload: mode text, raw name bytes, and
/// the 20 raw bytes of the referenced object's address.
#[derive(Debug, PartialEq, Eq)]
pub struct TreeEntry {
    pub mode: Vec<u8>,
    pub name: Vec<u8>,
    pub id: Vec<u8>,
}

/// The mathematical picture of a tree entry.
pub struct EntryV {
    pub mode: Seq<u8>,
    pub name: Seq<u8>,
    pub id: Seq<u8>,
}

impl View for TreeEntry {
    type V = EntryV;

    open spec fn view(&self) -> EntryV {
        EntryV { mode: self.mode@, name: self.name@, id: self.id@ }
    }
}

/// The pictures of a run of entries.
pub open spec fn entry_views(es: Seq<TreeEntry>) -> Seq<EntryV> {
    es.map_values(|e: TreeEntry| e@)
}

/// An entry that the serialized form can carry faithfully: no NUL or
/// space inside the mode, no NUL inside the name, an address of 20 bytes.
pub open spec fn entry_wf(e: EntryV) -> bool {
    &&& !e.mode.contains(0u8)
    &&& !e.mode.contains(32u8)
    &&& !e.name.contains(0u8)
    &&& e.id.len() == 20
}

/// The serialized form of one entry: mode, space, name, NUL, raw address.
pub open spec fn spec_entry_bytes(e: EntryV) -> Seq<u8> {
    e.mode + seq![32u8] + e.name + seq![0u8] + e.id
}

/// A tree payload: the entries' serialized forms, nothing between them.
pub open spec fn spec_entries_bytes(es: Seq<EntryV>) -> Seq<u8>
    decreases es.len(),
{
    if es.len() == 0 {
        Seq::empty()
    } else {
        spec_entry_bytes(es[0]) + spec_entries_bytes(es.drop_first())
    }
}

/// Serialization treats a run of entries one at a time, left to right.
pub proof fn lemma_entries_bytes_push(es: Seq<EntryV>, e: EntryV)
    ensures
        spec_entries_bytes(es.push(e)) == spec_entries_bytes(es) + spec_entry_bytes(e),
    decreases es.len(),
{
    if es.len() == 0 {
        assert(es.push(e).drop_first() =~= Seq::<EntryV>::empty());
        assert(es.push(e)[0] == e);
        assert(spec_entries_bytes(es.push(e)) == spec_entry_bytes(e) + spec_entries_bytes(
        Seq::<EntryV>::empty()));
        assert(spec_entry_bytes(e) + Seq::<u8>::empty() =~= spec_entry_bytes(e));
        assert(Seq::<u8>::empty() + spec_entry_bytes(e) =~= spec_entry_bytes(e));
    } else {
        lemma_entries_bytes_push(es.drop_first(), e);
        assert(es.push(e).drop_first() =~= es.drop_first().push(e));
        assert(es.push(e)[0] == es[0]);
        assert(spec_entry_bytes(es[0]) + (spec_entries_bytes(es.drop_first())
            + spec_entry_bytes(e)) =~= spec_entries_bytes(es) + spec_entry_bytes(e));
    }
}

/// Serialize a run of entries into a single payload.
pub fn serialize_entries(es: &Vec<TreeEntry>) -> (r: Vec<u8>)
    ensures
        r@ == spec_entries_bytes(entry_views(es@)),
{
    let mut r: Vec<u8> = Vec::new();
    let n = es.len();
    let mut i: usize = 0;
    while i < n
        invariant
            n == es@.len(),
            i <= n,
            r@ == spec_entries_bytes(entry_views(es@.take(i as int))),
        decreases n - i,
    {
        let e = &es[i];
        push_bytes(&mut r, e.mode.as_slice());
        r.push(32);
        push_bytes(&mut r, e.name.as_slice());
        r.push(0);
        push_bytes(&mut r, e.id.as_slice());
        proof {
            let prefix = entry_views(es@.take(i as int));
            lemma_entries_bytes_push(prefix, es@[i as int]@);
            assert(entry_views(es@.take(i + 1)) =~= prefix.push(es@[i as int]@));
            assert(r@ =~= spec_entries_bytes(prefix) + spec_entry_bytes(es@[i as int]@));
        }
        i = i + 1;
    }
    proof {
        assert(es@.take(n as int) =~= es@);
    }
    r
}

// ---------------------------------------------------------------------
// Tree reader
// ---------------------------------------------------------------------

/// Why a tree payload failed to parse.
#[derive(Clone, Copy, PartialEq, Eq, Structural, Debug)]
pub enum TreeError {
    /// An entry's text before its NUL holds no space: no name field.
    NoName,
    /// The payload ends inside an entry.
    Truncated,
    /// The object whose entries were asked for is no tree.
    NotATree,
}

/// What parsing a tree payload yields: the entries in payload order, or
/// the first structural fault.
pub open spec fn spec_parse_entries(b: Seq<u8>) -> Result<Seq<EntryV>, TreeError>
    decreases b.len(),
{
    if b.len() == 0 {
        Ok(Seq::empty())
    } else {
        match b.index_of_first(0u8) {
            None => Err(TreeError::Truncated),
            Some(z) => match b.take(z).index_of_first(32u8) {
                None => Err(TreeError::NoName),
                Some(sp) => if !(0 <= z && z + 21 <= b.len()) {
                    Err(TreeError::Truncated)
                } else {
                    match spec_parse_entries(b.skip(z + 21)) {
                        Ok(rest) => Ok(
                            seq![
                                EntryV {
                                    mode: b.take(z).take(sp),
                                    name: b.take(z).skip(sp + 1),
                                    id: b.subrange(z + 1, z + 21),
                                },
                            ] + rest,
                        ),
                        Err(e) => Err(e),
                    }
                },
            },
        }
    }
}

/// A run of parsed entries, continued by the result of parsing the rest.
pub open spec fn spec_parse_cont(prefix: Seq<EntryV>, r: Result<Seq<EntryV>, TreeError>)
    -> Result<Seq<EntryV>, TreeError> {
    match r {
        Ok(rest) => Ok(prefix + rest),
        Err(e) => Err(e),
    }
}

/// Parse a tree payload into its entries.
pub fn parse_tree(b: &[u8]) -> (r: Result<Vec<TreeEntry>, TreeError>)
    ensures
        match r {
            Ok(es) => spec_parse_entries(b@) == Ok::<Seq<EntryV>, TreeError>(entry_views(es@)),
            Err(e) => spec_parse_entries(b@) == Err::<Seq<EntryV>, TreeError>(e),
        },
{
    let mut out: Vec<TreeEntry> = Vec::new();
    let n = b.len();
    let mut pos: usize = 0;
    proof {
        assert(b@.skip(0) =~= b@);
        assert(entry_views(out@) =~= Seq::<EntryV>::empty());
        assert(spec_parse_cont(entry_views(out@), spec_parse_entries(b@)) == spec_parse_entries(
        b@));
    }
    while pos < n
        invariant
            n == b@.len(),
            pos <= n,
            spec_parse_entries(b@) == spec_parse_cont(
                entry_views(out@),
                spec_parse_entries(b@.skip(pos as int)),
            ),
        decreases n - pos,
    {
        let sub = slice_subrange(b, pos, n);
        let ghost s = b@.skip(pos as int);
        proof {
            assert(sub@ == s);
        }
        let z = match find_byte(sub, 0) {
            Some(z) => z,
            None => { return Err(TreeError::Truncated) },
        };
        proof {
            s.index_of_first_ensures(0u8);
        }
        let header = slice_subrange(sub, 0, z);
        proof {
            assert(header@ == s.take(z as int));
        }
        let sp = match find_byte(header, 32) {
            Some(sp) => sp,
            None => { return Err(TreeError::NoName) },
        };
        proof {
            s.take(z as int).index_of_first_ensures(32u8);
        }
        if n - pos - z < 21 {
            proof {
                assert(!(z + 21 <= s.len()));
            }
            return Err(TreeError::Truncated);
        }
        let mode = copy_range(sub, 0, sp);
        let name = copy_range(sub, sp + 1, z);
        let id = copy_range(sub, z + 1, z + 21);
        proof {
            assert(mode@ =~= s.take(z as int).take(sp as int));
            assert(name@ =~= s.take(z as int).skip(sp + 1));
            assert(id@ =~= s.subrange(z + 1, z + 21));
        }
        let ghost prev = entry_views(out@);
        out.push(TreeEntry { mode, name, id });
        pos = pos + z + 21;
        proof {
            let e = EntryV {
                mode: s.take(z as int).take(sp as int),
                name: s.take(z as int).skip(sp + 1),
                id: s.subrange(z + 1, z + 21),
            };
            assert(entry_views(out@) =~= prev.push(e));
            assert(s.skip(z + 21) =~= b@.skip(pos as int));
            match spec_parse_entries(b@.skip(pos as int)) {
                Ok(rest) => {
                    assert(spec_parse_entries(s) == Ok::<Seq<EntryV>, TreeError>(seq![e] + rest));
                    assert(prev + (seq![e] + rest) =~= prev.push(e) + rest);
                },
                Err(_) => {},
            }
        }
    }
    proof {
        assert(b@.skip(pos as int).len() == 0);
        assert(spec_parse_entries(b@.skip(pos as int)) == Ok::<Seq<EntryV>, TreeError>(
        Seq::empty()));
        assert(entry_views(out@) + Seq::<EntryV>::empty() =~= entry_views(out@));
    }
    Ok(out)
}

/// The entries of a decoded object that must be a tree. Any other kind
/// is a usage error, distinct from a malformed tree payload.
pub fn tree_entries_of(o: &Object) -> (r: Result<Vec<TreeEntry>, TreeError>)
    ensures
        o.kind != Kind::Tree ==> r == Err::<Vec<TreeEntry>, TreeError>(TreeError::NotATree),
        o.kind == Kind::Tree ==> match r {
            Ok(es) => spec_parse_entries(o.content@) == Ok::<Seq<EntryV>, TreeError>(
                entry_views(es@)),
            Err(e) => spec_parse_entries(o.content@) == Err::<Seq<EntryV>, TreeError>(e),
        },
{
    if o.kind == Kind::Tree {
        parse_tree(o.content.as_slice())
    } else {
        Err(TreeError::NotATree)
    }
}

/// Reading back what the serializer wrote: parsing the serialized form
/// of well-formed entries yields exactly those entries, in their order.
pub proof fn lemma_parse_of_entries(es: Seq<EntryV>)
    requires
        forall|i: int| 0 <= i < es.len() ==> entry_wf(#[trigger] es[i]),
    ensures
        spec_parse_entries(spec_entries_bytes(es)) == Ok::<Seq<EntryV>, TreeError>(es),
    decreases es.len(),
{
    if es.len() == 0 {
        assert(es =~= Seq::<EntryV>::empty());
        assert(spec_entries_bytes(es).len() == 0);
    } else {
        let e = es[0];
        let rest = spec_entries_bytes(es.drop_first());
        let b = spec_entries_bytes(es);
        let ml = e.mode.len() as int;
        let nl = e.name.len() as int;
        let z = ml + 1 + nl;
        assert(entry_wf(e));
        assert(b =~= e.mode + seq![32u8] + e.name + seq![0u8] + e.id + rest);
        assert(b[z] == 0);
        assert forall|j: int| 0 <= j < z implies b[j] != 0 by {
            if j < ml {
                assert(b[j] == e.mode[j]);
                assert(e.mode[j] != 0) by {
                    if e.mode[j] == 0 {
                        assert(e.mode.contains(0u8));
                    }
                }
            } else if j == ml {
                assert(b[j] == 32);
            } else {
                assert(b[j] == e.name[j - ml - 1]);
                assert(e.name[j - ml - 1] != 0) by {
                    if e.name[j - ml - 1] == 0 {
                        assert(e.name.contains(0u8));
                    }
                }
            }
        }
        crate::bytes::lemma_index_of_first_is(b, 0, z);
        let header = b.take(z);
        assert(header =~= e.mode + seq![32u8] + e.name);
        assert(header[ml] == 32);
        assert forall|j: int| 0 <= j < ml implies header[j] != 32 by {
            assert(header[j] == e.mode[j]);
            if e.mode[j] == 32 {
                assert(e.mode.contains(32u8));
            }
        }
        crate::bytes::lemma_index_of_first_is(header, 32, ml);
        assert(b.len() == z + 21 + rest.len());
        assert(header.take(ml) =~= e.mode);
        assert(header.skip(ml + 1) =~= e.name);
        assert(b.subrange(z + 1, z + 21) =~= e.id);
        assert(b.skip(z + 21) =~= rest);
        assert(forall|i: int| 0 <= i < es.drop_first().len() ==> entry_wf(
        #[trigger] es.drop_first()[i]));
        lemma_parse_of_entries(es.drop_first());
        let e2 = EntryV { mode: header.take(ml), name: header.skip(ml + 1), id: b.subrange(z + 1, z + 21) };
        assert(e2 == e);
        assert(seq![e] + es.drop_first() =~= es);
    }
}

// ---------------------------------------------------------------------
// Canonical order
// ---------------------------------------------------------------------

/// Byte-wise lexicographic order; a strict prefix sorts first.
pub open spec fn spec_bytes_le(a: Seq<u8>, b: Seq<u8>) -> bool
    decreases a.len(),
{
    if a.len() == 0 {
        true
    } else if b.len() == 0 {
        false
    } else if a[0] < b[0] {
        true
    } else if a[0] > b[0] {
        false
    } else {
        spec_bytes_le(a.drop_first(), b.drop_first())
    }
}

/// Byte-wise comparison of two byte strings.
pub fn bytes_le(a: &[u8], b: &[u8]) -> (r: bool)
    ensures
        r == spec_bytes_le(a@, b@),
{
    let an = a.len();
    let bn = b.len();
    let mut i: usize = 0;
    proof {
        assert(a@.skip(0) =~= a@);
        assert(b@.skip(0) =~= b@);
    }
    while i < an && i < bn
        invariant
            an == a@.len() && bn == b@.len(),
            i <= an && i <= bn,
            spec_bytes_le(a@, b@) == spec_bytes_le(a@.skip(i as int), b@.skip(i as int)),
        decreases an - i,
    {
        if a[i] < b[i] {
            return true;
        }
        if a[i] > b[i] {
            return false;
        }
        proof {
            assert(a@.skip(i as int).drop_first() =~= a@.skip(i + 1));
            assert(b@.skip(i as int).drop_first() =~= b@.skip(i + 1));
        }
        i = i + 1;
    }
    proof {
        assert(a@.skip(i as int).len() == 0 || b@.skip(i as int).len() == 0);
    }
    an <= bn
}

/// The mode text of a directory entry.
pub open spec fn spec_dir_mode() -> Seq<u8> {
    seq![52u8, 48u8, 48u8, 48u8, 48u8]
}

/// The sort key of a named entry: a directory orders as if a `/`
/// followed its name; anything else orders by the bare name.
pub open spec fn spec_sort_key(name: Seq<u8>, is_dir: bool) -> Seq<u8> {
    if is_dir {
        name.push(47u8)
    } else {
        name
    }
}

/// The canonical order of tree entries: by sort key, byte-wise.
pub open spec fn spec_entry_le(a: EntryV, b: EntryV) -> bool {
    spec_bytes_le(
        spec_sort_key(a.name, a.mode == spec_dir_mode()),
        spec_sort_key(b.name, b.mode == spec_dir_mode()),
    )
}

/// The sort key of an entry, materialized.
fn entry_key(e: &TreeEntry) -> (r: Vec<u8>)
    ensures
        r@ == spec_sort_key(e.name@, e.mode@ == spec_dir_mode()),
{
    let mut k = copy_range(e.name.as_slice(), 0, e.name.len());
    let dir_mode: [u8; 5] = [52, 48, 48, 48, 48];
    proof {
        assert(dir_mode@ =~= spec_dir_mode());
        assert(e.name@.subrange(0, e.name@.len() as int) =~= e.name@);
    }
    if bytes_eq(e.mode.as_slice(), dir_mode.as_slice()) {
        k.push(47);
    }
    k
}

/// Whether `a` sorts at or before `b` in the canonical order.
pub fn entry_le(a: &TreeEntry, b: &TreeEntry) -> (r: bool)
    ensures
        r == spec_entry_le(a@, b@),
{
    let ka = entry_key(a);
    let kb = entry_key(b);
    bytes_le(ka.as_slice(), kb.as_slice())
}

/// Insert an entry into a sorted run, before the first entry it does
/// not follow.
pub open spec fn spec_insert_entry(s: Seq<EntryV>, e: EntryV) -> Seq<EntryV>
    decreases s.len(),
{
    if s.len() == 0 {
        seq![e]
    } else if spec_entry_le(e, s[0]) {
        seq![e] + s
    } else {
        seq![s[0]] + spec_insert_entry(s.drop_first(), e)
    }
}

/// Insertion sort in the canonical order, taking entries left to right.
pub open spec fn spec_sort_entries(s: Seq<EntryV>) -> Seq<EntryV>
    decreases s.len(),
{
    if s.len() == 0 {
        Seq::empty()
    } else {
        spec_insert_entry(spec_sort_entries(s.drop_last()), s.last())
    }
}

/// The canonical order is total: of any two byte strings, one sorts at
/// or before the other.
pub proof fn lemma_bytes_le_total(a: Seq<u8>, b: Seq<u8>)
    ensures
        spec_bytes_le(a, b) || spec_bytes_le(b, a),
    decreases a.len(),
{
    if a.len() > 0 && b.len() > 0 && a[0] == b[0] {
        lemma_bytes_le_total(a.drop_first(), b.drop_first());
    }
}

/// The canonical order is transitive.
pub proof fn lemma_bytes_le_trans(a: Seq<u8>, b: Seq<u8>, c: Seq<u8>)
    requires
        spec_bytes_le(a, b),
        spec_bytes_le(b, c),
    ensures
        spec_bytes_le(a, c),
    decreases a.len(),
{
    if a.len() > 0 && b.len() > 0 && c.len() > 0 && a[0] == b[0] && b[0] == c[0] {
        lemma_bytes_le_trans(a.drop_first(), b.drop_first(), c.drop_first());
    }
}

/// Of any two entries, one sorts at or before the other.
pub proof fn lemma_entry_le_total(a: EntryV, b: EntryV)
    ensures
        spec_entry_le(a, b) || spec_entry_le(b, a),
{
    lemma_bytes_le_total(
        spec_sort_key(a.name, a.mode == spec_dir_mode()),
        spec_sort_key(b.name, b.mode == spec_dir_mode()),
    );
}

/// The entry order is transitive.
pub proof fn lemma_entry_le_trans(a: EntryV, b: EntryV, c: EntryV)
    requires
        spec_entry_le(a, b),
        spec_entry_le(b, c),
    ensures
        spec_entry_le(a, c),
{
    lemma_bytes_le_trans(
        spec_sort_key(a.name, a.mode == spec_dir_mode()),
        spec_sort_key(b.name, b.mode == spec_dir_mode()),
        spec_sort_key(c.name, c.mode == spec_dir_mode()),
    );
}

/// A run of entries in canonical order: each sorts at or before every
/// later one.
pub open spec fn entries_sorted(s: Seq<EntryV>) -> bool {
    forall|i: int, j: int| 0 <= i < j < s.len() ==> spec_entry_le(#[trigger] s[i], #[trigger] s[j])
}

/// Where an insertion lands: before the first entry that follows `e`.
spec fn spec_insert_pos(s: Seq<EntryV>, e: EntryV) -> int
    decreases s.len(),
{
    if s.len() == 0 {
        0
    } else if spec_entry_le(e, s[0]) {
        0
    } else {
        1 + spec_insert_pos(s.drop_first(), e)
    }
}

/// The insertion puts `e` at its position and moves nothing else.
proof fn lemma_insert_pos(s: Seq<EntryV>, e: EntryV)
    ensures
        0 <= spec_insert_pos(s, e) <= s.len(),
        forall|j: int| 0 <= j < spec_insert_pos(s, e) ==> !spec_entry_le(e, #[trigger] s[j]),
        spec_insert_pos(s, e) < s.len() ==> spec_entry_le(e, s[spec_insert_pos(s, e)]),
        spec_insert_entry(s, e) == s.take(spec_insert_pos(s, e)) + seq![e] + s.skip(
            spec_insert_pos(s, e)),
    decreases s.len(),
{
    if s.len() == 0 {
        assert(spec_insert_entry(s, e) =~= s.take(0) + seq![e] + s.skip(0));
    } else if spec_entry_le(e, s[0]) {
        assert(spec_insert_entry(s, e) =~= s.take(0) + seq![e] + s.skip(0));
    } else {
        lemma_insert_pos(s.drop_first(), e);
        let p = 1 + spec_insert_pos(s.drop_first(), e);
        assert forall|j: int| 0 <= j < p implies !spec_entry_le(e, #[trigger] s[j]) by {
            if j > 0 {
                assert(s[j] == s.drop_first()[j - 1]);
            }
        }
        if p < s.len() {
            assert(s[p] == s.drop_first()[p - 1]);
        }
        assert(seq![s[0]] + (s.drop_first().take(p - 1) + seq![e] + s.drop_first().skip(p - 1))
            =~= s.take(p) + seq![e] + s.skip(p));
    }
}

/// Inserting into a sorted run keeps it sorted.
proof fn lemma_insert_entry_sorted(s: Seq<EntryV>, e: EntryV)
    requires
        entries_sorted(s),
    ensures
        entries_sorted(spec_insert_entry(s, e)),
{
    lemma_insert_pos(s, e);
    let p = spec_insert_pos(s, e);
    let r = spec_insert_entry(s, e);
    assert forall|i: int, j: int| 0 <= i < j < r.len() implies spec_entry_le(
        #[trigger] r[i],
        #[trigger] r[j],
    ) by {
        if i < p {
            assert(r[i] == s[i]);
        } else if i == p {
            assert(r[i] == e);
        } else {
            assert(r[i] == s[i - 1]);
        }
        if j < p {
            assert(r[j] == s[j]);
        } else if j == p {
            assert(r[j] == e);
        } else {
            assert(r[j] == s[j - 1]);
        }
        if j == p {
            // r[i] is s[i] with i < p, which e does not precede
            lemma_entry_le_total(e, s[i]);
        } else if i == p && j > p {
            // e precedes s[p], which precedes every later entry
            if j - 1 > p {
                lemma_entry_le_trans(e, s[p], s[j - 1]);
            }
        }
    }
}

/// The canonical sort yields a run in canonical order.
pub proof fn lemma_sort_entries_sorted(s: Seq<EntryV>)
    ensures
        entries_sorted(spec_sort_entries(s)),
    decreases s.len(),
{
    if s.len() > 0 {
        lemma_sort_entries_sorted(s.drop_last());
        lemma_insert_entry_sorted(spec_sort_entries(s.drop_last()), s.last());
    }
}

/// Inserting adds exactly the inserted entry.
proof fn lemma_insert_entry_multiset(s: Seq<EntryV>, e: EntryV)
    ensures
        spec_insert_entry(s, e).to_multiset() == s.to_multiset().insert(e),
{
    broadcast use vstd::seq_lib::group_to_multiset_ensures;

    lemma_insert_pos(s, e);
    let p = spec_insert_pos(s, e);
    vstd::seq_lib::lemma_multiset_commutative(s.take(p) + seq![e], s.skip(p));
    vstd::seq_lib::lemma_multiset_commutative(s.take(p), seq![e]);
    vstd::seq_lib::lemma_multiset_commutative(s.take(p), s.skip(p));
    assert(s.take(p) + s.skip(p) =~= s);
    assert(seq![e].to_multiset() =~= Multiset::<EntryV>::empty().insert(e)) by {
        assert(seq![e] =~= Seq::<EntryV>::empty().push(e));
        assert(Seq::<EntryV>::empty().push(e).to_multiset() =~= Seq::<EntryV>::empty()
            .to_multiset().insert(e));
    }
    assert(spec_insert_entry(s, e).to_multiset() =~= s.to_multiset().insert(e));
}

/// The canonical sort keeps exactly the entries it was given: the same
/// entries with the same multiplicities, only their order changes.
pub proof fn lemma_sort_entries_multiset(s: Seq<EntryV>)
    ensures
        spec_sort_entries(s).to_multiset() == s.to_multiset(),
    decreases s.len(),
{
    broadcast use vstd::seq_lib::group_to_multiset_ensures;

    if s.len() > 0 {
        lemma_sort_entries_multiset(s.drop_last());
        lemma_insert_entry_multiset(spec_sort_entries(s.drop_last()), s.last());
        assert(s =~= s.drop_last().push(s.last()));
        assert(s.drop_last().push(s.last()).to_multiset() =~= s.drop_last().to_multiset()
            .insert(s.last()));
    }
}

/// Inserting at the first position whose entry follows `e` is what the
/// recursive insertion does.
proof fn lemma_insert_entry_at(s: Seq<EntryV>, e: EntryV, pos: int)
    requires
        0 <= pos <= s.len(),
        forall|j: int| 0 <= j < pos ==> !spec_entry_le(e, #[trigger] s[j]),
        pos < s.len() ==> spec_entry_le(e, s[pos]),
    ensures
        spec_insert_entry(s, e) == s.take(pos) + seq![e] + s.skip(pos),
    decreases s.len(),
{
    if s.len() == 0 {
        assert(spec_insert_entry(s, e) =~= s.take(pos) + seq![e] + s.skip(pos));
    } else if pos == 0 {
        assert(spec_insert_entry(s, e) =~= s.take(0) + seq![e] + s.skip(0));
    } else {
        assert(!spec_entry_le(e, s[0]));
        lemma_insert_entry_at(s.drop_first(), e, pos - 1);
        assert(s.drop_first().take(pos - 1) =~= s.take(pos).drop_first());
        assert(seq![s[0]] + (s.take(pos).drop_first() + seq![e] + s.drop_first().skip(pos - 1))
            =~= s.take(pos) + seq![e] + s.skip(pos));
    }
}

/// Insert an entry into a run sorted in the canonical order.
pub fn insert_entry(v: &mut Vec<TreeEntry>, e: TreeEntry)
    ensures
        entry_views(final(v)@) == spec_insert_entry(entry_views(old(v)@), e@),
{
    let n = v.len();
    let mut pos: usize = 0;
    let mut found = false;
    while pos < n && !found
        invariant
            n == v@.len(),
            pos <= n,
            forall|j: int| 0 <= j < pos ==> !spec_entry_le(e@, #[trigger] entry_views(v@)[j]),
            found ==> pos < n && spec_entry_le(e@, entry_views(v@)[pos as int]),
            v@ == old(v)@,
        decreases n - pos + if found { 0int } else { 1int },
    {
        if entry_le(&e, &v[pos]) {
            found = true;
        } else {
            pos = pos + 1;
        }
    }
    proof {
        lemma_insert_entry_at(entry_views(v@), e@, pos as int);
    }
    v.insert(pos, e);
    proof {
        assert(entry_views(v@) =~= entry_views(old(v)@).take(pos as int) + seq![e@]
            + entry_views(old(v)@).skip(pos as int));
    }
}

/// Sort entries into the canonical order, as the insertion sort of the
/// specification does.
pub fn sort_entries(es: Vec<TreeEntry>) -> (r: Vec<TreeEntry>)
    ensures
        entry_views(r@) == spec_sort_entries(entry_views(es@)),
{
    let ghost orig = es@;
    let mut es = es;
    let mut r: Vec<TreeEntry> = Vec::new();
    let ghost mut k: int = 0;
    while es.len() > 0
        invariant
            0 <= k <= orig.len(),
            es@ == orig.skip(k),
            entry_views(r@) == spec_sort_entries(entry_views(orig.take(k))),
        decreases es@.len(),
    {
        let e = es.remove(0);
        proof {
            assert(orig.skip(k).remove(0) =~= orig.skip(k + 1));
            assert(e == orig[k]);
        }
        insert_entry(&mut r, e);
        proof {
            let prev = entry_views(orig.take(k));
            k = k + 1;
            assert(es@ =~= orig.skip(k));
            assert(orig.take(k).drop_last() =~= orig.take(k - 1));
            assert(entry_views(orig.take(k)).drop_last() =~= prev);
            assert(entry_views(orig.take(k)).last() == orig[k - 1]@);
        }
    }
    proof {
        assert(orig.take(k) =~= orig);
    }
    r
}

// ---------------------------------------------------------------------
// Tree builder
// ---------------------------------------------------------------------

/// One named child of a directory in the in-memory picture of a file
/// tree that the builder walks.
pub struct FsChild {
    pub name: Vec<u8>,
    pub node: FsNode,
}

/// An in-memory picture of a file tree.
pub enum FsNode {
    File { content: Vec<u8>, executable: bool },
    Symlink { target: Vec<u8> },
    Dir { entries: Vec<FsChild> },
}

/// The name that is always excluded from a tree.
pub open spec fn dot_git() -> Seq<u8> {
    seq![46u8, 103u8, 105u8, 116u8]
}

/// A node yields no object: it is a directory whose children are all
/// excluded or themselves empty.
pub open spec fn eff_empty(n: FsNode) -> bool
    decreases n,
{
    match n {
        FsNode::File { .. } => false,
        FsNode::Symlink { .. } => false,
        FsNode::Dir { entries } => all_eff_empty(entries@),
    }
}

/// Every child of this list is excluded by name or effectively empty.
pub open spec fn all_eff_empty(es: Seq<FsChild>) -> bool
    decreases es,
{
    if es.len() == 0 {
        true
    } else {
        (es[0].name@ == dot_git() || eff_empty(es[0].node)) && all_eff_empty(es.drop_first())
    }
}

/// A child the builder leaves out of its parent: the `.git` name, or an
/// effectively empty node.
pub open spec fn spec_dropped(c: FsChild) -> bool {
    c.name@ == dot_git() || eff_empty(c.node)
}

/// The mode text of the entry a node produces: `40000` for a directory,
/// `120000` for a symlink, `100755` or `100644` for a file.
pub open spec fn spec_mode_of(n: FsNode) -> Seq<u8> {
    match n {
        FsNode::Dir { .. } => spec_dir_mode(),
        FsNode::Symlink { .. } => seq![49u8, 50u8, 48u8, 48u8, 48u8, 48u8],
        FsNode::File { executable, .. } => if executable {
            seq![49u8, 48u8, 48u8, 55u8, 53u8, 53u8]
        } else {
            seq![49u8, 48u8, 48u8, 54u8, 52u8, 52u8]
        },
    }
}

/// The blob payload a non-directory node stands for: the file's
/// content, or the symlink's target path.
pub open spec fn spec_blob_payload(n: FsNode) -> Seq<u8> {
    match n {
        FsNode::File { content, .. } => content@,
        FsNode::Symlink { target } => target@,
        FsNode::Dir { .. } => Seq::empty(),
    }
}

/// The content address of the object a node stands for.
pub open spec fn spec_node_id(n: FsNode) -> Seq<u8>
    decreases n,
{
    match n {
        FsNode::Dir { entries } => spec_object_id(
            Kind::Tree,
            spec_entries_bytes(spec_sort_entries(spec_dir_records(entries@))),
        ),
        _ => spec_object_id(Kind::Blob, spec_blob_payload(n)),
    }
}

/// The records of a directory's surviving children, in reading order:
/// one per child that is neither excluded by name nor effectively
/// empty.
pub open spec fn spec_dir_records(es: Seq<FsChild>) -> Seq<EntryV>
    decreases es,
{
    if es.len() == 0 {
        Seq::empty()
    } else {
        let head = if spec_dropped(es[0]) {
            Seq::<EntryV>::empty()
        } else {
            seq![
                EntryV {
                    mode: spec_mode_of(es[0].node),
                    name: es[0].name@,
                    id: spec_node_id(es[0].node),
                },
            ]
        };
        head + spec_dir_records(es.drop_first())
    }
}

/// The record one child contributes: nothing, or its single entry.
pub open spec fn spec_child_record(c: FsChild) -> Seq<EntryV> {
    if spec_dropped(c) {
        Seq::<EntryV>::empty()
    } else {
        seq![EntryV { mode: spec_mode_of(c.node), name: c.name@, id: spec_node_id(c.node) }]
    }
}

/// The payload of a directory's tree object: its surviving children's
/// records, in canonical order, serialized.
pub open spec fn spec_dir_payload(es: Seq<FsChild>) -> Seq<u8> {
    spec_entries_bytes(spec_sort_entries(spec_dir_records(es)))
}

/// The kind of the object a node stands for.
pub open spec fn spec_node_kind(n: FsNode) -> Kind {
    match n {
        FsNode::Dir { .. } => Kind::Tree,
        _ => Kind::Blob,
    }
}

/// The payload of the object a node stands for.
pub open spec fn spec_node_payload(n: FsNode) -> Seq<u8> {
    match n {
        FsNode::Dir { entries } => spec_dir_payload(entries@),
        _ => spec_blob_payload(n),
    }
}

/// Every object a node's graph needs in the store: the kind and
/// payload of each surviving node, subtrees before their parent.
pub open spec fn spec_node_objects(n: FsNode) -> Seq<(Kind, Seq<u8>)>
    decreases n,
{
    match n {
        FsNode::Dir { entries } => if all_eff_empty(entries@) {
            Seq::empty()
        } else {
            spec_dir_objects(entries@) + seq![(Kind::Tree, spec_dir_payload(entries@))]
        },
        _ => seq![(Kind::Blob, spec_blob_payload(n))],
    }
}

/// The objects all surviving children of a directory need, in reading
/// order.
pub open spec fn spec_dir_objects(es: Seq<FsChild>) -> Seq<(Kind, Seq<u8>)>
    decreases es,
{
    if es.len() == 0 {
        Seq::empty()
    } else {
        let head = if spec_dropped(es[0]) {
            Seq::<(Kind, Seq<u8>)>::empty()
        } else {
            spec_node_objects(es[0].node)
        };
        head + spec_dir_objects(es.drop_first())
    }
}

/// The objects one child needs: nothing, or its node's whole graph.
pub open spec fn spec_child_objects(c: FsChild) -> Seq<(Kind, Seq<u8>)> {
    if spec_dropped(c) {
        Seq::<(Kind, Seq<u8>)>::empty()
    } else {
        spec_node_objects(c.node)
    }
}

/// The needed objects grow child by child, in reading order.
proof fn lemma_dir_objects_push(es: Seq<FsChild>, c: FsChild)
    ensures
        spec_dir_objects(es.push(c)) == spec_dir_objects(es) + spec_child_objects(c),
    decreases es.len(),
{
    if es.len() == 0 {
        assert(es.push(c).drop_first() =~= Seq::<FsChild>::empty());
        assert(es.push(c)[0] == c);
        assert(spec_dir_objects(es) =~= Seq::<(Kind, Seq<u8>)>::empty());
        assert(spec_dir_objects(es.push(c)) == spec_child_objects(c) + spec_dir_objects(
        Seq::<FsChild>::empty()));
        assert(spec_child_objects(c) + Seq::<(Kind, Seq<u8>)>::empty() =~= spec_child_objects(c));
        assert(Seq::<(Kind, Seq<u8>)>::empty() + spec_child_objects(c) =~= spec_child_objects(c));
    } else {
        lemma_dir_objects_push(es.drop_first(), c);
        assert(es.push(c).drop_first() =~= es.drop_first().push(c));
        assert(es.push(c)[0] == es[0]);
        assert(spec_dir_objects(es.push(c)) == spec_child_objects(es[0]) + spec_dir_objects(
        es.drop_first().push(c)));
        assert(spec_child_objects(es[0]) + (spec_dir_objects(es.drop_first())
            + spec_child_objects(c)) =~= spec_dir_objects(es) + spec_child_objects(c));
    }
}

/// The records grow child by child, in reading order.
proof fn lemma_dir_records_push(es: Seq<FsChild>, c: FsChild)
    ensures
        spec_dir_records(es.push(c)) == spec_dir_records(es) + spec_child_record(c),
    decreases es.len(),
{
    if es.len() == 0 {
        assert(es.push(c).drop_first() =~= Seq::<FsChild>::empty());
        assert(es.push(c)[0] == c);
        assert(spec_dir_records(es) =~= Seq::<EntryV>::empty());
        assert(spec_dir_records(es.push(c)) == spec_child_record(c) + spec_dir_records(
        Seq::<FsChild>::empty()));
        assert(spec_child_record(c) + Seq::<EntryV>::empty() =~= spec_child_record(c));
        assert(Seq::<EntryV>::empty() + spec_child_record(c) =~= spec_child_record(c));
    } else {
        lemma_dir_records_push(es.drop_first(), c);
        assert(es.push(c).drop_first() =~= es.drop_first().push(c));
        assert(es.push(c)[0] == es[0]);
        assert(spec_dir_records(es.push(c)) == spec_child_record(es[0]) + spec_dir_records(
        es.drop_first().push(c)));
        assert(spec_child_record(es[0]) + (spec_dir_records(es.drop_first())
            + spec_child_record(c)) =~= spec_dir_records(es) + spec_child_record(c));
    }
}

/// A directory has no records exactly when all its children are
/// excluded or effectively empty.
proof fn lemma_records_empty_iff(es: Seq<FsChild>)
    ensures
        (spec_dir_records(es).len() == 0) <==> all_eff_empty(es),
    decreases es.len(),
{
    if es.len() > 0 {
        lemma_records_empty_iff(es.drop_first());
    }
}

/// One object the builder produced: the content address, and the
/// compressed bytes that belong under the address-derived path.
pub struct BuiltObject {
    pub id: Vec<u8>,
    pub stored: Vec<u8>,
}

/// A produced object is faithful to a kind and payload: its address
/// and its stored bytes both come from exactly that framed object.
pub open spec fn built_as(b: BuiltObject, k: Kind, p: Seq<u8>) -> bool {
    &&& b.id@ == spec_object_id(k, p)
    &&& b.id@.len() == 20
    &&& zlib_inflate_of(b.stored@) == Some(spec_frame(k, p))
}

/// A produced object is faithful to some kind and payload.
pub open spec fn built_ok(b: BuiltObject) -> bool {
    exists|k: Kind, p: Seq<u8>| built_as(b, k, p)
}

/// Every listed object stands in `out` at or after `from`, faithful to
/// its own kind and payload.
pub open spec fn objects_covered(objs: Seq<(Kind, Seq<u8>)>, out: Seq<BuiltObject>, from: int)
    -> bool {
    forall|m: int|
        #![trigger objs[m]]
        0 <= m < objs.len() ==> exists|j: int|
            from <= j < out.len() && built_as(#[trigger] out[j], objs[m].0, objs[m].1)
}

/// The excluded name, tested.
fn is_dot_git(name: &[u8]) -> (r: bool)
    ensures
        r == (name@ == dot_git()),
{
    let pat: [u8; 4] = [46, 103, 105, 116];
    proof {
        assert(pat@ =~= dot_git());
    }
    bytes_eq(name, pat.as_slice())
}

/// The mode text of the entry a node produces.
fn mode_bytes(node: &FsNode) -> (r: Vec<u8>)
    ensures
        r@ == spec_mode_of(*node),
{
    let mut v: Vec<u8> = Vec::new();
    match node {
        FsNode::Dir { .. } => {
            v.push(52);
            v.push(48);
            v.push(48);
            v.push(48);
            v.push(48);
        },
        FsNode::Symlink { .. } => {
            v.push(49);
            v.push(50);
            v.push(48);
            v.push(48);
            v.push(48);
            v.push(48);
        },
        FsNode::File { executable, .. } => {
            v.push(49);
            v.push(48);
            v.push(48);
            if *executable {
                v.push(55);
                v.push(53);
                v.push(53);
            } else {
                v.push(54);
                v.push(52);
                v.push(52);
            }
        },
    }
    proof {
        assert(v@ =~= spec_mode_of(*node));
    }
    v
}

/// Build the object graph of one node. Every object that has to be
/// stored is appended to `out`; the node's own address comes back,
/// unless the node is effectively empty and so yields no object.
pub fn build_node(node: &FsNode, out: &mut Vec<BuiltObject>) -> (r: Option<Vec<u8>>)
    ensures
        r is Some <==> !eff_empty(*node),
        r matches Some(id) ==> id@ == spec_node_id(*node) && id@.len() == 20,
        final(out)@.len() >= old(out)@.len(),
        forall|j: int| 0 <= j < old(out)@.len() ==> final(out)@[j] == old(out)@[j],
        forall|j: int| old(out)@.len() <= j < final(out)@.len() ==> built_ok(
            #[trigger] final(out)@[j]),
        r is Some ==> exists|j: int| old(out)@.len() <= j < final(out)@.len() && built_as(
            #[trigger] final(out)@[j], spec_node_kind(*node), spec_node_payload(*node)),
        objects_covered(spec_node_objects(*node), final(out)@, old(out)@.len() as int),
    decreases *node,
{
    match node {
        FsNode::File { content, .. } => {
            let enc = encode_object(Kind::Blob, content.as_slice());
            let id = copy_bytes(enc.id.as_slice());
            out.push(BuiltObject { id: enc.id, stored: enc.stored });
            proof {
                assert(built_as(out@[out@.len() - 1], spec_node_kind(*node), spec_node_payload(
                *node)));
                assert(built_ok(out@[out@.len() - 1]));
                assert(spec_node_objects(*node) =~= seq![(Kind::Blob, content@)]);
                assert forall|m: int|
                    #![trigger spec_node_objects(*node)[m]]
                    0 <= m < spec_node_objects(*node).len() implies exists|j: int|
                    old(out)@.len() <= j < out@.len() && built_as(
                        #[trigger] out@[j],
                        spec_node_objects(*node)[m].0,
                        spec_node_objects(*node)[m].1,
                    ) by {
                    assert(spec_node_objects(*node)[m] == (Kind::Blob, content@));
                    assert(built_as(out@[out@.len() - 1], Kind::Blob, content@));
                }
                assert(objects_covered(spec_node_objects(*node), out@, old(out)@.len() as int));
            }
            Some(id)
        },
        FsNode::Symlink { target } => {
            let enc = encode_object(Kind::Blob, target.as_slice());
            let id = copy_bytes(enc.id.as_slice());
            out.push(BuiltObject { id: enc.id, stored: enc.stored });
            proof {
                assert(built_as(out@[out@.len() - 1], spec_node_kind(*node), spec_node_payload(
                *node)));
                assert(built_ok(out@[out@.len() - 1]));
                assert(spec_node_objects(*node) =~= seq![(Kind::Blob, target@)]);
                assert forall|m: int|
                    #![trigger spec_node_objects(*node)[m]]
                    0 <= m < spec_node_objects(*node).len() implies exists|j: int|
                    old(out)@.len() <= j < out@.len() && built_as(
                        #[trigger] out@[j],
                        spec_node_objects(*node)[m].0,
                        spec_node_objects(*node)[m].1,
                    ) by {
                    assert(spec_node_objects(*node)[m] == (Kind::Blob, target@));
                    assert(built_as(out@[out@.len() - 1], Kind::Blob, target@));
                }
                assert(objects_covered(spec_node_objects(*node), out@, old(out)@.len() as int));
            }
            Some(id)
        },
        FsNode::Dir { entries } => {
            let mut recs: Vec<TreeEntry> = Vec::new();
            let n_children = entries.len();
            let mut i: usize = 0;
            while i < n_children
                invariant
                    node is Dir && node->Dir_entries == *entries,
                    n_children == entries@.len(),
                    i <= n_children,
                    entry_views(recs@) == spec_dir_records(entries@.take(i as int)),
                    out@.len() >= old(out)@.len(),
                    forall|j: int| 0 <= j < old(out)@.len() ==> out@[j] == old(out)@[j],
                    forall|j: int| old(out)@.len() <= j < out@.len() ==> built_ok(
                        #[trigger] out@[j]),
                    objects_covered(
                        spec_dir_objects(entries@.take(i as int)),
                        out@,
                        old(out)@.len() as int,
                    ),
                decreases n_children - i,
            {
                let c = &entries[i];
                let ghost ii = i as int;
                let ghost prev_recs = entry_views(recs@);
                let ghost pre_out = out@;
                proof {
                    assert(decreases_to!(*node => node->Dir_entries));
                    assert(decreases_to!(node->Dir_entries => node->Dir_entries@));
                    assert(decreases_to!(node->Dir_entries@ => node->Dir_entries@[i as int]));
                    assert(decreases_to!(*node => entries@[i as int].node));
                }
                if is_dot_git(c.name.as_slice()) {
                    proof {
                        assert(spec_dropped(entries@[i as int]));
                    }
                } else {
                    match build_node(&c.node, out) {
                        None => {
                            proof {
                                assert(spec_dropped(entries@[i as int]));
                            }
                        },
                        Some(id) => {
                            let mode = mode_bytes(&c.node);
                            let name = copy_bytes(c.name.as_slice());
                            recs.push(TreeEntry { mode, name, id });
                            proof {
                                assert(!spec_dropped(entries@[i as int]));
                                let rec = EntryV {
                                    mode: spec_mode_of(entries@[i as int].node),
                                    name: entries@[i as int].name@,
                                    id: spec_node_id(entries@[i as int].node),
                                };
                                assert(entry_views(recs@) =~= prev_recs.push(rec));
                            }
                        },
                    }
                }
                proof {
                    assert(entries@.take(i + 1) =~= entries@.take(i as int).push(
                    entries@[i as int]));
                    lemma_dir_records_push(entries@.take(i as int), entries@[i as int]);
                    assert(entry_views(recs@) =~= spec_dir_records(entries@.take(i + 1)));
                    lemma_dir_objects_push(entries@.take(i as int), entries@[i as int]);
                    let old_objs = spec_dir_objects(entries@.take(i as int));
                    let cur_objs = spec_dir_objects(entries@.take(i + 1));
                    let child_objs = spec_child_objects(entries@[i as int]);
                    assert(objects_covered(old_objs, pre_out, old(out)@.len() as int));
                    assert forall|m: int|
                        #![trigger cur_objs[m]]
                        0 <= m < cur_objs.len() implies exists|j: int|
                        old(out)@.len() <= j < out@.len() && built_as(
                            #[trigger] out@[j],
                            cur_objs[m].0,
                            cur_objs[m].1,
                        ) by {
                        if m < old_objs.len() {
                            assert(cur_objs[m] == old_objs[m]);
                            let j0 = choose|j: int|
                                old(out)@.len() <= j < pre_out.len() && built_as(
                                    #[trigger] pre_out[j],
                                    old_objs[m].0,
                                    old_objs[m].1,
                                );
                            assert(out@[j0] == pre_out[j0]);
                        } else {
                            assert(cur_objs[m] == child_objs[m - old_objs.len()]);
                            assert(!spec_dropped(entries@[i as int]));
                            assert(child_objs == spec_node_objects(entries@[i as int].node));
                            assert(objects_covered(
                                spec_node_objects(entries@[i as int].node),
                                out@,
                                pre_out.len() as int,
                            ));
                            assert(spec_node_objects(entries@[i as int].node)[m - old_objs.len()]
                                == child_objs[m - old_objs.len()]);
                            let j1 = choose|j: int|
                                pre_out.len() <= j < out@.len() && built_as(
                                    #[trigger] out@[j],
                                    spec_node_objects(entries@[i as int].node)[m
                                        - old_objs.len()].0,
                                    spec_node_objects(entries@[i as int].node)[m
                                        - old_objs.len()].1,
                                );
                            assert(old(out)@.len() <= j1 < out@.len());
                        }
                    }
                    assert(objects_covered(cur_objs, out@, old(out)@.len() as int));
                }
                i = i + 1;
                proof {
                    assert(entries@.take(i as int) == entries@.take(ii + 1));
                    assert(objects_covered(
                        spec_dir_objects(entries@.take(i as int)),
                        out@,
                        old(out)@.len() as int,
                    ));
                }
            }
            proof {
                assert(entries@.take(n_children as int) =~= entries@);
                lemma_records_empty_iff(entries@);
            }
            if recs.len() == 0 {
                proof {
                    assert(entry_views(recs@).len() == 0);
                    assert(eff_empty(*node) == all_eff_empty(entries@));
                    assert(spec_node_objects(*node).len() == 0);
                    assert(objects_covered(spec_node_objects(*node), out@, old(
                    out)@.len() as int));
                }
                None
            } else {
                let sorted = sort_entries(recs);
                let payload = serialize_entries(&sorted);
                let enc = encode_object(Kind::Tree, payload.as_slice());
                let id = copy_bytes(enc.id.as_slice());
                let ghost pre_push = out@;
                out.push(BuiltObject { id: enc.id, stored: enc.stored });
                proof {
                    assert(eff_empty(*node) == all_eff_empty(entries@));
                    assert(payload@ == spec_dir_payload(entries@));
                    assert(spec_node_payload(*node) == spec_dir_payload(entries@));
                    assert(built_as(out@[out@.len() - 1], spec_node_kind(*node),
                        spec_node_payload(*node)));
                    assert(built_ok(out@[out@.len() - 1]));
                    assert(spec_node_objects(*node) =~= spec_dir_objects(entries@) + seq![
                        (Kind::Tree, spec_dir_payload(entries@)),
                    ]);
                    let full_objs = spec_dir_objects(entries@.take(n_children as int));
                    assert(entries@.take(n_children as int) == entries@);
                    assert(objects_covered(full_objs, pre_push, old(out)@.len() as int));
                    assert forall|m: int|
                        #![trigger spec_node_objects(*node)[m]]
                        0 <= m < spec_node_objects(*node).len() implies exists|j: int|
                        old(out)@.len() <= j < out@.len() && built_as(
                            #[trigger] out@[j],
                            spec_node_objects(*node)[m].0,
                            spec_node_objects(*node)[m].1,
                        ) by {
                        if m < full_objs.len() {
                            assert(spec_node_objects(*node)[m] == full_objs[m]);
                            assert(full_objs[m] == spec_dir_objects(entries@.take(
                            n_children as int))[m]);
                            let j0 = choose|j: int|
                                old(out)@.len() <= j < pre_push.len() && built_as(
                                    #[trigger] pre_push[j],
                                    full_objs[m].0,
                                    full_objs[m].1,
                                );
                            assert(out@[j0] == pre_push[j0]);
                        } else {
                            assert(spec_node_objects(*node)[m] == (
                                Kind::Tree,
                                spec_dir_payload(entries@),
                            ));
                        }
                    }
                    assert(objects_covered(spec_node_objects(*node), out@, old(
                    out)@.len() as int));
                }
                Some(id)
            }
        },
    }
}

/// The whole output of a build: the root tree's address, and every
/// object that has to be stored for the tree to be complete.
pub struct TreeBuild {
    pub root: Vec<u8>,
    pub objects: Vec<BuiltObject>,
}

/// Build the tree of a directory picture. An effectively empty root
/// yields nothing: never a silent empty tree.
pub fn build_tree(root: &FsNode) -> (r: Option<TreeBuild>)
    ensures
        r is Some <==> !eff_empty(*root),
        r matches Some(t) ==> {
            &&& t.root@ == spec_node_id(*root)
            &&& t.root@.len() == 20
            &&& forall|j: int| 0 <= j < t.objects@.len() ==> built_ok(#[trigger] t.objects@[j])
            &&& exists|j: int| 0 <= j < t.objects@.len() && built_as(
                #[trigger] t.objects@[j], spec_node_kind(*root), spec_node_payload(*root))
            &&& objects_covered(spec_node_objects(*root), t.objects@, 0)
        },
{
    let mut objects: Vec<BuiltObject> = Vec::new();
    match build_node(root, &mut objects) {
        None => None,
        Some(id) => {
            let ghost obs = objects@;
            let t = TreeBuild { root: id, objects };
            proof {
                assert(t.objects@ == obs);
                assert forall|j: int| 0 <= j < t.objects@.len() implies built_ok(
                    #[trigger] t.objects@[j]) by {
                    assert(built_ok(obs[j]));
                }
                let w = choose|j: int|
                    0 <= j < obs.len() && built_as(
                        #[trigger] obs[j],
                        spec_node_kind(*root),
                        spec_node_payload(*root),
                    );
                assert(0 <= w < t.objects@.len() && built_as(
                    t.objects@[w],
                    spec_node_kind(*root),
                    spec_node_payload(*root),
                ));
                assert(objects_covered(spec_node_objects(*root), obs, 0));
                assert(objects_covered(spec_node_objects(*root), t.objects@, 0));
            }
            Some(t)
        },
    }
}

} // verus!
