use vstd::prelude::*;

verus! {

/// The bytes of two byte strings are equal.
pub fn bytes_eq(a: &[u8], b: &[u8]) -> (r: bool)
    ensures
        r == (a@ == b@),
{
    if a.len() != b.len() {
        assert(a@ != b@) by {
            assert(a@.len() != b@.len());
        }
        return false;
    }
    let n = a.len();
    let mut i: usize = 0;
    while i < n
        invariant
            n == a@.len() && n == b@.len(),
            i <= n,
            forall|j: int| 0 <= j < i ==> a@[j] == b@[j],
        decreases n - i,
    {
        if a[i] != b[i] {
            return false;
        }
        i = i + 1;
    }
    proof {
        assert(a@ =~= b@);
    }
    true
}

/// Append a byte string to the end of a vector.
pub fn push_bytes(v: &mut Vec<u8>, s: &[u8])
    ensures
        final(v)@ == old(v)@ + s@,
{
    let n = s.len();
    let mut i: usize = 0;
    while i < n
        invariant
            n == s@.len(),
            i <= n,
            v@ == old(v)@ + s@.take(i as int),
        decreases n - i,
    {
        v.push(s[i]);
        proof {
            assert(old(v)@ + s@.take(i as int) + seq![s@[i as int]] =~= old(v)@ + s@.take(
            i as int + 1));
        }
        i = i + 1;
    }
    proof {
        assert(s@.take(n as int) =~= s@);
    }
}

/// A fresh vector holding the bytes of `s` between `from` and `to`.
pub fn copy_range(s: &[u8], from: usize, to: usize) -> (r: Vec<u8>)
    requires
        from <= to <= s@.len(),
    ensures
        r@ == s@.subrange(from as int, to as int),
{
    let mut v: Vec<u8> = Vec::new();
    let mut i: usize = from;
    while i < to
        invariant
            from <= i <= to <= s@.len(),
            v@ == s@.subrange(from as int, i as int),
        decreases to - i,
    {
        v.push(s[i]);
        proof {
            assert(s@.subrange(from as int, i as int) + seq![s@[i as int]] =~= s@.subrange(
            from as int, i as int + 1));
        }
        i = i + 1;
    }
    v
}

/// A fresh copy of a byte string.
pub fn copy_bytes(s: &[u8]) -> (r: Vec<u8>)
    ensures
        r@ == s@,
{
    let r = copy_range(s, 0, s.len());
    proof {
        assert(s@.subrange(0, s@.len() as int) =~= s@);
    }
    r
}

/// The first occurrence of a byte is where one stands with none before.
pub proof fn lemma_index_of_first_is(s: Seq<u8>, b: u8, idx: int)
    requires
        0 <= idx < s.len(),
        s[idx] == b,
        forall|j: int| 0 <= j < idx ==> s[j] != b,
    ensures
        s.index_of_first(b) == Some(idx),
{
    s.index_of_first_ensures(b);
    assert(s.contains(b)) by {
        assert(s[idx] == b);
    }
}

/// The position of the first occurrence of `b` in `s`, if there is one.
pub fn find_byte(s: &[u8], b: u8) -> (r: Option<usize>)
    ensures
        match r {
            Some(i) => s@.index_of_first(b) == Some(i as int),
            None => s@.index_of_first(b) is None,
        },
{
    proof {
        s@.index_of_first_ensures(b);
    }
    let n = s.len();
    let mut i: usize = 0;
    while i < n
        invariant
            n == s@.len(),
            i <= n,
            forall|j: int| 0 <= j < i ==> s@[j] != b,
            s@.index_of_first(b) matches Some(k) ==> i <= k,
        decreases n - i,
    {
        if s[i] == b {
            proof {
                s@.index_of_first_ensures(b);
            }
            return Some(i);
        }
        i = i + 1;
        proof {
            s@.index_of_first_ensures(b);
        }
    }
    proof {
        s@.index_of_first_ensures(b);
    }
    None
}

} // verus!
