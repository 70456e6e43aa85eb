use vstd::prelude::*;

verus! {

/// The decimal rendering of a number, as ASCII digit bytes, no sign and
/// no leading zero (except for the single digit `0` itself).
pub open spec fn spec_dec(n: nat) -> Seq<u8>
    decreases n,
{
    if n < 10 {
        seq![(48 + n) as u8]
    } else {
        spec_dec(n / 10).push((48 + n % 10) as u8)
    }
}

/// Every byte is an ASCII digit.
pub open spec fn spec_is_digits(s: Seq<u8>) -> bool {
    forall|i: int| 0 <= i < s.len() ==> 48 <= #[trigger] s[i] <= 57
}

/// The number a string of ASCII digits denotes.
pub open spec fn spec_dec_val(s: Seq<u8>) -> int
    decreases s.len(),
{
    if s.len() == 0 {
        0
    } else {
        spec_dec_val(s.drop_last()) * 10 + (s.last() - 48)
    }
}

/// A decimal rendering consists of digits and never of nothing.
pub proof fn lemma_dec_digits(n: nat)
    ensures
        spec_is_digits(spec_dec(n)),
        spec_dec(n).len() > 0,
    decreases n,
{
    if n >= 10 {
        lemma_dec_digits(n / 10);
    }
}

/// Reading the decimal rendering of a number back gives the number.
pub proof fn lemma_dec_val_of_dec(n: nat)
    ensures
        spec_dec_val(spec_dec(n)) == n,
    decreases n,
{
    if n < 10 {
        assert(spec_dec(n) =~= seq![(48 + n) as u8]);
        assert(spec_dec(n).drop_last() =~= Seq::<u8>::empty());
        assert(spec_dec(n).last() == (48 + n) as u8);
        assert((48 + n) as u8 == 48 + n);
        assert(spec_dec_val(Seq::<u8>::empty()) == 0);
        assert(spec_dec_val(spec_dec(n)) == spec_dec_val(spec_dec(n).drop_last()) * 10 + (
        spec_dec(n).last() - 48));
    } else {
        lemma_dec_val_of_dec(n / 10);
        assert(spec_dec(n).drop_last() =~= spec_dec(n / 10));
        assert(spec_dec(n).last() == (48 + n % 10) as u8);
        assert(n % 10 < 10);
        assert((48 + n % 10) as u8 == 48 + n % 10);
        assert(spec_dec_val(spec_dec(n)) == (n / 10) * 10 + (n % 10));
        assert(n == (n / 10) * 10 + (n % 10));
    }
}

/// The value of a digit string never shrinks when digits are appended.
pub proof fn lemma_dec_val_prefix_le(s: Seq<u8>, i: int)
    requires
        spec_is_digits(s),
        0 <= i <= s.len(),
    ensures
        0 <= spec_dec_val(s.take(i)),
        spec_dec_val(s.take(i)) <= spec_dec_val(s),
    decreases s.len() - i,
{
    lemma_dec_val_nonneg(s.take(i));
    if i < s.len() {
        lemma_dec_val_prefix_le(s, i + 1);
        assert(s.take(i + 1).drop_last() =~= s.take(i));
        assert(spec_dec_val(s.take(i + 1)) == spec_dec_val(s.take(i)) * 10 + (s[i] - 48));
        lemma_dec_val_nonneg(s.take(i));
    } else {
        assert(s.take(i) =~= s);
    }
}

/// A digit string denotes a non-negative number.
pub proof fn lemma_dec_val_nonneg(s: Seq<u8>)
    requires
        spec_is_digits(s),
    ensures
        spec_dec_val(s) >= 0,
    decreases s.len(),
{
    if s.len() > 0 {
        assert(spec_is_digits(s.drop_last()));
        lemma_dec_val_nonneg(s.drop_last());
    }
}

/// The decimal rendering of a number, as ASCII bytes.
pub fn u64_to_dec(n: u64) -> (r: Vec<u8>)
    ensures
        r@ == spec_dec(n as nat),
{
    let mut v: Vec<u8> = Vec::new();
    let d0: u8 = (n % 10) as u8 + 48;
    v.push(d0);
    let mut m: u64 = n / 10;
    proof {
        if m > 0 {
            assert(spec_dec(n as nat) =~= spec_dec(m as nat) + v@);
        } else {
            assert(spec_dec(n as nat) =~= v@);
        }
    }
    while m > 0
        invariant
            spec_dec(n as nat) == if m > 0 { spec_dec(m as nat) + v@ } else { v@ },
        decreases m,
    {
        let d: u8 = (m % 10) as u8 + 48;
        v.insert(0, d);
        let ghost old_m = m as nat;
        m = m / 10;
        proof {
            if m > 0 {
                assert(spec_dec(old_m) + v@.drop_first() =~= spec_dec(m as nat) + v@);
            } else {
                assert(spec_dec(old_m) + v@.drop_first() =~= v@);
            }
        }
    }
    v
}

/// The number a string of ASCII digits denotes, if it is one and fits.
/// `None` exactly when the string is empty, holds a non-digit, or
/// denotes a number above `u64::MAX`.
pub fn parse_dec(s: &[u8]) -> (r: Option<u64>)
    ensures
        match r {
            Some(v) => s@.len() > 0 && spec_is_digits(s@) && v == spec_dec_val(s@),
            None => s@.len() == 0 || !spec_is_digits(s@) || spec_dec_val(s@) > u64::MAX,
        },
{
    if s.len() == 0 {
        return None;
    }
    let n = s.len();
    let mut acc: u64 = 0;
    let mut i: usize = 0;
    while i < n
        invariant
            n == s@.len(),
            0 <= i <= n,
            spec_is_digits(s@.take(i as int)),
            acc == spec_dec_val(s@.take(i as int)),
        decreases n - i,
    {
        let b = s[i];
        if b < 48 || b > 57 {
            assert(!spec_is_digits(s@));
            return None;
        }
        let d: u64 = (b - 48) as u64;
        proof {
            assert(s@.take(i + 1).drop_last() =~= s@.take(i as int));
            assert(spec_dec_val(s@.take(i + 1)) == acc * 10 + d);
        }
        if acc > (u64::MAX - d) / 10 {
            proof {
                assert(acc * 10 + d > u64::MAX) by (nonlinear_arith)
                    requires
                        acc > (u64::MAX - d) / 10,
                        d <= 9,
                        acc <= u64::MAX,
                ;
                if spec_is_digits(s@) {
                    lemma_dec_val_prefix_le(s@, i + 1);
                }
            }
            return None;
        }
        proof {
            assert(acc * 10 + d <= u64::MAX) by (nonlinear_arith)
                requires
                    acc <= (u64::MAX - d) / 10,
                    d <= 9,
            ;
        }
        acc = acc * 10 + d;
        i = i + 1;
    }
    proof {
        assert(s@.take(n as int) =~= s@);
    }
    Some(acc)
}

} // verus!
