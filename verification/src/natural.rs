use vstd::prelude::*;

verus! {

// Natural numbers of any size, as little-endian vectors of 32-bit limbs: the
// exact arithmetic behind sums of fractions whose denominators multiply up.

/// `2^32`, the weight of one limb.
pub open spec fn limb_base() -> nat {
    0x1_0000_0000
}

/// `2^(32 k)`, the weight of limb `k`.
pub open spec fn limb_pow(k: nat) -> nat
    decreases k,
{
    if k == 0 {
        1
    } else {
        limb_base() * limb_pow((k - 1) as nat)
    }
}

/// Limb `i` of `s`, 0 past its end.
pub open spec fn digit(s: Seq<u32>, i: int) -> nat {
    if 0 <= i < s.len() {
        s[i] as nat
    } else {
        0
    }
}

/// The value of the lowest `k` limbs of `s`.
pub open spec fn value_upto(s: Seq<u32>, k: nat) -> nat
    decreases k,
{
    if k == 0 {
        0
    } else {
        value_upto(s, (k - 1) as nat) + digit(s, k - 1) * limb_pow((k - 1) as nat)
    }
}

/// The number that the limbs `s` stand for.
pub open spec fn value(s: Seq<u32>) -> nat {
    value_upto(s, s.len())
}

/// The lowest `k` limbs are worth less than `2^(32 k)`.
pub proof fn lemma_value_upto_bound(s: Seq<u32>, k: nat)
    ensures
        value_upto(s, k) < limb_pow(k),
    decreases k,
{
    if k > 0 {
        let k1 = (k - 1) as nat;
        lemma_value_upto_bound(s, k1);
        let p = limb_pow(k1);
        let d = digit(s, k1 as int);
        assert(d < limb_base());
        assert(value_upto(s, k1) + d * p < limb_base() * p) by (nonlinear_arith)
            requires value_upto(s, k1) < p, d < limb_base(), d >= 0;
    }
}

/// Limbs past the end count nothing.
pub proof fn lemma_value_upto_beyond(s: Seq<u32>, k: nat)
    requires
        k >= s.len(),
    ensures
        value_upto(s, k) == value(s),
    decreases k,
{
    if k > s.len() {
        lemma_value_upto_beyond(s, (k - 1) as nat);
        assert(digit(s, k - 1) == 0);
        assert(digit(s, k - 1) * limb_pow((k - 1) as nat) == 0);
    }
}

/// Appending a limb leaves the lower limbs as they were.
pub proof fn lemma_value_upto_push(s: Seq<u32>, x: u32, k: nat)
    requires
        k <= s.len(),
    ensures
        value_upto(s.push(x), k) == value_upto(s, k),
    decreases k,
{
    if k > 0 {
        lemma_value_upto_push(s, x, (k - 1) as nat);
    }
}

pub proof fn lemma_value_push(s: Seq<u32>, x: u32)
    ensures
        value(s.push(x)) == value(s) + x * limb_pow(s.len()),
{
    lemma_value_upto_push(s, x, s.len());
}

/// The number `x` (below `2^64`).
pub fn from_u64(x: u64) -> (res: Vec<u32>)
    ensures
        value(res@) == x,
{
    let mut out: Vec<u32> = Vec::new();
    let mut rest: u64 = x;
    assert(value(out@) == 0 && limb_pow(out@.len()) == 1);
    while rest > 0
        invariant
            value(out@) + limb_pow(out@.len()) * rest == x,
        decreases rest,
    {
        let lo = (rest % 0x1_0000_0000) as u32;
        let hi = rest / 0x1_0000_0000;
        proof {
            lemma_value_push(out@, lo);
            let p = limb_pow(out@.len());
            let q = limb_pow(out@.len() + 1);
            assert(q == limb_base() * p);
            assert(p * rest == lo * p + q * hi) by (nonlinear_arith)
                requires rest == lo + limb_base() * hi, q == limb_base() * p;
        }
        out.push(lo);
        rest = hi;
    }
    out
}

/// `a * m`, for a factor `m` below `2^90`.
pub fn mul_small(a: &Vec<u32>, m: u128) -> (res: Vec<u32>)
    requires
        m < 0x400_0000_0000_0000_0000_0000,
    ensures
        value(res@) == value(a@) * m,
{
    let mut out: Vec<u32> = Vec::new();
    let mut carry: u128 = 0;
    let mut i: usize = 0;
    assert(value(out@) == 0 && value_upto(a@, 0) == 0);
    while i < a.len()
        invariant
            m < 0x400_0000_0000_0000_0000_0000,
            i <= a.len(),
            out@.len() == i,
            carry <= m,
            value(out@) + limb_pow(i as nat) * carry == m * value_upto(a@, i as nat),
        decreases a.len() - i,
    {
        let d = a[i] as u128;
        assert(d * m <= 0xffff_ffff * m) by (nonlinear_arith) requires d <= 0xffff_ffff;
        let t: u128 = d * m + carry;
        let lo = (t % 0x1_0000_0000) as u32;
        let hi = t / 0x1_0000_0000;
        proof {
            assert(t <= limb_base() * m) by (nonlinear_arith)
                requires t == d * m + carry, d <= 0xffff_ffff, carry <= m;
            assert(hi <= m) by (nonlinear_arith)
                requires hi == t / 0x1_0000_0000, t <= 0x1_0000_0000 * m;
            lemma_value_push(out@, lo);
            let p = limb_pow(i as nat);
            let q = limb_pow((i + 1) as nat);
            assert(q == limb_base() * p);
            assert(digit(a@, i as int) == d);
            assert(value_upto(a@, (i + 1) as nat) == value_upto(a@, i as nat) + d * p);
            assert(value(out@) + p * lo + q * hi == m * (value_upto(a@, i as nat) + d * p))
                by (nonlinear_arith)
                requires
                    value(out@) + p * carry == m * value_upto(a@, i as nat),
                    t == d * m + carry,
                    t == lo + limb_base() * hi,
                    q == limb_base() * p;
        }
        out.push(lo);
        carry = hi;
        i = i + 1;
    }
    proof {
        lemma_value_upto_beyond(a@, a@.len());
    }
    while carry > 0
        invariant
            value(out@) + limb_pow(out@.len()) * carry == m * value(a@),
        decreases carry,
    {
        let lo = (carry % 0x1_0000_0000) as u32;
        let hi = carry / 0x1_0000_0000;
        proof {
            lemma_value_push(out@, lo);
            let p = limb_pow(out@.len());
            let q = limb_pow(out@.len() + 1);
            assert(q == limb_base() * p);
            assert(p * carry == lo * p + q * hi) by (nonlinear_arith)
                requires carry == lo + limb_base() * hi, q == limb_base() * p;
        }
        out.push(lo);
        carry = hi;
    }
    out
}

/// `a + b`.
pub fn plus(a: &Vec<u32>, b: &Vec<u32>) -> (res: Vec<u32>)
    ensures
        value(res@) == value(a@) + value(b@),
{
    let n = if a.len() < b.len() { b.len() } else { a.len() };
    let mut out: Vec<u32> = Vec::new();
    let mut carry: u64 = 0;
    let mut i: usize = 0;
    assert(value(out@) == 0 && value_upto(a@, 0) == 0 && value_upto(b@, 0) == 0);
    while i < n
        invariant
            n >= a@.len(),
            n >= b@.len(),
            i <= n,
            out@.len() == i,
            carry <= 1,
            value(out@) + limb_pow(i as nat) * carry == value_upto(a@, i as nat) + value_upto(b@, i as nat),
        decreases n - i,
    {
        let da: u64 = if i < a.len() { a[i] as u64 } else { 0 };
        let db: u64 = if i < b.len() { b[i] as u64 } else { 0 };
        assert(da == digit(a@, i as int) && db == digit(b@, i as int));
        let t: u64 = da + db + carry;
        let lo = (t % 0x1_0000_0000) as u32;
        let hi = t / 0x1_0000_0000;
        proof {
            lemma_value_push(out@, lo);
            let p = limb_pow(i as nat);
            let q = limb_pow((i + 1) as nat);
            assert(q == limb_base() * p);
            assert(lo * p + q * hi == p * t) by (nonlinear_arith)
                requires t == lo + limb_base() * hi, q == limb_base() * p;
            assert(p * t == p * carry + da * p + db * p) by (nonlinear_arith)
                requires t == da + db + carry;
            assert(value_upto(a@, (i + 1) as nat) == value_upto(a@, i as nat) + da * p);
            assert(value_upto(b@, (i + 1) as nat) == value_upto(b@, i as nat) + db * p);
        }
        out.push(lo);
        carry = hi;
        i = i + 1;
    }
    proof {
        lemma_value_upto_beyond(a@, n as nat);
        lemma_value_upto_beyond(b@, n as nat);
        lemma_value_push(out@, carry as u32);
        assert(limb_pow(out@.len()) * carry == (carry as u32) * limb_pow(out@.len())) by (nonlinear_arith)
            requires carry <= 1;
    }
    if carry > 0 {
        out.push(carry as u32);
    }
    out
}

/// Whether `a <= b`.
pub fn le(a: &Vec<u32>, b: &Vec<u32>) -> (res: bool)
    ensures
        res == (value(a@) <= value(b@)),
{
    let n = if a.len() < b.len() { b.len() } else { a.len() };
    proof {
        lemma_value_upto_beyond(a@, n as nat);
        lemma_value_upto_beyond(b@, n as nat);
    }
    let mut i: usize = n;
    while i > 0
        invariant
            n >= a@.len(),
            n >= b@.len(),
            i <= n,
            value(a@) - value_upto(a@, i as nat) == value(b@) - value_upto(b@, i as nat),
        decreases i,
    {
        i = i - 1;
        let da: u32 = if i < a.len() { a[i] } else { 0 };
        let db: u32 = if i < b.len() { b[i] } else { 0 };
        assert(da == digit(a@, i as int) && db == digit(b@, i as int));
        if da != db {
            proof {
                let p = limb_pow(i as nat);
                lemma_value_upto_bound(a@, i as nat);
                lemma_value_upto_bound(b@, i as nat);
                let h = value(a@) - value_upto(a@, (i + 1) as nat);
                let la = value_upto(a@, i as nat);
                let lb = value_upto(b@, i as nat);
                if da < db {
                    assert(da * p + la < db * p + lb) by (nonlinear_arith)
                        requires da < db, la < p, lb >= 0, p > 0;
                } else {
                    assert(db * p + lb < da * p + la) by (nonlinear_arith)
                        requires db < da, lb < p, la >= 0, p > 0;
                }
            }
            return da < db;
        }
    }
    true
}

/// `t / q` rounded down, where the quotient is known to be below `bound`
/// (found by halving the range).
pub fn quotient(t: &Vec<u32>, q: &Vec<u32>, bound: u128) -> (res: u128)
    requires
        value(q@) > 0,
        bound < 0x400_0000_0000_0000_0000_0000,
        value(t@) < bound * value(q@),
    ensures
        res == value(t@) / value(q@),
{
    let ghost tv = value(t@) as int;
    let ghost qv = value(q@) as int;
    let mut lo: u128 = 0;
    let mut hi: u128 = bound;
    assert(0 < hi) by (nonlinear_arith) requires tv < hi * qv, tv >= 0, qv > 0;
    while hi - lo > 1
        invariant
            lo < hi <= bound,
            bound < 0x400_0000_0000_0000_0000_0000,
            qv == value(q@),
            tv == value(t@),
            qv > 0,
            lo * qv <= tv,
            tv < hi * qv,
        decreases hi - lo,
    {
        let mid = lo + (hi - lo) / 2;
        let m = mul_small(q, mid);
        assert(value(m@) == mid * qv) by (nonlinear_arith) requires value(m@) == qv * mid;
        if le(&m, t) {
            lo = mid;
        } else {
            hi = mid;
        }
    }
    proof {
        let rem = tv - lo * qv;
        assert(0 <= rem < qv) by (nonlinear_arith)
            requires lo * qv <= tv, tv < hi * qv, hi == lo + 1, rem == tv - lo * qv;
        vstd::arithmetic::div_mod::lemma_fundamental_div_mod_converse(tv, qv, lo as int, rem);
    }
    lo
}

} // verus!
