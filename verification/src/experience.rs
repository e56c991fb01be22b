use vstd::prelude::*;
use rand::seq::SliceRandom;
use rand::Rng;

use crate::text::{
    count_in, count_strings_in, count_words_in, distinct, distinct_words, hex16, hex_digits,
    lemma_count_in_bound, split_words, strs, words_of,
};

verus! {

/// A waking memory fed into the dream cycle.
///
/// Fractional quantities are fixed-point integers in thousandths (1000 stands for 1.0).
#[derive(Debug, Clone)]
pub struct Experience {
    pub id: String,
    pub timestamp: u64,
    pub content: String,
    /// Importance, in thousandths.
    pub importance: i64,
    /// Valence, in thousandths: -1000 (very negative) to 1000 (very positive).
    pub emotion: i64,
    pub tags: Vec<String>,
    pub room_id: String,
}

/// The tag part of the similarity of `a` to `b`, as a fraction (numerator,
/// denominator): the number of `a`'s tags that `b` also has, over the number of
/// tags of both (half the tag similarity); 0 when neither has tags.
pub open spec fn tag_fraction(a: Experience, b: Experience) -> (int, int) {
    let total = a.tags@.len() + b.tags@.len();
    if total == 0 {
        (0, 1)
    } else {
        (count_in(strs(a.tags@), strs(b.tags@)) as int, total as int)
    }
}

/// The content part of the similarity, as a fraction: two empty contents count
/// as fully similar (1/2), one empty content as not similar; otherwise the number
/// of shared distinct words over the number of distinct words of both (half the
/// content similarity), 0 when there are no words.
pub open spec fn content_fraction(a: Experience, b: Experience) -> (int, int) {
    if a.content@.len() == 0 && b.content@.len() == 0 {
        (1, 2)
    } else if a.content@.len() == 0 || b.content@.len() == 0 {
        (0, 1)
    } else {
        let wa = distinct(words_of(a.content@));
        let wb = distinct(words_of(b.content@));
        let total = wa.len() + wb.len();
        if total == 0 {
            (0, 1)
        } else {
            (count_in(wa, wb) as int, total as int)
        }
    }
}

/// The similarity of two experiences as an exact fraction (numerator,
/// denominator): the tag part plus the content part.
pub open spec fn similarity_ratio(a: Experience, b: Experience) -> (int, int) {
    let (n1, d1) = tag_fraction(a, b);
    let (n2, d2) = content_fraction(a, b);
    (n1 * d2 + n2 * d1, d1 * d2)
}

/// The similarity in units of `1 / scale`, rounded down once.
pub open spec fn scaled_similarity(a: Experience, b: Experience, scale: int) -> int {
    let (num, den) = similarity_ratio(a, b);
    (scale * num) / den
}

/// Similarity of two experiences in thousandths, rounded down: the mean of tag
/// similarity and content similarity, that is the sum of the two fractions.
pub open spec fn similarity_of(a: Experience, b: Experience) -> int {
    scaled_similarity(a, b, 1000)
}

pub proof fn lemma_fractions_proper(a: Experience, b: Experience)
    ensures
        0 <= tag_fraction(a, b).0 <= tag_fraction(a, b).1,
        0 < tag_fraction(a, b).1,
        0 <= content_fraction(a, b).0 <= content_fraction(a, b).1,
        0 < content_fraction(a, b).1,
{
    lemma_count_in_bound(strs(a.tags@), strs(b.tags@));
    assert(strs(a.tags@).len() == a.tags@.len());
    if a.content@.len() > 0 && b.content@.len() > 0 {
        lemma_count_in_bound(distinct(words_of(a.content@)), distinct(words_of(b.content@)));
    }
}

pub proof fn lemma_similarity_bounds(a: Experience, b: Experience)
    ensures
        0 <= similarity_of(a, b) <= 2000,
{
    lemma_scaled_similarity_bounds(a, b, 1000);
}

pub proof fn lemma_scaled_similarity_bounds(a: Experience, b: Experience, scale: int)
    requires
        scale >= 0,
    ensures
        0 <= scaled_similarity(a, b, scale) <= 2 * scale,
{
    lemma_fractions_proper(a, b);
    let (n1, d1) = tag_fraction(a, b);
    let (n2, d2) = content_fraction(a, b);
    assert(0 <= (scale * (n1 * d2 + n2 * d1)) / (d1 * d2) <= 2 * scale) by (nonlinear_arith)
        requires 0 <= n1 <= d1, 0 < d1, 0 <= n2 <= d2, 0 < d2, scale >= 0;
}

/// `floor(scale (n1/d1 + n2/d2))` from the two floors and remainders.
pub proof fn lemma_floor_of_sum(n1: int, d1: int, n2: int, d2: int, scale: int)
    requires
        0 <= n1,
        0 < d1,
        0 <= n2,
        0 < d2,
        0 <= scale,
    ensures
        (scale * (n1 * d2 + n2 * d1)) / (d1 * d2) == (scale * n1) / d1 + (scale * n2) / d2 + if (scale * n1)
            % d1 * d2 + (scale * n2) % d2 * d1 >= d1 * d2 {
            1int
        } else {
            0int
        },
{
    let q1 = (scale * n1) / d1;
    let r1 = (scale * n1) % d1;
    let q2 = (scale * n2) / d2;
    let r2 = (scale * n2) % d2;
    vstd::arithmetic::div_mod::lemma_fundamental_div_mod(scale * n1, d1);
    vstd::arithmetic::div_mod::lemma_fundamental_div_mod(scale * n2, d2);
    vstd::arithmetic::div_mod::lemma_mod_bound(scale * n1, d1);
    vstd::arithmetic::div_mod::lemma_mod_bound(scale * n2, d2);
    let x = scale * (n1 * d2 + n2 * d1);
    let dd = d1 * d2;
    let r = r1 * d2 + r2 * d1;
    let s1 = scale * n1;
    let s2 = scale * n2;
    assert(x == s1 * d2 + s2 * d1) by (nonlinear_arith)
        requires x == scale * (n1 * d2 + n2 * d1), s1 == scale * n1, s2 == scale * n2;
    assert(s1 * d2 == q1 * dd + r1 * d2) by (nonlinear_arith)
        requires s1 == d1 * q1 + r1, dd == d1 * d2;
    assert(s2 * d1 == q2 * dd + r2 * d1) by (nonlinear_arith)
        requires s2 == d2 * q2 + r2, dd == d1 * d2;
    assert(x == (q1 + q2) * dd + r) by (nonlinear_arith)
        requires
            x == q1 * dd + r1 * d2 + q2 * dd + r2 * d1,
            r == r1 * d2 + r2 * d1;
    assert(0 <= r < 2 * dd) by (nonlinear_arith)
        requires 0 <= r1 < d1, 0 <= r2 < d2, dd == d1 * d2, r == r1 * d2 + r2 * d1;
    assert(dd > 0) by (nonlinear_arith) requires d1 > 0, d2 > 0, dd == d1 * d2;
    if r >= dd {
        assert(x == (q1 + q2 + 1) * dd + (r - dd)) by (nonlinear_arith)
            requires x == (q1 + q2) * dd + r;
        vstd::arithmetic::div_mod::lemma_fundamental_div_mod_converse(x, dd, q1 + q2 + 1, r - dd);
    } else {
        vstd::arithmetic::div_mod::lemma_fundamental_div_mod_converse(x, dd, q1 + q2, r);
    }
}

/// Compares the fractions `a/b` and `c/d` exactly, without multiplying (by the
/// continued-fraction expansion).
pub fn fraction_at_least(a: u128, b: u128, c: u128, d: u128) -> (res: bool)
    requires
        b > 0,
        d > 0,
    ensures
        res == (a * d >= c * b),
    decreases b + d,
{
    let qa = a / b;
    let qc = c / d;
    let ra = a % b;
    let rc = c % d;
    proof {
        vstd::arithmetic::div_mod::lemma_fundamental_div_mod(a as int, b as int);
        vstd::arithmetic::div_mod::lemma_fundamental_div_mod(c as int, d as int);
    }
    if qa != qc {
        proof {
            let (ai, bi, ci, di, qai, qci, rai, rci) = (a as int, b as int, c as int, d as int, qa as int, qc as int, ra as int, rc as int);
            assert((ai * di >= ci * bi) == (qai > qci)) by (nonlinear_arith)
                requires
                    ai == bi * qai + rai,
                    ci == di * qci + rci,
                    0 <= rai < bi,
                    0 <= rci < di,
                    qai != qci,
                    qai >= 0,
                    qci >= 0;
        }
        return qa > qc;
    }
    proof {
        let (ai, bi, ci, di, q, rai, rci) = (a as int, b as int, c as int, d as int, qa as int, ra as int, rc as int);
        assert(ai * di - ci * bi == rai * di - rci * bi) by (nonlinear_arith)
            requires ai == bi * q + rai, ci == di * q + rci;
        assert(rai * di >= 0 && rci * bi >= 0) by (nonlinear_arith)
            requires rai >= 0, rci >= 0, bi > 0, di > 0;
        if rai > 0 && rci > 0 {
            assert(rai * di == di * rai && rci * bi == bi * rci) by (nonlinear_arith);
        }
        if rci > 0 {
            assert(rci * bi > 0) by (nonlinear_arith) requires rci > 0, bi > 0;
        }
        if rai == 0 {
            assert(rai * di == 0) by (nonlinear_arith) requires rai == 0;
        }
        if rci == 0 {
            assert(rci * bi == 0) by (nonlinear_arith) requires rci == 0;
        }
    }
    if rc == 0 {
        return true;
    }
    if ra == 0 {
        return false;
    }
    fraction_at_least(d, rc, b, ra)
}

impl Experience {
    /// The two halves of the similarity to `other` as fractions: the tag part
    /// `(res.0, res.1)` and the content part `(res.2, res.3)`.
    pub(crate) fn similarity_fractions(&self, other: &Experience) -> (res: (u128, u128, u128, u128))
        ensures
            (res.0 as int, res.1 as int) == tag_fraction(*self, *other),
            (res.2 as int, res.3 as int) == content_fraction(*self, *other),
            res.1 <= 2 * (usize::MAX as int),
            res.3 <= 2 * (usize::MAX as int),
    {
        let la = self.tags.len() as u128;
        let lb = other.tags.len() as u128;
        let (n1, d1): (u128, u128) = if la + lb == 0 {
            (0, 1)
        } else {
            (count_strings_in(&self.tags, &other.tags) as u128, la + lb)
        };
        let (n2, d2): (u128, u128) = if self.content.as_str().is_empty() && other.content.as_str().is_empty() {
            (1, 2)
        } else if self.content.as_str().is_empty() || other.content.as_str().is_empty() {
            (0, 1)
        } else {
            let wa = distinct_words(&split_words(self.content.as_str()));
            let wb = distinct_words(&split_words(other.content.as_str()));
            let total = wa.len() as u128 + wb.len() as u128;
            if total == 0 {
                (0, 1)
            } else {
                (count_words_in(&wa, &wb) as u128, total)
            }
        };
        (n1, d1, n2, d2)
    }

    /// The similarity to `other` in units of `1 / scale`, rounded down once.
    pub fn scaled_similarity(&self, other: &Experience, scale: u128) -> (res: u128)
        requires
            scale <= 1_000_000_000_000_000,
        ensures
            res == scaled_similarity(*self, *other, scale as int),
            res <= 2 * scale,
    {
        proof {
            lemma_scaled_similarity_bounds(*self, *other, scale as int);
            lemma_fractions_proper(*self, *other);
        }
        let (n1, d1, n2, d2) = self.similarity_fractions(other);
        assert(scale * n1 <= 1_000_000_000_000_000 * 0x2_0000_0000_0000_0000) by (nonlinear_arith)
            requires scale <= 1_000_000_000_000_000, n1 <= 0x2_0000_0000_0000_0000;
        assert(scale * n2 <= 1_000_000_000_000_000 * 0x2_0000_0000_0000_0000) by (nonlinear_arith)
            requires scale <= 1_000_000_000_000_000, n2 <= 0x2_0000_0000_0000_0000;
        let x1 = scale * n1;
        let x2 = scale * n2;
        let r1 = x1 % d1;
        let r2 = x2 % d2;
        proof {
            lemma_floor_of_sum(n1 as int, d1 as int, n2 as int, d2 as int, scale as int);
            vstd::arithmetic::div_mod::lemma_mod_bound(x2 as int, d2 as int);
            let (r1i, r2i, d1i, d2i) = (r1 as int, r2 as int, d1 as int, d2 as int);
            assert((r1i * d2i >= (d2i - r2i) * d1i) == (r1i * d2i + r2i * d1i >= d1i * d2i)) by (nonlinear_arith);
        }
        let carry: u128 = if fraction_at_least(r1, d1, d2 - r2, d2) { 1 } else { 0 };
        x1 / d1 + x2 / d2 + carry
    }

    /// Similarity to another experience based on tag overlap and content overlap,
    /// in thousandths.
    pub fn similarity(&self, other: &Experience) -> (res: i64)
        ensures
            res == similarity_of(*self, *other),
            0 <= res <= 2000,
    {
        self.scaled_similarity(other, 1000) as i64
    }
}

/// A fresh random 64-bit number.
/// Wraps `rand::Rng::gen::<u64>` on `rand::thread_rng()`; the result is random,
/// so nothing is stated of it.
#[verifier::external_body]
pub(crate) fn random_u64() -> u64 {
    rand::thread_rng().gen::<u64>()
}

/// A random number in `lo..hi`.
/// Wraps `rand::Rng::gen_range` on `rand::thread_rng()`, which panics on an empty
/// range and otherwise returns a value of the range.
#[verifier::external_body]
pub(crate) fn random_in(lo: u64, hi: u64) -> (r: u64)
    requires
        lo < hi,
    ensures
        lo <= r < hi,
{
    rand::thread_rng().gen_range(lo..hi)
}

/// Shuffles `v` in place.
/// Wraps `rand::seq::SliceRandom::shuffle` with `rand::thread_rng()`, which swaps
/// elements (a Fisher-Yates shuffle): the result is a permutation of the input.
/// Which permutation is random, and not stated.
#[verifier::external_body]
pub(crate) fn shuffle(v: &mut Vec<usize>)
    ensures
        final(v)@.to_multiset() == old(v)@.to_multiset(),
{
    v.shuffle(&mut rand::thread_rng());
}

/// An identifier as `random_id` makes them: sixteen lower-case hex digits of some
/// 64-bit number.
pub open spec fn is_random_id(id: Seq<char>) -> bool {
    exists|r: nat| r < 0x1_0000_0000_0000_0000 && id == #[trigger] hex_digits(r, 16)
}

/// Helper to create a random ID: a random 64-bit number in sixteen hex digits.
pub fn random_id() -> (res: String)
    ensures
        is_random_id(res@),
{
    let r = random_u64();
    let res = hex16(r);
    assert(res@ == hex_digits(r as nat, 16));
    res
}

/// The numbers `0..n` in order.
pub open spec fn index_range(n: nat) -> Seq<usize> {
    Seq::new(n, |i: int| i as usize)
}

/// A permutation of `0..n` holds every index below `n` exactly once.
pub proof fn lemma_permutation_of_range(order: Seq<usize>, n: nat)
    requires
        n <= usize::MAX + 1,
        order.to_multiset() == index_range(n).to_multiset(),
    ensures
        order.len() == n,
        order.no_duplicates(),
        forall|k: int| 0 <= k < order.len() ==> order[k] < n,
{
    broadcast use vstd::seq_lib::group_to_multiset_ensures;

    let r = index_range(n);
    assert(order.len() == order.to_multiset().len());
    assert(r.len() == r.to_multiset().len());
    assert(r.no_duplicates());
    r.lemma_multiset_has_no_duplicates();
    order.lemma_multiset_has_no_duplicates_conv();
    assert forall|k: int| 0 <= k < order.len() implies order[k] < n by {
        assert(order.contains(order[k]));
        assert(order.to_multiset().count(order[k]) > 0);
        assert(r.contains(order[k]));
    }
}

/// The indices `0..n` in a random order.
pub fn shuffled_indices(n: usize) -> (res: Vec<usize>)
    ensures
        res@.len() == n,
        res@.no_duplicates(),
        forall|k: int| 0 <= k < res@.len() ==> res@[k] < n,
        res@.to_multiset() == index_range(n as nat).to_multiset(),
{
    let mut v: Vec<usize> = Vec::new();
    for i in 0..n
        invariant
            v@ == index_range(i as nat),
    {
        v.push(i);
        assert(v@ =~= index_range((i + 1) as nat));
    }
    shuffle(&mut v);
    proof {
        lemma_permutation_of_range(v@, n as nat);
    }
    v
}

/// Pick `n` random items from a slice: clones of `min(n, items.len())` items at
/// distinct positions.
pub fn _pick_random<T: Clone>(items: &[T], n: usize) -> (res: Vec<T>)
    ensures
        res@.len() == if n < items@.len() { n as int } else { items@.len() as int },
        exists|picked: Seq<usize>|
            #![trigger picked.len()]
            picked.len() == res@.len() && picked.no_duplicates() && (forall|k: int|
                0 <= k < picked.len() ==> picked[k] < items@.len() && cloned(
                    items@[picked[k] as int],
                    #[trigger] res@[k],
                )),
{
    let order = shuffled_indices(items.len());
    let count = if n < items.len() {
        n
    } else {
        items.len()
    };
    let mut res: Vec<T> = Vec::new();
    for k in 0..count
        invariant
            count <= order@.len(),
            order@.len() == items@.len(),
            order@.no_duplicates(),
            forall|j: int| 0 <= j < order@.len() ==> order@[j] < items@.len(),
            res@.len() == k,
            forall|j: int| 0 <= j < k ==> cloned(items@[order@[j] as int], #[trigger] res@[j]),
    {
        res.push(items[order[k]].clone());
    }
    let ghost picked = order@.take(count as int);
    assert(picked.no_duplicates());
    assert(picked.len() == res@.len());
    res
}

} // verus!

verus! {

pub proof fn lemma_count_in_all<A>(s: Seq<A>, other: Seq<A>)
    requires
        forall|k: int| 0 <= k < s.len() ==> other.contains(#[trigger] s[k]),
    ensures
        count_in(s, other) == s.len(),
    decreases s.len(),
{
    if s.len() > 0 {
        let init = s.drop_last();
        assert forall|k: int| 0 <= k < init.len() implies other.contains(#[trigger] init[k]) by {
            assert(init[k] == s[k]);
        }
        lemma_count_in_all(init, other);
        assert(other.contains(s[s.len() - 1]));
    }
}

pub proof fn lemma_distinct_nonempty<A>(s: Seq<A>)
    ensures
        s.len() > 0 ==> distinct(s).len() > 0,
    decreases s.len(),
{
    if s.len() > 1 {
        lemma_distinct_nonempty(s.drop_last());
    }
}

proof fn lemma_half_fractions(n1: int, d1: int, n2: int, d2: int)
    requires
        d1 > 0,
        d2 > 0,
        n1 == 0 || 2 * n1 == d1,
        n2 == 0 || 2 * n2 == d2,
    ensures
        (1000 * (n1 * d2 + n2 * d1)) / (d1 * d2) == (if n1 > 0 { 500int } else { 0int }) + (if n2 > 0 {
            500int
        } else {
            0int
        }),
{
    let v = (if n1 > 0 { 500int } else { 0int }) + (if n2 > 0 { 500int } else { 0int });
    let dd = d1 * d2;
    assert(dd > 0) by (nonlinear_arith) requires d1 > 0, d2 > 0, dd == d1 * d2;
    assert(1000 * (n1 * d2 + n2 * d1) == v * dd) by (nonlinear_arith)
        requires
            d1 > 0,
            d2 > 0,
            n1 == 0 || 2 * n1 == d1,
            n2 == 0 || 2 * n2 == d2,
            v == (if n1 > 0 { 500int } else { 0int }) + (if n2 > 0 { 500int } else { 0int }),
            dd == d1 * d2;
    vstd::arithmetic::div_mod::lemma_fundamental_div_mod_converse(1000 * (n1 * d2 + n2 * d1), dd, v, 0);
}

/// Two experiences with the same tags and the same content are as similar as
/// their tags and words allow: half for having tags, half for having words (or
/// for both contents being empty); so 1.0 when they have tags and words.
pub proof fn lemma_same_experience_similarity(a: Experience, b: Experience)
    requires
        strs(a.tags@) == strs(b.tags@),
        a.content@ == b.content@,
    ensures
        similarity_of(a, b) == (if a.tags@.len() > 0 { 500int } else { 0int }) + (if a.content@.len()
            == 0 || words_of(a.content@).len() > 0 {
            500int
        } else {
            0int
        }),
{
    let ta = strs(a.tags@);
    assert(ta.len() == a.tags@.len());
    assert(strs(b.tags@).len() == b.tags@.len());
    assert forall|k: int| 0 <= k < ta.len() implies ta.contains(#[trigger] ta[k]) by {}
    lemma_count_in_all(ta, ta);
    if a.content@.len() > 0 {
        let w = distinct(words_of(a.content@));
        assert forall|k: int| 0 <= k < w.len() implies w.contains(#[trigger] w[k]) by {}
        lemma_count_in_all(w, w);
        lemma_distinct_nonempty(words_of(a.content@));
        if words_of(a.content@).len() == 0 {
            assert(w.len() == 0);
        }
    }
    let (n1, d1) = tag_fraction(a, b);
    let (n2, d2) = content_fraction(a, b);
    lemma_half_fractions(n1, d1, n2, d2);
}

} // verus!

verus! {

pub proof fn lemma_distinct_no_duplicates<A>(s: Seq<A>)
    ensures
        distinct(s).no_duplicates(),
    decreases s.len(),
{
    if s.len() > 0 {
        lemma_distinct_no_duplicates(s.drop_last());
        let d = distinct(s.drop_last());
        if !d.contains(s.last()) {
            let e = d.push(s.last());
            assert forall|i: int, j: int| 0 <= i < e.len() && 0 <= j < e.len() && i != j implies e[i] != e[j] by {
                if i == d.len() as int {
                    assert(d.contains(e[j]));
                } else if j == d.len() as int {
                    assert(d.contains(e[i]));
                }
            }
        }
    }
}

/// Counting the elements of a repeat-free `s` found in `other` counts the
/// elements the two have in common.
pub proof fn lemma_count_in_common<A>(s: Seq<A>, other: Seq<A>)
    requires
        s.no_duplicates(),
    ensures
        count_in(s, other) == s.to_set().intersect(other.to_set()).len(),
    decreases s.len(),
{
    broadcast use vstd::set::group_set_axioms, vstd::seq_lib::group_seq_properties, vstd::set_lib::group_set_properties;

    if s.len() == 0 {
        assert(s.to_set().intersect(other.to_set()) =~= Set::<A>::empty());
    } else {
        let init = s.drop_last();
        let x = s.last();
        assert(init.no_duplicates());
        lemma_count_in_common(init, other);
        let common = init.to_set().intersect(other.to_set());
        assert(!init.contains(x)) by {
            if init.contains(x) {
                let k = choose|k: int| 0 <= k < init.len() && init[k] == x;
                assert(s[k] == s[s.len() - 1]);
            }
        }
        assert(s.to_set() =~= init.to_set().insert(x)) by {
            assert forall|y: A| s.to_set().contains(y) <==> init.to_set().insert(x).contains(y) by {
                crate::order::lemma_push_contains(init, x, y);
                assert(init.push(x) == s);
            }
        }
        if other.contains(x) {
            assert(s.to_set().intersect(other.to_set()) =~= common.insert(x));
            assert(!common.contains(x));
        } else {
            assert(s.to_set().intersect(other.to_set()) =~= common);
        }
    }
}

/// For experiences whose tags have no repeats, similarity is symmetric.
pub proof fn lemma_similarity_symmetric(a: Experience, b: Experience)
    requires
        strs(a.tags@).no_duplicates(),
        strs(b.tags@).no_duplicates(),
    ensures
        similarity_of(a, b) == similarity_of(b, a),
{
    broadcast use vstd::set::group_set_axioms;

    let ta = strs(a.tags@);
    let tb = strs(b.tags@);
    lemma_count_in_common(ta, tb);
    lemma_count_in_common(tb, ta);
    assert(ta.to_set().intersect(tb.to_set()) =~= tb.to_set().intersect(ta.to_set()));
    if a.content@.len() > 0 && b.content@.len() > 0 {
        let wa = distinct(words_of(a.content@));
        let wb = distinct(words_of(b.content@));
        lemma_distinct_no_duplicates(words_of(a.content@));
        lemma_distinct_no_duplicates(words_of(b.content@));
        lemma_count_in_common(wa, wb);
        lemma_count_in_common(wb, wa);
        assert(wa.to_set().intersect(wb.to_set()) =~= wb.to_set().intersect(wa.to_set()));
    }
    let (n1, d1) = tag_fraction(a, b);
    let (n2, d2) = content_fraction(a, b);
    assert(tag_fraction(b, a) == (n1, d1));
    assert(content_fraction(b, a) == (n2, d2));
}

proof fn lemma_common_at_most_half<A>(s: Seq<A>, other: Seq<A>)
    requires
        s.no_duplicates(),
        other.no_duplicates(),
    ensures
        2 * count_in(s, other) <= s.len() + other.len(),
{
    broadcast use vstd::set::group_set_axioms, vstd::set_lib::group_set_properties;

    lemma_count_in_common(s, other);
    s.unique_seq_to_set();
    other.unique_seq_to_set();
    let c = s.to_set().intersect(other.to_set());
    vstd::set_lib::lemma_len_subset(c, s.to_set());
    vstd::set_lib::lemma_len_subset(c, other.to_set());
}

/// For experiences whose tags have no repeats, similarity is at most 1.0.
pub proof fn lemma_similarity_at_most_one(a: Experience, b: Experience)
    requires
        strs(a.tags@).no_duplicates(),
        strs(b.tags@).no_duplicates(),
    ensures
        0 <= similarity_of(a, b) <= 1000,
{
    lemma_fractions_proper(a, b);
    let ta = strs(a.tags@);
    let tb = strs(b.tags@);
    assert(ta.len() == a.tags@.len() && tb.len() == b.tags@.len());
    lemma_common_at_most_half(ta, tb);
    if a.content@.len() > 0 && b.content@.len() > 0 {
        lemma_distinct_no_duplicates(words_of(a.content@));
        lemma_distinct_no_duplicates(words_of(b.content@));
        lemma_common_at_most_half(distinct(words_of(a.content@)), distinct(words_of(b.content@)));
    }
    let (n1, d1) = tag_fraction(a, b);
    let (n2, d2) = content_fraction(a, b);
    assert(2 * n1 <= d1 && 2 * n2 <= d2);
    let dd = d1 * d2;
    let x = 1000 * (n1 * d2 + n2 * d1);
    assert(0 <= x <= 1000 * dd && dd > 0) by (nonlinear_arith)
        requires 0 <= n1, 2 * n1 <= d1, 0 <= n2, 2 * n2 <= d2, d1 > 0, d2 > 0, dd == d1 * d2, x == 1000 * (n1 * d2 + n2 * d1);
    vstd::arithmetic::div_mod::lemma_div_is_ordered(x, 1000 * dd, dd);
    vstd::arithmetic::div_mod::lemma_div_by_multiple(1000, dd);
    assert(1000 * dd == 1000 * dd);
}

/// The similarity as the mean of two scores: the tag score `2 c / t` (`c` tags of
/// `a` that `b` also has, `t` tags in all; 0 without tags) and the content score
/// (1 when both contents are empty, 0 when one is, otherwise `2 w / v` with `w`
/// distinct words of `a` that `b` also has and `v` distinct words of both; 0
/// without words); in thousandths, rounded down once.
pub proof fn lemma_similarity_formula(a: Experience, b: Experience)
    ensures
        ({
            let t = a.tags@.len() + b.tags@.len();
            let (tn, td) = if t == 0 {
                (0int, 1int)
            } else {
                (2 * count_in(strs(a.tags@), strs(b.tags@)) as int, t as int)
            };
            let wa = distinct(words_of(a.content@));
            let wb = distinct(words_of(b.content@));
            let (cn, cd) = if a.content@.len() == 0 && b.content@.len() == 0 {
                (1int, 1int)
            } else if a.content@.len() == 0 || b.content@.len() == 0 || wa.len() + wb.len() == 0 {
                (0int, 1int)
            } else {
                (2 * count_in(wa, wb) as int, (wa.len() + wb.len()) as int)
            };
            similarity_of(a, b) == (1000 * (tn * cd + cn * td)) / (2 * td * cd)
        }),
{
    let t = a.tags@.len() + b.tags@.len();
    let (n1, d1) = tag_fraction(a, b);
    let (n2, d2) = content_fraction(a, b);
    lemma_fractions_proper(a, b);
    let (tn, td) = if t == 0 {
        (0int, 1int)
    } else {
        (2 * count_in(strs(a.tags@), strs(b.tags@)) as int, t as int)
    };
    let wa = distinct(words_of(a.content@));
    let wb = distinct(words_of(b.content@));
    let (cn, cd) = if a.content@.len() == 0 && b.content@.len() == 0 {
        (1int, 1int)
    } else if a.content@.len() == 0 || b.content@.len() == 0 || wa.len() + wb.len() == 0 {
        (0int, 1int)
    } else {
        (2 * count_in(wa, wb) as int, (wa.len() + wb.len()) as int)
    };
    // the scores are twice the fractions, or the same fraction over doubled terms
    assert(tn * d1 == 2 * n1 * td);
    assert(cn * d2 == 2 * n2 * cd);
    let dd = d1 * d2;
    let x1 = tn * cd;
    let x2 = cn * td;
    vstd::arithmetic::mul::lemma_mul_is_distributive_add_other_way(dd, x1, x2);
    assert(x1 * dd == (tn * d1) * (cd * d2)) by (nonlinear_arith) requires x1 == tn * cd, dd == d1 * d2;
    assert(x2 * dd == (cn * d2) * (td * d1)) by (nonlinear_arith) requires x2 == cn * td, dd == d1 * d2;
    assert((2 * n1 * td) * (cd * d2) == 2 * td * cd * (n1 * d2)) by (nonlinear_arith);
    assert((2 * n2 * cd) * (td * d1) == 2 * td * cd * (n2 * d1)) by (nonlinear_arith);
    let e = 2 * td * cd;
    vstd::arithmetic::mul::lemma_mul_is_distributive_add(e, n1 * d2, n2 * d1);
    assert(x1 * dd == e * (n1 * d2));
    assert(x2 * dd == e * (n2 * d1));
    assert((x1 + x2) * dd == e * (n1 * d2 + n2 * d1));
    vstd::arithmetic::mul::lemma_mul_is_commutative(e, n1 * d2 + n2 * d1);
    assert((1000 * (tn * cd + cn * td)) * (d1 * d2) == (1000 * (n1 * d2 + n2 * d1)) * (2 * td * cd)) by (nonlinear_arith)
        requires (tn * cd + cn * td) * (d1 * d2) == (n1 * d2 + n2 * d1) * (2 * td * cd);
    assert(2 * td * cd > 0 && d1 * d2 > 0) by (nonlinear_arith) requires td > 0, cd > 0, d1 > 0, d2 > 0;
    lemma_quotients_of_equal_fractions(
        1000 * (tn * cd + cn * td),
        2 * td * cd,
        1000 * (n1 * d2 + n2 * d1),
        d1 * d2,
    );
}

/// Equal fractions have equal quotients.
pub proof fn lemma_quotients_of_equal_fractions(x: int, y: int, z: int, w: int)
    requires
        y > 0,
        w > 0,
        x * w == z * y,
    ensures
        x / y == z / w,
{
    let q = z / w;
    let r = z % w;
    vstd::arithmetic::div_mod::lemma_fundamental_div_mod(z, w);
    vstd::arithmetic::div_mod::lemma_mod_bound(z, w);
    let r2 = x - q * y;
    assert(r2 * w == r * y) by (nonlinear_arith) requires x * w == z * y, z == w * q + r, r2 == x - q * y;
    assert(0 <= r2 < y) by (nonlinear_arith) requires r2 * w == r * y, 0 <= r < w, w > 0, y > 0;
    vstd::arithmetic::div_mod::lemma_fundamental_div_mod_converse(x, y, q, r2);
}

} // verus!
