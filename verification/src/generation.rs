use vstd::prelude::*;

use crate::dream_cycle::DreamType;
use crate::experience::{
    fraction_at_least, lemma_fractions_proper, random_in, shuffled_indices, similarity_of, similarity_ratio,
    Experience,
};
use crate::text::{join, join_words, push_str, split_words, strs, views_of, words_of};
use crate::tile::{all_random_ids, shapes, DreamTile, TileShape};

verus! {

/// Creates novel combinations from dissimilar experiences.
pub struct GenerationEngine {
    /// How far to push combinations, in thousandths (0 to 1000).
    pub creativity: i64,
}

/// A pair is combined when it is dissimilar enough: its dissimilarity
/// (1 minus the exact similarity) is at least 0.3 times (1 minus creativity).
pub open spec fn dissimilar_enough(creativity: int, a: Experience, b: Experience) -> bool {
    let (num, den) = similarity_ratio(a, b);
    10000 * (den - num) >= 3 * (1000 - creativity) * den
}

/// The unit of blend factors: a factor `f` stands for `f / BLEND_UNIT`.
pub const BLEND_UNIT: u64 = 1_000_000_000;

/// Blend factors are drawn from `[0.3, 0.7)`, in units of `1 / BLEND_UNIT`.
pub const BLEND_LOW: u64 = 300_000_000;

pub const BLEND_HIGH: u64 = 700_000_000;

pub open spec fn ceil_div(x: int, d: int) -> int {
    (x + d - 1) / d
}

/// The blended text of two experiences: the first `ceil(|words of a| * blend)`
/// words of `a`, then the first `ceil(|words of b| * (1 - blend))` words of `b`,
/// joined by single spaces; when one side has no words, the other side's content.
pub open spec fn blended_text(a: Experience, b: Experience, blend: int) -> Seq<char> {
    let wa = words_of(a.content@);
    let wb = words_of(b.content@);
    if wa.len() == 0 && wb.len() == 0 {
        "(generated)"@
    } else if wa.len() == 0 {
        b.content@
    } else if wb.len() == 0 {
        a.content@
    } else {
        let ta = ceil_div(wa.len() * blend, BLEND_UNIT as int);
        let tb = ceil_div(wb.len() * (BLEND_UNIT - blend), BLEND_UNIT as int);
        join(
            wa.take(if ta < wa.len() { ta } else { wa.len() as int }) + wb.take(
                if tb < wb.len() { tb } else { wb.len() as int },
            ),
            " "@,
        )
    }
}

/// The tile generated from a pair: novelty is the pair's dissimilarity, 1 minus
/// the similarity in thousandths, and confidence is 1 minus half the novelty, in
/// thousandths rounded down (which is 1 minus half the exact dissimilarity,
/// rounded down once: see `lemma_confidence_exact`).
pub open spec fn generated_shape(a: Experience, b: Experience, blend: int) -> TileShape {
    let novelty = 1000 - similarity_of(a, b);
    TileShape {
        content: "generated: "@ + blended_text(a, b, blend),
        sources: seq![a.id@, b.id@],
        novelty: novelty,
        confidence: (2000 - novelty) / 2,
        dream_type: DreamType::Generation,
    }
}

/// The tiles from the first `k` pairs `(order[0], order[1])`, `(order[2], order[3])`,
/// ..., each pair blended with `blends[pair]` when dissimilar enough.
pub open spec fn generated_upto(
    exps: Seq<Experience>,
    creativity: int,
    order: Seq<int>,
    blends: Seq<int>,
    k: nat,
) -> Seq<TileShape>
    decreases k,
{
    if k == 0 {
        seq![]
    } else {
        let rest = generated_upto(exps, creativity, order, blends, (k - 1) as nat);
        let a = exps[order[2 * k - 2]];
        let b = exps[order[2 * k - 1]];
        if dissimilar_enough(creativity, a, b) {
            rest.push(generated_shape(a, b, blends[k - 1]))
        } else {
            rest
        }
    }
}

/// The tiles from pairing the experiences in the given order (a leftover odd one
/// is skipped).
pub open spec fn generation_shapes(
    exps: Seq<Experience>,
    creativity: int,
    order: Seq<int>,
    blends: Seq<int>,
) -> Seq<TileShape> {
    generated_upto(exps, creativity, order, blends, (order.len() / 2) as nat)
}

/// A pairing order and blend factors as `generate` draws them: a permutation of
/// the indices of `exps`, and one factor in `[0.3, 0.7)` per pair (in units of
/// `1 / BLEND_UNIT`).
pub open spec fn valid_draws(exps: Seq<Experience>, order: Seq<int>, blends: Seq<int>) -> bool {
    &&& order.len() == exps.len()
    &&& order.no_duplicates()
    &&& forall|p: int| 0 <= p < order.len() ==> 0 <= #[trigger] order[p] < exps.len()
    &&& blends.len() == order.len() / 2
    &&& forall|p: int| 0 <= p < blends.len() ==> BLEND_LOW <= #[trigger] blends[p] < BLEND_HIGH
}

pub open spec fn usize_ints(v: Seq<usize>) -> Seq<int> {
    v.map_values(|x: usize| x as int)
}

pub open spec fn u64_ints(v: Seq<u64>) -> Seq<int> {
    v.map_values(|x: u64| x as int)
}

impl GenerationEngine {
    pub fn new(creativity: i64) -> (res: Self)
        ensures
            res.creativity == creativity,
    {
        GenerationEngine { creativity }
    }

    /// Whether the pair is dissimilar enough to be combined, decided exactly on
    /// the two fractions of the similarity.
    fn dissimilar(creativity: i64, a: &Experience, b: &Experience) -> (res: bool)
        ensures
            res == dissimilar_enough(creativity as int, *a, *b),
    {
        let (n1, d1, n2, d2) = a.similarity_fractions(b);
        let ghost (n1i, d1i, n2i, d2i) = (n1 as int, d1 as int, n2 as int, d2 as int);
        let ghost num = n1i * d2i + n2i * d1i;
        let ghost den = d1i * d2i;
        proof {
            lemma_fractions_proper(*a, *b);
            assert(similarity_ratio(*a, *b) == (num, den));
            assert(0 <= num <= 2 * den && den > 0) by (nonlinear_arith)
                requires 0 <= n1i <= d1i, 0 < d1i, 0 <= n2i <= d2i, 0 < d2i, num == n1i * d2i + n2i * d1i, den == d1i * d2i;
        }
        // dissimilar enough exactly when (7000 + 3 creativity) den >= 10000 num
        let t: i128 = 7000 + 3 * (creativity as i128);
        let ghost ti = t as int;
        assert(dissimilar_enough(creativity as int, *a, *b) == (ti * den >= 10000 * num)) by (nonlinear_arith)
            requires
                dissimilar_enough(creativity as int, *a, *b) == (10000 * (den - num) >= 3 * (1000 - creativity) * den),
                ti == 7000 + 3 * creativity;
        if t < 0 {
            assert(ti * den < 0) by (nonlinear_arith) requires ti < 0, den > 0;
            return false;
        }
        if t >= 20000 {
            assert(ti * den >= 20000 * den) by (nonlinear_arith) requires ti >= 20000, den > 0;
            return true;
        }
        assert((t as u128) * d2 <= 20000 * 0x2_0000_0000_0000_0000) by (nonlinear_arith)
            requires 0 <= t < 20000, d2 <= 0x2_0000_0000_0000_0000;
        let lhs: u128 = (t as u128) * d2;
        let m: u128 = 10000 * n2;
        assert(ti * den - 10000 * num == (ti * d2i - 10000 * n2i) * d1i - 10000 * n1i * d2i) by (nonlinear_arith)
            requires num == n1i * d2i + n2i * d1i, den == d1i * d2i;
        if lhs < m {
            assert((ti * d2i - 10000 * n2i) * d1i < 0) by (nonlinear_arith)
                requires ti * d2i - 10000 * n2i < 0, d1i > 0;
            assert(10000 * n1i * d2i >= 0) by (nonlinear_arith) requires n1i >= 0, d2i > 0;
            return false;
        }
        let res = fraction_at_least(lhs - m, 10000 * d2, n1, d1);
        assert(((lhs - m) as int) * d1i == (ti * d2i - 10000 * n2i) * d1i);
        assert(n1i * (10000 * d2i) == 10000 * n1i * d2i) by (nonlinear_arith);
        res
    }

    fn blend(a: &Experience, b: &Experience, blend: u64) -> (res: String)
        requires
            blend < BLEND_UNIT,
        ensures
            res@ == blended_text(*a, *b, blend as int),
    {
        let wa = split_words(a.content.as_str());
        let wb = split_words(b.content.as_str());
        proof {
            assert(views_of(wa@).len() == wa@.len());
            assert(views_of(wb@).len() == wb@.len());
        }
        if wa.len() == 0 && wb.len() == 0 {
            let mut s = String::new();
            push_str(&mut s, "(generated)");
            s
        } else if wa.len() == 0 {
            b.content.clone()
        } else if wb.len() == 0 {
            a.content.clone()
        } else {
            let na = wa.len() as u128;
            let nb = wb.len() as u128;
            let bf = blend as u128;
            let unit = BLEND_UNIT as u128;
            assert(na * bf <= 0x1_0000_0000_0000_0000 * 1_000_000_000) by (nonlinear_arith)
                requires na <= 0x1_0000_0000_0000_0000, bf < 1_000_000_000;
            assert(nb * (unit - bf) <= 0x1_0000_0000_0000_0000 * 1_000_000_000) by (nonlinear_arith)
                requires nb <= 0x1_0000_0000_0000_0000, bf < 1_000_000_000, unit == 1_000_000_000;
            let ta = (na * bf + (unit - 1)) / unit;
            let tb = (nb * (unit - bf) + (unit - 1)) / unit;
            let ta_n: usize = if ta < na { ta as usize } else { wa.len() };
            let tb_n: usize = if tb < nb { tb as usize } else { wb.len() };
            let ghost va = views_of(wa@);
            let ghost vb = views_of(wb@);
            let mut parts: Vec<Vec<char>> = Vec::new();
            for k in 0..ta_n
                invariant
                    ta_n <= wa@.len(),
                    va == views_of(wa@),
                    views_of(parts@) == va.take(k as int),
            {
                let w = wa[k].clone();
                assert(w@ == va[k as int]);
                let ghost pv = views_of(parts@);
                parts.push(w);
                assert(views_of(parts@) =~= pv.push(w@));
                assert(views_of(parts@) =~= va.take(k + 1));
            }
            for k in 0..tb_n
                invariant
                    tb_n <= wb@.len(),
                    ta_n <= wa@.len(),
                    va == views_of(wa@),
                    vb == views_of(wb@),
                    views_of(parts@) == va.take(ta_n as int) + vb.take(k as int),
            {
                let w = wb[k].clone();
                assert(w@ == vb[k as int]);
                let ghost pv = views_of(parts@);
                parts.push(w);
                assert(views_of(parts@) =~= pv.push(w@));
                assert(views_of(parts@) =~= va.take(ta_n as int) + vb.take(k + 1));
            }
            join_words(&parts, " ")
        }
    }

    /// Pairs the experiences in the given order and blends each pair that is
    /// dissimilar enough, using `blends[k]` for the `k`-th pair.
    pub fn generate_with(&self, experiences: &[Experience], order: &Vec<usize>, blends: &Vec<u64>) -> (res: Vec<DreamTile>)
        requires
            valid_draws(experiences@, usize_ints(order@), u64_ints(blends@)),
        ensures
            shapes(res@) == generation_shapes(
                experiences@,
                self.creativity as int,
                usize_ints(order@),
                u64_ints(blends@),
            ),
            all_random_ids(res@),
    {
        let ghost exps = experiences@;
        let ghost o = usize_ints(order@);
        let ghost bl = u64_ints(blends@);
        let ghost c = self.creativity as int;
        let pairs = order.len() / 2;
        let mut res: Vec<DreamTile> = Vec::new();
        for k in 0..pairs
            invariant
                exps == experiences@,
                o == usize_ints(order@),
                bl == u64_ints(blends@),
                c == self.creativity as int,
                pairs == order@.len() / 2,
                valid_draws(exps, o, bl),
                shapes(res@) == generated_upto(exps, c, o, bl, k as nat),
                all_random_ids(res@),
        {
            assert(order@.len() == order.len());
            assert(2 * k + 1 < order@.len());
            let i2: usize = k + k;
            let ia = order[i2];
            let ib = order[i2 + 1];
            assert(o[2 * k as int] == ia as int && o[2 * k + 1] == ib as int);
            assert(0 <= o[2 * k as int] < exps.len());
            assert(0 <= o[2 * k + 1] < exps.len());
            let a = &experiences[ia];
            let b = &experiences[ib];
            let sim = a.similarity(b);
            let dissim: i64 = 1000 - sim;
            if Self::dissimilar(self.creativity, a, b) {
                assert(bl[k as int] == blends@[k as int] as int);
                assert(BLEND_LOW <= bl[k as int] < BLEND_HIGH);
                let mut content = String::new();
                push_str(&mut content, "generated: ");
                let text = Self::blend(a, b, blends[k]);
                push_str(&mut content, text.as_str());
                let sources = vec![a.id.clone(), b.id.clone()];
                assert(strs(sources@) =~= seq![a.id@, b.id@]);
                let tile = DreamTile::new(content, sources, dissim, (2000 - dissim) / 2, DreamType::Generation);
                let ghost before = res@;
                res.push(tile);
                assert(shapes(res@) =~= shapes(before).push(tile.shape()));
            }
        }
        res
    }

    /// Pairs the experiences in a random order and blends each pair that is
    /// dissimilar enough, with a random blend factor in `[0.3, 0.7)`.
    pub fn generate(&self, experiences: &[Experience]) -> (res: Vec<DreamTile>)
        ensures
            exists|order: Seq<int>, blends: Seq<int>|
                valid_draws(experiences@, order, blends) && shapes(res@) == #[trigger] generation_shapes(
                    experiences@,
                    self.creativity as int,
                    order,
                    blends,
                ),
            all_random_ids(res@),
    {
        let order = shuffled_indices(experiences.len());
        let pairs = order.len() / 2;
        let mut blends: Vec<u64> = Vec::new();
        for k in 0..pairs
            invariant
                blends@.len() == k,
                forall|p: int| 0 <= p < k ==> BLEND_LOW <= #[trigger] blends@[p] < BLEND_HIGH,
        {
            blends.push(random_in(BLEND_LOW, BLEND_HIGH));
        }
        proof {
            let o = usize_ints(order@);
            assert forall|p: int, q: int| 0 <= p < o.len() && 0 <= q < o.len() && p != q implies o[p] != o[q] by {
                assert(order@[p] != order@[q]);
            }
            assert forall|p: int| 0 <= p < o.len() implies 0 <= #[trigger] o[p] < experiences@.len() by {
                assert(order@[p] < experiences@.len());
            }
            assert forall|p: int| 0 <= p < u64_ints(blends@).len() implies BLEND_LOW <= #[trigger] u64_ints(blends@)[p] < BLEND_HIGH by {
                assert(BLEND_LOW <= blends@[p] < BLEND_HIGH);
            }
        }
        self.generate_with(experiences, &order, &blends)
    }
}

} // verus!

verus! {

/// The `p`-th pair of the drawn order: experiences `order[2p]` and `order[2p + 1]`.
pub open spec fn pair_first(exps: Seq<Experience>, order: Seq<int>, p: int) -> Experience {
    exps[order[2 * p]]
}

pub open spec fn pair_second(exps: Seq<Experience>, order: Seq<int>, p: int) -> Experience {
    exps[order[2 * p + 1]]
}

/// Generation goes through the pairs of the drawn order one by one: the tiles
/// come from pairs in increasing order, each from two different experiences of
/// its pair that are dissimilar enough, with novelty their dissimilarity and
/// confidence one minus half the novelty; and every pair that is dissimilar
/// enough gives a tile. So there is at most one tile per two experiences.
pub proof fn lemma_generation_pairs(
    exps: Seq<Experience>,
    creativity: int,
    order: Seq<int>,
    blends: Seq<int>,
    k: nat,
)
    requires
        valid_draws(exps, order, blends),
        k <= order.len() / 2,
    ensures
        generated_upto(exps, creativity, order, blends, k).len() <= k,
        forall|q: int|
            0 <= q < generated_upto(exps, creativity, order, blends, k).len() ==> {
                let p = #[trigger] pair_of(q, order, exps, creativity, blends, k);
                &&& 0 <= p < k
                &&& order[2 * p] != order[2 * p + 1]
                &&& dissimilar_enough(creativity, pair_first(exps, order, p), pair_second(exps, order, p))
                &&& generated_upto(exps, creativity, order, blends, k)[q] == generated_shape(
                    pair_first(exps, order, p),
                    pair_second(exps, order, p),
                    blends[p],
                )
            },
        forall|q1: int, q2: int|
            0 <= q1 < q2 < generated_upto(exps, creativity, order, blends, k).len() ==> #[trigger] pair_of(
                q1,
                order,
                exps,
                creativity,
                blends,
                k,
            ) < #[trigger] pair_of(q2, order, exps, creativity, blends, k),
        forall|p: int|
            0 <= p < k && #[trigger] dissimilar_enough(creativity, pair_first(exps, order, p), pair_second(exps, order, p))
                ==> exists|q: int|
                0 <= q < generated_upto(exps, creativity, order, blends, k).len() && #[trigger] pair_of(
                    q,
                    order,
                    exps,
                    creativity,
                    blends,
                    k,
                ) == p,
    decreases k,
{
    if k > 0 {
        let k1 = (k - 1) as nat;
        lemma_generation_pairs(exps, creativity, order, blends, k1);
        let rest = generated_upto(exps, creativity, order, blends, k1);
        let all = generated_upto(exps, creativity, order, blends, k);
        let last = k - 1;
        assert(order[2 * last] != order[2 * last + 1]) by {
            assert(0 <= 2 * last < order.len() && 0 <= 2 * last + 1 < order.len());
        }
        assert forall|q: int| 0 <= q < rest.len() implies #[trigger] pair_of(q, order, exps, creativity, blends, k)
            == pair_of(q, order, exps, creativity, blends, k1) && all[q] == rest[q] by {}
        assert forall|q: int| 0 <= q < all.len() implies {
            let p = #[trigger] pair_of(q, order, exps, creativity, blends, k);
            &&& 0 <= p < k
            &&& order[2 * p] != order[2 * p + 1]
            &&& dissimilar_enough(creativity, pair_first(exps, order, p), pair_second(exps, order, p))
            &&& all[q] == generated_shape(pair_first(exps, order, p), pair_second(exps, order, p), blends[p])
        } by {
            if q < rest.len() {
                assert(pair_of(q, order, exps, creativity, blends, k) == pair_of(q, order, exps, creativity, blends, k1));
            } else {
                assert(pair_of(q, order, exps, creativity, blends, k) == last);
            }
        }
        assert forall|q1: int, q2: int| 0 <= q1 < q2 < all.len() implies #[trigger] pair_of(
            q1,
            order,
            exps,
            creativity,
            blends,
            k,
        ) < #[trigger] pair_of(q2, order, exps, creativity, blends, k) by {
            assert(pair_of(q1, order, exps, creativity, blends, k) == pair_of(q1, order, exps, creativity, blends, k1));
            if q2 < rest.len() {
                assert(pair_of(q2, order, exps, creativity, blends, k) == pair_of(q2, order, exps, creativity, blends, k1));
            } else {
                assert(pair_of(q2, order, exps, creativity, blends, k) == last);
            }
        }
        assert forall|p: int|
            0 <= p < k && #[trigger] dissimilar_enough(creativity, pair_first(exps, order, p), pair_second(exps, order, p))
            implies exists|q: int|
            0 <= q < all.len() && #[trigger] pair_of(q, order, exps, creativity, blends, k) == p by {
            if p < last {
                let q = choose|q: int| 0 <= q < rest.len() && #[trigger] pair_of(q, order, exps, creativity, blends, k1) == p;
                assert(pair_of(q, order, exps, creativity, blends, k) == p);
            } else {
                let q = rest.len() as int;
                assert(all.len() == rest.len() + 1);
                assert(pair_of(q, order, exps, creativity, blends, k) == p);
            }
        }
    }
}

/// Which pair produced the `q`-th of the tiles from the first `k` pairs.
pub open spec fn pair_of(
    q: int,
    order: Seq<int>,
    exps: Seq<Experience>,
    creativity: int,
    blends: Seq<int>,
    k: nat,
) -> int
    decreases k,
{
    if k == 0 {
        0
    } else if q < generated_upto(exps, creativity, order, blends, (k - 1) as nat).len() {
        pair_of(q, order, exps, creativity, blends, (k - 1) as nat)
    } else {
        k - 1
    }
}

/// The confidence of a generated tile is 1 minus half the exact dissimilarity of
/// its pair, rounded down once to a thousandth.
pub proof fn lemma_confidence_exact(a: Experience, b: Experience)
    ensures
        generated_shape(a, b, 0).confidence == (500 * (similarity_ratio(a, b).1 + similarity_ratio(a, b).0))
            / similarity_ratio(a, b).1,
{
    lemma_fractions_proper(a, b);
    let (num, den) = similarity_ratio(a, b);
    let (n1, d1) = crate::experience::tag_fraction(a, b);
    let (n2, d2) = crate::experience::content_fraction(a, b);
    assert(den > 0 && num >= 0) by (nonlinear_arith)
        requires den == d1 * d2, num == n1 * d2 + n2 * d1, d1 > 0, d2 > 0, n1 >= 0, n2 >= 0;
    let k = (1000 * num) / den;
    let m = (500 * num) / den;
    assert(similarity_of(a, b) == k);
    vstd::arithmetic::div_mod::lemma_fundamental_div_mod(1000 * num, den);
    vstd::arithmetic::div_mod::lemma_fundamental_div_mod(500 * num, den);
    vstd::arithmetic::div_mod::lemma_mod_bound(1000 * num, den);
    vstd::arithmetic::div_mod::lemma_mod_bound(500 * num, den);
    assert(2 * m <= k <= 2 * m + 1) by (nonlinear_arith)
        requires
            1000 * num == den * k + (1000 * num) % den,
            500 * num == den * m + (500 * num) % den,
            0 <= (1000 * num) % den < den,
            0 <= (500 * num) % den < den,
            den > 0;
    assert((500 * (den + num)) / den == 500 + m) by {
        let r = (500 * num) % den;
        assert(500 * (den + num) == (500 + m) * den + r) by (nonlinear_arith)
            requires 500 * num == den * m + r;
        vstd::arithmetic::div_mod::lemma_fundamental_div_mod_converse(500 * (den + num), den, 500 + m, r);
    }
}

/// A pair of the draw yields a tile exactly when its dissimilarity, 1 minus its
/// exact similarity `num / den`, is at least 0.3 times (1 minus creativity).
pub proof fn lemma_generation_threshold(
    exps: Seq<Experience>,
    creativity: int,
    order: Seq<int>,
    blends: Seq<int>,
    p: int,
)
    requires
        valid_draws(exps, order, blends),
        0 <= p < order.len() / 2,
    ensures
        (exists|q: int|
            0 <= q < generation_shapes(exps, creativity, order, blends).len() && #[trigger] pair_of(
                q,
                order,
                exps,
                creativity,
                blends,
                (order.len() / 2) as nat,
            ) == p) <==> ({
            let (num, den) = similarity_ratio(pair_first(exps, order, p), pair_second(exps, order, p));
            10000 * (den - num) >= 3 * (1000 - creativity) * den
        }),
{
    let k = (order.len() / 2) as nat;
    lemma_generation_pairs(exps, creativity, order, blends, k);
    let a = pair_first(exps, order, p);
    let b = pair_second(exps, order, p);
    let (num, den) = similarity_ratio(a, b);
    lemma_fractions_proper(a, b);
    let (n1, d1) = crate::experience::tag_fraction(a, b);
    let (n2, d2) = crate::experience::content_fraction(a, b);
    assert(den > 0) by (nonlinear_arith) requires den == d1 * d2, d1 > 0, d2 > 0;
    if dissimilar_enough(creativity, a, b) {
        assert(exists|q: int|
            0 <= q < generation_shapes(exps, creativity, order, blends).len() && #[trigger] pair_of(
                q,
                order,
                exps,
                creativity,
                blends,
                k,
            ) == p);
    }
    if exists|q: int|
        0 <= q < generation_shapes(exps, creativity, order, blends).len() && #[trigger] pair_of(
            q,
            order,
            exps,
            creativity,
            blends,
            k,
        ) == p {
        let q = choose|q: int|
            0 <= q < generation_shapes(exps, creativity, order, blends).len() && #[trigger] pair_of(
                q,
                order,
                exps,
                creativity,
                blends,
                k,
            ) == p;
        assert(dissimilar_enough(creativity, a, b));
    }
}

/// Raising creativity never removes a tile: on the same draws, a more creative
/// engine generates at least as many tiles.
pub proof fn lemma_generation_creativity_monotone(
    exps: Seq<Experience>,
    c1: int,
    c2: int,
    order: Seq<int>,
    blends: Seq<int>,
    k: nat,
)
    requires
        c1 <= c2,
        valid_draws(exps, order, blends),
        k <= order.len() / 2,
    ensures
        generated_upto(exps, c1, order, blends, k).len() <= generated_upto(exps, c2, order, blends, k).len(),
    decreases k,
{
    if k > 0 {
        lemma_generation_creativity_monotone(exps, c1, c2, order, blends, (k - 1) as nat);
        let a = exps[order[2 * k - 2]];
        let b = exps[order[2 * k - 1]];
        let (num, den) = similarity_ratio(a, b);
        lemma_fractions_proper(a, b);
        let (n1, d1) = crate::experience::tag_fraction(a, b);
        let (n2, d2) = crate::experience::content_fraction(a, b);
        assert(den > 0) by (nonlinear_arith) requires den == d1 * d2, d1 > 0, d2 > 0;
        assert(3 * (1000 - c2) * den <= 3 * (1000 - c1) * den) by (nonlinear_arith)
            requires c1 <= c2, den > 0;
    }
}

/// When every pair of the draw is dissimilar enough, each pair gives a tile.
pub proof fn lemma_generation_all_pairs(
    exps: Seq<Experience>,
    creativity: int,
    order: Seq<int>,
    blends: Seq<int>,
    k: nat,
)
    requires
        valid_draws(exps, order, blends),
        k <= order.len() / 2,
        forall|p: int|
            0 <= p < k ==> #[trigger] dissimilar_enough(creativity, pair_first(exps, order, p), pair_second(exps, order, p)),
    ensures
        generated_upto(exps, creativity, order, blends, k).len() == k,
    decreases k,
{
    if k > 0 {
        lemma_generation_all_pairs(exps, creativity, order, blends, (k - 1) as nat);
        assert(dissimilar_enough(creativity, pair_first(exps, order, k - 1), pair_second(exps, order, k - 1)));
    }
}

/// A generated tile from experiences `a` and `b` with blend factor `blend`
/// (`blend / BLEND_UNIT` of the way towards `a`): "generated: " followed by the
/// first `ceil(|words of a| * blend)` words of `a` (at least one, at most all),
/// then the first `ceil(|words of b| * (1 - blend))` words of `b` (likewise),
/// joined by single spaces; when one side has no words the other side's content,
/// and "(generated)" when neither has. It is sourced from `a` then `b`, its
/// novelty is 1 minus their similarity and its confidence 1 minus half that.
pub proof fn lemma_generated_tile(a: Experience, b: Experience, blend: int)
    requires
        BLEND_LOW <= blend < BLEND_HIGH,
    ensures
        ({
            let wa = words_of(a.content@);
            let wb = words_of(b.content@);
            let u = 1_000_000_000int;
            let ta = (wa.len() * blend + u - 1) / u;
            let tb = (wb.len() * (u - blend) + u - 1) / u;
            let tile = generated_shape(a, b, blend);
            &&& wa.len() > 0 ==> 1 <= ta <= wa.len()
            &&& wb.len() > 0 ==> 1 <= tb <= wb.len()
            &&& tile.content == "generated: "@ + if wa.len() == 0 && wb.len() == 0 {
                "(generated)"@
            } else if wa.len() == 0 {
                b.content@
            } else if wb.len() == 0 {
                a.content@
            } else {
                join(wa.take(ta) + wb.take(tb), " "@)
            }
            &&& tile.sources == seq![a.id@, b.id@]
            &&& tile.novelty == 1000 - similarity_of(a, b)
            &&& tile.confidence == (1000 + similarity_of(a, b)) / 2
            &&& tile.dream_type == DreamType::Generation
        }),
{
    let wa = words_of(a.content@);
    let wb = words_of(b.content@);
    let u = 1_000_000_000int;
    let la = wa.len() as int;
    let lb = wb.len() as int;
    if la > 0 {
        assert(1 <= (la * blend + u - 1) / u <= la) by (nonlinear_arith)
            requires la >= 1, 300_000_000 <= blend < 700_000_000, u == 1_000_000_000;
    }
    if lb > 0 {
        assert(1 <= (lb * (u - blend) + u - 1) / u <= lb) by (nonlinear_arith)
            requires lb >= 1, 300_000_000 <= blend < 700_000_000, u == 1_000_000_000;
    }
}

/// Fewer than two experiences generate nothing.
pub proof fn lemma_generation_needs_two(
    exps: Seq<Experience>,
    creativity: int,
    order: Seq<int>,
    blends: Seq<int>,
)
    requires
        valid_draws(exps, order, blends),
        exps.len() < 2,
    ensures
        generation_shapes(exps, creativity, order, blends).len() == 0,
{
}

} // verus!
