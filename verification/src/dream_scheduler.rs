use vstd::prelude::*;
use vstd::multiset::Multiset;

use crate::dream_cycle::DreamType;
use crate::dream_journal::{all_types, index_of_type, table_view, type_table};
use crate::experience::{lemma_fractions_proper, similarity_of, similarity_ratio, Experience};
use crate::natural::{le, mul_small, plus, value};
use crate::text::{
    chars_equal, chars_of, distinct, lemma_lex_irreflexive, lemma_lex_order, lemma_lex_total, lemma_lex_transitive,
    lex_less, lex_lt, strs, views_of,
};

verus! {

/// Decides when and what to dream.
pub struct DreamScheduler {
    /// Energy available for dreaming, in thousandths.
    pub energy_budget: i64,
    pub min_idle_time_ms: u64,
}

/// How many experiences have negative emotion.
pub open spec fn negative_count(exps: Seq<Experience>) -> nat
    decreases exps.len(),
{
    if exps.len() == 0 {
        0
    } else {
        negative_count(exps.drop_last()) + if exps.last().emotion < 0 {
            1nat
        } else {
            0nat
        }
    }
}

/// The largest importance, and at least 0.
pub open spec fn max_importance(exps: Seq<Experience>) -> int
    decreases exps.len(),
{
    if exps.len() == 0 {
        0
    } else {
        let m = max_importance(exps.drop_last());
        if exps.last().importance > m {
            exps.last().importance as int
        } else {
            m
        }
    }
}

/// The pairs `(i, j)` with `i < j < n`, for one `i`.
pub open spec fn pair_row(n: int, i: int) -> Seq<(int, int)> {
    if i + 1 >= n {
        seq![]
    } else {
        Seq::new((n - i - 1) as nat, |k: int| (i, i + 1 + k))
    }
}

/// The pairs `(i, j)` with `i < j < n` and `i < rows`, in lexicographic order.
pub open spec fn pair_rows(n: int, rows: nat) -> Seq<(int, int)>
    decreases rows,
{
    if rows == 0 {
        seq![]
    } else {
        pair_rows(n, (rows - 1) as nat) + pair_row(n, rows - 1)
    }
}

/// The pairs whose similarity is averaged: the first 50 pairs (or all, if fewer)
/// in lexicographic order.
pub open spec fn sampled_pairs(n: nat) -> Seq<(int, int)> {
    let all = pair_rows(n as int, n);
    if all.len() <= 50 {
        all
    } else {
        all.take(50)
    }
}

/// The summed similarity of the given pairs, as an exact fraction (numerator,
/// denominator).
pub open spec fn similarity_sum(exps: Seq<Experience>, pairs: Seq<(int, int)>) -> (int, int)
    decreases pairs.len(),
{
    if pairs.len() == 0 {
        (0, 1)
    } else {
        let (n, d) = similarity_sum(exps, pairs.drop_last());
        let (a, b) = similarity_ratio(exps[pairs.last().0], exps[pairs.last().1]);
        (n * b + a * d, d * b)
    }
}

/// Average pairwise similarity over the sampled pairs, in thousandths: the exact
/// mean, rounded down once; 0 for fewer than two experiences.
pub open spec fn average_similarity(exps: Seq<Experience>) -> int {
    if exps.len() < 2 {
        0
    } else {
        let ps = sampled_pairs(exps.len());
        let (n, d) = similarity_sum(exps, ps);
        (1000 * n) / (d * ps.len())
    }
}

/// `x` placed into the sorted `s` after every element not greater than it.
pub open spec fn insert_in_order(s: Seq<Seq<char>>, x: Seq<char>) -> Seq<Seq<char>>
    decreases s.len(),
{
    if s.len() == 0 {
        seq![x]
    } else if lex_lt(x, s[0]) {
        seq![x] + s
    } else {
        seq![s[0]] + insert_in_order(s.drop_first(), x)
    }
}

/// `s` sorted (repeats kept), by insertion.
pub open spec fn sort_with_repeats(s: Seq<Seq<char>>) -> Seq<Seq<char>>
    decreases s.len(),
{
    if s.len() == 0 {
        seq![]
    } else {
        insert_in_order(sort_with_repeats(s.drop_last()), s.last())
    }
}

/// An experience's tag set: its tags, sorted (repeats kept). Two experiences
/// have the same tag set when these lists are equal, tag by tag.
pub open spec fn tag_key(e: Experience) -> Seq<Seq<char>> {
    sort_with_repeats(strs(e.tags@))
}

/// How many different tag sets the experiences have.
pub open spec fn tag_set_count(exps: Seq<Experience>) -> nat {
    distinct(exps.map_values(|e: Experience| tag_key(e))).len()
}

pub open spec fn key_views(keys: Seq<Vec<Vec<char>>>) -> Seq<Seq<Seq<char>>> {
    keys.map_values(|k: Vec<Vec<char>>| views_of(k@))
}

/// The dream type the scheduler picks: nothing to go on gives consolidation;
/// otherwise, in turn, nightmare when more than 0.6 of the experiences are
/// negative, consolidation when the average similarity of the sampled pairs is
/// above 0.5 (compared exactly, on the summed fractions),
/// generation when there are fewer different tag sets than 0.3 per experience,
/// replay when some importance is above 0.8, lucid when the energy budget is
/// above 1, and prophetic otherwise.
pub open spec fn chosen_type(energy_budget: int, exps: Seq<Experience>) -> DreamType {
    let n = exps.len();
    if n == 0 {
        DreamType::Consolidation
    } else if 5 * negative_count(exps) > 3 * n {
        DreamType::Nightmare
    } else if n >= 2 && 2 * similarity_sum(exps, sampled_pairs(n)).0 > similarity_sum(exps, sampled_pairs(n)).1
        * sampled_pairs(n).len() {
        DreamType::Consolidation
    } else if 10 * tag_set_count(exps) < 3 * n {
        DreamType::Generation
    } else if max_importance(exps) > 800 {
        DreamType::Replay
    } else if energy_budget > 1000 {
        DreamType::Lucid
    } else {
        DreamType::Prophetic
    }
}

pub proof fn lemma_insert_in_order(s: Seq<Seq<char>>, x: Seq<char>, p: int)
    requires
        0 <= p <= s.len(),
        forall|k: int| 0 <= k < p ==> !lex_lt(x, #[trigger] s[k]),
        p < s.len() ==> lex_lt(x, s[p]),
    ensures
        insert_in_order(s, x) == s.take(p).push(x) + s.skip(p),
    decreases s.len(),
{
    if s.len() == 0 {
        assert(s.take(p).push(x) + s.skip(p) =~= seq![x]);
    } else if p == 0 {
        assert(s.take(p).push(x) + s.skip(p) =~= seq![x] + s);
    } else {
        let t = s.drop_first();
        assert forall|k: int| 0 <= k < p - 1 implies !lex_lt(x, #[trigger] t[k]) by {
            assert(t[k] == s[k + 1]);
        }
        lemma_insert_in_order(t, x, p - 1);
        assert(s.take(p).push(x) + s.skip(p) =~= seq![s[0]] + (t.take(p - 1).push(x) + t.skip(p - 1)));
    }
}

pub proof fn lemma_pair_rows_prefix(n: int, a: nat, b: nat)
    requires
        a <= b,
    ensures
        pair_rows(n, b).take(pair_rows(n, a).len() as int) == pair_rows(n, a),
        pair_rows(n, a).len() <= pair_rows(n, b).len(),
    decreases b,
{
    if a < b {
        lemma_pair_rows_prefix(n, a, (b - 1) as nat);
        let pb = pair_rows(n, (b - 1) as nat);
        assert(pair_rows(n, b) == pb + pair_row(n, b - 1));
        assert((pb + pair_row(n, b - 1)).take(pair_rows(n, a).len() as int) =~= pb.take(
            pair_rows(n, a).len() as int,
        ));
    } else {
        assert(pair_rows(n, b).take(pair_rows(n, a).len() as int) =~= pair_rows(n, a));
    }
}

/// The summed fraction has a positive denominator and is at most 2 per pair.
pub proof fn lemma_similarity_sum_bounds(exps: Seq<Experience>, pairs: Seq<(int, int)>)
    ensures
        similarity_sum(exps, pairs).1 > 0,
        0 <= similarity_sum(exps, pairs).0 <= 2 * pairs.len() * similarity_sum(exps, pairs).1,
    decreases pairs.len(),
{
    if pairs.len() > 0 {
        lemma_similarity_sum_bounds(exps, pairs.drop_last());
        let (n, d) = similarity_sum(exps, pairs.drop_last());
        let x = exps[pairs.last().0];
        let y = exps[pairs.last().1];
        lemma_fractions_proper(x, y);
        let (n1, d1) = crate::experience::tag_fraction(x, y);
        let (n2, d2) = crate::experience::content_fraction(x, y);
        let (a, b) = similarity_ratio(x, y);
        let k = pairs.len() - 1;
        assert(b > 0 && 0 <= a <= 2 * b) by (nonlinear_arith)
            requires
                a == n1 * d2 + n2 * d1,
                b == d1 * d2,
                0 <= n1 <= d1,
                0 < d1,
                0 <= n2 <= d2,
                0 < d2;
        assert(d * b > 0 && 0 <= n * b + a * d <= 2 * (k + 1) * (d * b)) by (nonlinear_arith)
            requires b > 0, 0 <= a <= 2 * b, d > 0, 0 <= n <= 2 * k * d, k >= 0;
    }
}

/// The sorted tags of `e`.
fn tag_key_of(e: &Experience) -> (res: Vec<Vec<char>>)
    ensures
        views_of(res@) == tag_key(*e),
{
    let ghost ts = strs(e.tags@);
    let mut sorted: Vec<Vec<char>> = Vec::new();
    for k in 0..e.tags.len()
        invariant
            ts == strs(e.tags@),
            views_of(sorted@) == sort_with_repeats(ts.take(k as int)),
    {
        let x = chars_of(e.tags[k].as_str());
        let ghost sv = views_of(sorted@);
        let mut p: usize = 0;
        while p < sorted.len() && !lex_less(&x, &sorted[p])
            invariant
                sv == views_of(sorted@),
                p <= sorted@.len(),
                forall|q: int| 0 <= q < p ==> !lex_lt(x@, #[trigger] sv[q]),
            decreases sorted.len() - p,
        {
            p = p + 1;
        }
        proof {
            lemma_insert_in_order(sv, x@, p as int);
            assert(ts.take(k + 1).drop_last() == ts.take(k as int));
            assert(ts.take(k + 1).last() == x@);
        }
        sorted.insert(p, x);
        assert(views_of(sorted@) =~= sv.take(p as int).push(x@) + sv.skip(p as int));
    }
    assert(ts.take(e.tags@.len() as int) == ts);
    sorted
}

fn words_equal(a: &Vec<Vec<char>>, b: &Vec<Vec<char>>) -> (res: bool)
    ensures
        res == (views_of(a@) == views_of(b@)),
{
    if a.len() != b.len() {
        assert(views_of(a@).len() != views_of(b@).len());
        return false;
    }
    for i in 0..a.len()
        invariant
            a.len() == b.len(),
            forall|k: int| 0 <= k < i ==> a@[k]@ == b@[k]@,
    {
        if !chars_equal(&a[i], &b[i]) {
            assert(views_of(a@)[i as int] != views_of(b@)[i as int]);
            return false;
        }
    }
    assert(views_of(a@) =~= views_of(b@));
    true
}

fn contains_key(keys: &Vec<Vec<Vec<char>>>, key: &Vec<Vec<char>>) -> (res: bool)
    ensures
        res == key_views(keys@).contains(views_of(key@)),
{
    for i in 0..keys.len()
        invariant
            forall|k: int| 0 <= k < i ==> key_views(keys@)[k] != views_of(key@),
    {
        if words_equal(&keys[i], key) {
            assert(key_views(keys@)[i as int] == views_of(key@));
            return true;
        }
    }
    false
}

impl DreamScheduler {
    pub fn new(energy_budget: i64, min_idle_time_ms: u64) -> (res: Self)
        ensures
            res.energy_budget == energy_budget,
            res.min_idle_time_ms == min_idle_time_ms,
    {
        DreamScheduler { energy_budget, min_idle_time_ms }
    }

    /// Dream once idle long enough with something to process.
    pub fn should_dream(&self, idle_time_ms: u64, unprocessed: usize) -> (res: bool)
        ensures
            res == (idle_time_ms >= self.min_idle_time_ms && unprocessed > 0),
    {
        idle_time_ms >= self.min_idle_time_ms && unprocessed > 0
    }

    /// Chooses the dream type from the distribution of experiences.
    pub fn choose_dream_type(&self, experiences: &[Experience]) -> (res: DreamType)
        ensures
            res == chosen_type(self.energy_budget as int, experiences@),
    {
        let ghost exps = experiences@;
        let n = experiences.len();
        if n == 0 {
            return DreamType::Consolidation;
        }
        // Fraction that are negative
        let mut negative: usize = 0;
        for k in 0..n
            invariant
                n == exps.len(),
                exps == experiences@,
                negative == negative_count(exps.take(k as int)),
                negative <= k,
        {
            assert(exps.take(k + 1).drop_last() == exps.take(k as int));
            if experiences[k].emotion < 0 {
                negative = negative + 1;
            }
        }
        assert(exps.take(n as int) == exps);
        // Average pairwise similarity (sampled)
        let similar = if n >= 2 {
            let (num, den, count) = sampled_similarity(experiences);
            !le(&mul_small(&num, 2), &mul_small(&den, count as u128))
        } else {
            false
        };
        // Variety: number of distinct tag sets
        let mut keys: Vec<Vec<Vec<char>>> = Vec::new();
        for k in 0..n
            invariant
                n == exps.len(),
                exps == experiences@,
                key_views(keys@) == distinct(exps.take(k as int).map_values(|e: Experience| tag_key(e))),
        {
            let key = tag_key_of(&experiences[k]);
            assert(exps.take(k + 1).map_values(|e: Experience| tag_key(e)).drop_last() == exps.take(k as int).map_values(|e: Experience| tag_key(e)));
            if !contains_key(&keys, &key) {
                let ghost before = key_views(keys@);
                keys.push(key);
                assert(key_views(keys@) =~= before.push(views_of(key@)));
            }
        }
        assert(exps.take(n as int) == exps);
        assert(key_views(keys@).len() == keys@.len());
        let unique = keys.len();
        // Max importance
        let mut max_imp: i64 = 0;
        for k in 0..n
            invariant
                n == exps.len(),
                exps == experiences@,
                max_imp == max_importance(exps.take(k as int)),
        {
            assert(exps.take(k + 1).drop_last() == exps.take(k as int));
            if experiences[k].importance > max_imp {
                max_imp = experiences[k].importance;
            }
        }
        assert(exps.take(n as int) == exps);
        let n128 = n as u128;
        if 5 * (negative as u128) > 3 * n128 {
            DreamType::Nightmare
        } else if similar {
            DreamType::Consolidation
        } else if 10 * (unique as u128) < 3 * n128 {
            DreamType::Generation
        } else if max_imp > 800 {
            DreamType::Replay
        } else if self.energy_budget > 1000 {
            DreamType::Lucid
        } else {
            DreamType::Prophetic
        }
    }
}

/// Average pairwise similarity of the first 50 pairs, in thousandths: the exact
/// mean, rounded down.
pub fn compute_avg_similarity(experiences: &[Experience]) -> (res: i64)
    ensures
        res == average_similarity(experiences@),
{
    if experiences.len() < 2 {
        return 0;
    }
    let ghost exps = experiences@;
    let (num, den, count) = sampled_similarity(experiences);
    let ghost nv = value(num@) as int;
    let ghost dv = value(den@) as int;
    proof {
        lemma_similarity_sum_bounds(exps, sampled_pairs(exps.len()));
    }
    let target = mul_small(&num, 1000);
    let dc = mul_small(&den, count as u128);
    let ghost t = 1000 * nv;
    let ghost q = dv * count;
    assert(q > 0 && t <= 2000 * q) by (nonlinear_arith)
        requires dv > 0, count > 0, 0 <= nv <= 2 * count * dv, q == dv * count, t == 1000 * nv;
    let r = crate::natural::quotient(&target, &dc, 2001);
    proof {
        assert(similarity_sum(exps, sampled_pairs(exps.len())) == (nv, dv));
        assert(r <= 2000) by (nonlinear_arith) requires r == t / q, 0 <= t <= 2000 * q, q > 0;
    }
    r as i64
}

/// The summed similarity of the sampled pairs, and how many pairs there are.
fn sampled_similarity(experiences: &[Experience]) -> (res: (Vec<u32>, Vec<u32>, usize))
    requires
        experiences@.len() >= 2,
    ensures
        (value(res.0@) as int, value(res.1@) as int) == similarity_sum(experiences@, sampled_pairs(experiences@.len())),
        res.2 == sampled_pairs(experiences@.len()).len(),
        0 < res.2 <= 50,
{
    let ghost exps = experiences@;
    let n = experiences.len();
    let ghost all = pair_rows(n as int, n as nat);
    let mut num: Vec<u32> = Vec::new();
    let mut den: Vec<u32> = crate::natural::from_u64(1);
    let mut count: usize = 0;
    let ghost mut visited: Seq<(int, int)> = seq![];
    let mut i: usize = 0;
    while i < n && count < 50
        invariant
            n == exps.len(),
            n >= 2,
            exps == experiences@,
            all == pair_rows(n as int, n as nat),
            i <= n,
            count <= 50,
            count == visited.len(),
            visited == all.take(count as int),
            count <= all.len(),
            (value(num@) as int, value(den@) as int) == similarity_sum(exps, visited),
            count < 50 ==> visited == pair_rows(n as int, i as nat),
            i > 0 ==> count > 0,
        decreases n - i,
    {
        let mut j: usize = i + 1;
        proof {
            assert(pair_row(n as int, i as int).take(0) =~= seq![]);
            assert(visited =~= pair_rows(n as int, i as nat) + pair_row(n as int, i as int).take(0));
        }
        while j < n && count < 50
            invariant
                n == exps.len(),
                exps == experiences@,
                all == pair_rows(n as int, n as nat),
                i < n,
                i + 1 <= j <= n,
                count <= 50,
                count == visited.len(),
                (value(num@) as int, value(den@) as int) == similarity_sum(exps, visited),
                visited == pair_rows(n as int, i as nat) + pair_row(n as int, i as int).take(j - i - 1),
                j > i + 1 ==> count > 0,
                i > 0 ==> count > 0,
            decreases n - j,
        {
            let (n1, d1, n2, d2) = experiences[i].similarity_fractions(&experiences[j]);
            proof {
                lemma_fractions_proper(exps[i as int], exps[j as int]);
            }
            let den1 = mul_small(&den, d1);
            let den12 = mul_small(&den1, d2);
            let num12 = mul_small(&mul_small(&num, d1), d2);
            let t1 = mul_small(&mul_small(&den, d2), n1);
            let t2 = mul_small(&den1, n2);
            let new_num = plus(&plus(&num12, &t1), &t2);
            proof {
                let (nv, dv) = (value(num@) as int, value(den@) as int);
                let (a, b) = similarity_ratio(exps[i as int], exps[j as int]);
                let (n1i, d1i, n2i, d2i) = (n1 as int, d1 as int, n2 as int, d2 as int);
                assert(a == n1i * d2i + n2i * d1i && b == d1i * d2i);
                assert(value(den12@) == dv * b) by (nonlinear_arith)
                    requires value(den12@) == (dv * d1i) * d2i, b == d1i * d2i;
                assert(value(new_num@) == nv * b + a * dv) by (nonlinear_arith)
                    requires
                        value(new_num@) == (nv * d1i) * d2i + (dv * d2i) * n1i + (dv * d1i) * n2i,
                        a == n1i * d2i + n2i * d1i,
                        b == d1i * d2i;
            }
            num = new_num;
            den = den12;
            count = count + 1;
            proof {
                let row = pair_row(n as int, i as int);
                assert(row[j - i - 1] == (i as int, j as int));
                assert(row.take(j - i) =~= row.take(j - i - 1).push((i as int, j as int)));
                let old_visited = visited;
                visited = visited.push((i as int, j as int));
                assert(visited =~= pair_rows(n as int, i as nat) + row.take(j - i));
                assert(visited.drop_last() == old_visited);
            }
            j = j + 1;
        }
        proof {
            let row = pair_row(n as int, i as int);
            assert(pair_rows(n as int, (i + 1) as nat) == pair_rows(n as int, i as nat) + row);
            lemma_pair_rows_prefix(n as int, (i + 1) as nat, n as nat);
            if count < 50 {
                assert(row.take(j - i - 1) =~= row);
                assert(visited == pair_rows(n as int, (i + 1) as nat));
            } else {
                assert(row.take(j - i - 1).len() <= row.len());
            }
            let pr = pair_rows(n as int, (i + 1) as nat);
            assert(visited =~= pr.take(visited.len() as int));
            assert(all.take(visited.len() as int) =~= pr.take(visited.len() as int));
            if i == 0 && n >= 2 {
                assert(row.len() >= 1);
            }
        }
        i = i + 1;
    }
    proof {
        if count < 50 {
            lemma_pair_rows_prefix(n as int, i as nat, n as nat);
            if i < n {
            } else {
                assert(visited == all);
            }
            assert(visited =~= all);
        }
        assert(visited == sampled_pairs(n as nat));
    }
    (num, den, count)
}

/// How the given counts fall to the dream types: one pair `(type, total)` per type
/// that occurs among `cycles`, in declaration order.
pub fn _dream_type_distribution(cycles: &[(DreamType, usize)]) -> (res: Vec<(DreamType, usize)>)
    requires
        forall|t: DreamType| #[trigger] count_total(cycles@, t) <= usize::MAX,
    ensures
        table_view(res@) == type_table(
            |t: DreamType| type_occurs(cycles@, t),
            |t: DreamType| count_total(cycles@, t),
            6,
        ),
{
    let ghost cs = cycles@;
    let mut totals: Vec<usize> = vec![0, 0, 0, 0, 0, 0];
    let mut present: Vec<bool> = vec![false, false, false, false, false, false];
    for k in 0..cycles.len()
        invariant
            cs == cycles@,
            forall|t: DreamType| #[trigger] count_total(cs, t) <= usize::MAX,
            totals@.len() == 6,
            present@.len() == 6,
            forall|i: int| 0 <= i < 6 ==> totals@[i] as nat == count_total(cs.take(k as int), #[trigger] all_types()[i]),
            forall|i: int| 0 <= i < 6 ==> present@[i] == type_occurs(cs.take(k as int), #[trigger] all_types()[i]),
    {
        let (t, c) = cycles[k];
        let i = index_of_type(t);
        assert(cs.take(k + 1).drop_last() == cs.take(k as int));
        proof {
            lemma_count_total_prefix(cs, (k + 1) as nat, t);
        }
        totals.set(i, totals[i] + c);
        present.set(i, true);
    }
    assert(cs.take(cs.len() as int) == cs);
    crate::dream_journal::build_table(
        &present,
        &totals,
        Ghost(|t: DreamType| type_occurs(cycles@, t)),
        Ghost(|t: DreamType| count_total(cycles@, t)),
    )
}

/// Some entry of `cycles` has type `t`.
pub open spec fn type_occurs(cycles: Seq<(DreamType, usize)>, t: DreamType) -> bool
    decreases cycles.len(),
{
    if cycles.len() == 0 {
        false
    } else {
        type_occurs(cycles.drop_last(), t) || cycles.last().0 == t
    }
}

/// The summed counts of the entries of type `t`.
pub open spec fn count_total(cycles: Seq<(DreamType, usize)>, t: DreamType) -> nat
    decreases cycles.len(),
{
    if cycles.len() == 0 {
        0
    } else {
        count_total(cycles.drop_last(), t) + if cycles.last().0 == t {
            cycles.last().1 as nat
        } else {
            0nat
        }
    }
}

pub proof fn lemma_count_total_prefix(cs: Seq<(DreamType, usize)>, k: nat, t: DreamType)
    requires
        k <= cs.len(),
    ensures
        count_total(cs.take(k as int), t) <= count_total(cs, t),
    decreases cs.len(),
{
    if k < cs.len() {
        assert(cs.drop_last().take(k as int) == cs.take(k as int));
        lemma_count_total_prefix(cs.drop_last(), k, t);
    } else {
        assert(cs.take(k as int) == cs);
    }
}

/// The negative experiences are counted one by one: those with emotion below 0.
pub proof fn lemma_negative_count(exps: Seq<Experience>)
    ensures
        negative_count(exps) == exps.filter(|e: Experience| e.emotion < 0).len(),
    decreases exps.len(),
{
    reveal(Seq::filter);
    if exps.len() > 0 {
        lemma_negative_count(exps.drop_last());
    }
}

/// The importance test asks whether some experience's importance is above 0.8.
pub proof fn lemma_max_importance(exps: Seq<Experience>)
    ensures
        max_importance(exps) > 800 <==> exists|i: int| 0 <= i < exps.len() && #[trigger] exps[i].importance > 800,
        max_importance(exps) >= 0,
        forall|i: int| 0 <= i < exps.len() ==> #[trigger] exps[i].importance <= max_importance(exps),
    decreases exps.len(),
{
    if exps.len() > 0 {
        let init = exps.drop_last();
        lemma_max_importance(init);
        assert forall|i: int| 0 <= i < init.len() implies #[trigger] exps[i].importance == init[i].importance by {}
        if max_importance(exps) > 800 {
            if exps.last().importance > max_importance(init) {
                assert(exps[exps.len() - 1].importance > 800);
            } else {
                let i = choose|i: int| 0 <= i < init.len() && #[trigger] init[i].importance > 800;
                assert(exps[i].importance > 800);
            }
        }
        if exists|i: int| 0 <= i < exps.len() && #[trigger] exps[i].importance > 800 {
            let i = choose|i: int| 0 <= i < exps.len() && #[trigger] exps[i].importance > 800;
            if i < init.len() {
                assert(init[i].importance > 800);
            }
        }
    }
}

/// Whether the exact mean similarity of the sampled pairs is above 0.5.
pub open spec fn similar_on_average(exps: Seq<Experience>) -> bool {
    let ps = sampled_pairs(exps.len());
    let (n, d) = similarity_sum(exps, ps);
    exps.len() >= 2 && 2 * n > d * ps.len()
}

/// The scheduler's order of tests. With `n` experiences: none gives
/// consolidation; nightmare exactly when more than 0.6 of them are negative;
/// otherwise consolidation whenever the exact mean similarity of the sampled
/// pairs is above 0.5, whatever the importances; generation only when neither
/// holds and there are fewer than 0.3 tag sets per experience; replay only when
/// none of these holds and some importance is above 0.8; then lucid when the
/// energy budget is above 1, prophetic when it is not.
pub proof fn lemma_choice_order(energy_budget: int, exps: Seq<Experience>)
    ensures
        ({
            let n = exps.len();
            let neg = exps.filter(|e: Experience| e.emotion < 0).len();
            let calm = n > 0 && 5 * neg <= 3 * n;
            let varied = 10 * tag_set_count(exps) >= 3 * n;
            let important = exists|i: int| 0 <= i < n && #[trigger] exps[i].importance > 800;
            let r = chosen_type(energy_budget, exps);
            &&& n == 0 ==> r == DreamType::Consolidation
            &&& n > 0 ==> (r == DreamType::Nightmare <==> 5 * neg > 3 * n)
            &&& calm && similar_on_average(exps) ==> r == DreamType::Consolidation
            &&& n > 0 && r == DreamType::Consolidation ==> calm && similar_on_average(exps)
            &&& r == DreamType::Generation <==> calm && !similar_on_average(exps) && !varied
            &&& r == DreamType::Replay <==> calm && !similar_on_average(exps) && varied && important
            &&& r == DreamType::Lucid <==> calm && !similar_on_average(exps) && varied && !important
                && energy_budget > 1000
            &&& r == DreamType::Prophetic <==> calm && !similar_on_average(exps) && varied && !important
                && energy_budget <= 1000
        }),
{
    lemma_negative_count(exps);
    lemma_max_importance(exps);
}

/// Two or more experiences have at least one sampled pair.
pub proof fn lemma_sampled_pairs_nonempty(n: nat)
    requires
        n >= 2,
    ensures
        sampled_pairs(n).len() > 0,
{
    lemma_pair_rows_prefix(n as int, 1, n);
    assert(pair_rows(n as int, 1) == pair_rows(n as int, 0) + pair_row(n as int, 0));
    assert(pair_row(n as int, 0).len() == n - 1);
}

/// The scheduler and the average agree: with at most 0.6 of the experiences
/// negative, an average similarity above 500 thousandths means consolidation,
/// and consolidation from a non-empty set means an average of at least 500.
pub proof fn lemma_choice_follows_average(energy_budget: int, exps: Seq<Experience>)
    requires
        exps.len() > 0,
        5 * negative_count(exps) <= 3 * exps.len(),
    ensures
        average_similarity(exps) > 500 ==> chosen_type(energy_budget, exps) == DreamType::Consolidation,
        chosen_type(energy_budget, exps) == DreamType::Consolidation ==> exps.len() >= 2 && average_similarity(exps)
            >= 500,
{
    if exps.len() >= 2 {
        let ps = sampled_pairs(exps.len());
        let (n, d) = similarity_sum(exps, ps);
        lemma_similarity_sum_bounds(exps, ps);
        lemma_sampled_pairs_nonempty(exps.len());
        let q = d * ps.len();
        let a = (1000 * n) / q;
        assert(q > 0) by (nonlinear_arith) requires d > 0, ps.len() > 0, q == d * ps.len();
        vstd::arithmetic::div_mod::lemma_fundamental_div_mod(1000 * n, q);
        vstd::arithmetic::div_mod::lemma_mod_bound(1000 * n, q);
        assert(a > 500 ==> 2 * n > q) by (nonlinear_arith)
            requires 1000 * n == q * a + (1000 * n) % q, 0 <= (1000 * n) % q < q, q > 0;
        assert(2 * n > q ==> a >= 500) by (nonlinear_arith)
            requires 1000 * n == q * a + (1000 * n) % q, 0 <= (1000 * n) % q < q, q > 0;
    }
}

/// No element comes after a smaller one: sorted, repeats allowed.
pub open spec fn in_sorted_order(s: Seq<Seq<char>>) -> bool {
    forall|i: int, j: int| 0 <= i < j < s.len() ==> !lex_lt(#[trigger] s[j], #[trigger] s[i])
}

proof fn lemma_singleton_multiset(x: Seq<char>)
    ensures
        seq![x].to_multiset() =~= Multiset::<Seq<char>>::empty().insert(x),
{
    broadcast use vstd::seq_lib::group_to_multiset_ensures;

    assert(seq![x] =~= Seq::<Seq<char>>::empty().push(x));
    assert(Seq::<Seq<char>>::empty().to_multiset() =~= Multiset::<Seq<char>>::empty());
}

proof fn lemma_insert_in_order_props(s: Seq<Seq<char>>, x: Seq<char>)
    requires
        in_sorted_order(s),
    ensures
        in_sorted_order(insert_in_order(s, x)),
        insert_in_order(s, x).to_multiset() =~= s.to_multiset().insert(x),
    decreases s.len(),
{
    broadcast use vstd::seq_lib::group_to_multiset_ensures;
    broadcast use vstd::seq_lib::lemma_multiset_commutative;

    lemma_lex_order();
    lemma_singleton_multiset(x);
    if s.len() == 0 {
        assert(s.to_multiset() =~= Multiset::<Seq<char>>::empty());
        assert(insert_in_order(s, x) == seq![x]);
    } else if lex_lt(x, s[0]) {
        let r = seq![x] + s;
        assert(insert_in_order(s, x) == r);
        assert(r.to_multiset() =~= seq![x].to_multiset().add(s.to_multiset()));
        assert forall|i: int, j: int| 0 <= i < j < r.len() implies !lex_lt(#[trigger] r[j], #[trigger] r[i]) by {
            if i == 0 {
                assert(r[j] == s[j - 1]);
                if lex_lt(s[j - 1], x) {
                    lemma_lex_transitive(s[j - 1], x, s[0]);
                    if j - 1 == 0 {
                        lemma_lex_irreflexive(s[0]);
                    } else {
                        assert(!lex_lt(s[j - 1], s[0]));
                    }
                }
            } else {
                assert(r[i] == s[i - 1] && r[j] == s[j - 1]);
            }
        }
    } else {
        let t = s.drop_first();
        assert forall|i: int, j: int| 0 <= i < j < t.len() implies !lex_lt(#[trigger] t[j], #[trigger] t[i]) by {
            assert(t[i] == s[i + 1] && t[j] == s[j + 1]);
        }
        lemma_insert_in_order_props(t, x);
        let inner = insert_in_order(t, x);
        let r = seq![s[0]] + inner;
        assert(insert_in_order(s, x) == r);
        lemma_singleton_multiset(s[0]);
        assert(s =~= seq![s[0]] + t);
        assert(s.to_multiset() =~= seq![s[0]].to_multiset().add(t.to_multiset()));
        assert(r.to_multiset() =~= seq![s[0]].to_multiset().add(inner.to_multiset()));
        assert forall|i: int, j: int| 0 <= i < j < r.len() implies !lex_lt(#[trigger] r[j], #[trigger] r[i]) by {
            if i == 0 {
                let y = inner[j - 1];
                assert(r[j] == y);
                assert(inner.contains(y));
                assert(inner.to_multiset().count(y) > 0);
                if y != x {
                    assert(t.to_multiset().count(y) > 0);
                    assert(t.contains(y));
                    let m = choose|m: int| 0 <= m < t.len() && t[m] == y;
                    assert(s[m + 1] == y);
                    assert(!lex_lt(s[m + 1], s[0]));
                }
            } else {
                assert(r[i] == inner[i - 1] && r[j] == inner[j - 1]);
            }
        }
    }
}

/// The sorted list is a sorted rearrangement of the list.
pub proof fn lemma_sort_with_repeats(s: Seq<Seq<char>>)
    ensures
        in_sorted_order(sort_with_repeats(s)),
        sort_with_repeats(s).to_multiset() =~= s.to_multiset(),
    decreases s.len(),
{
    broadcast use vstd::seq_lib::group_to_multiset_ensures;

    if s.len() == 0 {
        assert(sort_with_repeats(s) =~= s);
    } else {
        lemma_sort_with_repeats(s.drop_last());
        lemma_insert_in_order_props(sort_with_repeats(s.drop_last()), s.last());
        assert(s =~= s.drop_last().push(s.last()));
    }
}

/// Two sorted lists with the same elements, as often, are the same list.
pub proof fn lemma_sorted_rearrangement_unique(a: Seq<Seq<char>>, b: Seq<Seq<char>>)
    requires
        in_sorted_order(a),
        in_sorted_order(b),
        a.to_multiset() =~= b.to_multiset(),
    ensures
        a == b,
    decreases a.len(),
{
    broadcast use vstd::seq_lib::group_to_multiset_ensures;
    broadcast use vstd::seq_lib::lemma_multiset_commutative;

    lemma_lex_order();
    if a.len() == 0 {
        assert(b.len() == 0);
        assert(a =~= b);
    } else {
        assert(a.to_multiset().len() == a.len() && b.to_multiset().len() == b.len());
        assert(b.len() == a.len());
        assert(a.to_multiset().count(a[0]) > 0);
        assert(b.contains(a[0]));
        let kb = choose|k: int| 0 <= k < b.len() && b[k] == a[0];
        assert(a.contains(b[0])) by {
            assert(b.to_multiset().count(b[0]) > 0);
        }
        let ka = choose|k: int| 0 <= k < a.len() && a[k] == b[0];
        if a[0] != b[0] {
            lemma_lex_total(a[0], b[0]);
            if lex_lt(a[0], b[0]) {
                assert(kb > 0);
                assert(!lex_lt(b[kb], b[0]));
            } else {
                assert(ka > 0);
                assert(!lex_lt(a[ka], a[0]));
            }
        }
        let ta = a.drop_first();
        let tb = b.drop_first();
        lemma_singleton_multiset(a[0]);
        assert(a =~= seq![a[0]] + ta);
        assert(b =~= seq![b[0]] + tb);
        assert(a.to_multiset() =~= seq![a[0]].to_multiset().add(ta.to_multiset()));
        assert(b.to_multiset() =~= seq![b[0]].to_multiset().add(tb.to_multiset()));
        assert forall|y: Seq<char>| ta.to_multiset().count(y) == tb.to_multiset().count(y) by {
            broadcast use vstd::multiset::group_multiset_axioms;

            assert(a.to_multiset().count(y) == b.to_multiset().count(y));
            assert(seq![a[0]].to_multiset().count(y) == seq![b[0]].to_multiset().count(y));
        }
        assert(ta.to_multiset() =~= tb.to_multiset());
        assert forall|i: int, j: int| 0 <= i < j < ta.len() implies !lex_lt(#[trigger] ta[j], #[trigger] ta[i]) by {
            assert(ta[i] == a[i + 1] && ta[j] == a[j + 1]);
        }
        assert forall|i: int, j: int| 0 <= i < j < tb.len() implies !lex_lt(#[trigger] tb[j], #[trigger] tb[i]) by {
            assert(tb[i] == b[i + 1] && tb[j] == b[j + 1]);
        }
        lemma_sorted_rearrangement_unique(ta, tb);
    }
}

/// An experience's tag set is its tags, each as often as it occurs, in sorted
/// order; two experiences have the same tag set exactly when they have the same
/// tags as often, in whatever order (so `["a", "b"]` and `["b", "a"]` are one tag
/// set, and `["a", "b"]` and `["ab"]` are two).
pub proof fn lemma_tag_key(a: Experience, b: Experience)
    ensures
        in_sorted_order(tag_key(a)),
        tag_key(a).to_multiset() =~= strs(a.tags@).to_multiset(),
        tag_key(a) == tag_key(b) <==> strs(a.tags@).to_multiset() =~= strs(b.tags@).to_multiset(),
{
    lemma_sort_with_repeats(strs(a.tags@));
    lemma_sort_with_repeats(strs(b.tags@));
    if strs(a.tags@).to_multiset() =~= strs(b.tags@).to_multiset() {
        lemma_sorted_rearrangement_unique(tag_key(a), tag_key(b));
    }
}

/// The exact similarity of the `i`-th listed pair.
pub open spec fn pair_ratio(exps: Seq<Experience>, pairs: Seq<(int, int)>, i: int) -> (int, int) {
    similarity_ratio(exps[pairs[i].0], exps[pairs[i].1])
}

/// Bounding every pair's similarity by `u / v` bounds their sum by `len * u / v`.
proof fn lemma_sum_bounded(exps: Seq<Experience>, pairs: Seq<(int, int)>, u: int, v: int)
    requires
        v > 0,
    ensures
        (forall|i: int| 0 <= i < pairs.len() ==> #[trigger] pair_ratio(exps, pairs, i).0 * v <= u * pair_ratio(exps, pairs, i).1)
            ==> similarity_sum(exps, pairs).0 * v <= pairs.len() * u * similarity_sum(exps, pairs).1,
        pairs.len() > 0 && (forall|i: int| 0 <= i < pairs.len() ==> #[trigger] pair_ratio(exps, pairs, i).0 * v > u
            * pair_ratio(exps, pairs, i).1) ==> similarity_sum(exps, pairs).0 * v > pairs.len() * u
            * similarity_sum(exps, pairs).1,
    decreases pairs.len(),
{
    if pairs.len() > 0 {
        let init = pairs.drop_last();
        let k = init.len();
        lemma_sum_bounded(exps, init, u, v);
        lemma_similarity_sum_bounds(exps, init);
        let (n, d) = similarity_sum(exps, init);
        let x = exps[pairs.last().0];
        let y = exps[pairs.last().1];
        lemma_fractions_proper(x, y);
        let (n1, d1) = crate::experience::tag_fraction(x, y);
        let (n2, d2) = crate::experience::content_fraction(x, y);
        let (a, b) = similarity_ratio(x, y);
        assert(b > 0) by (nonlinear_arith) requires b == d1 * d2, d1 > 0, d2 > 0;
        assert(pair_ratio(exps, pairs, k as int) == (a, b));
        assert forall|i: int| 0 <= i < init.len() implies #[trigger] pair_ratio(exps, init, i) == pair_ratio(exps, pairs, i) by {}
        if forall|i: int| 0 <= i < pairs.len() ==> #[trigger] pair_ratio(exps, pairs, i).0 * v <= u * pair_ratio(exps, pairs, i).1 {
            assert(pair_ratio(exps, pairs, k as int).0 * v <= u * pair_ratio(exps, pairs, k as int).1);
            assert forall|i: int| 0 <= i < init.len() implies #[trigger] pair_ratio(exps, init, i).0 * v <= u * pair_ratio(exps, init, i).1 by {
                assert(pair_ratio(exps, pairs, i).0 * v <= u * pair_ratio(exps, pairs, i).1);
            }
            assert((n * b + a * d) * v <= (k + 1) * u * (d * b)) by (nonlinear_arith)
                requires n * v <= k * u * d, a * v <= u * b, b > 0, d > 0;
        }
        if forall|i: int| 0 <= i < pairs.len() ==> #[trigger] pair_ratio(exps, pairs, i).0 * v > u * pair_ratio(exps, pairs, i).1 {
            assert(pair_ratio(exps, pairs, k as int).0 * v > u * pair_ratio(exps, pairs, k as int).1);
            assert forall|i: int| 0 <= i < init.len() implies #[trigger] pair_ratio(exps, init, i).0 * v > u * pair_ratio(exps, init, i).1 by {
                assert(pair_ratio(exps, pairs, i).0 * v > u * pair_ratio(exps, pairs, i).1);
            }
            if k == 0 {
                assert(n == 0 && d == 1);
                assert((n * b + a * d) * v > 1 * u * (d * b)) by (nonlinear_arith)
                    requires n == 0, d == 1, a * v > u * b;
            } else {
                let xx = n * v;
                let yy = a * v;
                assert((n * b + a * d) * v == xx * b + yy * d) by (nonlinear_arith)
                    requires xx == n * v, yy == a * v;
                assert(xx * b > (k * u * d) * b) by (nonlinear_arith) requires xx > k * u * d, b > 0;
                assert(yy * d > (u * b) * d) by (nonlinear_arith) requires yy > u * b, d > 0;
                assert((k * u * d) * b + (u * b) * d == (k + 1) * u * (d * b)) by (nonlinear_arith);
            }
        }
    }
}

/// Rounding down to thousandths keeps the order of two fractions.
proof fn lemma_floor_ordered(a: int, b: int, c: int, d: int)
    requires
        b > 0,
        d > 0,
        a >= 0,
        c >= 0,
        a * d <= c * b,
    ensures
        (1000 * a) / b <= (1000 * c) / d,
{
    let f = (1000 * a) / b;
    let g = (1000 * c) / d;
    vstd::arithmetic::div_mod::lemma_fundamental_div_mod(1000 * a, b);
    vstd::arithmetic::div_mod::lemma_fundamental_div_mod(1000 * c, d);
    vstd::arithmetic::div_mod::lemma_mod_bound(1000 * a, b);
    vstd::arithmetic::div_mod::lemma_mod_bound(1000 * c, d);
    assert(f * b * d <= 1000 * a * d) by (nonlinear_arith)
        requires 1000 * a == b * f + (1000 * a) % b, (1000 * a) % b >= 0, d > 0;
    assert(1000 * a * d <= 1000 * c * b) by (nonlinear_arith) requires a * d <= c * b;
    assert(f * d <= 1000 * c) by (nonlinear_arith)
        requires f * b * d <= 1000 * c * b, b > 0;
    assert(f <= g) by (nonlinear_arith)
        requires f * d <= 1000 * c, 1000 * c == d * g + (1000 * c) % d, (1000 * c) % d < d, d > 0;
}

/// The average lies between the least and the greatest similarity of the sampled
/// pairs: some sampled pair is no more similar than the average, and some pair is
/// at least as similar.
pub proof fn lemma_average_between(exps: Seq<Experience>)
    requires
        exps.len() >= 2,
    ensures
        exists|i: int|
            0 <= i < sampled_pairs(exps.len()).len() && #[trigger] similarity_of(
                exps[sampled_pairs(exps.len())[i].0],
                exps[sampled_pairs(exps.len())[i].1],
            ) <= average_similarity(exps),
        exists|i: int|
            0 <= i < sampled_pairs(exps.len()).len() && #[trigger] similarity_of(
                exps[sampled_pairs(exps.len())[i].0],
                exps[sampled_pairs(exps.len())[i].1],
            ) >= average_similarity(exps),
{
    let ps = sampled_pairs(exps.len());
    lemma_sampled_pairs_nonempty(exps.len());
    lemma_similarity_sum_bounds(exps, ps);
    let (n, d) = similarity_sum(exps, ps);
    let l = ps.len() as int;
    let v = d * l;
    assert(v > 0) by (nonlinear_arith) requires d > 0, l > 0, v == d * l;
    lemma_sum_bounded(exps, ps, n, v);
    lemma_sum_bounded(exps, ps, n, v);
    assert(n * v == l * n * d) by (nonlinear_arith) requires v == d * l;
    // some pair is at most the mean
    if forall|i: int| 0 <= i < ps.len() ==> #[trigger] pair_ratio(exps, ps, i).0 * v > n * pair_ratio(exps, ps, i).1 {
        assert(false);
    }
    let i = choose|i: int| 0 <= i < ps.len() && !(#[trigger] pair_ratio(exps, ps, i).0 * v > n * pair_ratio(exps, ps, i).1);
    let (a, b) = pair_ratio(exps, ps, i);
    lemma_fractions_proper(exps[ps[i].0], exps[ps[i].1]);
    let (n1, d1) = crate::experience::tag_fraction(exps[ps[i].0], exps[ps[i].1]);
    let (n2, d2) = crate::experience::content_fraction(exps[ps[i].0], exps[ps[i].1]);
    assert(b > 0 && a >= 0) by (nonlinear_arith)
        requires b == d1 * d2, a == n1 * d2 + n2 * d1, d1 > 0, d2 > 0, n1 >= 0, n2 >= 0;
    lemma_floor_ordered(a, b, n, v);
    assert(similarity_of(exps[ps[i].0], exps[ps[i].1]) <= average_similarity(exps));
    // some pair is at least the mean
    lemma_sum_bounded_reverse(exps, ps, n, v);
    let j = choose|j: int| 0 <= j < ps.len() && (#[trigger] pair_ratio(exps, ps, j).0 * v >= n * pair_ratio(exps, ps, j).1);
    let (a2, b2) = pair_ratio(exps, ps, j);
    lemma_fractions_proper(exps[ps[j].0], exps[ps[j].1]);
    let (m1, e1) = crate::experience::tag_fraction(exps[ps[j].0], exps[ps[j].1]);
    let (m2, e2) = crate::experience::content_fraction(exps[ps[j].0], exps[ps[j].1]);
    assert(b2 > 0 && a2 >= 0) by (nonlinear_arith)
        requires b2 == e1 * e2, a2 == m1 * e2 + m2 * e1, e1 > 0, e2 > 0, m1 >= 0, m2 >= 0;
    lemma_floor_ordered(n, v, a2, b2);
    assert(similarity_of(exps[ps[j].0], exps[ps[j].1]) >= average_similarity(exps));
}

/// Not every pair can lie below the mean: some pair is at least `u / v` when the
/// sum is at least `len * u / v`.
proof fn lemma_sum_bounded_reverse(exps: Seq<Experience>, pairs: Seq<(int, int)>, u: int, v: int)
    requires
        v > 0,
        pairs.len() > 0,
        similarity_sum(exps, pairs).0 * v >= pairs.len() * u * similarity_sum(exps, pairs).1,
    ensures
        exists|j: int| 0 <= j < pairs.len() && #[trigger] pair_ratio(exps, pairs, j).0 * v >= u * pair_ratio(exps, pairs, j).1,
    decreases pairs.len(),
{
    let init = pairs.drop_last();
    let k = init.len();
    lemma_similarity_sum_bounds(exps, init);
    let (n, d) = similarity_sum(exps, init);
    let x = exps[pairs.last().0];
    let y = exps[pairs.last().1];
    lemma_fractions_proper(x, y);
    let (n1, d1) = crate::experience::tag_fraction(x, y);
    let (n2, d2) = crate::experience::content_fraction(x, y);
    let (a, b) = similarity_ratio(x, y);
    assert(b > 0) by (nonlinear_arith) requires b == d1 * d2, d1 > 0, d2 > 0;
    assert(pair_ratio(exps, pairs, k as int) == (a, b));
    if a * v >= u * b {
        assert(pair_ratio(exps, pairs, k as int).0 * v >= u * pair_ratio(exps, pairs, k as int).1);
    } else {
        // the last pair lies below, so the others carry the sum
        if k == 0 {
            assert(n == 0 && d == 1);
            assert((n * b + a * d) * v < 1 * u * (d * b)) by (nonlinear_arith)
                requires n == 0, d == 1, a * v < u * b;
        } else {
            let xx = n * v;
            let yy = a * v;
            assert((n * b + a * d) * v == xx * b + yy * d) by (nonlinear_arith)
                requires xx == n * v, yy == a * v;
            assert(yy * d < (u * b) * d) by (nonlinear_arith) requires yy < u * b, d > 0;
            assert((k + 1) * u * (d * b) == (k * u * d) * b + (u * b) * d) by (nonlinear_arith);
            assert(xx * b > (k * u * d) * b);
            assert(xx >= k * u * d) by (nonlinear_arith) requires xx * b > (k * u * d) * b, b > 0;
            lemma_sum_bounded_reverse(exps, init, u, v);
            let j = choose|j: int| 0 <= j < init.len() && #[trigger] pair_ratio(exps, init, j).0 * v >= u * pair_ratio(exps, init, j).1;
            assert(pair_ratio(exps, pairs, j) == pair_ratio(exps, init, j));
        }
    }
}

} // verus!
