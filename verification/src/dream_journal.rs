use vstd::prelude::*;
use vstd::string::StringExecFns;

use crate::dream_cycle::{DreamCycle, DreamType, Ratio};
use crate::natural::{from_u64, mul_small, plus, quotient, value};

verus! {

/// Tracks dream history across cycles.
#[derive(Debug, Clone)]
pub struct DreamJournal {
    pub entries: Vec<DreamCycle>,
    pub agent_id: String,
}

/// The dream types in declaration order.
pub open spec fn all_types() -> Seq<DreamType> {
    seq![
        DreamType::Consolidation,
        DreamType::Replay,
        DreamType::Generation,
        DreamType::Nightmare,
        DreamType::Lucid,
        DreamType::Prophetic,
    ]
}

/// The position of a dream type in declaration order.
pub open spec fn type_index(t: DreamType) -> int {
    match t {
        DreamType::Consolidation => 0,
        DreamType::Replay => 1,
        DreamType::Generation => 2,
        DreamType::Nightmare => 3,
        DreamType::Lucid => 4,
        DreamType::Prophetic => 5,
    }
}

pub fn type_at(i: usize) -> (t: DreamType)
    requires
        i < 6,
    ensures
        t == all_types()[i as int],
        type_index(t) == i,
{
    if i == 0 {
        DreamType::Consolidation
    } else if i == 1 {
        DreamType::Replay
    } else if i == 2 {
        DreamType::Generation
    } else if i == 3 {
        DreamType::Nightmare
    } else if i == 4 {
        DreamType::Lucid
    } else {
        DreamType::Prophetic
    }
}

pub fn index_of_type(t: DreamType) -> (i: usize)
    ensures
        i == type_index(t),
        i < 6,
        all_types()[i as int] == t,
{
    match t {
        DreamType::Consolidation => 0,
        DreamType::Replay => 1,
        DreamType::Generation => 2,
        DreamType::Nightmare => 3,
        DreamType::Lucid => 4,
        DreamType::Prophetic => 5,
    }
}

/// How many of the cycles are of type `t`.
pub open spec fn count_of_type(entries: Seq<DreamCycle>, t: DreamType) -> nat
    decreases entries.len(),
{
    if entries.len() == 0 {
        0
    } else {
        count_of_type(entries.drop_last(), t) + if entries.last().dream_type == t {
            1nat
        } else {
            0nat
        }
    }
}

/// How many tiles the cycles of type `t` produced.
pub open spec fn tiles_of_type(entries: Seq<DreamCycle>, t: DreamType) -> nat
    decreases entries.len(),
{
    if entries.len() == 0 {
        0
    } else {
        tiles_of_type(entries.drop_last(), t) + if entries.last().dream_type == t {
            entries.last().consolidated@.len()
        } else {
            0nat
        }
    }
}

/// How many tiles all the cycles produced.
pub open spec fn total_tiles(entries: Seq<DreamCycle>) -> nat
    decreases entries.len(),
{
    if entries.len() == 0 {
        0
    } else {
        total_tiles(entries.drop_last()) + entries.last().consolidated@.len()
    }
}

/// The energy all the cycles used, in thousandths.
pub open spec fn total_energy(entries: Seq<DreamCycle>) -> nat
    decreases entries.len(),
{
    if entries.len() == 0 {
        0
    } else {
        total_energy(entries.drop_last()) + entries.last().energy_used as nat
    }
}

/// A cycle's compression ratio as an exact fraction (experiences, tiles): 1 when
/// there was nothing to compress, none (unbounded) when experiences produced no
/// tile.
pub open spec fn compression_fraction(experiences: nat, tiles: nat) -> Option<(int, int)> {
    if tiles == 0 {
        if experiences == 0 {
            Some((1, 1))
        } else {
            None
        }
    } else {
        Some((experiences as int, tiles as int))
    }
}

/// The summed compression ratios of the cycles as an exact fraction (numerator,
/// denominator); none when some ratio is unbounded.
pub open spec fn compression_sum(entries: Seq<DreamCycle>) -> Option<(int, int)>
    decreases entries.len(),
{
    if entries.len() == 0 {
        Some((0, 1))
    } else {
        let e = entries.last();
        match (compression_sum(entries.drop_last()), compression_fraction(e.experiences@.len(), e.consolidated@.len())) {
            (Some((n, d)), Some((a, b))) => Some((n * b + a * d, d * b)),
            _ => None,
        }
    }
}

/// The pairs `(t, value(t))` for each dream type `t` (in declaration order) that
/// is `present`: a map from dream type to number, with each key once.
pub open spec fn type_table(present: spec_fn(DreamType) -> bool, value: spec_fn(DreamType) -> nat, k: nat) -> Seq<(DreamType, nat)>
    decreases k,
{
    if k == 0 {
        seq![]
    } else {
        let rest = type_table(present, value, (k - 1) as nat);
        let t = all_types()[k - 1];
        if present(t) {
            rest.push((t, value(t)))
        } else {
            rest
        }
    }
}

pub open spec fn table_view(v: Seq<(DreamType, usize)>) -> Seq<(DreamType, nat)> {
    v.map_values(|p: (DreamType, usize)| (p.0, p.1 as nat))
}

/// Builds the table of the types with `present[i]`, valued `values[i]`.
pub(crate) fn build_table(present: &Vec<bool>, values: &Vec<usize>, ghost_present: Ghost<spec_fn(DreamType) -> bool>, ghost_value: Ghost<spec_fn(DreamType) -> nat>) -> (res: Vec<(DreamType, usize)>)
    requires
        present@.len() == 6,
        values@.len() == 6,
        forall|i: int| 0 <= i < 6 ==> present@[i] == ghost_present@(#[trigger] all_types()[i]),
        forall|i: int| 0 <= i < 6 ==> values@[i] as nat == ghost_value@(#[trigger] all_types()[i]),
    ensures
        table_view(res@) == type_table(ghost_present@, ghost_value@, 6),
{
    let mut res: Vec<(DreamType, usize)> = Vec::new();
    for i in 0..6usize
        invariant
            present@.len() == 6,
            values@.len() == 6,
            forall|i: int| 0 <= i < 6 ==> present@[i] == ghost_present@(#[trigger] all_types()[i]),
            forall|i: int| 0 <= i < 6 ==> values@[i] as nat == ghost_value@(#[trigger] all_types()[i]),
            table_view(res@) == type_table(ghost_present@, ghost_value@, i as nat),
    {
        let t = type_at(i);
        assert(present@[i as int] == ghost_present@(all_types()[i as int]));
        assert(values@[i as int] as nat == ghost_value@(all_types()[i as int]));
        if present[i] {
            let ghost before = res@;
            res.push((t, values[i]));
            assert(table_view(res@) =~= table_view(before).push((t, values@[i as int] as nat)));
        }
    }
    res
}

impl DreamJournal {
    pub fn new(agent_id: &str) -> (res: Self)
        ensures
            res.entries@.len() == 0,
            res.agent_id@ == agent_id@,
    {
        DreamJournal { entries: Vec::new(), agent_id: String::from_str(agent_id) }
    }

    pub fn record(&mut self, cycle: DreamCycle)
        ensures
            final(self).entries@ == old(self).entries@.push(cycle),
            final(self).agent_id == old(self).agent_id,
    {
        self.entries.push(cycle);
    }

    pub fn total_dreams(&self) -> (res: usize)
        ensures
            res == self.entries@.len(),
    {
        self.entries.len()
    }

    /// How many cycles of each recorded dream type there were: one pair
    /// `(type, count)` per type that occurs, in declaration order.
    pub fn dream_types_distribution(&self) -> (res: Vec<(DreamType, usize)>)
        ensures
            table_view(res@) == type_table(
                |t: DreamType| count_of_type(self.entries@, t) > 0,
                |t: DreamType| count_of_type(self.entries@, t),
                6,
            ),
    {
        let ghost es = self.entries@;
        let mut counts: Vec<usize> = vec![0, 0, 0, 0, 0, 0];
        for k in 0..self.entries.len()
            invariant
                es == self.entries@,
                counts@.len() == 6,
                forall|i: int| 0 <= i < 6 ==> counts@[i] as nat == count_of_type(es.take(k as int), #[trigger] all_types()[i]),
                forall|i: int| 0 <= i < 6 ==> counts@[i] <= k,
        {
            let i = index_of_type(self.entries[k].dream_type);
            assert(es.take(k + 1).drop_last() == es.take(k as int));
            counts.set(i, counts[i] + 1);
        }
        assert(es.take(es.len() as int) == es);
        let mut present: Vec<bool> = Vec::new();
        for i in 0..6usize
            invariant
                counts@.len() == 6,
                present@.len() == i,
                forall|j: int| 0 <= j < i ==> present@[j] == (counts@[j] > 0),
        {
            present.push(counts[i] > 0);
        }
        build_table(
            &present,
            &counts,
            Ghost(|t: DreamType| count_of_type(self.entries@, t) > 0),
            Ghost(|t: DreamType| count_of_type(self.entries@, t)),
        )
    }

    /// The mean compression ratio over all cycles, in thousandths: the exact mean
    /// rounded down (0 with no cycles; unbounded when some cycle's ratio is).
    pub fn average_compression(&self) -> (res: Ratio)
        ensures
            res == if self.entries@.len() == 0 {
                Ratio::Finite(0)
            } else {
                match compression_sum(self.entries@) {
                    Some((n, d)) => Ratio::Finite(((1000 * n) / (d * self.entries@.len())) as u128),
                    None => Ratio::Infinite,
                }
            },
    {
        let ghost es = self.entries@;
        if self.entries.len() == 0 {
            return Ratio::Finite(0);
        }
        let mut num: Vec<u32> = Vec::new();
        let mut den: Vec<u32> = from_u64(1);
        let mut top: u64 = 0;
        assert(value(num@) == 0);
        for k in 0..self.entries.len()
            invariant
                es == self.entries@,
                compression_sum(es.take(k as int)) == Some((value(num@) as int, value(den@) as int)),
                value(den@) > 0,
                value(num@) <= k * top * value(den@),
        {
            assert(es.take(k + 1).drop_last() == es.take(k as int));
            let e = &self.entries[k];
            let ne = e.experiences.len();
            let nt = e.consolidated.len();
            let (a, b): (u64, u64) = if nt == 0 {
                if ne == 0 {
                    (1, 1)
                } else {
                    proof {
                        lemma_compression_sum_none(es, (k + 1) as nat);
                    }
                    return Ratio::Infinite;
                }
            } else {
                (ne as u64, nt as u64)
            };
            let new_num = plus(&mul_small(&num, b as u128), &mul_small(&den, a as u128));
            let new_den = mul_small(&den, b as u128);
            let new_top = if a > top { a } else { top };
            proof {
                let (nv, dv) = (value(num@) as int, value(den@) as int);
                assert(value(new_num@) == nv * b + a * dv) by (nonlinear_arith)
                    requires value(new_num@) == nv * b + dv * a;
                assert(value(new_den@) > 0 && nv * b + a * dv <= (k + 1) * new_top * (dv * b)) by (nonlinear_arith)
                    requires
                        value(new_den@) == dv * b,
                        dv > 0,
                        b >= 1,
                        0 <= a <= new_top,
                        top <= new_top,
                        0 <= nv <= k * top * dv,
                        k >= 0;
            }
            num = new_num;
            den = new_den;
            top = new_top;
        }
        assert(es.take(es.len() as int) == es);
        let ghost nv = value(num@) as int;
        let ghost dv = value(den@) as int;
        let len = self.entries.len();
        let target = mul_small(&num, 1000);
        let q = mul_small(&den, len as u128);
        let ghost t = 1000 * nv;
        let ghost qv = dv * len;
        let bound: u128 = 1000 * (top as u128) + 1;
        assert(qv > 0 && t < bound * qv) by (nonlinear_arith)
            requires
                dv > 0,
                len > 0,
                0 <= nv <= len * top * dv,
                qv == dv * len,
                t == 1000 * nv,
                bound == 1000 * top + 1;
        let r = quotient(&target, &q, bound);
        Ratio::Finite(r)
    }

    /// The dream type whose cycles produced the most tiles; among equals, the one
    /// declared first; Consolidation when nothing was recorded.
    pub fn most_productive_type(&self) -> (res: DreamType)
        ensures
            self.entries@.len() == 0 ==> res == DreamType::Consolidation,
            self.entries@.len() > 0 ==> {
                &&& count_of_type(self.entries@, res) > 0
                &&& forall|t: DreamType| #[trigger] count_of_type(self.entries@, t) > 0 ==> {
                    ||| tiles_of_type(self.entries@, t) < tiles_of_type(self.entries@, res)
                    ||| tiles_of_type(self.entries@, t) == tiles_of_type(self.entries@, res) && type_index(res) <= type_index(t)
                }
            },
    {
        let ghost es = self.entries@;
        let mut counts: Vec<usize> = vec![0, 0, 0, 0, 0, 0];
        let mut tiles: Vec<u128> = vec![0, 0, 0, 0, 0, 0];
        for k in 0..self.entries.len()
            invariant
                es == self.entries@,
                k <= usize::MAX,
                counts@.len() == 6,
                tiles@.len() == 6,
                forall|i: int| 0 <= i < 6 ==> counts@[i] as nat == count_of_type(es.take(k as int), #[trigger] all_types()[i]),
                forall|i: int| 0 <= i < 6 ==> tiles@[i] as nat == tiles_of_type(es.take(k as int), #[trigger] all_types()[i]),
                forall|i: int| 0 <= i < 6 ==> counts@[i] <= k,
                forall|i: int| 0 <= i < 6 ==> tiles@[i] <= k * 0xffff_ffff_ffff_ffff,
        {
            let t = self.entries[k].dream_type;
            let i = index_of_type(t);
            assert(es.take(k + 1).drop_last() == es.take(k as int));
            let len = self.entries[k].consolidated.len();
            assert(tiles@[i as int] + len <= (k + 1) * 0xffff_ffff_ffff_ffff) by (nonlinear_arith)
                requires tiles@[i as int] <= k * 0xffff_ffff_ffff_ffff, len <= 0xffff_ffff_ffff_ffff;
            assert((k + 1) * 0xffff_ffff_ffff_ffff <= u128::MAX) by (nonlinear_arith)
                requires k < 0xffff_ffff_ffff_ffff;
            counts.set(i, counts[i] + 1);
            tiles.set(i, tiles[i] + len as u128);
        }
        assert(es.take(es.len() as int) == es);
        let mut best: usize = 0;
        let mut found = false;
        for i in 0..6usize
            invariant
                counts@.len() == 6,
                tiles@.len() == 6,
                best < 6,
                found ==> counts@[best as int] > 0 && best < i,
                !found ==> forall|j: int| 0 <= j < i ==> counts@[j] == 0,
                found ==> forall|j: int| 0 <= j < i && counts@[j] > 0 ==> {
                    ||| tiles@[j] < tiles@[best as int]
                    ||| tiles@[j] == tiles@[best as int] && best <= j
                },
        {
            if counts[i] > 0 && (!found || tiles[i] > tiles[best]) {
                best = i;
                found = true;
            }
        }
        let res = type_at(best);
        proof {
            if es.len() > 0 {
                let t0 = es[0].dream_type;
                lemma_count_positive(es, 0);
                assert(counts@[type_index(t0)] > 0);
                assert forall|t: DreamType| #[trigger] count_of_type(es, t) > 0 implies {
                    ||| tiles_of_type(es, t) < tiles_of_type(es, res)
                    ||| tiles_of_type(es, t) == tiles_of_type(es, res) && type_index(res) <= type_index(t)
                } by {
                    assert(all_types()[type_index(t)] == t);
                    assert(counts@[type_index(t)] as nat == count_of_type(es, t));
                }
            }
        }
        if self.entries.len() == 0 {
            DreamType::Consolidation
        } else {
            res
        }
    }

    /// The energy all cycles used, in thousandths.
    pub fn energy_spent(&self) -> (res: u128)
        requires
            total_energy(self.entries@) <= u128::MAX,
        ensures
            res == total_energy(self.entries@),
    {
        let ghost es = self.entries@;
        let mut sum: u128 = 0;
        for k in 0..self.entries.len()
            invariant
                es == self.entries@,
                total_energy(es) <= u128::MAX,
                sum == total_energy(es.take(k as int)),
        {
            assert(es.take(k + 1).drop_last() == es.take(k as int));
            proof {
                lemma_total_energy_prefix(es, (k + 1) as nat);
            }
            sum = sum + self.entries[k].energy_used;
        }
        assert(es.take(es.len() as int) == es);
        sum
    }

    /// How many tiles all cycles produced.
    pub fn tiles_produced(&self) -> (res: usize)
        requires
            total_tiles(self.entries@) <= usize::MAX,
        ensures
            res == total_tiles(self.entries@),
    {
        let ghost es = self.entries@;
        let mut sum: usize = 0;
        for k in 0..self.entries.len()
            invariant
                es == self.entries@,
                total_tiles(es) <= usize::MAX,
                sum == total_tiles(es.take(k as int)),
        {
            assert(es.take(k + 1).drop_last() == es.take(k as int));
            proof {
                lemma_total_tiles_prefix(es, (k + 1) as nat);
            }
            sum = sum + self.entries[k].consolidated.len();
        }
        assert(es.take(es.len() as int) == es);
        sum
    }
}

pub proof fn lemma_total_energy_prefix(es: Seq<DreamCycle>, k: nat)
    requires
        k <= es.len(),
    ensures
        total_energy(es.take(k as int)) <= total_energy(es),
    decreases es.len(),
{
    if k < es.len() {
        assert(es.drop_last().take(k as int) == es.take(k as int));
        lemma_total_energy_prefix(es.drop_last(), k);
    } else {
        assert(es.take(k as int) == es);
    }
}

pub proof fn lemma_total_tiles_prefix(es: Seq<DreamCycle>, k: nat)
    requires
        k <= es.len(),
    ensures
        total_tiles(es.take(k as int)) <= total_tiles(es),
    decreases es.len(),
{
    if k < es.len() {
        assert(es.drop_last().take(k as int) == es.take(k as int));
        lemma_total_tiles_prefix(es.drop_last(), k);
    } else {
        assert(es.take(k as int) == es);
    }
}

/// An unbounded ratio in the first `k` cycles makes the sum unbounded.
pub proof fn lemma_compression_sum_none(es: Seq<DreamCycle>, k: nat)
    requires
        1 <= k <= es.len(),
        compression_fraction(es[k - 1].experiences@.len(), es[k - 1].consolidated@.len()) is None,
    ensures
        compression_sum(es) is None,
    decreases es.len(),
{
    if k < es.len() {
        assert(es.drop_last()[k - 1] == es[k - 1]);
        lemma_compression_sum_none(es.drop_last(), k);
    }
}

/// A recorded cycle counts for its type.
pub proof fn lemma_count_positive(es: Seq<DreamCycle>, k: int)
    requires
        0 <= k < es.len(),
    ensures
        count_of_type(es, es[k].dream_type) > 0,
    decreases es.len(),
{
    if k < es.len() - 1 {
        lemma_count_positive(es.drop_last(), k);
    }
}

} // verus!

verus! {

/// The sum of `f` over the six dream types.
pub open spec fn over_types(f: spec_fn(DreamType) -> nat) -> nat {
    f(DreamType::Consolidation) + f(DreamType::Replay) + f(DreamType::Generation) + f(
        DreamType::Nightmare,
    ) + f(DreamType::Lucid) + f(DreamType::Prophetic)
}

/// Recording a cycle adds one dream of its type, its tiles and its energy to the
/// journal's totals, and changes nothing for the other types.
pub proof fn lemma_record_adds(entries: Seq<DreamCycle>, cycle: DreamCycle, t: DreamType)
    ensures
        entries.push(cycle).len() == entries.len() + 1,
        count_of_type(entries.push(cycle), t) == count_of_type(entries, t) + if cycle.dream_type == t {
            1nat
        } else {
            0nat
        },
        tiles_of_type(entries.push(cycle), t) == tiles_of_type(entries, t) + if cycle.dream_type == t {
            cycle.consolidated@.len()
        } else {
            0nat
        },
        total_tiles(entries.push(cycle)) == total_tiles(entries) + cycle.consolidated@.len(),
        total_energy(entries.push(cycle)) == total_energy(entries) + cycle.energy_used,
{
    assert(entries.push(cycle).drop_last() == entries);
}

/// The distribution accounts for every dream and every tile: the per-type
/// counts add up to the number of dreams, the per-type tiles to all tiles.
pub proof fn lemma_distribution_totals(entries: Seq<DreamCycle>)
    ensures
        over_types(|t: DreamType| count_of_type(entries, t)) == entries.len(),
        over_types(|t: DreamType| tiles_of_type(entries, t)) == total_tiles(entries),
    decreases entries.len(),
{
    if entries.len() > 0 {
        lemma_distribution_totals(entries.drop_last());
    }
}

} // verus!

verus! {

/// The sum of the numbers in a table.
pub open spec fn table_sum(t: Seq<(DreamType, nat)>) -> nat
    decreases t.len(),
{
    if t.len() == 0 {
        0
    } else {
        table_sum(t.drop_last()) + t.last().1
    }
}

proof fn lemma_table_sum_push(t: Seq<(DreamType, nat)>, p: (DreamType, nat))
    ensures
        table_sum(t.push(p)) == table_sum(t) + p.1,
{
    assert(t.push(p).drop_last() == t);
}

/// The table of present types sums to the total over all types, the absent ones
/// counting 0.
pub proof fn lemma_table_total(f: spec_fn(DreamType) -> nat)
    ensures
        table_sum(type_table(|t: DreamType| f(t) > 0, f, 6)) == over_types(f),
{
    let present = |t: DreamType| f(t) > 0;
    assert(type_table(present, f, 0) == Seq::<(DreamType, nat)>::empty());
    assert forall|k: nat| 1 <= k <= 6 implies #[trigger] table_sum(type_table(present, f, k)) == table_sum(type_table(present, f, (k - 1) as nat)) + f(all_types()[k - 1]) by {
        let rest = type_table(present, f, (k - 1) as nat);
        let t = all_types()[k - 1];
        if present(t) {
            lemma_table_sum_push(rest, (t, f(t)));
        }
    }
    assert(table_sum(type_table(present, f, 1)) == f(DreamType::Consolidation));
    assert(table_sum(type_table(present, f, 2)) == table_sum(type_table(present, f, 1)) + f(DreamType::Replay));
    assert(table_sum(type_table(present, f, 3)) == table_sum(type_table(present, f, 2)) + f(DreamType::Generation));
    assert(table_sum(type_table(present, f, 4)) == table_sum(type_table(present, f, 3)) + f(DreamType::Nightmare));
    assert(table_sum(type_table(present, f, 5)) == table_sum(type_table(present, f, 4)) + f(DreamType::Lucid));
    assert(table_sum(type_table(present, f, 6)) == table_sum(type_table(present, f, 5)) + f(DreamType::Prophetic));
}

/// The distribution accounts for every recorded dream: its counts add up to the
/// number of dreams.
pub proof fn lemma_distribution_counts_all(entries: Seq<DreamCycle>)
    ensures
        table_sum(
            type_table(
                |t: DreamType| count_of_type(entries, t) > 0,
                |t: DreamType| count_of_type(entries, t),
                6,
            ),
        ) == entries.len(),
{
    let f = |t: DreamType| count_of_type(entries, t);
    lemma_table_total(f);
    lemma_distribution_totals(entries);
    assert((|t: DreamType| f(t) > 0) == (|t: DreamType| count_of_type(entries, t) > 0));
}

} // verus!
