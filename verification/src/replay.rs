use vstd::prelude::*;

use crate::dream_cycle::DreamType;
use crate::experience::Experience;
use crate::order::{lemma_sorted_unique_by, sorted_by, strict_total_order};
use crate::text::{push_str, strs};
use crate::tile::{all_random_ids, shapes, DreamTile, TileShape};

verus! {

/// Re-experiences important moments with slight reinterpretation.
pub struct ReplayEngine {
    pub replay_count: usize,
}

/// How strongly an experience asks to be replayed: importance times the magnitude
/// of its emotion (in millionths).
pub open spec fn replay_score(e: Experience) -> int {
    e.importance as int * (if e.emotion < 0 { -e.emotion } else { e.emotion as int })
}

/// Experience `i` is replayed before experience `j`: it scores higher, or scores the
/// same and comes first (the order is stable).
pub open spec fn replayed_before(exps: Seq<Experience>, i: int, j: int) -> bool {
    let si = replay_score(exps[i]);
    let sj = replay_score(exps[j]);
    si > sj || (si == sj && i < j)
}

/// `o` lists every index of `exps` once, in replay order.
pub open spec fn is_replay_order(exps: Seq<Experience>, o: Seq<int>) -> bool {
    &&& o.len() == exps.len()
    &&& forall|k: int| 0 <= k < exps.len() ==> o.contains(k)
    &&& forall|p: int| 0 <= p < o.len() ==> 0 <= #[trigger] o[p] < exps.len()
    &&& sorted_by(o, |i: int, j: int| replayed_before(exps, i, j))
}

/// The indices of `exps` by decreasing score, ties in input order.
pub open spec fn replay_order(exps: Seq<Experience>) -> Seq<int> {
    choose|o: Seq<int>| is_replay_order(exps, o)
}

pub open spec fn replay_shape(e: Experience) -> TileShape {
    TileShape {
        content: "replayed: "@ + e.content@,
        sources: seq![e.id@],
        novelty: 100,
        confidence: 950,
        dream_type: DreamType::Replay,
    }
}

/// The `n` highest-scoring experiences (all of them, if fewer), each replayed once:
/// novelty 0.1 (a slight reinterpretation), confidence 0.95.
pub open spec fn replay_shapes(exps: Seq<Experience>, n: nat) -> Seq<TileShape> {
    let o = replay_order(exps);
    let m = if n < exps.len() { n as int } else { exps.len() as int };
    Seq::new(m as nat, |k: int| replay_shape(exps[o[k]]))
}

pub proof fn lemma_replay_order_total(exps: Seq<Experience>)
    ensures
        strict_total_order(|i: int, j: int| replayed_before(exps, i, j)),
{
}

/// There is exactly one replay order, and `replay_order` is it.
pub proof fn lemma_replay_order_unique(exps: Seq<Experience>, o: Seq<int>)
    requires
        is_replay_order(exps, o),
    ensures
        replay_order(exps) == o,
{
    let c = replay_order(exps);
    assert(is_replay_order(exps, c));
    assert forall|x: int| c.contains(x) <==> o.contains(x) by {
        if c.contains(x) {
            let p = choose|p: int| 0 <= p < c.len() && c[p] == x;
            assert(0 <= c[p] < exps.len());
        }
        if o.contains(x) {
            let p = choose|p: int| 0 <= p < o.len() && o[p] == x;
            assert(0 <= o[p] < exps.len());
        }
    }
    lemma_replay_order_total(exps);
    lemma_sorted_unique_by(c, o, |i: int, j: int| replayed_before(exps, i, j));
}

pub open spec fn as_ints(v: Seq<usize>) -> Seq<int> {
    v.map_values(|x: usize| x as int)
}

fn score(e: &Experience) -> (res: i128)
    ensures
        res == replay_score(*e),
{
    let m: i128 = if e.emotion < 0 { -(e.emotion as i128) } else { e.emotion as i128 };
    let imp = e.importance as i128;
    assert(-0x4000_0000_0000_0000_0000_0000_0000_0000 <= imp * m <= 0x4000_0000_0000_0000_0000_0000_0000_0000) by (nonlinear_arith)
        requires
            0 <= m <= 0x8000_0000_0000_0000,
            -0x8000_0000_0000_0000 <= imp <= 0x7fff_ffff_ffff_ffff;
    imp * m
}

/// The replay order, computed by a stable insertion sort.
fn ranking(experiences: &[Experience]) -> (res: Vec<usize>)
    ensures
        as_ints(res@) == replay_order(experiences@),
        is_replay_order(experiences@, as_ints(res@)),
{
    let ghost exps = experiences@;
    let n = experiences.len();
    let mut scores: Vec<i128> = Vec::new();
    for k in 0..n
        invariant
            n == exps.len(),
            exps == experiences@,
            scores@.len() == k,
            forall|j: int| 0 <= j < k ==> scores@[j] == replay_score(exps[j]),
    {
        scores.push(score(&experiences[k]));
    }
    let mut order: Vec<usize> = Vec::new();
    proof {
        lemma_replay_order_total(exps);
    }
    for i in 0..n
        invariant
            n == exps.len(),
            exps == experiences@,
            scores@.len() == n,
            forall|j: int| 0 <= j < n ==> scores@[j] == replay_score(exps[j]),
            strict_total_order(|i: int, j: int| replayed_before(exps, i, j)),
            order@.len() == i,
            forall|k: int| 0 <= k < i ==> as_ints(order@).contains(k),
            forall|p: int| 0 <= p < order@.len() ==> order@[p] < i,
            sorted_by(as_ints(order@), |a: int, b: int| replayed_before(exps, a, b)),
    {
        let si = scores[i];
        let mut p: usize = 0;
        while p < order.len() && scores[order[p]] >= si
            invariant
                n == exps.len(),
                i < n,
                si == scores@[i as int],
                scores@.len() == n,
                forall|j: int| 0 <= j < n ==> scores@[j] == replay_score(exps[j]),
                forall|q: int| 0 <= q < order@.len() ==> order@[q] < i,
                p <= order@.len(),
                forall|q: int| 0 <= q < p ==> replayed_before(exps, order@[q] as int, i as int),
            decreases order.len() - p,
        {
            assert(scores@[order@[p as int] as int] == replay_score(exps[order@[p as int] as int]));
            p = p + 1;
        }
        let ghost old_order = as_ints(order@);
        order.insert(p, i);
        let ghost o = as_ints(order@);
        assert(o =~= old_order.take(p as int).push(i as int) + old_order.skip(p as int));
        proof {
            if p < old_order.len() {
                assert(replayed_before(exps, i as int, old_order[p as int]));
            }
        }
        assert forall|a: int, b: int| 0 <= a < b < o.len() implies replayed_before(exps, o[a], o[b]) by {
            if b < p {
                assert(o[a] == old_order[a] && o[b] == old_order[b]);
            } else if b == p {
            } else if a < p {
                assert(o[b] == old_order[b - 1]);
                assert(replayed_before(exps, i as int, old_order[p as int]));
                if b - 1 > p {
                    assert(replayed_before(exps, old_order[p as int], old_order[b - 1]));
                }
            } else if a == p {
                assert(o[b] == old_order[b - 1]);
                if b - 1 > p {
                    assert(replayed_before(exps, old_order[p as int], old_order[b - 1]));
                }
            } else {
                assert(o[a] == old_order[a - 1] && o[b] == old_order[b - 1]);
            }
        }
        assert forall|k: int| 0 <= k < i + 1 implies o.contains(k) by {
            if k == i {
                assert(o[p as int] == k);
            } else {
                assert(old_order.contains(k));
                let q = choose|q: int| 0 <= q < old_order.len() && old_order[q] == k;
                if q < p {
                    assert(o[q] == k);
                } else {
                    assert(o[q + 1] == k);
                }
            }
        }
    }
    proof {
        let o = as_ints(order@);
        assert forall|p: int| 0 <= p < o.len() implies 0 <= #[trigger] o[p] < exps.len() by {
            assert(order@[p] < n);
        }
        lemma_replay_order_unique(exps, o);
    }
    order
}

impl ReplayEngine {
    pub fn new(replay_count: usize) -> (res: Self)
        ensures
            res.replay_count == replay_count,
    {
        ReplayEngine { replay_count }
    }

    /// Ranks experiences by importance times the magnitude of emotion, takes the
    /// top `n`, and re-expresses each.
    pub fn replay(&self, experiences: &[Experience], n: usize) -> (res: Vec<DreamTile>)
        ensures
            shapes(res@) == replay_shapes(experiences@, n as nat),
            all_random_ids(res@),
    {
        let order = ranking(experiences);
        let m = if n < experiences.len() {
            n
        } else {
            experiences.len()
        };
        let ghost o = replay_order(experiences@);
        let mut res: Vec<DreamTile> = Vec::new();
        for k in 0..m
            invariant
                m <= experiences@.len(),
                m == (if n < experiences@.len() { n as int } else { experiences@.len() as int }),
                as_ints(order@) == o,
                o == replay_order(experiences@),
                is_replay_order(experiences@, o),
                res@.len() == k,
                forall|j: int| 0 <= j < k ==> #[trigger] shapes(res@)[j] == replay_shape(experiences@[o[j]]),
                all_random_ids(res@),
        {
            assert(as_ints(order@)[k as int] == order@[k as int] as int);
            assert(0 <= o[k as int] < experiences@.len());
            let exp = &experiences[order[k]];
            let mut content = String::new();
            push_str(&mut content, "replayed: ");
            push_str(&mut content, exp.content.as_str());
            let sources = vec![exp.id.clone()];
            assert(strs(sources@) =~= seq![exp.id@]);
            let tile = DreamTile::new(content, sources, 100, 950, DreamType::Replay);
            let ghost before = res@;
            res.push(tile);
            assert forall|j: int| 0 <= j < k + 1 implies #[trigger] shapes(res@)[j] == replay_shape(experiences@[o[j]]) by {
                if j < k {
                    assert(res@[j] == before[j]);
                    assert(shapes(before)[j] == before[j].shape());
                }
            }
        }
        assert(shapes(res@) =~= replay_shapes(experiences@, n as nat));
        res
    }
}

} // verus!

verus! {

/// Every list of experiences has its replay order.
pub proof fn lemma_replay_order_exists(exps: Seq<Experience>)
    ensures
        is_replay_order(exps, replay_order(exps)),
{
    let lt = |i: int, j: int| replayed_before(exps, i, j);
    lemma_replay_order_total(exps);
    let r = Seq::new(exps.len(), |k: int| k);
    crate::order::lemma_sort_by(r, lt);
    let o = crate::order::sort_by(r, lt);
    crate::order::lemma_sorted_no_duplicates(o, lt);
    assert forall|k: int| 0 <= k < exps.len() implies o.contains(k) by {
        assert(r[k] == k);
        assert(r.contains(k));
    }
    assert forall|p: int| 0 <= p < o.len() implies 0 <= #[trigger] o[p] < exps.len() by {
        assert(o.contains(o[p]));
        assert(r.contains(o[p]));
    }
    assert(o.to_set() =~= r.to_set());
    o.unique_seq_to_set();
    assert(r.no_duplicates());
    r.unique_seq_to_set();
    assert(is_replay_order(exps, o));
}

/// Replay takes the experiences by decreasing score (importance times the
/// magnitude of emotion), each at most once: no replayed experience scores below
/// a later or an unreplayed one, and there are `min(n, len)` tiles.
pub proof fn lemma_replay_picks_top(exps: Seq<Experience>, n: nat)
    ensures
        replay_shapes(exps, n).len() == if n < exps.len() { n as int } else { exps.len() as int },
        replay_order(exps).no_duplicates(),
        replay_order(exps).len() == exps.len(),
        forall|p: int, q: int|
            0 <= p < q < exps.len() ==> replay_score(exps[#[trigger] replay_order(exps)[p]]) >= replay_score(
                exps[#[trigger] replay_order(exps)[q]],
            ),
        forall|k: int|
            0 <= k < replay_shapes(exps, n).len() ==> #[trigger] replay_shapes(exps, n)[k] == replay_shape(
                exps[replay_order(exps)[k]],
            ),
{
    lemma_replay_order_exists(exps);
    lemma_replay_order_total(exps);
    let o = replay_order(exps);
    crate::order::lemma_sorted_no_duplicates(o, |i: int, j: int| replayed_before(exps, i, j));
    assert forall|p: int, q: int| 0 <= p < q < exps.len() implies replay_score(exps[#[trigger] o[p]]) >= replay_score(exps[#[trigger] o[q]]) by {
        assert(replayed_before(exps, o[p], o[q]));
    }
}

/// The magnitude of an emotion.
pub open spec fn magnitude(x: i64) -> int {
    if x < 0 {
        -(x as int)
    } else {
        x as int
    }
}

/// What replay does, on the experiences' own fields: there is an ordering `o` of
/// all the experiences, each once, by decreasing importance times magnitude of
/// emotion, ties in input order; the tiles replay its first `min(n, len)`
/// experiences in that order, each as "replayed: " and its content, sourced from
/// its id. So a replayed experience never has a smaller product than a later or
/// an unreplayed one.
pub proof fn lemma_replay_by_fields(exps: Seq<Experience>, n: nat)
    ensures
        exists|o: Seq<int>|
            {
                &&& o.len() == exps.len()
                &&& o.no_duplicates()
                &&& forall|p: int| 0 <= p < o.len() ==> 0 <= #[trigger] o[p] < exps.len()
                &&& forall|p: int, q: int|
                    0 <= p < q < o.len() ==> {
                        let a = exps[#[trigger] o[p]];
                        let b = exps[#[trigger] o[q]];
                        &&& a.importance * magnitude(a.emotion) >= b.importance * magnitude(b.emotion)
                        &&& a.importance * magnitude(a.emotion) == b.importance * magnitude(b.emotion) ==> o[p]
                            < o[q]
                    }
                &&& replay_shapes(exps, n).len() == if n < exps.len() { n as int } else { exps.len() as int }
                &&& forall|k: int|
                    0 <= k < replay_shapes(exps, n).len() ==> {
                        &&& (#[trigger] replay_shapes(exps, n)[k]).content == "replayed: "@ + exps[o[k]].content@
                        &&& replay_shapes(exps, n)[k].sources == seq![exps[o[k]].id@]
                        &&& replay_shapes(exps, n)[k].dream_type == DreamType::Replay
                    }
            },
{
    lemma_replay_order_exists(exps);
    lemma_replay_order_total(exps);
    let o = replay_order(exps);
    crate::order::lemma_sorted_no_duplicates(o, |i: int, j: int| replayed_before(exps, i, j));
    assert forall|p: int, q: int| 0 <= p < q < o.len() implies {
        let a = exps[#[trigger] o[p]];
        let b = exps[#[trigger] o[q]];
        &&& a.importance * magnitude(a.emotion) >= b.importance * magnitude(b.emotion)
        &&& a.importance * magnitude(a.emotion) == b.importance * magnitude(b.emotion) ==> o[p] < o[q]
    } by {
        assert(replayed_before(exps, o[p], o[q]));
    }
}

} // verus!
