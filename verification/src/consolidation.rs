use vstd::prelude::*;

use crate::dream_cycle::DreamType;
use crate::experience::{similarity_of, Experience};
use crate::order::lemma_push_contains;
use crate::text::{
    chars_of, join, join_strings, join_words, push_str, sorted_distinct, sorted_set, strictly_sorted,
    strs, views_of,
};
use crate::tile::{all_random_ids, shapes, DreamTile, TileShape};

verus! {

/// Merges similar experiences into consolidated dream tiles.
pub struct ConsolidationEngine {
    /// Least similarity (in thousandths) at which two experiences are merged.
    pub similarity_threshold: i64,
}

/// Experience `j` is similar enough to experience `i` to join its cluster.
pub open spec fn similar(exps: Seq<Experience>, threshold: int, i: int, j: int) -> bool {
    similarity_of(exps[i], exps[j]) >= threshold
}

/// The indices in `i+1..upto`, in order, of the experiences that are still
/// unassigned and similar enough to experience `i`.
pub open spec fn followers(
    exps: Seq<Experience>,
    threshold: int,
    assigned: Seq<bool>,
    i: int,
    upto: int,
) -> Seq<int>
    decreases upto - i,
{
    if upto <= i + 1 {
        seq![]
    } else {
        let rest = followers(exps, threshold, assigned, i, upto - 1);
        let j = upto - 1;
        if !assigned[j] && similar(exps, threshold, i, j) {
            rest.push(j)
        } else {
            rest
        }
    }
}

/// `assigned` with the members of a new cluster marked.
pub open spec fn mark(assigned: Seq<bool>, members: Seq<int>) -> Seq<bool> {
    Seq::new(assigned.len(), |k: int| assigned[k] || members.contains(k))
}

/// Greedy clustering after the first `i` experiences were considered as leaders:
/// the clusters so far, and which experiences they hold. Each unassigned
/// experience, in order, starts a cluster and draws in every later unassigned
/// experience similar enough to it.
pub open spec fn clustering(exps: Seq<Experience>, threshold: int, i: nat) -> (
    Seq<Seq<int>>,
    Seq<bool>,
)
    decreases i,
{
    if i == 0 {
        (seq![], Seq::new(exps.len(), |k: int| false))
    } else {
        let (done, assigned) = clustering(exps, threshold, (i - 1) as nat);
        let leader = i - 1;
        if assigned[leader] {
            (done, assigned)
        } else {
            let members = seq![leader] + followers(
                exps,
                threshold,
                assigned,
                leader,
                exps.len() as int,
            );
            (done.push(members), mark(assigned, members))
        }
    }
}

/// The clusters of the greedy clustering, as lists of indices into `exps`.
pub open spec fn clusters(exps: Seq<Experience>, threshold: int) -> Seq<Seq<int>> {
    clustering(exps, threshold, exps.len()).0
}

/// All tags of the experiences at `members`, in order, with repeats.
pub open spec fn member_tags(exps: Seq<Experience>, members: Seq<int>) -> Seq<Seq<char>>
    decreases members.len(),
{
    if members.len() == 0 {
        seq![]
    } else {
        member_tags(exps, members.drop_last()) + strs(exps[members.last()].tags@)
    }
}

/// The content of a consolidated tile: a lone experience's own content; otherwise
/// the members' distinct tags, sorted, in brackets, then their contents joined
/// by " | ".
pub open spec fn cluster_content(exps: Seq<Experience>, members: Seq<int>) -> Seq<char> {
    if members.len() == 1 {
        exps[members[0]].content@
    } else {
        "["@ + join(sorted_set(member_tags(exps, members)), ", "@) + "] "@ + join(
            members.map_values(|k: int| exps[k].content@),
            " | "@,
        )
    }
}

/// One tile per cluster. Pure consolidation adds no new information: novelty 0,
/// confidence 1.
pub open spec fn cluster_shape(exps: Seq<Experience>, members: Seq<int>) -> TileShape {
    TileShape {
        content: cluster_content(exps, members),
        sources: members.map_values(|k: int| exps[k].id@),
        novelty: 0,
        confidence: 1000,
        dream_type: DreamType::Consolidation,
    }
}

pub open spec fn consolidation_shapes(exps: Seq<Experience>, threshold: int) -> Seq<TileShape> {
    clusters(exps, threshold).map_values(|m: Seq<int>| cluster_shape(exps, m))
}

pub open spec fn index_views(v: Seq<Vec<usize>>) -> Seq<Seq<int>> {
    v.map_values(|c: Vec<usize>| c@.map_values(|k: usize| k as int))
}

pub proof fn lemma_followers_bounds(
    exps: Seq<Experience>,
    threshold: int,
    assigned: Seq<bool>,
    i: int,
    upto: int,
)
    ensures
        forall|p: int|
            0 <= p < followers(exps, threshold, assigned, i, upto).len() ==> i < #[trigger] followers(
                exps,
                threshold,
                assigned,
                i,
                upto,
            )[p] < upto,
    decreases upto - i,
{
    if upto > i + 1 {
        lemma_followers_bounds(exps, threshold, assigned, i, upto - 1);
        let r = followers(exps, threshold, assigned, i, upto - 1);
        let f = followers(exps, threshold, assigned, i, upto);
        assert forall|p: int| 0 <= p < f.len() implies i < #[trigger] f[p] < upto by {
            if p < r.len() {
                assert(f[p] == r[p]);
            }
        }
    }
}

impl ConsolidationEngine {
    pub fn new(similarity_threshold: i64) -> (res: Self)
        ensures
            res.similarity_threshold == similarity_threshold,
    {
        ConsolidationEngine { similarity_threshold }
    }

    /// The greedy clustering of `experiences`.
    pub fn cluster(&self, experiences: &[Experience]) -> (res: Vec<Vec<usize>>)
        ensures
            index_views(res@) == clusters(experiences@, self.similarity_threshold as int),
    {
        let ghost exps = experiences@;
        let ghost t = self.similarity_threshold as int;
        let n = experiences.len();
        let mut assigned: Vec<bool> = Vec::new();
        for k in 0..n
            invariant
                assigned@ == Seq::new(k as nat, |q: int| false),
        {
            assigned.push(false);
            assert(assigned@ =~= Seq::new((k + 1) as nat, |q: int| false));
        }
        let mut res: Vec<Vec<usize>> = Vec::new();
        assert(clustering(exps, t, 0).1 =~= assigned@);
        for i in 0..n
            invariant
                n == exps.len(),
                exps == experiences@,
                t == self.similarity_threshold as int,
                (index_views(res@), assigned@) == clustering(exps, t, i as nat),
                assigned@.len() == n,
        {
            let ghost before = assigned@;
            let ghost done = index_views(res@);
            assert(clustering(exps, t, (i + 1) as nat) == (if before[i as int] {
                (done, before)
            } else {
                let m = seq![i as int] + followers(exps, t, before, i as int, n as int);
                (done.push(m), mark(before, m))
            }));
            if !assigned[i] {
                let mut members: Vec<usize> = vec![i];
                assigned.set(i, true);
                proof {
                    assert(members@.map_values(|k: usize| k as int) =~= seq![i as int]);
                    assert(followers(exps, t, before, i as int, i + 1) =~= seq![]);
                    assert(seq![i as int] + followers(exps, t, before, i as int, i + 1) =~= seq![i as int]);
                    assert forall|k: int| 0 <= k < n implies assigned@[k] == mark(before, seq![i as int])[k] by {
                        lemma_push_contains(seq![], i as int, k);
                        assert(seq![i as int] =~= Seq::<int>::empty().push(i as int));
                    }
                    assert(assigned@ =~= mark(before, seq![i as int]));
                }
                for j in (i + 1)..n
                    invariant
                        n == exps.len(),
                        exps == experiences@,
                        t == self.similarity_threshold as int,
                        i < n,
                        before.len() == n,
                        !before[i as int],
                        members@.map_values(|k: usize| k as int) == seq![i as int] + followers(
                            exps,
                            t,
                            before,
                            i as int,
                            j as int,
                        ),
                        assigned@ == mark(before, members@.map_values(|k: usize| k as int)),
                        forall|k: int| j <= k < n ==> assigned@[k] == before[k],
                {
                    let ghost mv = members@.map_values(|k: usize| k as int);
                    proof {
                        lemma_followers_bounds(exps, t, before, i as int, j as int);
                        assert(!mv.contains(j as int)) by {
                            if mv.contains(j as int) {
                                let p = choose|p: int| 0 <= p < mv.len() && mv[p] == j;
                                if p > 0 {
                                    assert(mv[p] == followers(exps, t, before, i as int, j as int)[p - 1]);
                                }
                            }
                        }
                    }
                    if !assigned[j] {
                        if experiences[i].similarity(&experiences[j]) >= self.similarity_threshold {
                            let ghost prev = assigned@;
                            members.push(j);
                            assigned.set(j, true);
                            assert(members@.map_values(|k: usize| k as int) =~= mv.push(j as int));
                            assert forall|k: int| 0 <= k < n implies assigned@[k] == mark(before, mv.push(j as int))[k] by {
                                lemma_push_contains(mv, j as int, k);
                                if k != j {
                                    assert(assigned@[k] == prev[k]);
                                } else {
                                    assert(mv.push(j as int)[mv.len() as int] == k);
                                }
                            }
                            assert(assigned@ =~= mark(before, mv.push(j as int)));
                        }
                    }
                }
                res.push(members);
                assert(index_views(res@) =~= done.push(members@.map_values(|k: usize| k as int)));
            }
        }
        res
    }

    /// The tile for one cluster (its identifier apart).
    fn cluster_tile(experiences: &[Experience], members: &Vec<usize>) -> (res: DreamTile)
        requires
            members@.len() > 0,
            forall|p: int| 0 <= p < members@.len() ==> members@[p] < experiences@.len(),
        ensures
            res.shape() == cluster_shape(experiences@, members@.map_values(|k: usize| k as int)),
            crate::experience::is_random_id(res.id@),
    {
        let ghost exps = experiences@;
        let ghost m = members@.map_values(|k: usize| k as int);
        let mut ids: Vec<String> = Vec::new();
        let mut contents: Vec<String> = Vec::new();
        let mut tags: Vec<Vec<char>> = Vec::new();
        for p in 0..members.len()
            invariant
                exps == experiences@,
                m == members@.map_values(|k: usize| k as int),
                forall|q: int| 0 <= q < members@.len() ==> members@[q] < experiences@.len(),
                strs(ids@) == m.take(p as int).map_values(|k: int| exps[k].id@),
                strs(contents@) == m.take(p as int).map_values(|k: int| exps[k].content@),
                views_of(tags@) == member_tags(exps, m.take(p as int)),
        {
            let e = &experiences[members[p]];
            assert(m[p as int] == members@[p as int] as int);
            assert(*e == exps[m[p as int]]);
            let ghost ids_before = strs(ids@);
            let ghost contents_before = strs(contents@);
            ids.push(e.id.clone());
            contents.push(e.content.clone());
            assert(strs(ids@) =~= ids_before.push(e.id@));
            assert(strs(contents@) =~= contents_before.push(e.content@));
            assert(m.take(p + 1).drop_last() == m.take(p as int));
            assert(strs(ids@) =~= m.take(p + 1).map_values(|k: int| exps[k].id@));
            assert(strs(contents@) =~= m.take(p + 1).map_values(|k: int| exps[k].content@));
            let ghost tags_before = views_of(tags@);
            for q in 0..e.tags.len()
                invariant
                    views_of(tags@) == tags_before + strs(e.tags@).take(q as int),
            {
                let ghost tv = views_of(tags@);
                tags.push(chars_of(e.tags[q].as_str()));
                assert(views_of(tags@) =~= tv.push(e.tags@[q as int]@));
                assert(strs(e.tags@).take(q + 1) =~= strs(e.tags@).take(q as int).push(e.tags@[q as int]@));
                assert(views_of(tags@) =~= tags_before + strs(e.tags@).take(q + 1));
            }
            assert(strs(e.tags@).take(e.tags.len() as int) == strs(e.tags@));
        }
        assert(m.take(members.len() as int) == m);
        let content = if members.len() == 1 {
            experiences[members[0]].content.clone()
        } else {
            let mut s = String::new();
            push_str(&mut s, "[");
            let sorted = sorted_distinct(&tags);
            let tag_str = join_words(&sorted, ", ");
            push_str(&mut s, tag_str.as_str());
            push_str(&mut s, "] ");
            let combined = join_strings(&contents, " | ");
            push_str(&mut s, combined.as_str());
            s
        };
        DreamTile::new(content, ids, 0, 1000, DreamType::Consolidation)
    }

    /// Clusters experiences by similarity and produces one tile per cluster.
    pub fn consolidate(&self, experiences: &[Experience]) -> (res: Vec<DreamTile>)
        ensures
            shapes(res@) == consolidation_shapes(experiences@, self.similarity_threshold as int),
            all_random_ids(res@),
    {
        let groups = self.cluster(experiences);
        let ghost cl = clusters(experiences@, self.similarity_threshold as int);
        proof {
            lemma_clusters_well_formed(experiences@, self.similarity_threshold as int);
        }
        let mut res: Vec<DreamTile> = Vec::new();
        for c in 0..groups.len()
            invariant
                index_views(groups@) == cl,
                cl == clusters(experiences@, self.similarity_threshold as int),
                forall|a: int, p: int|
                    0 <= a < cl.len() && 0 <= p < cl[a].len() ==> 0 <= #[trigger] cl[a][p] < experiences@.len(),
                forall|a: int| 0 <= a < cl.len() ==> #[trigger] cl[a].len() > 0,
                res@.len() == c,
                forall|a: int| 0 <= a < c ==> #[trigger] shapes(res@)[a] == cluster_shape(experiences@, cl[a]),
                all_random_ids(res@),
        {
            assert(index_views(groups@)[c as int] == cl[c as int]);
            assert(groups@[c as int]@.len() == cl[c as int].len());
            assert forall|p: int| 0 <= p < groups@[c as int]@.len() implies groups@[c as int]@[p] < experiences@.len() by {
                assert(cl[c as int][p] == groups@[c as int]@[p] as int);
            }
            let tile = Self::cluster_tile(experiences, &groups[c]);
            let ghost before = res@;
            res.push(tile);
            assert forall|a: int| 0 <= a < c + 1 implies #[trigger] shapes(res@)[a] == cluster_shape(experiences@, cl[a]) by {
                if a < c {
                    assert(res@[a] == before[a]);
                    assert(shapes(before)[a] == before[a].shape());
                }
            }
        }
        assert(shapes(res@) =~= consolidation_shapes(experiences@, self.similarity_threshold as int));
        res
    }
}

/// Every cluster is non-empty and holds indices of `exps`.
pub proof fn lemma_clusters_well_formed(exps: Seq<Experience>, threshold: int)
    ensures
        forall|a: int, p: int|
            0 <= a < clusters(exps, threshold).len() && 0 <= p < clusters(exps, threshold)[a].len()
                ==> 0 <= #[trigger] clusters(exps, threshold)[a][p] < exps.len(),
        forall|a: int|
            0 <= a < clusters(exps, threshold).len() ==> #[trigger] clusters(exps, threshold)[a].len()
                > 0,
{
    lemma_clustering_well_formed(exps, threshold, exps.len());
}

pub proof fn lemma_clustering_well_formed(exps: Seq<Experience>, threshold: int, i: nat)
    requires
        i <= exps.len(),
    ensures
        clustering(exps, threshold, i).1.len() == exps.len(),
        forall|a: int, p: int|
            0 <= a < clustering(exps, threshold, i).0.len() && 0 <= p < clustering(
                exps,
                threshold,
                i,
            ).0[a].len() ==> 0 <= #[trigger] clustering(exps, threshold, i).0[a][p] < exps.len(),
        forall|a: int|
            0 <= a < clustering(exps, threshold, i).0.len() ==> #[trigger] clustering(
                exps,
                threshold,
                i,
            ).0[a].len() > 0,
    decreases i,
{
    if i > 0 {
        lemma_clustering_well_formed(exps, threshold, (i - 1) as nat);
        let (done, assigned) = clustering(exps, threshold, (i - 1) as nat);
        let leader = i - 1;
        lemma_followers_bounds(exps, threshold, assigned, leader, exps.len() as int);
    }
}

} // verus!

verus! {

/// The clusters run together.
pub open spec fn flatten_clusters(cl: Seq<Seq<int>>) -> Seq<int>
    decreases cl.len(),
{
    if cl.len() == 0 {
        seq![]
    } else {
        flatten_clusters(cl.drop_last()) + cl.last()
    }
}

pub proof fn lemma_followers_shape(
    exps: Seq<Experience>,
    threshold: int,
    assigned: Seq<bool>,
    i: int,
    upto: int,
)
    ensures
        forall|p: int, q: int|
            0 <= p < q < followers(exps, threshold, assigned, i, upto).len() ==> #[trigger] followers(
                exps,
                threshold,
                assigned,
                i,
                upto,
            )[p] < #[trigger] followers(exps, threshold, assigned, i, upto)[q],
        forall|p: int|
            0 <= p < followers(exps, threshold, assigned, i, upto).len() ==> {
                let j = #[trigger] followers(exps, threshold, assigned, i, upto)[p];
                &&& i < j < upto
                &&& !assigned[j]
                &&& similar(exps, threshold, i, j)
            },
    decreases upto - i,
{
    if upto > i + 1 {
        lemma_followers_shape(exps, threshold, assigned, i, upto - 1);
        let r = followers(exps, threshold, assigned, i, upto - 1);
        let f = followers(exps, threshold, assigned, i, upto);
        lemma_followers_bounds(exps, threshold, assigned, i, upto - 1);
        assert forall|p: int, q: int| 0 <= p < q < f.len() implies #[trigger] f[p] < #[trigger] f[q] by {
            if q < r.len() {
                assert(f[p] == r[p] && f[q] == r[q]);
            } else {
                assert(f[p] == r[p]);
            }
        }
        assert forall|p: int| 0 <= p < f.len() implies {
            let j = #[trigger] f[p];
            &&& i < j < upto
            &&& !assigned[j]
            &&& similar(exps, threshold, i, j)
        } by {
            if p < r.len() {
                assert(f[p] == r[p]);
            }
        }
    }
}

/// What stays true while clustering: the indices so far assigned are exactly
/// those in the clusters, each at one place, and every leader considered is
/// assigned.
pub open spec fn clustering_invariant(exps: Seq<Experience>, threshold: int, i: nat) -> bool {
    let (cl, assigned) = clustering(exps, threshold, i);
    let flat = flatten_clusters(cl);
    &&& assigned.len() == exps.len()
    &&& flat.no_duplicates()
    &&& forall|p: int| 0 <= p < flat.len() ==> 0 <= #[trigger] flat[p] < exps.len()
    &&& forall|k: int| 0 <= k < exps.len() ==> (assigned[k] <==> flat.contains(k))
    &&& forall|k: int| 0 <= k < i ==> assigned[k]
    &&& flat.len() >= cl.len()
}

pub proof fn lemma_clustering_invariant(exps: Seq<Experience>, threshold: int, i: nat)
    requires
        i <= exps.len(),
    ensures
        clustering_invariant(exps, threshold, i),
    decreases i,
{
    let n = exps.len() as int;
    if i == 0 {
        assert(flatten_clusters(seq![]) =~= Seq::<int>::empty());
    } else {
        lemma_clustering_invariant(exps, threshold, (i - 1) as nat);
        let (cl, assigned) = clustering(exps, threshold, (i - 1) as nat);
        let flat = flatten_clusters(cl);
        let leader = i - 1;
        if !assigned[leader] {
            let f = followers(exps, threshold, assigned, leader, n);
            let m = seq![leader] + f;
            lemma_followers_shape(exps, threshold, assigned, leader, n);
            let cl2 = cl.push(m);
            assert(cl2.drop_last() == cl);
            let flat2 = flatten_clusters(cl2);
            assert(flat2 == flat + m);
            let a2 = mark(assigned, m);
            // m lists distinct unassigned indices
            assert forall|p: int| 0 <= p < m.len() implies 0 <= #[trigger] m[p] < n && !assigned[m[p]] by {
                if p > 0 {
                    assert(m[p] == f[p - 1]);
                }
            }
            assert forall|p: int, q: int| 0 <= p < flat2.len() && 0 <= q < flat2.len() && p != q implies flat2[p] != flat2[q] by {
                if p < flat.len() && q < flat.len() {
                } else if p >= flat.len() && q >= flat.len() {
                    let a = p - flat.len();
                    let b = q - flat.len();
                    if a > 0 && b > 0 {
                        assert(m[a] == f[a - 1] && m[b] == f[b - 1]);
                        if a < b {
                            assert(f[a - 1] < f[b - 1]);
                        } else {
                            assert(f[b - 1] < f[a - 1]);
                        }
                    } else if a == 0 {
                        assert(m[b] == f[b - 1]);
                    } else {
                        assert(m[a] == f[a - 1]);
                    }
                } else if p < flat.len() {
                    let b = q - flat.len();
                    assert(flat2[q] == m[b]);
                    assert(!assigned[m[b]]);
                    assert(flat.contains(flat[p]));
                } else {
                    let a = p - flat.len();
                    assert(flat2[p] == m[a]);
                    assert(!assigned[m[a]]);
                    assert(flat.contains(flat[q]));
                }
            }
            assert forall|k: int| 0 <= k < n implies (a2[k] <==> flat2.contains(k)) by {
                if flat2.contains(k) {
                    let p = choose|p: int| 0 <= p < flat2.len() && flat2[p] == k;
                    if p < flat.len() {
                        assert(flat.contains(k));
                    } else {
                        assert(m[p - flat.len()] == k);
                        assert(m.contains(k));
                    }
                }
                if a2[k] {
                    if assigned[k] {
                        let p = choose|p: int| 0 <= p < flat.len() && flat[p] == k;
                        assert(flat2[p] == k);
                    } else {
                        let p = choose|p: int| 0 <= p < m.len() && m[p] == k;
                        assert(flat2[flat.len() + p] == k);
                    }
                }
            }
            assert(m[0] == leader);
            assert(m.contains(leader));
            assert forall|p: int| 0 <= p < flat2.len() implies 0 <= #[trigger] flat2[p] < n by {
                if p >= flat.len() {
                    assert(flat2[p] == m[p - flat.len()]);
                }
            }
        }
    }
}

/// Every experience lands in exactly one cluster: run together, the clusters
/// list each index of `exps` once, and nothing else; so there are at most as many
/// clusters (tiles) as experiences.
pub proof fn lemma_clusters_partition(exps: Seq<Experience>, threshold: int)
    ensures
        flatten_clusters(clusters(exps, threshold)).no_duplicates(),
        forall|k: int| 0 <= k < exps.len() ==> flatten_clusters(clusters(exps, threshold)).contains(k),
        forall|p: int|
            0 <= p < flatten_clusters(clusters(exps, threshold)).len() ==> 0 <= #[trigger] flatten_clusters(
                clusters(exps, threshold),
            )[p] < exps.len(),
        flatten_clusters(clusters(exps, threshold)).len() == exps.len(),
        clusters(exps, threshold).len() <= exps.len(),
        exps.len() > 0 ==> clusters(exps, threshold).len() > 0,
{
    lemma_clustering_invariant(exps, threshold, exps.len());
    let flat = flatten_clusters(clusters(exps, threshold));
    let r = Seq::new(exps.len(), |k: int| k);
    assert(flat.to_set() =~= r.to_set()) by {
        assert forall|k: int| flat.to_set().contains(k) <==> r.to_set().contains(k) by {
            if flat.contains(k) {
                let p = choose|p: int| 0 <= p < flat.len() && flat[p] == k;
                assert(r[k] == k);
            }
            if r.contains(k) {
                let p = choose|p: int| 0 <= p < r.len() && r[p] == k;
            }
        }
    }
    flat.unique_seq_to_set();
    assert(r.no_duplicates());
    r.unique_seq_to_set();
    if exps.len() > 0 {
        assert(flat.contains(0));
        if clusters(exps, threshold).len() == 0 {
            assert(flat =~= Seq::<int>::empty());
        }
    }
}

/// Each cluster starts with its leader, and every later member comes after the
/// leader in the input and is similar enough to it.
pub proof fn lemma_cluster_members_similar(exps: Seq<Experience>, threshold: int, c: int, p: int)
    requires
        0 <= c < clusters(exps, threshold).len(),
        0 < p < clusters(exps, threshold)[c].len(),
    ensures
        clusters(exps, threshold)[c][0] < clusters(exps, threshold)[c][p],
        similar(exps, threshold, clusters(exps, threshold)[c][0], clusters(exps, threshold)[c][p]),
{
    lemma_cluster_members_upto(exps, threshold, exps.len(), c, p);
}

pub proof fn lemma_cluster_members_upto(exps: Seq<Experience>, threshold: int, i: nat, c: int, p: int)
    requires
        0 <= c < clustering(exps, threshold, i).0.len(),
        0 < p < clustering(exps, threshold, i).0[c].len(),
    ensures
        clustering(exps, threshold, i).0[c][0] < clustering(exps, threshold, i).0[c][p],
        similar(
            exps,
            threshold,
            clustering(exps, threshold, i).0[c][0],
            clustering(exps, threshold, i).0[c][p],
        ),
    decreases i,
{
    if i > 0 {
        let (cl, assigned) = clustering(exps, threshold, (i - 1) as nat);
        let leader = i - 1;
        if !assigned[leader] && c == cl.len() {
            let f = followers(exps, threshold, assigned, leader, exps.len() as int);
            lemma_followers_shape(exps, threshold, assigned, leader, exps.len() as int);
            let m = seq![leader] + f;
            assert(m[p] == f[p - 1]);
        } else {
            lemma_cluster_members_upto(exps, threshold, (i - 1) as nat, c, p);
        }
    }
}

} // verus!

verus! {

pub proof fn lemma_followers_all(exps: Seq<Experience>, threshold: int, assigned: Seq<bool>, upto: int)
    requires
        1 <= upto <= exps.len(),
        assigned.len() == exps.len(),
        forall|j: int| 0 < j < exps.len() ==> !assigned[j] && similar(exps, threshold, 0, j),
    ensures
        followers(exps, threshold, assigned, 0, upto) == Seq::new((upto - 1) as nat, |k: int| k + 1),
    decreases upto,
{
    if upto > 1 {
        lemma_followers_all(exps, threshold, assigned, upto - 1);
        assert(!assigned[upto - 1] && similar(exps, threshold, 0, upto - 1));
        assert(followers(exps, threshold, assigned, 0, upto) == followers(exps, threshold, assigned, 0, upto - 1).push(upto - 1));
        assert(followers(exps, threshold, assigned, 0, upto) =~= Seq::new((upto - 1) as nat, |k: int| k + 1));
    } else {
        assert(followers(exps, threshold, assigned, 0, upto) =~= Seq::new((upto - 1) as nat, |k: int| k + 1));
    }
}

/// When every experience is similar enough to the first, consolidation makes a
/// single tile out of all of them.
pub proof fn lemma_all_similar_one_cluster(exps: Seq<Experience>, threshold: int)
    requires
        exps.len() > 0,
        forall|j: int| 0 < j < exps.len() ==> similar(exps, threshold, 0, j),
    ensures
        clusters(exps, threshold) == seq![Seq::new(exps.len(), |k: int| k)],
        consolidation_shapes(exps, threshold).len() == 1,
{
    let n = exps.len();
    let none = Seq::new(n, |k: int| false);
    assert(clustering(exps, threshold, 0) == (Seq::<Seq<int>>::empty(), none));
    lemma_followers_all(exps, threshold, none, n as int);
    let all = Seq::new(n, |k: int| k);
    let m = seq![0int] + followers(exps, threshold, none, 0, n as int);
    assert(m =~= all);
    let marked = mark(none, m);
    assert forall|k: int| 0 <= k < n implies marked[k] by {
        assert(m[k] == k);
    }
    lemma_one_cluster_stays(exps, threshold, n, all, marked);
}

proof fn lemma_one_cluster_stays(
    exps: Seq<Experience>,
    threshold: int,
    i: nat,
    all: Seq<int>,
    marked: Seq<bool>,
)
    requires
        1 <= i <= exps.len(),
        clustering(exps, threshold, 1) == (seq![all], marked),
        forall|k: int| 0 <= k < exps.len() ==> marked[k],
    ensures
        clustering(exps, threshold, i) == (seq![all], marked),
    decreases i,
{
    if i > 1 {
        lemma_one_cluster_stays(exps, threshold, (i - 1) as nat, all, marked);
    }
}

} // verus!

verus! {

pub proof fn lemma_flatten_member(cl: Seq<Seq<int>>, k: int)
    requires
        flatten_clusters(cl).contains(k),
    ensures
        exists|c: int, p: int| 0 <= c < cl.len() && 0 <= p < cl[c].len() && #[trigger] cl[c][p] == k,
    decreases cl.len(),
{
    let init = cl.drop_last();
    let flat = flatten_clusters(cl);
    assert(flat == flatten_clusters(init) + cl.last());
    let q = choose|q: int| 0 <= q < flat.len() && flat[q] == k;
    if q < flatten_clusters(init).len() {
        assert(flatten_clusters(init)[q] == k);
        lemma_flatten_member(init, k);
        let (c, p) = choose|c: int, p: int| 0 <= c < init.len() && 0 <= p < init[c].len() && #[trigger] init[c][p] == k;
        assert(cl[c] == init[c]);
    } else {
        let p = q - flatten_clusters(init).len();
        assert(cl[cl.len() - 1][p] == k);
    }
}

/// Consolidation keeps every experience: each one's id is among the sources of
/// some tile.
pub proof fn lemma_consolidation_keeps_sources(exps: Seq<Experience>, threshold: int, k: int)
    requires
        0 <= k < exps.len(),
    ensures
        exists|c: int|
            0 <= c < consolidation_shapes(exps, threshold).len() && (#[trigger] consolidation_shapes(
                exps,
                threshold,
            )[c]).sources.contains(exps[k].id@),
{
    lemma_clusters_partition(exps, threshold);
    let cl = clusters(exps, threshold);
    lemma_flatten_member(cl, k);
    let (c, p) = choose|c: int, p: int| 0 <= c < cl.len() && 0 <= p < cl[c].len() && #[trigger] cl[c][p] == k;
    let s = consolidation_shapes(exps, threshold)[c];
    assert(s == cluster_shape(exps, cl[c]));
    assert(s.sources[p] == exps[k].id@);
}

} // verus!

verus! {

/// The experiences that join the seed `i` (looking at those before `upto`) are
/// exactly the later ones not yet assigned that are similar enough to `i`.
pub proof fn lemma_followers_members(
    exps: Seq<Experience>,
    threshold: int,
    assigned: Seq<bool>,
    i: int,
    upto: int,
    j: int,
)
    requires
        i < j < upto,
    ensures
        followers(exps, threshold, assigned, i, upto).contains(j) <==> (!assigned[j] && similar(
            exps,
            threshold,
            i,
            j,
        )),
    decreases upto - i,
{
    let f = followers(exps, threshold, assigned, i, upto);
    lemma_followers_shape(exps, threshold, assigned, i, upto);
    if j < upto - 1 {
        lemma_followers_members(exps, threshold, assigned, i, upto - 1, j);
        let r = followers(exps, threshold, assigned, i, upto - 1);
        lemma_push_contains(r, upto - 1, j);
    } else {
        let r = followers(exps, threshold, assigned, i, upto - 1);
        lemma_followers_shape(exps, threshold, assigned, i, upto - 1);
        lemma_push_contains(r, upto - 1, j);
        if r.contains(j) {
            let p = choose|p: int| 0 <= p < r.len() && r[p] == j;
            assert(r[p] < upto - 1);
        }
    }
}

/// Cluster `k` is as the greedy rule makes it: its first member (the seed) is
/// the least experience not in an earlier cluster; an experience after the seed
/// and not in an earlier cluster belongs to it exactly when it is similar enough
/// to the seed; its members are in increasing order.
pub open spec fn greedy_cluster(exps: Seq<Experience>, threshold: int, cl: Seq<Seq<int>>, k: int) -> bool {
    let earlier = flatten_clusters(cl.take(k));
    let c = cl[k];
    let seed = c[0];
    &&& c.len() > 0
    &&& 0 <= seed < exps.len()
    &&& !earlier.contains(seed)
    &&& forall|x: int| 0 <= x < seed ==> earlier.contains(x)
    &&& forall|j: int|
        seed < j < exps.len() && !earlier.contains(j) ==> (c.contains(j) <==> similarity_of(exps[seed], exps[j])
            >= threshold)
    &&& forall|p: int, q: int| 0 <= p < q < c.len() ==> c[p] < c[q]
}

proof fn lemma_greedy_upto(exps: Seq<Experience>, threshold: int, i: nat)
    requires
        i <= exps.len(),
    ensures
        forall|k: int|
            0 <= k < clustering(exps, threshold, i).0.len() ==> greedy_cluster(
                exps,
                threshold,
                clustering(exps, threshold, i).0,
                k,
            ),
    decreases i,
{
    if i > 0 {
        lemma_greedy_upto(exps, threshold, (i - 1) as nat);
        lemma_clustering_invariant(exps, threshold, (i - 1) as nat);
        let (cl, assigned) = clustering(exps, threshold, (i - 1) as nat);
        let leader = i - 1;
        if !assigned[leader] {
            let n = exps.len() as int;
            let f = followers(exps, threshold, assigned, leader, n);
            let m = seq![leader] + f;
            let cl2 = cl.push(m);
            lemma_followers_shape(exps, threshold, assigned, leader, n);
            assert forall|k: int| 0 <= k < cl2.len() implies greedy_cluster(exps, threshold, cl2, k) by {
                if k < cl.len() {
                    assert(cl2.take(k) == cl.take(k));
                    assert(cl2[k] == cl[k]);
                    assert(greedy_cluster(exps, threshold, cl, k));
                } else {
                    assert(cl2.take(k) == cl);
                    let earlier = flatten_clusters(cl);
                    assert(m[0] == leader);
                    assert forall|j: int| leader < j < n && !earlier.contains(j) implies (m.contains(j) <==> similar(exps, threshold, leader, j)) by {
                        lemma_followers_members(exps, threshold, assigned, leader, n, j);
                        assert(!assigned[j]);
                        if m.contains(j) {
                            let p = choose|p: int| 0 <= p < m.len() && m[p] == j;
                            assert(p > 0);
                            assert(f[p - 1] == j);
                        }
                        if f.contains(j) {
                            let p = choose|p: int| 0 <= p < f.len() && f[p] == j;
                            assert(m[p + 1] == j);
                        }
                    }
                    assert forall|p: int, q: int| 0 <= p < q < m.len() implies m[p] < m[q] by {
                        if p == 0 {
                            assert(m[q] == f[q - 1]);
                        } else {
                            assert(m[p] == f[p - 1] && m[q] == f[q - 1]);
                        }
                    }
                }
            }
        }
    }
}

/// The clusters are those of the greedy rule, each one (see `greedy_cluster`).
pub proof fn lemma_clusters_greedy(exps: Seq<Experience>, threshold: int, k: int)
    requires
        0 <= k < clusters(exps, threshold).len(),
    ensures
        greedy_cluster(exps, threshold, clusters(exps, threshold), k),
{
    lemma_greedy_upto(exps, threshold, exps.len());
}

/// A tag occurs in the member tags exactly when some member has it.
pub proof fn lemma_member_tags_contains(exps: Seq<Experience>, members: Seq<int>, x: Seq<char>)
    ensures
        member_tags(exps, members).contains(x) <==> exists|p: int, i: int|
            0 <= p < members.len() && 0 <= i < exps[members[p]].tags@.len() && x
                == #[trigger] exps[members[p]].tags@[i]@,
    decreases members.len(),
{
    if members.len() > 0 {
        let init = members.drop_last();
        let last = members.last();
        lemma_member_tags_contains(exps, init, x);
        let mt = member_tags(exps, init);
        let lt = strs(exps[last].tags@);
        if (mt + lt).contains(x) {
            let w = choose|w: int| 0 <= w < (mt + lt).len() && (mt + lt)[w] == x;
            if w < mt.len() {
                assert(mt.contains(x)) by { assert(mt[w] == x); }
                let (p, i) = choose|p: int, i: int|
                    0 <= p < init.len() && 0 <= i < exps[init[p]].tags@.len() && x == #[trigger] exps[init[p]].tags@[i]@;
                assert(members[p] == init[p]);
                assert(x == exps[members[p]].tags@[i]@);
            } else {
                let i = w - mt.len();
                assert(members[members.len() - 1] == last);
                assert(x == exps[members[members.len() - 1]].tags@[i]@);
            }
        }
        if exists|p: int, i: int|
            0 <= p < members.len() && 0 <= i < exps[members[p]].tags@.len() && x == #[trigger] exps[members[p]].tags@[i]@ {
            let (p, i) = choose|p: int, i: int|
                0 <= p < members.len() && 0 <= i < exps[members[p]].tags@.len() && x == #[trigger] exps[members[p]].tags@[i]@;
            if p < init.len() {
                assert(init[p] == members[p]);
                assert(x == exps[init[p]].tags@[i]@);
                assert(mt.contains(x));
                let w = choose|w: int| 0 <= w < mt.len() && mt[w] == x;
                assert((mt + lt)[w] == x);
            } else {
                assert(members[p] == last);
                assert(lt[i] == x);
                assert((mt + lt)[mt.len() + i] == x);
            }
        }
    }
}

/// What a consolidated tile holds, cluster by cluster: its sources are the ids
/// of the cluster's members, in member order; a lone member's tile holds that
/// member's content; otherwise the content is a bracketed, comma-separated,
/// strictly increasing list of exactly the members' tags, a space, and the
/// members' own contents, in member order, joined by " | " (so the `p`-th part
/// is the content of the experience whose id is the `p`-th source).
pub proof fn lemma_consolidated_content(exps: Seq<Experience>, threshold: int, k: int)
    requires
        0 <= k < clusters(exps, threshold).len(),
    ensures
        ({
            let c = clusters(exps, threshold)[k];
            let tile = consolidation_shapes(exps, threshold)[k];
            &&& tile.sources.len() == c.len()
            &&& forall|p: int| 0 <= p < c.len() ==> #[trigger] tile.sources[p] == exps[c[p]].id@
            &&& tile.novelty == 0 && tile.confidence == 1000 && tile.dream_type == DreamType::Consolidation
            &&& c.len() == 1 ==> tile.content == exps[c[0]].content@
            &&& c.len() >= 2 ==> exists|tags: Seq<Seq<char>>|
                {
                    &&& strictly_sorted(tags)
                    &&& forall|x: Seq<char>|
                        #[trigger] tags.contains(x) <==> exists|p: int, i: int|
                            0 <= p < c.len() && 0 <= i < exps[c[p]].tags@.len() && x
                                == #[trigger] exps[c[p]].tags@[i]@
                    &&& tile.content == "["@ + join(tags, ", "@) + "] "@ + join(
                        Seq::new(c.len(), |p: int| exps[c[p]].content@),
                        " | "@,
                    )
                }
        }),
{
    let c = clusters(exps, threshold)[k];
    let tile = consolidation_shapes(exps, threshold)[k];
    assert(tile == cluster_shape(exps, c));
    if c.len() >= 2 {
        let tags = sorted_set(member_tags(exps, c));
        crate::text::lemma_sorted_set_properties(member_tags(exps, c));
        assert forall|x: Seq<char>| #[trigger] tags.contains(x) <==> exists|p: int, i: int|
            0 <= p < c.len() && 0 <= i < exps[c[p]].tags@.len() && x == #[trigger] exps[c[p]].tags@[i]@ by {
            lemma_member_tags_contains(exps, c, x);
        }
        assert(c.map_values(|m: int| exps[m].content@) =~= Seq::new(c.len(), |p: int| exps[c[p]].content@));
    }
}

} // verus!
