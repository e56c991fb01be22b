use vstd::prelude::*;
use vstd::string::StringExecFns;

use crate::consolidation::{consolidation_shapes, ConsolidationEngine};
use crate::experience::{similarity_of, Experience};
use crate::generation::{generation_shapes, pair_first, pair_second, valid_draws, GenerationEngine};
use crate::nightmare::{nightmare_shapes, NightmareEngine};
use crate::replay::{replay_shapes, ReplayEngine};
use crate::text::strs;
use crate::tile::{all_random_ids, duplicate_tiles, same_tiles, shapes, DreamTile, TileShape};

verus! {

/// The kind of dream cycle being executed.
#[derive(Debug, Clone, Copy, PartialEq, Eq, Structural, Hash)]
pub enum DreamType {
    Consolidation,
    Replay,
    Generation,
    Nightmare,
    Lucid,
    Prophetic,
}

/// The name of each dream type: the variant's own name.
pub open spec fn dream_name(t: DreamType) -> Seq<char> {
    match t {
        DreamType::Consolidation => "Consolidation"@,
        DreamType::Replay => "Replay"@,
        DreamType::Generation => "Generation"@,
        DreamType::Nightmare => "Nightmare"@,
        DreamType::Lucid => "Lucid"@,
        DreamType::Prophetic => "Prophetic"@,
    }
}

impl DreamType {
    pub fn name(&self) -> (res: &'static str)
        ensures
            res@ == dream_name(*self),
    {
        match self {
            DreamType::Consolidation => "Consolidation",
            DreamType::Replay => "Replay",
            DreamType::Generation => "Generation",
            DreamType::Nightmare => "Nightmare",
            DreamType::Lucid => "Lucid",
            DreamType::Prophetic => "Prophetic",
        }
    }
}

/// The current time in milliseconds since the Unix epoch.
/// Wraps `std::time::SystemTime::now` (read against `UNIX_EPOCH`, 0 for a clock
/// before the epoch); the clock's value is not stated.
#[verifier::external_body]
pub(crate) fn now_ms() -> u64 {
    std::time::SystemTime::now().duration_since(std::time::UNIX_EPOCH).unwrap_or_default().as_millis() as u64
}

/// A ratio in thousandths, or an unbounded one.
#[derive(Debug, Clone, Copy, PartialEq, Eq, Structural)]
pub enum Ratio {
    Finite(u128),
    Infinite,
}

/// A complete dream session. `energy_used` is in thousandths.
#[derive(Debug, Clone)]
pub struct DreamCycle {
    pub agent_id: String,
    pub dream_type: DreamType,
    pub experiences: Vec<Experience>,
    pub consolidated: Vec<DreamTile>,
    pub start_time: u64,
    pub end_time: u64,
    pub energy_used: u128,
}

/// The same shapes with another dream type.
pub open spec fn relabeled(s: Seq<TileShape>, dt: DreamType) -> Seq<TileShape> {
    s.map_values(|t: TileShape| TileShape { dream_type: dt, ..t })
}

/// What a cycle of each type produces from `exps`, its identifiers apart:
/// consolidation at similarity 0.3; replay of the top 10; generation at
/// creativity 0.5; nightmares at intensity 1; lucid dreams as generation at
/// creativity 0.8 relabelled lucid; prophetic dreams as consolidation at 0.4
/// followed by generation at 0.6. The generating kinds pair and blend at random,
/// so for them the tiles are those of some valid draw.
pub open spec fn dream_result(dt: DreamType, exps: Seq<Experience>, tiles: Seq<DreamTile>) -> bool {
    let s = shapes(tiles);
    match dt {
        DreamType::Consolidation => s == consolidation_shapes(exps, 300),
        DreamType::Replay => s == replay_shapes(exps, 10),
        DreamType::Generation => exists|o: Seq<int>, b: Seq<int>|
            valid_draws(exps, o, b) && s == #[trigger] generation_shapes(exps, 500, o, b),
        DreamType::Nightmare => s == nightmare_shapes(1000, exps),
        DreamType::Lucid => exists|o: Seq<int>, b: Seq<int>|
            valid_draws(exps, o, b) && s == relabeled(#[trigger] generation_shapes(exps, 800, o, b), DreamType::Lucid),
        DreamType::Prophetic => exists|o: Seq<int>, b: Seq<int>|
            valid_draws(exps, o, b) && s == consolidation_shapes(exps, 400) + #[trigger] generation_shapes(exps, 600, o, b),
    }
}

/// Energy of a cycle in thousandths: 0.1 per experience (at least one) plus
/// 0.05 per tile.
pub open spec fn cycle_energy(experiences: nat, tiles: nat) -> nat {
    100 * (if experiences > 1 { experiences } else { 1 }) + 50 * tiles
}

/// The compression ratio of a cycle: experiences per tile, in thousandths
/// (rounded down); 1 when there was nothing to compress, unbounded when
/// experiences produced no tile.
pub open spec fn compression_of(experiences: nat, tiles: nat) -> Ratio {
    if tiles == 0 {
        if experiences == 0 {
            Ratio::Finite(1000)
        } else {
            Ratio::Infinite
        }
    } else {
        Ratio::Finite(((1000 * experiences) / tiles) as u128)
    }
}

impl DreamCycle {
    pub fn new(agent_id: &str, dream_type: DreamType, experiences: Vec<Experience>) -> (res: Self)
        ensures
            res.agent_id@ == agent_id@,
            res.dream_type == dream_type,
            res.experiences == experiences,
            res.consolidated@.len() == 0,
            res.start_time == 0,
            res.end_time == 0,
            res.energy_used == 0,
    {
        DreamCycle {
            agent_id: String::from_str(agent_id),
            dream_type,
            experiences,
            consolidated: Vec::new(),
            start_time: 0,
            end_time: 0,
            energy_used: 0,
        }
    }

    fn relabel(tiles: Vec<DreamTile>, dt: DreamType) -> (res: Vec<DreamTile>)
        ensures
            shapes(res@) == relabeled(shapes(tiles@), dt),
            all_random_ids(tiles@) ==> all_random_ids(res@),
    {
        let mut res: Vec<DreamTile> = Vec::new();
        for i in 0..tiles.len()
            invariant
                res@.len() == i,
                forall|k: int| 0 <= k < i ==> (#[trigger] res@[k]).id@ == tiles@[k].id@
                    && res@[k].shape() == (TileShape { dream_type: dt, ..tiles@[k].shape() }),
        {
            let mut t = tiles[i].duplicate();
            t.dream_type = dt;
            res.push(t);
        }
        assert(shapes(res@) =~= relabeled(shapes(tiles@), dt));
        proof {
            if all_random_ids(tiles@) {
                assert forall|k: int| 0 <= k < res@.len() implies crate::experience::is_random_id(#[trigger] res@[k].id@) by {
                    assert(crate::experience::is_random_id(tiles@[k].id@));
                }
            }
        }
        res
    }

    /// The tiles that a cycle of this type produces (see `dream_result`).
    fn dream(&self) -> (res: Vec<DreamTile>)
        ensures
            dream_result(self.dream_type, self.experiences@, res@),
            all_random_ids(res@),
    {
        let exps = self.experiences.as_slice();
        match self.dream_type {
            DreamType::Consolidation => ConsolidationEngine::new(300).consolidate(exps),
            DreamType::Replay => ReplayEngine::new(10).replay(exps, 10),
            DreamType::Generation => GenerationEngine::new(500).generate(exps),
            DreamType::Nightmare => NightmareEngine::new(1000).process(exps),
            DreamType::Lucid => {
                // Lucid dreams use generation with higher creativity
                let tiles = GenerationEngine::new(800).generate(exps);
                Self::relabel(tiles, DreamType::Lucid)
            },
            DreamType::Prophetic => {
                // Prophetic dreams use consolidation + generation hybrid
                let mut tiles = ConsolidationEngine::new(400).consolidate(exps);
                let mut generated = GenerationEngine::new(600).generate(exps);
                let ghost a = tiles@;
                let ghost b = generated@;
                tiles.append(&mut generated);
                assert(tiles@ == a + b);
                assert(shapes(tiles@) =~= shapes(a) + shapes(b));
                assert forall|k: int| 0 <= k < tiles@.len() implies crate::experience::is_random_id(#[trigger] tiles@[k].id@) by {
                    if k < a.len() {
                        assert(tiles@[k] == a[k]);
                    } else {
                        assert(tiles@[k] == b[k - a.len()]);
                    }
                }
                tiles
            },
        }
    }

    /// Executes the dream cycle using the appropriate engine, records its tiles
    /// and the energy it used, and returns the tiles.
    pub fn run(&mut self) -> (res: Vec<DreamTile>)
        ensures
            final(self).agent_id == old(self).agent_id,
            final(self).dream_type == old(self).dream_type,
            final(self).experiences == old(self).experiences,
            dream_result(old(self).dream_type, old(self).experiences@, res@),
            all_random_ids(res@),
            same_tiles(final(self).consolidated@, res@),
            final(self).energy_used == cycle_energy(old(self).experiences@.len(), res@.len()),
    {
        self.start_time = now_ms();
        let tiles = self.dream();
        let n = self.experiences.len() as u128;
        let m = if n > 1 { n } else { 1 };
        self.energy_used = 100 * m + 50 * (tiles.len() as u128);
        self.end_time = now_ms();
        self.consolidated = duplicate_tiles(&tiles);
        tiles
    }

    /// How long the last run took, in milliseconds (0 if the clock went back).
    pub fn duration_ms(&self) -> (res: u64)
        ensures
            res == if self.end_time >= self.start_time { self.end_time - self.start_time } else { 0 },
    {
        self.end_time.saturating_sub(self.start_time)
    }

    /// Experiences compressed into tiles: experiences per tile.
    pub fn compression_ratio(&self) -> (res: Ratio)
        ensures
            res == compression_of(self.experiences@.len(), self.consolidated@.len()),
    {
        if self.consolidated.len() == 0 {
            if self.experiences.len() == 0 {
                Ratio::Finite(1000)
            } else {
                Ratio::Infinite
            }
        } else {
            Ratio::Finite((1000 * (self.experiences.len() as u128)) / (self.consolidated.len() as u128))
        }
    }

    /// Tiles produced per unit of energy, in thousandths (rounded down); 0 when no
    /// energy was used.
    pub fn energy_efficiency(&self) -> (res: u128)
        ensures
            res == if self.energy_used == 0 { 0 } else { (1_000_000 * self.consolidated@.len()) as int / self.energy_used as int },
    {
        if self.energy_used == 0 {
            0
        } else {
            (1_000_000 * (self.consolidated.len() as u128)) / self.energy_used
        }
    }
}

} // verus!

verus! {

/// Each dream type has its own name.
pub proof fn lemma_names_distinct(a: DreamType, b: DreamType)
    requires
        a != b,
    ensures
        dream_name(a) != dream_name(b),
{
    reveal_strlit("Consolidation");
    reveal_strlit("Replay");
    reveal_strlit("Generation");
    reveal_strlit("Nightmare");
    reveal_strlit("Lucid");
    reveal_strlit("Prophetic");
    if dream_name(a) == dream_name(b) {
        assert(dream_name(a).len() == dream_name(b).len());
        assert(dream_name(a)[0] == dream_name(b)[0]);
    }
}

/// With no experiences, no cycle of any type produces a tile.
pub proof fn lemma_no_experiences_no_tiles(dt: DreamType, tiles: Seq<DreamTile>)
    requires
        dream_result(dt, seq![], tiles),
    ensures
        tiles.len() == 0,
{
    let exps = Seq::<Experience>::empty();
    assert(shapes(tiles).len() == tiles.len());
    crate::consolidation::lemma_clusters_partition(exps, 300);
    crate::consolidation::lemma_clusters_partition(exps, 400);
    match dt {
        DreamType::Generation => {
            let (o, b) = choose|o: Seq<int>, b: Seq<int>|
                valid_draws(exps, o, b) && shapes(tiles) == #[trigger] generation_shapes(exps, 500, o, b);
        },
        DreamType::Lucid => {
            let (o, b) = choose|o: Seq<int>, b: Seq<int>|
                valid_draws(exps, o, b) && shapes(tiles) == relabeled(#[trigger] generation_shapes(exps, 800, o, b), DreamType::Lucid);
        },
        DreamType::Prophetic => {
            let (o, b) = choose|o: Seq<int>, b: Seq<int>|
                valid_draws(exps, o, b) && shapes(tiles) == consolidation_shapes(exps, 400) + #[trigger] generation_shapes(exps, 600, o, b);
        },
        _ => {},
    }
}

/// Every tile of a lucid dream is labelled lucid.
pub proof fn lemma_lucid_tiles(exps: Seq<Experience>, tiles: Seq<DreamTile>)
    requires
        dream_result(DreamType::Lucid, exps, tiles),
    ensures
        forall|k: int| 0 <= k < tiles.len() ==> (#[trigger] tiles[k]).dream_type == DreamType::Lucid,
{
    let (o, b) = choose|o: Seq<int>, b: Seq<int>|
        valid_draws(exps, o, b) && shapes(tiles) == relabeled(#[trigger] generation_shapes(exps, 800, o, b), DreamType::Lucid);
    let g = generation_shapes(exps, 800, o, b);
    assert forall|k: int| 0 <= k < tiles.len() implies (#[trigger] tiles[k]).dream_type == DreamType::Lucid by {
        assert(shapes(tiles)[k] == tiles[k].shape());
        assert(shapes(tiles).len() == tiles.len());
        assert(relabeled(g, DreamType::Lucid)[k].dream_type == DreamType::Lucid);
    }
}

/// A consolidation cycle over some experiences compresses: at least one
/// experience per tile, and at least one tile.
pub proof fn lemma_consolidation_compresses(exps: Seq<Experience>, tiles: Seq<DreamTile>)
    requires
        dream_result(DreamType::Consolidation, exps, tiles),
        0 < exps.len() <= usize::MAX,
    ensures
        0 < tiles.len() <= exps.len(),
        compression_of(exps.len(), tiles.len()) matches Ratio::Finite(r) && r >= 1000,
{
    crate::consolidation::lemma_clusters_partition(exps, 300);
    assert(shapes(tiles).len() == tiles.len());
    let n = exps.len();
    let t = tiles.len();
    assert((1000 * n) / t >= 1000 && (1000 * n) / t <= 1000 * n) by (nonlinear_arith)
        requires 0 < t <= n;
}

/// A cycle always costs energy: at least 0.1.
pub proof fn lemma_energy_positive(experiences: nat, tiles: nat)
    ensures
        cycle_energy(experiences, tiles) >= 100,
{
}

/// A prophetic cycle is a hybrid: first one consolidation tile per cluster at
/// similarity 0.4, then only generated tiles, each blended from two experiences,
/// those of generation at creativity 0.6 on some draw. So when every two
/// experiences are less than 0.88 similar, each pair of the draw adds a tile
/// after the consolidation tiles.
pub proof fn lemma_prophetic_hybrid(exps: Seq<Experience>, tiles: Seq<DreamTile>)
    requires
        dream_result(DreamType::Prophetic, exps, tiles),
    ensures
        ({
            let cons = consolidation_shapes(exps, 400);
            &&& cons.len() <= tiles.len()
            &&& shapes(tiles).take(cons.len() as int) == cons
            &&& forall|k: int|
                cons.len() <= k < tiles.len() ==> (#[trigger] tiles[k]).dream_type == DreamType::Generation
                    && tiles[k].source_experiences.len() == 2
            &&& (forall|i: int, j: int|
                0 <= i < exps.len() && 0 <= j < exps.len() && i != j ==> #[trigger] similarity_of(exps[i], exps[j])
                    < 880) ==> tiles.len() == cons.len() + exps.len() / 2
        }),
{
    let cons = consolidation_shapes(exps, 400);
    let (o, b) = choose|o: Seq<int>, b: Seq<int>|
        valid_draws(exps, o, b) && shapes(tiles) == consolidation_shapes(exps, 400) + #[trigger] generation_shapes(exps, 600, o, b);
    let g = generation_shapes(exps, 600, o, b);
    let kk = (o.len() / 2) as nat;
    assert(shapes(tiles).len() == tiles.len());
    assert(shapes(tiles).take(cons.len() as int) =~= cons);
    crate::generation::lemma_generation_pairs(exps, 600, o, b, kk);
    assert forall|k: int| cons.len() <= k < tiles.len() implies (#[trigger] tiles[k]).dream_type
        == DreamType::Generation && tiles[k].source_experiences.len() == 2 by {
        let q = k - cons.len();
        assert(shapes(tiles)[k] == tiles[k].shape());
        assert(shapes(tiles)[k] == g[q]);
        let p = crate::generation::pair_of(q, o, exps, 600, b, kk);
        assert(g[q].sources.len() == 2);
        assert(tiles[k].shape().sources.len() == tiles[k].source_experiences@.len());
    }
    if forall|i: int, j: int|
        0 <= i < exps.len() && 0 <= j < exps.len() && i != j ==> #[trigger] similarity_of(exps[i], exps[j]) < 880 {
        assert forall|p: int| 0 <= p < kk implies #[trigger] crate::generation::dissimilar_enough(
            600,
            pair_first(exps, o, p),
            pair_second(exps, o, p),
        ) by {
            let x = pair_first(exps, o, p);
            let y = pair_second(exps, o, p);
            assert(o[2 * p] != o[2 * p + 1]) by {
                assert(0 <= 2 * p < o.len() && 0 <= 2 * p + 1 < o.len());
            }
            assert(0 <= o[2 * p] < exps.len() && 0 <= o[2 * p + 1] < exps.len());
            assert(similarity_of(exps[o[2 * p]], exps[o[2 * p + 1]]) < 880);
            crate::experience::lemma_fractions_proper(x, y);
            let (num, den) = crate::experience::similarity_ratio(x, y);
            let (n1, d1) = crate::experience::tag_fraction(x, y);
            let (n2, d2) = crate::experience::content_fraction(x, y);
            assert(den > 0) by (nonlinear_arith) requires den == d1 * d2, d1 > 0, d2 > 0;
            let f = (1000 * num) / den;
            assert(similarity_of(x, y) == f);
            vstd::arithmetic::div_mod::lemma_fundamental_div_mod(1000 * num, den);
            vstd::arithmetic::div_mod::lemma_mod_bound(1000 * num, den);
            assert(10000 * (den - num) >= 3 * (1000 - 600) * den) by (nonlinear_arith)
                requires 1000 * num == den * f + (1000 * num) % den, (1000 * num) % den < den, f < 880, den > 0;
        }
        crate::generation::lemma_generation_all_pairs(exps, 600, o, b, kk);
        assert(o.len() == exps.len());
    }
}

/// What each other kind of cycle makes, engine by engine and with each engine's
/// setting: consolidation at similarity 0.3, one tile per cluster; replay of the
/// 10 strongest experiences (all, if fewer); generation at creativity 0.5 on some
/// draw; nightmares at intensity 1; lucid dreams as generation at creativity 0.8
/// on some draw, with the same contents and sources but every tile labelled lucid.
pub proof fn lemma_cycle_kinds(dt: DreamType, exps: Seq<Experience>, tiles: Seq<DreamTile>)
    requires
        dream_result(dt, exps, tiles),
    ensures
        dt == DreamType::Consolidation ==> shapes(tiles) == consolidation_shapes(exps, 300) && tiles.len()
            == crate::consolidation::clusters(exps, 300).len(),
        dt == DreamType::Replay ==> shapes(tiles) == replay_shapes(exps, 10) && tiles.len() == if exps.len() < 10 {
            exps.len() as int
        } else {
            10
        },
        dt == DreamType::Generation ==> exists|o: Seq<int>, b: Seq<int>|
            valid_draws(exps, o, b) && shapes(tiles) == #[trigger] generation_shapes(exps, 500, o, b),
        dt == DreamType::Nightmare ==> shapes(tiles) == nightmare_shapes(1000, exps),
        dt == DreamType::Lucid ==> exists|o: Seq<int>, b: Seq<int>|
            {
                &&& valid_draws(exps, o, b)
                &&& tiles.len() == (#[trigger] generation_shapes(exps, 800, o, b)).len()
                &&& forall|k: int|
                    0 <= k < tiles.len() ==> {
                        &&& (#[trigger] tiles[k]).dream_type == DreamType::Lucid
                        &&& tiles[k].content@ == generation_shapes(exps, 800, o, b)[k].content
                        &&& strs(tiles[k].source_experiences@) == generation_shapes(exps, 800, o, b)[k].sources
                        &&& tiles[k].novelty == generation_shapes(exps, 800, o, b)[k].novelty
                        &&& tiles[k].confidence == generation_shapes(exps, 800, o, b)[k].confidence
                    }
            },
{
    assert(shapes(tiles).len() == tiles.len());
    match dt {
        DreamType::Consolidation => {},
        DreamType::Replay => {
            crate::replay::lemma_replay_picks_top(exps, 10);
        },
        DreamType::Lucid => {
            let (o, b) = choose|o: Seq<int>, b: Seq<int>|
                valid_draws(exps, o, b) && shapes(tiles) == relabeled(#[trigger] generation_shapes(exps, 800, o, b), DreamType::Lucid);
            let g = generation_shapes(exps, 800, o, b);
            assert forall|k: int| 0 <= k < tiles.len() implies {
                &&& (#[trigger] tiles[k]).dream_type == DreamType::Lucid
                &&& tiles[k].content@ == g[k].content
                &&& strs(tiles[k].source_experiences@) == g[k].sources
                &&& tiles[k].novelty == g[k].novelty
                &&& tiles[k].confidence == g[k].confidence
            } by {
                assert(shapes(tiles)[k] == tiles[k].shape());
                assert(relabeled(g, DreamType::Lucid)[k] == TileShape { dream_type: DreamType::Lucid, ..g[k] });
            }
        },
        _ => {},
    }
}

} // verus!
