use vstd::prelude::*;

use crate::dream_cycle::DreamType;
use crate::dream_scheduler::negative_count;
use crate::experience::Experience;
use crate::text::{push_str, push_two_decimals, strs, two_decimals};
use crate::tile::{all_random_ids, shapes, DreamTile, TileShape};

verus! {

/// Processes failures and negative emotional experiences intensely.
pub struct NightmareEngine {
    /// How intensely to examine failures, in thousandths.
    pub intensity: i64,
}

/// The lesson drawn from one negative experience: the intensity and the emotional
/// weight (the emotion's magnitude times the intensity) written with two decimals.
pub open spec fn nightmare_lesson(intensity: int, e: Experience) -> Seq<char> {
    let weight = (if e.emotion < 0 { -e.emotion } else { e.emotion as int }) * intensity;
    "nightmare processed (intensity "@ + two_decimals(intensity, 1000) + "): "@ + e.content@
        + " \u{2014} lesson learned, emotional weight "@ + two_decimals(weight, 1_000_000)
}

/// One tile per experience with negative emotion, in order: novelty 0.3 (a new
/// perspective on failure), confidence 0.9 (failures teach reliably).
pub open spec fn nightmare_shapes(intensity: int, exps: Seq<Experience>) -> Seq<TileShape>
    decreases exps.len(),
{
    if exps.len() == 0 {
        seq![]
    } else {
        let rest = nightmare_shapes(intensity, exps.drop_last());
        let e = exps.last();
        if e.emotion < 0 {
            rest.push(
                TileShape {
                    content: nightmare_lesson(intensity, e),
                    sources: seq![e.id@],
                    novelty: 300,
                    confidence: 900,
                    dream_type: DreamType::Nightmare,
                },
            )
        } else {
            rest
        }
    }
}

impl NightmareEngine {
    pub fn new(intensity: i64) -> (res: Self)
        ensures
            res.intensity == intensity,
    {
        NightmareEngine { intensity }
    }

    fn lesson(&self, exp: &Experience) -> (res: String)
        ensures
            res@ == nightmare_lesson(self.intensity as int, *exp),
    {
        let e = exp.emotion as i128;
        let magnitude: i128 = if e < 0 { -e } else { e };
        let it = self.intensity as i128;
        assert(0 <= magnitude <= 0x8000_0000_0000_0000);
        assert(-0x8000_0000_0000_0000 <= it <= 0x7fff_ffff_ffff_ffff);
        assert(-0x4000_0000_0000_0000_0000_0000_0000_0000 <= magnitude * it <= 0x4000_0000_0000_0000_0000_0000_0000_0000) by (nonlinear_arith)
            requires
                0 <= magnitude <= 0x8000_0000_0000_0000,
                -0x8000_0000_0000_0000 <= it <= 0x7fff_ffff_ffff_ffff;
        let weight: i128 = magnitude * it;
        let mut s = String::new();
        push_str(&mut s, "nightmare processed (intensity ");
        push_two_decimals(&mut s, self.intensity as i128, 1000);
        push_str(&mut s, "): ");
        push_str(&mut s, exp.content.as_str());
        push_str(&mut s, " \u{2014} lesson learned, emotional weight ");
        push_two_decimals(&mut s, weight, 1_000_000);
        s
    }

    /// Keeps the experiences with negative emotion and turns each into a lesson.
    pub fn process(&self, experiences: &[Experience]) -> (res: Vec<DreamTile>)
        ensures
            shapes(res@) == nightmare_shapes(self.intensity as int, experiences@),
            all_random_ids(res@),
    {
        let mut res: Vec<DreamTile> = Vec::new();
        for i in 0..experiences.len()
            invariant
                shapes(res@) == nightmare_shapes(self.intensity as int, experiences@.take(i as int)),
                all_random_ids(res@),
        {
            let exp = &experiences[i];
            assert(experiences@.take(i + 1).drop_last() == experiences@.take(i as int));
            if exp.emotion < 0 {
                let sources = vec![exp.id.clone()];
                assert(strs(sources@) =~= seq![exp.id@]);
                let tile = DreamTile::new(self.lesson(exp), sources, 300, 900, DreamType::Nightmare);
                let ghost before = res@;
                res.push(tile);
                assert(shapes(res@) =~= shapes(before).push(tile.shape()));
            }
        }
        assert(experiences@.take(experiences.len() as int) == experiences@);
        res
    }
}

} // verus!

verus! {

/// Nightmares come only from negative experiences, one for each: there are as
/// many tiles as experiences with negative emotion, and each tile's one source is
/// such an experience.
pub proof fn lemma_nightmares_from_negatives(intensity: int, exps: Seq<Experience>)
    ensures
        nightmare_shapes(intensity, exps).len() == negative_count(exps),
        forall|k: int|
            0 <= k < nightmare_shapes(intensity, exps).len() ==> exists|j: int|
                0 <= j < exps.len() && (#[trigger] exps[j]).emotion < 0
                    && (#[trigger] nightmare_shapes(intensity, exps)[k]).sources == seq![exps[j].id@],
    decreases exps.len(),
{
    if exps.len() > 0 {
        let init = exps.drop_last();
        lemma_nightmares_from_negatives(intensity, init);
        let rest = nightmare_shapes(intensity, init);
        let all = nightmare_shapes(intensity, exps);
        assert forall|k: int| 0 <= k < all.len() implies exists|j: int|
            0 <= j < exps.len() && (#[trigger] exps[j]).emotion < 0 && (#[trigger] all[k]).sources == seq![exps[j].id@] by {
            if k < rest.len() {
                assert(rest[k] == rest[k]);
                let j = choose|j: int| 0 <= j < init.len() && (#[trigger] init[j]).emotion < 0 && rest[k].sources == seq![init[j].id@];
                assert(exps[j] == init[j]);
            } else {
                assert(exps[exps.len() - 1] == exps.last());
            }
        }
    }
}

/// The nightmare tiles are the negative experiences, in order, one tile each: the
/// `k`-th tile is sourced from the `k`-th experience with emotion below 0, and
/// reads "nightmare processed (intensity I): C — lesson learned, emotional
/// weight W", with I the intensity, C that experience's content and W the
/// magnitude of its emotion times the intensity, both with two decimals; novelty
/// 0.3, confidence 0.9.
pub proof fn lemma_nightmare_tiles(intensity: int, exps: Seq<Experience>)
    ensures
        ({
            let neg = exps.filter(|e: Experience| e.emotion < 0);
            let tiles = nightmare_shapes(intensity, exps);
            &&& tiles.len() == neg.len()
            &&& forall|k: int|
                0 <= k < tiles.len() ==> {
                    let e = neg[k];
                    let weight = if e.emotion < 0 { -(e.emotion as int) } else { e.emotion as int };
                    &&& (#[trigger] tiles[k]).content == "nightmare processed (intensity "@ + two_decimals(
                        intensity,
                        1000,
                    ) + "): "@ + e.content@ + " \u{2014} lesson learned, emotional weight "@ + two_decimals(
                        weight * intensity,
                        1_000_000,
                    )
                    &&& tiles[k].sources == seq![e.id@]
                    &&& tiles[k].novelty == 300
                    &&& tiles[k].confidence == 900
                    &&& tiles[k].dream_type == DreamType::Nightmare
                    &&& e.emotion < 0
                }
        }),
    decreases exps.len(),
{
    reveal(Seq::filter);
    if exps.len() > 0 {
        lemma_nightmare_tiles(intensity, exps.drop_last());
        let neg0 = exps.drop_last().filter(|e: Experience| e.emotion < 0);
        let neg = exps.filter(|e: Experience| e.emotion < 0);
        let tiles = nightmare_shapes(intensity, exps);
        let t0 = nightmare_shapes(intensity, exps.drop_last());
        assert forall|k: int| 0 <= k < tiles.len() implies {
            let e = neg[k];
            let weight = if e.emotion < 0 { -(e.emotion as int) } else { e.emotion as int };
            &&& (#[trigger] tiles[k]).content == "nightmare processed (intensity "@ + two_decimals(intensity, 1000)
                + "): "@ + e.content@ + " \u{2014} lesson learned, emotional weight "@ + two_decimals(
                weight * intensity,
                1_000_000,
            )
            &&& tiles[k].sources == seq![e.id@]
            &&& tiles[k].novelty == 300
            &&& tiles[k].confidence == 900
            &&& tiles[k].dream_type == DreamType::Nightmare
            &&& e.emotion < 0
        } by {
            if k < t0.len() {
                assert(tiles[k] == t0[k]);
                assert(neg[k] == neg0[k]);
            } else {
                let e = exps.last();
                let m = if e.emotion < 0 { -(e.emotion as int) } else { e.emotion as int };
                assert(m * intensity == (if e.emotion < 0 { -e.emotion } else { e.emotion as int }) * intensity);
            }
        }
    }
}

} // verus!
