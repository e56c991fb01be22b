use vstd::prelude::*;

use crate::dream_cycle::DreamType;
use crate::experience::{is_random_id, random_id};
use crate::text::strs;

verus! {

/// A product of dreaming: a consolidated, replayed, or generated memory tile.
/// `novelty` and `confidence` are in thousandths (1000 stands for 1.0).
#[derive(Debug, Clone)]
pub struct DreamTile {
    pub id: String,
    pub content: String,
    pub source_experiences: Vec<String>,
    pub novelty: i64,
    pub confidence: i64,
    pub dream_type: DreamType,
}

/// What a tile says, apart from its random identifier.
pub struct TileShape {
    pub content: Seq<char>,
    pub sources: Seq<Seq<char>>,
    pub novelty: int,
    pub confidence: int,
    pub dream_type: DreamType,
}

impl DreamTile {
    pub open spec fn shape(self) -> TileShape {
        TileShape {
            content: self.content@,
            sources: strs(self.source_experiences@),
            novelty: self.novelty as int,
            confidence: self.confidence as int,
            dream_type: self.dream_type,
        }
    }

    pub fn new(
        content: String,
        source_experiences: Vec<String>,
        novelty: i64,
        confidence: i64,
        dream_type: DreamType,
    ) -> (res: Self)
        ensures
            is_random_id(res.id@),
            res.content == content,
            res.source_experiences == source_experiences,
            res.novelty == novelty,
            res.confidence == confidence,
            res.dream_type == dream_type,
    {
        DreamTile { id: random_id(), content, source_experiences, novelty, confidence, dream_type }
    }
}

/// The shapes of a list of tiles.
pub open spec fn shapes(tiles: Seq<DreamTile>) -> Seq<TileShape> {
    tiles.map_values(|t: DreamTile| t.shape())
}

/// Every tile carries an identifier as `random_id` makes them.
pub open spec fn all_random_ids(tiles: Seq<DreamTile>) -> bool {
    forall|i: int| 0 <= i < tiles.len() ==> is_random_id(#[trigger] tiles[i].id@)
}

} // verus!

verus! {

/// The two lists hold the same tiles: same identifiers, same shapes.
pub open spec fn same_tiles(a: Seq<DreamTile>, b: Seq<DreamTile>) -> bool {
    &&& a.len() == b.len()
    &&& forall|i: int| 0 <= i < a.len() ==> (#[trigger] a[i]).id@ == b[i].id@ && a[i].shape() == b[i].shape()
}

impl DreamTile {
    /// A field-by-field copy of the tile.
    pub fn duplicate(&self) -> (res: DreamTile)
        ensures
            res.id@ == self.id@,
            res.shape() == self.shape(),
    {
        let sources = self.source_experiences.clone();
        assert(strs(sources@) =~= strs(self.source_experiences@));
        DreamTile {
            id: self.id.clone(),
            content: self.content.clone(),
            source_experiences: sources,
            novelty: self.novelty,
            confidence: self.confidence,
            dream_type: self.dream_type,
        }
    }
}

/// A copy of every tile of `v`.
pub fn duplicate_tiles(v: &Vec<DreamTile>) -> (res: Vec<DreamTile>)
    ensures
        same_tiles(res@, v@),
{
    let mut res: Vec<DreamTile> = Vec::new();
    for i in 0..v.len()
        invariant
            res@.len() == i,
            forall|k: int| 0 <= k < i ==> (#[trigger] res@[k]).id@ == v@[k].id@ && res@[k].shape() == v@[k].shape(),
    {
        res.push(v[i].duplicate());
    }
    res
}

} // verus!
