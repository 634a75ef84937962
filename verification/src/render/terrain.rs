//! Which terrain tiles are drawn, and in which colours.
//!
//! The selection of tiles, their distances and their data come from outside.
//! What is here decides the order in which they are asked for, how many are
//! loaded in a frame, which are drawn and which are taken away.
use crate::binary32;
use crate::binary32::Binary32;
use crate::binary64::Binary64;
pub use crate::render::surface::{srgb_to_linear, LinearColor, Linearised};
use crate::render::surface::{Rgb, Rgba};
use crate::smooth;
use vstd::prelude::*;

verus! {

/// The bit pattern of the single nearest to the degrees in a radian.
pub const DEGREES_PER_RADIAN_BITS: u32 = 0x42652ee1;

/// A tile of the quadtree.
#[derive(Clone, Copy, PartialEq, Eq, Debug, Structural)]
pub struct TileId {
    pub level: u8,
    pub x: u32,
    pub y: u32,
}

impl TileId {
    pub open spec fn spec_new(level: u8, x: u32, y: u32) -> TileId {
        TileId { level, x, y }
    }

    #[verifier::when_used_as_spec(spec_new)]
    pub fn new(level: u8, x: u32, y: u32) -> (r: TileId)
        ensures
            r == TileId::new(level, x, y),
    {
        TileId { level, x, y }
    }
}

/// How terrain is drawn.
#[derive(Clone, Copy, PartialEq, Eq, Debug, Structural)]
pub struct TerrainRenderConfig {
    /// How many tiles are loaded in a frame at most.
    pub load_budget_per_frame: usize,
    /// The error on screen that is let pass, in pixels.
    pub screen_space_error: Binary64,
    /// The finest level that is searched.
    pub max_level: u8,
    /// The error of the coarsest tiles in metres.
    pub root_geometric_error: Binary64,
    /// The room for tiles in memory.
    pub cache_bytes: usize,
}

impl Default for TerrainRenderConfig {
    fn default() -> (r: TerrainRenderConfig)
        ensures
            r == (TerrainRenderConfig {
                load_budget_per_frame: 8,
                screen_space_error: Binary64::of(16),
                max_level: 13,
                root_geometric_error: Binary64::of(20_000),
                cache_bytes: 536_870_912,
            }),
    {
        TerrainRenderConfig {
            load_budget_per_frame: 8,
            screen_space_error: Binary64::of(16),
            max_level: 13,
            root_geometric_error: Binary64::of(20_000),
            cache_bytes: 536_870_912,
        }
    }
}

/// A tile that is drawn, and the entity that draws it.
#[derive(Clone, Copy, PartialEq, Eq, Debug, Structural)]
pub struct LiveTile {
    pub id: TileId,
    pub entity: u64,
}

/// No tile is listed twice.
pub open spec fn tiles_distinct(tiles: Seq<LiveTile>) -> bool {
    forall|i: int, j: int|
        0 <= i < j < tiles.len() ==> (#[trigger] tiles[i]).id != (#[trigger] tiles[j]).id
}

/// The tile is listed at that place.
pub open spec fn listed_at(tiles: Seq<LiveTile>, id: TileId, i: int) -> bool {
    0 <= i < tiles.len() && tiles[i].id == id
}

/// The entities of the listed tiles.
pub open spec fn entities_of(tiles: Seq<LiveTile>) -> Map<TileId, u64> {
    Map::new(
        |id: TileId| exists|i: int| #[trigger] listed_at(tiles, id, i),
        |id: TileId| tiles[choose|i: int| #[trigger] listed_at(tiles, id, i)].entity,
    )
}

proof fn lemma_entity(tiles: Seq<LiveTile>, id: TileId, i: int)
    requires
        tiles_distinct(tiles),
        listed_at(tiles, id, i),
    ensures
        entities_of(tiles).dom().contains(id),
        entities_of(tiles)[id] == tiles[i].entity,
{
    let j = choose|j: int| #[trigger] listed_at(tiles, id, j);
    assert(listed_at(tiles, id, j));
    if i < j {
        assert(tiles[i].id != tiles[j].id);
    } else if j < i {
        assert(tiles[j].id != tiles[i].id);
    }
}

/// The tiles that are drawn now.
pub struct TerrainTiles {
    tiles: Vec<LiveTile>,
}

impl View for TerrainTiles {
    type V = Map<TileId, u64>;

    closed spec fn view(&self) -> Map<TileId, u64> {
        entities_of(self.tiles@)
    }
}

impl TerrainTiles {
    #[verifier::type_invariant]
    spec fn well_formed(self) -> bool {
        tiles_distinct(self.tiles@)
    }

    /// No tile.
    pub fn new() -> (r: TerrainTiles)
        ensures
            r@ == Map::<TileId, u64>::empty(),
    {
        let r = TerrainTiles { tiles: Vec::new() };
        assert(r@ =~= Map::<TileId, u64>::empty());
        r
    }

    /// How many there are.
    pub fn len(&self) -> (r: usize)
        ensures
            self@.dom().finite(),
            r == self@.dom().len(),
    {
        proof {
            use_type_invariant(self);
            lemma_count(self.tiles@);
        }
        self.tiles.len()
    }

    pub fn is_empty(&self) -> (r: bool)
        ensures
            r == (self@ == Map::<TileId, u64>::empty()),
    {
        proof {
            use_type_invariant(self);
            if self.tiles@.len() == 0 {
                assert(self@ =~= Map::<TileId, u64>::empty());
            } else {
                let first = self.tiles@[0].id;
                assert(listed_at(self.tiles@, first, 0));
                lemma_entity(self.tiles@, first, 0);
            }
        }
        self.tiles.len() == 0
    }

    /// Where the tile is listed.
    fn position(&self, id: TileId) -> (r: Option<usize>)
        ensures
            match r {
                Some(i) => listed_at(self.tiles@, id, i as int),
                None => forall|i: int| !#[trigger] listed_at(self.tiles@, id, i),
            },
    {
        let mut i: usize = 0;
        while i < self.tiles.len()
            invariant
                i <= self.tiles@.len(),
                forall|j: int| 0 <= j < i ==> !#[trigger] listed_at(self.tiles@, id, j),
            decreases self.tiles@.len() - i,
        {
            if self.tiles[i].id == id {
                return Some(i);
            }
            i = i + 1;
        }
        None
    }

    pub fn contains(&self, id: TileId) -> (r: bool)
        ensures
            r == self@.dom().contains(id),
    {
        self.position(id).is_some()
    }

    /// Lists a tile under its entity.
    pub fn insert(&mut self, id: TileId, entity: u64)
        ensures
            final(self)@ == old(self)@.insert(id, entity),
    {
        proof {
            use_type_invariant(&*self);
        }
        let found = self.position(id);
        let ghost before = self.tiles@;
        let mut tiles: Vec<LiveTile> = Vec::new();
        core::mem::swap(&mut tiles, &mut self.tiles);
        match found {
            Some(i) => {
                tiles.set(i, LiveTile { id, entity });
            },
            None => {
                tiles.push(LiveTile { id, entity });
            },
        }
        proof {
            let after = tiles@;
            let place = match found {
                Some(i) => i as int,
                None => before.len() as int,
            };
            assert(found is None ==> forall|i: int|
                0 <= i < before.len() ==> (#[trigger] before[i]).id != id) by {
                assert forall|i: int| found is None && 0 <= i < before.len() implies (
                #[trigger] before[i]).id != id by {
                    assert(!listed_at(before, id, i));
                }
            }
            assert(tiles_distinct(after));
            assert(listed_at(after, id, place));
            lemma_entity(after, id, place);
            assert forall|other: TileId| other != id implies entities_of(
                before,
            ).dom().contains(other) == #[trigger] entities_of(after).dom().contains(other) && (
            entities_of(before).dom().contains(other) ==> entities_of(before)[other]
                == entities_of(after)[other]) by {
                if exists|i: int| #[trigger] listed_at(before, other, i) {
                    let i = choose|i: int| #[trigger] listed_at(before, other, i);
                    assert(listed_at(after, other, i));
                    lemma_entity(before, other, i);
                    lemma_entity(after, other, i);
                }
                if exists|i: int| #[trigger] listed_at(after, other, i) {
                    let i = choose|i: int| #[trigger] listed_at(after, other, i);
                    assert(listed_at(before, other, i));
                }
            }
            assert(entities_of(after) =~= entities_of(before).insert(id, entity));
        }
        self.tiles = tiles;
    }

    /// Takes a tile off the list and gives back its entity.
    pub fn remove(&mut self, id: TileId) -> (r: Option<u64>)
        ensures
            final(self)@ == old(self)@.remove(id),
            r == if old(self)@.dom().contains(id) {
                Some(old(self)@[id])
            } else {
                None
            },
    {
        proof {
            use_type_invariant(&*self);
        }
        let ghost before = self.tiles@;
        let found = self.position(id);
        match found {
            None => {
                assert(old(self)@.remove(id) =~= old(self)@);
                None
            },
            Some(i) => {
                let mut tiles: Vec<LiveTile> = Vec::new();
                core::mem::swap(&mut tiles, &mut self.tiles);
                let gone = tiles.remove(i);
                proof {
                    let after = tiles@;
                    lemma_entity(before, id, i as int);
                    assert(after =~= before.remove(i as int));
                    assert(tiles_distinct(after)) by {
                        assert forall|a: int, b: int| 0 <= a < b < after.len() implies (
                        #[trigger] after[a]).id != (#[trigger] after[b]).id by {
                            let c = if a < i {
                                a
                            } else {
                                a + 1
                            };
                            let d = if b < i {
                                b
                            } else {
                                b + 1
                            };
                            assert(before[c].id != before[d].id);
                        }
                    }
                    assert forall|other: TileId| #[trigger] entities_of(after).dom().contains(
                        other,
                    ) == (other != id && entities_of(before).dom().contains(other)) && (
                    entities_of(after).dom().contains(other) ==> entities_of(after)[other]
                        == entities_of(before)[other]) by {
                        if exists|j: int| #[trigger] listed_at(after, other, j) {
                            let j = choose|j: int| #[trigger] listed_at(after, other, j);
                            let k = if j < i {
                                j
                            } else {
                                j + 1
                            };
                            assert(listed_at(before, other, k));
                            lemma_entity(before, other, k);
                            lemma_entity(after, other, j);
                            if k < i {
                                assert(before[k].id != before[i as int].id);
                            } else {
                                assert(before[i as int].id != before[k].id);
                            }
                        }
                        if other != id && exists|k: int| #[trigger] listed_at(before, other, k) {
                            let k = choose|k: int| #[trigger] listed_at(before, other, k);
                            let j = if k < i {
                                k
                            } else {
                                k - 1
                            };
                            assert(listed_at(after, other, j));
                        }
                    }
                    assert(entities_of(after) =~= entities_of(before).remove(id));
                }
                self.tiles = tiles;
                Some(gone.entity)
            },
        }
    }

    /// The listed tiles, each once.
    pub fn ids(&self) -> (r: Vec<TileId>)
        ensures
            r@.no_duplicates(),
            r@.to_set() == self@.dom(),
    {
        proof {
            use_type_invariant(self);
        }
        let mut ids: Vec<TileId> = Vec::new();
        let mut i: usize = 0;
        while i < self.tiles.len()
            invariant
                i <= self.tiles@.len(),
                ids@.len() == i,
                forall|j: int| 0 <= j < i ==> #[trigger] ids@[j] == self.tiles@[j].id,
            decreases self.tiles@.len() - i,
        {
            ids.push(self.tiles[i].id);
            i = i + 1;
        }
        proof {
            let tiles = self.tiles@;
            assert forall|a: int, b: int|
                0 <= a < ids@.len() && 0 <= b < ids@.len() && a != b implies ids@[a] != ids@[b] by {
                if a < b {
                    assert(tiles[a].id != tiles[b].id);
                } else {
                    assert(tiles[b].id != tiles[a].id);
                }
            }
            assert forall|id: TileId| #[trigger] ids@.to_set().contains(id)
                == self@.dom().contains(id) by {
                if ids@.contains(id) {
                    let j = choose|j: int| 0 <= j < ids@.len() && ids@[j] == id;
                    assert(listed_at(tiles, id, j));
                }
                if self@.dom().contains(id) {
                    let j = choose|j: int| #[trigger] listed_at(tiles, id, j);
                    assert(ids@[j] == id);
                }
            }
            assert(ids@.to_set() =~= self@.dom());
        }
        ids
    }
}

impl Default for TerrainTiles {
    fn default() -> (r: TerrainTiles)
        ensures
            r@ == Map::<TileId, u64>::empty(),
    {
        TerrainTiles::new()
    }
}

/// Distinct tiles are as many as their list is long.
proof fn lemma_count(tiles: Seq<LiveTile>)
    requires
        tiles_distinct(tiles),
    ensures
        entities_of(tiles).dom().finite(),
        entities_of(tiles).dom().len() == tiles.len(),
{
    let ids = tiles.map_values(|tile: LiveTile| tile.id);
    assert(ids.no_duplicates()) by {
        assert forall|a: int, b: int|
            0 <= a < ids.len() && 0 <= b < ids.len() && a != b implies ids[a] != ids[b] by {
            if a < b {
                assert(tiles[a].id != tiles[b].id);
            } else {
                assert(tiles[b].id != tiles[a].id);
            }
        }
    }
    ids.unique_seq_to_set();
    assert forall|id: TileId| #[trigger] ids.to_set().contains(id) == entities_of(
        tiles,
    ).dom().contains(id) by {
        if ids.contains(id) {
            let j = choose|j: int| 0 <= j < ids.len() && ids[j] == id;
            assert(listed_at(tiles, id, j));
        }
        if exists|j: int| #[trigger] listed_at(tiles, id, j) {
            let j = choose|j: int| #[trigger] listed_at(tiles, id, j);
            assert(ids[j] == id);
        }
    }
    assert(ids.to_set() =~= entities_of(tiles).dom());
}

/// A tile that is to be drawn, and how far away it is.
#[derive(Clone, Copy, PartialEq, Eq, Debug, Structural)]
pub struct WantedTile {
    pub id: TileId,
    pub distance: Binary64,
}

/// A number's place in the order of all bit patterns: negative before positive,
/// and "not a number" outermost.
pub open spec fn total_order(x: Binary64) -> int {
    if x.bits < 0x8000_0000_0000_0000 {
        x.bits as int
    } else {
        0x7fff_ffff_ffff_ffff - x.bits
    }
}

/// `x` comes after `y` in the order of all bit patterns.
fn beyond(x: Binary64, y: Binary64) -> (r: bool)
    ensures
        r == (total_order(x) > total_order(y)),
{
    let sign: u64 = 0x8000_0000_0000_0000;
    if x.bits < sign {
        y.bits >= sign || x.bits > y.bits
    } else {
        y.bits >= sign && x.bits < y.bits
    }
}

/// The tile put into the list behind all that are no farther away.
pub open spec fn placed(tiles: Seq<WantedTile>, tile: WantedTile) -> Seq<WantedTile>
    decreases tiles.len(),
{
    if tiles.len() == 0 || total_order(tiles.last().distance) <= total_order(tile.distance) {
        tiles.push(tile)
    } else {
        placed(tiles.drop_last(), tile).push(tiles.last())
    }
}

/// The tiles in the order of their distance, equally far ones as they came.
pub open spec fn nearest_first(tiles: Seq<WantedTile>) -> Seq<WantedTile>
    decreases tiles.len(),
{
    if tiles.len() == 0 {
        tiles
    } else {
        placed(nearest_first(tiles.drop_last()), tiles.last())
    }
}

/// The tiles of a list in their order.
pub open spec fn ids_of(tiles: Seq<WantedTile>) -> Seq<TileId> {
    tiles.map_values(|tile: WantedTile| tile.id)
}

proof fn lemma_placed(tiles: Seq<WantedTile>, tile: WantedTile)
    ensures
        placed(tiles, tile).len() == tiles.len() + 1,
        placed(tiles, tile).to_multiset() == tiles.push(tile).to_multiset(),
        in_order(tiles) ==> in_order(placed(tiles, tile)),
        in_order(tiles) && tiles.len() > 0 ==> total_order(placed(tiles, tile).last().distance)
            == if total_order(tile.distance) >= total_order(tiles.last().distance) {
            total_order(tile.distance)
        } else {
            total_order(tiles.last().distance)
        },
    decreases tiles.len(),
{
    broadcast use vstd::seq_lib::group_to_multiset_ensures;

    if tiles.len() == 0 || total_order(tiles.last().distance) <= total_order(tile.distance) {
    } else {
        let front = tiles.drop_last();
        let last = tiles.last();
        lemma_placed(front, tile);
        let rest = placed(front, tile);
        assert(tiles =~= front.push(last));
        assert(rest.push(last).to_multiset() =~= tiles.push(tile).to_multiset());
        if in_order(tiles) {
            assert(in_order(front));
            assert(in_order(rest));
            if front.len() == 0 {
                assert(rest =~= front.push(tile));
            }
            assert(total_order(rest.last().distance) <= total_order(last.distance));
            let all = rest.push(last);
            assert forall|i: int, j: int| 0 <= i <= j < all.len() implies total_order(
                (#[trigger] all[i]).distance,
            ) <= total_order((#[trigger] all[j]).distance) by {
                if j == all.len() - 1 && i < j {
                    assert(total_order(rest[i].distance) <= total_order(
                        rest[rest.len() - 1].distance,
                    ));
                }
            }
        }
    }
}

/// No tile comes after one that is farther away.
pub open spec fn in_order(tiles: Seq<WantedTile>) -> bool {
    forall|i: int, j: int|
        0 <= i <= j < tiles.len() ==> total_order((#[trigger] tiles[i]).distance) <= total_order(
            (#[trigger] tiles[j]).distance,
        )
}

/// Putting tiles in order loses none and adds none, and near ones come first.
pub proof fn near_tiles_come_first(tiles: Seq<WantedTile>)
    ensures
        in_order(nearest_first(tiles)),
        nearest_first(tiles).to_multiset() == tiles.to_multiset(),
        nearest_first(tiles).len() == tiles.len(),
    decreases tiles.len(),
{
    broadcast use vstd::seq_lib::group_to_multiset_ensures;

    if tiles.len() > 0 {
        let front = tiles.drop_last();
        near_tiles_come_first(front);
        lemma_placed(nearest_first(front), tiles.last());
        assert(tiles =~= front.push(tiles.last()));
        assert(nearest_first(front).push(tiles.last()).to_multiset() =~= tiles.to_multiset());
    }
}

/// Puts a tile into the list behind all that are no farther away.
fn place(tiles: &mut Vec<WantedTile>, tile: WantedTile)
    ensures
        final(tiles)@ == placed(old(tiles)@, tile),
{
    let ghost before = tiles@;
    let mut i: usize = tiles.len();
    let ghost mut behind: Seq<WantedTile> = Seq::empty();
    proof {
        assert(before.subrange(0, before.len() as int) =~= before);
        assert(placed(before, tile) + behind =~= placed(before, tile));
    }
    while i > 0 && beyond(tiles[i - 1].distance, tile.distance)
        invariant
            i <= before.len(),
            tiles@ == before,
            behind == before.subrange(i as int, before.len() as int),
            placed(before, tile) == placed(before.subrange(0, i as int), tile) + behind,
        decreases i,
    {
        proof {
            let rest = before.subrange(0, i as int);
            assert(rest.drop_last() =~= before.subrange(0, i - 1));
            assert(rest.last() == before[i - 1]);
            let more = before.subrange(i - 1, before.len() as int);
            assert(placed(rest.drop_last(), tile).push(rest.last()) + behind =~= placed(
                rest.drop_last(),
                tile,
            ) + more);
            behind = more;
        }
        i = i - 1;
    }
    proof {
        let rest = before.subrange(0, i as int);
        if i > 0 {
            assert(rest.last() == before[i - 1]);
        }
        assert(placed(rest, tile) == rest.push(tile));
        assert(before.insert(i as int, tile) =~= rest.push(tile) + behind);
    }
    tiles.insert(i, tile);
}

/// What asking for a tile came to.
#[derive(Clone, Copy, PartialEq, Eq, Debug, Structural)]
pub enum TileAnswer {
    /// It was in memory already, and is now drawn by that entity.
    Cached { entity: u64 },
    /// It was loaded, and is now drawn by that entity.
    Loaded { entity: u64 },
    /// It was loaded, but memory did not keep it.
    NotKept,
    /// There is none, as at sea, or it could not be read.
    Missing,
}

impl TileAnswer {
    /// A tile was loaded.
    pub open spec fn loads(self) -> bool {
        self is Loaded || self is NotKept
    }

    /// The entity that now draws the tile.
    pub open spec fn drawn_by(self) -> Option<u64> {
        match self {
            TileAnswer::Cached { entity } => Some(entity),
            TileAnswer::Loaded { entity } => Some(entity),
            _ => None,
        }
    }
}

/// One frame's work on the tiles, while it goes on.
pub struct TerrainPass {
    pub wanted: Vec<TileId>,
    pub budget: usize,
    pub next: usize,
    pub loaded: usize,
    pub spawned: Vec<TileId>,
}

/// What one frame did to the tiles.
pub struct TerrainUpdate {
    /// The tiles that are newly drawn.
    pub spawned: Vec<TileId>,
    /// The tiles that are no longer drawn, with their entities.
    pub despawned: Vec<LiveTile>,
    /// How many tiles were loaded.
    pub loaded: usize,
}

/// Begins a frame's work on the tiles that are to be drawn, near ones first.
pub fn update_terrain_selection(wanted: &Vec<WantedTile>, load_budget: usize) -> (r: TerrainPass)
    ensures
        r.wanted@ == ids_of(nearest_first(wanted@)),
        r.budget == load_budget,
        r.next == 0,
        r.loaded == 0,
        r.spawned@ == Seq::<TileId>::empty(),
        r.well_formed(),
{
    let mut ordered: Vec<WantedTile> = Vec::new();
    let mut i: usize = 0;
    proof {
        assert(wanted@.subrange(0, 0) =~= Seq::<WantedTile>::empty());
    }
    while i < wanted.len()
        invariant
            i <= wanted@.len(),
            ordered@ == nearest_first(wanted@.subrange(0, i as int)),
        decreases wanted@.len() - i,
    {
        proof {
            let longer = wanted@.subrange(0, i + 1);
            assert(longer.drop_last() =~= wanted@.subrange(0, i as int));
            assert(longer.last() == wanted@[i as int]);
        }
        place(&mut ordered, wanted[i]);
        i = i + 1;
    }
    assert(wanted@.subrange(0, wanted@.len() as int) =~= wanted@);
    let mut ids: Vec<TileId> = Vec::new();
    let mut j: usize = 0;
    while j < ordered.len()
        invariant
            j <= ordered@.len(),
            ids@.len() == j,
            forall|k: int| 0 <= k < j ==> #[trigger] ids@[k] == ordered@[k].id,
        decreases ordered@.len() - j,
    {
        ids.push(ordered[j].id);
        j = j + 1;
    }
    assert(ids@ =~= ids_of(ordered@));
    TerrainPass { wanted: ids, budget: load_budget, next: 0, loaded: 0, spawned: Vec::new() }
}

/// The first place from `from` on whose tile is not drawn yet.
pub open spec fn first_missing(wanted: Seq<TileId>, from: int, live: Map<TileId, u64>) -> int
    decreases wanted.len() - from,
{
    if from < 0 || from >= wanted.len() || !live.dom().contains(wanted[from]) {
        from
    } else {
        first_missing(wanted, from + 1, live)
    }
}

impl TerrainPass {
    /// No more was loaded than may be, and only wanted tiles were drawn.
    pub open spec fn well_formed(self) -> bool {
        &&& self.next <= self.wanted@.len()
        &&& self.loaded <= self.budget
        &&& forall|i: int|
            0 <= i < self.spawned@.len() ==> self.wanted@.contains(#[trigger] self.spawned@[i])
    }

    /// A tile is waiting for its answer.
    pub open spec fn pending(self) -> bool {
        self.next < self.wanted@.len() && self.loaded < self.budget
    }

    /// The next tile to ask for: the nearest that is not drawn yet, as long as
    /// the frame may load more.
    pub fn next_tile(&mut self, tiles: &TerrainTiles) -> (r: Option<TileId>)
        requires
            old(self).well_formed(),
        ensures
            final(self).well_formed(),
            final(self).next == first_missing(old(self).wanted@, old(self).next as int, tiles@),
            final(self).wanted@ == old(self).wanted@,
            final(self).budget == old(self).budget,
            final(self).loaded == old(self).loaded,
            final(self).spawned@ == old(self).spawned@,
            r == if final(self).pending() {
                Some(final(self).wanted@[final(self).next as int])
            } else {
                None
            },
            r is Some ==> !tiles@.dom().contains(r->0),
    {
        let ghost start = self.next as int;
        while self.next < self.wanted.len() && tiles.contains(self.wanted[self.next])
            invariant
                self.well_formed(),
                start == old(self).next,
                self.wanted@ == old(self).wanted@,
                self.budget == old(self).budget,
                self.loaded == old(self).loaded,
                self.spawned@ == old(self).spawned@,
                first_missing(self.wanted@, start, tiles@) == first_missing(
                    self.wanted@,
                    self.next as int,
                    tiles@,
                ),
            decreases self.wanted@.len() - self.next,
        {
            self.next = self.next + 1;
        }
        if self.next < self.wanted.len() && self.loaded < self.budget {
            Some(self.wanted[self.next])
        } else {
            None
        }
    }

    /// Takes the answer for the tile that was asked for, and goes on.
    pub fn answer(&mut self, tiles: &mut TerrainTiles, answer: TileAnswer)
        requires
            old(self).well_formed(),
            old(self).pending(),
        ensures
            final(self).well_formed(),
            final(self).wanted@ == old(self).wanted@,
            final(self).budget == old(self).budget,
            final(self).next == old(self).next + 1,
            final(self).loaded == old(self).loaded + if answer.loads() {
                1int
            } else {
                0
            },
            match answer.drawn_by() {
                Some(entity) => {
                    let id = old(self).wanted@[old(self).next as int];
                    &&& final(self).spawned@ == old(self).spawned@.push(id)
                    &&& final(tiles)@ == old(tiles)@.insert(id, entity)
                },
                None => {
                    &&& final(self).spawned@ == old(self).spawned@
                    &&& final(tiles)@ == old(tiles)@
                },
            },
    {
        let id = self.wanted[self.next];
        let following: usize = if self.next < self.wanted.len() {
            self.next + 1
        } else {
            self.next
        };
        let ghost place = self.next as int;
        match answer {
            TileAnswer::Cached { entity } => {
                tiles.insert(id, entity);
                self.spawned.push(id);
            },
            TileAnswer::Loaded { entity } => {
                tiles.insert(id, entity);
                self.spawned.push(id);
                self.loaded = self.loaded + 1;
            },
            TileAnswer::NotKept => {
                self.loaded = self.loaded + 1;
            },
            TileAnswer::Missing => {},
        }
        self.next = following;
        assert(self.wanted@[place] == id);
    }

    /// Ends the frame: tiles that are no longer wanted are taken away.
    pub fn finish(self, tiles: &mut TerrainTiles) -> (r: TerrainUpdate)
        ensures
            r.spawned@ == self.spawned@,
            r.loaded == self.loaded,
            final(tiles)@ == old(tiles)@.restrict(self.wanted@.to_set()),
            forall|tile: LiveTile|
                #![trigger r.despawned@.contains(tile)]
                r.despawned@.contains(tile) <==> (old(tiles)@.dom().contains(tile.id)
                    && old(tiles)@[tile.id] == tile.entity && !self.wanted@.contains(tile.id)),
            tiles_distinct(r.despawned@),
    {
        let ids = tiles.ids();
        let mut despawned: Vec<LiveTile> = Vec::new();
        let ghost before = tiles@;
        let mut i: usize = 0;
        proof {
            assert(ids@.subrange(0, 0) =~= Seq::<TileId>::empty());
        }
        while i < ids.len()
            invariant
                i <= ids@.len(),
                ids@.no_duplicates(),
                ids@.to_set() == before.dom(),
                forall|id: TileId| #[trigger]
                    tiles@.dom().contains(id) <==> (before.dom().contains(id) && (
                    self.wanted@.contains(id) || !ids@.subrange(0, i as int).contains(id))),
                forall|id: TileId| #[trigger]
                    tiles@.dom().contains(id) ==> tiles@[id] == before[id],
                forall|tile: LiveTile|
                    #![trigger despawned@.contains(tile)]
                    despawned@.contains(tile) <==> (ids@.subrange(0, i as int).contains(tile.id)
                        && before[tile.id] == tile.entity && !self.wanted@.contains(tile.id)),
                tiles_distinct(despawned@),
            decreases ids@.len() - i,
        {
            let id = ids[i];
            let ghost seen = ids@.subrange(0, i as int);
            let ghost more = ids@.subrange(0, i + 1);
            proof {
                assert(more =~= seen.push(id));
                assert(ids@.to_set().contains(id)) by {
                    assert(ids@[i as int] == id);
                }
                assert(!seen.contains(id)) by {
                    if seen.contains(id) {
                        let j = choose|j: int| 0 <= j < seen.len() && seen[j] == id;
                        assert(ids@[j] == ids@[i as int]);
                    }
                }
                assert forall|other: TileId| #[trigger] more.contains(other) == (seen.contains(
                    other,
                ) || other == id) by {
                    if seen.contains(other) {
                        let j = choose|j: int| 0 <= j < seen.len() && seen[j] == other;
                        assert(more[j] == other);
                    }
                    if other == id {
                        assert(more[i as int] == other);
                    }
                }
            }
            if !self.wants(id) {
                let ghost held = despawned@;
                let gone = tiles.remove(id);
                if let Some(entity) = gone {
                    despawned.push(LiveTile { id, entity });
                }
                proof {
                    assert(gone is Some);
                    let tile = LiveTile { id, entity: before[id] };
                    assert(despawned@ == held.push(tile));
                    assert forall|other: LiveTile| #[trigger]
                        despawned@.contains(other) == (held.contains(other) || other == tile) by {
                        if held.contains(other) {
                            let j = choose|j: int| 0 <= j < held.len() && held[j] == other;
                            assert(despawned@[j] == other);
                        }
                        if other == tile {
                            assert(despawned@[held.len() as int] == tile);
                        }
                    }
                    assert(tiles_distinct(despawned@)) by {
                        assert forall|a: int| 0 <= a < held.len() implies (#[trigger] held[a]).id
                            != id by {
                            assert(held.contains(held[a]));
                        }
                    }
                }
            }
            i = i + 1;
        }
        proof {
            assert(ids@.subrange(0, ids@.len() as int) =~= ids@);
            assert forall|id: TileId| #[trigger] before.dom().contains(id) implies ids@.contains(
                id,
            ) by {
                assert(ids@.to_set().contains(id));
            }
            assert forall|id: TileId| ids@.contains(id) implies #[trigger] before.dom().contains(
                id,
            ) by {
                assert(ids@.to_set().contains(id));
            }
            assert(tiles@ =~= before.restrict(self.wanted@.to_set()));
        }
        TerrainUpdate { spawned: self.spawned, despawned, loaded: self.loaded }
    }

    fn wants(&self, id: TileId) -> (r: bool)
        ensures
            r == self.wanted@.contains(id),
    {
        let mut i: usize = 0;
        while i < self.wanted.len()
            invariant
                i <= self.wanted@.len(),
                forall|j: int| 0 <= j < i ==> #[trigger] self.wanted@[j] != id,
            decreases self.wanted@.len() - i,
        {
            if self.wanted[i] == id {
                assert(self.wanted@[i as int] == id);
                return true;
            }
            i = i + 1;
        }
        false
    }
}

/// A height and the colour of the ground there.
#[derive(Clone, Copy, PartialEq, Eq, Debug, Structural)]
pub struct ColorStop {
    pub height: Binary32,
    pub color: Rgb,
}

pub open spec fn spec_color_stop(i: int) -> ColorStop {
    if i == 0 {
        ColorStop { height: Binary32::of(0), color: Rgb::thousandths(420, 500, 320) }
    } else if i == 1 {
        ColorStop { height: Binary32::of(300), color: Rgb::thousandths(340, 450, 260) }
    } else if i == 2 {
        ColorStop { height: Binary32::of(900), color: Rgb::thousandths(450, 420, 300) }
    } else if i == 3 {
        ColorStop { height: Binary32::of(1800), color: Rgb::thousandths(520, 480, 440) }
    } else {
        ColorStop { height: Binary32::of(2600), color: Rgb::thousandths(920, 930, 950) }
    }
}

/// The colours by height: coast, hills, the tree line, rock, snow.
fn color_stop(i: usize) -> (r: ColorStop)
    ensures
        r == spec_color_stop(i as int),
{
    match i {
        0 => ColorStop { height: Binary32::of(0), color: Rgb::thousandths(420, 500, 320) },
        1 => ColorStop { height: Binary32::of(300), color: Rgb::thousandths(340, 450, 260) },
        2 => ColorStop { height: Binary32::of(900), color: Rgb::thousandths(450, 420, 300) },
        3 => ColorStop { height: Binary32::of(1800), color: Rgb::thousandths(520, 480, 440) },
        _ => ColorStop { height: Binary32::of(2600), color: Rgb::thousandths(920, 930, 950) },
    }
}

/// A colour a share `t` of the way from one to another.
pub open spec fn spec_mix_color(a: Rgb, b: Rgb, t: Binary32) -> Rgb {
    Rgb {
        red: smooth::mix32(a.red, b.red, t),
        green: smooth::mix32(a.green, b.green, t),
        blue: smooth::mix32(a.blue, b.blue, t),
    }
}

/// A colour a share `t` of the way from one to another.
fn mix_color(a: Rgb, b: Rgb, t: Binary32) -> (r: Rgb)
    ensures
        r == spec_mix_color(a, b, t),
{
    Rgb {
        red: smooth::mix32(a.red, b.red, t),
        green: smooth::mix32(a.green, b.green, t),
        blue: smooth::mix32(a.blue, b.blue, t),
    }
}

/// The share of the way from one stop to the next.
pub open spec fn stop_share(i: int, elevation: Binary32) -> Binary32 {
    ((elevation - spec_color_stop(i).height) / (spec_color_stop(i + 1).height - spec_color_stop(
        i,
    ).height)).clamp(Binary32::of(0), Binary32::of(1))
}

/// The colour by height from the stop `i` on.
pub open spec fn color_from(i: int, elevation: Binary32) -> Rgb
    decreases 4 - i,
{
    if i >= 4 {
        spec_color_stop(4).color
    } else if elevation < spec_color_stop(i + 1).height {
        spec_mix_color(
            spec_color_stop(i).color,
            spec_color_stop(i + 1).color,
            stop_share(i, elevation),
        )
    } else {
        color_from(i + 1, elevation)
    }
}

/// The colour by height alone, mixed between the stops.
pub open spec fn height_color(elevation: Binary32) -> Rgb {
    if elevation <= spec_color_stop(0).height {
        spec_color_stop(0).color
    } else {
        color_from(0, elevation)
    }
}

/// How much of a slope is rock: none up to 25 degrees, all from 45 on.
pub open spec fn rockiness(slope: Binary32) -> Binary32 {
    ((slope * Binary32 { bits: DEGREES_PER_RADIAN_BITS } - Binary32::of(25)) / Binary32::of(
        20,
    )).clamp(Binary32::of(0), Binary32::of(1))
}

/// The colour of bare rock.
pub open spec fn rock() -> Rgb {
    Rgb::thousandths(460, 430, 400)
}

/// A number, or zero where it is none.
pub open spec fn finite_or_zero(x: Binary32) -> Binary32 {
    if x.is_finite() {
        x
    } else {
        Binary32::of(0)
    }
}

/// The colour of the ground, as it is named.
pub open spec fn ground_color(elevation: Binary32, slope: Binary32) -> Rgba {
    let mixed = spec_mix_color(
        height_color(finite_or_zero(elevation)),
        rock(),
        rockiness(finite_or_zero(slope)),
    );
    Rgba { red: mixed.red, green: mixed.green, blue: mixed.blue, alpha: Binary32::of(1) }
}

/// The colour of the ground by height, and towards rock where it is steep: a
/// cliff grows no grass, however low it is.
pub fn terrain_color(elevation_metres: Binary32, slope_radians: Binary32) -> (r: Rgba)
    ensures
        r == ground_color(elevation_metres, slope_radians),
{
    proof {
        binary32::lemma_of(0);
        binary32::lemma_of(1);
        binary32::lemma_order(Binary32::of(0), Binary32::of(1));
    }
    let zero = Binary32::of(0);
    let one = Binary32::of(1);
    let elevation = if elevation_metres.is_finite() {
        elevation_metres
    } else {
        zero
    };
    let mut base = color_stop(4).color;
    if elevation.le(color_stop(0).height) {
        base = color_stop(0).color;
    } else {
        let mut i: usize = 0;
        let mut found: bool = false;
        while i < 4 && !found
            invariant
                i <= 4,
                zero == Binary32::of(0),
                one == Binary32::of(1),
                zero <= one,
                !found ==> base == spec_color_stop(4).color && color_from(0, elevation)
                    == color_from(i as int, elevation),
                found ==> base == color_from(0, elevation),
            decreases 4 - i, if found {
                0int
            } else {
                1
            },
        {
            let low = color_stop(i);
            let high = color_stop(i + 1);
            if elevation.lt(high.height) {
                let t = ((elevation - low.height) / (high.height - low.height)).clamp(zero, one);
                base = mix_color(low.color, high.color, t);
                found = true;
            } else {
                i = i + 1;
            }
        }
    }
    let slope = if slope_radians.is_finite() {
        slope_radians
    } else {
        zero
    };
    let rocky = ((slope * Binary32 { bits: DEGREES_PER_RADIAN_BITS } - Binary32::of(25))
        / Binary32::of(20)).clamp(zero, one);
    let mixed = mix_color(base, Rgb::thousandths(460, 430, 400), rocky);
    Rgba { red: mixed.red, green: mixed.green, blue: mixed.blue, alpha: one }
}

/// The entry of a list, zero past its end.
pub open spec fn entry_or_zero(list: Seq<Binary32>, i: int) -> Binary32 {
    if i < list.len() {
        list[i]
    } else {
        Binary32::of(0)
    }
}

/// The linear form of a colour.
pub open spec fn linear_form(color: Rgba) -> LinearColor {
    LinearColor {
        red: srgb_to_linear(color.red),
        green: srgb_to_linear(color.green),
        blue: srgb_to_linear(color.blue),
        alpha: color.alpha,
    }
}

/// The linear colours of all vertices of a tile, exactly one for each. Where a
/// height or a slope is missing it counts as zero.
pub fn terrain_colors(vertices: usize, elevations: &Vec<Binary32>, slopes: &Vec<Binary32>) -> (r:
    Vec<LinearColor>)
    ensures
        r@.len() == vertices,
        forall|i: int|
            0 <= i < vertices ==> #[trigger] r@[i] == linear_form(
                ground_color(entry_or_zero(elevations@, i), entry_or_zero(slopes@, i)),
            ),
{
    let mut colors: Vec<LinearColor> = Vec::new();
    let mut i: usize = 0;
    while i < vertices
        invariant
            i <= vertices,
            colors@.len() == i,
            forall|j: int|
                0 <= j < i ==> #[trigger] colors@[j] == linear_form(
                    ground_color(entry_or_zero(elevations@, j), entry_or_zero(slopes@, j)),
                ),
        decreases vertices - i,
    {
        let elevation = if i < elevations.len() {
            elevations[i]
        } else {
            Binary32::of(0)
        };
        let slope = if i < slopes.len() {
            slopes[i]
        } else {
            Binary32::of(0)
        };
        let color = terrain_color(elevation, slope);
        colors.push(
            LinearColor {
                red: srgb_to_linear(color.red),
                green: srgb_to_linear(color.green),
                blue: srgb_to_linear(color.blue),
                alpha: color.alpha,
            },
        );
        i = i + 1;
    }
    colors
}

/// How finely a tile is meshed.
#[derive(Clone, Copy, PartialEq, Eq, Debug, Structural)]
pub struct MeshOptions {
    /// Vertices along an edge.
    pub resolution: usize,
    /// How far the edges hang down; none leaves it to the mesher.
    pub skirt_depth: Option<Binary64>,
}

/// How finely a tile is meshed; finer levels cover less ground, so one answer
/// does for all.
pub fn mesh_options_for(_level: u8) -> (r: MeshOptions)
    ensures
        r.resolution == 33,
        r.skirt_depth is None,
{
    MeshOptions { resolution: 33, skirt_depth: None }
}

pub open spec fn spec_default_far_plane() -> Binary64 {
    Binary64::of(400_000)
}

/// How far a camera sees in metres: past the horizon at cruise.
#[verifier::when_used_as_spec(spec_default_far_plane)]
pub fn default_far_plane() -> (r: Binary64)
    ensures
        r == default_far_plane(),
{
    Binary64::of(400_000)
}

/// Every channel is a share of one.
pub open spec fn in_unit_range(color: Rgb) -> bool {
    &&& color.red.is_finite() && 0 <= color.red.value() <= Binary32::one()
    &&& color.green.is_finite() && 0 <= color.green.value() <= Binary32::one()
    &&& color.blue.is_finite() && 0 <= color.blue.value() <= Binary32::one()
}

proof fn lemma_mix_in_range(a: Rgb, b: Rgb, t: Binary32)
    requires
        in_unit_range(a),
        in_unit_range(b),
        t.is_finite(),
        0 <= t.value() <= Binary32::one(),
    ensures
        in_unit_range(spec_mix_color(a, b, t)),
{
    smooth::mixing_shares_gives_a_share(a.red, b.red, t);
    smooth::mixing_shares_gives_a_share(a.green, b.green, t);
    smooth::mixing_shares_gives_a_share(a.blue, b.blue, t);
}

proof fn lemma_named_in_range(red: u64, green: u64, blue: u64)
    requires
        0 < red <= 1000,
        0 < green <= 1000,
        0 < blue <= 1000,
    ensures
        in_unit_range(Rgb::thousandths(red, green, blue)),
{
    binary32::lemma_ratio_share(red, 1000);
    binary32::lemma_ratio_share(green, 1000);
    binary32::lemma_ratio_share(blue, 1000);
}

/// A quotient of a number by a positive one, held between zero and one.
proof fn lemma_held_share(top: Binary32, bottom: Binary32)
    requires
        !top.is_nan(),
        bottom.is_finite(),
        bottom.value() > 0,
    ensures
        (top / bottom).clamp(Binary32::of(0), Binary32::of(1)).is_finite(),
        0 <= (top / bottom).clamp(Binary32::of(0), Binary32::of(1)).value() <= Binary32::one(),
{
    let zero = Binary32::of(0);
    let one = Binary32::of(1);
    binary32::lemma_of(0);
    binary32::lemma_of(1);
    if top.is_finite() {
        binary32::lemma_div(top, bottom);
    } else {
        binary32::lemma_div_infinite(top, bottom);
    }
    let share = top / bottom;
    binary32::lemma_order(share, zero);
    binary32::lemma_order(one, share);
    binary32::lemma_finite_below(share.clamp(zero, one), one);
}

proof fn lemma_color_from(i: int, elevation: Binary32)
    requires
        0 <= i <= 4,
        elevation.is_finite(),
    ensures
        in_unit_range(color_from(i, elevation)),
    decreases 4 - i,
{
    lemma_named_in_range(420, 500, 320);
    lemma_named_in_range(340, 450, 260);
    lemma_named_in_range(450, 420, 300);
    lemma_named_in_range(520, 480, 440);
    lemma_named_in_range(920, 930, 950);
    if i < 4 {
        if elevation < spec_color_stop(i + 1).height {
            let low = spec_color_stop(i).height;
            let high = spec_color_stop(i + 1).height;
            lemma_stop_span(i);
            binary32::lemma_negate(low);
            assert(elevation - low == elevation + low.negate());
            binary32::lemma_add(elevation, low.negate());
            lemma_held_share(elevation - low, high - low);
            lemma_mix_in_range(
                spec_color_stop(i).color,
                spec_color_stop(i + 1).color,
                stop_share(i, elevation),
            );
        } else {
            lemma_color_from(i + 1, elevation);
        }
    }
}

/// The stops rise.
proof fn lemma_stop_span(i: int)
    requires
        0 <= i < 4,
    ensures
        spec_color_stop(i).height.is_finite(),
        (spec_color_stop(i + 1).height - spec_color_stop(i).height).is_finite(),
        (spec_color_stop(i + 1).height - spec_color_stop(i).height).value() > 0,
{
    let o = Binary32::one();
    let low = spec_color_stop(i).height;
    let high = spec_color_stop(i + 1).height;
    binary32::lemma_of(0);
    binary32::lemma_of(1);
    binary32::lemma_of(300);
    binary32::lemma_of(900);
    binary32::lemma_of(1800);
    binary32::lemma_of(2600);
    binary32::lemma_negate(low);
    assert(high - low == high + low.negate());
    binary32::lemma_add(high, low.negate());
    let one = Binary32::of(1);
    let top = Binary32::of(2600);
    binary32::lemma_order(one, top);
    binary32::lemma_round_exact(one, 1);
    binary32::lemma_round_exact(top, 1);
    assert(o <= high.value() - low.value() <= 2600 * o) by (nonlinear_arith)
        requires
            o > 0,
            (low.value() == 0 && high.value() == 300 * o) || (low.value() == 300 * o
                && high.value() == 900 * o) || (low.value() == 900 * o && high.value() == 1800 * o)
                || (low.value() == 1800 * o && high.value() == 2600 * o),
    ;
    binary32::lemma_round_monotone(o as int, high.value() - low.value(), 1);
    binary32::lemma_round_monotone(high.value() - low.value(), top.value(), 1);
    binary32::lemma_finite_below(high - low, top);
}

/// Every ground colour is opaque and a colour, even where the height or the
/// slope is no number.
pub proof fn every_ground_color_is_in_the_unit_range(elevation: Binary32, slope: Binary32)
    ensures
        ({
            let color = ground_color(elevation, slope);
            &&& in_unit_range(Rgb { red: color.red, green: color.green, blue: color.blue })
            &&& color.alpha == Binary32::of(1)
        }),
{
    binary32::lemma_of(0);
    let height = finite_or_zero(elevation);
    let tilt = finite_or_zero(slope);
    lemma_named_in_range(420, 500, 320);
    lemma_color_from(0, height);
    lemma_named_in_range(460, 430, 400);
    let factor = Binary32 { bits: DEGREES_PER_RADIAN_BITS };
    assert(factor.is_finite()) by {
        binary32::lemma_bits_finite(factor);
    }
    binary32::lemma_mul(tilt, factor);
    let degrees = tilt * factor;
    binary32::lemma_of(25);
    binary32::lemma_of(20);
    let from = Binary32::of(25);
    binary32::lemma_negate(from);
    assert(degrees - from == degrees + from.negate());
    if degrees.is_finite() {
        binary32::lemma_add(degrees, from.negate());
    } else {
        binary32::lemma_add_infinite(degrees, from.negate());
    }
    lemma_held_share(degrees - from, Binary32::of(20));
    lemma_mix_in_range(height_color(height), rock(), rockiness(tilt));
}

/// Ground that is not steep enough for rock keeps the colour of its height.
pub proof fn flat_ground_keeps_the_color_of_its_height(elevation: Binary32, slope: Binary32)
    requires
        rockiness(finite_or_zero(slope)).value() == 0,
    ensures
        ({
            let color = ground_color(elevation, slope);
            let base = height_color(finite_or_zero(elevation));
            &&& color.red.value() == base.red.value()
            &&& color.green.value() == base.green.value()
            &&& color.blue.value() == base.blue.value()
        }),
{
    binary32::lemma_of(0);
    let height = finite_or_zero(elevation);
    lemma_named_in_range(420, 500, 320);
    lemma_named_in_range(460, 430, 400);
    lemma_color_from(0, height);
    let base = height_color(height);
    let t = rockiness(finite_or_zero(slope));
    lemma_no_mix(base.red, rock().red, t);
    lemma_no_mix(base.green, rock().green, t);
    lemma_no_mix(base.blue, rock().blue, t);
}

proof fn lemma_no_mix(a: Binary32, b: Binary32, t: Binary32)
    requires
        a.is_finite(),
        b.is_finite(),
        0 <= a.value() <= Binary32::one(),
        0 <= b.value() <= Binary32::one(),
        t.value() == 0,
    ensures
        smooth::mix32(a, b, t).value() == a.value(),
{
    let one = Binary32::of(1);
    binary32::lemma_of(1);
    binary32::lemma_of(0);
    binary32::lemma_order(a, b);
    binary32::lemma_order(one, t);
    binary32::lemma_negate(one);
    binary32::lemma_negate(a);
    binary32::lemma_zero_finite(t);
    let gap = b - a;
    assert(gap == b + a.negate());
    binary32::lemma_add(b, a.negate());
    binary32::lemma_round_exact(one, 1);
    binary32::lemma_round_exact(one.negate(), 1);
    binary32::lemma_round_monotone(one.negate().value(), b.value() - a.value(), 1);
    binary32::lemma_round_monotone(b.value() - a.value(), one.value(), 1);
    binary32::lemma_finite_below(gap, one);
    binary32::lemma_zero_factor(t, gap);
    binary32::lemma_add(a, gap * t);
    binary32::lemma_round_exact(a, 1);
}

} // verus!
