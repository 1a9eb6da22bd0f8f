use vstd::prelude::*;

use crate::consts::{MAX_BRICK_HEIGHT, MAX_FLOOR_HEIGHT};
use crate::flow::{FlowField, build_flow_field, spec_bfs};
use crate::hex::{Axial, spec_neighbor_delta};
use crate::hexmap::{HexChunk, HexMap, chunk_q_of, chunk_r_of, col_of, lemma_slot_range};
use crate::rng::{rng_from_seed, rng_height};

verus! {

/// Elevation data of one generated tile.
///
/// `ground_height` is the natural terrain level; `wall_height` is the
/// occupied/solid level used for connectivity and for the tallest-height
/// bound (it starts equal to the ground and rises when walls are built).
#[derive(Clone, Copy, Debug)]
pub struct HexTileData {
    pub ground_height: u8,
    pub wall_height: u8,
}

impl HexTileData {
    pub fn new(height: u8) -> (t: HexTileData)
        ensures
            t.ground_height == height,
            t.wall_height == height,
    {
        HexTileData { ground_height: height, wall_height: height }
    }

    /// The height that the connectivity rule and rendering layers read.
    pub fn get_height(&self) -> (h: u8)
        ensures
            h == self.wall_height,
    {
        self.wall_height
    }
}

/// The tag a flow-field slot carries: the direction of the next hop
/// toward the nearest goal, or `Goal` for a goal tile itself.
#[derive(Clone, Copy, Debug, PartialEq, Eq, Structural)]
pub enum HexPathNode {
    TopLeft,
    TopRight,
    Right,
    BottomRight,
    BottomLeft,
    Left,
    Goal,
}

impl HexPathNode {
    /// The axial offset a tag stands for; `Goal` moves nowhere.
    pub open spec fn delta(self) -> (int, int) {
        match self {
            HexPathNode::TopLeft => (0, -1),
            HexPathNode::TopRight => (1, -1),
            HexPathNode::Right => (1, 0),
            HexPathNode::BottomRight => (0, 1),
            HexPathNode::BottomLeft => (-1, 1),
            HexPathNode::Left => (-1, 0),
            HexPathNode::Goal => (0, 0),
        }
    }

    /// The tag whose delta is `start - end`, for two equal or adjacent
    /// hexes: the direction that leads from `end` back to `start`.
    pub fn from_hexes(start: Axial, end: Axial) -> (n: HexPathNode)
        requires
            (exists|i: int|
                0 <= i < 6 && start.q - end.q == #[trigger] spec_neighbor_delta(i).0 && start.r
                    - end.r == spec_neighbor_delta(i).1) || start == end,
        ensures
            n.delta() == (start.q - end.q, start.r - end.r),
            n == HexPathNode::Goal <==> start == end,
    {
        let dq = start.q as i64 - end.q as i64;
        let dr = start.r as i64 - end.r as i64;
        proof {
            if start != end {
                let i = choose|i: int|
                    0 <= i < 6 && start.q - end.q == #[trigger] spec_neighbor_delta(i).0 && start.r
                        - end.r == spec_neighbor_delta(i).1;
                assert(0 <= i < 6);
            }
        }
        if dq == 0 && dr == -1 {
            HexPathNode::TopLeft
        } else if dq == 1 && dr == -1 {
            HexPathNode::TopRight
        } else if dq == 1 && dr == 0 {
            HexPathNode::Right
        } else if dq == 0 && dr == 1 {
            HexPathNode::BottomRight
        } else if dq == -1 && dr == 1 {
            HexPathNode::BottomLeft
        } else if dq == -1 && dr == 0 {
            HexPathNode::Left
        } else {
            HexPathNode::Goal
        }
    }

    /// The axial offset of the tag, as a coordinate value.
    pub fn to_hexes(&self) -> (d: Axial)
        ensures
            (d.q as int, d.r as int) == self.delta(),
    {
        let (q, r): (i32, i32) = match self {
            HexPathNode::TopLeft => (0, -1),
            HexPathNode::TopRight => (1, -1),
            HexPathNode::Right => (1, 0),
            HexPathNode::BottomRight => (0, 1),
            HexPathNode::BottomLeft => (-1, 1),
            HexPathNode::Left => (-1, 0),
            HexPathNode::Goal => (0, 0),
        };
        Axial { q, r }
    }
}

/// Where following a tag from `t` lands, in unbounded coordinates.
pub open spec fn step_q(t: Axial, n: HexPathNode) -> int {
    t.q + n.delta().0
}

pub open spec fn step_r(t: Axial, n: HexPathNode) -> int {
    t.r + n.delta().1
}

/// Whether the landing hex is representable in 32-bit coordinates.
pub open spec fn step_in_range(t: Axial, n: HexPathNode) -> bool {
    i32::MIN <= step_q(t, n) <= i32::MAX && i32::MIN <= step_r(t, n) <= i32::MAX
}

/// The hex one hop along a tag from `t`.
pub open spec fn spec_step(t: Axial, n: HexPathNode) -> Axial {
    Axial { q: step_q(t, n) as i32, r: step_r(t, n) as i32 }
}

/// Recoverable failure of a terrain edit.
#[derive(Clone, Copy, Debug, PartialEq, Eq, Structural)]
pub enum TerrainError {
    /// The tile's chunk was never generated; chunks must be inserted
    /// before single tiles are written.
    UngeneratedChunk,
}

/// The chunked elevation store, plus the tallest wall height ever
/// present, kept as a safe upper bound for rendering layers (it only
/// rises, it is never lowered by an edit).
pub struct Terrain {
    grid: HexMap<HexTileData>,
    tallest: u8,
}

impl View for Terrain {
    type V = Map<Axial, HexTileData>;

    closed spec fn view(&self) -> Map<Axial, HexTileData> {
        self.grid@
    }
}

impl Terrain {
    /// One tile respects the configured maxima: natural ground never
    /// exceeds `MAX_FLOOR_HEIGHT` and built walls never exceed
    /// `MAX_BRICK_HEIGHT`.
    pub open spec fn tile_bounded(t: HexTileData) -> bool {
        t.ground_height <= MAX_FLOOR_HEIGHT && t.wall_height <= MAX_BRICK_HEIGHT
    }

    /// The grid is well formed, every tile respects the configured
    /// maxima, and `tallest` bounds every wall height.
    pub closed spec fn wf(self) -> bool {
        &&& self.grid.wf()
        &&& forall|a: Axial|
            self.grid@.dom().contains(a) ==> (#[trigger] self.grid@[a]).wall_height
                <= self.tallest
        &&& forall|a: Axial|
            self.grid@.dom().contains(a) ==> Terrain::tile_bounded(#[trigger] self.grid@[a])
    }

    /// A tile that exists lies in a registered chunk, so overwriting it
    /// succeeds.
    pub proof fn lemma_contains_has_chunk(self, a: Axial)
        requires
            self.wf(),
            self@.contains_key(a),
        ensures
            self.has_chunk_at(chunk_q_of(a), chunk_r_of(a)),
    {
        self.grid.lemma_contains_has_chunk(a);
    }

    pub closed spec fn tallest_spec(self) -> u8 {
        self.tallest
    }

    pub closed spec fn has_chunk_at(self, cq: int, cr: int) -> bool {
        self.grid.has_chunk_at(cq, cr)
    }

    /// An empty terrain with no generated chunks.
    pub fn new() -> (t: Terrain)
        ensures
            t.wf(),
            t@ == Map::<Axial, HexTileData>::empty(),
            t.tallest_spec() == 0,
            forall|cq: int, cr: int| !t.has_chunk_at(cq, cr),
    {
        Terrain { grid: HexMap::new(), tallest: 0 }
    }

    /// Looks a tile up; `None` means its chunk or its slot was never
    /// generated.
    pub fn get_tile(&self, a: Axial) -> (r: Option<HexTileData>)
        requires
            self.wf(),
        ensures
            r == (if self@.contains_key(a) {
                Some(self@[a])
            } else {
                None::<HexTileData>
            }),
    {
        self.grid.get_tile(a)
    }

    /// The tallest wall height present (or ever present) in the terrain.
    pub fn tallest_height(&self) -> (h: u8)
        requires
            self.wf(),
        ensures
            h == self.tallest_spec(),
            forall|a: Axial| self@.dom().contains(a) ==> (#[trigger] self@[a]).wall_height <= h,
    {
        self.tallest
    }

    /// Overwrites the tile of `a`.  Writing to a never-generated chunk is
    /// a caller bug and is reported as an error, with the terrain left
    /// unchanged.  Raises `tallest` when the write exceeds it.
    pub fn set_tile(&mut self, a: Axial, t: HexTileData) -> (r: Result<(), TerrainError>)
        requires
            old(self).wf(),
            Terrain::tile_bounded(t),
        ensures
            final(self).wf(),
            r is Ok <==> old(self).has_chunk_at(chunk_q_of(a), chunk_r_of(a)),
            r is Ok ==> final(self)@ == old(self)@.insert(a, t),
            r is Ok ==> final(self).tallest_spec() == (if t.wall_height > old(
                self,
            ).tallest_spec() {
                t.wall_height
            } else {
                old(self).tallest_spec()
            }),
            r is Err ==> *final(self) == *old(self) && r == Err::<(), TerrainError>(
                TerrainError::UngeneratedChunk,
            ),
            forall|cq: int, cr: int|
                final(self).has_chunk_at(cq, cr) == old(self).has_chunk_at(cq, cr),
    {
        if t.wall_height > self.tallest {
            let ghost prev = *self;
            let ok = self.grid.set_tile(a, t);
            if ok {
                self.tallest = t.wall_height;
                Ok(())
            } else {
                proof {
                    assert(*self == prev);
                }
                Err(TerrainError::UngeneratedChunk)
            }
        } else {
            let ok = self.grid.set_tile(a, t);
            if ok {
                Ok(())
            } else {
                Err(TerrainError::UngeneratedChunk)
            }
        }
    }

    /// Registers a generated chunk at a fresh chunk coordinate and folds
    /// its wall heights into `tallest`.
    pub fn insert_chunk(&mut self, c: HexChunk<HexTileData>)
        requires
            old(self).wf(),
            c.wf(),
            !old(self).has_chunk_at(c.coord_q(), c.coord_r()),
            forall|li: int|
                0 <= li < 256 && c.slot(li) is Some ==> Terrain::tile_bounded(
                    (#[trigger] c.slot(li))->Some_0,
                ),
        ensures
            final(self).wf(),
            final(self)@ == old(self)@.union_prefer_right(c.as_map()),
            final(self).tallest_spec() >= old(self).tallest_spec(),
            final(self).tallest_spec() == old(self).tallest_spec() || exists|li: int|
                0 <= li < 256 && #[trigger] c.slot(li) is Some && c.slot(li)->Some_0.wall_height
                    == final(self).tallest_spec(),
            forall|cq: int, cr: int|
                final(self).has_chunk_at(cq, cr) == (old(self).has_chunk_at(cq, cr) || (cq
                    == c.coord_q() && cr == c.coord_r())),
    {
        let mut m = self.tallest;
        let mut li: usize = 0;
        while li < 256
            invariant
                c.wf(),
                m >= self.tallest,
                forall|j: int|
                    0 <= j < li && c.slot(j) is Some ==> (#[trigger] c.slot(j))->Some_0.wall_height
                        <= m,
                m == self.tallest || exists|j: int|
                    0 <= j < 256 && #[trigger] c.slot(j) is Some && c.slot(j)->Some_0.wall_height
                        == m,
            decreases 256 - li,
        {
            if let Some(t) = self.chunk_slot_copy(&c, li) {
                if t.wall_height > m {
                    m = t.wall_height;
                    proof {
                        assert(c.slot(li as int) is Some && c.slot(li as int)->Some_0.wall_height
                            == m);
                    }
                }
            }
            li += 1;
        }
        self.tallest = m;
        self.grid.insert_chunk(c);
        proof {
            assert forall|a: Axial| self.grid@.dom().contains(a) implies (
            #[trigger] self.grid@[a]).wall_height <= self.tallest && Terrain::tile_bounded(
                self.grid@[a],
            ) by {
                if c.as_map().contains_key(a) {
                    lemma_slot_range(a);
                }
            }
        }
    }

    /// Copies one slot out of a chunk (helper around the borrowed read).
    fn chunk_slot_copy(&self, c: &HexChunk<HexTileData>, li: usize) -> (s: Option<HexTileData>)
        requires
            c.wf(),
            li < 256,
        ensures
            s == c.slot(li as int),
    {
        *c.slot_at(li)
    }

    /// The terrain holds finitely many generated tiles.
    pub proof fn lemma_dom_finite(self)
        ensures
            self@.dom().finite(),
    {
        self.grid.lemma_dom_finite();
    }

    /// Lowers the tile of `a` one step, following the edit rules: a
    /// ground ledge above the wall sinks first, then a wall above the
    /// ground, then both together; a tile at level zero cannot sink.
    /// `None` when nothing changed (tile absent or already at zero).
    pub fn lower_tile(&mut self, a: Axial) -> (r: Option<HexTileData>)
        requires
            old(self).wf(),
        ensures
            final(self).wf(),
            final(self).tallest_spec() == old(self).tallest_spec(),
            forall|cq: int, cr: int|
                final(self).has_chunk_at(cq, cr) == old(self).has_chunk_at(cq, cr),
            !old(self)@.contains_key(a) ==> r is None,
            old(self)@.contains_key(a) ==> r == spec_lowered(old(self)@[a]),
            r matches Some(t) ==> final(self)@ == old(self)@.insert(a, t),
            r is None ==> *final(self) == *old(self),
    {
        let cur = match self.get_tile(a) {
            Some(cur) => cur,
            None => {
                return None;
            },
        };
        proof {
            self.lemma_contains_has_chunk(a);
        }
        let new_tile = if cur.ground_height > cur.wall_height && cur.ground_height > 0 {
            HexTileData { ground_height: cur.ground_height - 1, wall_height: cur.wall_height }
        } else if cur.wall_height > cur.ground_height && cur.wall_height > 0 {
            HexTileData { ground_height: cur.ground_height, wall_height: cur.wall_height - 1 }
        } else if cur.wall_height == cur.ground_height && cur.wall_height > 0 {
            HexTileData { ground_height: cur.ground_height - 1, wall_height: cur.wall_height - 1 }
        } else {
            return None;
        };
        let res = self.set_tile(a, new_tile);
        proof {
            assert(res is Ok);
        }
        Some(new_tile)
    }

    /// Raises the tile of `a` one step, following the edit rules: a wall
    /// below a ground ledge snaps to one above it, otherwise the wall
    /// grows by one up to the configured maximum.  `None` when nothing
    /// changed (tile absent or wall already at the maximum).
    pub fn raise_tile(&mut self, a: Axial) -> (r: Option<HexTileData>)
        requires
            old(self).wf(),
        ensures
            final(self).wf(),
            forall|cq: int, cr: int|
                final(self).has_chunk_at(cq, cr) == old(self).has_chunk_at(cq, cr),
            !old(self)@.contains_key(a) ==> r is None,
            old(self)@.contains_key(a) ==> r == spec_raised(old(self)@[a]),
            r matches Some(t) ==> final(self)@ == old(self)@.insert(a, t)
                && final(self).tallest_spec() == (if t.wall_height > old(self).tallest_spec() {
                t.wall_height
            } else {
                old(self).tallest_spec()
            }),
            r is None ==> *final(self) == *old(self),
    {
        let cur = match self.get_tile(a) {
            Some(cur) => cur,
            None => {
                return None;
            },
        };
        proof {
            self.lemma_contains_has_chunk(a);
        }
        let new_tile = if cur.ground_height > cur.wall_height {
            HexTileData { ground_height: cur.ground_height, wall_height: cur.ground_height + 1 }
        } else if cur.wall_height < MAX_BRICK_HEIGHT {
            HexTileData { ground_height: cur.ground_height, wall_height: cur.wall_height + 1 }
        } else {
            return None;
        };
        let res = self.set_tile(a, new_tile);
        proof {
            assert(res is Ok);
        }
        Some(new_tile)
    }
}

/// The hexes covered by the chunks that `Map::new` generates.
pub open spec fn start_region(a: Axial) -> bool {
    -16 <= col_of(a) < 16 && -16 <= a.r < 16
}

/// One procedurally generated chunk: every slot holds a tile whose
/// ground and wall sit at one random height within the floor maximum.
fn gen_chunk(rng: &mut rand::rngs::StdRng, cq: i32, cr: i32) -> (c: HexChunk<HexTileData>)
    ensures
        c.wf(),
        c.coord_q() == cq,
        c.coord_r() == cr,
        forall|li: int|
            0 <= li < 256 ==> #[trigger] c.slot(li) is Some && c.slot(li)->Some_0.ground_height
                == c.slot(li)->Some_0.wall_height && c.slot(li)->Some_0.wall_height
                <= MAX_FLOOR_HEIGHT,
{
    let mut tiles: Vec<Option<HexTileData>> = Vec::new();
    let mut i: usize = 0;
    while i < 256
        invariant
            i <= 256,
            tiles@.len() == i,
            forall|li: int|
                0 <= li < i ==> #[trigger] tiles@[li] is Some && tiles@[li]->Some_0.ground_height
                    == tiles@[li]->Some_0.wall_height && tiles@[li]->Some_0.wall_height
                    <= MAX_FLOOR_HEIGHT,
        decreases 256 - i,
    {
        let h = rng_height(rng, MAX_FLOOR_HEIGHT);
        tiles.push(Some(HexTileData::new(h)));
        i += 1;
    }
    HexChunk::new(tiles, cq, cr)
}

/// The terrain grid and the flow field currently derived from it.
pub struct GameMap {
    pub terrain: Terrain,
    pub dijkstra: FlowField,
}

impl GameMap {
    pub open spec fn wf(self) -> bool {
        self.terrain.wf() && self.dijkstra.wf()
    }

    /// Builds the session map: a 2 x 2 block of procedurally generated
    /// chunks around the origin, and the flow field toward the base tile.
    pub fn new() -> (m: GameMap)
        ensures
            m.wf(),
            forall|a: Axial| m.terrain@.contains_key(a) <==> start_region(a),
            forall|a: Axial|
                m.terrain@.contains_key(a) ==> (#[trigger] m.terrain@[a]).ground_height
                    == m.terrain@[a].wall_height && m.terrain@[a].wall_height <= MAX_FLOOR_HEIGHT,
            m.dijkstra.is_field_for(m.terrain@, seq![Axial { q: 10, r: 5 }]),
            m.dijkstra.labels() == spec_bfs(m.terrain@, seq![Axial { q: 10, r: 5 }]).labels,
    {
        let mut terrain = Terrain::new();
        let mut rng = rng_from_seed(10);
        let mut qi: usize = 0;
        while qi < 2
            invariant
                terrain.wf(),
                qi <= 2,
                forall|cq: int, cr: int|
                    terrain.has_chunk_at(cq, cr) <==> (-1 <= cr <= 0 && cq + 1 < qi && 0 <= cq
                        + 1),
                forall|a: Axial| #[trigger]
                    terrain@.contains_key(a) <==> terrain.has_chunk_at(
                        chunk_q_of(a),
                        chunk_r_of(a),
                    ),
                forall|a: Axial|
                    terrain@.contains_key(a) ==> (#[trigger] terrain@[a]).ground_height
                        == terrain@[a].wall_height && terrain@[a].wall_height <= MAX_FLOOR_HEIGHT,
            decreases 2 - qi,
        {
            let mut ri: usize = 0;
            while ri < 2
                invariant
                    terrain.wf(),
                    qi < 2,
                    ri <= 2,
                    forall|cq: int, cr: int|
                        terrain.has_chunk_at(cq, cr) <==> ((-1 <= cr <= 0 && cq + 1 < qi && 0 <= cq
                            + 1) || (cq + 1 == qi && cr + 1 < ri && 0 <= cr + 1)),
                    forall|a: Axial| #[trigger]
                        terrain@.contains_key(a) <==> terrain.has_chunk_at(
                            chunk_q_of(a),
                            chunk_r_of(a),
                        ),
                    forall|a: Axial|
                        terrain@.contains_key(a) ==> (#[trigger] terrain@[a]).ground_height
                            == terrain@[a].wall_height && terrain@[a].wall_height
                            <= MAX_FLOOR_HEIGHT,
                decreases 2 - ri,
            {
                let c = gen_chunk(&mut rng, qi as i32 - 1, ri as i32 - 1);
                let ghost pre = terrain;
                terrain.insert_chunk(c);
                proof {
                    assert forall|a: Axial| #[trigger]
                        terrain@.contains_key(a) <==> terrain.has_chunk_at(
                            chunk_q_of(a),
                            chunk_r_of(a),
                        ) by {
                        lemma_slot_range(a);
                        if c.covers(a) {
                            assert(c.as_map().contains_key(a));
                        }
                    }
                    assert forall|a: Axial|
                        terrain@.contains_key(a) implies (#[trigger] terrain@[a]).ground_height
                        == terrain@[a].wall_height && terrain@[a].wall_height
                        <= MAX_FLOOR_HEIGHT by {
                        if c.as_map().contains_key(a) {
                            lemma_slot_range(a);
                        }
                    }
                }
                ri += 1;
            }
            qi += 1;
        }
        let goals: Vec<Axial> = vec![Axial::new(10, 5)];
        let dijkstra = build_flow_field(&terrain, &goals);
        let m = GameMap { terrain, dijkstra };
        proof {
            assert forall|a: Axial| m.terrain@.contains_key(a) <==> start_region(a) by {
                lemma_slot_range(a);
            }
            assert(goals@ =~= seq![Axial { q: 10, r: 5 }]);
        }
        m
    }

    /// Flattens one tile to the given level (ground and wall together),
    /// as base placement does.  The tile's chunk must exist; otherwise
    /// the error is reported and nothing changes.
    pub fn flatten_tile(&mut self, a: Axial, height: u8) -> (r: Result<(), TerrainError>)
        requires
            old(self).wf(),
            height <= MAX_FLOOR_HEIGHT,
        ensures
            final(self).wf(),
            r is Ok <==> old(self).terrain.has_chunk_at(chunk_q_of(a), chunk_r_of(a)),
            r is Ok ==> final(self).terrain@ == old(self).terrain@.insert(
                a,
                HexTileData { ground_height: height, wall_height: height },
            ),
            r is Err ==> final(self).terrain == old(self).terrain,
            final(self).dijkstra == old(self).dijkstra,
    {
        self.terrain.set_tile(a, HexTileData::new(height))
    }

    /// Recomputes the flow field from the current terrain and the given
    /// goal set, replacing the old field wholesale.
    pub fn update_dijkstra(&mut self, goals: &Vec<Axial>)
        requires
            old(self).wf(),
        ensures
            final(self).wf(),
            final(self).terrain == old(self).terrain,
            final(self).dijkstra.is_field_for(final(self).terrain@, goals@),
            final(self).dijkstra.labels() == spec_bfs(final(self).terrain@, goals@).labels,
            final(self).dijkstra.levels() == spec_bfs(final(self).terrain@, goals@).levels,
    {
        self.dijkstra = build_flow_field(&self.terrain, goals);
    }

    /// Follows the current flow field from `start`; see
    /// `FlowField::get_path`.
    pub fn get_path(&self, start: Axial) -> (r: Option<Vec<Axial>>)
        requires
            self.wf(),
        ensures
            r is Some <==> self.dijkstra.labels().contains_key(start),
            r matches Some(p) ==> {
                &&& p@.len() == self.dijkstra.levels()[start]
                &&& (p@.len() == 0 <==> self.dijkstra.labels()[start] == HexPathNode::Goal)
                &&& (p@.len() > 0 ==> p@[0] == spec_step(start, self.dijkstra.labels()[start])
                    && self.dijkstra.labels()[p@[p@.len() - 1]] == HexPathNode::Goal)
                &&& forall|i: int|
                    0 <= i < p@.len() ==> self.dijkstra.labels().contains_key(#[trigger] p@[i])
                        && self.dijkstra.levels()[p@[i]] == self.dijkstra.levels()[start] - 1 - i
                &&& forall|i: int|
                    0 <= i < p@.len() - 1 ==> #[trigger] p@[i + 1] == spec_step(
                        p@[i],
                        self.dijkstra.labels()[p@[i]],
                    )
                &&& forall|i: int| 0 <= i < p@.len() ==> #[trigger] p@[i] != start
                &&& forall|i: int, j: int| 0 <= i < j < p@.len() ==> p@[i] != p@[j]
            },
    {
        self.dijkstra.get_path(start)
    }
}

/// Recomputes a flow field grid in place from a terrain and a goal set.
pub fn update_dijkstra_hexmap(terrain: &Terrain, dijkstra: &mut FlowField, goals: &Vec<Axial>)
    requires
        terrain.wf(),
    ensures
        final(dijkstra).wf(),
        final(dijkstra).is_field_for(terrain@, goals@),
        final(dijkstra).labels() == spec_bfs(terrain@, goals@).labels,
        final(dijkstra).levels() == spec_bfs(terrain@, goals@).levels,
{
    *dijkstra = build_flow_field(terrain, goals);
}

/// The lowering edit rule, as a function of the old tile.
pub open spec fn spec_lowered(t: HexTileData) -> Option<HexTileData> {
    if t.ground_height > t.wall_height && t.ground_height > 0 {
        Some(
            HexTileData {
                ground_height: (t.ground_height - 1) as u8,
                wall_height: t.wall_height,
            },
        )
    } else if t.wall_height > t.ground_height && t.wall_height > 0 {
        Some(
            HexTileData {
                ground_height: t.ground_height,
                wall_height: (t.wall_height - 1) as u8,
            },
        )
    } else if t.wall_height == t.ground_height && t.wall_height > 0 {
        Some(
            HexTileData {
                ground_height: (t.ground_height - 1) as u8,
                wall_height: (t.wall_height - 1) as u8,
            },
        )
    } else {
        None
    }
}

/// The raising edit rule, as a function of the old tile.  Only holds of
/// tiles within the configured maxima (terrain never stores others).
pub open spec fn spec_raised(t: HexTileData) -> Option<HexTileData> {
    if t.ground_height > t.wall_height {
        Some(
            HexTileData {
                ground_height: t.ground_height,
                wall_height: (t.ground_height + 1) as u8,
            },
        )
    } else if t.wall_height < MAX_BRICK_HEIGHT {
        Some(
            HexTileData {
                ground_height: t.ground_height,
                wall_height: (t.wall_height + 1) as u8,
            },
        )
    } else {
        None
    }
}

} // verus!
