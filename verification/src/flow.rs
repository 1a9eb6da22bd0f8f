use vstd::prelude::*;

use crate::hex::{Axial, neighbor_delta, spec_adjacent, spec_neighbor_delta};
use crate::hexmap::HexMap;
use crate::map::{HexPathNode, HexTileData, Terrain, spec_step, step_in_range};

verus! {

/// The connectivity rule: two adjacent tiles are traversable between each
/// other iff their occupied heights differ by at most one.
pub open spec fn traversable(t1: HexTileData, t2: HexTileData) -> bool {
    -1 <= t1.wall_height - t2.wall_height <= 1
}

/// Navigation soundness of a flow field: every labeled tile carries a
/// level (its distance certificate), goal tags sit exactly on level zero,
/// and every directional tag points at a labeled tile exactly one level
/// nearer a goal.  Following tags therefore always terminates at a goal.
pub open spec fn nav_ok(labels: Map<Axial, HexPathNode>, levels: Map<Axial, nat>) -> bool {
    &&& levels.dom() == labels.dom()
    &&& forall|a: Axial| #[trigger] tile_nav_ok(labels, levels, a)
}

/// Navigation soundness at one tile: if it is labeled, a goal tag sits
/// there exactly when its level is zero, and a directional tag points at
/// a labeled tile exactly one level nearer a goal.
pub open spec fn tile_nav_ok(
    labels: Map<Axial, HexPathNode>,
    levels: Map<Axial, nat>,
    a: Axial,
) -> bool {
    labels.dom().contains(a) ==> {
        &&& (labels[a] == HexPathNode::Goal <==> levels[a] == 0)
        &&& labels[a] != HexPathNode::Goal ==> step_in_range(a, labels[a])
            && labels.dom().contains(spec_step(a, labels[a])) && levels[spec_step(a, labels[a])]
            + 1 == levels[a]
    }
}

/// Whether the `i`-th neighbor of `a` is representable in 32-bit
/// coordinates.
pub open spec fn nbr_in_range(a: Axial, i: int) -> bool {
    i32::MIN <= a.q + spec_neighbor_delta(i).0 <= i32::MAX && i32::MIN <= a.r
        + spec_neighbor_delta(i).1 <= i32::MAX
}

/// The `i`-th neighbor of `a`, in the canonical enumeration order.
pub open spec fn nbr(a: Axial, i: int) -> Axial {
    Axial {
        q: (a.q + spec_neighbor_delta(i).0) as i32,
        r: (a.r + spec_neighbor_delta(i).1) as i32,
    }
}

/// Completeness at one tile and one neighbor direction: expansion never
/// stops early.  If a labeled tile sits on generated terrain and its
/// `i`-th neighbor is generated and traversable from it, that neighbor is
/// labeled too.  Together with the soundness clauses this pins the
/// labeled set: every tile reachable from a goal across traversable
/// edges is labeled, and nothing else is.
pub open spec fn tile_expanded(
    labels: Map<Axial, HexPathNode>,
    terrain: Map<Axial, HexTileData>,
    a: Axial,
    i: int,
) -> bool {
    labels.contains_key(a) && terrain.contains_key(a) && 0 <= i < 6 && nbr_in_range(a, i)
        && terrain.contains_key(nbr(a, i)) && traversable(terrain[a], terrain[nbr(a, i)])
        ==> labels.contains_key(nbr(a, i))
}

/// Whether `a` can be reached from the goal set in at most `n` hops,
/// each hop crossing a traversable edge between generated tiles.  Goals
/// themselves are reached in zero hops, wherever they lie.
pub open spec fn reach(
    terrain: Map<Axial, HexTileData>,
    goals: Seq<Axial>,
    a: Axial,
    n: nat,
) -> bool
    decreases n,
{
    if n == 0 {
        goals.contains(a)
    } else {
        reach(terrain, goals, a, (n - 1) as nat) || exists|i: int|
            0 <= i < 6 && nbr_in_range(a, i) && terrain.contains_key(a) && terrain.contains_key(
                #[trigger] nbr(a, i),
            ) && traversable(terrain[a], terrain[nbr(a, i)]) && reach(
                terrain,
                goals,
                nbr(a, i),
                (n - 1) as nat,
            )
    }
}

/// The opposite neighbor direction: the delta of `reverse_idx(i)` is the
/// negation of the delta of `i`.
pub open spec fn reverse_idx(i: int) -> int {
    if i < 3 {
        i + 3
    } else {
        i - 3
    }
}

/// Local optimality at one tile and one neighbor direction: a breadth
/// first expansion never labels two traversable neighbors more than one
/// level apart.
pub open spec fn tile_local_opt(
    labels: Map<Axial, HexPathNode>,
    levels: Map<Axial, nat>,
    terrain: Map<Axial, HexTileData>,
    a: Axial,
    i: int,
) -> bool {
    labels.contains_key(a) && terrain.contains_key(a) && 0 <= i < 6 && nbr_in_range(a, i)
        && terrain.contains_key(nbr(a, i)) && traversable(terrain[a], terrain[nbr(a, i)])
        && labels.contains_key(nbr(a, i)) ==> levels[nbr(a, i)] <= levels[a] + 1
}

/// A built flow field: a chunked grid of direction tags plus the ghost
/// level certificate of the breadth-first build that produced it.
pub struct FlowField {
    grid: HexMap<HexPathNode>,
    levels: Ghost<Map<Axial, nat>>,
}

impl FlowField {
    /// The direction tags, keyed by hex coordinate; unreached tiles are
    /// absent.
    pub closed spec fn labels(self) -> Map<Axial, HexPathNode> {
        self.grid@
    }

    /// The breadth-first level at which each labeled tile was reached;
    /// goals sit at level zero.
    pub closed spec fn levels(self) -> Map<Axial, nat> {
        self.levels@
    }

    pub closed spec fn storage_ok(self) -> bool {
        self.grid.wf()
    }

    /// Every flow field the library hands out satisfies this.
    pub open spec fn wf(self) -> bool {
        self.storage_ok() && nav_ok(self.labels(), self.levels())
    }

    /// How a field relates to the terrain and goal set it was built from:
    /// exactly the goal tiles carry the terminal tag, and every other
    /// labeled tile points one step along generated, traversable terrain.
    pub open spec fn is_field_for(
        self,
        terrain: Map<Axial, HexTileData>,
        goals: Seq<Axial>,
    ) -> bool {
        &&& forall|i: int|
            0 <= i < goals.len() ==> self.labels().contains_key(#[trigger] goals[i])
                && self.labels()[goals[i]] == HexPathNode::Goal
        &&& forall|a: Axial| #[trigger]
            self.labels().contains_key(a) && self.labels()[a] == HexPathNode::Goal
                ==> goals.contains(a)
        &&& forall|a: Axial| #[trigger]
            self.labels().contains_key(a) && self.labels()[a] != HexPathNode::Goal
                ==> terrain.contains_key(a) && terrain.contains_key(spec_step(a, self.labels()[a]))
                && traversable(terrain[a], terrain[spec_step(a, self.labels()[a])])
        &&& forall|a: Axial, i: int| #[trigger] tile_expanded(self.labels(), terrain, a, i)
        &&& forall|a: Axial, i: int| #[trigger]
            tile_local_opt(self.labels(), self.levels(), terrain, a, i)
    }

    /// An empty field: nothing labeled.
    pub fn new() -> (f: FlowField)
        ensures
            f.wf(),
            f.labels() == Map::<Axial, HexPathNode>::empty(),
    {
        FlowField { grid: HexMap::new(), levels: Ghost(Map::empty()) }
    }

    /// Follows the stored tags from `start`, one hop at a time, until the
    /// terminal tag: the ordered tile sequence toward the nearest goal.
    ///
    /// `None` means `start` was never reached by the build.  Otherwise
    /// the walk visits one tile per level, never revisits a tile, and its
    /// last tile (when `start` is not itself a goal) carries the terminal
    /// tag.
    pub fn get_path(&self, start: Axial) -> (r: Option<Vec<Axial>>)
        requires
            self.wf(),
        ensures
            r is Some <==> self.labels().contains_key(start),
            r matches Some(p) ==> {
                &&& p@.len() == self.levels()[start]
                &&& (p@.len() == 0 <==> self.labels()[start] == HexPathNode::Goal)
                &&& (p@.len() > 0 ==> p@[0] == spec_step(start, self.labels()[start])
                    && self.labels()[p@[p@.len() - 1]] == HexPathNode::Goal)
                &&& forall|i: int|
                    0 <= i < p@.len() ==> self.labels().contains_key(#[trigger] p@[i])
                        && self.levels()[p@[i]] == self.levels()[start] - 1 - i
                &&& forall|i: int|
                    0 <= i < p@.len() - 1 ==> #[trigger] p@[i + 1] == spec_step(
                        p@[i],
                        self.labels()[p@[i]],
                    )
                &&& forall|i: int| 0 <= i < p@.len() ==> #[trigger] p@[i] != start
                &&& forall|i: int, j: int| 0 <= i < j < p@.len() ==> p@[i] != p@[j]
            },
    {
        if self.grid.get_tile(start).is_none() {
            return None;
        }
        let mut path: Vec<Axial> = Vec::new();
        let mut cur = start;
        loop
            invariant
                self.wf(),
                self.labels().contains_key(start),
                self.labels().contains_key(cur),
                self.levels()[cur] == self.levels()[start] - path@.len(),
                path@.len() <= self.levels()[start],
                path@.len() == 0 ==> cur == start,
                path@.len() > 0 ==> cur == path@[path@.len() - 1] && path@[0] == spec_step(
                    start,
                    self.labels()[start],
                ),
                forall|i: int|
                    0 <= i < path@.len() ==> self.labels().contains_key(#[trigger] path@[i])
                        && self.levels()[path@[i]] == self.levels()[start] - 1 - i,
                forall|i: int|
                    0 <= i < path@.len() - 1 ==> #[trigger] path@[i + 1] == spec_step(
                        path@[i],
                        self.labels()[path@[i]],
                    ),
            decreases self.levels()[cur],
        {
            proof {
                assert(tile_nav_ok(self.labels(), self.levels(), cur));
            }
            let tag = self.grid.get_tile(cur).unwrap();
            if tag == HexPathNode::Goal {
                proof {
                    assert(self.levels()[cur] == 0);
                    assert(path@.len() == self.levels()[start]);
                    assert forall|i: int, j: int|
                        0 <= i < j < path@.len() implies path@[i] != path@[j] by {
                        assert(self.levels()[path@[i]] != self.levels()[path@[j]]);
                    }
                    assert forall|i: int| 0 <= i < path@.len() implies #[trigger] path@[i]
                        != start by {
                        assert(self.levels()[path@[i]] < self.levels()[start]);
                    }
                }
                return Some(path);
            }
            let d = tag.to_hexes();
            proof {
                assert(step_in_range(cur, tag));
            }
            let nq = cur.q as i64 + d.q as i64;
            let nr = cur.r as i64 + d.r as i64;
            let nxt = Axial { q: nq as i32, r: nr as i32 };
            proof {
                assert(nxt == spec_step(cur, tag));
            }
            path.push(nxt);
            cur = nxt;
        }
    }

    /// Reads the tag of one tile, if the tile was reached by the build.
    pub fn get_label(&self, a: Axial) -> (r: Option<HexPathNode>)
        requires
            self.wf(),
        ensures
            r == (if self.labels().contains_key(a) {
                Some(self.labels()[a])
            } else {
                None::<HexPathNode>
            }),
    {
        self.grid.get_tile(a)
    }
}

/// Connectivity of a built field: every labeled non-goal tile names,
/// through its direction tag, exactly one neighbor — an adjacent hex on
/// generated terrain whose height differs by at most one and which lies
/// exactly one breadth-first level nearer a goal.
pub proof fn lemma_connectivity(
    f: FlowField,
    terrain: Map<Axial, HexTileData>,
    goals: Seq<Axial>,
    t: Axial,
)
    requires
        f.wf(),
        f.is_field_for(terrain, goals),
        f.labels().contains_key(t),
        f.labels()[t] != HexPathNode::Goal,
    ensures
        spec_adjacent(t, spec_step(t, f.labels()[t])),
        f.labels().contains_key(spec_step(t, f.labels()[t])),
        f.levels()[spec_step(t, f.labels()[t])] + 1 == f.levels()[t],
        terrain.contains_key(t),
        terrain.contains_key(spec_step(t, f.labels()[t])),
        traversable(terrain[t], terrain[spec_step(t, f.labels()[t])]),
{
    assert(tile_nav_ok(f.labels(), f.levels(), t));
    let tag = f.labels()[t];
    let s = spec_step(t, tag);
    let i = dir_idx(tag);
    assert(spec_neighbor_delta(i) == tag.delta());
    assert(s.q - t.q == spec_neighbor_delta(i).0 && s.r - t.r == spec_neighbor_delta(i).1);
}

/// Unreachability: a tile that is not itself a goal, and whose every
/// neighbor on generated terrain differs from it in height by more than
/// one, is never labeled by a build.
pub proof fn lemma_unreachable_tile(
    f: FlowField,
    terrain: Map<Axial, HexTileData>,
    goals: Seq<Axial>,
    t: Axial,
)
    requires
        f.wf(),
        f.is_field_for(terrain, goals),
        !goals.contains(t),
        forall|b: Axial| #[trigger]
            spec_adjacent(t, b) && terrain.contains_key(b) ==> !traversable(
                terrain[t],
                terrain[b],
            ),
    ensures
        !f.labels().contains_key(t),
{
    if f.labels().contains_key(t) {
        if f.labels()[t] == HexPathNode::Goal {
            assert(goals.contains(t));
        } else {
            lemma_connectivity(f, terrain, goals, t);
            let s = spec_step(t, f.labels()[t]);
            assert(spec_adjacent(t, s) && terrain.contains_key(s));
            assert(false);
        }
    }
}

/// The enumeration index of a directional tag's delta.
pub open spec fn dir_idx(n: HexPathNode) -> int {
    match n {
        HexPathNode::TopLeft => 0,
        HexPathNode::TopRight => 1,
        HexPathNode::Right => 2,
        HexPathNode::BottomRight => 3,
        HexPathNode::BottomLeft => 4,
        HexPathNode::Left => 5,
        HexPathNode::Goal => 0,
    }
}

/// Levels are sound: a tile labeled at level `n` really is within `n`
/// hops of the goal set, along traversable edges of generated terrain —
/// its own chain of direction tags is such a walk.
pub proof fn lemma_levels_sound(
    f: FlowField,
    terrain: Map<Axial, HexTileData>,
    goals: Seq<Axial>,
    a: Axial,
)
    requires
        f.wf(),
        f.is_field_for(terrain, goals),
        f.labels().contains_key(a),
    ensures
        reach(terrain, goals, a, f.levels()[a]),
    decreases f.levels()[a],
{
    assert(tile_nav_ok(f.labels(), f.levels(), a));
    let tag = f.labels()[a];
    if tag == HexPathNode::Goal {
        assert(goals.contains(a));
    } else {
        let s = spec_step(a, tag);
        lemma_levels_sound(f, terrain, goals, s);
        let i = dir_idx(tag);
        assert(nbr(a, i) == s && nbr_in_range(a, i));
        assert(reach(terrain, goals, a, f.levels()[a]));
    }
}

/// Levels are minimal: a tile within `n` hops of the goal set is labeled,
/// at a level of at most `n`.  Together with `lemma_levels_sound` this
/// says that the build labels exactly the reachable tiles and that each
/// level is the exact hop distance to the nearest goal.
pub proof fn lemma_levels_minimal(
    f: FlowField,
    terrain: Map<Axial, HexTileData>,
    goals: Seq<Axial>,
    a: Axial,
    n: nat,
)
    requires
        f.wf(),
        f.is_field_for(terrain, goals),
        reach(terrain, goals, a, n),
    ensures
        f.labels().contains_key(a),
        f.levels()[a] <= n,
    decreases n,
{
    if n == 0 {
        let gi = choose|gi: int| 0 <= gi < goals.len() && goals[gi] == a;
        assert(f.labels().contains_key(goals[gi]));
        assert(tile_nav_ok(f.labels(), f.levels(), a));
    } else if reach(terrain, goals, a, (n - 1) as nat) {
        lemma_levels_minimal(f, terrain, goals, a, (n - 1) as nat);
    } else {
        let i = choose|i: int|
            0 <= i < 6 && nbr_in_range(a, i) && terrain.contains_key(a) && terrain.contains_key(
                #[trigger] nbr(a, i),
            ) && traversable(terrain[a], terrain[nbr(a, i)]) && reach(
                terrain,
                goals,
                nbr(a, i),
                (n - 1) as nat,
            );
        let s = nbr(a, i);
        lemma_levels_minimal(f, terrain, goals, s, (n - 1) as nat);
        let j = reverse_idx(i);
        assert(spec_neighbor_delta(j).0 == -spec_neighbor_delta(i).0 && spec_neighbor_delta(j).1
            == -spec_neighbor_delta(i).1);
        assert(nbr(s, j) == a && nbr_in_range(s, j));
        assert(tile_expanded(f.labels(), terrain, s, j));
        assert(tile_local_opt(f.labels(), f.levels(), terrain, s, j));
    }
}

/// The direction tag whose delta is the `i`-th neighbor offset.
pub open spec fn tag_of_idx(i: int) -> HexPathNode {
    if i == 0 {
        HexPathNode::TopLeft
    } else if i == 1 {
        HexPathNode::TopRight
    } else if i == 2 {
        HexPathNode::Right
    } else if i == 3 {
        HexPathNode::BottomRight
    } else if i == 4 {
        HexPathNode::BottomLeft
    } else {
        HexPathNode::Left
    }
}

/// The full state of a breadth-first build: the tags and levels assigned
/// so far, and the discovery queue (processed tiles included, since the
/// queue is only ever appended to).
pub struct BfsState {
    pub labels: Map<Axial, HexPathNode>,
    pub levels: Map<Axial, nat>,
    pub queue: Seq<Axial>,
}

/// One expansion attempt of the build, from tile `t` along direction `i`:
/// an unlabeled, generated, traversable neighbor is tagged with the
/// direction back toward `t`, one level farther out, and queued;
/// otherwise nothing changes.
pub open spec fn expand_dir(
    terrain: Map<Axial, HexTileData>,
    st: BfsState,
    t: Axial,
    i: int,
) -> BfsState {
    let n = nbr(t, i);
    if terrain.contains_key(t) && nbr_in_range(t, i) && terrain.contains_key(n)
        && !st.labels.contains_key(n) && traversable(terrain[t], terrain[n]) {
        BfsState {
            labels: st.labels.insert(n, tag_of_idx(reverse_idx(i))),
            levels: st.levels.insert(n, (st.levels[t] + 1) as nat),
            queue: st.queue.push(n),
        }
    } else {
        st
    }
}

/// Expansion of tile `t` along its first `k` directions, in order.
pub open spec fn expand_upto(
    terrain: Map<Axial, HexTileData>,
    st: BfsState,
    t: Axial,
    k: int,
) -> BfsState
    decreases k,
{
    if k <= 0 {
        st
    } else {
        expand_dir(terrain, expand_upto(terrain, st, t, k - 1), t, k - 1)
    }
}

/// Full expansion of one tile: all six directions in canonical order.
pub open spec fn expand_tile(
    terrain: Map<Axial, HexTileData>,
    st: BfsState,
    t: Axial,
) -> BfsState {
    expand_upto(terrain, st, t, 6)
}

/// Expansion only adds: old bindings are kept, every new label lies on
/// the terrain, the queue is extended, and a step that labels nothing
/// changes nothing.
proof fn lemma_expand_upto_frame(
    terrain: Map<Axial, HexTileData>,
    st: BfsState,
    t: Axial,
    k: int,
)
    ensures
        ({
            let st2 = expand_upto(terrain, st, t, k);
            &&& forall|a: Axial| #[trigger]
                st.labels.contains_key(a) ==> st2.labels.contains_key(a) && st2.labels[a]
                    == st.labels[a]
            &&& forall|a: Axial| #[trigger]
                st2.labels.contains_key(a) ==> st.labels.contains_key(a)
                    || terrain.contains_key(a)
            &&& st2.labels == st.labels ==> st2 == st
            &&& st.queue.len() <= st2.queue.len()
            &&& forall|j: int| 0 <= j < st.queue.len() ==> #[trigger] st2.queue[j] == st.queue[j]
        }),
    decreases k,
{
    if k > 0 {
        lemma_expand_upto_frame(terrain, st, t, k - 1);
        let st1 = expand_upto(terrain, st, t, k - 1);
        let st2 = expand_dir(terrain, st1, t, k - 1);
        if st2.labels =~= st.labels {
            assert(st1.labels =~= st.labels);
        }
    }
}

/// A tile outside the terrain expands into nothing.
proof fn lemma_expand_upto_no_terrain(
    terrain: Map<Axial, HexTileData>,
    st: BfsState,
    t: Axial,
    k: int,
)
    requires
        !terrain.contains_key(t),
    ensures
        expand_upto(terrain, st, t, k) == st,
    decreases k,
{
    if k > 0 {
        lemma_expand_upto_no_terrain(terrain, st, t, k - 1);
    }
}

/// The state after seeding the first `k` goals: each still-unlabeled goal
/// is tagged terminal at level zero and queued, in goal-set order.
pub open spec fn seed_state(goals: Seq<Axial>, k: int) -> BfsState
    decreases k,
{
    if k <= 0 {
        BfsState { labels: Map::empty(), levels: Map::empty(), queue: Seq::empty() }
    } else {
        let st = seed_state(goals, k - 1);
        let g = goals[k - 1];
        if st.labels.contains_key(g) {
            st
        } else {
            BfsState {
                labels: st.labels.insert(g, HexPathNode::Goal),
                levels: st.levels.insert(g, 0),
                queue: st.queue.push(g),
            }
        }
    }
}

/// Whether the breadth-first recursion is well defined from a state: the
/// terrain is finite (so the expansion runs out of tiles) and the cursor
/// is not negative.
pub open spec fn bfs_guard(terrain: Map<Axial, HexTileData>, st: BfsState, c: int) -> bool {
    terrain.dom().finite() && 0 <= c
}

/// The rest of a breadth-first build, from a state and a queue cursor:
/// expand the tile under the cursor, advance, and stop when the queue is
/// exhausted.
pub open spec fn bfs_from(terrain: Map<Axial, HexTileData>, st: BfsState, c: int) -> BfsState
    decreases terrain.dom().difference(st.labels.dom()).len(), st.queue.len() - c,
        when bfs_guard(terrain, st, c)
        via bfs_from_decreases
{
    if c >= st.queue.len() {
        st
    } else {
        bfs_from(terrain, expand_tile(terrain, st, st.queue[c]), c + 1)
    }
}

#[via_fn]
proof fn bfs_from_decreases(terrain: Map<Axial, HexTileData>, st: BfsState, c: int) {
    if c < st.queue.len() {
        let t = st.queue[c];
        let st2 = expand_tile(terrain, st, t);
        lemma_expand_upto_frame(terrain, st, t, 6);
        if st2.labels =~= st.labels {
            assert(st2 == st);
        } else {
            let oldd = terrain.dom().difference(st.labels.dom());
            let newd = terrain.dom().difference(st2.labels.dom());
            let x = choose|x: Axial|
                !(st.labels.dom().contains(x) <==> st2.labels.dom().contains(x));
            assert(st2.labels.contains_key(x) && !st.labels.contains_key(x));
            assert(terrain.contains_key(x));
            assert(oldd.contains(x));
            assert(newd <= oldd.remove(x));
            vstd::set_lib::lemma_set_subset_finite(terrain.dom(), oldd);
            vstd::set_lib::lemma_len_subset(newd, oldd.remove(x));
            assert(newd.len() < oldd.len());
        }
    }
}

/// The whole build, as a function of terrain and goal set alone: seed the
/// goals, then run the queue to exhaustion.
pub open spec fn spec_bfs(terrain: Map<Axial, HexTileData>, goals: Seq<Axial>) -> BfsState {
    bfs_from(terrain, seed_state(goals, goals.len() as int), 0)
}

/// Idempotence: the flow-field build is a pure function of the terrain
/// and the goal set (`spec_bfs`), so two fields built from unchanged
/// inputs carry identical direction labels, and identical levels, for
/// every tile.
pub proof fn lemma_rebuild_identical(
    f1: FlowField,
    f2: FlowField,
    terrain: Map<Axial, HexTileData>,
    goals: Seq<Axial>,
)
    requires
        f1.labels() == spec_bfs(terrain, goals).labels,
        f1.levels() == spec_bfs(terrain, goals).levels,
        f2.labels() == spec_bfs(terrain, goals).labels,
        f2.levels() == spec_bfs(terrain, goals).levels,
    ensures
        f1.labels() == f2.labels(),
        f1.levels() == f2.levels(),
{
}

/// A labeled tile of one field is labeled in any other field built for
/// the same terrain and goal set (helper for `lemma_same_reached_set`).
proof fn lemma_label_carries_over(
    f1: FlowField,
    f2: FlowField,
    terrain: Map<Axial, HexTileData>,
    goals: Seq<Axial>,
    a: Axial,
)
    requires
        f1.wf(),
        f2.wf(),
        f1.is_field_for(terrain, goals),
        f2.is_field_for(terrain, goals),
        f1.labels().contains_key(a),
    ensures
        f2.labels().contains_key(a),
    decreases f1.levels()[a],
{
    assert(tile_nav_ok(f1.labels(), f1.levels(), a));
    let tag = f1.labels()[a];
    if tag == HexPathNode::Goal {
        let i = choose|i: int| 0 <= i < goals.len() && goals[i] == a;
        assert(f2.labels().contains_key(goals[i]));
    } else {
        let s = spec_step(a, tag);
        lemma_label_carries_over(f1, f2, terrain, goals, s);
        let i = reverse_idx(dir_idx(tag));
        assert(nbr(s, i) == a);
        assert(tile_expanded(f2.labels(), terrain, s, i));
    }
}

/// The reached set is a function of terrain and goal set alone: two
/// fields built for the same terrain and goals label exactly the same
/// tiles.  (Which direction an equidistant tile is labeled with depends
/// on the documented expansion order, not on the field's history.)
pub proof fn lemma_same_reached_set(
    f1: FlowField,
    f2: FlowField,
    terrain: Map<Axial, HexTileData>,
    goals: Seq<Axial>,
)
    requires
        f1.wf(),
        f2.wf(),
        f1.is_field_for(terrain, goals),
        f2.is_field_for(terrain, goals),
    ensures
        f1.labels().dom() == f2.labels().dom(),
{
    assert forall|a: Axial| f1.labels().dom().contains(a) implies f2.labels().dom().contains(
        a,
    ) by {
        lemma_label_carries_over(f1, f2, terrain, goals, a);
    }
    assert forall|a: Axial| f2.labels().dom().contains(a) implies f1.labels().dom().contains(
        a,
    ) by {
        lemma_label_carries_over(f2, f1, terrain, goals, a);
    }
    assert(f1.labels().dom() =~= f2.labels().dom());
}

/// A freshly pushed fresh element keeps a sequence duplicate-free.
proof fn lemma_push_no_dup<A>(s: Seq<A>, x: A)
    requires
        s.no_duplicates(),
        !s.contains(x),
    ensures
        s.push(x).no_duplicates(),
{
    assert forall|i: int, j: int|
        0 <= i < j < s.push(x).len() implies s.push(x)[i] != s.push(x)[j] by {
        if j < s.len() {
        } else {
            assert(s.push(x)[j] == x);
            assert(s[i] == s.push(x)[i]);
        }
    }
}

/// Inserting a fresh, soundly linked binding preserves navigation
/// soundness.
proof fn lemma_nav_ok_insert(
    labels: Map<Axial, HexPathNode>,
    levels: Map<Axial, nat>,
    a: Axial,
    tag: HexPathNode,
    lv: nat,
)
    requires
        nav_ok(labels, levels),
        !labels.dom().contains(a),
        tag == HexPathNode::Goal <==> lv == 0,
        tag != HexPathNode::Goal ==> step_in_range(a, tag) && labels.dom().contains(
            spec_step(a, tag),
        ) && levels[spec_step(a, tag)] + 1 == lv,
    ensures
        nav_ok(labels.insert(a, tag), levels.insert(a, lv)),
{
    let l2 = labels.insert(a, tag);
    let v2 = levels.insert(a, lv);
    assert(v2.dom() =~= l2.dom());
    assert forall|b: Axial| #[trigger] tile_nav_ok(l2, v2, b) by {
        assert(tile_nav_ok(labels, levels, b));
        if b == a {
            if tag != HexPathNode::Goal {
                assert(spec_step(a, tag) != a);
            }
        } else if labels.dom().contains(b) && labels[b] != HexPathNode::Goal {
            assert(spec_step(b, labels[b]) != a);
        }
    }
}

/// Builds the flow field for a goal set over a terrain: a multi-source
/// breadth-first expansion outward from the goal tiles, crossing only
/// traversable edges, in the canonical neighbor order.  Every reached
/// tile is tagged with the direction back toward the tile that
/// discovered it, which lies one level nearer a goal.
#[verifier::rlimit(100)]
pub fn build_flow_field(terrain: &Terrain, goals: &Vec<Axial>) -> (f: FlowField)
    requires
        terrain.wf(),
    ensures
        f.wf(),
        f.is_field_for(terrain@, goals@),
        f.labels() == spec_bfs(terrain@, goals@).labels,
        f.levels() == spec_bfs(terrain@, goals@).levels,
{
    let mut grid: HexMap<HexPathNode> = HexMap::new();
    let ghost mut levels: Map<Axial, nat> = Map::empty();
    let mut open: Vec<Axial> = Vec::new();

    let mut gi: usize = 0;
    while gi < goals.len()
        invariant
            terrain.wf(),
            grid.wf(),
            gi <= goals@.len(),
            levels.dom() == grid@.dom(),
            open@.to_set() == grid@.dom(),
            open@.no_duplicates(),
            nav_ok(grid@, levels),
            forall|a: Axial| #[trigger]
                grid@.contains_key(a) ==> grid@[a] == HexPathNode::Goal && levels[a] == 0
                    && goals@.contains(a),
            forall|j: int|
                0 <= j < gi ==> grid@.contains_key(#[trigger] goals@[j]) && grid@[goals@[j]]
                    == HexPathNode::Goal,
            seed_state(goals@, gi as int) == (BfsState { labels: grid@, levels, queue: open@ }),
        decreases goals@.len() - gi,
    {
        let g = goals[gi];
        if grid.get_tile(g).is_none() {
            proof {
                open@.lemma_push_to_set_commute(g);
                lemma_push_no_dup(open@, g);
                lemma_nav_ok_insert(grid@, levels, g, HexPathNode::Goal, 0nat);
                levels = levels.insert(g, 0nat);
            }
            grid.place_tile(g, HexPathNode::Goal);
            open.push(g);
        }
        gi += 1;
    }

    proof {
        assert forall|k1: int, k2: int|
            #![trigger levels[open@[k1]], levels[open@[k2]]]
            0 <= k1 <= k2 < open@.len() implies levels[open@[k1]] <= levels[open@[k2]] by {
            assert(open@.to_set().contains(open@[k1]));
            assert(open@.to_set().contains(open@[k2]));
        }
        if open@.len() > 0 {
            assert(open@.to_set().contains(open@[open@.len() - 1]));
            assert(open@.to_set().contains(open@[0]));
        }
    }
    let ghost target = spec_bfs(terrain@, goals@);
    proof {
        assert(seed_state(goals@, goals@.len() as int) == (BfsState {
            labels: grid@,
            levels,
            queue: open@,
        }));
    }
    let mut idx: usize = 0;
    while idx < open.len()
        invariant
            terrain.wf(),
            grid.wf(),
            idx <= open@.len(),
            levels.dom() == grid@.dom(),
            open@.to_set() == grid@.dom(),
            open@.no_duplicates(),
            nav_ok(grid@, levels),
            forall|a: Axial| #[trigger]
                grid@.contains_key(a) && grid@[a] == HexPathNode::Goal ==> goals@.contains(a),
            forall|j: int|
                0 <= j < goals@.len() ==> grid@.contains_key(#[trigger] goals@[j])
                    && grid@[goals@[j]] == HexPathNode::Goal,
            forall|a: Axial| #[trigger]
                grid@.contains_key(a) && grid@[a] != HexPathNode::Goal ==> terrain@.contains_key(a)
                    && terrain@.contains_key(spec_step(a, grid@[a])) && traversable(
                    terrain@[a],
                    terrain@[spec_step(a, grid@[a])],
                ),
            forall|k: int, i: int|
                0 <= k < idx ==> #[trigger] tile_expanded(grid@, terrain@, open@[k], i),
            forall|k1: int, k2: int|
                #![trigger levels[open@[k1]], levels[open@[k2]]]
                0 <= k1 <= k2 < open@.len() ==> levels[open@[k1]] <= levels[open@[k2]],
            idx < open@.len() ==> levels[open@[open@.len() - 1]] <= levels[open@[idx as int]] + 1,
            forall|k: int, i: int|
                0 <= k < idx ==> #[trigger] tile_local_opt(grid@, levels, terrain@, open@[k], i),
            target == spec_bfs(terrain@, goals@),
            bfs_from(terrain@, BfsState { labels: grid@, levels, queue: open@ }, idx as int)
                == target,
        decreases terrain@.dom().difference(grid@.dom()).len(), open@.len() - idx,
    {
        let ghost pre_grid = grid@;
        let ghost pre_open = open@;
        let ghost st_old = BfsState { labels: grid@, levels, queue: open@ };
        let t = open[idx];
        proof {
            assert(open@.to_set().contains(t));
        }
        if let Some(td) = terrain.get_tile(t) {
            let ghost lv = levels[t];
            let mut ni: usize = 0;
            while ni < 6
                invariant
                    terrain.wf(),
                    grid.wf(),
                    ni <= 6,
                    levels.dom() == grid@.dom(),
                    open@.to_set() == grid@.dom(),
                    open@.no_duplicates(),
                    nav_ok(grid@, levels),
                    grid@.contains_key(t),
                    lv == levels[t],
                    terrain@.contains_key(t),
                    td == terrain@[t],
                    pre_grid.dom() <= grid@.dom(),
                    pre_open.len() <= open@.len(),
                    grid@.dom() == pre_grid.dom() ==> open@ == pre_open,
                    forall|a: Axial| #[trigger]
                        grid@.contains_key(a) && !pre_grid.contains_key(a)
                            ==> terrain@.contains_key(a),
                    forall|a: Axial| #[trigger]
                        grid@.contains_key(a) && grid@[a] == HexPathNode::Goal
                            ==> goals@.contains(a),
                    forall|j: int|
                        0 <= j < goals@.len() ==> grid@.contains_key(#[trigger] goals@[j])
                            && grid@[goals@[j]] == HexPathNode::Goal,
                    forall|a: Axial| #[trigger]
                        grid@.contains_key(a) && grid@[a] != HexPathNode::Goal
                            ==> terrain@.contains_key(a) && terrain@.contains_key(
                            spec_step(a, grid@[a]),
                        ) && traversable(terrain@[a], terrain@[spec_step(a, grid@[a])]),
                    idx < open@.len(),
                    open@[idx as int] == t,
                    forall|k: int, i2: int|
                        0 <= k < idx ==> #[trigger] tile_expanded(grid@, terrain@, open@[k], i2),
                    forall|i2: int|
                        0 <= i2 < ni ==> #[trigger] tile_expanded(grid@, terrain@, t, i2),
                    forall|k1: int, k2: int|
                        #![trigger levels[open@[k1]], levels[open@[k2]]]
                        0 <= k1 <= k2 < open@.len() ==> levels[open@[k1]] <= levels[open@[k2]],
                    levels[open@[open@.len() - 1]] <= lv + 1,
                    forall|k: int, i2: int|
                        0 <= k < idx ==> #[trigger] tile_local_opt(
                            grid@,
                            levels,
                            terrain@,
                            open@[k],
                            i2,
                        ),
                    forall|i2: int|
                        0 <= i2 < ni ==> #[trigger] tile_local_opt(grid@, levels, terrain@, t, i2),
                    expand_upto(terrain@, st_old, t, ni as int) == (BfsState {
                        labels: grid@,
                        levels,
                        queue: open@,
                    }),
                decreases 6 - ni,
            {
                let ghost cur0 = BfsState { labels: grid@, levels, queue: open@ };
                let (dq, dr) = neighbor_delta(ni);
                let nq = t.q as i64 + dq as i64;
                let nr = t.r as i64 + dr as i64;
                if i32::MIN as i64 <= nq && nq <= i32::MAX as i64 && i32::MIN as i64 <= nr && nr
                    <= i32::MAX as i64 {
                    let n = Axial { q: nq as i32, r: nr as i32 };
                    if let Some(nd) = terrain.get_tile(n) {
                        let existing = grid.get_tile(n);
                        proof {
                            if existing is Some {
                                assert(open@.to_set().contains(n));
                                assert(open@.contains(n));
                                let k = choose|k: int| 0 <= k < open@.len() && open@[k] == n;
                                assert(levels[open@[k]] <= levels[open@[open@.len() - 1]]);
                                assert(levels[n] <= lv + 1);
                            }
                        }
                        if existing.is_none() {
                            let steep = if nd.wall_height > td.wall_height {
                                nd.wall_height - td.wall_height
                            } else {
                                td.wall_height - nd.wall_height
                            };
                            if steep <= 1 {
                                proof {
                                    assert(t != n) by {
                                        assert(spec_neighbor_delta(ni as int).0 != 0
                                            || spec_neighbor_delta(ni as int).1 != 0);
                                    }
                                    let j: int = if ni < 3 {
                                        ni as int + 3
                                    } else {
                                        ni as int - 3
                                    };
                                    assert(spec_neighbor_delta(j).0 == t.q - n.q
                                        && spec_neighbor_delta(j).1 == t.r - n.r);
                                }
                                let tag = HexPathNode::from_hexes(t, n);
                                let ghost g0 = grid@;
                                let ghost o0 = open@;
                                let ghost l0 = levels;
                                proof {
                                    open@.lemma_push_to_set_commute(n);
                                    lemma_push_no_dup(open@, n);
                                    assert(spec_step(n, tag) == t);
                                    lemma_nav_ok_insert(grid@, levels, n, tag, lv + 1);
                                    levels = levels.insert(n, lv + 1);
                                }
                                grid.place_tile(n, tag);
                                open.push(n);
                                proof {
                                    assert(tag == tag_of_idx(reverse_idx(ni as int)));
                                    assert(n == nbr(t, ni as int));
                                    assert(expand_dir(terrain@, cur0, t, ni as int) == (BfsState {
                                        labels: grid@,
                                        levels,
                                        queue: open@,
                                    }));
                                    assert forall|k: int, i2: int|
                                        0 <= k < idx implies #[trigger] tile_expanded(
                                        grid@,
                                        terrain@,
                                        open@[k],
                                        i2,
                                    ) by {
                                        assert(open@[k] == o0[k]);
                                        assert(tile_expanded(g0, terrain@, o0[k], i2));
                                    }
                                    assert forall|i2: int|
                                        0 <= i2 < ni implies #[trigger] tile_expanded(
                                        grid@,
                                        terrain@,
                                        t,
                                        i2,
                                    ) by {
                                        assert(tile_expanded(g0, terrain@, t, i2));
                                    }
                                    let len0 = o0.len() as int;
                                    assert forall|k1: int, k2: int|
                                        #![trigger levels[open@[k1]], levels[open@[k2]]]
                                        0 <= k1 <= k2 < open@.len() implies levels[open@[k1]]
                                        <= levels[open@[k2]] by {
                                        if k2 < len0 {
                                            assert(o0.to_set().contains(o0[k1]));
                                            assert(o0.to_set().contains(o0[k2]));
                                            assert(l0[o0[k1]] <= l0[o0[k2]]);
                                        } else {
                                            assert(open@[k2] == n);
                                            if k1 < len0 {
                                                assert(o0.to_set().contains(o0[k1]));
                                                assert(l0[o0[k1]] <= l0[o0[len0 - 1]]);
                                            }
                                        }
                                    }
                                    assert forall|k: int, i2: int|
                                        0 <= k < idx implies #[trigger] tile_local_opt(
                                        grid@,
                                        levels,
                                        terrain@,
                                        open@[k],
                                        i2,
                                    ) by {
                                        assert(open@[k] == o0[k]);
                                        assert(o0.to_set().contains(o0[k]));
                                        assert(tile_expanded(g0, terrain@, o0[k], i2));
                                        assert(tile_local_opt(g0, l0, terrain@, o0[k], i2));
                                    }
                                    assert forall|i2: int|
                                        0 <= i2 < ni implies #[trigger] tile_local_opt(
                                        grid@,
                                        levels,
                                        terrain@,
                                        t,
                                        i2,
                                    ) by {
                                        assert(tile_expanded(g0, terrain@, t, i2));
                                        assert(tile_local_opt(g0, l0, terrain@, t, i2));
                                    }
                                }
                            }
                        }
                    }
                }
                proof {
                    assert(tile_expanded(grid@, terrain@, t, ni as int));
                    assert(tile_local_opt(grid@, levels, terrain@, t, ni as int));
                    assert(expand_dir(terrain@, cur0, t, ni as int) == (BfsState {
                        labels: grid@,
                        levels,
                        queue: open@,
                    }));
                }
                ni += 1;
            }
        }
        idx += 1;
        proof {
            terrain.lemma_dom_finite();
            if !terrain@.contains_key(t) {
                lemma_expand_upto_no_terrain(terrain@, st_old, t, 6);
            }
            assert(expand_tile(terrain@, st_old, t) == (BfsState {
                labels: grid@,
                levels,
                queue: open@,
            }));
            assert(bfs_guard(terrain@, st_old, idx - 1));
            assert(st_old.queue[idx - 1] == t);
            assert(bfs_from(terrain@, st_old, idx - 1) == bfs_from(
                terrain@,
                expand_tile(terrain@, st_old, t),
                idx as int,
            ));
            assert forall|k: int, i2: int|
                0 <= k < idx implies #[trigger] tile_expanded(grid@, terrain@, open@[k], i2) by {
                if k == idx - 1 {
                    assert(open@[k] == t);
                    if terrain@.contains_key(t) {
                        assert(tile_expanded(grid@, terrain@, t, i2));
                    }
                }
            }
            assert forall|k: int, i2: int|
                0 <= k < idx implies #[trigger] tile_local_opt(
                grid@,
                levels,
                terrain@,
                open@[k],
                i2,
            ) by {
                if k == idx - 1 {
                    assert(open@[k] == t);
                    if terrain@.contains_key(t) {
                        assert(tile_local_opt(grid@, levels, terrain@, t, i2));
                    }
                }
            }
            if idx < open@.len() {
                let last = open@.len() - 1;
                assert(levels[open@[idx - 1]] <= levels[open@[idx as int]]);
                assert(levels[open@[last]] <= levels[open@[idx - 1]] + 1);
            }
        }
        proof {
            if pre_grid.dom() != grid@.dom() {
                terrain.lemma_dom_finite();
                let oldd = terrain@.dom().difference(pre_grid.dom());
                let newd = terrain@.dom().difference(grid@.dom());
                assert(!(pre_grid.dom() =~= grid@.dom()));
                let x = choose|x: Axial|
                    !(pre_grid.dom().contains(x) <==> grid@.dom().contains(x));
                assert(grid@.dom().contains(x) && !pre_grid.dom().contains(x));
                assert(oldd.contains(x));
                assert(newd <= oldd.remove(x));
                vstd::set_lib::lemma_set_subset_finite(terrain@.dom(), oldd);
                vstd::set_lib::lemma_len_subset(newd, oldd.remove(x));
                assert(newd.len() < oldd.len());
            }
        }
    }

    proof {
        terrain.lemma_dom_finite();
        assert(bfs_from(terrain@, BfsState { labels: grid@, levels, queue: open@ }, idx as int)
            == (BfsState { labels: grid@, levels, queue: open@ }));
        assert forall|a: Axial, i: int| #[trigger] tile_expanded(grid@, terrain@, a, i) by {
            if grid@.contains_key(a) {
                assert(open@.to_set().contains(a));
                assert(open@.contains(a));
                let k = choose|k: int| 0 <= k < open@.len() && open@[k] == a;
                assert(tile_expanded(grid@, terrain@, open@[k], i));
            }
        }
        assert forall|a: Axial, i: int| #[trigger] tile_local_opt(
            grid@,
            levels,
            terrain@,
            a,
            i,
        ) by {
            if grid@.contains_key(a) {
                assert(open@.to_set().contains(a));
                assert(open@.contains(a));
                let k = choose|k: int| 0 <= k < open@.len() && open@[k] == a;
                assert(tile_local_opt(grid@, levels, terrain@, open@[k], i));
            }
        }
    }
    FlowField { grid, levels: Ghost(levels) }
}

} // verus!
