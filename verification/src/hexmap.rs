use vstd::prelude::*;

use crate::hex::{Axial, floor_div2};

verus! {

/// Chunks are fixed 16 x 16 blocks of tile slots.
pub const CHUNK_WIDTH: usize = 16;

pub const CHUNK_HEIGHT: usize = 16;

/// Odd-r offset column of a hex: `col = q + floor(r / 2)`.
pub open spec fn col_of(a: Axial) -> int {
    a.q + a.r as int / 2
}

/// Chunk coordinate that holds a hex: its offset coordinates floor-divided
/// by the chunk dimensions (negative-safe).
pub open spec fn chunk_q_of(a: Axial) -> int {
    col_of(a) / 16
}

pub open spec fn chunk_r_of(a: Axial) -> int {
    a.r as int / 16
}

/// Position of a hex inside its chunk.
pub open spec fn local_col(a: Axial) -> int {
    col_of(a) % 16
}

pub open spec fn local_row(a: Axial) -> int {
    a.r as int % 16
}

/// Row-major index of a hex's slot inside its chunk.
pub open spec fn slot_of(a: Axial) -> int {
    local_row(a) * 16 + local_col(a)
}

/// The chunk decomposition is sound: slots are in range and the offset
/// coordinates are rebuilt from chunk coordinate and local position.
pub proof fn lemma_slot_range(a: Axial)
    ensures
        0 <= local_col(a) < 16,
        0 <= local_row(a) < 16,
        0 <= slot_of(a) < 256,
        col_of(a) == 16 * chunk_q_of(a) + local_col(a),
        a.r as int == 16 * chunk_r_of(a) + local_row(a),
{
    let col = col_of(a);
    let row = a.r as int;
    vstd::arithmetic::div_mod::lemma_fundamental_div_mod(col, 16);
    vstd::arithmetic::div_mod::lemma_fundamental_div_mod(row, 16);
    vstd::arithmetic::div_mod::lemma_mod_bound(col, 16);
    vstd::arithmetic::div_mod::lemma_mod_bound(row, 16);
}

/// Two hexes in the same chunk with the same slot index are the same hex.
pub proof fn lemma_addr_injective(a: Axial, b: Axial)
    requires
        chunk_q_of(a) == chunk_q_of(b),
        chunk_r_of(a) == chunk_r_of(b),
        slot_of(a) == slot_of(b),
    ensures
        a == b,
{
    lemma_slot_range(a);
    lemma_slot_range(b);
    assert(local_row(a) == local_row(b) && local_col(a) == local_col(b)) by {
        vstd::arithmetic::div_mod::lemma_fundamental_div_mod_converse(
            slot_of(a),
            16,
            local_row(a),
            local_col(a),
        );
        vstd::arithmetic::div_mod::lemma_fundamental_div_mod_converse(
            slot_of(b),
            16,
            local_row(b),
            local_col(b),
        );
    }
    assert(a.r == b.r);
    assert(col_of(a) == col_of(b));
    assert(a.q == b.q);
}

/// Floor division and Euclidean remainder by 16, negative-safe.
fn div_mod16(v: i64) -> (p: (i64, i64))
    requires
        -0x4000_0000_0000_0000 < v < 0x4000_0000_0000_0000,
    ensures
        p.0 == v as int / 16,
        p.1 == v as int % 16,
{
    if v >= 0 {
        (v / 16, v % 16)
    } else {
        let q = (v - 15) / 16;
        (q, v - 16 * q)
    }
}

/// Chunk coordinate and slot index of a hex, as executable values.
fn addr_of(a: Axial) -> (t: (i64, i64, usize))
    ensures
        t.0 == chunk_q_of(a),
        t.1 == chunk_r_of(a),
        t.2 == slot_of(a),
{
    proof {
        lemma_slot_range(a);
    }
    let col = a.q as i64 + floor_div2(a.r as i64);
    let (cq, lc) = div_mod16(col);
    let (cr, lr) = div_mod16(a.r as i64);
    (cq, cr, (lr * 16 + lc) as usize)
}

/// One 16 x 16 block of optional tile slots, at chunk coordinate
/// `(q, r)`; an empty slot means "tile never generated".
pub struct HexChunk<T> {
    q: i32,
    r: i32,
    tiles: Vec<Option<T>>,
}

impl<T> HexChunk<T> {
    /// Well-formed chunks hold exactly one slot per cell.
    pub closed spec fn wf(self) -> bool {
        self.tiles@.len() == 256
    }

    pub closed spec fn coord_q(self) -> int {
        self.q as int
    }

    pub closed spec fn coord_r(self) -> int {
        self.r as int
    }

    pub closed spec fn slot(self, li: int) -> Option<T> {
        self.tiles@[li]
    }

    /// Whether the hex `a` falls inside this chunk's footprint.
    pub open spec fn covers(self, a: Axial) -> bool {
        chunk_q_of(a) == self.coord_q() && chunk_r_of(a) == self.coord_r()
    }

    /// The tiles the chunk holds, as a map keyed by hex coordinate.
    pub open spec fn as_map(self) -> Map<Axial, T> {
        Map::new(
            |a: Axial| self.covers(a) && self.slot(slot_of(a)) is Some,
            |a: Axial| self.slot(slot_of(a))->Some_0,
        )
    }

    /// Reads one slot by its row-major index.
    pub fn slot_at(&self, li: usize) -> (s: &Option<T>)
        requires
            self.wf(),
            li < 256,
        ensures
            *s == self.slot(li as int),
    {
        &self.tiles[li]
    }

    /// Builds the chunk at chunk coordinate `(q, r)` from a row-major
    /// vector of 256 optional tiles.
    pub fn new(tiles: Vec<Option<T>>, q: i32, r: i32) -> (c: HexChunk<T>)
        requires
            tiles@.len() == 256,
        ensures
            c.wf(),
            c.coord_q() == q,
            c.coord_r() == r,
            forall|li: int| 0 <= li < 256 ==> c.slot(li) == tiles@[li],
    {
        HexChunk { q, r, tiles }
    }

    /// Builds an all-empty chunk at chunk coordinate `(q, r)`.
    pub fn new_empty(q: i32, r: i32) -> (c: HexChunk<T>)
        ensures
            c.wf(),
            c.coord_q() == q,
            c.coord_r() == r,
            forall|li: int| 0 <= li < 256 ==> c.slot(li) is None,
            c.as_map() == Map::<Axial, T>::empty(),
    {
        let mut tiles: Vec<Option<T>> = Vec::new();
        let mut i: usize = 0;
        while i < 256
            invariant
                i <= 256,
                tiles@.len() == i,
                forall|li: int| 0 <= li < i ==> tiles@[li] is None,
            decreases 256 - i,
        {
            tiles.push(None);
            i += 1;
        }
        let c = HexChunk { q, r, tiles };
        proof {
            assert forall|a: Axial| !(c.covers(a) && c.slot(slot_of(a)) is Some) by {
                lemma_slot_range(a);
            }
            assert(c.as_map() =~= Map::<Axial, T>::empty());
        }
        c
    }
}

/// Sparse chunked grid: a collection of chunks with pairwise distinct
/// chunk coordinates.  Its model (`@`) is the map from hex coordinate to
/// the tile stored there, across all chunks.
pub struct HexMap<T> {
    chunks: Vec<HexChunk<T>>,
}

impl<T: Copy> HexMap<T> {
    spec fn idx_ok(self, cq: int, cr: int, i: int) -> bool {
        0 <= i < self.chunks@.len() && self.chunks@[i].coord_q() == cq && self.chunks@[i].coord_r()
            == cr
    }

    /// Chunk coordinates are unique and every chunk is well formed.
    pub closed spec fn wf(self) -> bool {
        &&& forall|i: int, j: int|
            0 <= i < self.chunks@.len() && 0 <= j < self.chunks@.len() && i != j ==> !(
            (#[trigger] self.chunks@[i]).coord_q() == (#[trigger] self.chunks@[j]).coord_q()
                && self.chunks@[i].coord_r() == self.chunks@[j].coord_r())
        &&& forall|i: int| 0 <= i < self.chunks@.len() ==> (#[trigger] self.chunks@[i]).wf()
    }

    /// Whether a chunk was registered at chunk coordinate `(cq, cr)`.
    pub closed spec fn has_chunk_at(self, cq: int, cr: int) -> bool {
        exists|i: int| self.idx_ok(cq, cr, i)
    }

    spec fn chunk_at(self, cq: int, cr: int) -> HexChunk<T> {
        self.chunks@[choose|i: int| self.idx_ok(cq, cr, i)]
    }

    spec fn tile_opt(self, a: Axial) -> Option<T> {
        let cq = chunk_q_of(a);
        let cr = chunk_r_of(a);
        if self.has_chunk_at(cq, cr) {
            self.chunk_at(cq, cr).slot(slot_of(a))
        } else {
            None
        }
    }

    /// An empty grid: no chunks, no tiles.
    pub fn new() -> (m: HexMap<T>)
        ensures
            m.wf(),
            m@ == Map::<Axial, T>::empty(),
            forall|cq: int, cr: int| !m.has_chunk_at(cq, cr),
    {
        let m = HexMap { chunks: Vec::new() };
        proof {
            assert(m@ =~= Map::<Axial, T>::empty());
        }
        m
    }

    /// Index of the chunk at `(cq, cr)`, if one was registered.
    fn find_chunk(&self, cq: i64, cr: i64) -> (r: Option<usize>)
        requires
            self.wf(),
        ensures
            match r {
                Some(i) => self.idx_ok(cq as int, cr as int, i as int) && self.has_chunk_at(
                    cq as int,
                    cr as int,
                ) && self.chunk_at(cq as int, cr as int) == self.chunks@[i as int],
                None => !self.has_chunk_at(cq as int, cr as int),
            },
    {
        let mut i: usize = 0;
        while i < self.chunks.len()
            invariant
                self.wf(),
                i <= self.chunks@.len(),
                forall|j: int| 0 <= j < i ==> !self.idx_ok(cq as int, cr as int, j),
            decreases self.chunks@.len() - i,
        {
            if self.chunks[i].q as i64 == cq && self.chunks[i].r as i64 == cr {
                proof {
                    let w = choose|w: int| self.idx_ok(cq as int, cr as int, w);
                    assert(self.idx_ok(cq as int, cr as int, i as int));
                    assert(w == i as int);
                }
                return Some(i);
            }
            i += 1;
        }
        None
    }

    /// Looks a tile up; `None` means the chunk was never registered or the
    /// slot inside it was never generated.
    pub fn get_tile(&self, a: Axial) -> (r: Option<T>)
        requires
            self.wf(),
        ensures
            r == (if self@.contains_key(a) {
                Some(self@[a])
            } else {
                None::<T>
            }),
    {
        let (cq, cr, li) = addr_of(a);
        proof {
            lemma_slot_range(a);
        }
        match self.find_chunk(cq, cr) {
            Some(i) => self.chunks[i].tiles[li],
            None => None,
        }
    }
}

impl<T: Copy> HexMap<T> {
    /// The chosen chunk index for a coordinate is the only one that
    /// matches it.
    proof fn lemma_chunk_at_is(self, cq: int, cr: int, i: int)
        requires
            self.wf(),
            self.idx_ok(cq, cr, i),
        ensures
            self.has_chunk_at(cq, cr),
            self.chunk_at(cq, cr) == self.chunks@[i],
    {
        assert(self.has_chunk_at(cq, cr));
        let w = choose|w: int| self.idx_ok(cq, cr, w);
        assert(w == i);
    }

    /// Overwrites the slot of `a` if its chunk was registered; reports
    /// whether it was.  Never registers a chunk.
    pub fn set_tile(&mut self, a: Axial, t: T) -> (ok: bool)
        requires
            old(self).wf(),
        ensures
            final(self).wf(),
            ok == old(self).has_chunk_at(chunk_q_of(a), chunk_r_of(a)),
            ok ==> final(self)@ == old(self)@.insert(a, t),
            !ok ==> *final(self) == *old(self),
            forall|cq: int, cr: int|
                final(self).has_chunk_at(cq, cr) == old(self).has_chunk_at(cq, cr),
    {
        let (cq, cr, li) = addr_of(a);
        proof {
            lemma_slot_range(a);
        }
        match self.find_chunk(cq, cr) {
            Some(i) => {
                let ghost old_self = *self;
                self.chunks[i].tiles[li] = Some(t);
                proof {
                    self.lemma_set_tile_view(old_self, a, t, i as int);
                }
                true
            },
            None => false,
        }
    }

    /// After overwriting one slot, the grid's model is the old model with
    /// one binding inserted, and the chunk layout is unchanged.
    proof fn lemma_set_tile_view(self, prev: HexMap<T>, a: Axial, t: T, i: int)
        requires
            prev.wf(),
            prev.idx_ok(chunk_q_of(a), chunk_r_of(a), i),
            self.chunks@.len() == prev.chunks@.len(),
            forall|j: int| 0 <= j < prev.chunks@.len() && j != i ==> self.chunks@[j] == prev.chunks@[j],
            self.chunks@[i].wf(),
            self.chunks@[i].coord_q() == prev.chunks@[i].coord_q(),
            self.chunks@[i].coord_r() == prev.chunks@[i].coord_r(),
            forall|li: int|
                0 <= li < 256 && li != slot_of(a) ==> self.chunks@[i].slot(li)
                    == prev.chunks@[i].slot(li),
            self.chunks@[i].slot(slot_of(a)) == Some(t),
        ensures
            self.wf(),
            self@ == prev@.insert(a, t),
            forall|cq: int, cr: int| self.has_chunk_at(cq, cr) == prev.has_chunk_at(cq, cr),
    {
        assert forall|cq: int, cr: int, j: int| self.idx_ok(cq, cr, j) == prev.idx_ok(
            cq,
            cr,
            j,
        ) by {}
        assert forall|cq: int, cr: int|
            self.has_chunk_at(cq, cr) == prev.has_chunk_at(cq, cr) by {}
        assert(self.wf());
        let cqa = chunk_q_of(a);
        let cra = chunk_r_of(a);
        lemma_slot_range(a);
        self.lemma_chunk_at_is(cqa, cra, i);
        prev.lemma_chunk_at_is(cqa, cra, i);
        assert(self.tile_opt(a) == Some(t));
        assert forall|b: Axial| b != a implies self.tile_opt(b) == prev.tile_opt(b) by {
            let cqb = chunk_q_of(b);
            let crb = chunk_r_of(b);
            if prev.has_chunk_at(cqb, crb) {
                let w = choose|w: int| prev.idx_ok(cqb, crb, w);
                prev.lemma_chunk_at_is(cqb, crb, w);
                self.lemma_chunk_at_is(cqb, crb, w);
                if w == i {
                    lemma_slot_range(b);
                    if slot_of(b) == slot_of(a) {
                        lemma_addr_injective(a, b);
                    }
                    assert(slot_of(b) != slot_of(a));
                }
            }
        }
        assert(self@ =~= prev@.insert(a, t));
    }
}

impl<T: Copy> HexMap<T> {
    /// Registers a fully built chunk.  The chunk coordinate must be fresh:
    /// generation never runs twice for the same chunk.
    pub fn insert_chunk(&mut self, c: HexChunk<T>)
        requires
            old(self).wf(),
            c.wf(),
            !old(self).has_chunk_at(c.coord_q(), c.coord_r()),
        ensures
            final(self).wf(),
            final(self)@ == old(self)@.union_prefer_right(c.as_map()),
            forall|cq: int, cr: int|
                final(self).has_chunk_at(cq, cr) == (old(self).has_chunk_at(cq, cr) || (cq
                    == c.coord_q() && cr == c.coord_r())),
    {
        let ghost prev = *self;
        let ghost n = self.chunks@.len() as int;
        self.chunks.push(c);
        proof {
            assert forall|cq: int, cr: int, j: int|
                0 <= j < n implies self.idx_ok(cq, cr, j) == prev.idx_ok(cq, cr, j) by {}
            assert forall|i: int, j: int|
                0 <= i < self.chunks@.len() && 0 <= j < self.chunks@.len() && i
                    != j implies !((#[trigger] self.chunks@[i]).coord_q() == (
            #[trigger] self.chunks@[j]).coord_q() && self.chunks@[i].coord_r()
                == self.chunks@[j].coord_r()) by {
                if i == n && 0 <= j < n {
                    assert(!prev.idx_ok(c.coord_q(), c.coord_r(), j));
                }
                if j == n && 0 <= i < n {
                    assert(!prev.idx_ok(c.coord_q(), c.coord_r(), i));
                }
            }
            assert(self.wf());
            assert forall|cq: int, cr: int|
                self.has_chunk_at(cq, cr) == (prev.has_chunk_at(cq, cr) || (cq == c.coord_q() && cr
                    == c.coord_r())) by {
                if self.has_chunk_at(cq, cr) {
                    let w = choose|w: int| self.idx_ok(cq, cr, w);
                    if w < n {
                        assert(prev.idx_ok(cq, cr, w));
                    }
                }
                if prev.has_chunk_at(cq, cr) {
                    let w = choose|w: int| prev.idx_ok(cq, cr, w);
                    assert(self.idx_ok(cq, cr, w));
                }
                if cq == c.coord_q() && cr == c.coord_r() {
                    assert(self.idx_ok(cq, cr, n));
                }
            }
            assert forall|b: Axial| #[trigger]
                self.tile_opt(b) == (if c.covers(b) {
                    c.slot(slot_of(b))
                } else {
                    prev.tile_opt(b)
                }) by {
                let cqb = chunk_q_of(b);
                let crb = chunk_r_of(b);
                if c.covers(b) {
                    self.lemma_chunk_at_is(cqb, crb, n);
                } else {
                    if prev.has_chunk_at(cqb, crb) {
                        let w = choose|w: int| prev.idx_ok(cqb, crb, w);
                        prev.lemma_chunk_at_is(cqb, crb, w);
                        self.lemma_chunk_at_is(cqb, crb, w);
                    }
                }
            }
            assert forall|b: Axial| c.covers(b) implies !prev@.contains_key(b) by {}
            assert(self@ =~= prev@.union_prefer_right(c.as_map()));
        }
    }

    /// Writes the slot of `a`, registering an empty chunk for it first if
    /// none exists.  The flow-field builder seeds goals with this, so a
    /// goal outside the generated terrain can still carry its tag.
    pub fn place_tile(&mut self, a: Axial, t: T)
        requires
            old(self).wf(),
        ensures
            final(self).wf(),
            final(self)@ == old(self)@.insert(a, t),
            forall|cq: int, cr: int|
                final(self).has_chunk_at(cq, cr) == (old(self).has_chunk_at(cq, cr) || (cq
                    == chunk_q_of(a) && cr == chunk_r_of(a))),
    {
        let (cq, cr, _li) = addr_of(a);
        proof {
            lemma_slot_range(a);
        }
        if self.find_chunk(cq, cr).is_none() {
            let c: HexChunk<T> = HexChunk::new_empty(cq as i32, cr as i32);
            self.insert_chunk(c);
            proof {
                assert(self@ =~= old(self)@);
            }
        }
        let ok = self.set_tile(a, t);
        proof {
            assert(ok);
        }
    }
}

/// All hexes whose chunk coordinate is `(cq, cr)`.
pub open spec fn footprint(cq: int, cr: int) -> Set<Axial> {
    Set::new(|a: Axial| chunk_q_of(a) == cq && chunk_r_of(a) == cr)
}

/// The hex whose chunk coordinate is `(cq, cr)` and whose slot index is
/// `li`, when one exists in the 32-bit coordinate range.
spec fn axial_at(cq: int, cr: int, li: int) -> Axial {
    let row = 16 * cr + li / 16;
    let col = 16 * cq + li % 16;
    Axial { q: (col - row / 2) as i32, r: row as i32 }
}

/// A chunk footprint holds at most its 256 slots' worth of hexes.
proof fn lemma_footprint_finite(cq: int, cr: int)
    ensures
        footprint(cq, cr).finite(),
{
    let img = vstd::set_lib::set_int_range(0, 256).map(|li: int| axial_at(cq, cr, li));
    assert forall|a: Axial| footprint(cq, cr).contains(a) implies img.contains(a) by {
        lemma_slot_range(a);
        let li = slot_of(a);
        vstd::arithmetic::div_mod::lemma_fundamental_div_mod_converse(
            li,
            16,
            local_row(a),
            local_col(a),
        );
        assert(axial_at(cq, cr, li) == a);
        assert(vstd::set_lib::set_int_range(0, 256).contains(li));
    }
    vstd::set_lib::lemma_int_range(0, 256);
    vstd::set_lib::set_int_range(0, 256).lemma_map_finite(|li: int| axial_at(cq, cr, li));
    vstd::set_lib::lemma_set_subset_finite(img, footprint(cq, cr));
}

/// Union of the footprints of the first `n` chunks.
spec fn footprints_upto<T>(chunks: Seq<HexChunk<T>>, n: int) -> Set<Axial>
    decreases n,
{
    if n <= 0 {
        Set::empty()
    } else {
        footprints_upto(chunks, n - 1).union(
            footprint(chunks[n - 1].coord_q(), chunks[n - 1].coord_r()),
        )
    }
}

proof fn lemma_footprints_upto_finite<T>(chunks: Seq<HexChunk<T>>, n: int)
    ensures
        footprints_upto(chunks, n).finite(),
    decreases n,
{
    if n > 0 {
        lemma_footprints_upto_finite(chunks, n - 1);
        lemma_footprint_finite(chunks[n - 1].coord_q(), chunks[n - 1].coord_r());
    }
}

proof fn lemma_footprint_in_upto<T>(chunks: Seq<HexChunk<T>>, n: int, i: int)
    requires
        0 <= i < n,
    ensures
        footprint(chunks[i].coord_q(), chunks[i].coord_r()) <= footprints_upto(chunks, n),
    decreases n,
{
    if i < n - 1 {
        lemma_footprint_in_upto(chunks, n - 1, i);
    }
}

impl<T: Copy> HexMap<T> {
    /// A tile that exists lies in a registered chunk.
    pub proof fn lemma_contains_has_chunk(self, a: Axial)
        requires
            self@.contains_key(a),
        ensures
            self.has_chunk_at(chunk_q_of(a), chunk_r_of(a)),
    {
    }

    /// The grid holds finitely many tiles: every tile lies in the
    /// footprint of one of the finitely many chunks.
    pub proof fn lemma_dom_finite(self)
        ensures
            self@.dom().finite(),
    {
        let n = self.chunks@.len() as int;
        let upto = footprints_upto(self.chunks@, n);
        assert forall|a: Axial| self@.dom().contains(a) implies upto.contains(a) by {
            let cq = chunk_q_of(a);
            let cr = chunk_r_of(a);
            assert(self.has_chunk_at(cq, cr));
            let i = choose|i: int| self.idx_ok(cq, cr, i);
            assert(footprint(cq, cr).contains(a));
            lemma_footprint_in_upto(self.chunks@, n, i);
        }
        lemma_footprints_upto_finite(self.chunks@, n);
        vstd::set_lib::lemma_set_subset_finite(upto, self@.dom());
    }
}

impl<T: Copy> View for HexMap<T> {
    type V = Map<Axial, T>;

    closed spec fn view(&self) -> Map<Axial, T> {
        Map::new(|a: Axial| self.tile_opt(a) is Some, |a: Axial| self.tile_opt(a)->Some_0)
    }
}

} // verus!
