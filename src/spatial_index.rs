//! The grid index: which entity is recorded in which cell.
use std::collections::{HashMap, HashSet};
use vstd::prelude::*;
use vstd::std_specs::iter::IteratorSpec;
use crate::geometry::{CellKey, Point, adjacent, cell_of, spec_cell_of};

verus! {

broadcast use vstd::std_specs::hash::group_hash_axioms;

/// An opaque, stable reference to an entity of the simulation, carried as
/// the 64 bits that identify it. The index refers to entities; it never
/// owns them.
#[derive(Clone, Copy, Debug, PartialEq, Eq, Hash, Structural)]
pub struct Entity {
    pub bits: u64,
}

impl Entity {
    pub fn from_bits(bits: u64) -> (e: Entity)
        ensures
            e.bits == bits,
    {
        Entity { bits }
    }

    pub fn to_bits(self) -> (bits: u64)
        ensures
            bits == self.bits,
    {
        self.bits
    }
}

/// The index state after recording `e` in the cell that holds `p`: the
/// entity's previous cell, if any, is forgotten.
pub open spec fn upserted(m: Map<u64, CellKey>, size: int, e: Entity, p: Point) -> Map<u64, CellKey> {
    m.insert(e.bits, spec_cell_of(p, size))
}

/// The index state after forgetting `e`.
pub open spec fn removed(m: Map<u64, CellKey>, e: Entity) -> Map<u64, CellKey> {
    m.remove(e.bits)
}

/// The entities recorded in the 3x3 block of cells centred on the cell
/// that holds `p`.
pub open spec fn nearby(m: Map<u64, CellKey>, size: int, p: Point) -> Set<Entity> {
    Set::new(|e: Entity| m.contains_key(e.bits) && adjacent(m[e.bits], spec_cell_of(p, size)))
}

/// The cells of the 3x3 block centred on `center` that a row-by-row sweep
/// has passed before reaching offset `(dx, dy)`.
spec fn swept(h: CellKey, center: CellKey, dx: int, dy: int) -> bool {
    &&& adjacent(h, center)
    &&& (h.x - center.x < dx || (h.x - center.x == dx && h.y - center.y < dy))
}

/// A uniform grid that buckets entities by the cell of side `cell_size`
/// that holds their position.
///
/// Each cell keeps the set of entities recorded in it; a second table
/// records, for each entity, its one cell, so that moving or removing an
/// entity touches a single cell. A cell's set is created on the first
/// insertion and may stay, empty, after its members leave.
pub struct SpatialIndex {
    cell_size: u32,
    cells: HashMap<i64, HashMap<i64, HashSet<u64>>>,
    homes: HashMap<u64, CellKey>,
}

impl View for SpatialIndex {
    /// Each recorded entity, by its bits, mapped to the cell it is recorded in.
    type V = Map<u64, CellKey>;

    closed spec fn view(&self) -> Map<u64, CellKey> {
        self.homes@
    }
}

impl SpatialIndex {
    /// The side of a grid cell, in world units.
    pub closed spec fn size(&self) -> int {
        self.cell_size as int
    }

    closed spec fn in_cell(&self, e: u64, c: CellKey) -> bool {
        &&& self.cells@.contains_key(c.x)
        &&& self.cells@[c.x]@.contains_key(c.y)
        &&& self.cells@[c.x]@[c.y]@.contains(e)
    }

    /// The cell sets and the table of homes agree: an entity is in the set of
    /// a cell exactly when that cell is its home, so it is in at most one
    /// cell's set.
    pub closed spec fn wf(&self) -> bool {
        &&& self.cell_size > 0
        &&& forall|e: u64, c: CellKey| #[trigger]
            self.in_cell(e, c) <==> (self.homes@.contains_key(e) && self.homes@[e] == c)
    }

    /// An empty index whose cells have side `cell_size`.
    ///
    /// The side must be at least the largest interaction distance that a
    /// precise test after the query uses (the sum of two radii), or the 3x3
    /// query can miss a partner across a cell corner.
    pub fn new(cell_size: u32) -> (r: SpatialIndex)
        requires
            cell_size > 0,
        ensures
            r.wf(),
            r@ == Map::<u64, CellKey>::empty(),
            r.size() == cell_size,
    {
        let r = SpatialIndex { cell_size, cells: HashMap::new(), homes: HashMap::new() };
        assert(r.homes@ =~= Map::<u64, CellKey>::empty());
        r
    }

    pub fn cell_size(&self) -> (s: u32)
        ensures
            s == self.size(),
    {
        self.cell_size
    }

    /// Appends the members of cell `c` to `out`, each once.
    fn collect_cell(&self, c: CellKey, out: &mut Vec<Entity>)
        requires
            self.wf(),
            old(out)@.no_duplicates(),
            forall|i: int| 0 <= i < old(out)@.len() ==> !self.in_cell(#[trigger] old(out)@[i].bits, c),
        ensures
            final(out)@.no_duplicates(),
            forall|x: Entity| #[trigger]
                final(out)@.contains(x) <==> (old(out)@.contains(x) || self.in_cell(x.bits, c)),
    {
        let column = match self.cells.get(&c.x) {
            Some(column) => column,
            None => {
                return;
            },
        };
        let members = match column.get(&c.y) {
            Some(members) => members,
            None => {
                return;
            },
        };
        let ghost start = out@;
        let ghost keys = members.iter().remaining();
        for bits in it: members.iter()
            invariant
                it.seq() == keys,
                out@ == start + Seq::new(it.index() as nat, |j: int| Entity { bits: *keys[j] }),
        {
            out.push(Entity { bits: *bits });
        }
        assert(out@ == start + Seq::new(keys.len(), |j: int| Entity { bits: *keys[j] }));
        assert(keys.unref().to_set() == members@);
        assert(keys.no_duplicates());
        assert(forall|b: u64| self.in_cell(b, c) <==> members@.contains(b));
        let ghost ks = keys.unref();
        assert forall|x: Entity| #[trigger]
            out@.contains(x) <==> (start.contains(x) || self.in_cell(x.bits, c)) by {
            if start.contains(x) {
                let i = choose|i: int| 0 <= i < start.len() && start[i] == x;
                assert(out@[i] == x);
            }
            if self.in_cell(x.bits, c) {
                assert(ks.to_set().contains(x.bits));
                let j = choose|j: int| 0 <= j < ks.len() && ks[j] == x.bits;
                assert(out@[start.len() + j] == x);
            }
            if out@.contains(x) && !start.contains(x) {
                let k = choose|k: int| 0 <= k < out@.len() && out@[k] == x;
                if k < start.len() {
                    assert(start[k] == x);
                }
                assert(ks[k - start.len()] == x.bits);
                assert(ks.contains(x.bits));
                assert(ks.to_set().contains(x.bits));
            }
        }
        assert forall|a: int, b: int| 0 <= a < b < out@.len() implies out@[a] != out@[b] by {
            if a >= start.len() {
                assert(keys[a - start.len()] != keys[b - start.len()]);
            } else if b >= start.len() {
                assert(ks[b - start.len()] == out@[b].bits);
                assert(ks.contains(out@[b].bits));
                assert(ks.to_set().contains(out@[b].bits));
                assert(!self.in_cell(start[a].bits, c));
            }
        }
    }

    /// Every entity recorded in the 3x3 block of cells centred on the cell
    /// that holds `pos`, each once, in no particular order. No distance test
    /// is made: this is a coarse filter.
    pub fn get_nearby(&self, pos: Point) -> (r: Vec<Entity>)
        requires
            self.wf(),
        ensures
            r@.no_duplicates(),
            forall|e: Entity| #[trigger] r@.contains(e) <==> nearby(self@, self.size(), pos).contains(e),
    {
        let center = cell_of(pos, self.cell_size);
        let mut out: Vec<Entity> = Vec::new();
        let mut dx: i64 = -1;
        while dx <= 1
            invariant
                self.wf(),
                -1 <= dx <= 2,
                i32::MIN <= center.x <= i32::MAX,
                i32::MIN <= center.y <= i32::MAX,
                out@.no_duplicates(),
                forall|e: Entity| #[trigger] out@.contains(e) <==> (self.homes@.contains_key(e.bits)
                    && swept(self.homes@[e.bits], center, dx as int, -1)),
            decreases 2 - dx,
        {
            let mut dy: i64 = -1;
            while dy <= 1
                invariant
                    self.wf(),
                    -1 <= dx <= 1,
                    -1 <= dy <= 2,
                    i32::MIN <= center.x <= i32::MAX,
                    i32::MIN <= center.y <= i32::MAX,
                    out@.no_duplicates(),
                    forall|e: Entity| #[trigger] out@.contains(e) <==> (self.homes@.contains_key(e.bits)
                        && swept(self.homes@[e.bits], center, dx as int, dy as int)),
                decreases 2 - dy,
            {
                let cell = CellKey { x: center.x + dx, y: center.y + dy };
                assert forall|i: int| 0 <= i < out@.len() implies !self.in_cell(#[trigger] out@[i].bits, cell) by {
                    assert(out@.contains(out@[i]));
                }
                self.collect_cell(cell, &mut out);
                dy += 1;
                assert forall|e: Entity| #[trigger] out@.contains(e) <==> (self.homes@.contains_key(e.bits)
                    && swept(self.homes@[e.bits], center, dx as int, dy as int)) by {
                    assert(self.in_cell(e.bits, cell) <==> (self.homes@.contains_key(e.bits)
                        && self.homes@[e.bits] == cell));
                }
            }
            dx += 1;
            assert forall|e: Entity| #[trigger] out@.contains(e) <==> (self.homes@.contains_key(e.bits)
                && swept(self.homes@[e.bits], center, dx as int, -1)) by {}
        }
        assert forall|e: Entity| #[trigger] out@.contains(e) <==> nearby(self@, self.size(), pos).contains(e) by {}
        out
    }

    /// Records `entity` in exactly the cell that holds `pos`, and in no other.
    /// Recording it again at the same point changes nothing.
    pub fn update(&mut self, entity: Entity, pos: Point)
        requires
            old(self).wf(),
        ensures
            final(self).wf(),
            final(self).size() == old(self).size(),
            final(self)@ == upserted(old(self)@, old(self).size(), entity, pos),
    {
        self.remove(entity);
        let ghost before = *self;
        let c = cell_of(pos, self.cell_size);
        let column = self.cells.entry(c.x).or_insert(HashMap::new());
        let members = column.entry(c.y).or_insert(HashSet::new());
        members.insert(entity.bits);
        self.homes.insert(entity.bits, c);
        assert forall|e: u64, d: CellKey| #[trigger]
            self.in_cell(e, d) <==> (self.homes@.contains_key(e) && self.homes@[e] == d) by {
            assert(before.in_cell(e, d) <==> (before.homes@.contains_key(e)
                && before.homes@[e] == d));
        }
        assert(self@ =~= upserted(old(self)@, old(self).size(), entity, pos));
    }

    /// Forgets `entity`, wherever it is recorded; nothing happens if it is
    /// not recorded.
    pub fn remove(&mut self, entity: Entity)
        requires
            old(self).wf(),
        ensures
            final(self).wf(),
            final(self).size() == old(self).size(),
            final(self)@ == removed(old(self)@, entity),
    {
        match self.homes.remove(&entity.bits) {
            None => {},
            Some(c) => {
                let column = self.cells.entry(c.x).or_insert(HashMap::new());
                let members = column.entry(c.y).or_insert(HashSet::new());
                members.remove(&entity.bits);
            },
        }
        assert forall|e: u64, d: CellKey| #[trigger]
            self.in_cell(e, d) <==> (self.homes@.contains_key(e) && self.homes@[e] == d) by {
            assert(old(self).in_cell(e, d) <==> (old(self).homes@.contains_key(e)
                && old(self).homes@[e] == d));
        }
        assert(self@ =~= removed(old(self)@, entity));
    }
}

/// A well-formed index has cells of positive side.
pub proof fn lemma_wf_size_positive(s: &SpatialIndex)
    requires
        s.wf(),
    ensures
        s.size() > 0,
{
}

/// Whatever the index held before, once `e` is recorded at `p` a query
/// from `p` returns `e`.
pub proof fn lemma_upsert_then_nearby(m: Map<u64, CellKey>, size: int, e: Entity, p: Point)
    requires
        size > 0,
    ensures
        nearby(upserted(m, size, e, p), size, p).contains(e),
{
}

/// Once `e` is removed, no query from any point returns it.
pub proof fn lemma_removed_never_nearby(m: Map<u64, CellKey>, size: int, e: Entity)
    requires
        size > 0,
    ensures
        forall|q: Point| !(#[trigger] nearby(removed(m, e), size, q)).contains(e),
{
}

/// Recording `e` at `start` and then at `dest`, in another cell, leaves `e` in
/// the cell of `dest` alone: a query from `dest` returns it, and it is gone from
/// the cell of `start`, and from every query from `start` whose 3x3 block does not
/// reach the cell of `dest`.
pub proof fn lemma_upsert_moves(m: Map<u64, CellKey>, size: int, e: Entity, start: Point, dest: Point)
    requires
        size > 0,
        spec_cell_of(start, size) != spec_cell_of(dest, size),
    ensures
        ({
            let after = upserted(upserted(m, size, e, start), size, e, dest);
            &&& after.contains_key(e.bits)
            &&& after[e.bits] == spec_cell_of(dest, size)
            &&& after[e.bits] != spec_cell_of(start, size)
            &&& nearby(after, size, dest).contains(e)
            &&& !adjacent(spec_cell_of(start, size), spec_cell_of(dest, size)) ==> !nearby(
                after,
                size,
                start,
            ).contains(e)
        }),
{
}

/// Recording `e` at `p` twice leaves the index as recording it once does.
pub proof fn lemma_upsert_idempotent(m: Map<u64, CellKey>, size: int, e: Entity, p: Point)
    ensures
        upserted(upserted(m, size, e, p), size, e, p) == upserted(m, size, e, p),
{
    assert(upserted(upserted(m, size, e, p), size, e, p) =~= upserted(m, size, e, p));
}

} // verus!
