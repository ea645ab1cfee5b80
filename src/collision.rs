//! From "near" to hit events: each hitter queries the index around its
//! position, keeps the first candidate that passes the configured test,
//! and yields at most one event per tick.
use std::collections::{HashMap, HashSet};
use vstd::prelude::*;
use crate::boundary::Bounding;
use crate::geometry::{
    CellKey, Point, adjacent, lemma_close_coordinates_adjacent_cells, lemma_floor_div_bounds,
    spec_cell_of,
};
use crate::spatial_index::{Entity, SpatialIndex, nearby, removed, upserted};

verus! {

broadcast use vstd::std_specs::hash::group_hash_axioms;

/// One entity as the pipeline sees it: who, where, and how far it reaches.
#[derive(Clone, Copy, Debug, PartialEq, Eq, Structural)]
pub struct Collider {
    pub entity: Entity,
    pub position: Point,
    pub bounds: Bounding,
}

/// How a candidate returned by the grid query is judged.
#[derive(Clone, Copy, Debug, PartialEq, Eq, Structural)]
pub enum HitTest {
    /// Being in the 3x3 block of cells is the hit; right only when the cell
    /// size is calibrated to the interaction diameter.
    CellOnly,
    /// The candidate must also be a known hittable whose circle overlaps the
    /// hitter's: `distance < hitter radius + candidate radius`.
    Precise,
}

/// The configuration of the pipeline: which test turns a candidate into a hit.
#[derive(Clone, Copy, Debug, PartialEq, Eq, Structural)]
pub struct CollisionPlugin {
    pub hit_test: HitTest,
}

impl CollisionPlugin {
    /// Grid adjacency alone decides a hit.
    pub fn new() -> (p: CollisionPlugin)
        ensures
            p.hit_test == HitTest::CellOnly,
    {
        CollisionPlugin { hit_test: HitTest::CellOnly }
    }

    pub fn with_hit_test(self, hit_test: HitTest) -> (p: CollisionPlugin)
        ensures
            p.hit_test == hit_test,
    {
        CollisionPlugin { hit_test }
    }
}

/// One proximity resolution of one tick: `hitter` reached `hittable`.
#[derive(Clone, Copy, Debug, PartialEq, Eq, Structural)]
pub struct HitEvent {
    pub hittable: Entity,
    pub hitter: Entity,
}

impl HitEvent {
    pub fn new(hittable: Entity, hitter: Entity) -> (ev: HitEvent)
        ensures
            ev.hittable == hittable,
            ev.hitter == hitter,
    {
        HitEvent { hittable, hitter }
    }

    pub fn hittable(&self) -> (e: Entity)
        ensures
            e == self.hittable,
    {
        self.hittable
    }

    pub fn hitter(&self) -> (e: Entity)
        ensures
            e == self.hitter,
    {
        self.hitter
    }
}

/// Two circles overlap: the distance between their centres is below the sum
/// of their radii. Both sides are non-negative, so this is the comparison of
/// the squares.
pub open spec fn spec_overlaps(a: Point, ra: int, b: Point, rb: int) -> bool {
    (a.x - b.x) * (a.x - b.x) + (a.y - b.y) * (a.y - b.y) < (ra + rb) * (ra + rb)
}

/// Why the grid query is a sound filter for the overlap test: when the cell
/// side is at least the sum of the radii, two overlapping circles have their
/// centres in the same or in neighbouring cells, so a 3x3 query from either
/// centre returns the other.
pub proof fn lemma_overlap_within_block(a: Point, ra: int, b: Point, rb: int, size: int)
    requires
        ra >= 0,
        rb >= 0,
        ra + rb <= size,
        spec_overlaps(a, ra, b, rb),
    ensures
        adjacent(spec_cell_of(a, size), spec_cell_of(b, size)),
{
    let dx = a.x - b.x;
    let dy = a.y - b.y;
    let reach = ra + rb;
    assert(-reach < dx < reach && -reach < dy < reach) by (nonlinear_arith)
        requires
            dx * dx + dy * dy < reach * reach,
            reach >= 0,
    ;
    lemma_floor_div_bounds(a.x as int, size);
    lemma_floor_div_bounds(b.x as int, size);
    lemma_floor_div_bounds(a.y as int, size);
    lemma_floor_div_bounds(b.y as int, size);
    lemma_close_coordinates_adjacent_cells(a.x as int, b.x as int, size);
    lemma_close_coordinates_adjacent_cells(a.y as int, b.y as int, size);
}

/// Whether the circles of `a` and `b` overlap, computed exactly.
pub fn overlaps(a: &Collider, b: &Collider) -> (r: bool)
    ensures
        r == spec_overlaps(a.position, a.bounds.radius as int, b.position, b.bounds.radius as int),
{
    let dx: i128 = a.position.x as i128 - b.position.x as i128;
    let dy: i128 = a.position.y as i128 - b.position.y as i128;
    let reach: i128 = a.bounds.radius as i128 + b.bounds.radius as i128;
    assert(0 <= dx * dx <= 0x1_0000_0000_0000_0000) by (nonlinear_arith)
        requires
            -0x1_0000_0000 <= dx <= 0x1_0000_0000,
    ;
    assert(0 <= dy * dy <= 0x1_0000_0000_0000_0000) by (nonlinear_arith)
        requires
            -0x1_0000_0000 <= dy <= 0x1_0000_0000,
    ;
    assert(0 <= reach * reach <= 0x4_0000_0000_0000_0000) by (nonlinear_arith)
        requires
            0 <= reach <= 0x2_0000_0000,
    ;
    dx * dx + dy * dy < reach * reach
}

/// Whether candidate `e` counts as a hit for `hitter` under `test`, given
/// the known hittables by entity bits.
pub open spec fn qualifies(test: HitTest, hittables: Map<u64, Collider>, hitter: Collider, e: Entity) -> bool {
    match test {
        HitTest::CellOnly => true,
        HitTest::Precise => {
            &&& hittables.contains_key(e.bits)
            &&& spec_overlaps(
                hitter.position,
                hitter.bounds.radius as int,
                hittables[e.bits].position,
                hittables[e.bits].bounds.radius as int,
            )
        },
    }
}

/// Some candidate near `hitter` qualifies.
pub open spec fn has_hit(
    m: Map<u64, CellKey>,
    size: int,
    test: HitTest,
    hittables: Map<u64, Collider>,
    hitter: Collider,
) -> bool {
    exists|e: Entity| #[trigger]
        nearby(m, size, hitter.position).contains(e) && qualifies(test, hittables, hitter, e)
}

/// With cells at least as wide as the hitter's and a hittable's reach
/// together, a hittable recorded at its own position that overlaps the
/// hitter is never missed: the hitter has a precise hit this tick.
pub proof fn lemma_precise_hit_found(
    m: Map<u64, CellKey>,
    size: int,
    hittables: Map<u64, Collider>,
    hitter: Collider,
    e: Entity,
)
    requires
        hittables.contains_key(e.bits),
        m.contains_key(e.bits),
        m[e.bits] == spec_cell_of(hittables[e.bits].position, size),
        hitter.bounds.radius + hittables[e.bits].bounds.radius <= size,
        spec_overlaps(
            hitter.position,
            hitter.bounds.radius as int,
            hittables[e.bits].position,
            hittables[e.bits].bounds.radius as int,
        ),
    ensures
        has_hit(m, size, HitTest::Precise, hittables, hitter),
{
    let target = hittables[e.bits];
    lemma_overlap_within_block(
        hitter.position,
        hitter.bounds.radius as int,
        target.position,
        target.bounds.radius as int,
        size,
    );
    assert(nearby(m, size, hitter.position).contains(e));
    assert(qualifies(HitTest::Precise, hittables, hitter, e));
}

/// Some entry of `hitters` for entity `e` has a qualifying candidate near it:
/// that entity has had its one hit of the tick.
pub open spec fn served(
    m: Map<u64, CellKey>,
    size: int,
    test: HitTest,
    hittables: Map<u64, Collider>,
    hitters: Seq<Collider>,
    e: Entity,
) -> bool {
    exists|j: int|
        0 <= j < hitters.len() && #[trigger] hitters[j].entity == e && has_hit(
            m,
            size,
            test,
            hittables,
            hitters[j],
        )
}

/// `events` is an outcome of one tick for `hitters`: in the hitters' order,
/// one event for each hitter that has a qualifying candidate near it and was
/// not served by an earlier entry for the same entity, naming one such
/// candidate, and none for the others.
pub open spec fn resolves(
    m: Map<u64, CellKey>,
    size: int,
    test: HitTest,
    hittables: Map<u64, Collider>,
    hitters: Seq<Collider>,
    events: Seq<HitEvent>,
) -> bool
    decreases hitters.len(),
{
    if hitters.len() == 0 {
        events.len() == 0
    } else {
        let h = hitters.last();
        let rest = hitters.drop_last();
        if has_hit(m, size, test, hittables, h) && !served(m, size, test, hittables, rest, h.entity) {
            &&& events.len() > 0
            &&& events.last().hitter == h.entity
            &&& nearby(m, size, h.position).contains(events.last().hittable)
            &&& qualifies(test, hittables, h, events.last().hittable)
            &&& resolves(m, size, test, hittables, rest, events.drop_last())
        } else {
            resolves(m, size, test, hittables, rest, events)
        }
    }
}

/// The first candidate near `hitter`, in the query's order, that qualifies.
fn first_hit(
    index: &SpatialIndex,
    test: HitTest,
    hittables: &HashMap<u64, Collider>,
    hitter: &Collider,
) -> (r: Option<Entity>)
    requires
        index.wf(),
    ensures
        r is None <==> !has_hit(index@, index.size(), test, hittables@, *hitter),
        r matches Some(e) ==> nearby(index@, index.size(), hitter.position).contains(e)
            && qualifies(test, hittables@, *hitter, e),
{
    let candidates = index.get_nearby(hitter.position);
    let mut i: usize = 0;
    while i < candidates.len()
        invariant
            i <= candidates.len(),
            forall|e: Entity| #[trigger]
                candidates@.contains(e) <==> nearby(index@, index.size(), hitter.position).contains(e),
            forall|j: int| 0 <= j < i ==> !qualifies(test, hittables@, *hitter, #[trigger] candidates@[j]),
        decreases candidates.len() - i,
    {
        let e = candidates[i];
        assert(candidates@.contains(e));
        let hit = match test {
            HitTest::CellOnly => true,
            HitTest::Precise => match hittables.get(&e.bits) {
                Some(target) => overlaps(hitter, target),
                None => false,
            },
        };
        if hit {
            return Some(e);
        }
        i += 1;
    }
    assert forall|e: Entity| #[trigger]
        nearby(index@, index.size(), hitter.position).contains(e) implies !qualifies(
        test,
        hittables@,
        *hitter,
        e,
    ) by {
        assert(candidates@.contains(e));
        let j = choose|j: int| 0 <= j < candidates@.len() && candidates@[j] == e;
    }
    None
}

/// Runs the pipeline for one tick: each hitter, in order, queries the index
/// around its position and emits one event for the first candidate that
/// passes `test`, or none. Which qualifying candidate comes first is the
/// index's own order, not a stable one. A hitter gets at most one event per
/// tick: an entity listed again after its hit is skipped.
pub fn collision_system(
    index: &SpatialIndex,
    test: HitTest,
    hitters: &Vec<Collider>,
    hittables: &HashMap<u64, Collider>,
) -> (events: Vec<HitEvent>)
    requires
        index.wf(),
    ensures
        events@.len() <= hitters@.len(),
        resolves(index@, index.size(), test, hittables@, hitters@, events@),
        forall|a: int, b: int| 0 <= a < b < events@.len() ==> events@[a].hitter != events@[b].hitter,
{
    let ghost m = index@;
    let ghost size = index.size();
    let ghost known = hittables@;
    let mut events: Vec<HitEvent> = Vec::new();
    let mut done: HashSet<u64> = HashSet::new();
    let mut i: usize = 0;
    while i < hitters.len()
        invariant
            index.wf(),
            m == index@,
            size == index.size(),
            known == hittables@,
            i <= hitters.len(),
            events@.len() <= i,
            resolves(m, size, test, known, hitters@.take(i as int), events@),
            forall|b: u64| #[trigger]
                done@.contains(b) <==> served(
                    m,
                    size,
                    test,
                    known,
                    hitters@.take(i as int),
                    Entity { bits: b },
                ),
            forall|k: int| 0 <= k < events@.len() ==> done@.contains(#[trigger] events@[k].hitter.bits),
            forall|a: int, b: int| 0 <= a < b < events@.len() ==> events@[a].hitter != events@[b].hitter,
        decreases hitters.len() - i,
    {
        let hitter = &hitters[i];
        let ghost before = events@;
        let ghost prefix = hitters@.take(i as int);
        let ghost next = hitters@.take(i + 1);
        assert(next.drop_last() == prefix);
        assert(next.last() == *hitter);
        if !done.contains(&hitter.entity.bits) {
            match first_hit(index, test, hittables, hitter) {
                Some(e) => {
                    events.push(HitEvent { hittable: e, hitter: hitter.entity });
                    done.insert(hitter.entity.bits);
                },
                None => {},
            }
        }
        i += 1;
        assert(events@.len() > before.len() ==> events@.drop_last() == before);
        assert forall|b: u64| #[trigger]
            done@.contains(b) <==> served(m, size, test, known, next, Entity { bits: b }) by {
            if served(m, size, test, known, next, Entity { bits: b }) {
                let j = choose|j: int|
                    0 <= j < next.len() && #[trigger] next[j].entity == Entity { bits: b }
                        && has_hit(m, size, test, known, next[j]);
                if j < prefix.len() {
                    assert(prefix[j] == next[j]);
                    assert(served(m, size, test, known, prefix, Entity { bits: b }));
                }
            }
            if served(m, size, test, known, prefix, Entity { bits: b }) {
                let j = choose|j: int|
                    0 <= j < prefix.len() && #[trigger] prefix[j].entity == Entity { bits: b }
                        && has_hit(m, size, test, known, prefix[j]);
                assert(next[j] == prefix[j]);
            }
        }
        assert forall|k: int| 0 <= k < events@.len() implies done@.contains(
            #[trigger] events@[k].hitter.bits,
        ) by {
            if k < before.len() {
                assert(events@[k] == before[k]);
            }
        }
    }
    assert(hitters@.take(i as int) == hitters@);
    events
}

/// The index after recording each placement in turn.
pub open spec fn upserted_all(m: Map<u64, CellKey>, size: int, placed: Seq<(Entity, Point)>) -> Map<
    u64,
    CellKey,
>
    decreases placed.len(),
{
    if placed.len() == 0 {
        m
    } else {
        upserted(upserted_all(m, size, placed.drop_last()), size, placed.last().0, placed.last().1)
    }
}

/// The index after forgetting each entity in turn.
pub open spec fn removed_all(m: Map<u64, CellKey>, gone: Seq<Entity>) -> Map<u64, CellKey>
    decreases gone.len(),
{
    if gone.len() == 0 {
        m
    } else {
        removed(removed_all(m, gone.drop_last()), gone.last())
    }
}

/// An entity that a tick's synchronisation forgets is returned by no query
/// of that tick, whatever else was recorded first.
pub proof fn lemma_gone_not_nearby(m: Map<u64, CellKey>, size: int, gone: Seq<Entity>, e: Entity)
    requires
        gone.contains(e),
    ensures
        !removed_all(m, gone).contains_key(e.bits),
        forall|q: Point| !(#[trigger] nearby(removed_all(m, gone), size, q)).contains(e),
    decreases gone.len(),
{
    if gone.last() != e {
        let k = choose|k: int| 0 <= k < gone.len() && gone[k] == e;
        assert(gone.drop_last()[k] == e);
        lemma_gone_not_nearby(m, size, gone.drop_last(), e);
    }
}

fn upsert_each(index: &mut SpatialIndex, placed: &Vec<(Entity, Point)>)
    requires
        old(index).wf(),
    ensures
        final(index).wf(),
        final(index).size() == old(index).size(),
        final(index)@ == upserted_all(old(index)@, old(index).size(), placed@),
{
    let mut i: usize = 0;
    while i < placed.len()
        invariant
            index.wf(),
            i <= placed.len(),
            index.size() == old(index).size(),
            index@ == upserted_all(old(index)@, old(index).size(), placed@.take(i as int)),
        decreases placed.len() - i,
    {
        let (entity, pos) = placed[i];
        index.update(entity, pos);
        i += 1;
        assert(placed@.take(i as int).drop_last() == placed@.take(i - 1));
    }
    assert(placed@.take(i as int) == placed@);
}

fn remove_each(index: &mut SpatialIndex, gone: &Vec<Entity>)
    requires
        old(index).wf(),
    ensures
        final(index).wf(),
        final(index).size() == old(index).size(),
        final(index)@ == removed_all(old(index)@, gone@),
{
    let mut i: usize = 0;
    while i < gone.len()
        invariant
            index.wf(),
            i <= gone.len(),
            index.size() == old(index).size(),
            index@ == removed_all(old(index)@, gone@.take(i as int)),
        decreases gone.len() - i,
    {
        index.remove(gone[i]);
        i += 1;
        assert(gone@.take(i as int).drop_last() == gone@.take(i - 1));
    }
    assert(gone@.take(i as int) == gone@);
}

/// Records every hittable at its starting position.
pub fn initialize_hittables(index: &mut SpatialIndex, hittables: &Vec<(Entity, Point)>)
    requires
        old(index).wf(),
    ensures
        final(index).wf(),
        final(index).size() == old(index).size(),
        final(index)@ == upserted_all(old(index)@, old(index).size(), hittables@),
{
    upsert_each(index, hittables);
}

/// Brings the index up to date for one tick: hittables that became
/// collidable are recorded at their current position, then those that
/// stopped being collidable are forgotten.
///
/// Only these transitions are synchronised: a hittable that moves while it
/// stays collidable keeps its old cell until its next transition, which is
/// right only for hittables that rest while collidable (dropped food).
pub fn update_hittable_positions(
    index: &mut SpatialIndex,
    added: &Vec<(Entity, Point)>,
    gone: &Vec<Entity>,
)
    requires
        old(index).wf(),
    ensures
        final(index).wf(),
        final(index).size() == old(index).size(),
        final(index)@ == removed_all(upserted_all(old(index)@, old(index).size(), added@), gone@),
{
    upsert_each(index, added);
    remove_each(index, gone);
}

} // verus!
