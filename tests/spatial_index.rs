use gatherers::{CellKey, Entity, Point, SpatialIndex, cell_of};

fn pt(x: i32, y: i32) -> Point {
    Point { x, y }
}

fn sorted_bits(v: &[Entity]) -> Vec<u64> {
    let mut b: Vec<u64> = v.iter().map(|e| e.to_bits()).collect();
    b.sort();
    b
}

#[test]
fn cell_of_floors_toward_negative_infinity() {
    assert_eq!(cell_of(pt(0, 0), 20), CellKey { x: 0, y: 0 });
    assert_eq!(cell_of(pt(19, 20), 20), CellKey { x: 0, y: 1 });
    assert_eq!(cell_of(pt(-1, -20), 20), CellKey { x: -1, y: -1 });
    assert_eq!(cell_of(pt(-21, 39), 20), CellKey { x: -2, y: 1 });
    assert_eq!(cell_of(pt(i32::MIN, i32::MAX), 1), CellKey { x: i32::MIN as i64, y: i32::MAX as i64 });
}

#[test]
fn entity_bits_round_trip() {
    let e = Entity::from_bits(0xdead_beef_0000_0001);
    assert_eq!(e.to_bits(), 0xdead_beef_0000_0001);
    assert_eq!(e.bits, 0xdead_beef_0000_0001);
}

#[test]
fn new_index_is_empty_and_keeps_its_cell_size() {
    let idx = SpatialIndex::new(20);
    assert_eq!(idx.cell_size(), 20);
    assert!(idx.get_nearby(pt(0, 0)).is_empty());
    assert!(idx.get_nearby(pt(-1000, 1000)).is_empty());
}

#[test]
fn upsert_then_query_finds_entity() {
    let mut idx = SpatialIndex::new(20);
    let e = Entity::from_bits(1);
    for p in [pt(0, 0), pt(-7, 33), pt(1000, -1000), pt(i32::MAX, i32::MIN)] {
        idx.update(e, p);
        assert_eq!(sorted_bits(&idx.get_nearby(p)), vec![1]);
    }
}

#[test]
fn query_covers_the_three_by_three_block_only() {
    let mut idx = SpatialIndex::new(10);
    let mut bits: u64 = 0;
    for cx in -2i32..=2 {
        for cy in -2i32..=2 {
            idx.update(Entity::from_bits(bits), pt(cx * 10 + 5, cy * 10 + 5));
            bits += 1;
        }
    }
    let got = sorted_bits(&idx.get_nearby(pt(3, 8)));
    let mut want = Vec::new();
    let mut b: u64 = 0;
    for cx in -2i32..=2 {
        for cy in -2i32..=2 {
            if cx.abs() <= 1 && cy.abs() <= 1 {
                want.push(b);
            }
            b += 1;
        }
    }
    assert_eq!(got, want);
    assert_eq!(got.len(), 9);
}

#[test]
fn remove_makes_entity_unreachable_everywhere() {
    let mut idx = SpatialIndex::new(20);
    let e = Entity::from_bits(5);
    let other = Entity::from_bits(6);
    idx.update(e, pt(10, 10));
    idx.update(other, pt(12, 12));
    idx.remove(e);
    for q in [pt(10, 10), pt(-10, -10), pt(30, 30), pt(0, 0)] {
        assert!(!idx.get_nearby(q).contains(&e));
    }
    assert_eq!(sorted_bits(&idx.get_nearby(pt(10, 10))), vec![6]);
}

#[test]
fn remove_of_absent_entity_is_a_no_op() {
    let mut idx = SpatialIndex::new(20);
    idx.update(Entity::from_bits(1), pt(0, 0));
    idx.remove(Entity::from_bits(2));
    idx.remove(Entity::from_bits(2));
    assert_eq!(sorted_bits(&idx.get_nearby(pt(0, 0))), vec![1]);
}

#[test]
fn upsert_in_another_cell_moves_the_entity() {
    let mut idx = SpatialIndex::new(20);
    let e = Entity::from_bits(9);
    let start = pt(0, 0);
    let dest = pt(100, 0);
    idx.update(e, start);
    idx.update(e, dest);
    assert!(!idx.get_nearby(start).contains(&e));
    assert_eq!(sorted_bits(&idx.get_nearby(dest)), vec![9]);
}

#[test]
fn upsert_into_adjacent_cell_reports_entity_once() {
    let mut idx = SpatialIndex::new(20);
    let e = Entity::from_bits(3);
    idx.update(e, pt(5, 5));
    idx.update(e, pt(25, 5));
    assert_eq!(sorted_bits(&idx.get_nearby(pt(5, 5))), vec![3]);
    assert_eq!(sorted_bits(&idx.get_nearby(pt(25, 5))), vec![3]);
    assert!(idx.get_nearby(pt(-30, 5)).is_empty());
    assert_eq!(sorted_bits(&idx.get_nearby(pt(50, 5))), vec![3]);
    assert!(idx.get_nearby(pt(60, 5)).is_empty());
}

#[test]
fn upsert_twice_equals_once() {
    let mut once = SpatialIndex::new(20);
    let mut twice = SpatialIndex::new(20);
    let e = Entity::from_bits(4);
    let f = Entity::from_bits(8);
    once.update(f, pt(30, 30));
    twice.update(f, pt(30, 30));
    once.update(e, pt(7, 7));
    twice.update(e, pt(7, 7));
    twice.update(e, pt(7, 7));
    for q in [pt(7, 7), pt(-25, 7), pt(45, 45), pt(70, 70), pt(30, -30)] {
        assert_eq!(sorted_bits(&once.get_nearby(q)), sorted_bits(&twice.get_nearby(q)));
    }
    assert_eq!(sorted_bits(&twice.get_nearby(pt(7, 7))), vec![4, 8]);
}

#[test]
fn boundary_neighbours_both_reported() {
    // Units of a tenth: cell size 20.0 is 200, and 9.9, 10.0, 10.1 are 99, 100, 101.
    let mut idx = SpatialIndex::new(200);
    let a = Entity::from_bits(1);
    let b = Entity::from_bits(2);
    idx.update(a, pt(99, 0));
    idx.update(b, pt(101, 0));
    assert_eq!(sorted_bits(&idx.get_nearby(pt(100, 0))), vec![1, 2]);
}

#[test]
fn entities_across_a_cell_border_are_both_reported() {
    let mut idx = SpatialIndex::new(20);
    idx.update(Entity::from_bits(1), pt(19, 0));
    idx.update(Entity::from_bits(2), pt(20, 0));
    assert_eq!(cell_of(pt(19, 0), 20), CellKey { x: 0, y: 0 });
    assert_eq!(cell_of(pt(20, 0), 20), CellKey { x: 1, y: 0 });
    assert_eq!(sorted_bits(&idx.get_nearby(pt(20, 0))), vec![1, 2]);
    assert_eq!(sorted_bits(&idx.get_nearby(pt(19, 0))), vec![1, 2]);
}

#[test]
fn negative_cells_are_neighbours_of_zero() {
    let mut idx = SpatialIndex::new(20);
    idx.update(Entity::from_bits(1), pt(-1, -1));
    idx.update(Entity::from_bits(2), pt(-21, 0));
    assert_eq!(sorted_bits(&idx.get_nearby(pt(0, 0))), vec![1]);
    assert_eq!(sorted_bits(&idx.get_nearby(pt(-20, 0))), vec![1, 2]);
}

#[test]
fn query_returns_no_duplicates() {
    let mut idx = SpatialIndex::new(20);
    for b in 0..50u64 {
        idx.update(Entity::from_bits(b), pt((b as i32) % 7, (b as i32) % 11));
        idx.update(Entity::from_bits(b), pt((b as i32) % 13, (b as i32) % 5));
    }
    let got = sorted_bits(&idx.get_nearby(pt(5, 5)));
    let want: Vec<u64> = (0..50).collect();
    assert_eq!(got, want);
}
