use gatherers::{Entity, HitEvent, Reaction, ant_spawn_columns, react_to_hit};

fn hit() -> HitEvent {
    HitEvent::new(Entity::from_bits(7), Entity::from_bits(3))
}

#[test]
fn ant_cooling_down_ignores_hit() {
    assert_eq!(react_to_hit(&hit(), false, None), Reaction::Ignore);
    assert_eq!(react_to_hit(&hit(), false, Some(&[Entity::from_bits(9)][..])), Reaction::Ignore);
}

#[test]
fn empty_handed_ant_picks_up() {
    assert_eq!(
        react_to_hit(&hit(), true, None),
        Reaction::PickUp { ant: Entity::from_bits(3), food: Entity::from_bits(7) }
    );
}

#[test]
fn carrying_ant_drops_first_item() {
    let held = [Entity::from_bits(9), Entity::from_bits(10)];
    assert_eq!(
        react_to_hit(&hit(), true, Some(&held[..])),
        Reaction::Drop { ant: Entity::from_bits(3), carried: Entity::from_bits(9) }
    );
}

#[test]
fn ant_with_empty_hold_does_nothing() {
    assert_eq!(react_to_hit(&hit(), true, Some(&[][..])), Reaction::Ignore);
}

#[test]
fn spawn_columns_step_across_the_width() {
    assert_eq!(ant_spawn_columns(100, 50), vec![-100, -50, 0, 50]);
    assert_eq!(ant_spawn_columns(120, 50), vec![-120, -70, -20, 30, 80]);
    assert_eq!(ant_spawn_columns(1, 50), vec![-1]);
    assert!(ant_spawn_columns(0, 50).is_empty());
    assert!(ant_spawn_columns(-5, 1).is_empty());
    assert_eq!(ant_spawn_columns(i32::MAX, u32::MAX), vec![-i32::MAX]);
}
