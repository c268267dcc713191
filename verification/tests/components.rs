use roguelike::components::{CombatComponent, PositionComponent, Team};

#[test]
fn neighbors_are_listed_clockwise_from_up_left() {
    let p = PositionComponent { x: 0, y: 0 };
    let n = p.neighbors();
    assert_eq!(
        n,
        [
            PositionComponent { x: -1, y: 1 },
            PositionComponent { x: 0, y: 1 },
            PositionComponent { x: 1, y: 1 },
            PositionComponent { x: 1, y: 0 },
            PositionComponent { x: 1, y: -1 },
            PositionComponent { x: 0, y: -1 },
            PositionComponent { x: -1, y: -1 },
            PositionComponent { x: -1, y: 0 },
        ]
    );
}

#[test]
fn is_next_to_only_counts_sides() {
    let p = PositionComponent { x: 3, y: -2 };
    assert!(p.is_next_to(&PositionComponent { x: 4, y: -2 }));
    assert!(p.is_next_to(&PositionComponent { x: 3, y: -3 }));
    assert!(!p.is_next_to(&PositionComponent { x: 4, y: -1 }));
    assert!(!p.is_next_to(&p));
}

#[test]
fn distance_is_taxicab() {
    let a = PositionComponent { x: -3, y: 4 };
    let b = PositionComponent { x: 2, y: -1 };
    assert_eq!(a.distance_from(b), 10);
    assert_eq!(b.distance_from(a), 10);
}

#[test]
fn plus_adds_componentwise() {
    let a = PositionComponent { x: -3, y: 4 };
    assert_eq!(a.plus(PositionComponent { x: 1, y: -1 }), PositionComponent { x: -2, y: 3 });
}

#[test]
fn new_combatant_is_at_full_health_without_effects() {
    let c = CombatComponent::new(20, 5, 6, 7, 8, Team::Enemy);
    assert_eq!(c.current_health, 20);
    assert_eq!(c.max_health, 20);
    assert_eq!(c.get_strength(), 5);
    assert_eq!(c.get_focus(), 6);
    assert_eq!(c.get_agility(), 7);
    assert_eq!(c.get_luck(), 8);
    assert_eq!(c.burn_debuff, (0, 0));
    assert_eq!(c.team, Team::Enemy);
}

#[test]
fn statistics_add_buffs_subtract_debuffs_and_are_capped() {
    let mut c = CombatComponent::new(20, 10, 90, 7, 8, Team::Player);
    c.strength_buff = (5, 3);
    c.strength_debuff = (20, 3);
    assert_eq!(c.get_strength(), 1);
    c.strength_debuff = (15, 3);
    assert_eq!(c.get_strength(), 0);
    c.focus_buff = (30, 2);
    assert_eq!(c.get_focus(), 100);
    c.agility_debuff = (2, 1);
    assert_eq!(c.get_agility(), 5);
}

#[test]
fn raising_a_base_statistic_stops_at_100() {
    let mut c = CombatComponent::new(20, 98, 50, 99, 1, Team::Player);
    c.increase_base_strength(5);
    assert_eq!(c.strength, 100);
    c.increase_base_focus(5);
    assert_eq!(c.focus, 55);
    c.increase_base_agility(2);
    assert_eq!(c.agility, 100);
    c.increase_base_luck(0);
    assert_eq!(c.luck, 1);
    assert_eq!(c.current_health, 20);
}
