use roguelike::components::PositionComponent;
use roguelike::generate_dungeon::{
    dig_corridors, floor_and_walls, generate_dungeon, place_rooms, place_staircase, Corridor, Room,
};
use roguelike::rng::pcg_from_seed;
use std::collections::HashSet;

fn gap(a: &Room, b: &Room) -> i32 {
    let x_gap = (a.center.x - b.center.x).abs() - a.x_radius as i32 - b.x_radius as i32 - 3;
    let y_gap = (a.center.y - b.center.y).abs() - a.y_radius as i32 - b.y_radius as i32 - 3;
    x_gap.max(y_gap)
}

#[test]
fn rooms_start_at_the_origin_and_keep_apart() {
    for seed in 0..20u64 {
        let mut rng = pcg_from_seed(seed);
        let rooms = place_rooms(&mut rng);
        assert_eq!(rooms[0], Room { center: PositionComponent { x: 0, y: 0 }, x_radius: 3, y_radius: 3 });
        assert!(rooms.len() <= 201);
        for r in &rooms {
            assert!(r.center.x.abs() <= 30 && r.center.y.abs() <= 30);
            assert!((2..=7).contains(&r.x_radius) && (2..=7).contains(&r.y_radius) || *r == rooms[0]);
        }
        for i in 0..rooms.len() {
            for j in (i + 1)..rooms.len() {
                let g = gap(&rooms[i], &rooms[j]);
                assert!(g >= 3 || g == -1, "rooms {} and {} are {} apart", i, j, g);
            }
        }
    }
}

#[test]
fn every_corridor_leads_to_another_room() {
    let mut rng = pcg_from_seed(7);
    let rooms = place_rooms(&mut rng);
    let corridors = dig_corridors(&rooms, &mut rng);
    assert_eq!(corridors.len(), rooms.len());
    for (i, c) in corridors.iter().enumerate() {
        assert_eq!(c.start_room, i);
        if rooms.len() > 1 {
            assert_ne!(c.end_room, i);
        }
    }
}

#[test]
fn every_floor_tile_is_enclosed() {
    for seed in 0..10u64 {
        let mut rng = pcg_from_seed(seed);
        let plan = generate_dungeon(&mut rng);
        let floor: HashSet<PositionComponent> = plan.floor.iter().copied().collect();
        let walls: HashSet<PositionComponent> = plan.walls.iter().copied().collect();
        assert_eq!(floor.len(), plan.floor.len());
        assert_eq!(walls.len(), plan.walls.len());
        assert!(floor.is_disjoint(&walls));
        for p in &plan.floor {
            for n in p.neighbors().iter() {
                assert!(floor.contains(n) || walls.contains(n), "{:?} next to {:?} is open", n, p);
            }
        }
        for room in &plan.rooms {
            let (cx, cy) = (room.center.x, room.center.y);
            let (rx, ry) = (room.x_radius as i32, room.y_radius as i32);
            for x in (cx - rx)..=(cx + rx) {
                for y in (cy - ry)..=(cy + ry) {
                    assert!(floor.contains(&PositionComponent { x, y }));
                }
            }
        }
    }
}

#[test]
fn a_corridor_digs_its_row_then_its_column() {
    let rooms = vec![
        Room { center: PositionComponent { x: 0, y: 0 }, x_radius: 3, y_radius: 3 },
        Room { center: PositionComponent { x: 20, y: 10 }, x_radius: 2, y_radius: 2 },
    ];
    let corridors = vec![
        Corridor {
            start_room: 0,
            end_room: 1,
            start: PositionComponent { x: 1, y: 0 },
            end: PositionComponent { x: 20, y: 9 },
        },
        Corridor {
            start_room: 1,
            end_room: 0,
            start: PositionComponent { x: 20, y: 10 },
            end: PositionComponent { x: 0, y: 1 },
        },
    ];
    let (floor, walls) = floor_and_walls(&rooms, &corridors);
    let floor: HashSet<PositionComponent> = floor.into_iter().collect();
    let walls: HashSet<PositionComponent> = walls.into_iter().collect();
    assert!(floor.contains(&PositionComponent { x: 10, y: 0 }));
    assert!(floor.contains(&PositionComponent { x: 20, y: 4 }));
    assert!(walls.contains(&PositionComponent { x: 10, y: 1 }));
    assert!(walls.contains(&PositionComponent { x: 10, y: -1 }));
    assert!(walls.contains(&PositionComponent { x: 21, y: 4 }));
    assert!(walls.contains(&PositionComponent { x: 4, y: 4 }));
    assert!(!floor.contains(&PositionComponent { x: 10, y: 5 }));
    assert!(!walls.contains(&PositionComponent { x: 10, y: 5 }));
}

#[test]
fn the_staircase_is_away_from_the_edges_of_the_second_room() {
    for seed in 0..20u64 {
        let mut rng = pcg_from_seed(seed);
        let rooms = place_rooms(&mut rng);
        let p = place_staircase(&rooms, &mut rng);
        let room = if rooms.len() >= 2 { rooms[1] } else { rooms[0] };
        assert!((p.x - room.center.x).abs() < room.x_radius as i32);
        assert!((p.y - room.center.y).abs() < room.y_radius as i32);
    }
}
