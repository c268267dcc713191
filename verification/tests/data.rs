use roguelike::data::{
    Direction, MessageColor, MessageDisplayLength, MessageLog, Name, Position, ScrollInfo, Spawner, Sprite, RNG,
};
use std::collections::HashSet;

#[test]
fn a_concealed_name_reads_question_marks() {
    assert_eq!(Name::new("Phase Bat", false).get_text(), "Phase Bat");
    assert_eq!(Name::new("Phase Bat", true).get_text(), "???");
}

#[test]
fn positions_step_in_every_direction() {
    let p = Position::new(3, -2);
    assert_eq!(p.offset_by(Direction::Up), Position::new(3, -1));
    assert_eq!(p.offset_by(Direction::Down), Position::new(3, -3));
    assert_eq!(p.offset_by(Direction::Left), Position::new(2, -2));
    assert_eq!(p.offset_by(Direction::Right), Position::new(4, -2));
    assert_eq!(p.offset_by(Direction::UpLeft), Position::new(2, -1));
    assert_eq!(p.offset_by(Direction::DownLeft), Position::new(2, -3));
    assert_eq!(p.offset_by(Direction::DownRight), Position::new(4, -3));
    assert_eq!(p.offset_by(Direction::UpRight), Position::new(4, -1));
    assert_eq!(p.distance_from(Position::new(-1, 1)), 7);
}

#[test]
fn free_neighbours_keep_their_order() {
    let p = Position::new(0, 0);
    let obstacles = vec![Position::new(-1, 0), Position::new(1, 1), Position::new(7, 7)];
    assert_eq!(
        p.neighbors(&obstacles),
        vec![
            Position::new(1, 0),
            Position::new(0, 1),
            Position::new(0, -1),
            Position::new(1, -1),
            Position::new(-1, 1),
            Position::new(-1, -1),
        ]
    );
}

#[test]
fn sprites_default_to_single_size_in_front() {
    let s = Sprite::new("wall");
    assert_eq!(s.id, "wall");
    assert!(!s.double_sized);
    assert!(s.in_foreground);
}

#[test]
fn a_new_spawner_fires_at_once_then_every_thirty_ticks() {
    let mut s = Spawner::new();
    assert!(s.tick());
    for _ in 0..29 {
        assert!(!s.tick());
    }
    assert!(s.tick());
    s.turns_per_spawn = 2;
    assert!(!s.tick());
    assert!(s.tick());
}

#[test]
fn display_lengths_last_three_four_and_six_seconds() {
    assert_eq!(MessageDisplayLength::Short.duration().as_secs(), 3);
    assert_eq!(MessageDisplayLength::Medium.duration().as_secs(), 4);
    assert_eq!(MessageDisplayLength::Long.duration().as_secs(), 6);
    assert_eq!(MessageDisplayLength::Long.seconds(), 6);
}

#[test]
fn old_messages_fade_and_recent_ones_come_newest_first() {
    let mut log = MessageLog::new();
    log.new_message("first".to_string(), MessageColor::White, MessageDisplayLength::Short, 1000);
    log.new_message("second".to_string(), MessageColor::Red, MessageDisplayLength::Long, 2000);
    log.new_message("third".to_string(), MessageColor::Green, MessageDisplayLength::Short, 3000);
    let texts: Vec<String> = log.recent_messages(4000).iter().map(|m| m.text.clone()).collect();
    assert_eq!(texts, vec!["third".to_string(), "second".to_string(), "first".to_string()]);
    let texts: Vec<String> = log.recent_messages(5500).iter().map(|m| m.text.clone()).collect();
    assert_eq!(texts, vec!["third".to_string(), "second".to_string()]);
    let texts: Vec<String> = log.recent_messages(8000).iter().map(|m| m.text.clone()).collect();
    assert_eq!(texts, vec!["second".to_string()]);
    assert!(log.recent_messages(8001).is_empty());
    log.new_message("fourth".to_string(), MessageColor::Orange, MessageDisplayLength::Medium, 9000);
    log.empty();
    assert!(log.recent_messages(9000).is_empty());
}

#[test]
fn scrolls_get_four_different_colours() {
    let colours: HashSet<&str> = [
        "scroll_red",
        "scroll_orange",
        "scroll_yellow",
        "scroll_green",
        "scroll_cyan",
        "scroll_blue",
        "scroll_purple",
        "scroll_black",
    ]
    .iter()
    .copied()
    .collect();
    for _ in 0..20 {
        let mut rng = RNG::new();
        let info = ScrollInfo::new(&mut rng);
        let picked: HashSet<&str> = [
            info.scroll_of_shadows_sprite,
            info.scroll_of_displacement_sprite,
            info.scroll_of_entanglement_sprite,
            info.scroll_of_lightning_sprite,
        ]
        .iter()
        .copied()
        .collect();
        assert_eq!(picked.len(), 4);
        assert!(picked.is_subset(&colours));
        assert!(!info.scroll_of_shadows_identified && !info.scroll_of_lightning_identified);
    }
}
