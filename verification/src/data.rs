//! Components and resources of the item-and-crystal rules: names that may
//! be concealed, small tile positions and the eight directions, sprites,
//! spawners, the message log, scroll colours and the random generator.

use crate::rng::{pcg_from_entropy, shuffle};
use core::time::Duration;
use rand_pcg::Pcg64;
use vstd::prelude::*;

verus! {

/// What an entity is called; a concealed name reads "???".
#[derive(Debug, Hash, PartialEq, Eq, Copy, Clone)]
pub struct Name {
    pub text: &'static str,
    pub concealed: bool,
}

impl Name {
    pub fn new(text: &'static str, concealed: bool) -> (n: Self)
        ensures
            n == (Name { text, concealed }),
    {
        Name { text, concealed }
    }

    /// The name as shown: "???" while concealed.
    pub fn get_text(&self) -> (t: &'static str)
        ensures
            self.concealed ==> t@ == "???"@,
            !self.concealed ==> t == self.text,
    {
        if self.concealed {
            "???"
        } else {
            self.text
        }
    }
}

/// The eight directions; `Up` raises `y`, `Right` raises `x`.
#[derive(Debug, Hash, PartialEq, Eq, Copy, Clone, Structural)]
pub enum Direction {
    Up,
    Down,
    Left,
    Right,
    UpLeft,
    DownLeft,
    DownRight,
    UpRight,
}

/// The step `(dx, dy)` of a direction.
pub open spec fn direction_step(d: Direction) -> (int, int) {
    match d {
        Direction::Up => (0, 1),
        Direction::Down => (0, -1),
        Direction::Left => (-1, 0),
        Direction::Right => (1, 0),
        Direction::UpLeft => (-1, 1),
        Direction::DownLeft => (-1, -1),
        Direction::DownRight => (1, -1),
        Direction::UpRight => (1, 1),
    }
}

/// A tile position with small coordinates.
#[derive(Debug, Hash, PartialEq, Eq, Copy, Clone, Structural)]
pub struct Position {
    pub x: i16,
    pub y: i16,
}

/// `p` moved by `(dx, dy)`.
pub open spec fn moved(p: Position, dx: int, dy: int) -> Position {
    Position { x: (p.x + dx) as i16, y: (p.y + dy) as i16 }
}

/// The coordinates of `p` moved by `(dx, dy)` are still `i16`.
pub open spec fn can_move_by(p: Position, dx: int, dy: int) -> bool {
    i16::MIN <= p.x + dx <= i16::MAX && i16::MIN <= p.y + dy <= i16::MAX
}

/// The eight tiles around `p` in the order right, left, up, down, up-right,
/// down-right, up-left, down-left.
pub open spec fn position_candidates(p: Position) -> Seq<Position> {
    seq![
        moved(p, 1, 0),
        moved(p, -1, 0),
        moved(p, 0, 1),
        moved(p, 0, -1),
        moved(p, 1, 1),
        moved(p, 1, -1),
        moved(p, -1, 1),
        moved(p, -1, -1),
    ]
}

/// The tiles around `p`, in the order of `position_candidates`, that are
/// not obstacles.
pub open spec fn free_neighbors(p: Position, obstacles: Seq<Position>) -> Seq<Position> {
    position_candidates(p).filter(|q: Position| !obstacles.contains(q))
}

fn abs_i32(v: i32) -> (r: u32)
    requires
        v > i32::MIN,
    ensures
        r == crate::components::abs(v as int),
{
    if v < 0 {
        (-v) as u32
    } else {
        v as u32
    }
}

fn contains_position(obstacles: &Vec<Position>, p: Position) -> (r: bool)
    ensures
        r == obstacles@.contains(p),
{
    let mut i: usize = 0;
    while i < obstacles.len()
        invariant
            i <= obstacles@.len(),
            forall|j: int| 0 <= j < i ==> obstacles@[j] != p,
        decreases obstacles@.len() - i,
    {
        if obstacles[i] == p {
            assert(obstacles@[i as int] == p);
            return true;
        }
        i = i + 1;
    }
    false
}

impl Position {
    pub fn new(x: i16, y: i16) -> (p: Self)
        ensures
            p == (Position { x, y }),
    {
        Position { x, y }
    }

    /// Taxicab distance. Each coordinate difference must fit in an `i16`.
    pub fn distance_from(self, other: Self) -> (d: u32)
        requires
            i16::MIN <= other.x - self.x <= i16::MAX,
            i16::MIN <= other.y - self.y <= i16::MAX,
        ensures
            d == crate::components::abs(other.x - self.x) + crate::components::abs(other.y - self.y),
    {
        let dx = (other.x - self.x) as i32;
        let dy = (other.y - self.y) as i32;
        abs_i32(dx) + abs_i32(dy)
    }

    /// The tile one step in `direction`; it must have `i16` coordinates.
    pub fn offset_by(self, direction: Direction) -> (p: Self)
        requires
            can_move_by(self, direction_step(direction).0, direction_step(direction).1),
        ensures
            p == moved(self, direction_step(direction).0, direction_step(direction).1),
    {
        match direction {
            Direction::Up => Self::new(self.x, self.y + 1),
            Direction::Down => Self::new(self.x, self.y - 1),
            Direction::Left => Self::new(self.x - 1, self.y),
            Direction::Right => Self::new(self.x + 1, self.y),
            Direction::UpLeft => Self::new(self.x - 1, self.y + 1),
            Direction::DownLeft => Self::new(self.x - 1, self.y - 1),
            Direction::DownRight => Self::new(self.x + 1, self.y - 1),
            Direction::UpRight => Self::new(self.x + 1, self.y + 1),
        }
    }

    /// The surrounding tiles that are not obstacles (see `free_neighbors`).
    /// Every surrounding tile must have `i16` coordinates.
    pub fn neighbors(self, obstacles: &Vec<Position>) -> (r: Vec<Position>)
        requires
            i16::MIN < self.x < i16::MAX,
            i16::MIN < self.y < i16::MAX,
        ensures
            r@ == free_neighbors(self, obstacles@),
    {
        let candidates = [
            Position { x: self.x + 1, y: self.y },
            Position { x: self.x - 1, y: self.y },
            Position { x: self.x, y: self.y + 1 },
            Position { x: self.x, y: self.y - 1 },
            Position { x: self.x + 1, y: self.y + 1 },
            Position { x: self.x + 1, y: self.y - 1 },
            Position { x: self.x - 1, y: self.y + 1 },
            Position { x: self.x - 1, y: self.y - 1 },
        ];
        assert(candidates@ =~= position_candidates(self));
        let mut r: Vec<Position> = Vec::new();
        let mut k: usize = 0;
        while k < 8
            invariant
                k <= 8,
                candidates@ == position_candidates(self),
                r@ == candidates@.subrange(0, k as int).filter(|q: Position| !obstacles@.contains(q)),
            decreases 8 - k,
        {
            proof {
                assert(candidates@.subrange(0, k + 1).drop_last() =~= candidates@.subrange(0, k as int));
                reveal_with_fuel(Seq::filter, 1);
            }
            if !contains_position(obstacles, candidates[k]) {
                r.push(candidates[k]);
            }
            k = k + 1;
        }
        assert(candidates@.subrange(0, 8) =~= candidates@);
        r
    }
}

impl Position {
    /// Taxicab distance to the tile `other`. Each coordinate difference, and
    /// their sum, must fit the arithmetic.
    pub fn distance_from_tuple(&self, other: (i32, i32)) -> (d: u32)
        requires
            i32::MIN < self.x - other.0 <= i32::MAX,
            i32::MIN < self.y - other.1 <= i32::MAX,
            crate::components::abs(self.x - other.0) + crate::components::abs(self.y - other.1) <= u32::MAX,
        ensures
            d == crate::components::abs(self.x - other.0) + crate::components::abs(self.y - other.1),
    {
        let dx = self.x as i32 - other.0;
        let dy = self.y as i32 - other.1;
        abs_i32(dx) + abs_i32(dy)
    }
}

/// Health and the effects that act on it. The spawn-hastening threshold
/// is in thousandths of the maximum health.
#[derive(Debug, Hash, PartialEq, Eq, Copy, Clone)]
pub struct Attackable {
    pub current_health: u32,
    pub max_health: u32,
    pub is_boss: bool,
    pub crystals_dropped_on_death: u32,
    pub is_oozing: bool,
    /// Damage and radius of the blast on death.
    pub explode_on_death: (u32, u32),
    /// Health threshold (thousandths of the maximum) and turns by which the
    /// spawners are hastened once health is at or below it.
    pub lower_spawn_times: (u32, u32),
    pub is_magic_immune: bool,
    pub oozed_stacks: u32,
    pub cant_attack_turns: u32,
    pub cant_move_turns: u32,
    pub blight_stacks: u32,
}

impl Attackable {
    /// Full health, no effects.
    pub fn new(max_health: u32, crystals_dropped_on_death: u32, is_boss: bool) -> (a: Self)
        ensures
            a == (Attackable {
                current_health: max_health,
                max_health,
                is_boss,
                crystals_dropped_on_death,
                is_oozing: false,
                explode_on_death: (0, 0),
                lower_spawn_times: (0, 0),
                is_magic_immune: false,
                oozed_stacks: 0,
                cant_attack_turns: 0,
                cant_move_turns: 0,
                blight_stacks: 0,
            }),
    {
        Attackable {
            current_health: max_health,
            max_health,
            is_boss,
            crystals_dropped_on_death,
            is_oozing: false,
            explode_on_death: (0, 0),
            lower_spawn_times: (0, 0),
            is_magic_immune: false,
            oozed_stacks: 0,
            cant_attack_turns: 0,
            cant_move_turns: 0,
            blight_stacks: 0,
        }
    }
}

/// The player's own state: where it faces, its crystals, its sixteen
/// inventory slots, its turn count and the turns until it heals.
#[derive(Debug, Hash, PartialEq, Eq, Copy, Clone)]
pub struct Player {
    pub facing_direction: Direction,
    pub crystals: u32,
    pub inventory: [Option<crate::world::Entity>; 16],
    pub turns_taken: u32,
    pub heal_turns_left: u32,
}

impl Player {
    /// A player facing up with 200 crystals and `first_item` in its first
    /// slot.
    pub fn new(first_item: crate::world::Entity) -> (p: Self)
        ensures
            p.facing_direction == Direction::Up,
            p.crystals == 200,
            p.inventory@ == seq![Some(first_item)] + Seq::new(15, |i: int| None::<crate::world::Entity>),
            p.turns_taken == 0,
            p.heal_turns_left == 10,
    {
        let mut inventory: [Option<crate::world::Entity>; 16] = [None; 16];
        inventory[0] = Some(first_item);
        assert(inventory@ =~= seq![Some(first_item)] + Seq::new(15, |i: int| None::<crate::world::Entity>));
        Player { facing_direction: Direction::Up, crystals: 200, inventory, turns_taken: 0, heal_turns_left: 10 }
    }
}

/// What using an item does.
#[derive(Debug, Hash, PartialEq, Eq, Copy, Clone, Structural)]
pub enum ItemUse {
    /// Attacks the first attackable entity straight ahead of the player,
    /// within the range.
    Strike { damage: u32, min_range: u32, max_range: u32 },
    /// Hides spawned monsters' looks and reveals the scroll's name.
    Shadows,
    /// Holds the monsters within five tiles of the player in place.
    Entanglement,
    /// Moves the player to a random free tile where something intangible
    /// lies.
    Displacement,
    /// Strikes every monster linked to the player by a chain of monsters at
    /// most three tiles apart.
    Lightning,
    /// Leaps a tile ahead towards what stands two tiles ahead of the player,
    /// then strikes it for eleven.
    JumpSaber,
    /// Strikes for eight within two tiles ahead; a survivor is pushed a tile
    /// along the player's facing, and takes two more when it cannot be.
    TwisterStaff,
    /// Strikes for ten at the next tile ahead; a survivor may (one time in
    /// five) be kept from attacking for two more turns.
    EdgeOfEbony,
    /// Strikes for four within two tiles ahead; a survivor gains six blight
    /// stacks.
    BlightBow,
    /// Strikes within three tiles ahead, for a damage drawn at each use.
    ImprovisedSpellbook,
    /// Strikes the next tile ahead for the count kept on the blade; each
    /// kill raises the count.
    Netherbane,
}

/// An item: crystals spent per use, and what using it does.
#[derive(Debug, Hash, PartialEq, Eq, Copy, Clone, Structural)]
pub struct Item {
    pub crystals_per_use: u32,
    pub try_use: ItemUse,
}

impl Item {
    pub fn new(crystals_per_use: u32, try_use: ItemUse) -> (i: Self)
        ensures
            i == (Item { crystals_per_use, try_use }),
    {
        Item { crystals_per_use, try_use }
    }
}

/// How an entity is drawn.
#[derive(Debug, Hash, PartialEq, Eq, Copy, Clone)]
pub struct Sprite {
    pub id: &'static str,
    pub double_sized: bool,
    pub in_foreground: bool,
}

impl Sprite {
    /// A single-sized sprite drawn in the foreground.
    pub fn new(id: &'static str) -> (s: Self)
        ensures
            s == (Sprite { id, double_sized: false, in_foreground: true }),
    {
        Sprite { id, double_sized: false, in_foreground: true }
    }
}

/// A count kept on an entity.
#[derive(Debug, Hash, PartialEq, Eq, Copy, Clone, Structural)]
pub struct Counter(pub u32);

/// Marks an entity others can walk through.
#[derive(Debug, Hash, PartialEq, Eq, Copy, Clone, Structural)]
pub struct Intangible {}

/// One of the four item slots bound to keys.
#[derive(Debug, Hash, PartialEq, Eq, Copy, Clone, Structural)]
pub enum ItemSlot {
    One,
    Two,
    Three,
    Four,
}

/// Marks the tile that leads to the next floor.
#[derive(Debug, Hash, PartialEq, Eq, Copy, Clone, Structural)]
pub struct Staircase {}

/// Spawns a monster every `turns_per_spawn` turns.
#[derive(Debug, Hash, PartialEq, Eq, Copy, Clone, Structural)]
pub struct Spawner {
    pub turns_since_last_spawn: u32,
    pub turns_per_spawn: u32,
    pub spawn_concealed: bool,
}

impl Spawner {
    /// A spawner every 30 turns that fires on its first tick.
    pub fn new() -> (s: Self)
        ensures
            s.turns_since_last_spawn == 30,
            s.turns_per_spawn == 30,
            !s.spawn_concealed,
    {
        Spawner { turns_since_last_spawn: 30, turns_per_spawn: 30, spawn_concealed: false }
    }

    /// Counts a turn; fires (and starts counting again from zero) once
    /// `turns_per_spawn` turns are counted.
    pub fn tick(&mut self) -> (fired: bool)
        requires
            old(self).turns_since_last_spawn < u32::MAX,
        ensures
            fired == (old(self).turns_since_last_spawn + 1 >= old(self).turns_per_spawn),
            final(self).turns_since_last_spawn == if fired {
                0
            } else {
                old(self).turns_since_last_spawn + 1
            },
            final(self).turns_per_spawn == old(self).turns_per_spawn,
            final(self).spawn_concealed == old(self).spawn_concealed,
    {
        self.turns_since_last_spawn = self.turns_since_last_spawn + 1;
        if self.turns_since_last_spawn >= self.turns_per_spawn {
            self.turns_since_last_spawn = 0;
            true
        } else {
            false
        }
    }
}

/// What using an item did: whether the turn ends and whether the item is
/// used up.
#[derive(Debug, Hash, PartialEq, Eq, Copy, Clone, Structural)]
pub struct ItemResult {
    pub should_end_turn: bool,
    pub should_consume_item: bool,
}

/// Which part of a game is under way.
#[derive(Debug, Hash, PartialEq, Eq, Copy, Clone, Structural)]
pub enum GameState {
    NewGame,
    PlayerTurn,
    EnemyTurn,
}

/// The colour a message is shown in.
#[derive(Debug, Hash, PartialEq, Eq, Copy, Clone, Structural)]
pub enum MessageColor {
    White,
    Orange,
    Red,
    Green,
}

/// How long a message stays on screen.
#[derive(Debug, Hash, PartialEq, Eq, Copy, Clone, Structural)]
pub enum MessageDisplayLength {
    Short,
    Medium,
    Long,
}

/// The `Duration` that `core::time::Duration::from_secs` makes of `secs`.
pub uninterp spec fn duration_of_secs(secs: u64) -> Duration;

/// `core::time::Duration::from_secs`: the duration of `secs` whole seconds.
#[verifier::external_body]
fn duration_from_secs(secs: u64) -> (d: Duration)
    ensures
        d == duration_of_secs(secs),
{
    Duration::from_secs(secs)
}

/// Seconds on screen: 3, 4 and 6.
pub open spec fn display_secs(l: MessageDisplayLength) -> u64 {
    match l {
        MessageDisplayLength::Short => 3,
        MessageDisplayLength::Medium => 4,
        MessageDisplayLength::Long => 6,
    }
}

impl MessageDisplayLength {
    /// The seconds a message of this length stays on screen.
    pub fn seconds(self) -> (s: u64)
        ensures
            s == display_secs(self),
    {
        match self {
            MessageDisplayLength::Short => 3,
            MessageDisplayLength::Medium => 4,
            MessageDisplayLength::Long => 6,
        }
    }

    /// How long a message of this length stays on screen.
    pub fn duration(self) -> (d: Duration)
        ensures
            d == duration_of_secs(display_secs(self)),
    {
        duration_from_secs(self.seconds())
    }
}

/// A message of the log, with the time (in milliseconds of the clock the
/// log is given) it was written.
#[derive(Debug, Hash, PartialEq, Eq, Clone)]
pub struct Message {
    pub text: String,
    pub color: MessageColor,
    pub display_length: MessageDisplayLength,
    pub time_created: u64,
}

/// A message written at `created` is still shown at `now`: no more than its
/// display time has passed (a clock that went back counts as no time).
pub open spec fn still_shown(m: Message, now: u64) -> bool {
    let age: int = if now >= m.time_created {
        now - m.time_created
    } else {
        0
    };
    age <= display_secs(m.display_length) * 1000
}

/// The messages written so far, oldest first.
#[derive(Debug, Hash, PartialEq, Eq, Clone)]
pub struct MessageLog {
    messages: Vec<Message>,
}

impl View for MessageLog {
    type V = Seq<Message>;

    closed spec fn view(&self) -> Seq<Message> {
        self.messages@
    }
}

impl MessageLog {
    pub fn new() -> (l: Self)
        ensures
            l@ == Seq::<Message>::empty(),
    {
        MessageLog { messages: Vec::new() }
    }

    /// Writes a message at time `now` (milliseconds).
    pub fn new_message(
        &mut self,
        message: String,
        color: MessageColor,
        display_length: MessageDisplayLength,
        now: u64,
    )
        ensures
            final(self)@ == old(self)@.push(
                Message { text: message, color, display_length, time_created: now },
            ),
    {
        self.messages.push(Message { text: message, color, display_length, time_created: now });
    }

    /// Forgets the messages no longer shown at `now`, and returns the rest,
    /// newest first.
    pub fn recent_messages(&mut self, now: u64) -> (r: Vec<&Message>)
        ensures
            final(self)@ == old(self)@.filter(|m: Message| still_shown(m, now)),
            r@.len() == final(self)@.len(),
            forall|i: int|
                0 <= i < r@.len() ==> *#[trigger] r@[i] == final(self)@[final(self)@.len() - 1 - i],
    {
        let ghost original = self.messages@;
        let mut i: usize = 0;
        while i < self.messages.len()
            invariant
                i <= self.messages@.len(),
                self.messages@.subrange(0, i as int) == original.subrange(
                    0,
                    original.len() - (self.messages@.len() - i),
                ).filter(|m: Message| still_shown(m, now)),
                self.messages@.subrange(i as int, self.messages@.len() as int) == original.subrange(
                    original.len() - (self.messages@.len() - i),
                    original.len() as int,
                ),
                self.messages@.len() <= original.len(),
            decreases self.messages@.len() - i,
        {
            let ghost before = self.messages@;
            let ghost done = original.len() - (before.len() - i);
            proof {
                assert(original.subrange(0, done + 1).drop_last() =~= original.subrange(0, done));
                assert(original[done] == before[i as int]) by {
                    assert(before.subrange(i as int, before.len() as int)[0] == before[i as int]);
                }
                reveal_with_fuel(Seq::filter, 1);
            }
            let m = &self.messages[i];
            let age: u64 = if now >= m.time_created {
                now - m.time_created
            } else {
                0
            };
            let limit: u64 = m.display_length.seconds() * 1000;
            if age <= limit {
                i = i + 1;
                assert(self.messages@.subrange(0, i as int) =~= before.subrange(0, i - 1).push(
                    before[i - 1],
                ));
                assert(self.messages@.subrange(i as int, self.messages@.len() as int) =~= before.subrange(
                    i - 1,
                    before.len() as int,
                ).drop_first());
                assert(original.subrange(done + 1, original.len() as int) =~= original.subrange(
                    done,
                    original.len() as int,
                ).drop_first());
            } else {
                self.messages.remove(i);
                assert(self.messages@.subrange(0, i as int) =~= before.subrange(0, i as int));
                assert(self.messages@.subrange(i as int, self.messages@.len() as int) =~= before.subrange(
                    i as int,
                    before.len() as int,
                ).drop_first());
                assert(original.subrange(done + 1, original.len() as int) =~= original.subrange(
                    done,
                    original.len() as int,
                ).drop_first());
            }
        }
        assert(self.messages@.subrange(0, i as int) =~= self.messages@);
        assert(original.subrange(0, original.len() as int) =~= original);
        let mut r: Vec<&Message> = Vec::new();
        let mut k: usize = self.messages.len();
        while k > 0
            invariant
                k <= self.messages@.len(),
                r@.len() == self.messages@.len() - k,
                forall|j: int|
                    0 <= j < r@.len() ==> *#[trigger] r@[j] == self.messages@[self.messages@.len() - 1 - j],
            decreases k,
        {
            k = k - 1;
            r.push(&self.messages[k]);
        }
        r
    }

    /// Forgets every message.
    pub fn empty(&mut self)
        ensures
            final(self)@ == Seq::<Message>::empty(),
    {
        self.messages.clear();
    }
}

/// The random generator of the item-and-crystal rules.
pub struct RNG(pub Pcg64);

impl RNG {
    /// A generator seeded by the operating system.
    pub fn new() -> Self {
        RNG(pcg_from_entropy())
    }
}

/// The eight scroll colours, in the order they are listed before shuffling.
pub open spec fn scroll_colors() -> Seq<&'static str> {
    seq![
        "scroll_red",
        "scroll_orange",
        "scroll_yellow",
        "scroll_green",
        "scroll_cyan",
        "scroll_blue",
        "scroll_purple",
        "scroll_black",
    ]
}

/// The look of each kind of scroll and whether the player knows it.
#[derive(Debug, Hash, PartialEq, Eq, Copy, Clone)]
pub struct ScrollInfo {
    pub scroll_of_shadows_sprite: &'static str,
    pub scroll_of_shadows_identified: bool,
    pub scroll_of_displacement_sprite: &'static str,
    pub scroll_of_displacement_identified: bool,
    pub scroll_of_entanglement_sprite: &'static str,
    pub scroll_of_entanglement_identified: bool,
    pub scroll_of_lightning_sprite: &'static str,
    pub scroll_of_lightning_identified: bool,
}

impl ScrollInfo {
    /// The four kinds of scroll each get a colour of their own, drawn at
    /// random from the eight scroll colours; none is identified yet.
    pub fn new(rng: &mut RNG) -> (s: Self)
        ensures
            scroll_colors().contains(s.scroll_of_shadows_sprite),
            scroll_colors().contains(s.scroll_of_displacement_sprite),
            scroll_colors().contains(s.scroll_of_entanglement_sprite),
            scroll_colors().contains(s.scroll_of_lightning_sprite),
            seq![
                s.scroll_of_shadows_sprite,
                s.scroll_of_displacement_sprite,
                s.scroll_of_entanglement_sprite,
                s.scroll_of_lightning_sprite,
            ].no_duplicates(),
            !s.scroll_of_shadows_identified,
            !s.scroll_of_displacement_identified,
            !s.scroll_of_entanglement_identified,
            !s.scroll_of_lightning_identified,
    {
        let mut colors = vec![
            "scroll_red",
            "scroll_orange",
            "scroll_yellow",
            "scroll_green",
            "scroll_cyan",
            "scroll_blue",
            "scroll_purple",
            "scroll_black",
        ];
        proof {
            lemma_scroll_colors_distinct();
            assert(colors@ =~= scroll_colors());
            colors@.lemma_multiset_has_no_duplicates();
        }
        let ghost listed = colors@;
        shuffle(&mut colors, &mut rng.0);
        proof {
            broadcast use vstd::seq_lib::group_to_multiset_ensures;

            assert forall|x: &'static str| colors@.to_multiset().contains(x) implies colors@.to_multiset().count(x) == 1 by {
                assert(listed.to_multiset().contains(x));
            }
            colors@.lemma_multiset_has_no_duplicates_conv();
            assert forall|x: &'static str| colors@.contains(x) implies scroll_colors().contains(x) by {
                assert(colors@.to_multiset().count(x) > 0);
                assert(listed.to_multiset().count(x) > 0);
            }
        }
        let ghost shuffled = colors@;
        let shadows = colors.pop().unwrap();
        let displacement = colors.pop().unwrap();
        let entanglement = colors.pop().unwrap();
        let lightning = colors.pop().unwrap();
        proof {
            assert(shadows == shuffled[7]);
            assert(displacement == shuffled[6]);
            assert(entanglement == shuffled[5]);
            assert(lightning == shuffled[4]);
            assert(shuffled.contains(shuffled[7]));
            assert(shuffled.contains(shuffled[6]));
            assert(shuffled.contains(shuffled[5]));
            assert(shuffled.contains(shuffled[4]));
        }
        ScrollInfo {
            scroll_of_shadows_sprite: shadows,
            scroll_of_shadows_identified: false,
            scroll_of_displacement_sprite: displacement,
            scroll_of_displacement_identified: false,
            scroll_of_entanglement_sprite: entanglement,
            scroll_of_entanglement_identified: false,
            scroll_of_lightning_sprite: lightning,
            scroll_of_lightning_identified: false,
        }
    }
}

spec fn key(i: int) -> int {
    if i == 0 {
        10 * 256 + 'r' as int
    } else if i == 1 {
        13 * 256 + 'o' as int
    } else if i == 2 {
        13 * 256 + 'y' as int
    } else if i == 3 {
        12 * 256 + 'g' as int
    } else if i == 4 {
        11 * 256 + 'c' as int
    } else if i == 5 {
        11 * 256 + 'b' as int
    } else if i == 6 {
        13 * 256 + 'p' as int
    } else {
        12 * 256 + 'b' as int
    }
}

proof fn lemma_scroll_colors_distinct()
    ensures
        scroll_colors().no_duplicates(),
{
    reveal_strlit("scroll_red");
    reveal_strlit("scroll_orange");
    reveal_strlit("scroll_yellow");
    reveal_strlit("scroll_green");
    reveal_strlit("scroll_cyan");
    reveal_strlit("scroll_blue");
    reveal_strlit("scroll_purple");
    reveal_strlit("scroll_black");
    let s = scroll_colors();
    assert forall|i: int| 0 <= i < 8 implies #[trigger] s[i]@.len() >= 10 && (s[i]@.len() * 256 + s[i]@[7] as int)
        == key(i) by {
        if i == 0 {
        } else if i == 1 {
        } else if i == 2 {
        } else if i == 3 {
        } else if i == 4 {
        } else if i == 5 {
        } else if i == 6 {
        } else {
        }
    }
    assert forall|i: int, j: int| 0 <= i < s.len() && 0 <= j < s.len() && i != j implies s[i] != s[j] by {
        assert(s[i]@.len() >= 10 && s[j]@.len() >= 10);
        if s[i] == s[j] {
            assert(key(i) == key(j));
        }
    }
}

/// How rare an item is.
#[derive(Debug, Hash, PartialEq, Eq, Copy, Clone, Structural)]
pub enum Rarity {
    Common,
    Uncommon,
    Rare,
    Epic,
}

} // verus!
