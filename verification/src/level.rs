//! The table of the item-and-crystal rules: each entity with its optional
//! name, position, sprite, health, player state, staircase, spawner, item
//! and intangibility, together with the message log, the part of the game
//! under way and the clock the messages are stamped with.

use crate::components::PositionComponent;
use crate::data::{
    direction_step, moved, Attackable, Direction, GameState, Intangible, Item, MessageColor, MessageDisplayLength,
    MessageLog, Name, Player, Position,
    Spawner, Sprite, Staircase,
};
use crate::generate_dungeon::{
    generate_dungeon, is_wall, lemma_valid_is_drawn, lemma_wall_small, place_staircase, staircase_room,
    strictly_inside, valid_corridors, valid_room_layout, Corridor, Room,
};
use crate::world::Entity;
use rand_pcg::Pcg64;
use vstd::prelude::*;

verus! {

/// One entity and its components.
#[derive(Debug, Copy, Clone)]
pub struct LevelRecord {
    pub entity: Entity,
    pub name: Option<Name>,
    pub position: Option<Position>,
    pub sprite: Option<Sprite>,
    pub attackable: Option<Attackable>,
    pub player: Option<Player>,
    pub staircase: Option<Staircase>,
    pub spawner: Option<Spawner>,
    pub item: Option<Item>,
    pub intangible: Option<Intangible>,
    pub ai: Option<crate::class1::Behaviour>,
    pub counter: Option<crate::data::Counter>,
}

/// A record with the entity `e` and no components.
pub open spec fn bare(e: Entity) -> LevelRecord {
    LevelRecord {
        entity: e,
        name: None,
        position: None,
        sprite: None,
        attackable: None,
        player: None,
        staircase: None,
        spawner: None,
        item: None,
        intangible: None,
        ai: None,
        counter: None,
    }
}

/// The entities, in the order they were added, and the resources.
pub struct Level {
    pub records: Vec<LevelRecord>,
    pub next_id: u64,
    pub message_log: MessageLog,
    pub game_state: GameState,
    /// The clock, in milliseconds, that new messages are stamped with.
    pub now_ms: u64,
    /// The number of the floor being played; zero before the first one is
    /// laid out.
    pub floor_number: u32,
}

/// A coordinate pair from which a step of one tile in any direction stays
/// within `i16`.
pub open spec fn near(p: Position) -> bool {
    -32767 <= p.x <= 32766 && -32767 <= p.y <= 32766
}

/// No entity occurs twice, every entity came before `next_id`, and every
/// position is near the origin.
pub open spec fn records_ok(rs: Seq<LevelRecord>, next_id: u64) -> bool {
    &&& forall|i: int, j: int| 0 <= i < j < rs.len() ==> #[trigger] rs[i].entity != #[trigger] rs[j].entity
    &&& forall|i: int| 0 <= i < rs.len() ==> (#[trigger] rs[i]).entity.id < next_id
    &&& forall|i: int| 0 <= i < rs.len() ==> (#[trigger] rs[i].position matches Some(p) ==> near(p))
}

/// `i` is the index of `e`'s record.
pub open spec fn is_index_of(rs: Seq<LevelRecord>, e: Entity, i: int) -> bool {
    0 <= i < rs.len() && rs[i].entity == e
}

/// The index of `e`'s record, if it has one.
pub open spec fn index_of_spec(rs: Seq<LevelRecord>, e: Entity) -> Option<int> {
    if exists|i: int| is_index_of(rs, e, i) {
        Some(choose|i: int| is_index_of(rs, e, i))
    } else {
        None
    }
}

/// `e`'s record, if it has one.
pub open spec fn record_of(rs: Seq<LevelRecord>, e: Entity) -> Option<LevelRecord> {
    match index_of_spec(rs, e) {
        Some(i) => Some(rs[i]),
        None => None,
    }
}

/// `i` is the index of the first record with a player state.
pub open spec fn is_first_player(rs: Seq<LevelRecord>, i: int) -> bool {
    &&& 0 <= i < rs.len()
    &&& rs[i].player is Some
    &&& forall|j: int| 0 <= j < i ==> #[trigger] rs[j].player is None
}

/// The index of the first record with a player state, if any.
pub open spec fn player_index(rs: Seq<LevelRecord>) -> Option<int> {
    if exists|i: int| is_first_player(rs, i) {
        Some(choose|i: int| is_first_player(rs, i))
    } else {
        None
    }
}

/// With unique entities, the index of a record is determined by its entity.
pub proof fn lemma_index_unique(rs: Seq<LevelRecord>, next_id: u64, e: Entity, i: int)
    requires
        records_ok(rs, next_id),
        is_index_of(rs, e, i),
    ensures
        index_of_spec(rs, e) == Some(i),
        record_of(rs, e) == Some(rs[i]),
{
    let c = choose|c: int| is_index_of(rs, e, c);
    if c < i {
        assert(rs[c].entity != rs[i].entity);
    } else if i < c {
        assert(rs[i].entity != rs[c].entity);
    }
}

/// The first player index is the one `is_first_player` holds of.
pub proof fn lemma_player_index(rs: Seq<LevelRecord>, i: int)
    requires
        is_first_player(rs, i),
    ensures
        player_index(rs) == Some(i),
{
    let c = choose|c: int| is_first_player(rs, c);
    if c < i {
        assert(rs[c].player is None);
    } else if i < c {
        assert(rs[i].player is None);
    }
}

impl Level {
    /// Well-formed: see `records_ok`.
    pub open spec fn wf(&self) -> bool {
        records_ok(self.records@, self.next_id)
    }

    /// An empty level on a new game, with an empty log and the clock at
    /// zero.
    pub fn new() -> (l: Self)
        ensures
            l.wf(),
            l.records@ == Seq::<LevelRecord>::empty(),
            l.next_id == 0,
            l.message_log@ == Seq::<crate::data::Message>::empty(),
            l.game_state == GameState::NewGame,
            l.now_ms == 0,
            l.floor_number == 0,
    {
        Level {
            records: Vec::new(),
            next_id: 0,
            message_log: MessageLog::new(),
            game_state: GameState::NewGame,
            now_ms: 0,
            floor_number: 0,
        }
    }

    /// Adds an entity with the components of `parts` (its entity is
    /// replaced by a new one) and returns the new entity.
    pub fn spawn(&mut self, parts: LevelRecord) -> (e: Entity)
        requires
            old(self).wf(),
            old(self).next_id < u64::MAX,
            parts.position matches Some(p) ==> near(p),
        ensures
            final(self).wf(),
            e.id == old(self).next_id,
            final(self).next_id == old(self).next_id + 1,
            final(self).records@ == old(self).records@.push(LevelRecord { entity: e, ..parts }),
            final(self).message_log == old(self).message_log,
            final(self).game_state == old(self).game_state,
            final(self).now_ms == old(self).now_ms,
            final(self).floor_number == old(self).floor_number,
    {
        let e = Entity { id: self.next_id };
        self.records.push(LevelRecord { entity: e, ..parts });
        self.next_id = self.next_id + 1;
        e
    }

    /// The index of `e`'s record, if it has one.
    pub fn index_of(&self, e: Entity) -> (r: Option<usize>)
        requires
            self.wf(),
        ensures
            r matches Some(i) ==> index_of_spec(self.records@, e) == Some(i as int),
            r is None ==> index_of_spec(self.records@, e) is None,
    {
        let mut i: usize = 0;
        while i < self.records.len()
            invariant
                self.wf(),
                i <= self.records@.len(),
                forall|j: int| 0 <= j < i ==> #[trigger] self.records@[j].entity != e,
            decreases self.records@.len() - i,
        {
            if self.records[i].entity == e {
                proof {
                    lemma_index_unique(self.records@, self.next_id, e, i as int);
                }
                return Some(i);
            }
            i = i + 1;
        }
        assert(!exists|j: int| is_index_of(self.records@, e, j));
        None
    }

    /// The index of the first record with a player state, if any.
    pub fn find_player(&self) -> (r: Option<usize>)
        ensures
            r matches Some(i) ==> is_first_player(self.records@, i as int) && player_index(self.records@)
                == Some(i as int),
            r is None <==> player_index(self.records@) is None,
    {
        let mut i: usize = 0;
        while i < self.records.len()
            invariant
                i <= self.records@.len(),
                forall|j: int| 0 <= j < i ==> #[trigger] self.records@[j].player is None,
            decreases self.records@.len() - i,
        {
            if self.records[i].player.is_some() {
                proof {
                    lemma_player_index(self.records@, i as int);
                }
                return Some(i);
            }
            i = i + 1;
        }
        assert(!exists|j: int| is_first_player(self.records@, j));
        None
    }

    /// Removes `e`'s record, if it has one; the others keep their order.
    pub fn delete_entity(&mut self, e: Entity) -> (removed: bool)
        requires
            old(self).wf(),
        ensures
            final(self).wf(),
            removed == index_of_spec(old(self).records@, e) is Some,
            index_of_spec(final(self).records@, e) is None,
            final(self).records@ == match index_of_spec(old(self).records@, e) {
                Some(i) => old(self).records@.remove(i),
                None => old(self).records@,
            },
            final(self).next_id == old(self).next_id,
            final(self).message_log == old(self).message_log,
            final(self).game_state == old(self).game_state,
            final(self).now_ms == old(self).now_ms,
            final(self).floor_number == old(self).floor_number,
    {
        match self.index_of(e) {
            Some(i) => {
                let ghost before = self.records@;
                self.records.remove(i);
                assert forall|a: int, b: int|
                    0 <= a < b < self.records@.len() implies #[trigger] self.records@[a].entity
                    != #[trigger] self.records@[b].entity by {
                    let a0 = if a < i { a } else { a + 1 };
                    let b0 = if b < i { b } else { b + 1 };
                    assert(self.records@[a] == before[a0]);
                    assert(self.records@[b] == before[b0]);
                }
                assert forall|a: int| 0 <= a < self.records@.len() implies (#[trigger] self.records@[a]).entity.id
                    < self.next_id && (self.records@[a].position matches Some(p) ==> near(p)) by {
                    let a0 = if a < i { a } else { a + 1 };
                    assert(self.records@[a] == before[a0]);
                }
                assert forall|a: int| 0 <= a < self.records@.len() implies !is_index_of(self.records@, e, a) by {
                    let a0 = if a < i { a } else { a + 1 };
                    assert(self.records@[a] == before[a0]);
                    assert(before[i as int].entity == e);
                }
                true
            },
            None => false,
        }
    }

    /// Replaces record `i` by `r`, which keeps its entity.
    pub fn set_record(&mut self, i: usize, r: LevelRecord)
        requires
            old(self).wf(),
            i < old(self).records@.len(),
            r.entity == old(self).records@[i as int].entity,
            r.position matches Some(p) ==> near(p),
        ensures
            final(self).wf(),
            final(self).records@ == old(self).records@.update(i as int, r),
            final(self).next_id == old(self).next_id,
            final(self).message_log == old(self).message_log,
            final(self).game_state == old(self).game_state,
            final(self).now_ms == old(self).now_ms,
            final(self).floor_number == old(self).floor_number,
    {
        self.records.set(i, r);
    }
}

/// Whether `r` stands in the way on `p`: it is there and not intangible.
pub open spec fn blocks(r: LevelRecord, p: Position) -> bool {
    r.intangible is None && r.position == Some(p)
}

/// No record stands in the way on `p`.
pub open spec fn tile_free(rs: Seq<LevelRecord>, p: Position) -> bool {
    forall|j: int| 0 <= j < rs.len() ==> !blocks(#[trigger] rs[j], p)
}

/// Whether `r` is held in place (it cannot move for some turns).
pub open spec fn held(r: LevelRecord) -> bool {
    r.attackable matches Some(a) && a.cant_move_turns > 0
}

/// The tile one step from `p` in direction `d`.
pub open spec fn step_from(p: Position, d: Direction) -> Position {
    moved(p, direction_step(d).0, direction_step(d).1)
}

fn step_exec(p: Position, d: Direction) -> (q: Position)
    requires
        near(p),
    ensures
        q == step_from(p, d),
{
    match d {
        Direction::Up => Position { x: p.x, y: p.y + 1 },
        Direction::Down => Position { x: p.x, y: p.y - 1 },
        Direction::Left => Position { x: p.x - 1, y: p.y },
        Direction::Right => Position { x: p.x + 1, y: p.y },
        Direction::UpLeft => Position { x: p.x - 1, y: p.y + 1 },
        Direction::DownLeft => Position { x: p.x - 1, y: p.y - 1 },
        Direction::DownRight => Position { x: p.x + 1, y: p.y - 1 },
        Direction::UpRight => Position { x: p.x + 1, y: p.y + 1 },
    }
}

/// The tile one step from `p` in direction `d`; `p` must be near the
/// origin.
pub fn step_position(p: Position, d: Direction) -> (q: Position)
    requires
        near(p),
    ensures
        q == step_from(p, d),
{
    step_exec(p, d)
}

/// Whether no record stands in the way on `p`.
pub fn is_tile_free(level: &Level, p: Position) -> (r: bool)
    ensures
        r == tile_free(level.records@, p),
{
    let mut i: usize = 0;
    while i < level.records.len()
        invariant
            i <= level.records@.len(),
            forall|j: int| 0 <= j < i ==> !blocks(#[trigger] level.records@[j], p),
        decreases level.records@.len() - i,
    {
        let r = level.records[i];
        if r.intangible.is_none() && r.position == Some(p) {
            assert(blocks(level.records@[i as int], p));
            return false;
        }
        i = i + 1;
    }
    true
}

/// What a step of `entity` in `direction` did, from `l0` to `l1`: taken
/// (`ok`) exactly when `entity` is not held and the tile there is near the
/// origin and free, moving it there; refused otherwise, changing nothing.
pub open spec fn step_taken(l0: Level, l1: Level, entity: Entity, direction: Direction, ok: bool) -> bool {
    let i = index_of_spec(l0.records@, entity).unwrap();
    let rec = l0.records@[i];
    let target = step_from(rec.position.unwrap(), direction);
    &&& ok <==> (!held(rec) && near(target) && tile_free(l0.records@, target))
    &&& ok ==> l1 == (Level { records: l1.records, ..l0 }) && l1.records@ == l0.records@.update(
        i,
        LevelRecord { position: Some(target), ..rec },
    )
    &&& !ok ==> l1 == l0
}

/// Moves `entity` one step in `direction` when it is not held in place and
/// the tile there is near the origin and free; otherwise nothing changes
/// and the move is refused. `entity` must have a position.
pub fn try_move(entity: Entity, direction: Direction, level: &mut Level) -> (r: Result<(), ()>)
    requires
        old(level).wf(),
        record_of(old(level).records@, entity) matches Some(rec) && rec.position is Some,
    ensures
        final(level).wf(),
        step_taken(*old(level), *final(level), entity, direction, r is Ok),
{
    let i = level.index_of(entity).unwrap();
    let rec = level.records[i];
    let p = rec.position.unwrap();
    assert(near(level.records@[i as int].position.unwrap()));
    let target = step_exec(p, direction);
    let is_held = match rec.attackable {
        Some(a) => a.cant_move_turns > 0,
        None => false,
    };
    if is_held || !(-32767 <= target.x && target.x <= 32766 && -32767 <= target.y && target.y <= 32766)
        || !is_tile_free(level, target) {
        return Err(());
    }
    level.set_record(i, LevelRecord { position: Some(target), ..rec });
    Ok(())
}

/// A wall on `p`.
pub open spec fn wall_record(e: Entity, p: Position) -> LevelRecord {
    LevelRecord {
        name: Some(Name { text: "Wall", concealed: false }),
        position: Some(p),
        sprite: Some(Sprite { id: "wall", double_sized: false, in_foreground: true }),
        ..bare(e)
    }
}

/// The staircase of a new floor on `p`.
pub open spec fn floor_staircase(e: Entity, p: Position) -> LevelRecord {
    LevelRecord {
        name: Some(Name { text: "Staircase", concealed: false }),
        position: Some(p),
        sprite: Some(Sprite { id: "staircase", double_sized: false, in_foreground: true }),
        staircase: Some(Staircase {  }),
        ..bare(e)
    }
}

/// The tile of a layout position.
pub open spec fn tile_of(p: PositionComponent) -> Position {
    Position { x: p.x as i16, y: p.y as i16 }
}

/// Whether `e` goes to the next floor: it is the player, or in the first
/// player's inventory.
pub open spec fn carried_over(pl: LevelRecord, e: Entity) -> bool {
    e == pl.entity || pl.player.unwrap().inventory@.contains(Some(e))
}

/// The records that go to the next floor, in order, the player standing on
/// the origin.
pub open spec fn kept_records(rs: Seq<LevelRecord>, pl: LevelRecord) -> Seq<LevelRecord> {
    rs.filter(|r: LevelRecord| carried_over(pl, r.entity)).map_values(
        |r: LevelRecord|
            if r.entity == pl.entity {
                LevelRecord { position: Some(Position { x: 0, y: 0 }), ..r }
            } else {
                r
            },
    )
}

/// `l1` is the next floor after `l0`: the player (on the origin) and what
/// it carries are kept in order; then come the walls of a fresh layout,
/// each on a wall tile, and a staircase strictly inside its staircase room;
/// and, when ids did not run out, every wall tile has its wall.
pub open spec fn floor_laid_out(l0: Level, l1: Level) -> bool {
    let pl = l0.records@[player_index(l0.records@).unwrap()];
    let kept = kept_records(l0.records@, pl);
    let n = l1.records@.len();
    &&& l1.floor_number == if l0.floor_number < u32::MAX {
        l0.floor_number + 1
    } else {
        l0.floor_number as int
    }
    &&& l1.message_log@.len() == l0.message_log@.len() + 1
    &&& l1.message_log@.drop_last() == l0.message_log@
    &&& l1.message_log@.last().text@ == entering_text(l1.floor_number)
    &&& l1.message_log@.last().color == MessageColor::White
    &&& l1.message_log@.last().display_length == MessageDisplayLength::Medium
    &&& l1.message_log@.last().time_created == l0.now_ms
    &&& l1.game_state == l0.game_state
    &&& l1.now_ms == l0.now_ms
    &&& l1.next_id >= l0.next_id
    &&& n >= kept.len()
    &&& l1.records@.subrange(0, kept.len() as int) == kept
    &&& exists|rooms: Seq<Room>, cs: Seq<Corridor>|
        #![trigger valid_room_layout(rooms), valid_corridors(rooms, cs)]
        {
            &&& valid_room_layout(rooms)
            &&& valid_corridors(rooms, cs)
            &&& forall|j: int|
                kept.len() <= j < n ==> exists|w: PositionComponent|
                    #[trigger] l1.records@[j] == wall_record(l1.records@[j].entity, tile_of(w)) && is_wall(
                        rooms,
                        cs,
                        w,
                    ) || l1.records@[j] == floor_staircase(l1.records@[j].entity, tile_of(w))
                        && strictly_inside(staircase_room(rooms), w)
            &&& l1.next_id < u64::MAX ==> forall|w: PositionComponent|
                #[trigger] is_wall(rooms, cs, w) ==> exists|j: int|
                    kept.len() <= j < n && l1.records@[j] == wall_record(l1.records@[j].entity, tile_of(w))
        }
}

/// The message on entering floor `n`: "Entering floor " and `n` in decimal.
pub open spec fn entering_text(n: u32) -> Seq<char> {
    "Entering floor "@ + crate::attack::decimal(n as nat)
}

/// `std::format!` with "Entering floor {}": the number in decimal, as
/// `entering_text` spells it out.
#[verifier::external_body]
fn format_entering_floor(n: u32) -> (s: String)
    ensures
        s@ == entering_text(n),
{
    format!("Entering floor {}", n)
}

/// Lays out the next floor (see `floor_laid_out`) with `rng`: the floor
/// number goes up and "Entering floor N" is logged.
pub fn lay_out_floor(level: &mut Level, rng: &mut Pcg64)
    requires
        old(level).wf(),
        player_index(old(level).records@) is Some,
    ensures
        final(level).wf(),
        floor_laid_out(*old(level), *final(level)),
{
    let ghost l0 = *level;
    let pi = level.find_player().unwrap();
    let pl = level.records[pi];
    let inventory = pl.player.unwrap().inventory;
    let ghost rs = level.records@;
    let mut kept: Vec<LevelRecord> = Vec::new();
    let mut i: usize = 0;
    while i < level.records.len()
        invariant
            rs == level.records@,
            l0.records@ == rs,
            records_ok(rs, level.next_id),
            pl == rs[pi as int],
            pi < rs.len(),
            inventory == pl.player.unwrap().inventory,
            i <= rs.len(),
            kept@ == kept_records(rs.subrange(0, i as int), pl),
            forall|a: int|
                0 <= a < kept@.len() ==> exists|b: int| 0 <= b < i && (#[trigger] kept@[a]).entity == rs[b].entity,
            forall|a: int, c: int|
                0 <= a < c < kept@.len() ==> #[trigger] kept@[a].entity != #[trigger] kept@[c].entity,
            forall|a: int|
                0 <= a < kept@.len() ==> (#[trigger] kept@[a]).entity.id < level.next_id && (kept@[a].position matches Some(
                    q,
                ) ==> near(q)),
        decreases rs.len() - i,
    {
        let r = level.records[i];
        let mut keep = r.entity == pl.entity;
        let mut k: usize = 0;
        while k < 16
            invariant
                k <= 16,
                inventory == pl.player.unwrap().inventory,
                keep == (r.entity == pl.entity || inventory@.subrange(0, k as int).contains(Some(r.entity))),
            decreases 16 - k,
        {
            if inventory[k] == Some(r.entity) {
                keep = true;
            }
            proof {
                let s0 = inventory@.subrange(0, k as int);
                let s1 = inventory@.subrange(0, k + 1);
                let x = Some(r.entity);
                if s1.contains(x) {
                    let j = choose|j: int| 0 <= j < s1.len() && s1[j] == x;
                    if j < k {
                        assert(s0[j] == s1[j]);
                    }
                }
                if s0.contains(x) {
                    let j = choose|j: int| 0 <= j < s0.len() && s0[j] == x;
                    assert(s1[j] == s0[j]);
                }
                if inventory@[k as int] == x {
                    assert(s1[k as int] == x);
                }
            }
            k = k + 1;
        }
        assert(inventory@.subrange(0, 16) =~= inventory@);
        proof {
            assert(rs.subrange(0, i + 1).drop_last() =~= rs.subrange(0, i as int));
            reveal_with_fuel(Seq::filter, 1);
        }
        let ghost before = kept@;
        if keep {
            if r.entity == pl.entity {
                kept.push(LevelRecord { position: Some(Position { x: 0, y: 0 }), ..r });
            } else {
                kept.push(r);
            }
            proof {
                assert forall|a: int| 0 <= a < before.len() implies #[trigger] kept@[a].entity != r.entity by {
                    let b = choose|b: int| 0 <= b < i && before[a].entity == rs[b].entity;
                    assert(rs[b].entity != rs[i as int].entity);
                }
                assert(kept@[before.len() as int].entity == rs[i as int].entity);
            }
        }
        proof {
            let f = |q: LevelRecord| carried_over(pl, q.entity);
            let f0 = rs.subrange(0, i as int).filter(f);
            let f1 = rs.subrange(0, i + 1).filter(f);
            if carried_over(pl, r.entity) {
                assert(f1 == f0.push(r));
                assert(kept_records(rs.subrange(0, i + 1), pl) =~= kept_records(rs.subrange(0, i as int), pl).push(
                    if r.entity == pl.entity {
                        LevelRecord { position: Some(Position { x: 0, y: 0 }), ..r }
                    } else {
                        r
                    },
                ));
            } else {
                assert(f1 == f0);
            }
        }
        i = i + 1;
    }
    assert(rs.subrange(0, i as int) =~= rs);
    proof {
        lemma_player_index(rs, pi as int);
    }
    level.records = kept;
    let plan = generate_dungeon(rng);
    proof {
        lemma_valid_is_drawn(plan.rooms@, plan.corridors@);
    }
    let stairs = place_staircase(&plan.rooms, rng);
    let ghost n_kept = level.records@.len();
    let ghost kept_seq = level.records@;
    let mut w: usize = 0;
    while w < plan.walls.len()
        invariant
            level.wf(),
            plan.valid(),
            w <= plan.walls@.len(),
            level.records@.len() >= n_kept,
            level.records@.subrange(0, n_kept as int) == kept_seq,
            level.next_id >= l0.next_id,
            level.message_log == l0.message_log,
            level.game_state == l0.game_state,
            level.now_ms == l0.now_ms,
            level.floor_number == l0.floor_number,
            forall|j: int|
                n_kept <= j < level.records@.len() ==> exists|q: PositionComponent|
                    #[trigger] level.records@[j] == wall_record(level.records@[j].entity, tile_of(q)) && is_wall(
                        plan.rooms@,
                        plan.corridors@,
                        q,
                    ),
            level.next_id < u64::MAX ==> forall|k: int|
                #![trigger plan.walls@[k]]
                0 <= k < w ==> exists|j: int|
                    n_kept <= j < level.records@.len() && #[trigger] level.records@[j] == wall_record(
                        level.records@[j].entity,
                        tile_of(plan.walls@[k]),
                    ),
        decreases plan.walls@.len() - w,
    {
        let q = plan.walls[w];
        proof {
            assert(plan.walls@.contains(q));
            lemma_wall_small(plan.rooms@, plan.corridors@, q);
        }
        if level.next_id < u64::MAX {
            let ghost before = level.records@;
            let e = level.spawn(
                LevelRecord {
                    entity: Entity { id: 0 },
                    name: Some(Name::new("Wall", false)),
                    position: Some(Position { x: q.x as i16, y: q.y as i16 }),
                    sprite: Some(Sprite::new("wall")),
                    attackable: None,
                    player: None,
                    staircase: None,
                    spawner: None,
                    item: None,
                    intangible: None,
                    ai: None,
                    counter: None,
                },
            );
            proof {
                assert(level.records@.subrange(0, n_kept as int) =~= before.subrange(0, n_kept as int));
                assert(level.records@[before.len() as int] == wall_record(e, tile_of(q)));
                assert forall|j: int| n_kept <= j < level.records@.len() implies exists|r: PositionComponent|
                    #[trigger] level.records@[j] == wall_record(level.records@[j].entity, tile_of(r)) && is_wall(
                        plan.rooms@,
                        plan.corridors@,
                        r,
                    ) by {
                    if j < before.len() {
                        assert(level.records@[j] == before[j]);
                    } else {
                        assert(level.records@[j] == wall_record(level.records@[j].entity, tile_of(q)));
                    }
                }
                if level.next_id < u64::MAX {
                    assert forall|k: int| #![trigger plan.walls@[k]] 0 <= k < w + 1 implies exists|j: int|
                        n_kept <= j < level.records@.len() && #[trigger] level.records@[j] == wall_record(
                            level.records@[j].entity,
                            tile_of(plan.walls@[k]),
                        ) by {
                        if k < w {
                            let j = choose|j: int|
                                n_kept <= j < before.len() && #[trigger] before[j] == wall_record(
                                    before[j].entity,
                                    tile_of(plan.walls@[k]),
                                );
                            assert(level.records@[j] == before[j]);
                        } else {
                            assert(level.records@[before.len() as int] == wall_record(
                                level.records@[before.len() as int].entity,
                                tile_of(plan.walls@[k]),
                            ));
                        }
                    }
                }
            }
        }
        w = w + 1;
    }
    let ghost before = level.records@;
    if level.next_id < u64::MAX {
        proof {
            assert(crate::generate_dungeon::room_in_bounds(staircase_room(plan.rooms@)));
        }
        level.spawn(
            LevelRecord {
                entity: Entity { id: 0 },
                name: Some(Name::new("Staircase", false)),
                position: Some(Position { x: stairs.x as i16, y: stairs.y as i16 }),
                sprite: Some(Sprite::new("staircase")),
                attackable: None,
                player: None,
                staircase: Some(Staircase {  }),
                spawner: None,
                item: None,
                intangible: None,
                ai: None,
                counter: None,
            },
        );
    }
    proof {
        let rooms = plan.rooms@;
        let cs = plan.corridors@;
        let n = level.records@.len();
        assert(level.records@.subrange(0, n_kept as int) =~= before.subrange(0, n_kept as int));
        assert(valid_room_layout(rooms) && valid_corridors(rooms, cs));
        assert forall|j: int| n_kept <= j < n implies exists|q: PositionComponent|
            #[trigger] level.records@[j] == wall_record(level.records@[j].entity, tile_of(q)) && is_wall(
                rooms,
                cs,
                q,
            ) || level.records@[j] == floor_staircase(level.records@[j].entity, tile_of(q)) && strictly_inside(
                staircase_room(rooms),
                q,
            ) by {
            if j < before.len() {
                assert(level.records@[j] == before[j]);
            } else {
                assert(level.records@[j] == floor_staircase(level.records@[j].entity, tile_of(stairs)));
            }
        }
        if level.next_id < u64::MAX {
            assert forall|q: PositionComponent| #[trigger] is_wall(rooms, cs, q) implies exists|j: int|
                n_kept <= j < n && level.records@[j] == wall_record(level.records@[j].entity, tile_of(q)) by {
                assert(plan.walls@.contains(q));
                let k = choose|k: int| 0 <= k < plan.walls@.len() && plan.walls@[k] == q;
                let j = choose|j: int|
                    n_kept <= j < before.len() && #[trigger] before[j] == wall_record(
                        before[j].entity,
                        tile_of(plan.walls@[k]),
                    );
                assert(level.records@[j] == before[j]);
            }
        }
    }
    let ghost laid = *level;
    if level.floor_number < u32::MAX {
        level.floor_number = level.floor_number + 1;
    }
    let text = format_entering_floor(level.floor_number);
    let now = level.now_ms;
    level.message_log.new_message(text, MessageColor::White, MessageDisplayLength::Medium, now);
    assert(level.message_log@.drop_last() =~= laid.message_log@);
    assert(level.records == laid.records);
}

} // verus!
