//! The board of the queued-order rules: pieces with an optional position
//! and facing, health, player state and queued movement or attack. Systems
//! (see `systems`) queue orders and carry them out.

use crate::world::Entity;
use vstd::prelude::*;

verus! {

/// The four directions of the queued-order rules; `Up` raises `y`.
#[derive(Debug, Copy, Clone, Hash, PartialEq, Eq, Structural)]
pub enum Direction {
    Up,
    Down,
    Left,
    Right,
}

/// The step `(dx, dy)` of a direction.
pub open spec fn step_of(d: Direction) -> (int, int) {
    match d {
        Direction::Up => (0, 1),
        Direction::Down => (0, -1),
        Direction::Left => (-1, 0),
        Direction::Right => (1, 0),
    }
}

/// A tile and the direction faced on it.
#[derive(Debug, Copy, Clone, Hash, PartialEq, Eq, Structural)]
pub struct GridPosition {
    pub x: i32,
    pub y: i32,
    pub facing_direction: Direction,
}

/// Where a queued movement should end: on the goal or beside it.
#[derive(Debug, Copy, Clone, Hash, PartialEq, Eq, Structural)]
pub enum MovementType {
    StandOn,
    StandNextTo,
}

/// A movement waiting to be carried out.
#[derive(Debug, Copy, Clone, Hash, PartialEq, Eq, Structural)]
pub struct QueuedMovement {
    pub goal_x: i32,
    pub goal_y: i32,
    pub movement_type: MovementType,
}

/// An attack waiting to be carried out.
#[derive(Debug, Copy, Clone, Hash, PartialEq, Eq, Structural)]
pub struct QueuedAttack {
    pub target_entity: Entity,
}

/// What the player's piece counts.
#[derive(Debug, Copy, Clone, Hash, PartialEq, Eq, Structural)]
pub struct PlayerState {
    pub turns_taken: u32,
    pub crystals: u32,
}

/// One piece of the board and its components.
#[derive(Debug, Copy, Clone, PartialEq, Eq)]
pub struct Piece {
    pub entity: Entity,
    pub position: Option<GridPosition>,
    pub player: Option<PlayerState>,
    pub health: Option<u32>,
    pub queued_movement: Option<QueuedMovement>,
    pub queued_attack: Option<QueuedAttack>,
    pub attacks_player: bool,
    pub sprite: Option<&'static str>,
}

/// Coordinates from which a step of one tile in any direction stays within
/// `i32`.
pub open spec fn near_origin(x: int, y: int) -> bool {
    -2147483647 <= x <= 2147483646 && -2147483647 <= y <= 2147483646
}

/// Every piece's position is near the origin.
pub open spec fn pieces_ok(ps: Seq<Piece>) -> bool {
    forall|i: int|
        0 <= i < ps.len() ==> (#[trigger] ps[i].position matches Some(p) ==> near_origin(
            p.x as int,
            p.y as int,
        ))
}

/// Index of the first piece of `ps` that is the player and has a position.
pub open spec fn is_first_player(ps: Seq<Piece>, i: int) -> bool {
    &&& 0 <= i < ps.len()
    &&& ps[i].player is Some
    &&& ps[i].position is Some
    &&& forall|j: int| 0 <= j < i ==> !(#[trigger] ps[j].player is Some && ps[j].position is Some)
}

/// Some piece is the player and has a position.
pub open spec fn has_player(ps: Seq<Piece>) -> bool {
    exists|i: int| 0 <= i < ps.len() && #[trigger] ps[i].player is Some && ps[i].position is Some
}

/// The pieces, in the order they were added, and the handle the next new
/// piece gets.
pub struct Board {
    pub pieces: Vec<Piece>,
    pub next_id: u64,
}

/// The index of the first player piece with a position.
pub fn find_player(pieces: &Vec<Piece>) -> (r: Option<usize>)
    ensures
        r matches Some(i) ==> is_first_player(pieces@, i as int),
        r is None <==> !has_player(pieces@),
{
    let mut i: usize = 0;
    while i < pieces.len()
        invariant
            i <= pieces@.len(),
            forall|j: int| 0 <= j < i ==> !(#[trigger] pieces@[j].player is Some && pieces@[j].position is Some),
        decreases pieces@.len() - i,
    {
        if pieces[i].player.is_some() && pieces[i].position.is_some() {
            return Some(i);
        }
        i = i + 1;
    }
    None
}

/// Whether some piece stands on `(x, y)`.
pub fn occupied(pieces: &Vec<Piece>, x: i32, y: i32) -> (r: bool)
    ensures
        r == exists|i: int|
            0 <= i < pieces@.len() && (#[trigger] pieces@[i].position matches Some(p) && p.x == x && p.y == y),
{
    let mut i: usize = 0;
    while i < pieces.len()
        invariant
            i <= pieces@.len(),
            forall|j: int|
                0 <= j < i ==> !(#[trigger] pieces@[j].position matches Some(p) && p.x == x && p.y == y),
        decreases pieces@.len() - i,
    {
        match pieces[i].position {
            Some(p) => {
                if p.x == x && p.y == y {
                    return true;
                }
            },
            None => {},
        }
        i = i + 1;
    }
    false
}

} // verus!
