//! The systems of the queued-order rules: the player queues a move or an
//! attack, monsters next to the player queue attacks and the others queue
//! moves towards it, then movements and attacks are carried out; crystals
//! drain as turns pass, and a new floor starts over at the origin.

use crate::board::{
    find_player, has_player, is_first_player, near_origin, occupied, pieces_ok, step_of, Board,
    Direction, GridPosition, MovementType, Piece, PlayerState, QueuedAttack, QueuedMovement,
};
use crate::components::{is_adjacent4, PositionComponent};
use crate::generate_dungeon::{
    carved_wall, corridors_drawn, dig_corridors_anywhere, floor_and_walls, lemma_carved_walls,
    place_rooms_with_gaps, rooms_spread, Corridor, Room,
};
use crate::movement::Goal;
use crate::rng::pcg_from_entropy;
use crate::world::Entity;
use rand_pcg::Pcg64;
use vstd::prelude::*;

verus! {

/// What the player chose to do.
#[derive(Debug, Copy, Clone, Hash, PartialEq, Eq, Structural)]
pub enum PlayerAction {
    Idle,
    Pass,
    Move(Direction),
    TurnToFace(Direction),
    Attack,
}

/// Turns the player's chosen action into orders.
pub struct PlayerSystem {
    pub action: PlayerAction,
}

/// The tile one step from `(x, y)` in direction `d`.
pub open spec fn stepped(x: int, y: int, d: Direction) -> (int, int) {
    (x + step_of(d).0, y + step_of(d).1)
}

fn step_exec(x: i32, y: i32, d: Direction) -> (r: (i32, i32))
    requires
        near_origin(x as int, y as int),
    ensures
        r.0 == stepped(x as int, y as int, d).0,
        r.1 == stepped(x as int, y as int, d).1,
{
    match d {
        Direction::Up => (x, y + 1),
        Direction::Down => (x, y - 1),
        Direction::Left => (x - 1, y),
        Direction::Right => (x + 1, y),
    }
}

/// Index of the first piece holding a player state.
pub open spec fn is_first_player_state(ps: Seq<Piece>, i: int) -> bool {
    &&& 0 <= i < ps.len()
    &&& ps[i].player is Some
    &&& forall|j: int| 0 <= j < i ==> #[trigger] ps[j].player is None
}

fn find_player_state(pieces: &Vec<Piece>) -> (r: Option<usize>)
    ensures
        r matches Some(i) ==> is_first_player_state(pieces@, i as int),
        r is None ==> forall|j: int| 0 <= j < pieces@.len() ==> #[trigger] pieces@[j].player is None,
{
    let mut i: usize = 0;
    while i < pieces.len()
        invariant
            i <= pieces@.len(),
            forall|j: int| 0 <= j < i ==> #[trigger] pieces@[j].player is None,
        decreases pieces@.len() - i,
    {
        if pieces[i].player.is_some() {
            return Some(i);
        }
        i = i + 1;
    }
    None
}

/// Index of the first piece with health standing on `(x, y)`.
pub open spec fn is_first_fighter_at(ps: Seq<Piece>, x: int, y: int, i: int) -> bool {
    &&& 0 <= i < ps.len()
    &&& ps[i].health is Some
    &&& ps[i].position matches Some(p) && p.x == x && p.y == y
    &&& forall|j: int|
        0 <= j < i ==> !(#[trigger] ps[j].health is Some && (ps[j].position matches Some(p) && p.x == x
            && p.y == y))
}

fn find_fighter_at(pieces: &Vec<Piece>, x: i32, y: i32) -> (r: Option<usize>)
    ensures
        r matches Some(i) ==> is_first_fighter_at(pieces@, x as int, y as int, i as int),
        r is None ==> forall|j: int|
            0 <= j < pieces@.len() ==> !(#[trigger] pieces@[j].health is Some && (pieces@[j].position matches Some(
                p,
            ) && p.x == x && p.y == y)),
{
    let mut i: usize = 0;
    while i < pieces.len()
        invariant
            i <= pieces@.len(),
            forall|j: int|
                0 <= j < i ==> !(#[trigger] pieces@[j].health is Some && (pieces@[j].position matches Some(
                    p,
                ) && p.x == x && p.y == y)),
        decreases pieces@.len() - i,
    {
        let piece = pieces[i];
        match piece.position {
            Some(p) => {
                if piece.health.is_some() && p.x == x && p.y == y {
                    return Some(i);
                }
            },
            None => {},
        }
        i = i + 1;
    }
    None
}

/// The player's piece after it took a turn.
pub open spec fn took_turn(p: Piece) -> Piece {
    Piece {
        player: Some(PlayerState { turns_taken: (p.player.unwrap().turns_taken + 1) as u32, ..p.player.unwrap() }),
        ..p
    }
}

impl PlayerSystem {
    pub fn new() -> (s: Self)
        ensures
            s.action == PlayerAction::Idle,
    {
        PlayerSystem { action: PlayerAction::Idle }
    }

    /// Carries out the chosen action, then clears it. Passing ends the
    /// player's turn. Moving queues a move onto the tile ahead when no piece
    /// stands there, and ends the turn. Turning changes the direction faced.
    /// Attacking queues an attack on the first piece with health on the tile
    /// faced, when there is one, and ends the turn. A turn that ends counts
    /// one more turn taken.
    pub fn run(&mut self, board: &mut Board, is_player_turn: &mut bool)
        requires
            pieces_ok(old(board).pieces@),
            has_player(old(board).pieces@),
            forall|i: int|
                0 <= i < old(board).pieces@.len() ==> (#[trigger] old(board).pieces@[i].player matches Some(s)
                    ==> s.turns_taken < u32::MAX),
        ensures
            final(self).action == PlayerAction::Idle,
            pieces_ok(final(board).pieces@),
            final(board).pieces@.len() == old(board).pieces@.len(),
            ({
                let ps = old(board).pieces@;
                let qs = final(board).pieces@;
                match old(self).action {
                    PlayerAction::Idle => qs == ps && *final(is_player_turn) == *old(is_player_turn),
                    PlayerAction::Pass => exists|i: int|
                        #[trigger] is_first_player_state(ps, i) && qs == ps.update(i, took_turn(ps[i]))
                            && !*final(is_player_turn),
                    PlayerAction::Move(d) => exists|i: int|
                        #[trigger] is_first_player(ps, i) && {
                            let p = ps[i].position.unwrap();
                            let (gx, gy) = stepped(p.x as int, p.y as int, d);
                            let free = !exists|j: int|
                                0 <= j < ps.len() && (#[trigger] ps[j].position matches Some(q) && q.x == gx
                                    && q.y == gy);
                            if free {
                                &&& qs == ps.update(
                                    i,
                                    Piece {
                                        queued_movement: Some(
                                            QueuedMovement {
                                                goal_x: gx as i32,
                                                goal_y: gy as i32,
                                                movement_type: MovementType::StandOn,
                                            },
                                        ),
                                        ..took_turn(ps[i])
                                    },
                                )
                                &&& !*final(is_player_turn)
                            } else {
                                qs == ps && *final(is_player_turn) == *old(is_player_turn)
                            }
                        },
                    PlayerAction::TurnToFace(d) => exists|i: int|
                        #[trigger] is_first_player(ps, i) && qs == ps.update(
                            i,
                            Piece {
                                position: Some(GridPosition { facing_direction: d, ..ps[i].position.unwrap() }),
                                ..ps[i]
                            },
                        ) && *final(is_player_turn) == *old(is_player_turn),
                    PlayerAction::Attack => exists|i: int|
                        #[trigger] is_first_player(ps, i) && {
                            let p = ps[i].position.unwrap();
                            let (tx, ty) = stepped(p.x as int, p.y as int, p.facing_direction);
                            if exists|t: int| is_first_fighter_at(ps, tx, ty, t) {
                                let t = choose|t: int| is_first_fighter_at(ps, tx, ty, t);
                                &&& qs == ps.update(
                                    i,
                                    Piece {
                                        queued_attack: Some(QueuedAttack { target_entity: ps[t].entity }),
                                        ..took_turn(ps[i])
                                    },
                                )
                                &&& !*final(is_player_turn)
                            } else {
                                qs == ps && *final(is_player_turn) == *old(is_player_turn)
                            }
                        },
                }
            }),
    {
        let ghost ps = board.pieces@;
        match self.action {
            PlayerAction::Idle => {},
            PlayerAction::Pass => {
                *is_player_turn = false;
                let i = find_player_state(&board.pieces).unwrap();
                let piece = board.pieces[i];
                let s = piece.player.unwrap();
                board.pieces.set(
                    i,
                    Piece { player: Some(PlayerState { turns_taken: s.turns_taken + 1, ..s }), ..piece },
                );
            },
            PlayerAction::Move(d) => {
                let i = find_player(&board.pieces).unwrap();
                let piece = board.pieces[i];
                let p = piece.position.unwrap();
                assert(near_origin(ps[i as int].position.unwrap().x as int, ps[i as int].position.unwrap().y as int));
                let (gx, gy) = step_exec(p.x, p.y, d);
                if !occupied(&board.pieces, gx, gy) {
                    let s = piece.player.unwrap();
                    board.pieces.set(
                        i,
                        Piece {
                            queued_movement: Some(
                                QueuedMovement { goal_x: gx, goal_y: gy, movement_type: MovementType::StandOn },
                            ),
                            player: Some(PlayerState { turns_taken: s.turns_taken + 1, ..s }),
                            ..piece
                        },
                    );
                    *is_player_turn = false;
                }
                assert(is_first_player(ps, i as int));
            },
            PlayerAction::TurnToFace(d) => {
                let i = find_player(&board.pieces).unwrap();
                let piece = board.pieces[i];
                let p = piece.position.unwrap();
                board.pieces.set(i, Piece { position: Some(GridPosition { facing_direction: d, ..p }), ..piece });
                assert(is_first_player(ps, i as int));
            },
            PlayerAction::Attack => {
                let i = find_player(&board.pieces).unwrap();
                let piece = board.pieces[i];
                let p = piece.position.unwrap();
                assert(near_origin(ps[i as int].position.unwrap().x as int, ps[i as int].position.unwrap().y as int));
                let (tx, ty) = step_exec(p.x, p.y, p.facing_direction);
                match find_fighter_at(&board.pieces, tx, ty) {
                    Some(t) => {
                        let target = board.pieces[t].entity;
                        let s = piece.player.unwrap();
                        board.pieces.set(
                            i,
                            Piece {
                                queued_attack: Some(QueuedAttack { target_entity: target }),
                                player: Some(PlayerState { turns_taken: s.turns_taken + 1, ..s }),
                                ..piece
                            },
                        );
                        *is_player_turn = false;
                        proof {
                            let c = choose|c: int| is_first_fighter_at(ps, tx as int, ty as int, c);
                            if c < t {
                                assert(!is_first_fighter_at(ps, tx as int, ty as int, c));
                            } else if t < c {
                                assert(ps[t as int].health is Some);
                            }
                        }
                    },
                    None => {},
                }
                assert(is_first_player(ps, i as int));
            },
        }
        self.action = PlayerAction::Idle;
    }
}

/// Moves the player one tile when asked to.
pub struct PlayerMoveSystem {
    pub direction_to_move: Option<Direction>,
}

impl PlayerMoveSystem {
    pub fn new() -> (s: Self)
        ensures
            s.direction_to_move is None,
    {
        PlayerMoveSystem { direction_to_move: None }
    }

    /// With a direction asked for, moves the player one tile that way when
    /// no other piece (one without a player state) stands there; the request
    /// is then cleared.
    pub fn run(&mut self, board: &mut Board)
        requires
            pieces_ok(old(board).pieces@),
            has_player(old(board).pieces@),
        ensures
            final(self).direction_to_move is None,
            final(board).pieces@.len() == old(board).pieces@.len(),
            old(self).direction_to_move is None ==> final(board).pieces@ == old(board).pieces@,
            old(self).direction_to_move matches Some(d) ==> exists|i: int|
                #[trigger] is_first_player(old(board).pieces@, i) && {
                    let ps = old(board).pieces@;
                    let p = ps[i].position.unwrap();
                    let (gx, gy) = stepped(p.x as int, p.y as int, d);
                    let blocked = exists|j: int|
                        0 <= j < ps.len() && #[trigger] ps[j].player is None && (ps[j].position matches Some(q)
                            && q.x == gx && q.y == gy);
                    final(board).pieces@ == if blocked {
                        ps
                    } else {
                        ps.update(
                            i,
                            Piece { position: Some(GridPosition { x: gx as i32, y: gy as i32, ..p }), ..ps[i] },
                        )
                    }
                },
    {
        match self.direction_to_move {
            Some(d) => {
                let ghost ps = board.pieces@;
                let i = find_player(&board.pieces).unwrap();
                let piece = board.pieces[i];
                let p = piece.position.unwrap();
                assert(near_origin(ps[i as int].position.unwrap().x as int, ps[i as int].position.unwrap().y as int));
                let (gx, gy) = step_exec(p.x, p.y, d);
                let mut blocked = false;
                let mut j: usize = 0;
                while j < board.pieces.len()
                    invariant
                        board.pieces@ == ps,
                        j <= ps.len(),
                        blocked <==> exists|k: int|
                            0 <= k < j && #[trigger] ps[k].player is None && (ps[k].position matches Some(q)
                                && q.x == gx && q.y == gy),
                    decreases ps.len() - j,
                {
                    let other = board.pieces[j];
                    if other.player.is_none() {
                        match other.position {
                            Some(q) => {
                                if q.x == gx && q.y == gy {
                                    blocked = true;
                                }
                            },
                            None => {},
                        }
                    }
                    j = j + 1;
                }
                if !blocked {
                    board.pieces.set(i, Piece { position: Some(GridPosition { x: gx, y: gy, ..p }), ..piece });
                }
                assert(is_first_player(ps, i as int));
            },
            None => {},
        }
        self.direction_to_move = None;
    }
}

/// Has monsters beside the player attack it and the others close in.
pub struct AIAttackPlayerSystem {}

/// The orders a monster on `p` gets when the player stands on `player`: an
/// attack when they share a side, otherwise a move to stand beside it.
pub open spec fn with_orders(piece: Piece, p: GridPosition, player: GridPosition, player_entity: Entity) -> Piece {
    if is_adjacent4(
        PositionComponent { x: player.x, y: player.y },
        PositionComponent { x: p.x, y: p.y },
    ) {
        Piece { queued_attack: Some(QueuedAttack { target_entity: player_entity }), ..piece }
    } else {
        Piece {
            queued_movement: Some(
                QueuedMovement { goal_x: player.x, goal_y: player.y, movement_type: MovementType::StandNextTo },
            ),
            ..piece
        }
    }
}

/// The board after every monster with a position got its orders.
pub open spec fn ordered(ps: Seq<Piece>, player: GridPosition, player_entity: Entity) -> Seq<Piece> {
    ps.map_values(
        |piece: Piece|
            if piece.attacks_player && piece.position is Some {
                with_orders(piece, piece.position.unwrap(), player, player_entity)
            } else {
                piece
            },
    )
}

impl AIAttackPlayerSystem {
    pub fn new() -> Self {
        AIAttackPlayerSystem {}
    }

    /// Gives every monster that attacks the player its orders (see
    /// `with_orders`).
    pub fn run(&mut self, board: &mut Board)
        requires
            has_player(old(board).pieces@),
        ensures
            exists|i: int|
                #[trigger] is_first_player(old(board).pieces@, i) && final(board).pieces@ == ordered(
                    old(board).pieces@,
                    old(board).pieces@[i].position.unwrap(),
                    old(board).pieces@[i].entity,
                ),
    {
        let ghost ps = board.pieces@;
        let pi = find_player(&board.pieces).unwrap();
        let player = board.pieces[pi].position.unwrap();
        let player_entity = board.pieces[pi].entity;
        let mut i: usize = 0;
        while i < board.pieces.len()
            invariant
                board.pieces@.len() == ps.len(),
                i <= ps.len(),
                forall|k: int|
                    0 <= k < ps.len() ==> #[trigger] board.pieces@[k] == if k < i {
                        ordered(ps, player, player_entity)[k]
                    } else {
                        ps[k]
                    },
            decreases ps.len() - i,
        {
            let piece = board.pieces[i];
            if piece.attacks_player {
                match piece.position {
                    Some(p) => {
                        let dx = p.x as i64 - player.x as i64;
                        let dy = p.y as i64 - player.y as i64;
                        let next_to = (dx == 1 && dy == 0) || (dx == -1 && dy == 0) || (dx == 0 && dy == 1) || (dx
                            == 0 && dy == -1);
                        if next_to {
                            board.pieces.set(
                                i,
                                Piece { queued_attack: Some(QueuedAttack { target_entity: player_entity }), ..piece },
                            );
                        } else {
                            board.pieces.set(
                                i,
                                Piece {
                                    queued_movement: Some(
                                        QueuedMovement {
                                            goal_x: player.x,
                                            goal_y: player.y,
                                            movement_type: MovementType::StandNextTo,
                                        },
                                    ),
                                    ..piece
                                },
                            );
                        }
                    },
                    None => {},
                }
            }
            i = i + 1;
        }
        assert(board.pieces@ =~= ordered(ps, player, player_entity));
        assert(is_first_player(ps, pi as int));
    }
}

/// `i` is the index of the first piece of `ps` that is `e`'s.
pub open spec fn is_first_of(ps: Seq<Piece>, e: Entity, i: int) -> bool {
    &&& 0 <= i < ps.len()
    &&& ps[i].entity == e
    &&& forall|j: int| 0 <= j < i ==> #[trigger] ps[j].entity != e
}

/// `i` is the index of the first piece of `ps` that is `e`'s and has health.
pub open spec fn is_first_target(ps: Seq<Piece>, e: Entity, i: int) -> bool {
    &&& 0 <= i < ps.len()
    &&& ps[i].entity == e
    &&& ps[i].health is Some
    &&& forall|j: int| 0 <= j < i ==> !(#[trigger] ps[j].entity == e && ps[j].health is Some)
}

/// The pieces after `e` takes a hit: its first piece with health loses
/// one, and is removed when that leaves none. Nothing changes when `e` has
/// no piece with health, or the health is already zero.
pub open spec fn hit(ps: Seq<Piece>, e: Entity) -> Seq<Piece> {
    if exists|t: int| is_first_target(ps, e, t) {
        let t = choose|t: int| is_first_target(ps, e, t);
        let h = ps[t].health.unwrap();
        if h == 0 {
            ps
        } else if h == 1 {
            ps.remove(t)
        } else {
            ps.update(t, Piece { health: Some((h - 1) as u32), ..ps[t] })
        }
    } else {
        ps
    }
}

/// The pieces after `a`'s turn to attack: when its first piece has an
/// attack queued, the attack is done and its target takes a hit.
pub open spec fn attack_turn(ps: Seq<Piece>, a: Entity) -> Seq<Piece> {
    if exists|i: int| is_first_of(ps, a, i) {
        let i = choose|i: int| is_first_of(ps, a, i);
        match ps[i].queued_attack {
            Some(q) => hit(ps.update(i, Piece { queued_attack: None, ..ps[i] }), q.target_entity),
            None => ps,
        }
    } else {
        ps
    }
}

/// The pieces after each of `attackers` in turn took its turn to attack.
pub open spec fn attack_turns(ps: Seq<Piece>, attackers: Seq<Entity>) -> Seq<Piece>
    decreases attackers.len(),
{
    if attackers.len() == 0 {
        ps
    } else {
        attack_turn(attack_turns(ps, attackers.drop_last()), attackers.last())
    }
}

/// The entities of the pieces with an attack queued, in board order.
pub open spec fn attackers_of(ps: Seq<Piece>) -> Seq<Entity> {
    ps.filter(|p: Piece| p.queued_attack is Some).map_values(|p: Piece| p.entity)
}

/// The pieces with no attack queued.
pub open spec fn without_attacks(ps: Seq<Piece>) -> Seq<Piece> {
    ps.map_values(|p: Piece| Piece { queued_attack: None, ..p })
}

fn attacker_list(pieces: &Vec<Piece>) -> (r: Vec<Entity>)
    ensures
        r@ == attackers_of(pieces@),
{
    let mut r: Vec<Entity> = Vec::new();
    let mut i: usize = 0;
    let ghost ps = pieces@;
    while i < pieces.len()
        invariant
            ps == pieces@,
            i <= ps.len(),
            r@ == attackers_of(ps.subrange(0, i as int)),
        decreases ps.len() - i,
    {
        let piece = pieces[i];
        proof {
            assert(ps.subrange(0, i + 1).drop_last() =~= ps.subrange(0, i as int));
            reveal_with_fuel(Seq::filter, 1);
        }
        if piece.queued_attack.is_some() {
            r.push(piece.entity);
        }
        proof {
            let f0 = ps.subrange(0, i as int).filter(|p: Piece| p.queued_attack is Some);
            let f1 = ps.subrange(0, i + 1).filter(|p: Piece| p.queued_attack is Some);
            if piece.queued_attack is Some {
                assert(f1 == f0.push(piece));
                assert(attackers_of(ps.subrange(0, i + 1)) =~= attackers_of(ps.subrange(0, i as int)).push(
                    piece.entity,
                ));
            } else {
                assert(f1 == f0);
            }
        }
        i = i + 1;
    }
    assert(ps.subrange(0, i as int) =~= ps);
    r
}

/// Carries out `a`'s turn to attack (see `attack_turn`).
fn take_attack_turn(pieces: &mut Vec<Piece>, a: Entity)
    ensures
        final(pieces)@ == attack_turn(old(pieces)@, a),
{
    let ghost ps = pieces@;
    let mut ai: usize = 0;
    while ai < pieces.len() && pieces[ai].entity != a
        invariant
            pieces@ == ps,
            ai <= ps.len(),
            forall|j: int| 0 <= j < ai ==> #[trigger] ps[j].entity != a,
        decreases ps.len() - ai,
    {
        ai = ai + 1;
    }
    if ai == pieces.len() {
        assert(!exists|i: int| is_first_of(ps, a, i));
        return;
    }
    proof {
        let c = choose|c: int| is_first_of(ps, a, c);
        assert(is_first_of(ps, a, ai as int));
        if c < ai {
            assert(ps[c].entity != a);
        } else if ai < c {
            assert(ps[ai as int].entity != a);
        }
    }
    let attacker = pieces[ai];
    match attacker.queued_attack {
        Some(q) => {
            pieces.set(ai, Piece { queued_attack: None, ..attacker });
            let ghost ps1 = pieces@;
            let e = q.target_entity;
            let mut t: usize = 0;
            while t < pieces.len() && !(pieces[t].entity == e && pieces[t].health.is_some())
                invariant
                    pieces@ == ps1,
                    t <= ps1.len(),
                    forall|j: int| 0 <= j < t ==> !(#[trigger] ps1[j].entity == e && ps1[j].health is Some),
                decreases ps1.len() - t,
            {
                t = t + 1;
            }
            if t == pieces.len() {
                assert(!exists|i: int| is_first_target(ps1, e, i));
                return;
            }
            proof {
                let c = choose|c: int| is_first_target(ps1, e, c);
                assert(is_first_target(ps1, e, t as int));
                if c < t {
                    assert(!(ps1[c].entity == e && ps1[c].health is Some));
                } else if t < c {
                    assert(!(ps1[t as int].entity == e && ps1[t as int].health is Some));
                }
            }
            let target = pieces[t];
            let h = target.health.unwrap();
            if h == 1 {
                pieces.remove(t);
            } else if h > 1 {
                pieces.set(t, Piece { health: Some(h - 1), ..target });
            }
        },
        None => {},
    }
}

/// Carries out queued attacks.
pub struct AttackSystem {}

impl AttackSystem {
    pub fn new() -> Self {
        AttackSystem {}
    }

    /// Every piece with a queued attack, in board order, takes its turn to
    /// attack (see `attack_turn`): its target's first piece with health left
    /// loses one, and is removed at zero. A piece removed before its turn
    /// does not attack. Every queued attack is then done.
    pub fn run(&mut self, board: &mut Board)
        ensures
            final(board).pieces@ == without_attacks(
                attack_turns(old(board).pieces@, attackers_of(old(board).pieces@)),
            ),
    {
        let attackers = attacker_list(&board.pieces);
        let ghost ps = board.pieces@;
        let mut k: usize = 0;
        while k < attackers.len()
            invariant
                k <= attackers@.len(),
                board.pieces@ == attack_turns(ps, attackers@.subrange(0, k as int)),
            decreases attackers@.len() - k,
        {
            let a = attackers[k];
            take_attack_turn(&mut board.pieces, a);
            assert(attackers@.subrange(0, k + 1).drop_last() =~= attackers@.subrange(0, k as int));
            k = k + 1;
        }
        assert(attackers@.subrange(0, k as int) =~= attackers@);
        let ghost done = board.pieces@;
        let mut c: usize = 0;
        while c < board.pieces.len()
            invariant
                board.pieces@.len() == done.len(),
                c <= done.len(),
                forall|i: int|
                    0 <= i < done.len() ==> #[trigger] board.pieces@[i] == if i < c {
                        Piece { queued_attack: None, ..done[i] }
                    } else {
                        done[i]
                    },
            decreases done.len() - c,
        {
            let piece = board.pieces[c];
            board.pieces.set(c, Piece { queued_attack: None, ..piece });
            c = c + 1;
        }
        assert(board.pieces@ =~= without_attacks(done));
    }
}

/// Drains the player's crystals as turns pass.
pub struct DrainCrystalsSystem {
    pub previous_turns_taken: u32,
}

/// Crystals lost on a turn counted with `turns_taken`: none up to 500,
/// then 2 up to 601, 5 up to 702, 10 up to 903, and 20 after that.
pub open spec fn crystals_drained(turns_taken: u32) -> u32 {
    if turns_taken <= 500 {
        0
    } else if turns_taken <= 601 {
        2
    } else if turns_taken <= 702 {
        5
    } else if turns_taken <= 903 {
        10
    } else {
        20
    }
}

impl DrainCrystalsSystem {
    pub fn new() -> (s: Self)
        ensures
            s.previous_turns_taken == 0,
    {
        DrainCrystalsSystem { previous_turns_taken: 0 }
    }

    /// When the first player's turn count differs from the one last seen,
    /// drains its crystals (see `crystals_drained`, never below zero) and
    /// counts one more turn seen.
    pub fn run(&mut self, board: &mut Board)
        requires
            old(self).previous_turns_taken < u32::MAX,
            exists|i: int| 0 <= i < old(board).pieces@.len() && #[trigger] old(board).pieces@[i].player is Some,
        ensures
            exists|i: int|
                #[trigger] is_first_player_state(old(board).pieces@, i) && {
                    let ps = old(board).pieces@;
                    let s = ps[i].player.unwrap();
                    if old(self).previous_turns_taken != s.turns_taken {
                        let drained = crystals_drained(s.turns_taken);
                        &&& final(board).pieces@ == ps.update(
                            i,
                            Piece {
                                player: Some(
                                    PlayerState {
                                        crystals: if s.crystals >= drained {
                                            (s.crystals - drained) as u32
                                        } else {
                                            0
                                        },
                                        ..s
                                    },
                                ),
                                ..ps[i]
                            },
                        )
                        &&& final(self).previous_turns_taken == old(self).previous_turns_taken + 1
                    } else {
                        &&& final(board).pieces@ == ps
                        &&& final(self).previous_turns_taken == old(self).previous_turns_taken
                    }
                },
    {
        let ghost ps = board.pieces@;
        let i = match find_player_state(&board.pieces) {
            Some(i) => i,
            None => {
                assert(false);
                return;
            },
        };
        let piece = board.pieces[i];
        let s = piece.player.unwrap();
        if self.previous_turns_taken != s.turns_taken {
            let drained: u32 = if s.turns_taken <= 500 {
                0
            } else if s.turns_taken <= 601 {
                2
            } else if s.turns_taken <= 702 {
                5
            } else if s.turns_taken <= 903 {
                10
            } else {
                20
            };
            let crystals = if s.crystals >= drained {
                s.crystals - drained
            } else {
                0
            };
            board.pieces.set(i, Piece { player: Some(PlayerState { crystals, ..s }), ..piece });
            self.previous_turns_taken = self.previous_turns_taken + 1;
        }
        assert(is_first_player_state(ps, i as int));
    }
}

/// Starts a new floor.
pub struct AdvanceFloorSystem {
    pub current_floor: u32,
}

impl AdvanceFloorSystem {
    pub fn new() -> (s: Self)
        ensures
            s.current_floor == 1,
    {
        AdvanceFloorSystem { current_floor: 1 }
    }

    /// Starts the next floor: the player's turn count goes back to zero, it
    /// stands at the origin facing right, every other piece is removed, and
    /// no advance is pending any more. Returns the number of the floor
    /// entered, which the caller announces; the next floor gets the next
    /// number.
    pub fn run(&mut self, board: &mut Board, should_advance_floor: &mut bool) -> (floor: u32)
        requires
            has_player(old(board).pieces@),
            old(self).current_floor < u32::MAX,
        ensures
            floor == old(self).current_floor,
            final(self).current_floor == old(self).current_floor + 1,
            !*final(should_advance_floor),
            exists|i: int|
                #[trigger] is_first_player(old(board).pieces@, i) && final(board).pieces@ == seq![
                    Piece {
                        position: Some(GridPosition { x: 0, y: 0, facing_direction: Direction::Right }),
                        player: Some(PlayerState { turns_taken: 0, ..old(board).pieces@[i].player.unwrap() }),
                        ..old(board).pieces@[i]
                    },
                ],
    {
        let ghost ps = board.pieces@;
        let i = find_player(&board.pieces).unwrap();
        let piece = board.pieces[i];
        let s = piece.player.unwrap();
        let player = Piece {
            position: Some(GridPosition { x: 0, y: 0, facing_direction: Direction::Right }),
            player: Some(PlayerState { turns_taken: 0, ..s }),
            ..piece
        };
        board.pieces = vec![player];
        assert(board.pieces@ =~= seq![player]);
        assert(is_first_player(ps, i as int));
        let floor = self.current_floor;
        self.current_floor = self.current_floor + 1;
        *should_advance_floor = false;
        floor
    }
}

/// Carries out queued movements.
pub struct MovementSystem {}

/// The direction of a rook step `(dx, dy)`.
pub open spec fn direction_of(dx: int, dy: int) -> Direction {
    if dx == 0 && dy == 1 {
        Direction::Up
    } else if dx == 0 && dy == -1 {
        Direction::Down
    } else if dx == -1 && dy == 0 {
        Direction::Left
    } else {
        Direction::Right
    }
}

/// The positions of the pieces that have one, in board order.
pub open spec fn board_obstacles(ps: Seq<Piece>) -> Seq<PositionComponent> {
    ps.filter(|p: Piece| p.position is Some).map_values(
        |p: Piece| PositionComponent { x: p.position.unwrap().x, y: p.position.unwrap().y },
    )
}

fn obstacle_list(pieces: &Vec<Piece>) -> (r: Vec<PositionComponent>)
    ensures
        r@ == board_obstacles(pieces@),
{
    let mut r: Vec<PositionComponent> = Vec::new();
    let mut i: usize = 0;
    let ghost ps = pieces@;
    while i < pieces.len()
        invariant
            ps == pieces@,
            i <= ps.len(),
            r@ == board_obstacles(ps.subrange(0, i as int)),
        decreases ps.len() - i,
    {
        let piece = pieces[i];
        proof {
            assert(ps.subrange(0, i + 1).drop_last() =~= ps.subrange(0, i as int));
            reveal_with_fuel(Seq::filter, 1);
        }
        match piece.position {
            Some(p) => {
                r.push(PositionComponent { x: p.x, y: p.y });
            },
            None => {},
        }
        proof {
            let f0 = ps.subrange(0, i as int).filter(|p: Piece| p.position is Some);
            let f1 = ps.subrange(0, i + 1).filter(|p: Piece| p.position is Some);
            if piece.position is Some {
                assert(f1 == f0.push(piece));
                assert(board_obstacles(ps.subrange(0, i + 1)) =~= board_obstacles(ps.subrange(0, i as int)).push(
                    PositionComponent { x: piece.position.unwrap().x, y: piece.position.unwrap().y },
                ));
            } else {
                assert(f1 == f0);
            }
        }
        i = i + 1;
    }
    assert(ps.subrange(0, i as int) =~= ps);
    r
}

/// Piece `i` of `ps` after carrying out its queued movement: it takes the
/// first step of a shortest rook walk (around every piece) to the goal
/// tile, facing the way it stepped, when such a walk exists; its queued
/// movement is done either way.
pub open spec fn moved_piece(ps: Seq<Piece>, i: int, step: Option<PositionComponent>) -> Piece {
    let piece = ps[i];
    let p = piece.position.unwrap();
    match step {
        Some(s) => Piece {
            position: Some(
                GridPosition { x: s.x, y: s.y, facing_direction: direction_of(s.x - p.x, s.y - p.y) },
            ),
            queued_movement: None,
            ..piece
        },
        None => Piece { queued_movement: None, ..piece },
    }
}

/// `step` is what a queued movement of piece `i` of `ps` does: the first
/// tile of a shortest rook walk to its goal tile, or `None` when no walk
/// reaches it (or it is already there, or the step would leave the plane
/// near the origin).
pub open spec fn movement_step(ps: Seq<Piece>, i: int, step: Option<PositionComponent>) -> bool {
    let p = ps[i].position.unwrap();
    let q = ps[i].queued_movement.unwrap();
    let start = PositionComponent { x: p.x, y: p.y };
    let goal = Goal::Reach(PositionComponent { x: q.goal_x, y: q.goal_y });
    match step {
        Some(s) => exists|path: Seq<PositionComponent>|
            #[trigger] crate::movement::is_shortest_walk(false, start, goal, board_obstacles(ps), path)
                && path.len() > 0 && path[0] == s && near_origin(s.x as int, s.y as int),
        None => (forall|path: Seq<PositionComponent>|
            !#[trigger] crate::movement::is_shortest_walk(false, start, goal, board_obstacles(ps), path)) || exists|
            path: Seq<PositionComponent>,
        |
            #[trigger] crate::movement::is_shortest_walk(false, start, goal, board_obstacles(ps), path) && (path.len()
                == 0 || !near_origin(path[0].x as int, path[0].y as int)),
    }
}

impl MovementSystem {
    pub fn new() -> Self {
        MovementSystem {}
    }

    /// Carries out the queued movement of piece `i`.
    fn move_one(board: &mut Board, i: usize)
        requires
            i < old(board).pieces@.len(),
            pieces_ok(old(board).pieces@),
            old(board).pieces@[i as int].position is Some,
            old(board).pieces@[i as int].queued_movement is Some,
        ensures
            pieces_ok(final(board).pieces@),
            exists|step: Option<PositionComponent>|
                #[trigger] movement_step(old(board).pieces@, i as int, step) && final(board).pieces@
                    == old(board).pieces@.update(i as int, moved_piece(old(board).pieces@, i as int, step)),
    {
        let ghost ps = board.pieces@;
        let piece = board.pieces[i];
        let p = piece.position.unwrap();
        let q = piece.queued_movement.unwrap();
        let obstacles = obstacle_list(&board.pieces);
        let start = PositionComponent { x: p.x, y: p.y };
        let goal = Goal::Reach(PositionComponent { x: q.goal_x, y: q.goal_y });
        let step = match crate::movement::shortest_walk(start, goal, &obstacles, false) {
            Some(path) => {
                if path.len() > 0 && -2147483647 <= path[0].x && path[0].x <= 2147483646 && -2147483647
                    <= path[0].y && path[0].y <= 2147483646 {
                    assert(movement_step(ps, i as int, Some(path@[0])));
                    Some(path[0])
                } else {
                    assert(movement_step(ps, i as int, None));
                    None
                }
            },
            None => {
                assert(movement_step(ps, i as int, None));
                None
            },
        };
        match step {
            Some(s) => {
                proof {
                    assert(near_origin(p.x as int, p.y as int));
                }
                let dx = s.x as i64 - p.x as i64;
                let dy = s.y as i64 - p.y as i64;
                let facing = if dx == 0 && dy == 1 {
                    Direction::Up
                } else if dx == 0 && dy == -1 {
                    Direction::Down
                } else if dx == -1 && dy == 0 {
                    Direction::Left
                } else {
                    Direction::Right
                };
                board.pieces.set(
                    i,
                    Piece {
                        position: Some(GridPosition { x: s.x, y: s.y, facing_direction: facing }),
                        queued_movement: None,
                        ..piece
                    },
                );
            },
            None => {
                board.pieces.set(i, Piece { queued_movement: None, ..piece });
            },
        }
        assert(board.pieces@ == ps.update(i as int, moved_piece(ps, i as int, step)));
    }

    /// Every piece with a position and a queued movement, in board order,
    /// carries it out (see `move_one`); the obstacles are where the pieces
    /// stand at that moment (see `moves_done`).
    pub fn run(&mut self, board: &mut Board)
        requires
            pieces_ok(old(board).pieces@),
        ensures
            pieces_ok(final(board).pieces@),
            final(board).pieces@.len() == old(board).pieces@.len(),
            exists|steps: Seq<Option<PositionComponent>>|
                #[trigger] steps_taken(old(board).pieces@, steps) && steps.len() == old(board).pieces@.len()
                    && final(board).pieces@ == moves_done(old(board).pieces@, steps),
            forall|i: int|
                0 <= i < final(board).pieces@.len() ==> {
                    let a = old(board).pieces@[i];
                    let b = #[trigger] final(board).pieces@[i];
                    if a.position is Some && a.queued_movement is Some {
                        b == Piece { position: b.position, queued_movement: None, ..a }
                    } else {
                        b == a
                    }
                },
    {
        let ghost ps = board.pieces@;
        let ghost mut steps: Seq<Option<PositionComponent>> = Seq::empty();
        let mut i: usize = 0;
        while i < board.pieces.len()
            invariant
                board.pieces@.len() == ps.len(),
                i <= ps.len(),
                steps.len() == i,
                steps_taken(ps, steps),
                board.pieces@ == moves_done(ps, steps),
                pieces_ok(board.pieces@),
                forall|k: int|
                    0 <= k < ps.len() ==> {
                        let a = ps[k];
                        let b = #[trigger] board.pieces@[k];
                        if k < i && a.position is Some && a.queued_movement is Some {
                            b == Piece { position: b.position, queued_movement: None, ..a }
                        } else {
                            b == a
                        }
                    },
            decreases ps.len() - i,
        {
            let piece = board.pieces[i];
            let ghost before = board.pieces@;
            let ghost mut step: Option<PositionComponent> = None;
            if piece.position.is_some() && piece.queued_movement.is_some() {
                Self::move_one(board, i);
                proof {
                    step = choose|step: Option<PositionComponent>|
                        #[trigger] movement_step(before, i as int, step) && board.pieces@ == before.update(
                            i as int,
                            moved_piece(before, i as int, step),
                        );
                    assert(board.pieces@[i as int] == moved_piece(before, i as int, step));
                }
            }
            proof {
                let next = steps.push(step);
                assert(next.drop_last() =~= steps);
                assert(next.subrange(0, i as int) =~= steps);
                assert forall|k: int|
                    0 <= k < next.len() && ps[k].position is Some && ps[k].queued_movement is Some implies
                    #[trigger] movement_step(moves_done(ps, next.subrange(0, k)), k, next[k]) by {
                    if k < i {
                        assert(next.subrange(0, k) =~= steps.subrange(0, k));
                    }
                }
                steps = next;
            }
            i = i + 1;
        }
    }
}

/// `steps` are steps that the first `steps.len()` pieces of `ps` could take
/// in turn: each piece with a position and a queued movement takes a step
/// that `movement_step` allows on the board as the earlier ones left it.
pub open spec fn steps_taken(ps: Seq<Piece>, steps: Seq<Option<PositionComponent>>) -> bool {
    forall|k: int|
        0 <= k < steps.len() && ps[k].position is Some && ps[k].queued_movement is Some ==> #[trigger] movement_step(
            moves_done(ps, steps.subrange(0, k)),
            k,
            steps[k],
        )
}

/// The board after the first `steps.len()` pieces of `ps` carried out
/// their queued movements with the given steps, in board order.
pub open spec fn moves_done(ps: Seq<Piece>, steps: Seq<Option<PositionComponent>>) -> Seq<Piece>
    decreases steps.len(),
{
    if steps.len() == 0 {
        ps
    } else {
        let prev = moves_done(ps, steps.drop_last());
        let k = steps.len() - 1;
        if ps[k].position is Some && ps[k].queued_movement is Some {
            prev.update(k, moved_piece(prev, k, steps.last()))
        } else {
            prev
        }
    }
}

/// Lays out the walls of a new floor.
pub struct GenerateDungeonSystem {
    rng: Pcg64,
}

/// A wall piece on `(x, y)`, facing right, drawn in blue.
pub open spec fn wall_piece(e: Entity, x: i32, y: i32) -> Piece {
    Piece {
        entity: e,
        position: Some(GridPosition { x, y, facing_direction: Direction::Right }),
        player: None,
        health: None,
        queued_movement: None,
        queued_attack: None,
        attacks_player: false,
        sprite: Some("blue"),
    }
}

impl GenerateDungeonSystem {
    /// A generator seeded by the operating system.
    pub fn new() -> Self {
        GenerateDungeonSystem { rng: pcg_from_entropy() }
    }

    /// Lays out the next floor of a level with this generator (see
    /// `crate::level::floor_laid_out`).
    pub fn lay_out_level(&mut self, level: &mut crate::level::Level)
        requires
            old(level).wf(),
            crate::level::player_index(old(level).records@) is Some,
        ensures
            final(level).wf(),
            crate::level::floor_laid_out(*old(level), *final(level)),
    {
        crate::level::lay_out_floor(level, &mut self.rng);
    }

    /// Places rooms (required gaps drawn from 1 to 5) and one corridor from
    /// each room to a random room, and adds a wall piece on every tile the
    /// layout walls in (see `carved_wall`), once each.
    pub fn run(&mut self, board: &mut Board)
        ensures
            final(board).pieces@.len() >= old(board).pieces@.len(),
            final(board).pieces@.subrange(0, old(board).pieces@.len() as int) == old(board).pieces@,
            exists|rooms: Seq<Room>, cs: Seq<Corridor>|
                #![trigger rooms_spread(rooms, 1), corridors_drawn(rooms, cs)]
                {
                    &&& rooms_spread(rooms, 1)
                    &&& corridors_drawn(rooms, cs)
                    &&& cs.len() == rooms.len()
                    &&& forall|k: int|
                        old(board).pieces@.len() <= k < final(board).pieces@.len() ==> exists|x: i32, y: i32|
                            #[trigger] final(board).pieces@[k] == wall_piece(final(board).pieces@[k].entity, x, y)
                                && carved_wall(rooms, cs, PositionComponent { x, y })
                    &&& forall|p: PositionComponent|
                        #[trigger] carved_wall(rooms, cs, p) ==> exists|k: int|
                            old(board).pieces@.len() <= k < final(board).pieces@.len() && final(board).pieces@[k]
                                == wall_piece(final(board).pieces@[k].entity, p.x, p.y)
                },
    {
        let rooms = place_rooms_with_gaps(&mut self.rng, 1, 6);
        let cs = dig_corridors_anywhere(&rooms, &mut self.rng);
        let (_floor, walls) = floor_and_walls(&rooms, &cs);
        let ghost start = board.pieces@;
        let n0 = board.pieces.len();
        let mut k: usize = 0;
        while k < walls.len()
            invariant
                n0 == start.len(),
                board.pieces@.len() == n0 + k,
                board.pieces@.subrange(0, n0 as int) == start,
                k <= walls@.len(),
                forall|j: int|
                    n0 <= j < board.pieces@.len() ==> #[trigger] board.pieces@[j] == wall_piece(
                        board.pieces@[j].entity,
                        walls@[j - n0].x,
                        walls@[j - n0].y,
                    ),
            decreases walls@.len() - k,
        {
            let w = walls[k];
            let e = Entity { id: board.next_id };
            if board.next_id < u64::MAX {
                board.next_id = board.next_id + 1;
            }
            let ghost before = board.pieces@;
            board.pieces.push(
                Piece {
                    entity: e,
                    position: Some(GridPosition { x: w.x, y: w.y, facing_direction: Direction::Right }),
                    player: None,
                    health: None,
                    queued_movement: None,
                    queued_attack: None,
                    attacks_player: false,
                    sprite: Some("blue"),
                },
            );
            assert(board.pieces@.subrange(0, n0 as int) =~= before.subrange(0, n0 as int));
            k = k + 1;
        }
        proof {
            let ps = board.pieces@;
            assert forall|p: PositionComponent| #[trigger] carved_wall(rooms@, cs@, p) implies exists|k: int|
                n0 <= k < ps.len() && ps[k] == wall_piece(ps[k].entity, p.x, p.y) by {
                lemma_carved_walls(rooms@, cs@, p);
                assert(walls@.contains(p));
                let j = choose|j: int| 0 <= j < walls@.len() && walls@[j] == p;
                assert(ps[n0 + j] == wall_piece(ps[n0 + j].entity, p.x, p.y));
            }
            assert forall|k: int| n0 <= k < ps.len() implies exists|x: i32, y: i32|
                #[trigger] ps[k] == wall_piece(ps[k].entity, x, y) && carved_wall(rooms@, cs@, PositionComponent { x, y }) by {
                let w = walls@[k - n0];
                assert(walls@.contains(w));
                lemma_carved_walls(rooms@, cs@, w);
                assert(w == PositionComponent { x: w.x, y: w.y });
            }
        }
    }
}

} // verus!
