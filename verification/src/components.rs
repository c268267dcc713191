use vstd::prelude::*;

verus! {

/// A tile coordinate on the dungeon grid. `y` grows upwards.
#[derive(Debug, Copy, Clone, Hash, PartialEq, Eq, Structural)]
pub struct PositionComponent {
    pub x: i32,
    pub y: i32,
}

/// The position `(p.x + dx, p.y + dy)`.
pub open spec fn shifted(p: PositionComponent, dx: int, dy: int) -> PositionComponent {
    PositionComponent { x: (p.x + dx) as i32, y: (p.y + dy) as i32 }
}

/// Both coordinates stay away from the ends of `i32`, so that every neighbour exists.
pub open spec fn has_neighbors(p: PositionComponent) -> bool {
    i32::MIN < p.x < i32::MAX && i32::MIN < p.y < i32::MAX
}

/// The eight tiles around `p`, in the order up-left, up, up-right, right,
/// down-right, down, down-left, left.
pub open spec fn neighbor_seq(p: PositionComponent) -> Seq<PositionComponent> {
    seq![
        shifted(p, -1, 1),
        shifted(p, 0, 1),
        shifted(p, 1, 1),
        shifted(p, 1, 0),
        shifted(p, 1, -1),
        shifted(p, 0, -1),
        shifted(p, -1, -1),
        shifted(p, -1, 0),
    ]
}

/// `q` is one of the eight tiles that touch `p` (sides or corners).
pub open spec fn is_adjacent8(p: PositionComponent, q: PositionComponent) -> bool {
    &&& -1 <= q.x - p.x <= 1
    &&& -1 <= q.y - p.y <= 1
    &&& !(q.x == p.x && q.y == p.y)
}

/// `q` shares a side with `p`.
pub open spec fn is_adjacent4(p: PositionComponent, q: PositionComponent) -> bool {
    ||| (q.x == p.x && (q.y - p.y == 1 || q.y - p.y == -1))
    ||| (q.y == p.y && (q.x - p.x == 1 || q.x - p.x == -1))
}

/// Absolute value of an integer.
pub open spec fn abs(a: int) -> int {
    if a < 0 { -a } else { a }
}

/// Taxicab distance between two positions.
pub open spec fn manhattan(p: PositionComponent, q: PositionComponent) -> int {
    abs(q.x - p.x) + abs(q.y - p.y)
}

/// King-move (Chebyshev) distance between two positions.
pub open spec fn chebyshev(p: PositionComponent, q: PositionComponent) -> int {
    let dx = abs(q.x - p.x);
    let dy = abs(q.y - p.y);
    if dx < dy { dy } else { dx }
}

pub proof fn lemma_neighbor_seq_adjacent(p: PositionComponent)
    requires
        has_neighbors(p),
    ensures
        neighbor_seq(p).len() == 8,
        forall|i: int| 0 <= i < 8 ==> is_adjacent8(p, #[trigger] neighbor_seq(p)[i]),
        forall|q: PositionComponent| is_adjacent8(p, q) ==> neighbor_seq(p).contains(q),
{
    assert forall|q: PositionComponent| is_adjacent8(p, q) implies neighbor_seq(p).contains(q) by {
        let s = neighbor_seq(p);
        if q.x - p.x == -1 && q.y - p.y == 1 {
            assert(s[0] == q);
        } else if q.x - p.x == 0 && q.y - p.y == 1 {
            assert(s[1] == q);
        } else if q.x - p.x == 1 && q.y - p.y == 1 {
            assert(s[2] == q);
        } else if q.x - p.x == 1 && q.y - p.y == 0 {
            assert(s[3] == q);
        } else if q.x - p.x == 1 && q.y - p.y == -1 {
            assert(s[4] == q);
        } else if q.x - p.x == 0 && q.y - p.y == -1 {
            assert(s[5] == q);
        } else if q.x - p.x == -1 && q.y - p.y == -1 {
            assert(s[6] == q);
        } else {
            assert(s[7] == q);
        }
    }
}

impl PositionComponent {
    /// The eight surrounding tiles (see `neighbor_seq` for the order).
    pub fn neighbors(&self) -> (r: [Self; 8])
        requires
            has_neighbors(*self),
        ensures
            r@ == neighbor_seq(*self),
    {
        let x = self.x;
        let y = self.y;
        let r = [
            PositionComponent { x: x - 1, y: y + 1 },
            PositionComponent { x, y: y + 1 },
            PositionComponent { x: x + 1, y: y + 1 },
            PositionComponent { x: x + 1, y },
            PositionComponent { x: x + 1, y: y - 1 },
            PositionComponent { x, y: y - 1 },
            PositionComponent { x: x - 1, y: y - 1 },
            PositionComponent { x: x - 1, y },
        ];
        assert(r@ =~= neighbor_seq(*self));
        r
    }

    /// Component-wise sum of two positions.
    pub fn plus(self, other: Self) -> (r: Self)
        requires
            i32::MIN <= self.x + other.x <= i32::MAX,
            i32::MIN <= self.y + other.y <= i32::MAX,
        ensures
            r == shifted(self, other.x as int, other.y as int),
    {
        PositionComponent { x: self.x + other.x, y: self.y + other.y }
    }

    /// Whether `other` is directly above, below, left or right of `self`.
    pub fn is_next_to(&self, other: &Self) -> (r: bool)
        ensures
            r == is_adjacent4(*other, *self),
    {
        let dx = self.x as i64 - other.x as i64;
        let dy = self.y as i64 - other.y as i64;
        (dx == 1 && dy == 0) || (dx == -1 && dy == 0) || (dx == 0 && dy == 1) || (dx == 0 && dy
            == -1)
    }

    /// Taxicab distance, as a `u16` (the distance must fit in one).
    pub fn distance_from(self, other: Self) -> (r: u16)
        requires
            manhattan(self, other) <= u16::MAX,
        ensures
            r == manhattan(self, other),
    {
        let dx = other.x as i64 - self.x as i64;
        let dy = other.y as i64 - self.y as i64;
        let ax = if dx < 0 { -dx } else { dx };
        let ay = if dy < 0 { -dy } else { dy };
        (ax + ay) as u16
    }
}

/// The image that draws an entity.
#[derive(Debug, Copy, Clone, Hash, PartialEq, Eq)]
pub struct SpriteComponent {
    pub id: &'static str,
}

/// The side an entity fights for.
#[derive(Debug, Copy, Clone, Hash, PartialEq, Eq, Structural)]
pub enum Team {
    Player,
    Enemy,
    Neutral,
}

/// Marks the tile that leads to the next floor.
#[derive(Debug, Copy, Clone, Hash, PartialEq, Eq, Structural)]
pub struct StaircaseComponent {}

/// Health, the four base statistics, and the timed buffs and debuffs on them.
/// Each buff or debuff is a pair (amount, turns left).
#[derive(Debug, Copy, Clone, Hash, PartialEq, Eq)]
pub struct CombatComponent {
    pub current_health: u32,
    pub max_health: u32,
    pub strength: u32,
    pub focus: u32,
    pub agility: u32,
    pub luck: u32,
    pub team: Team,
    pub strength_buff: (u32, u32),
    pub focus_buff: (u32, u32),
    pub agility_buff: (u32, u32),
    pub luck_buff: (u32, u32),
    pub magic_immune_buff: bool,
    pub explode_on_death_buff: (u32, u32),
    pub strength_debuff: (u32, u32),
    pub focus_debuff: (u32, u32),
    pub agility_debuff: (u32, u32),
    pub luck_debuff: (u32, u32),
    pub burn_debuff: (u32, u32),
}

/// The effective value of a statistic: base plus buff minus debuff, 1 when the
/// debuff exceeds the rest, and never more than 100.
pub open spec fn stat_value(base: u32, buff: u32, debuff: u32) -> u32 {
    if base + buff < debuff {
        1
    } else if base + buff - debuff > 100 {
        100
    } else {
        (base + buff - debuff) as u32
    }
}

/// Base value raised by `amount`, capped at 100.
pub open spec fn raised_base(base: u32, amount: u32) -> u32 {
    if base + amount > 100 {
        100
    } else {
        (base + amount) as u32
    }
}

fn effective_stat(base: u32, buff: u32, debuff: u32) -> (r: u32)
    requires
        base + buff <= u32::MAX,
    ensures
        r == stat_value(base, buff, debuff),
        r <= 100,
{
    let total = base + buff;
    match total.checked_sub(debuff) {
        Some(v) => if v > 100 {
            100
        } else {
            v
        },
        None => 1,
    }
}

impl CombatComponent {
    /// The four base statistics and the four buff amounts are at most 1000,
    /// so that no sum of a base and its buff overflows.
    pub open spec fn stats_bounded(self) -> bool {
        &&& self.strength <= 1000
        &&& self.focus <= 1000
        &&& self.agility <= 1000
        &&& self.luck <= 1000
        &&& self.strength_buff.0 <= 1000
        &&& self.focus_buff.0 <= 1000
        &&& self.agility_buff.0 <= 1000
        &&& self.luck_buff.0 <= 1000
    }

    /// Everything but the base statistics is equal in `self` and `other`.
    pub open spec fn same_but_bases(self, other: Self) -> bool {
        &&& self.current_health == other.current_health
        &&& self.max_health == other.max_health
        &&& self.team == other.team
        &&& self.strength_buff == other.strength_buff
        &&& self.focus_buff == other.focus_buff
        &&& self.agility_buff == other.agility_buff
        &&& self.luck_buff == other.luck_buff
        &&& self.magic_immune_buff == other.magic_immune_buff
        &&& self.explode_on_death_buff == other.explode_on_death_buff
        &&& self.strength_debuff == other.strength_debuff
        &&& self.focus_debuff == other.focus_debuff
        &&& self.agility_debuff == other.agility_debuff
        &&& self.luck_debuff == other.luck_debuff
        &&& self.burn_debuff == other.burn_debuff
    }

    pub open spec fn spec_strength(self) -> u32 {
        stat_value(self.strength, self.strength_buff.0, self.strength_debuff.0)
    }

    pub open spec fn spec_focus(self) -> u32 {
        stat_value(self.focus, self.focus_buff.0, self.focus_debuff.0)
    }

    pub open spec fn spec_agility(self) -> u32 {
        stat_value(self.agility, self.agility_buff.0, self.agility_debuff.0)
    }

    pub open spec fn spec_luck(self) -> u32 {
        stat_value(self.luck, self.luck_buff.0, self.luck_debuff.0)
    }

    /// A combatant at full health with the given statistics and no buffs or debuffs.
    pub open spec fn new_spec(
        max_health: u32,
        strength: u32,
        focus: u32,
        agility: u32,
        luck: u32,
        team: Team,
    ) -> Self {
        CombatComponent {
            current_health: max_health,
            max_health,
            strength,
            focus,
            agility,
            luck,
            team,
            strength_buff: (0, 0),
            focus_buff: (0, 0),
            agility_buff: (0, 0),
            luck_buff: (0, 0),
            magic_immune_buff: false,
            explode_on_death_buff: (0, 0),
            strength_debuff: (0, 0),
            focus_debuff: (0, 0),
            agility_debuff: (0, 0),
            luck_debuff: (0, 0),
            burn_debuff: (0, 0),
        }
    }

    /// A combatant at full health with the given statistics and no buffs or debuffs.
    pub fn new(max_health: u32, strength: u32, focus: u32, agility: u32, luck: u32, team: Team) -> (r:
        Self)
        ensures
            r == Self::new_spec(max_health, strength, focus, agility, luck, team),
    {
        CombatComponent {
            current_health: max_health,
            max_health,
            strength,
            focus,
            agility,
            luck,
            team,
            strength_buff: (0, 0),
            focus_buff: (0, 0),
            agility_buff: (0, 0),
            luck_buff: (0, 0),
            magic_immune_buff: false,
            explode_on_death_buff: (0, 0),
            strength_debuff: (0, 0),
            focus_debuff: (0, 0),
            agility_debuff: (0, 0),
            luck_debuff: (0, 0),
            burn_debuff: (0, 0),
        }
    }

    pub fn get_strength(&self) -> (r: u32)
        requires
            self.strength + self.strength_buff.0 <= u32::MAX,
        ensures
            r == self.spec_strength(),
            r <= 100,
            r == if self.strength + self.strength_buff.0 < self.strength_debuff.0 {
                1
            } else if self.strength + self.strength_buff.0 - self.strength_debuff.0 > 100 {
                100
            } else {
                self.strength + self.strength_buff.0 - self.strength_debuff.0
            },
    {
        effective_stat(self.strength, self.strength_buff.0, self.strength_debuff.0)
    }

    pub fn get_focus(&self) -> (r: u32)
        requires
            self.focus + self.focus_buff.0 <= u32::MAX,
        ensures
            r == self.spec_focus(),
            r <= 100,
            r == if self.focus + self.focus_buff.0 < self.focus_debuff.0 {
                1
            } else if self.focus + self.focus_buff.0 - self.focus_debuff.0 > 100 {
                100
            } else {
                self.focus + self.focus_buff.0 - self.focus_debuff.0
            },
    {
        effective_stat(self.focus, self.focus_buff.0, self.focus_debuff.0)
    }

    pub fn get_agility(&self) -> (r: u32)
        requires
            self.agility + self.agility_buff.0 <= u32::MAX,
        ensures
            r == self.spec_agility(),
            r <= 100,
            r == if self.agility + self.agility_buff.0 < self.agility_debuff.0 {
                1
            } else if self.agility + self.agility_buff.0 - self.agility_debuff.0 > 100 {
                100
            } else {
                self.agility + self.agility_buff.0 - self.agility_debuff.0
            },
    {
        effective_stat(self.agility, self.agility_buff.0, self.agility_debuff.0)
    }

    pub fn get_luck(&self) -> (r: u32)
        requires
            self.luck + self.luck_buff.0 <= u32::MAX,
        ensures
            r == self.spec_luck(),
            r <= 100,
            r == if self.luck + self.luck_buff.0 < self.luck_debuff.0 {
                1
            } else if self.luck + self.luck_buff.0 - self.luck_debuff.0 > 100 {
                100
            } else {
                self.luck + self.luck_buff.0 - self.luck_debuff.0
            },
    {
        effective_stat(self.luck, self.luck_buff.0, self.luck_debuff.0)
    }

    pub fn increase_base_strength(&mut self, amount: u32)
        requires
            old(self).strength + amount <= u32::MAX,
        ensures
            final(self).strength == raised_base(old(self).strength, amount),
            final(self).focus == old(self).focus,
            final(self).agility == old(self).agility,
            final(self).luck == old(self).luck,
            final(self).same_but_bases(*old(self)),
    {
        let v = self.strength + amount;
        self.strength = if v > 100 {
            100
        } else {
            v
        };
    }

    pub fn increase_base_focus(&mut self, amount: u32)
        requires
            old(self).focus + amount <= u32::MAX,
        ensures
            final(self).focus == raised_base(old(self).focus, amount),
            final(self).strength == old(self).strength,
            final(self).agility == old(self).agility,
            final(self).luck == old(self).luck,
            final(self).same_but_bases(*old(self)),
    {
        let v = self.focus + amount;
        self.focus = if v > 100 {
            100
        } else {
            v
        };
    }

    pub fn increase_base_agility(&mut self, amount: u32)
        requires
            old(self).agility + amount <= u32::MAX,
        ensures
            final(self).agility == raised_base(old(self).agility, amount),
            final(self).strength == old(self).strength,
            final(self).focus == old(self).focus,
            final(self).luck == old(self).luck,
            final(self).same_but_bases(*old(self)),
    {
        let v = self.agility + amount;
        self.agility = if v > 100 {
            100
        } else {
            v
        };
    }

    pub fn increase_base_luck(&mut self, amount: u32)
        requires
            old(self).luck + amount <= u32::MAX,
        ensures
            final(self).luck == raised_base(old(self).luck, amount),
            final(self).strength == old(self).strength,
            final(self).focus == old(self).focus,
            final(self).agility == old(self).agility,
            final(self).same_but_bases(*old(self)),
    {
        let v = self.luck + amount;
        self.luck = if v > 100 {
            100
        } else {
            v
        };
    }
}


/// An effective statistic is its base plus its buff minus its debuff,
/// capped at 100, and 1 when the debuff outweighs both; a larger buff never
/// lowers it, and below the cap raises it by as much.
pub proof fn lemma_effective_stats(c: CombatComponent, extra: u32)
    ensures
        c.spec_strength() == if c.strength + c.strength_buff.0 < c.strength_debuff.0 {
            1
        } else if c.strength + c.strength_buff.0 - c.strength_debuff.0 > 100 {
            100
        } else {
            c.strength + c.strength_buff.0 - c.strength_debuff.0
        },
        c.spec_focus() == if c.focus + c.focus_buff.0 < c.focus_debuff.0 {
            1
        } else if c.focus + c.focus_buff.0 - c.focus_debuff.0 > 100 {
            100
        } else {
            c.focus + c.focus_buff.0 - c.focus_debuff.0
        },
        c.spec_agility() == if c.agility + c.agility_buff.0 < c.agility_debuff.0 {
            1
        } else if c.agility + c.agility_buff.0 - c.agility_debuff.0 > 100 {
            100
        } else {
            c.agility + c.agility_buff.0 - c.agility_debuff.0
        },
        c.spec_luck() == if c.luck + c.luck_buff.0 < c.luck_debuff.0 {
            1
        } else if c.luck + c.luck_buff.0 - c.luck_debuff.0 > 100 {
            100
        } else {
            c.luck + c.luck_buff.0 - c.luck_debuff.0
        },
        c.agility_buff.0 + extra <= u32::MAX && c.agility + c.agility_buff.0 >= c.agility_debuff.0 ==> {
            let raised = CombatComponent { agility_buff: ((c.agility_buff.0 + extra) as u32, c.agility_buff.1), ..c };
            &&& raised.spec_agility() >= c.spec_agility()
            &&& c.agility + c.agility_buff.0 + extra - c.agility_debuff.0 <= 100 ==> raised.spec_agility()
                == c.spec_agility() + extra
        },
{
}

} // verus!
