//! The table of entities of a floor: each entity's position, sprite and the
//! optional combat, behaviour and staircase components.

use crate::components::{CombatComponent, PositionComponent, SpriteComponent, StaircaseComponent};
use crate::entities::AIComponent;
use vstd::prelude::*;

verus! {

/// A handle on an entity of the world.
#[derive(Debug, Copy, Clone, Hash, PartialEq, Eq, Structural)]
pub struct Entity {
    pub id: u64,
}

/// One entity and its components.
#[derive(Clone, Copy)]
pub struct EntityRecord {
    pub entity: Entity,
    pub name: &'static str,
    pub position: PositionComponent,
    pub sprite: SpriteComponent,
    pub combat: Option<CombatComponent>,
    pub ai: Option<AIComponent>,
    pub staircase: Option<StaircaseComponent>,
}

/// Positions from which a step of one tile in any direction stays within
/// `i32`: nothing is ever placed or moved beyond them.
pub open spec fn in_bounds(p: PositionComponent) -> bool {
    -2147483647 <= p.x <= 2147483646 && -2147483647 <= p.y <= 2147483646
}

/// Whether `p` lies within the bounded plane (see `in_bounds`).
pub fn in_bounds_position(p: PositionComponent) -> (r: bool)
    ensures
        r == in_bounds(p),
{
    -2147483647 <= p.x && p.x <= 2147483646 && -2147483647 <= p.y && p.y <= 2147483646
}

/// Health no more than the maximum, and bounded statistics.
pub open spec fn combat_ok(c: CombatComponent) -> bool {
    &&& c.current_health <= c.max_health
    &&& c.stats_bounded()
}

pub open spec fn record_ok(r: EntityRecord) -> bool {
    &&& in_bounds(r.position)
    &&& r.combat matches Some(c) ==> combat_ok(c)
}

/// All entities, in the order they were spawned.
pub struct World {
    records: Vec<EntityRecord>,
    next_id: u64,
}

/// The index of the first record of `e`, if any.
pub open spec fn find_index(rs: Seq<EntityRecord>, e: Entity) -> Option<int>
    decreases rs.len(),
{
    if rs.len() == 0 {
        None
    } else {
        match find_index(rs.drop_last(), e) {
            Some(i) => Some(i),
            None => if rs.last().entity == e {
                Some(rs.len() - 1)
            } else {
                None
            },
        }
    }
}

pub proof fn lemma_find_index(rs: Seq<EntityRecord>, e: Entity)
    ensures
        find_index(rs, e) matches Some(i) ==> 0 <= i < rs.len() && rs[i].entity == e && forall|
            j: int,
        | 0 <= j < i ==> #[trigger] rs[j].entity != e,
        find_index(rs, e) is None ==> forall|j: int| 0 <= j < rs.len() ==> #[trigger] rs[j].entity != e,
    decreases rs.len(),
{
    if rs.len() > 0 {
        lemma_find_index(rs.drop_last(), e);
        assert forall|j: int| 0 <= j < rs.len() - 1 implies rs[j] == rs.drop_last()[j] by {}
    }
}

impl World {
    pub closed spec fn records(&self) -> Seq<EntityRecord> {
        self.records@
    }

    pub closed spec fn next_id(&self) -> u64 {
        self.next_id
    }

    /// Every record has bounded position and statistics.
    pub open spec fn wf(&self) -> bool {
        forall|i: int| 0 <= i < self.records().len() ==> record_ok(#[trigger] self.records()[i])
    }

    /// The record of `e` (the first one, should there be several).
    pub open spec fn get_spec(&self, e: Entity) -> Option<EntityRecord> {
        match find_index(self.records(), e) {
            Some(i) => Some(self.records()[i]),
            None => None,
        }
    }

    pub open spec fn contains_spec(&self, e: Entity) -> bool {
        self.get_spec(e) is Some
    }

    /// Some entity stands on `p`.
    pub open spec fn occupied(&self, p: PositionComponent) -> bool {
        exists|i: int| 0 <= i < self.records().len() && #[trigger] self.records()[i].position == p
    }

    pub fn new() -> (w: Self)
        ensures
            w.records() == Seq::<EntityRecord>::empty(),
            w.wf(),
    {
        World { records: Vec::new(), next_id: 0 }
    }

    /// A copy of the table.
    pub fn snapshot(&self) -> (w: World)
        ensures
            w.records() == self.records(),
            w.next_id() == self.next_id(),
    {
        let mut records: Vec<EntityRecord> = Vec::new();
        let mut i: usize = 0;
        while i < self.records.len()
            invariant
                i <= self.records@.len(),
                records@ == self.records@.subrange(0, i as int),
            decreases self.records@.len() - i,
        {
            records.push(self.records[i]);
            i = i + 1;
        }
        assert(records@ =~= self.records@);
        World { records, next_id: self.next_id }
    }

    pub fn len(&self) -> (n: usize)
        ensures
            n == self.records().len(),
    {
        self.records.len()
    }

    /// The record at position `i` of the table.
    pub fn record_at(&self, i: usize) -> (r: EntityRecord)
        requires
            i < self.records().len(),
        ensures
            r == self.records()[i as int],
    {
        self.records[i]
    }

    /// Adds an entity with the given components and returns its handle.
    pub fn spawn(
        &mut self,
        name: &'static str,
        position: PositionComponent,
        sprite: SpriteComponent,
        combat: Option<CombatComponent>,
        ai: Option<AIComponent>,
        staircase: Option<StaircaseComponent>,
    ) -> (e: Entity)
        requires
            old(self).wf(),
            in_bounds(position),
            combat matches Some(c) ==> combat_ok(c),
        ensures
            final(self).wf(),
            e.id == old(self).next_id(),
            final(self).next_id() == if old(self).next_id() < u64::MAX {
                old(self).next_id() + 1
            } else {
                old(self).next_id() as int
            },
            final(self).records() == old(self).records().push(
                EntityRecord { entity: e, name, position, sprite, combat, ai, staircase },
            ),
            forall|e2: Entity| #[trigger]
                old(self).contains_spec(e2) ==> final(self).get_spec(e2) == old(self).get_spec(e2),
            !old(self).contains_spec(e) ==> final(self).get_spec(e) == Some(
                EntityRecord { entity: e, name, position, sprite, combat, ai, staircase },
            ),
            forall|e2: Entity| #[trigger]
                final(self).contains_spec(e2) ==> old(self).contains_spec(e2) || e2 == e,
    {
        let e = Entity { id: self.next_id };
        let ghost old_rs = self.records@;
        self.records.push(EntityRecord { entity: e, name, position, sprite, combat, ai, staircase });
        assert forall|i: int| 0 <= i < self.records@.len() implies record_ok(
            #[trigger] self.records@[i],
        ) by {
            if i < old_rs.len() {
                assert(self.records@[i] == old_rs[i]);
                assert(record_ok(old(self).records()[i]));
            }
        }
        if self.next_id < u64::MAX {
            self.next_id = self.next_id + 1;
        }
        proof {
            assert(self.records@.drop_last() =~= old_rs);
            assert forall|e2: Entity| #[trigger]
                old(self).contains_spec(e2) implies self.get_spec(e2) == old(self).get_spec(e2) by {
                lemma_find_index(old_rs, e2);
            }
        }
        e
    }

    /// The index of the first record of `e`.
    pub fn index_of(&self, e: Entity) -> (r: Option<usize>)
        ensures
            r matches Some(i) ==> find_index(self.records(), e) == Some(i as int),
            r is None ==> find_index(self.records(), e) is None,
    {
        proof {
            lemma_find_index(self.records(), e);
        }
        let mut i: usize = 0;
        while i < self.records.len()
            invariant
                i <= self.records@.len(),
                forall|j: int| 0 <= j < i ==> #[trigger] self.records@[j].entity != e,
            decreases self.records@.len() - i,
        {
            if self.records[i].entity == e {
                proof {
                    lemma_find_index_first(self.records@, e, i as int);
                }
                return Some(i);
            }
            i = i + 1;
        }
        proof {
            lemma_find_index_none(self.records@, e);
        }
        None
    }

    pub fn get(&self, e: Entity) -> (r: Option<EntityRecord>)
        ensures
            r == self.get_spec(e),
    {
        proof {
            lemma_find_index(self.records(), e);
        }
        match self.index_of(e) {
            Some(i) => Some(self.records[i]),
            None => None,
        }
    }

    pub fn contains(&self, e: Entity) -> (r: bool)
        ensures
            r == self.contains_spec(e),
    {
        self.index_of(e).is_some()
    }

    /// Replaces the record at position `i`, keeping its entity handle.
    pub fn set_record(&mut self, i: usize, r: EntityRecord)
        requires
            old(self).wf(),
            i < old(self).records().len(),
            r.entity == old(self).records()[i as int].entity,
            record_ok(r),
        ensures
            final(self).wf(),
            final(self).records() == old(self).records().update(i as int, r),
            final(self).next_id() == old(self).next_id(),
            forall|e: Entity| #[trigger] find_index(final(self).records(), e) == find_index(old(self).records(), e),
            forall|e: Entity| #[trigger] final(self).contains_spec(e) == old(self).contains_spec(e),
            forall|e: Entity| e != r.entity ==> #[trigger] final(self).get_spec(e) == old(self).get_spec(e),
    {
        let ghost rs = self.records@;
        self.records.set(i, r);
        proof {
            assert forall|e: Entity| #[trigger] find_index(self.records(), e) == find_index(rs, e) by {
                lemma_find_update(rs, i as int, r, e);
            }
            assert forall|e: Entity| e != r.entity implies #[trigger] self.get_spec(e) == old(self).get_spec(e) by {
                lemma_find_update(rs, i as int, r, e);
                lemma_find_index(rs, e);
            }
            assert forall|e: Entity| #[trigger] self.contains_spec(e) == old(self).contains_spec(e) by {
                lemma_find_update(rs, i as int, r, e);
            }
        }
    }

    /// Removes every record of `e`; returns whether there was one.
    pub fn despawn(&mut self, e: Entity) -> (removed: bool)
        requires
            old(self).wf(),
        ensures
            final(self).wf(),
            removed == old(self).contains_spec(e),
            final(self).records() == old(self).records().filter(|r: EntityRecord| r.entity != e),
            final(self).next_id() == old(self).next_id(),
            !final(self).contains_spec(e),
            final(self).records().len() <= old(self).records().len(),
            old(self).contains_spec(e) ==> final(self).records().len() < old(self).records().len(),
            forall|e2: Entity| e2 != e ==> #[trigger] final(self).get_spec(e2) == old(self).get_spec(e2),
    {
        proof {
            lemma_find_index(self.records(), e);
        }
        let mut kept: Vec<EntityRecord> = Vec::new();
        let mut removed = false;
        let mut i: usize = 0;
        let ghost rs = self.records@;
        assert forall|j: int| 0 <= j < rs.len() implies record_ok(#[trigger] rs[j]) by {
            assert(record_ok(self.records()[j]));
        }
        while i < self.records.len()
            invariant
                rs == self.records@,
                i <= rs.len(),
                kept@ == rs.subrange(0, i as int).filter(|r: EntityRecord| r.entity != e),
                removed <==> exists|j: int| 0 <= j < i && #[trigger] rs[j].entity == e,
                forall|j: int| 0 <= j < kept@.len() ==> record_ok(#[trigger] kept@[j]),
                forall|j: int| 0 <= j < rs.len() ==> record_ok(#[trigger] rs[j]),
            decreases rs.len() - i,
        {
            let r = self.records[i];
            proof {
                assert(rs.subrange(0, i + 1).drop_last() =~= rs.subrange(0, i as int));
                reveal_with_fuel(Seq::filter, 1);
            }
            if r.entity != e {
                kept.push(r);
            } else {
                removed = true;
            }
            i = i + 1;
        }
        assert(rs.subrange(0, rs.len() as int) =~= rs);
        proof {
            if exists|j: int| 0 <= j < rs.len() && #[trigger] rs[j].entity == e {
                let j = choose|j: int| 0 <= j < rs.len() && #[trigger] rs[j].entity == e;
                lemma_find_index(rs, e);
            }
        }
        self.records = kept;
        proof {
            lemma_filter_absent(rs, e);
            lemma_filter_len(rs, |r: EntityRecord| r.entity != e);
            if old(self).contains_spec(e) {
                lemma_filter_removes(rs, e);
            }
            assert forall|e2: Entity| e2 != e implies #[trigger] self.get_spec(e2) == old(self).get_spec(e2) by {
                lemma_filter_find(rs, |r: EntityRecord| r.entity != e, e2);
            }
        }
        removed
    }

    /// Keeps only the records of the given entities.
    pub fn retain_only(&mut self, keep: &Vec<Entity>)
        requires
            old(self).wf(),
        ensures
            final(self).wf(),
            final(self).records() == old(self).records().filter(
                |r: EntityRecord| keep@.contains(r.entity),
            ),
            final(self).next_id() == old(self).next_id(),
            forall|e: Entity| keep@.contains(e) ==> #[trigger] final(self).get_spec(e) == old(self).get_spec(e),
    {
        let mut kept: Vec<EntityRecord> = Vec::new();
        let mut i: usize = 0;
        let ghost rs = self.records@;
        assert forall|j: int| 0 <= j < rs.len() implies record_ok(#[trigger] rs[j]) by {
            assert(record_ok(self.records()[j]));
        }
        while i < self.records.len()
            invariant
                rs == self.records@,
                i <= rs.len(),
                kept@ == rs.subrange(0, i as int).filter(|r: EntityRecord| keep@.contains(r.entity)),
                forall|j: int| 0 <= j < kept@.len() ==> record_ok(#[trigger] kept@[j]),
                forall|j: int| 0 <= j < rs.len() ==> record_ok(#[trigger] rs[j]),
            decreases rs.len() - i,
        {
            let r = self.records[i];
            proof {
                assert(rs.subrange(0, i + 1).drop_last() =~= rs.subrange(0, i as int));
                reveal_with_fuel(Seq::filter, 1);
            }
            let mut found = false;
            let mut k: usize = 0;
            while k < keep.len()
                invariant
                    k <= keep@.len(),
                    found <==> exists|j: int| 0 <= j < k && keep@[j] == r.entity,
                decreases keep@.len() - k,
            {
                if keep[k] == r.entity {
                    found = true;
                }
                k = k + 1;
            }
            if found {
                kept.push(r);
            }
            i = i + 1;
        }
        assert(rs.subrange(0, rs.len() as int) =~= rs);
        self.records = kept;
        proof {
            assert forall|e: Entity| keep@.contains(e) implies #[trigger] self.get_spec(e) == old(self).get_spec(e) by {
                lemma_filter_find(rs, |r: EntityRecord| keep@.contains(r.entity), e);
            }
        }
    }

    /// Whether some entity stands on `p`.
    pub fn is_occupied(&self, p: PositionComponent) -> (r: bool)
        ensures
            r == self.occupied(p),
    {
        let mut i: usize = 0;
        while i < self.records.len()
            invariant
                i <= self.records@.len(),
                forall|j: int| 0 <= j < i ==> #[trigger] self.records@[j].position != p,
            decreases self.records@.len() - i,
        {
            if self.records[i].position == p {
                assert(self.records@[i as int].position == p);
                return true;
            }
            i = i + 1;
        }
        false
    }

    /// The positions of all records, in table order.
    pub open spec fn positions_spec(&self) -> Seq<PositionComponent> {
        self.records().map_values(|r: EntityRecord| r.position)
    }

    /// The positions of all entities, in table order.
    pub fn positions(&self) -> (r: Vec<PositionComponent>)
        ensures
            r@ == self.positions_spec(),
            r@.len() == self.records().len(),
            forall|i: int| 0 <= i < r@.len() ==> #[trigger] r@[i] == self.records()[i].position,
    {
        let mut r: Vec<PositionComponent> = Vec::new();
        let mut i: usize = 0;
        while i < self.records.len()
            invariant
                i <= self.records@.len(),
                r@.len() == i,
                forall|j: int| 0 <= j < i ==> #[trigger] r@[j] == self.records@[j].position,
            decreases self.records@.len() - i,
        {
            r.push(self.records[i].position);
            i = i + 1;
        }
        assert(r@ =~= self.positions_spec());
        r
    }
}

proof fn lemma_find_index_first(rs: Seq<EntityRecord>, e: Entity, i: int)
    requires
        0 <= i < rs.len(),
        rs[i].entity == e,
        forall|j: int| 0 <= j < i ==> #[trigger] rs[j].entity != e,
    ensures
        find_index(rs, e) == Some(i),
    decreases rs.len(),
{
    lemma_find_index(rs, e);
    if i < rs.len() - 1 {
        lemma_find_index_first(rs.drop_last(), e, i);
    } else {
        lemma_find_index_none(rs.drop_last(), e);
    }
}

proof fn lemma_find_index_none(rs: Seq<EntityRecord>, e: Entity)
    requires
        forall|j: int| 0 <= j < rs.len() ==> #[trigger] rs[j].entity != e,
    ensures
        find_index(rs, e) is None,
    decreases rs.len(),
{
    if rs.len() > 0 {
        lemma_find_index_none(rs.drop_last(), e);
    }
}


/// Replacing a record by one of the same entity leaves every lookup index as it was.
pub proof fn lemma_find_update(rs: Seq<EntityRecord>, i: int, r: EntityRecord, e: Entity)
    requires
        0 <= i < rs.len(),
        r.entity == rs[i].entity,
    ensures
        find_index(rs.update(i, r), e) == find_index(rs, e),
    decreases rs.len(),
{
    let us = rs.update(i, r);
    if i < rs.len() - 1 {
        assert(us.drop_last() =~= rs.drop_last().update(i, r));
        lemma_find_update(rs.drop_last(), i, r, e);
    } else {
        assert(us.drop_last() =~= rs.drop_last());
    }
}

/// Dropping records of other entities keeps the first record of `e` first.
pub proof fn lemma_filter_find(rs: Seq<EntityRecord>, keep: spec_fn(EntityRecord) -> bool, e: Entity)
    requires
        forall|r: EntityRecord| r.entity == e ==> #[trigger] keep(r),
    ensures
        match find_index(rs, e) {
            Some(i) => find_index(rs.filter(keep), e) matches Some(k) && 0 <= k < rs.filter(
                keep,
            ).len() && rs.filter(keep)[k] == rs[i],
            None => find_index(rs.filter(keep), e) is None,
        },
    decreases rs.len(),
{
    reveal_with_fuel(Seq::filter, 1);
    if rs.len() > 0 {
        let init = rs.drop_last();
        let last = rs.last();
        lemma_filter_find(init, keep, e);
        lemma_find_index(init, e);
        let f0 = init.filter(keep);
        let f = rs.filter(keep);
        if keep(last) {
            assert(f == f0.push(last));
            assert(f.drop_last() =~= f0);
            match find_index(init, e) {
                Some(i) => {
                    let k = find_index(f0, e).unwrap();
                    assert(find_index(f, e) == Some(k));
                    assert(f[k] == f0[k]);
                    assert(rs[i] == init[i]);
                    assert(find_index(rs, e) == Some(i));
                },
                None => {
                    if last.entity == e {
                        assert(find_index(rs, e) == Some(rs.len() - 1));
                        assert(find_index(f, e) == Some(f.len() - 1));
                        assert(f[f.len() - 1] == last);
                    } else {
                        assert(find_index(rs, e) is None);
                        assert(find_index(f, e) is None);
                    }
                },
            }
        } else {
            assert(f == f0);
            assert(last.entity != e);
            match find_index(init, e) {
                Some(i) => {
                    assert(rs[i] == init[i]);
                    assert(find_index(rs, e) == Some(i));
                },
                None => {
                    assert(find_index(rs, e) is None);
                },
            }
        }
    } else {
        assert(rs.filter(keep) == rs);
    }
}

proof fn lemma_filter_removes(rs: Seq<EntityRecord>, e: Entity)
    requires
        find_index(rs, e) is Some,
    ensures
        rs.filter(|r: EntityRecord| r.entity != e).len() < rs.len(),
    decreases rs.len(),
{
    reveal_with_fuel(Seq::filter, 1);
    let init = rs.drop_last();
    lemma_filter_len(init, |r: EntityRecord| r.entity != e);
    if find_index(init, e) is Some {
        lemma_filter_removes(init, e);
    }
}

pub proof fn lemma_filter_absent(rs: Seq<EntityRecord>, e: Entity)
    ensures
        find_index(rs.filter(|r: EntityRecord| r.entity != e), e) is None,
{
    let f = rs.filter(|r: EntityRecord| r.entity != e);
    broadcast use vstd::seq_lib::group_filter_ensures;
    assert forall|j: int| 0 <= j < f.len() implies #[trigger] f[j].entity != e by {}
    lemma_find_index_none(f, e);
}

pub proof fn lemma_filter_len(rs: Seq<EntityRecord>, keep: spec_fn(EntityRecord) -> bool)
    ensures
        rs.filter(keep).len() <= rs.len(),
    decreases rs.len(),
{
    reveal_with_fuel(Seq::filter, 1);
    if rs.len() > 0 {
        lemma_filter_len(rs.drop_last(), keep);
    }
}


/// Appending records leaves the lookup of an entity already present unchanged.
pub proof fn lemma_find_prefix(old_rs: Seq<EntityRecord>, new_rs: Seq<EntityRecord>, e: Entity)
    requires
        new_rs.len() >= old_rs.len(),
        forall|i: int| 0 <= i < old_rs.len() ==> #[trigger] new_rs[i] == old_rs[i],
        find_index(old_rs, e) is Some,
    ensures
        find_index(new_rs, e) == find_index(old_rs, e),
    decreases new_rs.len(),
{
    if new_rs.len() == old_rs.len() {
        assert(new_rs =~= old_rs);
    } else {
        lemma_find_prefix(old_rs, new_rs.drop_last(), e);
    }
}

} // verus!
