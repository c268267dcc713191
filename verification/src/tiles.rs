//! A set of grid positions that remembers the order in which they were added.

use crate::components::PositionComponent;
use std::collections::HashSet;
use vstd::prelude::*;

verus! {

broadcast use vstd::std_specs::hash::group_hash_axioms;

/// A 64-bit number that identifies a position: the high half holds `x`, the
/// low half holds `y`, each shifted by 2^31 into the unsigned range.
pub open spec fn tile_key(p: PositionComponent) -> u64 {
    ((p.x + 2147483648) * 4294967296 + (p.y + 2147483648)) as u64
}

pub proof fn lemma_tile_key_injective(p: PositionComponent, q: PositionComponent)
    requires
        tile_key(p) == tile_key(q),
    ensures
        p == q,
{
    let a = p.x + 2147483648;
    let b = p.y + 2147483648;
    let c = q.x + 2147483648;
    let d = q.y + 2147483648;
    assert(0 <= a * 4294967296 + b < 18446744073709551616) by (nonlinear_arith)
        requires
            0 <= a < 4294967296,
            0 <= b < 4294967296,
    ;
    assert(0 <= c * 4294967296 + d < 18446744073709551616) by (nonlinear_arith)
        requires
            0 <= c < 4294967296,
            0 <= d < 4294967296,
    ;
    assert(a == c && b == d) by (nonlinear_arith)
        requires
            a * 4294967296 + b == c * 4294967296 + d,
            0 <= b < 4294967296,
            0 <= d < 4294967296,
    ;
}

pub fn key_of(p: PositionComponent) -> (k: u64)
    ensures
        k == tile_key(p),
{
    let a: u64 = (p.x as i64 + 2147483648i64) as u64;
    let b: u64 = (p.y as i64 + 2147483648i64) as u64;
    assert(a * 4294967296 + b <= u64::MAX) by (nonlinear_arith)
        requires
            a < 4294967296,
            b < 4294967296,
    ;
    a * 4294967296 + b
}

/// Positions without repetition, kept both as a list (in insertion order) and
/// as a hash set of their keys for fast membership tests.
pub struct TileSet {
    keys: HashSet<u64>,
    tiles: Vec<PositionComponent>,
}

impl View for TileSet {
    type V = Set<PositionComponent>;

    open spec fn view(&self) -> Set<PositionComponent> {
        Set::new(|p: PositionComponent| self.list().contains(p))
    }
}

impl TileSet {
    /// The positions in insertion order.
    pub closed spec fn list(&self) -> Seq<PositionComponent> {
        self.tiles@
    }

    pub closed spec fn wf(&self) -> bool {
        &&& self.tiles@.no_duplicates()
        &&& forall|p: PositionComponent| #[trigger]
            self.keys@.contains(tile_key(p)) <==> self.tiles@.contains(p)
        &&& forall|k: u64| #[trigger]
            self.keys@.contains(k) ==> exists|p: PositionComponent| #[trigger]
                self.tiles@.contains(p) && tile_key(p) == k
    }

    pub fn new() -> (r: Self)
        ensures
            r.wf(),
            r.list() == Seq::<PositionComponent>::empty(),
            r@ == Set::<PositionComponent>::empty(),
    {
        let r = TileSet { keys: HashSet::new(), tiles: Vec::new() };
        assert(r@ =~= Set::<PositionComponent>::empty());
        r
    }

    pub fn contains(&self, p: PositionComponent) -> (r: bool)
        requires
            self.wf(),
        ensures
            r == self@.contains(p),
    {
        let k = key_of(p);
        self.keys.contains(&k)
    }

    /// Adds `p`; an existing position is not added twice.
    pub fn insert(&mut self, p: PositionComponent)
        requires
            old(self).wf(),
        ensures
            final(self).wf(),
            final(self)@ == old(self)@.insert(p),
            old(self)@.contains(p) ==> final(self).list() == old(self).list(),
            !old(self)@.contains(p) ==> final(self).list() == old(self).list().push(p),
    {
        let k = key_of(p);
        if !self.keys.contains(&k) {
            let ghost old_tiles = self.tiles@;
            let ghost old_keys = self.keys@;
            self.keys.insert(k);
            self.tiles.push(p);
            assert forall|q: PositionComponent| #[trigger]
                self.keys@.contains(tile_key(q)) <==> self.tiles@.contains(q) by {
                if q == p {
                    assert(self.tiles@[self.tiles@.len() - 1] == p);
                    assert(self.keys@.contains(tile_key(q)));
                } else {
                    if tile_key(q) == k {
                        lemma_tile_key_injective(p, q);
                    }
                    assert(self.keys@.contains(tile_key(q)) == old_keys.contains(tile_key(q)));
                    assert(old_keys.contains(tile_key(q)) == old_tiles.contains(q));
                    if self.tiles@.contains(q) {
                        let i = choose|i: int| 0 <= i < self.tiles@.len() && self.tiles@[i] == q;
                        assert(old_tiles[i] == q);
                    }
                    if old_tiles.contains(q) {
                        let i = choose|i: int| 0 <= i < old_tiles.len() && old_tiles[i] == q;
                        assert(self.tiles@[i] == q);
                    }
                }
            }
            assert forall|kk: u64| #[trigger] self.keys@.contains(kk) implies exists|q: PositionComponent|
                #[trigger] self.tiles@.contains(q) && tile_key(q) == kk by {
                if kk == k {
                    assert(self.tiles@[self.tiles@.len() - 1] == p);
                } else {
                    assert(old_keys.contains(kk));
                    let q = choose|q: PositionComponent| #[trigger]
                        old_tiles.contains(q) && tile_key(q) == kk;
                    let i = choose|i: int| 0 <= i < old_tiles.len() && old_tiles[i] == q;
                    assert(self.tiles@[i] == q);
                }
            }
            assert(self@ =~= old(self)@.insert(p)) by {
                assert forall|q: PositionComponent| self.tiles@.contains(q) <==> (old_tiles.contains(
                    q,
                ) || q == p) by {
                    if old_tiles.contains(q) {
                        let i = choose|i: int| 0 <= i < old_tiles.len() && old_tiles[i] == q;
                        assert(self.tiles@[i] == q);
                    }
                    if q == p {
                        assert(self.tiles@[self.tiles@.len() - 1] == p);
                    }
                    if self.tiles@.contains(q) && q != p {
                        let i = choose|i: int| 0 <= i < self.tiles@.len() && self.tiles@[i] == q;
                        assert(old_tiles[i] == q);
                    }
                }
            }
        } else {
            assert(self@ =~= old(self)@.insert(p));
        }
    }

    /// A copy of the positions, in insertion order.
    pub fn to_vec(&self) -> (r: Vec<PositionComponent>)
        ensures
            r@ == self.list(),
    {
        self.tiles.clone()
    }

    pub proof fn lemma_list_view(&self)
        requires
            self.wf(),
        ensures
            self.list().no_duplicates(),
            forall|p: PositionComponent| #[trigger] self@.contains(p) <==> self.list().contains(p),
    {
    }
}

} // verus!
