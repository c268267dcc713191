//! Pathfinding on the tile grid, and single steps in the eight directions.
//!
//! The search is a breadth-first search confined to a rectangle: the bounding
//! box of the start, the guide tile and every obstacle, grown by one tile.

use crate::components::PositionComponent;
pub use crate::data::Direction;
use crate::data::direction_step;
use crate::game::Game;
use crate::world::{in_bounds, record_ok, Entity, EntityRecord, World};
use vstd::prelude::*;
use vstd::set_lib::{lemma_int_range, lemma_len_subset, set_int_range};

verus! {

/// Whether a move from `p` to `q` is one step: a king move when diagonal
/// moves are allowed, a rook step of one tile otherwise.
pub open spec fn step_ok(diagonal: bool, p: PositionComponent, q: PositionComponent) -> bool {
    if diagonal {
        crate::components::is_adjacent8(p, q)
    } else {
        crate::components::is_adjacent4(p, q)
    }
}

/// A rectangle of tiles: columns `min_x .. min_x + width`, rows
/// `min_y .. min_y + height`.
#[derive(Debug, Copy, Clone, PartialEq, Eq, Structural)]
pub struct SearchArea {
    pub min_x: i32,
    pub min_y: i32,
    pub width: usize,
    pub height: usize,
}

/// Coordinates this far from zero leave room for the grown rectangle.
pub open spec fn coord_ok(p: PositionComponent) -> bool {
    -1000000000 <= p.x <= 1000000000 && -1000000000 <= p.y <= 1000000000
}

pub open spec fn area_ok(a: SearchArea) -> bool {
    &&& -1000000001 <= a.min_x
    &&& a.min_x + a.width <= 1000000002
    &&& -1000000001 <= a.min_y
    &&& a.min_y + a.height <= 1000000002
    &&& 1 <= a.width <= 4096
    &&& 1 <= a.height <= 4096
}

pub open spec fn in_area(a: SearchArea, p: PositionComponent) -> bool {
    &&& a.min_x <= p.x < a.min_x + a.width
    &&& a.min_y <= p.y < a.min_y + a.height
}

pub open spec fn area_size(a: SearchArea) -> int {
    a.width * a.height
}

/// The place of a tile of the area in the area's flat tables.
pub open spec fn area_index(a: SearchArea, p: PositionComponent) -> int {
    (p.x - a.min_x) * a.height + (p.y - a.min_y)
}

pub proof fn lemma_area_index(a: SearchArea, p: PositionComponent, q: PositionComponent)
    requires
        area_ok(a),
        in_area(a, p),
        in_area(a, q),
    ensures
        0 <= area_index(a, p) < area_size(a),
        area_size(a) <= 4096 * 4096,
        area_index(a, p) == area_index(a, q) ==> p == q,
{
    let w = a.width as int;
    let h = a.height as int;
    let i = p.x - a.min_x;
    let j = p.y - a.min_y;
    let k = q.x - a.min_x;
    let l = q.y - a.min_y;
    assert(0 <= i * h + j < w * h) by (nonlinear_arith)
        requires
            0 <= i < w,
            0 <= j < h,
    ;
    assert(w * h <= 4096 * 4096) by (nonlinear_arith)
        requires
            1 <= w <= 4096,
            1 <= h <= 4096,
    ;
    assert(i * h + j == k * h + l ==> i == k && j == l) by (nonlinear_arith)
        requires
            0 <= i < w,
            0 <= j < h,
            0 <= k < w,
            0 <= l < h,
    ;
}

pub proof fn lemma_area_index_all(a: SearchArea)
    requires
        area_ok(a),
    ensures
        forall|p: PositionComponent|
            in_area(a, p) ==> 0 <= #[trigger] area_index(a, p) < area_size(a),
        area_size(a) <= 4096 * 4096,
{
    assert forall|p: PositionComponent| in_area(a, p) implies 0 <= #[trigger] area_index(a, p)
        < area_size(a) by {
        lemma_area_index(a, p, p);
    }
    lemma_area_index(a, PositionComponent { x: a.min_x, y: a.min_y }, PositionComponent {
        x: a.min_x,
        y: a.min_y,
    });
}

fn index_of(a: SearchArea, p: PositionComponent) -> (r: usize)
    requires
        area_ok(a),
        in_area(a, p),
    ensures
        r == area_index(a, p),
        r < area_size(a),
{
    proof {
        lemma_area_index(a, p, p);
    }
    let i = (p.x as i64 - a.min_x as i64) as usize;
    let j = (p.y as i64 - a.min_y as i64) as usize;
    assert(i * a.height + j < 4096 * 4096) by (nonlinear_arith)
        requires
            i < a.width,
            j < a.height,
            a.width <= 4096,
            a.height <= 4096,
    ;
    i * a.height + j
}

fn in_area_exec(a: SearchArea, p: PositionComponent) -> (r: bool)
    requires
        area_ok(a),
    ensures
        r == in_area(a, p),
{
    let x = p.x as i64;
    let y = p.y as i64;
    let ax = a.min_x as i64;
    let ay = a.min_y as i64;
    ax <= x && x < ax + a.width as i64 && ay <= y && y < ay + a.height as i64
}

/// The tiles one step away from `p`, in the order the search tries them.
pub fn step_candidates(p: PositionComponent, diagonal: bool) -> (r: Vec<PositionComponent>)
    requires
        coord_ok(p) || (i32::MIN < p.x < i32::MAX && i32::MIN < p.y < i32::MAX),
    ensures
        forall|q: PositionComponent| #[trigger] r@.contains(q) <==> step_ok(diagonal, p, q),
{
    let mut r: Vec<PositionComponent> = Vec::new();
    if diagonal {
        proof {
            crate::components::lemma_neighbor_seq_adjacent(p);
        }
        let ns = p.neighbors();
        let mut j: usize = 0;
        while j < 8
            invariant
                j <= 8,
                ns@ == crate::components::neighbor_seq(p),
                r@ == ns@.subrange(0, j as int),
            decreases 8 - j,
        {
            r.push(ns[j]);
            j = j + 1;
        }
        assert(r@ =~= ns@);
        assert forall|q: PositionComponent| #[trigger] r@.contains(q) implies step_ok(
            diagonal,
            p,
            q,
        ) by {
            let k = choose|k: int| 0 <= k < 8 && r@[k] == q;
            assert(crate::components::is_adjacent8(p, ns@[k]));
        }
    } else {
        r.push(PositionComponent { x: p.x + 1, y: p.y });
        r.push(PositionComponent { x: p.x - 1, y: p.y });
        r.push(PositionComponent { x: p.x, y: p.y + 1 });
        r.push(PositionComponent { x: p.x, y: p.y - 1 });
        assert forall|q: PositionComponent| #[trigger] r@.contains(q) <==> step_ok(
            diagonal,
            p,
            q,
        ) by {
            if step_ok(diagonal, p, q) {
                if q.x == p.x + 1 {
                    assert(r@[0] == q);
                } else if q.x == p.x - 1 {
                    assert(r@[1] == q);
                } else if q.y == p.y + 1 {
                    assert(r@[2] == q);
                } else {
                    assert(r@[3] == q);
                }
            }
        }
    }
    r
}


/// The smallest x among `init` and the first `n` positions of `s`.
pub open spec fn low_x(s: Seq<PositionComponent>, n: int, init: int) -> int
    decreases n,
{
    if n <= 0 {
        init
    } else {
        let m = low_x(s, n - 1, init);
        if s[n - 1].x < m {
            s[n - 1].x as int
        } else {
            m
        }
    }
}

/// The largest x among `init` and the first `n` positions of `s`.
pub open spec fn high_x(s: Seq<PositionComponent>, n: int, init: int) -> int
    decreases n,
{
    if n <= 0 {
        init
    } else {
        let m = high_x(s, n - 1, init);
        if s[n - 1].x > m {
            s[n - 1].x as int
        } else {
            m
        }
    }
}

/// The smallest y among `init` and the first `n` positions of `s`.
pub open spec fn low_y(s: Seq<PositionComponent>, n: int, init: int) -> int
    decreases n,
{
    if n <= 0 {
        init
    } else {
        let m = low_y(s, n - 1, init);
        if s[n - 1].y < m {
            s[n - 1].y as int
        } else {
            m
        }
    }
}

/// The largest y among `init` and the first `n` positions of `s`.
pub open spec fn high_y(s: Seq<PositionComponent>, n: int, init: int) -> int
    decreases n,
{
    if n <= 0 {
        init
    } else {
        let m = high_y(s, n - 1, init);
        if s[n - 1].y > m {
            s[n - 1].y as int
        } else {
            m
        }
    }
}

pub open spec fn min_i(a: int, b: int) -> int {
    if a < b {
        a
    } else {
        b
    }
}

pub open spec fn max_i(a: int, b: int) -> int {
    if a < b {
        b
    } else {
        a
    }
}

/// The rectangle searched from `start` towards `guide` among `obstacles`:
/// the bounding box of all of them, grown by one tile on each side.
pub open spec fn search_area(
    start: PositionComponent,
    guide: PositionComponent,
    obstacles: Seq<PositionComponent>,
) -> SearchArea {
    let n = obstacles.len() as int;
    let lx = low_x(obstacles, n, min_i(start.x as int, guide.x as int));
    let hx = high_x(obstacles, n, max_i(start.x as int, guide.x as int));
    let ly = low_y(obstacles, n, min_i(start.y as int, guide.y as int));
    let hy = high_y(obstacles, n, max_i(start.y as int, guide.y as int));
    SearchArea {
        min_x: (lx - 1) as i32,
        min_y: (ly - 1) as i32,
        width: (hx - lx + 3) as usize,
        height: (hy - ly + 3) as usize,
    }
}

/// The search can run: all coordinates are within a billion of zero and the
/// searched rectangle is at most 4096 tiles wide and high.
pub open spec fn search_fits(
    start: PositionComponent,
    guide: PositionComponent,
    obstacles: Seq<PositionComponent>,
) -> bool {
    let n = obstacles.len() as int;
    let lx = low_x(obstacles, n, min_i(start.x as int, guide.x as int));
    let hx = high_x(obstacles, n, max_i(start.x as int, guide.x as int));
    let ly = low_y(obstacles, n, min_i(start.y as int, guide.y as int));
    let hy = high_y(obstacles, n, max_i(start.y as int, guide.y as int));
    &&& coord_ok(start)
    &&& coord_ok(guide)
    &&& forall|k: int| 0 <= k < n ==> coord_ok(#[trigger] obstacles[k])
    &&& hx - lx + 3 <= 4096
    &&& hy - ly + 3 <= 4096
}

proof fn lemma_bounds(s: Seq<PositionComponent>, n: int, ix: int, ax: int, iy: int, ay: int)
    requires
        0 <= n <= s.len(),
    ensures
        low_x(s, n, ix) <= ix,
        high_x(s, n, ax) >= ax,
        low_y(s, n, iy) <= iy,
        high_y(s, n, ay) >= ay,
        forall|k: int|
            0 <= k < n ==> low_x(s, n, ix) <= #[trigger] s[k].x <= high_x(s, n, ax) && low_y(
                s,
                n,
                iy,
            ) <= s[k].y <= high_y(s, n, ay),
    decreases n,
{
    if n > 0 {
        lemma_bounds(s, n - 1, ix, ax, iy, ay);
    }
}

/// Every obstacle, the start and the guide lie inside the searched
/// rectangle, away from its edge.
pub proof fn lemma_search_area_covers(
    start: PositionComponent,
    guide: PositionComponent,
    obstacles: Seq<PositionComponent>,
)
    requires
        search_fits(start, guide, obstacles),
    ensures
        area_ok(search_area(start, guide, obstacles)),
        in_area(search_area(start, guide, obstacles), start),
        in_area(search_area(start, guide, obstacles), guide),
        forall|k: int|
            0 <= k < obstacles.len() ==> in_area(
                search_area(start, guide, obstacles),
                #[trigger] obstacles[k],
            ),
{
    let n = obstacles.len() as int;
    lemma_bounds(
        obstacles,
        n,
        min_i(start.x as int, guide.x as int),
        max_i(start.x as int, guide.x as int),
        min_i(start.y as int, guide.y as int),
        max_i(start.y as int, guide.y as int),
    );
    lemma_coords_bounds(
        obstacles,
        n,
        min_i(start.x as int, guide.x as int),
        max_i(start.x as int, guide.x as int),
        min_i(start.y as int, guide.y as int),
        max_i(start.y as int, guide.y as int),
    );
}

proof fn lemma_coords_bounds(s: Seq<PositionComponent>, n: int, ix: int, ax: int, iy: int, ay: int)
    requires
        0 <= n <= s.len(),
        forall|k: int| 0 <= k < n ==> coord_ok(#[trigger] s[k]),
        -1000000000 <= ix <= 1000000000,
        -1000000000 <= ax <= 1000000000,
        -1000000000 <= iy <= 1000000000,
        -1000000000 <= ay <= 1000000000,
    ensures
        -1000000000 <= low_x(s, n, ix),
        high_x(s, n, ax) <= 1000000000,
        -1000000000 <= low_y(s, n, iy),
        high_y(s, n, ay) <= 1000000000,
    decreases n,
{
    if n > 0 {
        lemma_coords_bounds(s, n - 1, ix, ax, iy, ay);
        assert(coord_ok(s[n - 1]));
    }
}

/// The searched rectangle, or `None` when the search does not fit.
pub fn compute_search_area(
    start: PositionComponent,
    guide: PositionComponent,
    obstacles: &Vec<PositionComponent>,
) -> (r: Option<SearchArea>)
    ensures
        r is Some <==> search_fits(start, guide, obstacles@),
        r matches Some(a) ==> a == search_area(start, guide, obstacles@),
{
    let ghost s = obstacles@;
    if !(-1000000000 <= start.x && start.x <= 1000000000 && -1000000000 <= start.y && start.y
        <= 1000000000 && -1000000000 <= guide.x && guide.x <= 1000000000 && -1000000000
        <= guide.y && guide.y <= 1000000000) {
        return None;
    }
    let mut lx: i32 = if start.x < guide.x {
        start.x
    } else {
        guide.x
    };
    let mut hx: i32 = if start.x < guide.x {
        guide.x
    } else {
        start.x
    };
    let mut ly: i32 = if start.y < guide.y {
        start.y
    } else {
        guide.y
    };
    let mut hy: i32 = if start.y < guide.y {
        guide.y
    } else {
        start.y
    };
    let ghost ix = lx as int;
    let ghost ax = hx as int;
    let ghost iy = ly as int;
    let ghost ay = hy as int;
    let mut k: usize = 0;
    while k < obstacles.len()
        invariant
            s == obstacles@,
            k <= s.len(),
            forall|j: int| 0 <= j < k ==> coord_ok(#[trigger] s[j]),
            lx == low_x(s, k as int, ix),
            hx == high_x(s, k as int, ax),
            ly == low_y(s, k as int, iy),
            hy == high_y(s, k as int, ay),
        decreases s.len() - k,
    {
        let o = obstacles[k];
        if !(-1000000000 <= o.x && o.x <= 1000000000 && -1000000000 <= o.y && o.y <= 1000000000) {
            return None;
        }
        if o.x < lx {
            lx = o.x;
        }
        if o.x > hx {
            hx = o.x;
        }
        if o.y < ly {
            ly = o.y;
        }
        if o.y > hy {
            hy = o.y;
        }
        k = k + 1;
    }
    proof {
        lemma_coords_bounds(s, s.len() as int, ix, ax, iy, ay);
        lemma_bounds(s, s.len() as int, ix, ax, iy, ay);
    }
    let w = hx as i64 - lx as i64 + 3;
    let h = hy as i64 - ly as i64 + 3;
    if w > 4096 || h > 4096 {
        return None;
    }
    Some(SearchArea { min_x: lx - 1, min_y: ly - 1, width: w as usize, height: h as usize })
}


/// `path` is a walk from `start`: every tile is a step from the one before
/// it (the first from `start`), inside the area, and not an obstacle.
pub open spec fn walk_ok(
    a: SearchArea,
    obstacles: Seq<PositionComponent>,
    diagonal: bool,
    start: PositionComponent,
    path: Seq<PositionComponent>,
) -> bool {
    forall|i: int|
        0 <= i < path.len() ==> {
            &&& in_area(a, #[trigger] path[i])
            &&& !obstacles.contains(path[i])
            &&& step_ok(diagonal, if i == 0 { start } else { path[i - 1] }, path[i])
        }
}

/// The tile a walk ends on (`start` for the empty walk).
pub open spec fn walk_end(start: PositionComponent, path: Seq<PositionComponent>) -> PositionComponent {
    if path.len() == 0 {
        start
    } else {
        path.last()
    }
}

struct Bfs {
    area: SearchArea,
    diagonal: bool,
    start: PositionComponent,
    blocked: Vec<bool>,
    visited: Vec<bool>,
    parent: Vec<PositionComponent>,
    dist: Vec<u32>,
    order: Vec<PositionComponent>,
    vis: Ghost<Set<int>>,
    obstacles: Ghost<Seq<PositionComponent>>,
}

impl Bfs {
    spec fn idx(&self, p: PositionComponent) -> int {
        area_index(self.area, p)
    }

    spec fn seen(&self, p: PositionComponent) -> bool {
        in_area(self.area, p) && self.visited@[self.idx(p)]
    }

    spec fn d(&self, p: PositionComponent) -> int {
        self.dist@[self.idx(p)] as int
    }

    spec fn free(&self, p: PositionComponent) -> bool {
        in_area(self.area, p) && !self.obstacles@.contains(p)
    }

    spec fn tables_ok(&self) -> bool {
        let b = area_size(self.area);
        &&& area_ok(self.area)
        &&& self.blocked@.len() == b
        &&& self.visited@.len() == b
        &&& self.parent@.len() == b
        &&& self.dist@.len() == b
        &&& forall|p: PositionComponent|
            in_area(self.area, p) ==> (#[trigger] self.blocked@[area_index(self.area, p)]
                <==> self.obstacles@.contains(p))
        &&& in_area(self.area, self.start)
        &&& self.vis@.finite()
        &&& self.vis@.len() == self.order@.len()
        &&& forall|i: int| 0 <= i < b ==> (#[trigger] self.visited@[i] <==> self.vis@.contains(i))
        &&& forall|i: int| #[trigger] self.vis@.contains(i) ==> 0 <= i < b
    }

    spec fn tree_ok(&self) -> bool {
        &&& self.order@.len() >= 1
        &&& self.order@[0] == self.start
        &&& self.seen(self.start)
        &&& self.d(self.start) == 0
        &&& forall|k: int|
            0 <= k < self.order@.len() ==> #[trigger] self.seen(self.order@[k])
        &&& forall|p: PositionComponent| #[trigger]
            self.seen(p) ==> exists|k: int|
                0 <= k < self.order@.len() && #[trigger] self.order@[k] == p
        &&& forall|p: PositionComponent| #[trigger]
            self.seen(p) ==> self.d(p) < self.order@.len()
        &&& forall|p: PositionComponent| #[trigger]
            self.seen(p) && p != self.start ==> {
                let q = self.parent@[self.idx(p)];
                &&& self.seen(q)
                &&& step_ok(self.diagonal, q, p)
                &&& !self.obstacles@.contains(p)
                &&& self.d(p) == self.d(q) + 1
            }
        &&& forall|i: int, j: int|
            0 <= i <= j < self.order@.len() ==> self.d(#[trigger] self.order@[i]) <= self.d(
                #[trigger] self.order@[j],
            )
    }

    spec fn frontier_ok(&self, head: int) -> bool {
        &&& 0 <= head <= self.order@.len()
        &&& head < self.order@.len() ==> forall|j: int|
            head <= j < self.order@.len() ==> self.d(#[trigger] self.order@[j]) <= self.d(
                self.order@[head],
            ) + 1
        &&& forall|k: int, q: PositionComponent|
            0 <= k < head && self.free(q) && #[trigger] step_ok(self.diagonal, self.order@[k], q)
                ==> self.seen(q) && self.d(q) <= self.d(self.order@[k]) + 1
    }
}


fn filled<T: Copy>(n: usize, v: T) -> (r: Vec<T>)
    ensures
        r@.len() == n,
        forall|i: int| 0 <= i < n ==> #[trigger] r@[i] == v,
{
    let mut r: Vec<T> = Vec::new();
    let mut i: usize = 0;
    while i < n
        invariant
            i <= n,
            r@.len() == i,
            forall|k: int| 0 <= k < i ==> #[trigger] r@[k] == v,
        decreases n - i,
    {
        r.push(v);
        i = i + 1;
    }
    r
}

/// The table of blocked tiles of the area.
fn blocked_table(a: SearchArea, obstacles: &Vec<PositionComponent>) -> (r: Vec<bool>)
    requires
        area_ok(a),
        forall|k: int| 0 <= k < obstacles@.len() ==> in_area(a, #[trigger] obstacles@[k]),
    ensures
        r@.len() == area_size(a),
        forall|p: PositionComponent|
            in_area(a, p) ==> (#[trigger] r@[area_index(a, p)] <==> obstacles@.contains(p)),
{
    proof {
        lemma_area_index_all(a);
    }
    let b = a.width * a.height;
    let mut r = filled(b, false);
    let mut k: usize = 0;
    while k < obstacles.len()
        invariant
            area_ok(a),
            b == area_size(a),
            r@.len() == b,
            k <= obstacles@.len(),
            forall|j: int| 0 <= j < obstacles@.len() ==> in_area(a, #[trigger] obstacles@[j]),
            forall|p: PositionComponent|
                in_area(a, p) ==> 0 <= #[trigger] area_index(a, p) < area_size(a),
            forall|p: PositionComponent|
                in_area(a, p) ==> (#[trigger] r@[area_index(a, p)] <==> exists|j: int|
                    0 <= j < k && obstacles@[j] == p),
        decreases obstacles@.len() - k,
    {
        let o = obstacles[k];
        assert(in_area(a, obstacles@[k as int]));
        let i = index_of(a, o);
        r.set(i, true);
        assert forall|p: PositionComponent| in_area(a, p) implies (#[trigger] r@[area_index(a, p)]
            <==> exists|j: int| 0 <= j < k + 1 && obstacles@[j] == p) by {
            lemma_area_index(a, p, o);
            if p == o {
                assert(obstacles@[k as int] == p);
            }
        }
        k = k + 1;
    }
    assert forall|p: PositionComponent| in_area(a, p) implies (#[trigger] r@[area_index(a, p)]
        <==> obstacles@.contains(p)) by {
        if obstacles@.contains(p) {
            let j = choose|j: int| 0 <= j < obstacles@.len() && obstacles@[j] == p;
            assert(exists|j2: int| 0 <= j2 < k && obstacles@[j2] == p);
        }
    }
    r
}


fn visit(t: &mut Bfs, n: PositionComponent, cur: PositionComponent, cur_d: u32, head: usize)
    requires
        old(t).tables_ok(),
        old(t).tree_ok(),
        0 <= head < old(t).order@.len(),
        cur == old(t).order@[head as int],
        cur_d == old(t).d(cur),
        old(t).seen(cur),
        step_ok(old(t).diagonal, cur, n),
        forall|jj: int|
            head <= jj < old(t).order@.len() ==> old(t).d(#[trigger] old(t).order@[jj]) <= cur_d
                + 1,
        old(t).order@.len() <= area_size(old(t).area),
        area_size(old(t).area) <= 4096 * 4096,
    ensures
        final(t).tables_ok(),
        final(t).tree_ok(),
        final(t).area == old(t).area,
        final(t).start == old(t).start,
        final(t).diagonal == old(t).diagonal,
        final(t).obstacles == old(t).obstacles,
        final(t).order@.len() <= area_size(final(t).area),
        final(t).order@.len() >= old(t).order@.len(),
        forall|k: int| 0 <= k < old(t).order@.len() ==> #[trigger] final(t).order@[k] == old(
            t,
        ).order@[k],
        forall|p: PositionComponent| #[trigger]
            old(t).seen(p) ==> final(t).seen(p) && final(t).d(p) == old(t).d(p),
        final(t).free(n) ==> final(t).seen(n) && final(t).d(n) <= cur_d + 1,
        forall|jj: int|
            head <= jj < final(t).order@.len() ==> final(t).d(#[trigger] final(t).order@[jj])
                <= cur_d + 1,
{
    let area = t.area;
    proof {
        lemma_area_index_all(area);
    }
    let b = area.width * area.height;
    if in_area_exec(area, n) {
        let ni = index_of(area, n);
        if !t.blocked[ni] && !t.visited[ni] {
            let ghost old_t = *t;
            proof {
                lemma_int_range(0, b as int);
                assert(!t.vis@.contains(ni as int));
                let s2 = t.vis@.insert(ni as int);
                assert(s2.subset_of(set_int_range(0, b as int)));
                lemma_len_subset(s2, set_int_range(0, b as int));
                assert(s2.len() == t.vis@.len() + 1);
                assert(t.d(cur) < t.order@.len());
            }
            t.visited.set(ni, true);
            t.parent.set(ni, cur);
            t.dist.set(ni, cur_d + 1);
            t.order.push(n);
            t.vis = Ghost(t.vis@.insert(ni as int));
            proof {
                lemma_push(old_t, *t, n, cur, head as int);
                lemma_len_subset(t.vis@, set_int_range(0, b as int));
            }
        } else {
            proof {
                if t.free(n) {
                    assert(t.seen(n));
                    let k = choose|k: int| 0 <= k < t.order@.len() && #[trigger] t.order@[k] == n;
                    if k < head {
                        assert(t.d(t.order@[k]) <= t.d(t.order@[head as int]));
                    } else {
                        assert(t.d(t.order@[k]) <= cur_d + 1);
                    }
                }
            }
        }
    }
}

fn run_bfs(
    start: PositionComponent,
    guide: PositionComponent,
    obstacles: &Vec<PositionComponent>,
    diagonal: bool,
) -> (r: Option<Bfs>)
    ensures
        r is Some <==> search_fits(start, guide, obstacles@),
        r matches Some(t) ==> {
            &&& t.area == search_area(start, guide, obstacles@)
            &&& t.start == start
            &&& t.diagonal == diagonal
            &&& t.obstacles@ == obstacles@
            &&& t.tables_ok()
            &&& t.tree_ok()
            &&& t.frontier_ok(t.order@.len() as int)
        },
{
    let area = match compute_search_area(start, guide, obstacles) {
        Some(a) => a,
        None => return None,
    };
    proof {
        lemma_search_area_covers(start, guide, obstacles@);
        lemma_area_index_all(area);
    }
    let b = area.width * area.height;
    let blocked = blocked_table(area, obstacles);
    let mut visited = filled(b, false);
    let parent = filled(b, start);
    let dist = filled(b, 0u32);
    let si = index_of(area, start);
    visited.set(si, true);
    let mut order: Vec<PositionComponent> = Vec::new();
    order.push(start);
    let mut t = Bfs {
        area,
        diagonal,
        start,
        blocked,
        visited,
        parent,
        dist,
        order,
        vis: Ghost(Set::empty().insert(si as int)),
        obstacles: Ghost(obstacles@),
    };
    assert(t.vis@.len() == 1) by {
        assert(Set::<int>::empty().insert(si as int).len() == 1);
    }
    assert forall|p: PositionComponent| #[trigger] t.seen(p) implies exists|k: int|
        0 <= k < t.order@.len() && #[trigger] t.order@[k] == p by {
        lemma_area_index(area, p, start);
        assert(t.order@[0] == p);
    }
    assert forall|p: PositionComponent| #[trigger] t.seen(p) && p != t.start implies {
        let q = t.parent@[t.idx(p)];
        &&& t.seen(q)
        &&& step_ok(t.diagonal, q, p)
        &&& !t.obstacles@.contains(p)
        &&& t.d(p) == t.d(q) + 1
    } by {
        lemma_area_index(area, p, start);
    }
    assert(t.tables_ok());
    assert(t.tree_ok());
    let mut head: usize = 0;
    while head < t.order.len()
        invariant
            t.tables_ok(),
            t.tree_ok(),
            t.frontier_ok(head as int),
            t.area == area,
            b == area_size(area),
            t.start == start,
            t.diagonal == diagonal,
            t.obstacles@ == obstacles@,
            forall|p: PositionComponent|
                in_area(area, p) ==> 0 <= #[trigger] area_index(area, p) < area_size(area),
            area_size(area) <= 4096 * 4096,
            t.order@.len() <= b,
        decreases b - head,
    {
        let cur = t.order[head];
        assert(t.seen(t.order@[head as int]));
        let cur_d = t.dist[index_of(area, cur)];
        let cands = step_candidates(cur, diagonal);
        let mut j: usize = 0;
        while j < cands.len()
            invariant
                t.tables_ok(),
                t.tree_ok(),
                t.area == area,
                b == area_size(area),
                t.start == start,
                t.diagonal == diagonal,
                t.obstacles@ == obstacles@,
                forall|p: PositionComponent|
                    in_area(area, p) ==> 0 <= #[trigger] area_index(area, p) < area_size(area),
                area_size(area) <= 4096 * 4096,
                t.order@.len() <= b,
                0 <= head < t.order@.len(),
                cur == t.order@[head as int],
                cur_d == t.d(cur),
                t.seen(cur),
                j <= cands@.len(),
                forall|q: PositionComponent| #[trigger] cands@.contains(q) <==> step_ok(diagonal, cur, q),
                forall|jj: int| head <= jj < t.order@.len() ==> t.d(#[trigger] t.order@[jj]) <= cur_d + 1,
                forall|k: int, q: PositionComponent|
                    0 <= k < head && t.free(q) && #[trigger] step_ok(t.diagonal, t.order@[k], q)
                        ==> t.seen(q) && t.d(q) <= t.d(t.order@[k]) + 1,
                forall|jj: int|
                    0 <= jj < j && t.free(#[trigger] cands@[jj]) ==> t.seen(cands@[jj]) && t.d(
                        cands@[jj],
                    ) <= cur_d + 1,
            decreases cands@.len() - j,
        {
            let n = cands[j];
            assert(cands@[j as int] == n);
            assert(cands@.contains(n));
            let ghost old_t = t;
            visit(&mut t, n, cur, cur_d, head);
            proof {
                assert forall|k: int, q: PositionComponent|
                    0 <= k < head && t.free(q) && #[trigger] step_ok(t.diagonal, t.order@[k], q)
                        implies t.seen(q) && t.d(q) <= t.d(t.order@[k]) + 1 by {
                    assert(old_t.order@[k] == t.order@[k]);
                    assert(old_t.seen(t.order@[k]));
                    assert(old_t.free(q));
                }
            }
            proof {
                assert forall|jj: int|
                    0 <= jj < j + 1 && t.free(#[trigger] cands@[jj]) implies t.seen(cands@[jj]) && t.d(
                        cands@[jj],
                    ) <= cur_d + 1 by {
                    if jj == j {
                        assert(cands@[jj] == n);
                    } else {
                        assert(old_t.seen(cands@[jj]));
                    }
                }
            }
            j = j + 1;
        }
        proof {
            assert forall|k: int, q: PositionComponent|
                0 <= k < head + 1 && t.free(q) && #[trigger] step_ok(t.diagonal, t.order@[k], q)
                    implies t.seen(q) && t.d(q) <= t.d(t.order@[k]) + 1 by {
                if k == head {
                    assert(cands@.contains(q));
                    let jj = choose|jj: int| 0 <= jj < cands@.len() && cands@[jj] == q;
                    assert(t.free(cands@[jj]));
                }
            }
            if head + 1 < t.order@.len() {
                assert forall|jj: int|
                    head + 1 <= jj < t.order@.len() implies t.d(#[trigger] t.order@[jj]) <= t.d(
                        t.order@[head + 1],
                    ) + 1 by {
                    assert(t.d(t.order@[head as int]) <= t.d(t.order@[head + 1]));
                }
            }
        }
        head = head + 1;
    }
    Some(t)
}


proof fn lemma_push(t0: Bfs, t1: Bfs, n: PositionComponent, cur: PositionComponent, head: int)
    requires
        t0.tables_ok(),
        t0.tree_ok(),
        0 <= head < t0.order@.len(),
        cur == t0.order@[head],
        t0.seen(cur),
        forall|jj: int| head <= jj < t0.order@.len() ==> t0.d(#[trigger] t0.order@[jj]) <= t0.d(cur) + 1,
        step_ok(t0.diagonal, cur, n),
        in_area(t0.area, n),
        !t0.blocked@[area_index(t0.area, n)],
        !t0.visited@[area_index(t0.area, n)],
        t0.order@.len() < area_size(t0.area),
        t0.d(cur) + 1 <= u32::MAX,
        t1.area == t0.area,
        t1.diagonal == t0.diagonal,
        t1.start == t0.start,
        t1.obstacles == t0.obstacles,
        t1.blocked@ == t0.blocked@,
        t1.visited@ == t0.visited@.update(area_index(t0.area, n), true),
        t1.parent@ == t0.parent@.update(area_index(t0.area, n), cur),
        t1.dist@ == t0.dist@.update(area_index(t0.area, n), (t0.d(cur) + 1) as u32),
        t1.order@ == t0.order@.push(n),
        t1.vis@ == t0.vis@.insert(area_index(t0.area, n)),
    ensures
        t1.tables_ok(),
        t1.tree_ok(),
        t1.seen(n),
        t1.d(n) == t0.d(cur) + 1,
        forall|p: PositionComponent| #[trigger] t0.seen(p) ==> t1.seen(p) && t1.d(p) == t0.d(p),
        forall|jj: int| head <= jj < t1.order@.len() ==> t1.d(#[trigger] t1.order@[jj]) <= t0.d(cur) + 1,
{
    let a = t0.area;
    let ni = area_index(a, n);
    lemma_area_index_all(a);
    assert(!t0.vis@.contains(ni));
    assert forall|p: PositionComponent| #[trigger] t0.seen(p) implies t1.seen(p) && t1.d(p) == t0.d(p) by {
        lemma_area_index(a, p, n);
    }
    assert forall|i: int| 0 <= i < area_size(a) implies (#[trigger] t1.visited@[i] <==> t1.vis@.contains(i)) by {
        if i != ni {
            assert(t1.visited@[i] == t0.visited@[i]);
        }
    }
    assert forall|p: PositionComponent|
        in_area(a, p) implies (#[trigger] t1.blocked@[area_index(a, p)] <==> t1.obstacles@.contains(p)) by {
    }
    assert(t1.tables_ok());
    assert(t1.seen(n));
    assert forall|k: int| 0 <= k < t1.order@.len() implies #[trigger] t1.seen(t1.order@[k]) by {
        if k < t0.order@.len() {
            assert(t0.seen(t0.order@[k]));
        }
    }
    assert forall|p: PositionComponent| #[trigger] t1.seen(p) implies exists|k: int|
        0 <= k < t1.order@.len() && #[trigger] t1.order@[k] == p by {
        lemma_area_index(a, p, n);
        if p == n {
            assert(t1.order@[t0.order@.len() as int] == p);
        } else {
            assert(t0.seen(p));
            let k = choose|k: int| 0 <= k < t0.order@.len() && #[trigger] t0.order@[k] == p;
            assert(t1.order@[k] == p);
        }
    }
    assert forall|p: PositionComponent| #[trigger] t1.seen(p) implies t1.d(p) < t1.order@.len() by {
        lemma_area_index(a, p, n);
        if p != n {
            assert(t0.seen(p));
        }
    }
    assert forall|p: PositionComponent| #[trigger] t1.seen(p) && p != t1.start implies {
        let q = t1.parent@[t1.idx(p)];
        &&& t1.seen(q)
        &&& step_ok(t1.diagonal, q, p)
        &&& !t1.obstacles@.contains(p)
        &&& t1.d(p) == t1.d(q) + 1
    } by {
        lemma_area_index(a, p, n);
        if p == n {
            assert(t1.parent@[ni] == cur);
            assert(t1.seen(cur));
        } else {
            assert(t0.seen(p));
            let q = t0.parent@[t0.idx(p)];
            assert(t0.seen(q));
            assert(t1.parent@[t1.idx(p)] == q);
        }
    }
    assert forall|i: int, j: int|
        0 <= i <= j < t1.order@.len() implies t1.d(#[trigger] t1.order@[i]) <= t1.d(
            #[trigger] t1.order@[j],
        ) by {
        let len0 = t0.order@.len() as int;
        if i < len0 {
            assert(t0.seen(t0.order@[i]));
            assert(t1.d(t1.order@[i]) == t0.d(t0.order@[i]));
        }
        if j < len0 {
            assert(t0.seen(t0.order@[j]));
            assert(t1.d(t1.order@[j]) == t0.d(t0.order@[j]));
            assert(t0.d(t0.order@[i]) <= t0.d(t0.order@[j]));
        } else {
            assert(t1.order@[j] == n);
            if i < len0 {
                if i < head {
                    assert(t0.d(t0.order@[i]) <= t0.d(t0.order@[head]));
                } else {
                    assert(t0.d(t0.order@[i]) <= t0.d(cur) + 1);
                }
            }
        }
    }
    assert(t1.tree_ok());
    assert forall|jj: int| head <= jj < t1.order@.len() implies t1.d(#[trigger] t1.order@[jj]) <= t0.d(cur) + 1 by {
        if jj < t0.order@.len() {
            assert(t0.seen(t0.order@[jj]));
        }
    }
}


proof fn lemma_walk_seen(t: Bfs, path: Seq<PositionComponent>)
    requires
        t.tables_ok(),
        t.tree_ok(),
        t.frontier_ok(t.order@.len() as int),
        walk_ok(t.area, t.obstacles@, t.diagonal, t.start, path),
    ensures
        t.seen(walk_end(t.start, path)),
        t.d(walk_end(t.start, path)) <= path.len(),
    decreases path.len(),
{
    if path.len() > 0 {
        let prefix = path.drop_last();
        assert forall|i: int| 0 <= i < prefix.len() implies {
            &&& in_area(t.area, #[trigger] prefix[i])
            &&& !t.obstacles@.contains(prefix[i])
            &&& step_ok(t.diagonal, if i == 0 { t.start } else { prefix[i - 1] }, prefix[i])
        } by {
            assert(prefix[i] == path[i]);
            assert(in_area(t.area, path[i]));
            if i > 0 {
                assert(prefix[i - 1] == path[i - 1]);
            }
        }
        lemma_walk_seen(t, prefix);
        let e = walk_end(t.start, prefix);
        let last = path[path.len() - 1];
        assert(in_area(t.area, path[path.len() - 1]));
        assert(step_ok(t.diagonal, e, last)) by {
            if path.len() > 1 {
                assert(prefix.last() == path[path.len() - 2]);
            }
        }
        let k = choose|k: int| 0 <= k < t.order@.len() && #[trigger] t.order@[k] == e;
        assert(t.free(last));
        assert(step_ok(t.diagonal, t.order@[k], last));
    }
}

/// Where a search is headed.
#[derive(Debug, Copy, Clone, PartialEq, Eq, Structural)]
pub enum Goal {
    /// Stand on this tile.
    Reach(PositionComponent),
    /// Stand on a tile that shares a side with this tile.
    NextTo(PositionComponent),
}

pub open spec fn goal_met(g: Goal, p: PositionComponent) -> bool {
    match g {
        Goal::Reach(q) => p == q,
        Goal::NextTo(q) => crate::components::manhattan(p, q) == 1,
    }
}

/// The tile a goal is about; the search area always includes it.
pub open spec fn goal_tile(g: Goal) -> PositionComponent {
    match g {
        Goal::Reach(q) => q,
        Goal::NextTo(q) => q,
    }
}

fn goal_met_exec(g: Goal, p: PositionComponent) -> (r: bool)
    ensures
        r == goal_met(g, p),
{
    match g {
        Goal::Reach(q) => p == q,
        Goal::NextTo(q) => {
            let dx = p.x as i64 - q.x as i64;
            let dy = p.y as i64 - q.y as i64;
            let ax = if dx < 0 {
                -dx
            } else {
                dx
            };
            let ay = if dy < 0 {
                -dy
            } else {
                dy
            };
            ax + ay == 1
        },
    }
}

fn path_to(t: &Bfs, goal: PositionComponent) -> (path: Vec<PositionComponent>)
    requires
        t.tables_ok(),
        t.tree_ok(),
        t.seen(goal),
    ensures
        walk_ok(t.area, t.obstacles@, t.diagonal, t.start, path@),
        walk_end(t.start, path@) == goal,
        path@.len() == t.d(goal),
{
    let area = t.area;
    proof {
        lemma_area_index_all(area);
    }
    let mut path: Vec<PositionComponent> = Vec::new();
    let mut cur = goal;
    while cur != t.start
        invariant
            t.tables_ok(),
            t.tree_ok(),
            t.area == area,
            t.seen(cur),
            t.seen(goal),
            walk_ok(t.area, t.obstacles@, t.diagonal, cur, path@),
            walk_end(cur, path@) == goal,
            path@.len() + t.d(cur) == t.d(goal),
        decreases t.d(cur),
    {
        let q = t.parent[index_of(area, cur)];
        let ghost old_path = path@;
        path.insert(0, cur);
        assert forall|i: int| 0 <= i < path@.len() implies {
            &&& in_area(t.area, #[trigger] path@[i])
            &&& !t.obstacles@.contains(path@[i])
            &&& step_ok(t.diagonal, if i == 0 { q } else { path@[i - 1] }, path@[i])
        } by {
            if i > 0 {
                assert(path@[i] == old_path[i - 1]);
                assert(in_area(t.area, old_path[i - 1]));
                if i > 1 {
                    assert(path@[i - 1] == old_path[i - 2]);
                }
            }
        }
        cur = q;
    }
    path
}

/// A shortest walk from `start` to a tile that meets `goal`, avoiding the
/// obstacles and staying inside the search area; `None` when no such walk
/// exists or the search does not fit. The walk leaves out `start` itself,
/// so it is empty when `start` already meets the goal.
pub fn pathfind(
    start: PositionComponent,
    goal: Goal,
    obstacles: &Vec<PositionComponent>,
    diagonal: bool,
) -> (r: Option<Vec<PositionComponent>>)
    ensures
        r matches Some(path) ==> {
            &&& search_fits(start, goal_tile(goal), obstacles@)
            &&& walk_ok(
                search_area(start, goal_tile(goal), obstacles@),
                obstacles@,
                diagonal,
                start,
                path@,
            )
            &&& goal_met(goal, walk_end(start, path@))
            &&& forall|w: Seq<PositionComponent>|
                walk_ok(search_area(start, goal_tile(goal), obstacles@), obstacles@, diagonal, start, w)
                    && goal_met(goal, #[trigger] walk_end(start, w)) ==> path@.len() <= w.len()
        },
        r is None && search_fits(start, goal_tile(goal), obstacles@) ==> forall|
            w: Seq<PositionComponent>,
        |
            walk_ok(search_area(start, goal_tile(goal), obstacles@), obstacles@, diagonal, start, w)
                ==> !goal_met(goal, #[trigger] walk_end(start, w)),
{
    let t = match run_bfs(start, goal_tile_exec(goal), obstacles, diagonal) {
        Some(t) => t,
        None => return None,
    };
    match first_meeting(&t, goal) {
        Some(k) => {
            let p = t.order[k];
            assert(t.seen(t.order@[k as int]));
            let path = path_to(&t, p);
            proof {
                assert forall|w: Seq<PositionComponent>|
                    walk_ok(t.area, t.obstacles@, t.diagonal, t.start, w) && goal_met(
                        goal,
                        #[trigger] walk_end(start, w),
                    ) implies path@.len() <= w.len() by {
                    lemma_first_shortest(t, goal, k as int, w);
                }
            }
            Some(path)
        },
        None => {
            proof {
                assert forall|w: Seq<PositionComponent>|
                    walk_ok(t.area, t.obstacles@, t.diagonal, t.start, w) implies !goal_met(
                        goal,
                        #[trigger] walk_end(start, w),
                    ) by {
                    lemma_walk_seen(t, w);
                    let e = walk_end(start, w);
                    let j = choose|j: int| 0 <= j < t.order@.len() && #[trigger] t.order@[j] == e;
                }
            }
            None
        },
    }
}

fn first_meeting(t: &Bfs, goal: Goal) -> (r: Option<usize>)
    ensures
        r matches Some(k) ==> k < t.order@.len() && goal_met(goal, t.order@[k as int]) && forall|
            j: int,
        | 0 <= j < k ==> !goal_met(goal, #[trigger] t.order@[j]),
        r is None ==> forall|j: int|
            0 <= j < t.order@.len() ==> !goal_met(goal, #[trigger] t.order@[j]),
{
    let mut k: usize = 0;
    while k < t.order.len()
        invariant
            k <= t.order@.len(),
            forall|j: int| 0 <= j < k ==> !goal_met(goal, #[trigger] t.order@[j]),
        decreases t.order@.len() - k,
    {
        if goal_met_exec(goal, t.order[k]) {
            return Some(k);
        }
        k = k + 1;
    }
    None
}

proof fn lemma_first_shortest(t: Bfs, goal: Goal, k: int, w: Seq<PositionComponent>)
    requires
        t.tables_ok(),
        t.tree_ok(),
        t.frontier_ok(t.order@.len() as int),
        0 <= k < t.order@.len(),
        forall|j: int| 0 <= j < k ==> !goal_met(goal, #[trigger] t.order@[j]),
        walk_ok(t.area, t.obstacles@, t.diagonal, t.start, w),
        goal_met(goal, walk_end(t.start, w)),
    ensures
        t.d(t.order@[k]) <= w.len(),
{
    lemma_walk_seen(t, w);
    let e = walk_end(t.start, w);
    let j = choose|j: int| 0 <= j < t.order@.len() && #[trigger] t.order@[j] == e;
    if j < k {
        assert(!goal_met(goal, t.order@[j]));
    } else {
        assert(t.d(t.order@[k]) <= t.d(t.order@[j]));
    }
}

fn goal_tile_exec(g: Goal) -> (r: PositionComponent)
    ensures
        r == goal_tile(g),
{
    match g {
        Goal::Reach(q) => q,
        Goal::NextTo(q) => q,
    }
}


/// `w` is a walk from `start` in the area searched towards `guide`.
pub open spec fn search_walk(
    start: PositionComponent,
    guide: PositionComponent,
    obstacles: Seq<PositionComponent>,
    diagonal: bool,
    w: Seq<PositionComponent>,
) -> bool {
    walk_ok(search_area(start, guide, obstacles), obstacles, diagonal, start, w)
}

fn first_in_cells(t: &Bfs, cells: &Vec<PositionComponent>, max_steps: u32) -> (r: Option<usize>)
    requires
        t.tables_ok(),
        t.tree_ok(),
    ensures
        r matches Some(k) ==> k < t.order@.len() && cells@.contains(t.order@[k as int]) && t.d(
            t.order@[k as int],
        ) <= max_steps && forall|j: int|
            0 <= j < k ==> !cells@.contains(#[trigger] t.order@[j]),
        r is None ==> forall|j: int|
            0 <= j < t.order@.len() && cells@.contains(#[trigger] t.order@[j]) ==> t.d(
                t.order@[j],
            ) > max_steps,
{
    let area = t.area;
    proof {
        lemma_area_index_all(area);
    }
    let mut k: usize = 0;
    while k < t.order.len()
        invariant
            t.tables_ok(),
            t.tree_ok(),
            t.area == area,
            k <= t.order@.len(),
            forall|j: int| 0 <= j < k ==> !cells@.contains(#[trigger] t.order@[j]),
        decreases t.order@.len() - k,
    {
        let p = t.order[k];
        assert(t.seen(t.order@[k as int]));
        let d = t.dist[index_of(area, p)];
        if d > max_steps {
            assert forall|j: int|
                0 <= j < t.order@.len() && cells@.contains(#[trigger] t.order@[j]) implies t.d(
                t.order@[j],
            ) > max_steps by {
                if j >= k {
                    assert(t.d(t.order@[k as int]) <= t.d(t.order@[j]));
                }
            }
            return None;
        }
        let mut found = false;
        let mut c: usize = 0;
        while c < cells.len()
            invariant
                c <= cells@.len(),
                found <==> exists|i: int| 0 <= i < c && cells@[i] == p,
            decreases cells@.len() - c,
        {
            if cells[c] == p {
                found = true;
            }
            c = c + 1;
        }
        if found {
            return Some(k);
        }
        k = k + 1;
    }
    None
}

/// Among `cells`, the first one the search reaches, when it is at most
/// `max_steps` steps from `start`, together with its distance. The distance
/// is the length of a shortest walk to it, and no cell of `cells` can be
/// reached in fewer steps. `None` when every cell of `cells` is more than
/// `max_steps` steps away or unreachable (or the search does not fit).
pub fn first_reachable(
    start: PositionComponent,
    guide: PositionComponent,
    obstacles: &Vec<PositionComponent>,
    diagonal: bool,
    cells: &Vec<PositionComponent>,
    max_steps: u32,
) -> (r: Option<(PositionComponent, u32)>)
    ensures
        r matches Some((c, d)) ==> {
            &&& search_fits(start, guide, obstacles@)
            &&& cells@.contains(c)
            &&& d <= max_steps
            &&& exists|w: Seq<PositionComponent>|
                search_walk(start, guide, obstacles@, diagonal, w) && #[trigger] walk_end(start, w)
                    == c && w.len() == d
            &&& forall|w: Seq<PositionComponent>|
                search_walk(start, guide, obstacles@, diagonal, w) && cells@.contains(
                    #[trigger] walk_end(start, w),
                ) ==> d <= w.len()
        },
        r is None && search_fits(start, guide, obstacles@) ==> forall|w: Seq<PositionComponent>|
            search_walk(start, guide, obstacles@, diagonal, w) && cells@.contains(
                #[trigger] walk_end(start, w),
            ) ==> w.len() > max_steps,
{
    let t = match run_bfs(start, guide, obstacles, diagonal) {
        Some(t) => t,
        None => return None,
    };
    let area = t.area;
    proof {
        lemma_area_index_all(area);
    }
    match first_in_cells(&t, cells, max_steps) {
        Some(k) => {
            let c = t.order[k];
            assert(t.seen(t.order@[k as int]));
            let d = t.dist[index_of(area, c)];
            let path = path_to(&t, c);
            proof {
                assert(search_walk(start, guide, obstacles@, diagonal, path@));
                assert(walk_end(start, path@) == c);
                assert forall|w: Seq<PositionComponent>|
                    search_walk(start, guide, obstacles@, diagonal, w) && cells@.contains(
                        #[trigger] walk_end(start, w),
                    ) implies d <= w.len() by {
                    lemma_walk_seen(t, w);
                    let e = walk_end(start, w);
                    let j = choose|j: int| 0 <= j < t.order@.len() && #[trigger] t.order@[j] == e;
                    if j < k {
                        assert(!cells@.contains(t.order@[j]));
                    } else {
                        assert(t.d(t.order@[k as int]) <= t.d(t.order@[j]));
                    }
                }
            }
            Some((c, d))
        },
        None => {
            proof {
                assert forall|w: Seq<PositionComponent>|
                    search_walk(start, guide, obstacles@, diagonal, w) && cells@.contains(
                        #[trigger] walk_end(start, w),
                    ) implies w.len() > max_steps by {
                    lemma_walk_seen(t, w);
                    let e = walk_end(start, w);
                    let j = choose|j: int| 0 <= j < t.order@.len() && #[trigger] t.order@[j] == e;
                }
            }
            None
        },
    }
}

/// The length of a shortest walk from `start` to `target`, or `None` when no
/// walk reaches it (or the search does not fit).
pub fn walk_distance(
    start: PositionComponent,
    target: PositionComponent,
    obstacles: &Vec<PositionComponent>,
    diagonal: bool,
) -> (r: Option<u32>)
    ensures
        r matches Some(d) ==> {
            &&& search_fits(start, target, obstacles@)
            &&& exists|w: Seq<PositionComponent>|
                search_walk(start, target, obstacles@, diagonal, w) && #[trigger] walk_end(start, w)
                    == target && w.len() == d
            &&& forall|w: Seq<PositionComponent>|
                search_walk(start, target, obstacles@, diagonal, w) && #[trigger] walk_end(start, w)
                    == target ==> d <= w.len()
        },
        r is None && search_fits(start, target, obstacles@) ==> forall|w: Seq<PositionComponent>|
            search_walk(start, target, obstacles@, diagonal, w) ==> #[trigger] walk_end(start, w)
                != target,
{
    let t = match run_bfs(start, target, obstacles, diagonal) {
        Some(t) => t,
        None => return None,
    };
    let area = t.area;
    proof {
        lemma_area_index_all(area);
        lemma_search_area_covers(start, target, obstacles@);
    }
    let ti = index_of(area, target);
    if t.visited[ti] {
        assert(t.seen(target));
        let d = t.dist[ti];
        let path = path_to(&t, target);
        proof {
            assert(search_walk(start, target, obstacles@, diagonal, path@));
            assert forall|w: Seq<PositionComponent>|
                search_walk(start, target, obstacles@, diagonal, w) && #[trigger] walk_end(start, w)
                    == target implies d <= w.len() by {
                lemma_walk_seen(t, w);
            }
        }
        Some(d)
    } else {
        proof {
            assert forall|w: Seq<PositionComponent>|
                search_walk(start, target, obstacles@, diagonal, w) implies #[trigger] walk_end(
                start,
                w,
            ) != target by {
                lemma_walk_seen(t, w);
            }
        }
        None
    }
}

/// The position offset of a direction.
pub fn direction_offset(d: Direction) -> (o: PositionComponent)
    ensures
        o.x == direction_step(d).0,
        o.y == direction_step(d).1,
{
    match d {
        Direction::Up => PositionComponent { x: 0, y: 1 },
        Direction::Down => PositionComponent { x: 0, y: -1 },
        Direction::Left => PositionComponent { x: -1, y: 0 },
        Direction::Right => PositionComponent { x: 1, y: 0 },
        Direction::UpLeft => PositionComponent { x: -1, y: 1 },
        Direction::UpRight => PositionComponent { x: 1, y: 1 },
        Direction::DownLeft => PositionComponent { x: -1, y: -1 },
        Direction::DownRight => PositionComponent { x: 1, y: -1 },
    }
}

/// The direction whose step is `(dx, dy)`, if any.
pub fn direction_for_step(dx: i32, dy: i32) -> (d: Option<Direction>)
    ensures
        d matches Some(dir) ==> direction_step(dir) == (dx as int, dy as int),
        d is None ==> !crate::components::is_adjacent8(
            PositionComponent { x: 0, y: 0 },
            PositionComponent { x: dx, y: dy },
        ),
{
    if dx == 0 && dy == 1 {
        Some(Direction::Up)
    } else if dx == 0 && dy == -1 {
        Some(Direction::Down)
    } else if dx == -1 && dy == 0 {
        Some(Direction::Left)
    } else if dx == 1 && dy == 0 {
        Some(Direction::Right)
    } else if dx == -1 && dy == 1 {
        Some(Direction::UpLeft)
    } else if dx == -1 && dy == -1 {
        Some(Direction::DownLeft)
    } else if dx == 1 && dy == -1 {
        Some(Direction::DownRight)
    } else if dx == 1 && dy == 1 {
        Some(Direction::UpRight)
    } else {
        None
    }
}

/// The tile one step from `e`'s position in direction `d`.
pub open spec fn step_target(w: World, e: Entity, d: Direction) -> PositionComponent {
    crate::components::shifted(w.get_spec(e).unwrap().position, direction_step(d).0, direction_step(d).1)
}

/// The table with the first record of `e` moved to `p`.
pub open spec fn moved_to(w: World, e: Entity, p: PositionComponent) -> Seq<EntityRecord> {
    let i = crate::world::find_index(w.records(), e).unwrap();
    w.records().update(i, EntityRecord { position: p, ..w.records()[i] })
}

/// Whether `entity` can step in `direction`: the tile is within the bounded
/// plane and no entity stands on it.
pub fn can_move(entity: Entity, direction: Direction, game: &Game) -> (r: bool)
    requires
        game.wf(),
        game.ecs.contains_spec(entity),
    ensures
        r == (in_bounds(step_target(game.ecs, entity, direction)) && !game.ecs.occupied(
            step_target(game.ecs, entity, direction),
        )),
{
    proof {
        crate::world::lemma_find_index(game.ecs.records(), entity);
        let i = crate::world::find_index(game.ecs.records(), entity).unwrap();
        assert(record_ok(game.ecs.records()[i]));
    }
    let position = game.ecs.get(entity).unwrap().position;
    let offset = direction_offset(direction);
    let target = PositionComponent { x: position.x + offset.x, y: position.y + offset.y };
    crate::world::in_bounds_position(target)
        && !game.ecs.is_occupied(target)
}

/// Turns the player to face `direction`.
pub fn turn_player_towards(direction: Direction, game: &mut Game)
    requires
        old(game).wf(),
    ensures
        final(game).wf(),
        *final(game) == (Game {
            player_facing_direction: PositionComponent {
                x: direction_step(direction).0 as i32,
                y: direction_step(direction).1 as i32,
            },
            ..*old(game)
        }),
{
    game.player_facing_direction = direction_offset(direction);
}

/// Steps `entity` in `direction` when it can (see `can_move`); the player
/// turns that way first, whether it moves or not.
pub fn try_move(entity: Entity, direction: Direction, game: &mut Game) -> (r: Result<(), ()>)
    requires
        old(game).wf(),
        old(game).ecs.contains_spec(entity),
    ensures
        final(game).wf(),
        final(game).player_facing_direction == if entity == old(game).player_entity {
            PositionComponent {
                x: direction_step(direction).0 as i32,
                y: direction_step(direction).1 as i32,
            }
        } else {
            old(game).player_facing_direction
        },
        *final(game) == (Game {
            ecs: final(game).ecs,
            player_facing_direction: final(game).player_facing_direction,
            ..*old(game)
        }),
        r is Ok == (in_bounds(step_target(old(game).ecs, entity, direction)) && !old(game).ecs.occupied(
            step_target(old(game).ecs, entity, direction),
        )),
        r is Ok ==> final(game).ecs.records() == moved_to(
            old(game).ecs,
            entity,
            step_target(old(game).ecs, entity, direction),
        ),
        r is Err ==> final(game).ecs.records() == old(game).ecs.records(),
{
    if entity == game.player_entity {
        turn_player_towards(direction, game);
    }
    if can_move(entity, direction, game) {
        let idx = game.ecs.index_of(entity).unwrap();
        proof {
            crate::world::lemma_find_index(game.ecs.records(), entity);
        }
        let rec = game.ecs.record_at(idx);
        assert(record_ok(game.ecs.records()[idx as int]));
        let offset = direction_offset(direction);
        let target = PositionComponent { x: rec.position.x + offset.x, y: rec.position.y + offset.y };
        let ghost before = game.ecs;
        game.ecs.set_record(idx, EntityRecord { position: target, ..rec });
        proof {
            crate::world::lemma_find_index(before.records(), game.player_entity);
            let pi = crate::world::find_index(before.records(), game.player_entity).unwrap();
            assert(game.ecs.records()[pi].combat == before.records()[pi].combat);
        }
        Ok(())
    } else {
        Err(())
    }
}

/// The positions of the entities without a behaviour: what a monster walks
/// around (other monsters are not in its way until it steps).
pub open spec fn still_obstacles(w: World) -> Seq<PositionComponent> {
    w.records().filter(|r: EntityRecord| r.ai is None).map_values(|r: EntityRecord| r.position)
}

fn still_obstacle_list(w: &World) -> (r: Vec<PositionComponent>)
    ensures
        r@ == still_obstacles(*w),
{
    let mut r: Vec<PositionComponent> = Vec::new();
    let n = w.len();
    let mut i: usize = 0;
    let ghost rs = w.records();
    while i < n
        invariant
            n == rs.len(),
            rs == w.records(),
            i <= n,
            r@ == rs.subrange(0, i as int).filter(|r: EntityRecord| r.ai is None).map_values(
                |r: EntityRecord| r.position,
            ),
        decreases n - i,
    {
        let rec = w.record_at(i);
        proof {
            assert(rs.subrange(0, i + 1).drop_last() =~= rs.subrange(0, i as int));
            reveal_with_fuel(Seq::filter, 1);
        }
        if rec.ai.is_none() {
            r.push(rec.position);
        }
        proof {
            let f0 = rs.subrange(0, i as int).filter(|r: EntityRecord| r.ai is None);
            let f1 = rs.subrange(0, i + 1).filter(|r: EntityRecord| r.ai is None);
            if rec.ai is None {
                assert(f1 == f0.push(rec));
                assert(f1.map_values(|r: EntityRecord| r.position) =~= f0.map_values(
                    |r: EntityRecord| r.position,
                ).push(rec.position));
            } else {
                assert(f1 == f0);
            }
        }
        i = i + 1;
    }
    assert(rs.subrange(0, n as int) =~= rs);
    r
}

/// A step towards a tile beside `goal` is owed to `e`: some shortest walk
/// there (see `try_move_towards`) takes at least one step, and the first
/// tile of every such walk is within the bounded plane and empty.
pub open spec fn step_owed(w: World, e: Entity, goal: PositionComponent) -> bool {
    let start = w.get_spec(e).unwrap().position;
    &&& exists|path: Seq<PositionComponent>|
        #[trigger] crate::entities::hunting::shortest_walk_to(start, Goal::NextTo(goal), still_obstacles(w), path)
            && path.len() > 0
    &&& forall|path: Seq<PositionComponent>|
        #[trigger] crate::entities::hunting::shortest_walk_to(start, Goal::NextTo(goal), still_obstacles(w), path)
            && path.len() > 0 ==> in_bounds(path[0]) && !w.occupied(path[0])
}

/// What a step of `e` towards a tile beside `goal` did, from `g0` to `g1`
/// (see `try_move_towards`): only the table and the player's facing may
/// change, the facing only when `e` is the player; when taken (`ok`), `e`
/// moved to the first tile of a shortest walk there, a tile within the
/// bounded plane and empty; when refused, the table is unchanged. It is
/// taken when `step_owed` holds.
pub open spec fn moved_towards(g0: Game, g1: Game, e: Entity, goal: PositionComponent, ok: bool) -> bool {
    &&& g1 == (Game { ecs: g1.ecs, player_facing_direction: g1.player_facing_direction, ..g0 })
    &&& e != g0.player_entity ==> g1.player_facing_direction == g0.player_facing_direction
    &&& ok ==> exists|path: Seq<PositionComponent>|
        {
            &&& crate::entities::hunting::shortest_walk_to(
                g0.ecs.get_spec(e).unwrap().position,
                Goal::NextTo(goal),
                still_obstacles(g0.ecs),
                path,
            )
            &&& path.len() > 0
            &&& in_bounds(path[0]) && !g0.ecs.occupied(path[0])
            &&& #[trigger] g1.ecs.records() == moved_to(g0.ecs, e, path[0])
        }
    &&& !ok ==> g1.ecs.records() == g0.ecs.records()
    &&& step_owed(g0.ecs, e, goal) ==> ok
}

/// Steps `moving_entity` towards a tile beside `goal`: along a shortest walk
/// (king moves, around the entities without a behaviour) to a tile sharing
/// a side with `goal`, it tries the first step (see `try_move`). An error
/// when no such walk exists, when it already stands beside `goal`, or when
/// the step is blocked; the step is owed when `step_owed` holds (see
/// `moved_towards`).
pub fn try_move_towards(moving_entity: Entity, goal: PositionComponent, game: &mut Game) -> (r: Result<
    (),
    (),
>)
    requires
        old(game).wf(),
        old(game).ecs.contains_spec(moving_entity),
    ensures
        final(game).wf(),
        moved_towards(*old(game), *final(game), moving_entity, goal, r is Ok),
{
    proof {
        crate::world::lemma_find_index(game.ecs.records(), moving_entity);
        let i = crate::world::find_index(game.ecs.records(), moving_entity).unwrap();
        assert(record_ok(game.ecs.records()[i]));
    }
    let start = game.ecs.get(moving_entity).unwrap().position;
    let obstacles = still_obstacle_list(&game.ecs);
    let ghost goal_g = Goal::NextTo(goal);
    let path = match crate::entities::hunting::shortest_path(start, Goal::NextTo(goal), &obstacles) {
        Some(p) => p,
        None => {
            proof {
                assert forall|w: Seq<PositionComponent>|
                    !#[trigger] crate::entities::hunting::shortest_walk_to(start, goal_g, obstacles@, w) by {
                    crate::entities::hunting::lemma_unreachable_no_walk(start, goal_g, obstacles@, w);
                }
            }
            return Err(());
        },
    };
    if path.len() == 0 {
        proof {
            assert forall|w: Seq<PositionComponent>|
                #[trigger] crate::entities::hunting::shortest_walk_to(start, goal_g, obstacles@, w) implies w.len()
                == 0 by {
                crate::entities::hunting::lemma_shortest_same_length(start, goal_g, obstacles@, path@, w);
            }
        }
        return Err(());
    }
    let next = path[0];
    proof {
        crate::entities::hunting::lemma_shortest_first_step(start, Goal::NextTo(goal), obstacles@, path@);
    }
    let dx = next.x - start.x;
    let dy = next.y - start.y;
    match direction_for_step(dx, dy) {
        Some(d) => {
            let ghost before = *game;
            let r = try_move(moving_entity, d, game);
            proof {
                assert(step_target(before.ecs, moving_entity, d) == path@[0]);
                assert(crate::entities::hunting::shortest_walk_to(start, goal_g, obstacles@, path@));
            }
            r
        },
        None => Err(()),
    }
}

/// `path` is a shortest walk (king moves when `diagonal`, rook steps
/// otherwise) from `start`, around `obstacles` and inside the searched
/// rectangle, to a tile meeting `goal`.
#[verifier::opaque]
pub open spec fn is_shortest_walk(
    diagonal: bool,
    start: PositionComponent,
    goal: Goal,
    obstacles: Seq<PositionComponent>,
    path: Seq<PositionComponent>,
) -> bool {
    let area = search_area(start, goal_tile(goal), obstacles);
    &&& search_fits(start, goal_tile(goal), obstacles)
    &&& walk_ok(area, obstacles, diagonal, start, path)
    &&& goal_met(goal, walk_end(start, path))
    &&& forall|w: Seq<PositionComponent>|
        walk_ok(area, obstacles, diagonal, start, w) && goal_met(goal, #[trigger] walk_end(start, w))
            ==> path.len() <= w.len()
}

/// A shortest walk to a tile meeting `goal` (see `is_shortest_walk`), or
/// `None` when there is none.
pub fn shortest_walk(start: PositionComponent, goal: Goal, obstacles: &Vec<PositionComponent>, diagonal: bool) -> (r: Option<
    Vec<PositionComponent>,
>)
    ensures
        r matches Some(path) ==> is_shortest_walk(diagonal, start, goal, obstacles@, path@),
        r is None ==> forall|path: Seq<PositionComponent>| !#[trigger] is_shortest_walk(diagonal, start, goal, obstacles@, path),
{
    let r = pathfind(start, goal, obstacles, diagonal);
    proof {
        reveal(is_shortest_walk);
        if r is None {
            assert forall|path: Seq<PositionComponent>| !#[trigger] is_shortest_walk(diagonal, start, goal, obstacles@, path) by {
                if search_fits(start, goal_tile(goal), obstacles@) && walk_ok(
                    search_area(start, goal_tile(goal), obstacles@),
                    obstacles@,
                    diagonal,
                    start,
                    path,
                ) {
                    assert(!goal_met(goal, walk_end(start, path)));
                }
            }
        }
    }
    r
}

/// The first tile of a shortest walk is one step from its start and not an
/// obstacle.
pub proof fn lemma_shortest_walk_first_step(
    diagonal: bool,
    start: PositionComponent,
    goal: Goal,
    obstacles: Seq<PositionComponent>,
    path: Seq<PositionComponent>,
)
    requires
        is_shortest_walk(diagonal, start, goal, obstacles, path),
        path.len() > 0,
    ensures
        step_ok(diagonal, start, path[0]),
        !obstacles.contains(path[0]),
{
    reveal(is_shortest_walk);
}

/// Two shortest walks to the same goal have the same length.
pub proof fn lemma_shortest_walks_same_length(
    diagonal: bool,
    start: PositionComponent,
    goal: Goal,
    obstacles: Seq<PositionComponent>,
    p: Seq<PositionComponent>,
    q: Seq<PositionComponent>,
)
    requires
        is_shortest_walk(diagonal, start, goal, obstacles, p),
        is_shortest_walk(diagonal, start, goal, obstacles, q),
    ensures
        p.len() == q.len(),
{
    reveal(is_shortest_walk);
    assert(goal_met(goal, walk_end(start, p)));
    assert(goal_met(goal, walk_end(start, q)));
}

} // verus!
