//! The geometry of a maze grid: which cells are rooms, which are walls that
//! may be carved, and the four two-step moves between rooms.

use vstd::arithmetic::div_mod::{lemma_fundamental_div_mod, lemma_fundamental_div_mod_converse};
use vstd::prelude::*;
use vstd::relations::injective_on;
use vstd::set_lib::{
    lemma_int_range, lemma_len_subset, lemma_map_size, lemma_map_size_bound, set_int_range,
};

verus! {

/// The character of a cell that blocks movement.
pub const WALL: char = '#';

/// The character of a cell that can be walked through.
pub const PASSAGE: char = ' ';

/// The dimension actually used for a requested one: at least three, and odd.
pub open spec fn normalized(n: int) -> int {
    if n < 3 {
        3
    } else if n % 2 == 0 {
        n + 1
    } else {
        n
    }
}

/// Strictly inside `[0, dim)`, off the outermost ring.
pub open spec fn inside(n: int, dim: int) -> bool {
    0 < n < dim - 1
}

/// A room: both coordinates odd and off the outer ring.
pub open spec fn is_room(x: int, y: int, w: int, h: int) -> bool {
    inside(x, w) && inside(y, h) && x % 2 == 1 && y % 2 == 1
}

/// A wall that separates two horizontally or vertically adjacent rooms:
/// off the outer ring, one coordinate odd and the other even.
pub open spec fn is_wall_slot(x: int, y: int, w: int, h: int) -> bool {
    inside(x, w) && inside(y, h) && (x % 2 == 1) != (y % 2 == 1)
}

/// The four two-step moves, in the order up, right, down, left.
pub open spec fn step(i: int) -> (int, int) {
    if i == 0 {
        (0, -2)
    } else if i == 1 {
        (2, 0)
    } else if i == 2 {
        (0, 2)
    } else {
        (-2, 0)
    }
}

/// The cell reached from `(x, y)` by move `i`.
pub open spec fn moved(x: int, y: int, i: int) -> (int, int) {
    (x + step(i).0, y + step(i).1)
}

/// Move `i` from `(x, y)` stays off the outer ring and reaches an unvisited cell.
pub open spec fn is_open(x: int, y: int, i: int, visited: Seq<Seq<bool>>, w: int, h: int) -> bool {
    let (nx, ny) = moved(x, y, i);
    inside(nx, w) && inside(ny, h) && !visited[ny][nx]
}

/// The target of move `i`, if it is open, as a sequence of zero or one cell.
pub open spec fn open_part(
    x: int,
    y: int,
    i: int,
    visited: Seq<Seq<bool>>,
    w: int,
    h: int,
) -> Seq<(usize, usize)> {
    if is_open(x, y, i, visited, w, h) {
        seq![(moved(x, y, i).0 as usize, moved(x, y, i).1 as usize)]
    } else {
        seq![]
    }
}

/// The unvisited two-step neighbours of `(x, y)`, in the order up, right, down, left.
pub open spec fn unvisited_neighbors(
    x: int,
    y: int,
    visited: Seq<Seq<bool>>,
    w: int,
    h: int,
) -> Seq<(usize, usize)> {
    open_part(x, y, 0, visited, w, h) + open_part(x, y, 1, visited, w, h) + open_part(
        x,
        y,
        2,
        visited,
        w,
        h,
    ) + open_part(x, y, 3, visited, w, h)
}

/// The rows of a table as sequences.
pub open spec fn rows<T>(t: Seq<Vec<T>>) -> Seq<Seq<T>> {
    t.map_values(|r: Vec<T>| r@)
}

/// A table of `h` rows of `w` entries each.
pub open spec fn is_table<T>(t: Seq<Vec<T>>, w: int, h: int) -> bool {
    t.len() == h && forall|j: int| 0 <= j < h ==> #[trigger] t[j]@.len() == w
}

/// The dimension used for a requested one: three when it is smaller, the next
/// odd number when it is even, else itself.
pub fn normalize(n: usize) -> (r: usize)
    ensures
        r as int == normalized(n as int),
{
    if n < 3 {
        3
    } else if n % 2 == 0 {
        n + 1
    } else {
        n
    }
}

/// Every room of a `w` by `h` grid.
pub open spec fn all_rooms(w: int, h: int) -> Set<(int, int)> {
    Set::new(|p: (int, int)| is_room(p.0, p.1, w, h))
}

/// Move `i` from room `p`, where it stays off the outer ring, ends in `s`.
pub open spec fn reaches_in(s: Set<(int, int)>, p: (int, int), i: int, w: int, h: int) -> bool {
    let q = moved(p.0, p.1, i);
    inside(q.0, w) && inside(q.1, h) ==> s.contains(q)
}

/// Every move from `p` that stays off the outer ring ends in `s`.
pub open spec fn settled(s: Set<(int, int)>, p: (int, int), w: int, h: int) -> bool {
    reaches_in(s, p, 0, w, h) && reaches_in(s, p, 1, w, h) && reaches_in(s, p, 2, w, h)
        && reaches_in(s, p, 3, w, h)
}

/// A set of cells that lie in a `w` by `h` grid has at most `w * h` members.
pub proof fn lemma_cells_bounded(s: Set<(int, int)>, w: int, h: int)
    requires
        w > 0,
        h > 0,
        forall|p: (int, int)| #[trigger] s.contains(p) ==> 0 <= p.0 < w && 0 <= p.1 < h,
    ensures
        s.finite(),
        s.len() <= w * h,
{
    let f = |k: int| (k % w, k / w);
    let ks = set_int_range(0, w * h);
    let cells = ks.map(f);
    assert(0 <= w * h) by (nonlinear_arith)
        requires
            w > 0,
            h > 0,
    ;
    lemma_int_range(0, w * h);
    lemma_map_size_bound(ks, cells, f);
    assert forall|p: (int, int)| #[trigger] s.contains(p) implies cells.contains(p) by {
        let k = p.1 * w + p.0;
        lemma_fundamental_div_mod_converse(k, w, p.1, p.0);
        assert(0 <= k < w * h) by (nonlinear_arith)
            requires
                k == p.1 * w + p.0,
                0 <= p.0 < w,
                0 <= p.1 < h,
        ;
        assert(ks.contains(k));
        assert(f(k) == p);
    }
    lemma_len_subset(s, cells);
}

proof fn lemma_row_reached(s: Set<(int, int)>, w: int, h: int, x: int)
    requires
        w >= 3,
        h >= 3,
        s.contains((1, 1)),
        forall|p: (int, int)| #[trigger] s.contains(p) ==> settled(s, p, w, h),
        is_room(x, 1, w, h),
    ensures
        s.contains((x, 1)),
    decreases x,
{
    if x > 1 {
        lemma_row_reached(s, w, h, x - 2);
        assert(settled(s, (x - 2, 1), w, h));
        assert(moved(x - 2, 1, 1) == (x, 1int));
    }
}

proof fn lemma_room_reached(s: Set<(int, int)>, w: int, h: int, x: int, y: int)
    requires
        w >= 3,
        h >= 3,
        s.contains((1, 1)),
        forall|p: (int, int)| #[trigger] s.contains(p) ==> settled(s, p, w, h),
        is_room(x, y, w, h),
    ensures
        s.contains((x, y)),
    decreases y,
{
    if y == 1 {
        lemma_row_reached(s, w, h, x);
    } else {
        lemma_room_reached(s, w, h, x, y - 2);
        assert(settled(s, (x, y - 2), w, h));
        assert(moved(x, y - 2, 2) == (x, y));
    }
}

/// A set of rooms that holds `(1, 1)` and every room one move away from each
/// of its members holds every room of the grid.
pub proof fn lemma_settled_covers(s: Set<(int, int)>, w: int, h: int)
    requires
        w >= 3,
        h >= 3,
        s.contains((1, 1)),
        forall|p: (int, int)| #[trigger] s.contains(p) ==> settled(s, p, w, h),
    ensures
        forall|x: int, y: int| is_room(x, y, w, h) ==> #[trigger] s.contains((x, y)),
{
    assert forall|x: int, y: int| is_room(x, y, w, h) implies #[trigger] s.contains((x, y)) by {
        lemma_room_reached(s, w, h, x, y);
    }
}

/// Entry `k` of the unvisited neighbours of `(x, y)` is the target of an open move.
pub proof fn lemma_neighbor_is_open(
    x: int,
    y: int,
    visited: Seq<Seq<bool>>,
    w: int,
    h: int,
    k: int,
) -> (d: int)
    requires
        0 <= k < unvisited_neighbors(x, y, visited, w, h).len(),
    ensures
        0 <= d < 4,
        is_open(x, y, d, visited, w, h),
        unvisited_neighbors(x, y, visited, w, h)[k] == (
            moved(x, y, d).0 as usize,
            moved(x, y, d).1 as usize,
        ),
{
    let a = open_part(x, y, 0, visited, w, h);
    let b = open_part(x, y, 1, visited, w, h);
    let c = open_part(x, y, 2, visited, w, h);
    let e = open_part(x, y, 3, visited, w, h);
    if k < a.len() {
        0
    } else if k < a.len() + b.len() {
        1
    } else if k < a.len() + b.len() + c.len() {
        2
    } else {
        3
    }
}

/// Where `(x, y)` has no unvisited neighbour, no move from it is open.
pub proof fn lemma_none_open(x: int, y: int, visited: Seq<Seq<bool>>, w: int, h: int)
    requires
        unvisited_neighbors(x, y, visited, w, h).len() == 0,
    ensures
        forall|d: int| 0 <= d < 4 ==> !#[trigger] is_open(x, y, d, visited, w, h),
{
    assert forall|d: int| 0 <= d < 4 implies !#[trigger] is_open(x, y, d, visited, w, h) by {
        assert(open_part(x, y, d, visited, w, h).len() == 0);
    }
}

/// A grid of odd dimensions `w` and `h`, both at least three, has
/// `((w - 1) / 2) * ((h - 1) / 2)` rooms.
pub proof fn lemma_room_count(w: int, h: int)
    requires
        w >= 3,
        h >= 3,
        w % 2 == 1,
        h % 2 == 1,
    ensures
        all_rooms(w, h).finite(),
        all_rooms(w, h).len() == ((w - 1) / 2) * ((h - 1) / 2),
{
    let a = (w - 1) / 2;
    let b = (h - 1) / 2;
    let f = |k: int| (2 * (k % a) + 1, 2 * (k / a) + 1);
    let ks = set_int_range(0, a * b);
    assert(0 <= a * b) by (nonlinear_arith)
        requires
            a > 0,
            b > 0,
    ;
    lemma_int_range(0, a * b);
    assert forall|k1: int, k2: int|
        ks.contains(k1) && ks.contains(k2) && #[trigger] f(k1) == #[trigger] f(k2) implies k1
        == k2 by {
        lemma_fundamental_div_mod(k1, a);
        lemma_fundamental_div_mod(k2, a);
    }
    assert(injective_on(f, ks));
    assert forall|p: (int, int)| #[trigger] ks.map(f).contains(p) <==> all_rooms(w, h).contains(
        p,
    ) by {
        if ks.map(f).contains(p) {
            let k = choose|k: int| ks.contains(k) && f(k) == p;
            lemma_fundamental_div_mod(k, a);
            let q = k / a;
            let r = k % a;
            assert(0 <= q < b) by (nonlinear_arith)
                requires
                    k == a * q + r,
                    0 <= r < a,
                    0 <= k < a * b,
            ;
        }
        if all_rooms(w, h).contains(p) {
            let i = (p.0 - 1) / 2;
            let j = (p.1 - 1) / 2;
            let k = j * a + i;
            lemma_fundamental_div_mod_converse(k, a, j, i);
            assert(0 <= k < a * b) by (nonlinear_arith)
                requires
                    k == j * a + i,
                    0 <= i < a,
                    0 <= j < b,
            ;
            assert(ks.contains(k));
            assert(f(k) == p);
        }
    }
    assert(ks.map(f) =~= all_rooms(w, h));
    lemma_map_size(ks, all_rooms(w, h), f);
}

/// `p` and `q` are orthogonally adjacent cells.
pub open spec fn adjacent(p: (int, int), q: (int, int)) -> bool {
    (p.0 == q.0 && (p.1 - q.1 == 1 || q.1 - p.1 == 1)) || (p.1 == q.1 && (p.0 - q.0 == 1 || q.0
        - p.0 == 1))
}

/// `path` steps between adjacent cells and stays within `open`.
pub open spec fn is_walk(path: Seq<(int, int)>, open: Set<(int, int)>) -> bool {
    &&& path.len() > 0
    &&& forall|i: int| 0 <= i < path.len() ==> open.contains(#[trigger] path[i])
    &&& forall|i: int| 0 <= i < path.len() - 1 ==> adjacent(#[trigger] path[i], path[i + 1])
}

/// Some walk within `open` leads from `from` to `to`.
pub open spec fn reaches(open: Set<(int, int)>, from: (int, int), to: (int, int)) -> bool {
    exists|path: Seq<(int, int)>| #[trigger] is_walk(path, open) && path[0] == from && path.last() == to
}

/// Every member of `rooms` is reached from `(1, 1)` within `rooms` and `walls`.
#[verifier::opaque]
pub open spec fn all_reached(rooms: Set<(int, int)>, walls: Set<(int, int)>) -> bool {
    forall|p: (int, int)| #[trigger] rooms.contains(p) ==> reaches(rooms + walls, (1, 1), p)
}

pub proof fn lemma_reached_start()
    ensures
        all_reached(Set::empty().insert((1int, 1int)), Set::empty()),
{
    reveal(all_reached);
    let rooms = Set::empty().insert((1int, 1int));
    let path = seq![(1int, 1int)];
    assert(is_walk(path, rooms + Set::empty()));
}

/// Opening `wall` next to the reached room `cur`, and `next` beyond it, keeps
/// every room reached.
pub proof fn lemma_reached_extend(
    rooms: Set<(int, int)>,
    walls: Set<(int, int)>,
    cur: (int, int),
    wall: (int, int),
    next: (int, int),
)
    requires
        all_reached(rooms, walls),
        rooms.contains(cur),
        adjacent(cur, wall),
        adjacent(wall, next),
    ensures
        all_reached(rooms.insert(next), walls.insert(wall)),
{
    reveal(all_reached);
    let open = rooms.insert(next) + walls.insert(wall);
    assert forall|p: (int, int)| #[trigger] rooms.insert(next).contains(p) implies reaches(
        open,
        (1, 1),
        p,
    ) by {
        if rooms.contains(p) {
            let path = choose|path: Seq<(int, int)>|
                #[trigger] is_walk(path, rooms + walls) && path[0] == (1int, 1int) && path.last()
                    == p;
            assert(is_walk(path, open));
        } else {
            let path = choose|path: Seq<(int, int)>|
                #[trigger] is_walk(path, rooms + walls) && path[0] == (1int, 1int) && path.last()
                    == cur;
            let longer = path.push(wall).push(next);
            assert forall|i: int| 0 <= i < longer.len() - 1 implies adjacent(
                #[trigger] longer[i],
                longer[i + 1],
            ) by {
                if i < path.len() - 1 {
                    assert(longer[i] == path[i] && longer[i + 1] == path[i + 1]);
                }
            }
            assert forall|i: int| 0 <= i < longer.len() implies open.contains(
                #[trigger] longer[i],
            ) by {
                if i < path.len() {
                    assert(longer[i] == path[i]);
                }
            }
            assert(is_walk(longer, open));
            assert(longer[0] == (1int, 1int));
        }
    }
}

/// A walk within a set is a walk within any larger one.
pub proof fn lemma_reached_within(
    rooms: Set<(int, int)>,
    walls: Set<(int, int)>,
    open: Set<(int, int)>,
)
    requires
        all_reached(rooms, walls),
        forall|p: (int, int)| #[trigger] rooms.contains(p) ==> open.contains(p),
        forall|p: (int, int)| #[trigger] walls.contains(p) ==> open.contains(p),
    ensures
        forall|p: (int, int)| #[trigger] rooms.contains(p) ==> reaches(open, (1, 1), p),
{
    reveal(all_reached);
    assert forall|p: (int, int)| #[trigger] rooms.contains(p) implies reaches(open, (1, 1), p) by {
        let path = choose|path: Seq<(int, int)>|
            #[trigger] is_walk(path, rooms + walls) && path[0] == (1int, 1int) && path.last() == p;
        assert(is_walk(path, open));
    }
}

} // verus!
