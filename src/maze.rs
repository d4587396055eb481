//! A finished maze and the randomized depth-first search that carves it.

use crate::lattice::{
    adjacent, all_reached, all_rooms, is_open, is_room, is_table, is_wall_slot,
    lemma_cells_bounded, lemma_neighbor_is_open, lemma_none_open, lemma_reached_extend,
    lemma_reached_start, lemma_reached_within, lemma_room_count, lemma_settled_covers, normalize,
    normalized, open_part, reaches, rows, settled, unvisited_neighbors, PASSAGE, WALL,
};
use crate::rng::random_index;
use vstd::prelude::*;

verus! {

/// A rectangular grid of `WALL` and `PASSAGE` cells, `height` rows of `width`
/// cells, built once and then only read.
pub struct Maze {
    width: usize,
    height: usize,
    grid: Vec<Vec<char>>,
}

/// The entry opening, on the left edge of row one.
pub open spec fn is_entry(x: int, y: int) -> bool {
    x == 0 && y == 1
}

/// The exit opening, on the right edge of the second-to-last row.
pub open spec fn is_exit(x: int, y: int, w: int, h: int) -> bool {
    x == w - 1 && y == h - 2
}

/// The two rooms that the wall slot `p` separates.
pub open spec fn wall_sides(p: (int, int)) -> ((int, int), (int, int)) {
    if p.0 % 2 == 0 {
        ((p.0 - 1, p.1), (p.0 + 1, p.1))
    } else {
        ((p.0, p.1 - 1), (p.0, p.1 + 1))
    }
}

/// Cell `p` is on the stack.
pub open spec fn on_stack(stack: Seq<(usize, usize)>, p: (int, int)) -> bool {
    exists|i: int| 0 <= i < stack.len() && #[trigger] stack[i] == (p.0 as usize, p.1 as usize)
}

/// `t` with the entry in column `x` of row `y` replaced by `v`.
pub open spec fn set_cell<T>(t: Seq<Seq<T>>, x: int, y: int, v: T) -> Seq<Seq<T>> {
    t.update(y, t[y].update(x, v))
}

/// The state of a carving in progress: the grid so far, the visited rooms,
/// and the stack of rooms on the current path.
pub type Carving = (Seq<Seq<char>>, Seq<Seq<bool>>, Seq<(usize, usize)>);

/// The state in which carving a `w` by `h` grid starts: all walls but the
/// room `(1, 1)`, which is visited and alone on the stack.
pub open spec fn carve_start(w: int, h: int) -> Carving {
    let grid = Seq::new(h as nat, |y: int| Seq::new(w as nat, |x: int| WALL));
    let visited = Seq::new(h as nat, |y: int| Seq::new(w as nat, |x: int| false));
    (set_cell(grid, 1, 1, PASSAGE), set_cell(visited, 1, 1, true), seq![(1usize, 1usize)])
}

/// One step of carving where the source of choices gave `k`: the room on top
/// of the stack is left when it has no unvisited neighbour; else the neighbour
/// at index `k` modulo their number is visited, the wall between them carved
/// open, and the neighbour pushed.
pub open spec fn carve_step(s: Carving, k: int, w: int, h: int) -> Carving {
    let (grid, visited, stack) = s;
    let top = stack.last();
    let ns = unvisited_neighbors(top.0 as int, top.1 as int, visited, w, h);
    if ns.len() == 0 {
        (grid, visited, stack.drop_last())
    } else {
        let next = ns[k % (ns.len() as int)];
        let (nx, ny) = (next.0 as int, next.1 as int);
        let (wx, wy) = ((top.0 + nx) / 2, (top.1 + ny) / 2);
        (
            set_cell(set_cell(grid, wx, wy, PASSAGE), nx, ny, PASSAGE),
            set_cell(visited, nx, ny, true),
            stack.push(next),
        )
    }
}

/// Up to `fuel` steps of carving, each with choice `k`, stopping when the
/// stack is empty.
pub open spec fn carve_run(s: Carving, k: int, w: int, h: int, fuel: nat) -> Carving
    decreases fuel,
{
    if fuel == 0 || s.2.len() == 0 {
        s
    } else {
        carve_run(carve_step(s, k, w, h), k, w, h, (fuel - 1) as nat)
    }
}

/// The grid carved for requested dimensions `width` and `height` when every
/// choice is `k`, with the entry and exit opened.
pub open spec fn fixed_choice_grid(width: int, height: int, k: int) -> Seq<Seq<char>> {
    let (w, h) = (normalized(width), normalized(height));
    let g = carve_run(carve_start(w, h), k, w, h, (2 * w * h) as nat).0;
    set_cell(set_cell(g, 0, 1, PASSAGE), w - 1, h - 2, PASSAGE)
}

/// For every fixed choice `k` that `pick` may stand for, carving from the start
/// with the full fuel ends where carving from `s` with `fuel` ends.
#[verifier::opaque]
spec fn runs_agree<F: Fn(usize) -> usize>(pick: F, w: int, h: int, s: Carving, fuel: nat) -> bool {
    forall|k: usize|
        always_picks(pick, k) ==> carve_run(carve_start(w, h), k as int, w, h, (2 * w * h) as nat)
            == carve_run(s, k as int, w, h, fuel)
}

proof fn lemma_agree_start<F: Fn(usize) -> usize>(pick: F, w: int, h: int)
    ensures
        runs_agree(pick, w, h, carve_start(w, h), (2 * w * h) as nat),
{
    reveal(runs_agree);
}

proof fn lemma_agree_done<F: Fn(usize) -> usize>(pick: F, w: int, h: int, s: Carving, fuel: nat)
    requires
        runs_agree(pick, w, h, s, fuel),
        s.2.len() == 0,
    ensures
        forall|k: usize|
            always_picks(pick, k) ==> carve_run(carve_start(w, h), k as int, w, h, (2 * w * h) as nat)
                == s,
{
    reveal(runs_agree);
}

/// Leaving a room with no unvisited neighbour is one step of the run.
proof fn lemma_agree_pop<F: Fn(usize) -> usize>(
    pick: F,
    w: int,
    h: int,
    old: Carving,
    new: Carving,
    fuel: nat,
)
    requires
        runs_agree(pick, w, h, old, fuel),
        fuel > 0,
        old.2.len() > 0,
        unvisited_neighbors(old.2.last().0 as int, old.2.last().1 as int, old.1, w, h).len() == 0,
        new == (old.0, old.1, old.2.drop_last()),
    ensures
        runs_agree(pick, w, h, new, (fuel - 1) as nat),
{
    reveal(runs_agree);
    assert forall|k: usize| always_picks(pick, k) implies carve_run(
        carve_start(w, h),
        k as int,
        w,
        h,
        (2 * w * h) as nat,
    ) == carve_run(new, k as int, w, h, (fuel - 1) as nat) by {
        assert(carve_step(old, k as int, w, h) == new);
    }
}

/// Visiting the chosen neighbour is one step of the run, for every fixed
/// choice that `pick`, having returned `chosen`, may stand for.
proof fn lemma_agree_push<F: Fn(usize) -> usize>(
    pick: F,
    w: int,
    h: int,
    old: Carving,
    new: Carving,
    fuel: nat,
    n: usize,
    chosen: usize,
)
    requires
        runs_agree(pick, w, h, old, fuel),
        fuel > 0,
        old.2.len() > 0,
        pick.ensures((n,), chosen),
        n == unvisited_neighbors(old.2.last().0 as int, old.2.last().1 as int, old.1, w, h).len(),
        n > 0,
        new == carve_step(old, chosen as int, w, h),
    ensures
        runs_agree(pick, w, h, new, (fuel - 1) as nat),
{
    reveal(runs_agree);
    assert forall|k: usize| always_picks(pick, k) implies carve_run(
        carve_start(w, h),
        k as int,
        w,
        h,
        (2 * w * h) as nat,
    ) == carve_run(new, k as int, w, h, (fuel - 1) as nat) by {
        assert(chosen == k);
    }
}

/// Setting one entry of a table is `set_cell` on its rows.
proof fn lemma_rows_set<T>(before: Seq<Vec<T>>, after: Seq<Vec<T>>, x: int, y: int, v: T)
    requires
        0 <= y < before.len(),
        after.len() == before.len(),
        after[y]@ == before[y]@.update(x, v),
        forall|j: int| 0 <= j < before.len() && j != y ==> after[j] == before[j],
    ensures
        rows(after) == set_cell(rows(before), x, y, v),
{
    assert(rows(after) =~~= set_cell(rows(before), x, y, v));
}

/// Every value that `pick` returns is `k`.
pub open spec fn always_picks<F: Fn(usize) -> usize>(pick: F, k: usize) -> bool {
    forall|n: usize, r: usize| #[trigger] pick.ensures((n,), r) ==> r == k
}

/// The midpoint of two numbers of the same parity.
fn midpoint(a: usize, b: usize) -> (r: usize)
    requires
        a % 2 == b % 2,
    ensures
        r == (a + b) / 2,
{
    a / 2 + b / 2 + a % 2
}

fn filled<T: Copy>(value: T, n: usize) -> (r: Vec<T>)
    ensures
        r@ == Seq::new(n as nat, |i: int| value),
{
    let mut r: Vec<T> = Vec::new();
    let mut i: usize = 0;
    while i < n
        invariant
            i <= n,
            r@ == Seq::new(i as nat, |k: int| value),
        decreases n - i,
    {
        r.push(value);
        i = i + 1;
        assert(r@ =~= Seq::new(i as nat, |k: int| value));
    }
    r
}

fn table<T: Copy>(value: T, w: usize, h: usize) -> (r: Vec<Vec<T>>)
    ensures
        is_table(r@, w as int, h as int),
        forall|x: int, y: int| 0 <= x < w && 0 <= y < h ==> #[trigger] r@[y]@[x] == value,
{
    let mut r: Vec<Vec<T>> = Vec::new();
    let mut j: usize = 0;
    while j < h
        invariant
            j <= h,
            is_table(r@, w as int, j as int),
            forall|x: int, y: int| 0 <= x < w && 0 <= y < j ==> #[trigger] r@[y]@[x] == value,
        decreases h - j,
    {
        r.push(filled(value, w));
        j = j + 1;
    }
    r
}

impl Maze {
    /// The number of cells in a row.
    pub closed spec fn spec_width(&self) -> int {
        self.width as int
    }

    /// The number of rows.
    pub closed spec fn spec_height(&self) -> int {
        self.height as int
    }

    /// The cell in column `x` of row `y`.
    pub closed spec fn cell(&self, x: int, y: int) -> char {
        self.grid@[y]@[x]
    }

    /// The rows of the maze.
    pub closed spec fn cells(&self) -> Seq<Seq<char>> {
        rows(self.grid@)
    }

    /// Both dimensions odd and at least three, and `height` rows of `width` cells.
    pub closed spec fn wf(&self) -> bool {
        &&& self.width >= 3
        &&& self.height >= 3
        &&& self.width % 2 == 1
        &&& self.height % 2 == 1
        &&& is_table(self.grid@, self.width as int, self.height as int)
    }

    /// Every cell is `WALL` or `PASSAGE`.
    pub open spec fn two_valued(&self) -> bool {
        forall|x: int, y: int|
            0 <= x < self.spec_width() && 0 <= y < self.spec_height() ==> #[trigger] self.cell(x, y)
                == WALL || self.cell(x, y) == PASSAGE
    }

    /// The only open cells outside the rooms and the walls between them are
    /// the entry and the exit.
    pub open spec fn closed_elsewhere(&self) -> bool {
        let (w, h) = (self.spec_width(), self.spec_height());
        forall|x: int, y: int|
            0 <= x < w && 0 <= y < h && !is_room(x, y, w, h) && !is_wall_slot(x, y, w, h)
                && !is_entry(x, y) && !is_exit(x, y, w, h) ==> #[trigger] self.cell(x, y) == WALL
    }

    /// The walls between rooms that have been carved open.
    pub open spec fn carved_walls(&self) -> Set<(int, int)> {
        Set::new(
            |p: (int, int)|
                is_wall_slot(p.0, p.1, self.spec_width(), self.spec_height()) && self.cell(p.0, p.1)
                    == PASSAGE,
        )
    }

    /// The open cells.
    pub open spec fn passages(&self) -> Set<(int, int)> {
        Set::new(
            |p: (int, int)|
                0 <= p.0 < self.spec_width() && 0 <= p.1 < self.spec_height() && self.cell(p.0, p.1)
                    == PASSAGE,
        )
    }

    /// The rooms that are open.
    pub open spec fn open_rooms(&self) -> Set<(int, int)> {
        Set::new(
            |p: (int, int)|
                is_room(p.0, p.1, self.spec_width(), self.spec_height()) && self.cell(p.0, p.1)
                    == PASSAGE,
        )
    }

    /// What every generated maze satisfies for requested dimensions `width` and `height`.
    pub open spec fn generated_from(&self, width: int, height: int) -> bool {
        let (w, h) = (self.spec_width(), self.spec_height());
        &&& self.wf()
        &&& w == normalized(width)
        &&& h == normalized(height)
        &&& self.two_valued()
        &&& self.cell(0, 1) == PASSAGE
        &&& self.cell(w - 1, h - 2) == PASSAGE
        &&& self.closed_elsewhere()
        &&& forall|x: int, y: int| is_room(x, y, w, h) ==> #[trigger] self.cell(x, y) == PASSAGE
        &&& self.open_rooms() == all_rooms(w, h)
        &&& forall|p: (int, int)| #[trigger]
            all_rooms(w, h).contains(p) ==> reaches(self.passages(), (1, 1), p)
        &&& self.carved_walls().finite()
        &&& self.carved_walls().len() + 1 == self.open_rooms().len()
    }

    /// The unvisited two-step neighbours of `(x, y)` that lie off the outer ring
    /// of a `width` by `height` grid, in the order up, right, down, left.
    pub fn get_unvisited_neighbors(
        x: usize,
        y: usize,
        visited: &Vec<Vec<bool>>,
        width: usize,
        height: usize,
    ) -> (r: Vec<(usize, usize)>)
        requires
            is_table(visited@, width as int, height as int),
        ensures
            r@ == unvisited_neighbors(x as int, y as int, rows(visited@), width as int, height as int),
    {
        let ghost (gx, gy, gw, gh) = (x as int, y as int, width as int, height as int);
        let ghost v = rows(visited@);
        let mut r: Vec<(usize, usize)> = Vec::new();
        // up
        if x > 0 && width >= 1 && x < width - 1 && y > 2 && height >= 1 && y - 2 < height - 1 && !visited[y
            - 2][x] {
            r.push((x, y - 2));
        }
        assert(r@ == open_part(gx, gy, 0, v, gw, gh));
        // right
        if width >= 3 && x < width - 3 && y > 0 && height >= 1 && y < height - 1 && !visited[y][x + 2] {
            r.push((x + 2, y));
        }
        assert(r@ == open_part(gx, gy, 0, v, gw, gh) + open_part(gx, gy, 1, v, gw, gh));
        // down
        if x > 0 && width >= 1 && x < width - 1 && height >= 3 && y < height - 3
            && !visited[y + 2][x] {
            r.push((x, y + 2));
        }
        assert(r@ == open_part(gx, gy, 0, v, gw, gh) + open_part(gx, gy, 1, v, gw, gh)
            + open_part(gx, gy, 2, v, gw, gh));
        // left
        if x > 2 && width >= 1 && x - 2 < width - 1 && y > 0 && height >= 1 && y < height - 1
            && !visited[y][x - 2] {
            r.push((x - 2, y));
        }
        r
    }

    /// Carves a maze of `normalized(width)` by `normalized(height)` cells,
    /// choosing among the open moves from the cell on top of the stack the
    /// one at index `pick(n) % n`, where `n` is how many there are.
    #[verifier::rlimit(100)]
    #[verifier::spinoff_prover]
    pub fn generate_with<F: Fn(usize) -> usize>(width: usize, height: usize, pick: &F) -> (m: Maze)
        requires
            forall|n: usize| n > 0 ==> #[trigger] pick.requires((n,)),
        ensures
            m.generated_from(width as int, height as int),
            forall|k: usize|
                always_picks(*pick, k) ==> m.cells() == fixed_choice_grid(
                    width as int,
                    height as int,
                    k as int,
                ),
    {
        let w = normalize(width);
        let h = normalize(height);
        let ghost gw = w as int;
        let ghost gh = h as int;
        let mut grid = table(WALL, w, h);
        let mut visited = table(false, w, h);
        let mut stack: Vec<(usize, usize)> = Vec::new();
        visited[1][1] = true;
        grid[1][1] = PASSAGE;
        stack.push((1, 1));
        let ghost mut rooms: Set<(int, int)> = Set::empty().insert((1int, 1int));
        let ghost mut walls: Set<(int, int)> = Set::empty();
        let ghost fuel = (2 * gw * gh) as nat;
        let ghost mut steps: nat = 0;
        proof {
            assert(rows(grid@) =~~= carve_start(gw, gh).0);
            assert(rows(visited@) =~~= carve_start(gw, gh).1);
            assert(stack@ =~= carve_start(gw, gh).2);
            lemma_agree_start(*pick, gw, gh);
            lemma_reached_start();
            lemma_cells_bounded(rooms, gw, gh);
            assert(stack@[0] == ((1int) as usize, (1int) as usize));
            assert(on_stack(stack@, (1, 1)));
        }
        while stack.len() > 0
            invariant
                gw == w,
                gh == h,
                w >= 3,
                h >= 3,
                w % 2 == 1,
                h % 2 == 1,
                w == normalized(width as int),
                h == normalized(height as int),
                forall|n: usize| n > 0 ==> #[trigger] pick.requires((n,)),
                is_table(grid@, gw, gh),
                is_table(visited@, gw, gh),
                forall|x: int, y: int|
                    0 <= x < gw && 0 <= y < gh ==> (#[trigger] visited@[y]@[x] <==> rooms.contains(
                        (x, y),
                    )),
                forall|x: int, y: int|
                    0 <= x < gw && 0 <= y < gh ==> (#[trigger] grid@[y]@[x] == PASSAGE
                        <==> rooms.contains((x, y)) || walls.contains((x, y))),
                forall|x: int, y: int|
                    0 <= x < gw && 0 <= y < gh ==> #[trigger] grid@[y]@[x] == PASSAGE || grid@[y]@[x]
                        == WALL,
                forall|p: (int, int)| #[trigger] rooms.contains(p) ==> is_room(p.0, p.1, gw, gh),
                forall|p: (int, int)|
                    #[trigger] walls.contains(p) ==> is_wall_slot(p.0, p.1, gw, gh)
                        && rooms.contains(wall_sides(p).0) && rooms.contains(wall_sides(p).1),
                rooms.finite(),
                walls.finite(),
                rooms.len() == walls.len() + 1,
                rooms.len() <= gw * gh,
                rooms.contains((1, 1)),
                all_reached(rooms, walls),
                forall|i: int|
                    0 <= i < stack@.len() ==> rooms.contains(
                        (#[trigger] stack@[i].0 as int, stack@[i].1 as int),
                    ),
                forall|p: (int, int)|
                    #[trigger] rooms.contains(p) ==> on_stack(stack@, p) || settled(rooms, p, gw, gh),
                steps + stack.len() + 1 == 2 * rooms.len(),
                fuel == 2 * gw * gh,
                runs_agree(*pick, gw, gh, (rows(grid@), rows(visited@), stack@), (fuel - steps) as nat),
            decreases 2 * (gw * gh - rooms.len()) + stack.len(),
        {
            let top = stack.len() - 1;
            let (x, y) = stack[top];
            let ghost cur = (x as int, y as int);
            assert(2 * gw * gh == 2 * (gw * gh)) by (nonlinear_arith);
            assert(steps < fuel);
            assert(rooms.contains(cur));
            let neighbors = Maze::get_unvisited_neighbors(x, y, &visited, w, h);
            if neighbors.len() == 0 {
                proof {
                    lemma_none_open(x as int, y as int, rows(visited@), gw, gh);
                    assert(settled(rooms, cur, gw, gh)) by {
                        assert(!is_open(x as int, y as int, 0, rows(visited@), gw, gh));
                        assert(!is_open(x as int, y as int, 1, rows(visited@), gw, gh));
                        assert(!is_open(x as int, y as int, 2, rows(visited@), gw, gh));
                        assert(!is_open(x as int, y as int, 3, rows(visited@), gw, gh));
                    }
                }
                let ghost old_stack = stack@;
                let ghost old_state = (rows(grid@), rows(visited@), stack@);
                stack.pop();
                proof {
                    lemma_agree_pop(
                        *pick,
                        gw,
                        gh,
                        old_state,
                        (rows(grid@), rows(visited@), stack@),
                        (fuel - steps) as nat,
                    );
                    steps = steps + 1;
                    assert forall|p: (int, int)| #[trigger] rooms.contains(p) implies on_stack(
                        stack@,
                        p,
                    ) || settled(rooms, p, gw, gh) by {
                        if on_stack(old_stack, p) && !settled(rooms, p, gw, gh) {
                            let i = choose|i: int|
                                0 <= i < old_stack.len() && #[trigger] old_stack[i] == (
                                    p.0 as usize,
                                    p.1 as usize,
                                );
                            assert(i != top);
                            assert(stack@[i] == old_stack[i]);
                        }
                    }
                    assert forall|i: int| 0 <= i < stack@.len() implies rooms.contains(
                        (#[trigger] stack@[i].0 as int, stack@[i].1 as int),
                    ) by {
                        assert(stack@[i] == old_stack[i]);
                    }
                }
            } else {
                let n = neighbors.len();
                let chosen = pick(n);
                let k = chosen % n;
                let (nx, ny) = neighbors[k];
                let ghost d = lemma_neighbor_is_open(x as int, y as int, rows(visited@), gw, gh, k as int);
                let wx = midpoint(x, nx);
                let wy = midpoint(y, ny);
                let ghost next = (nx as int, ny as int);
                let ghost wall = (wx as int, wy as int);
                assert(!rooms.contains(next));
                assert(wall_sides(wall) == (cur, next) || wall_sides(wall) == (next, cur));
                assert(!walls.contains(wall));
                let ghost old_stack = stack@;
                let ghost old_rooms = rooms;
                let ghost old_state = (rows(grid@), rows(visited@), stack@);
                let ghost g0 = grid@;
                grid[wy][wx] = PASSAGE;
                let ghost g1 = grid@;
                proof {
                    lemma_rows_set(g0, g1, wx as int, wy as int, PASSAGE);
                }
                let ghost v0 = visited@;
                visited[ny][nx] = true;
                proof {
                    lemma_rows_set(v0, visited@, nx as int, ny as int, true);
                }
                grid[ny][nx] = PASSAGE;
                proof {
                    lemma_rows_set(g1, grid@, nx as int, ny as int, PASSAGE);
                }
                stack.push((nx, ny));
                proof {
                    assert(rows(grid@) == carve_step(old_state, chosen as int, gw, gh).0);
                    assert(rows(visited@) == carve_step(old_state, chosen as int, gw, gh).1);
                    assert(stack@ =~= carve_step(old_state, chosen as int, gw, gh).2);
                    lemma_agree_push(
                        *pick,
                        gw,
                        gh,
                        old_state,
                        (rows(grid@), rows(visited@), stack@),
                        (fuel - steps) as nat,
                        n,
                        chosen,
                    );
                    steps = steps + 1;
                    assert(adjacent(cur, wall) && adjacent(wall, next));
                    lemma_reached_extend(rooms, walls, cur, wall, next);
                    rooms = rooms.insert(next);
                    walls = walls.insert(wall);
                    lemma_cells_bounded(rooms, gw, gh);
                    assert forall|p: (int, int)| #[trigger] rooms.contains(p) implies on_stack(
                        stack@,
                        p,
                    ) || settled(rooms, p, gw, gh) by {
                        if p == next {
                            assert(stack@[stack@.len() - 1] == (p.0 as usize, p.1 as usize));
                        } else if on_stack(old_stack, p) {
                            let i = choose|i: int|
                                0 <= i < old_stack.len() && #[trigger] old_stack[i] == (
                                    p.0 as usize,
                                    p.1 as usize,
                                );
                            assert(stack@[i] == old_stack[i]);
                        } else {
                            assert(settled(old_rooms, p, gw, gh));
                        }
                    }
                    assert forall|i: int| 0 <= i < stack@.len() implies rooms.contains(
                        (#[trigger] stack@[i].0 as int, stack@[i].1 as int),
                    ) by {
                        if i < old_stack.len() {
                            assert(stack@[i] == old_stack[i]);
                        }
                    }
                }
            }
        }
        proof {
            assert forall|p: (int, int)| #[trigger] rooms.contains(p) implies settled(
                rooms,
                p,
                gw,
                gh,
            ) by {
                if on_stack(stack@, p) {
                    let i = choose|i: int|
                        0 <= i < stack@.len() && #[trigger] stack@[i] == (p.0 as usize, p.1 as usize);
                }
            }
            lemma_settled_covers(rooms, gw, gh);
            lemma_agree_done(*pick, gw, gh, (rows(grid@), rows(visited@), stack@), (fuel - steps) as nat);
        }
        let ghost carved = rows(grid@);
        grid[1][0] = PASSAGE;
        grid[h - 2][w - 1] = PASSAGE;
        let m = Maze { width: w, height: h, grid };
        proof {
            assert(m.cells() =~~= set_cell(set_cell(carved, 0, 1, PASSAGE), gw - 1, gh - 2, PASSAGE));
            assert forall|x: int, y: int| 0 <= x < gw && 0 <= y < gh implies (#[trigger] m.cell(x, y)
                == PASSAGE <==> rooms.contains((x, y)) || walls.contains((x, y)) || is_entry(x, y)
                || is_exit(x, y, gw, gh)) && (m.cell(x, y) == PASSAGE || m.cell(x, y) == WALL) by {
                assert(m.cell(x, y) == m.cells()[y][x]);
                assert(carved[y][x] == PASSAGE <==> rooms.contains((x, y)) || walls.contains((x, y)));
            }
            lemma_finished(m, width as int, height as int, rooms, walls);
        }
        m
    }

    /// Carves a maze of `normalized(width)` by `normalized(height)` cells,
    /// choosing each move uniformly at random among the open ones.
    pub fn generate(width: usize, height: usize) -> (m: Maze)
        ensures
            m.generated_from(width as int, height as int),
    {
        let pick = |n: usize| -> (r: usize)
            requires
                n > 0,
            { random_index(n) };
        Maze::generate_with(width, height, &pick)
    }

    /// The rows of the maze, each `width` cells long.
    pub fn grid(&self) -> (r: &Vec<Vec<char>>)
        ensures
            self.wf() ==> is_table(r@, self.spec_width(), self.spec_height()),
            forall|x: int, y: int|
                0 <= x < self.spec_width() && 0 <= y < self.spec_height() ==> #[trigger] r@[y]@[x]
                    == self.cell(x, y),
    {
        &self.grid
    }

    /// The number of cells in a row.
    pub fn width(&self) -> (r: usize)
        ensures
            r == self.spec_width(),
    {
        self.width
    }

    /// The number of rows.
    pub fn height(&self) -> (r: usize)
        ensures
            r == self.spec_height(),
    {
        self.height
    }

}

/// A maze whose open cells are the rooms `rooms`, the carved walls `walls`, the
/// entry and the exit, where `rooms` holds every room, has one more room than
/// carved walls and reaches every room from `(1, 1)`, was generated.
proof fn lemma_finished(
    m: Maze,
    width: int,
    height: int,
    rooms: Set<(int, int)>,
    walls: Set<(int, int)>,
)
    requires
        m.wf(),
        m.spec_width() == normalized(width),
        m.spec_height() == normalized(height),
        forall|x: int, y: int|
            0 <= x < m.spec_width() && 0 <= y < m.spec_height() ==> (#[trigger] m.cell(x, y)
                == PASSAGE <==> rooms.contains((x, y)) || walls.contains((x, y)) || is_entry(x, y)
                || is_exit(x, y, m.spec_width(), m.spec_height())) && (m.cell(x, y) == PASSAGE
                || m.cell(x, y) == WALL),
        forall|p: (int, int)|
            #[trigger] rooms.contains(p) ==> is_room(p.0, p.1, m.spec_width(), m.spec_height()),
        forall|p: (int, int)|
            #[trigger] walls.contains(p) ==> is_wall_slot(p.0, p.1, m.spec_width(), m.spec_height()),
        forall|x: int, y: int|
            is_room(x, y, m.spec_width(), m.spec_height()) ==> #[trigger] rooms.contains((x, y)),
        rooms.finite(),
        walls.finite(),
        rooms.len() == walls.len() + 1,
        all_reached(rooms, walls),
    ensures
        m.generated_from(width, height),
{
    let (w, h) = (m.spec_width(), m.spec_height());
    assert(rooms.contains((1, 1)));
    assert(m.open_rooms() =~= rooms);
    assert(m.carved_walls() =~= walls);
    assert(m.open_rooms() =~= all_rooms(w, h));
    lemma_reached_within(rooms, walls, m.passages());
}

/// Each dimension of a generated maze is odd, at least the requested one, and
/// one more than the requested one only when that was even.
pub proof fn lemma_dimensions_odd(m: Maze, width: int, height: int)
    requires
        m.generated_from(width, height),
    ensures
        m.spec_width() % 2 == 1,
        m.spec_height() % 2 == 1,
        m.spec_width() >= width,
        m.spec_height() >= height,
        m.spec_width() == width + 1 ==> width % 2 == 0,
        m.spec_height() == height + 1 ==> height % 2 == 0,
{
}

/// A generated maze is a spanning tree over its rooms: every room is open and
/// reached from `(1, 1)` through open cells, there are
/// `((width - 1) / 2) * ((height - 1) / 2)` rooms, and one fewer walls between
/// rooms are carved open.
pub proof fn lemma_perfect_counts(m: Maze, width: int, height: int)
    requires
        m.generated_from(width, height),
    ensures
        forall|x: int, y: int|
            is_room(x, y, m.spec_width(), m.spec_height()) ==> #[trigger] m.cell(x, y) == PASSAGE,
        m.open_rooms().len() == ((m.spec_width() - 1) / 2) * ((m.spec_height() - 1) / 2),
        m.carved_walls().len() + 1 == m.open_rooms().len(),
        forall|x: int, y: int|
            is_room(x, y, m.spec_width(), m.spec_height()) ==> #[trigger] reaches(
                m.passages(),
                (1, 1),
                (x, y),
            ),
{
    assert forall|x: int, y: int| is_room(x, y, m.spec_width(), m.spec_height()) implies #[trigger] reaches(
        m.passages(),
        (1, 1),
        (x, y),
    ) by {
        assert(all_rooms(m.spec_width(), m.spec_height()).contains((x, y)));
    }
    lemma_room_count(m.spec_width(), m.spec_height());
}

/// Whatever moves were chosen, a generated maze is open at the entry `(0, 1)`
/// and at the exit `(width - 1, height - 2)`.
pub proof fn lemma_openings(m: Maze, width: int, height: int)
    requires
        m.generated_from(width, height),
    ensures
        m.cell(0, 1) == PASSAGE,
        m.cell(m.spec_width() - 1, m.spec_height() - 2) == PASSAGE,
{
}

/// Under a source of choices that always returns the same index, the maze is
/// a function of the requested dimensions: two mazes carved for the same
/// dimensions with the same fixed index have the same cells.
pub proof fn lemma_fixed_choice_deterministic(
    m1: Maze,
    m2: Maze,
    width: int,
    height: int,
    k: int,
)
    requires
        m1.cells() == fixed_choice_grid(width, height, k),
        m2.cells() == fixed_choice_grid(width, height, k),
    ensures
        m1.cells() == m2.cells(),
{
}

} // verus!
