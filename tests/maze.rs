use maze_gen::lattice::{normalize, PASSAGE, WALL};
use maze_gen::Maze;
use std::collections::VecDeque;

fn is_room(x: usize, y: usize, w: usize, h: usize) -> bool {
    x % 2 == 1 && y % 2 == 1 && x > 0 && y > 0 && x < w - 1 && y < h - 1
}

fn is_wall_slot(x: usize, y: usize, w: usize, h: usize) -> bool {
    x > 0 && y > 0 && x < w - 1 && y < h - 1 && (x % 2 == 1) != (y % 2 == 1)
}

fn count_rooms(m: &Maze) -> usize {
    let (w, h) = (m.width(), m.height());
    let mut n = 0;
    for y in 0..h {
        for x in 0..w {
            if is_room(x, y, w, h) && m.grid()[y][x] == PASSAGE {
                n += 1;
            }
        }
    }
    n
}

fn carved_walls(m: &Maze) -> Vec<(usize, usize)> {
    let (w, h) = (m.width(), m.height());
    let mut r = Vec::new();
    for y in 0..h {
        for x in 0..w {
            if is_wall_slot(x, y, w, h) && m.grid()[y][x] == PASSAGE {
                r.push((x, y));
            }
        }
    }
    r
}

/// Number of connected components of interior passage cells, with `blocked`
/// treated as a wall.
fn components(m: &Maze, blocked: Option<(usize, usize)>) -> usize {
    let (w, h) = (m.width(), m.height());
    let g = m.grid();
    let open = |x: usize, y: usize| {
        x > 0 && y > 0 && x < w - 1 && y < h - 1 && g[y][x] == PASSAGE && Some((x, y)) != blocked
    };
    let mut seen = vec![vec![false; w]; h];
    let mut n = 0;
    for sy in 0..h {
        for sx in 0..w {
            if !open(sx, sy) || seen[sy][sx] {
                continue;
            }
            n += 1;
            let mut q = VecDeque::new();
            seen[sy][sx] = true;
            q.push_back((sx, sy));
            while let Some((x, y)) = q.pop_front() {
                let next = [(x, y - 1), (x + 1, y), (x, y + 1), (x - 1, y)];
                for (nx, ny) in next {
                    if open(nx, ny) && !seen[ny][nx] {
                        seen[ny][nx] = true;
                        q.push_back((nx, ny));
                    }
                }
            }
        }
    }
    n
}

fn assert_perfect(m: &Maze) {
    let (w, h) = (m.width(), m.height());
    let rooms = ((w - 1) / 2) * ((h - 1) / 2);
    assert_eq!(count_rooms(m), rooms);
    assert_eq!(carved_walls(m).len() + 1, rooms);
    assert_eq!(components(m, None), 1);
}

#[test]
fn dimensions_are_odd_and_at_least_requested() {
    for (w, h) in [(4, 6), (5, 5), (10, 3), (21, 21), (8, 8)] {
        let m = Maze::generate(w, h);
        assert_eq!(m.width() % 2, 1);
        assert_eq!(m.height() % 2, 1);
        assert!(m.width() >= w && m.height() >= h);
        assert_eq!(m.width(), if w % 2 == 0 { w + 1 } else { w });
        assert_eq!(m.height(), if h % 2 == 0 { h + 1 } else { h });
        assert_eq!(m.grid().len(), m.height());
        assert!(m.grid().iter().all(|row| row.len() == m.width()));
    }
}

#[test]
fn normalize_values() {
    assert_eq!(normalize(0), 3);
    assert_eq!(normalize(1), 3);
    assert_eq!(normalize(2), 3);
    assert_eq!(normalize(3), 3);
    assert_eq!(normalize(4), 5);
    assert_eq!(normalize(21), 21);
    assert_eq!(normalize(usize::MAX), usize::MAX);
    assert_eq!(normalize(usize::MAX - 1), usize::MAX);
}

#[test]
fn every_room_open_and_walls_form_a_tree() {
    for (w, h) in [(5, 5), (7, 9), (21, 21), (15, 4), (30, 12)] {
        let m = Maze::generate(w, h);
        assert_perfect(&m);
    }
}

#[test]
fn removing_any_carved_wall_disconnects() {
    let m = Maze::generate(11, 9);
    for wall in carved_walls(&m) {
        assert_eq!(components(&m, Some(wall)), 2);
    }
}

#[test]
fn entry_and_exit_are_open() {
    for (w, h) in [(1, 1), (2, 2), (5, 5), (6, 10), (21, 21)] {
        let m = Maze::generate(w, h);
        assert_eq!(m.grid()[1][0], PASSAGE);
        assert_eq!(m.grid()[m.height() - 2][m.width() - 1], PASSAGE);
    }
}

#[test]
fn fixed_choice_is_deterministic() {
    let first = Maze::generate_with(13, 9, &|_n: usize| 0);
    let second = Maze::generate_with(13, 9, &|_n: usize| 0);
    assert_eq!(first.grid(), second.grid());
    let a = Maze::generate_with(13, 9, &|_n: usize| 7);
    let b = Maze::generate_with(13, 9, &|_n: usize| 7);
    assert_eq!(a.grid(), b.grid());
    assert_perfect(&a);
}

#[test]
fn fixed_first_choice_carves_known_maze() {
    // Always the first open move: up, right, down, left in that order.
    let m = Maze::generate_with(5, 5, &|_n: usize| 0);
    let rows: Vec<String> = m.grid().iter().map(|r| r.iter().collect()).collect();
    assert_eq!(rows, vec!["#####", "    #", "### #", "#    ", "#####"]);
}

#[test]
fn random_choices_vary() {
    let fixed = Maze::generate_with(21, 21, &|_n: usize| 0);
    let differs = (0..20).any(|_| Maze::generate(21, 21).grid() != fixed.grid());
    assert!(differs);
}

#[test]
fn tiny_inputs_give_trivial_maze() {
    for (w, h) in [(1, 1), (2, 2), (1, 2), (0, 0)] {
        let m = Maze::generate(w, h);
        assert_eq!(m.width(), 3);
        assert_eq!(m.height(), 3);
        let rows: Vec<String> = m.grid().iter().map(|r| r.iter().collect()).collect();
        assert_eq!(rows, vec!["###", "   ", "###"]);
    }
}

#[test]
fn five_by_five_example() {
    let m = Maze::generate(5, 5);
    let g = m.grid();
    assert_eq!((m.width(), m.height()), (5, 5));
    assert_eq!(g.len(), 5);
    assert!(g.iter().all(|row| row.len() == 5));
    assert_eq!(g[0][0], WALL);
    assert_eq!(g[0][4], WALL);
    assert_eq!(g[4][0], WALL);
    assert_eq!(g[4][4], WALL);
    assert_eq!(g[1][1], PASSAGE);
    assert_eq!(count_rooms(&m), 4);
    assert_eq!(carved_walls(&m).len(), 3);
    // Nothing else is open but the entry and the exit.
    for y in 0..5 {
        for x in 0..5 {
            let other = !is_room(x, y, 5, 5) && !is_wall_slot(x, y, 5, 5);
            if other && (x, y) != (0, 1) && (x, y) != (4, 3) {
                assert_eq!(g[y][x], WALL);
            }
        }
    }
}

#[test]
fn neighbors_of_corner_room() {
    let visited = vec![vec![false; 7]; 7];
    assert_eq!(Maze::get_unvisited_neighbors(1, 1, &visited, 7, 7), vec![(3, 1), (1, 3)]);
    assert_eq!(Maze::get_unvisited_neighbors(5, 5, &visited, 7, 7), vec![(5, 3), (3, 5)]);
}

#[test]
fn neighbors_in_order_up_right_down_left() {
    let visited = vec![vec![false; 7]; 7];
    assert_eq!(
        Maze::get_unvisited_neighbors(3, 3, &visited, 7, 7),
        vec![(3, 1), (5, 3), (3, 5), (1, 3)]
    );
}

#[test]
fn neighbors_skip_visited() {
    let mut visited = vec![vec![false; 7]; 7];
    visited[1][3] = true;
    visited[3][1] = true;
    assert_eq!(Maze::get_unvisited_neighbors(3, 3, &visited, 7, 7), vec![(5, 3), (3, 5)]);
    visited[3][5] = true;
    visited[5][3] = true;
    assert!(Maze::get_unvisited_neighbors(3, 3, &visited, 7, 7).is_empty());
}

#[test]
fn neighbors_in_smallest_grid() {
    let visited = vec![vec![false; 3]; 3];
    assert!(Maze::get_unvisited_neighbors(1, 1, &visited, 3, 3).is_empty());
    let none: Vec<Vec<bool>> = Vec::new();
    assert!(Maze::get_unvisited_neighbors(0, 0, &none, 0, 0).is_empty());
}
