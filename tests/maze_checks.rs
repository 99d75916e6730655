use maze_traversal::bfs_traversal;
use maze_traversal::cli::{accepted_open_percent, accepted_size, parse_response, UserResponse};
use maze_traversal::dfs_traversal;
use maze_traversal::maze::Maze;
use maze_traversal::tui_layout::{get_buttons, layout_areas};
use std::collections::VecDeque;

const DIRS: [(isize, isize); 4] = [(0, -1), (1, 0), (0, 1), (-1, 0)];

fn neighbor(m: &Maze, x: usize, y: usize, d: usize) -> Option<(usize, usize)> {
    let nx = x as isize + DIRS[d].0;
    let ny = y as isize + DIRS[d].1;
    if nx >= 0 && ny >= 0 && (nx as usize) < m.width && (ny as usize) < m.height {
        Some((nx as usize, ny as usize))
    } else {
        None
    }
}

fn open_pairs(m: &Maze) -> usize {
    let mut n = 0;
    for x in 0..m.width {
        for y in 0..m.height {
            if x + 1 < m.width && !m.grid[x][y].walls[1] {
                n += 1;
            }
            if y + 1 < m.height && !m.grid[x][y].walls[2] {
                n += 1;
            }
        }
    }
    n
}

fn distances(m: &Maze, from: (usize, usize)) -> Vec<Vec<Option<usize>>> {
    let mut dist = vec![vec![None; m.height]; m.width];
    let mut q = VecDeque::new();
    dist[from.0][from.1] = Some(0);
    q.push_back(from);
    while let Some((x, y)) = q.pop_front() {
        let here = dist[x][y].unwrap();
        for d in 0..4 {
            if let Some((nx, ny)) = neighbor(m, x, y, d) {
                if !m.grid[x][y].walls[d] && dist[nx][ny].is_none() {
                    dist[nx][ny] = Some(here + 1);
                    q.push_back((nx, ny));
                }
            }
        }
    }
    dist
}

fn marked(m: &Maze) -> Vec<(usize, usize)> {
    let mut v = Vec::new();
    for x in 0..m.width {
        for y in 0..m.height {
            if m.grid[x][y].path {
                v.push((x, y));
            }
        }
    }
    v
}

/// The marked cells form one chain of open passages from start to end.
fn marked_route_is_connected(m: &Maze) -> bool {
    let cells = marked(m);
    if !m.grid[m.start_cell.0][m.start_cell.1].path || !m.grid[m.end_cell.0][m.end_cell.1].path {
        return false;
    }
    let mut seen = vec![vec![false; m.height]; m.width];
    let mut q = VecDeque::new();
    seen[m.start_cell.0][m.start_cell.1] = true;
    q.push_back(m.start_cell);
    let mut count = 0;
    while let Some((x, y)) = q.pop_front() {
        count += 1;
        for d in 0..4 {
            if let Some((nx, ny)) = neighbor(m, x, y, d) {
                if !m.grid[x][y].walls[d] && m.grid[nx][ny].path && !seen[nx][ny] {
                    seen[nx][ny] = true;
                    q.push_back((nx, ny));
                }
            }
        }
    }
    count == cells.len() && seen[m.end_cell.0][m.end_cell.1]
}

fn walls_symmetric(m: &Maze) -> bool {
    for x in 0..m.width {
        for y in 0..m.height {
            for d in 0..4 {
                if let Some((nx, ny)) = neighbor(m, x, y, d) {
                    if m.grid[x][y].walls[d] != m.grid[nx][ny].walls[(d + 2) % 4] {
                        return false;
                    }
                }
            }
        }
    }
    true
}

fn generated(w: usize, h: usize, open_percent: u8, seed: u64) -> Maze {
    let mut m = Maze::new(w, h);
    m.dfs_gen_seeded(open_percent, seed);
    m
}

fn layout(m: &Maze) -> Vec<([bool; 4], bool, bool)> {
    let mut v = Vec::new();
    for x in 0..m.width {
        for y in 0..m.height {
            let c = &m.grid[x][y];
            v.push((c.walls, c.start, c.end));
        }
    }
    v
}

/// The 3 by 3 maze carved in row-major snake order: along the top row, down,
/// back along the middle row, down, and along the bottom row.
fn snake() -> Maze {
    let mut m = Maze::new(3, 3);
    m.open_pair(0, 0, 1);
    m.open_pair(1, 0, 1);
    m.open_pair(2, 0, 2);
    m.open_pair(2, 1, 3);
    m.open_pair(1, 1, 3);
    m.open_pair(0, 1, 2);
    m.open_pair(0, 2, 1);
    m.open_pair(1, 2, 1);
    m.start_cell = (0, 0);
    m.end_cell = (2, 2);
    m.grid[0][0].start = true;
    m.grid[2][2].end = true;
    m
}

#[test]
fn new_maze_is_fully_walled() {
    let m = Maze::new(3, 2);
    assert_eq!(m.grid.len(), 3);
    for x in 0..3 {
        assert_eq!(m.grid[x].len(), 2);
        for y in 0..2 {
            let c = &m.grid[x][y];
            assert_eq!((c.x, c.y), (x, y));
            assert_eq!(c.walls, [true; 4]);
            assert!(!c.visited && !c.path && !c.start && !c.end);
        }
    }
    assert_eq!(open_pairs(&m), 0);
}

#[test]
fn open_pair_opens_both_sides() {
    let mut m = Maze::new(2, 2);
    m.open_pair(0, 0, 2);
    assert!(!m.grid[0][0].walls[2]);
    assert!(!m.grid[0][1].walls[0]);
    assert_eq!(open_pairs(&m), 1);
    m.open_pair(0, 1, 0);
    assert_eq!(open_pairs(&m), 1);
    assert!(walls_symmetric(&m));
}

#[test]
fn step_stays_in_grid() {
    let m = Maze::new(2, 3);
    assert_eq!(m.step(0, 0, 0), None);
    assert_eq!(m.step(0, 0, 3), None);
    assert_eq!(m.step(0, 0, 1), Some((1, 0)));
    assert_eq!(m.step(0, 0, 2), Some((0, 1)));
    assert_eq!(m.step(1, 2, 1), None);
    assert_eq!(m.step(1, 2, 2), None);
}

#[test]
fn perfect_maze_is_a_spanning_tree() {
    for seed in 0..20u64 {
        let m = generated(7, 5, 0, seed);
        assert_eq!(open_pairs(&m), 7 * 5 - 1);
        let dist = distances(&m, m.start_cell);
        assert!(dist.iter().all(|col| col.iter().all(|d| d.is_some())));
    }
}

#[test]
fn generated_walls_are_symmetric() {
    for seed in 0..10u64 {
        assert!(walls_symmetric(&generated(9, 6, 0, seed)));
        assert!(walls_symmetric(&generated(9, 6, 5, seed)));
    }
}

#[test]
fn generation_marks_one_start_and_one_far_end() {
    for seed in 0..20u64 {
        let m = generated(8, 4, 0, seed);
        let mut starts = 0;
        let mut ends = 0;
        for x in 0..8 {
            for y in 0..4 {
                let c = &m.grid[x][y];
                if c.start {
                    starts += 1;
                    assert_eq!((x, y), m.start_cell);
                }
                if c.end {
                    ends += 1;
                    assert_eq!((x, y), m.end_cell);
                }
                assert!(c.visited);
                assert!(!c.path);
            }
        }
        assert_eq!((starts, ends), (1, 1));
        let far = if m.start_cell.0 < 4 { 7 } else { 0 };
        assert_eq!(m.end_cell.0, far);
    }
}

#[test]
fn same_seed_same_maze() {
    let a = generated(10, 10, 7, 42);
    let b = generated(10, 10, 7, 42);
    assert_eq!(layout(&a), layout(&b));
    assert_eq!((a.start_cell, a.end_cell), (b.start_cell, b.end_cell));
}

#[test]
fn seeds_change_the_maze() {
    let first = layout(&generated(10, 10, 0, 0));
    let mut differs = false;
    for seed in 1..10u64 {
        if layout(&generated(10, 10, 0, seed)) != first {
            differs = true;
        }
    }
    assert!(differs);
}

#[test]
fn openings_only_add_passages() {
    for seed in 0..10u64 {
        let m = generated(10, 10, 2, seed);
        assert!(open_pairs(&m) >= 10 * 10 - 1);
        let dist = distances(&m, m.start_cell);
        assert!(dist.iter().all(|col| col.iter().all(|d| d.is_some())));
    }
}

#[test]
fn larger_percent_opens_no_more() {
    for seed in 0..10u64 {
        let small = generated(12, 12, 2, seed);
        let large = generated(12, 12, 9, seed);
        assert!(open_pairs(&large) <= open_pairs(&small));
    }
}

#[test]
fn apply_openings_skips_picks_off_the_grid() {
    let mut m = Maze::new(3, 3);
    m.apply_openings(&vec![(0, 0, 0), (2, 2, 1), (5, 0, 1), (0, 0, 7), (1, 1, 3)]);
    assert_eq!(open_pairs(&m), 1);
    assert!(!m.grid[1][1].walls[3]);
    assert!(!m.grid[0][1].walls[1]);
}

#[test]
fn bfs_marks_a_shortest_route() {
    for seed in 0..20u64 {
        let mut m = generated(9, 7, 4, seed);
        bfs_traversal::traverse(&mut m);
        let dist = distances(&m, m.start_cell);
        let best = dist[m.end_cell.0][m.end_cell.1].unwrap();
        assert_eq!(marked(&m).len(), best + 1);
        assert!(marked_route_is_connected(&m));
    }
}

#[test]
fn dfs_marks_a_route() {
    for seed in 0..20u64 {
        let mut m = generated(9, 7, 4, seed);
        dfs_traversal::traverse(&mut m);
        assert!(marked_route_is_connected(&m));
    }
}

#[test]
fn bfs_route_never_longer_than_dfs_route() {
    for seed in 0..20u64 {
        let mut m = generated(11, 8, 3, seed);
        bfs_traversal::traverse(&mut m);
        let bfs_len = marked(&m).len();
        dfs_traversal::traverse(&mut m);
        let dfs_len = marked(&m).len();
        assert!(bfs_len <= dfs_len);
    }
}

#[test]
fn reset_keeps_walls_and_marks() {
    let mut m = generated(6, 6, 3, 11);
    bfs_traversal::traverse(&mut m);
    let before = layout(&m);
    m.reset_visited();
    m.reset_visited();
    assert_eq!(layout(&m), before);
    assert!(marked(&m).is_empty());
    assert!(m.grid.iter().all(|col| col.iter().all(|c| !c.visited)));
    dfs_traversal::traverse(&mut m);
    bfs_traversal::traverse(&mut m);
    assert_eq!(layout(&m), before);
}

#[test]
fn snake_scenario() {
    let mut m = snake();
    assert!(!m.grid[0][0].walls[1]);
    assert!(!m.grid[1][0].walls[1]);
    assert!(!m.grid[2][0].walls[2]);
    assert_eq!(open_pairs(&m), 8);
    bfs_traversal::traverse(&mut m);
    assert_eq!(marked(&m).len(), 9);
    assert!(marked_route_is_connected(&m));
    dfs_traversal::traverse(&mut m);
    assert_eq!(marked(&m).len(), 9);
}

#[test]
fn shortcut_scenario() {
    let mut m = snake();
    m.open_pair(2, 1, 2);
    bfs_traversal::traverse(&mut m);
    let mut cells = marked(&m);
    cells.sort();
    assert_eq!(cells, vec![(0, 0), (1, 0), (2, 0), (2, 1), (2, 2)]);
}

#[test]
fn no_route_marks_nothing() {
    let mut m = Maze::new(2, 1);
    m.start_cell = (0, 0);
    m.end_cell = (1, 0);
    bfs_traversal::traverse(&mut m);
    assert!(marked(&m).is_empty());
    dfs_traversal::traverse(&mut m);
    assert!(marked(&m).is_empty());
}

#[test]
fn start_equal_to_end() {
    let mut m = snake();
    m.end_cell = (0, 0);
    bfs_traversal::traverse(&mut m);
    assert_eq!(marked(&m), vec![(0, 0)]);
    dfs_traversal::traverse(&mut m);
    assert_eq!(marked(&m), vec![(0, 0)]);
}

#[test]
fn render_single_cell() {
    let mut m = Maze::new(1, 1);
    m.grid[0][0].start = true;
    assert_eq!(String::from_utf8(m.render()).unwrap(), "+---+\n| S |\n+---+\n");
}

#[test]
fn render_open_walls_and_path() {
    let mut m = Maze::new(2, 1);
    m.open_pair(0, 0, 1);
    m.grid[1][0].path = true;
    assert_eq!(String::from_utf8(m.render()).unwrap(), "+---+---+\n|     X |\n+---+---+\n");
}

#[test]
fn parse_yes_and_no() {
    for s in ["Yes", "yes", "Y", "y"] {
        assert_eq!(parse_response(s), UserResponse::Yes);
    }
    for s in ["No", "no", "N", "n"] {
        assert_eq!(parse_response(s), UserResponse::No);
    }
    for s in ["", "YES", "yess", "nope", "x"] {
        assert_eq!(parse_response(s), UserResponse::Invalid);
    }
}

#[test]
fn accepted_inputs() {
    assert!(!accepted_size(9));
    assert!(accepted_size(10));
    assert!(accepted_size(50));
    assert!(!accepted_size(51));
    assert!(accepted_open_percent(0));
    assert!(accepted_open_percent(50));
    assert!(!accepted_open_percent(51));
}

#[test]
fn screen_areas() {
    let a = layout_areas(0, 0, 80, 24);
    assert_eq!(a.buttons, (0, 21, 80, 3));
    assert_eq!(a.maze, (1, 1, 78, 19));
    assert_eq!(a.message, (0, 11, 80, 3));
    let b = get_buttons();
    assert_eq!(b[0], "1: Generate Maze");
    assert_eq!(b[4], "5: Exit");
}
