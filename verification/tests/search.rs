use slow_astar::cells::{CellType, SearchError, StepResult};
use slow_astar::engine::SlowAStar;

fn open_grid(h: usize, w: usize) -> Vec<Vec<bool>> {
    let mut g: Vec<Vec<bool>> = Vec::new();
    for _ in 0..h {
        let mut row: Vec<bool> = Vec::new();
        for _ in 0..w {
            row.push(true);
        }
        g.push(row);
    }
    g
}

fn rank(t: CellType) -> u32 {
    match t {
        CellType::Wall => 0,
        CellType::Unvisited => 0,
        CellType::Discovered => 1,
        CellType::Finalized => 2,
        CellType::OnPath => 3,
    }
}

fn run_to_end(alg: &mut SlowAStar) -> Result<usize, SearchError> {
    let mut steps: usize = 0;
    loop {
        match alg.expand_one() {
            Ok(StepResult::Continuing) => {
                steps += 1;
            }
            Ok(StepResult::Complete) => {
                steps += 1;
                return Ok(steps);
            }
            Err(e) => return Err(e),
        }
    }
}

#[test]
fn score_is_distance_plus_manhattan() {
    assert_eq!(SlowAStar::score_point((1, 2), 3, (4, 6)), 10);
    assert_eq!(SlowAStar::score_point((4, 6), 3, (1, 2)), 10);
    assert_eq!(SlowAStar::score_point((0, 0), 0, (0, 0)), 0);
    assert_eq!(SlowAStar::score_point((5, 5), 7, (5, 5)), 7);
}

#[test]
fn empty_grid_is_rejected() {
    let g: Vec<Vec<bool>> = Vec::new();
    match SlowAStar::new(g, (0, 0), (0, 0)) {
        Err(SearchError::EmptyGrid) => {}
        _ => panic!("expected EmptyGrid"),
    }
}

#[test]
fn zero_width_grid_is_rejected() {
    let g: Vec<Vec<bool>> = vec![Vec::new()];
    match SlowAStar::new(g, (0, 0), (0, 0)) {
        Err(SearchError::EmptyGrid) => {}
        _ => panic!("expected EmptyGrid"),
    }
}

#[test]
fn ragged_grid_is_rejected() {
    let g: Vec<Vec<bool>> = vec![vec![true, true], vec![true]];
    match SlowAStar::new(g, (0, 0), (0, 0)) {
        Err(SearchError::EmptyGrid) => {}
        _ => panic!("expected EmptyGrid"),
    }
}

#[test]
fn out_of_bounds_start_is_rejected() {
    match SlowAStar::new(open_grid(2, 2), (5, 0), (1, 1)) {
        Err(SearchError::InvalidCoordinate) => {}
        _ => panic!("expected InvalidCoordinate"),
    }
}

#[test]
fn out_of_bounds_destination_is_rejected() {
    match SlowAStar::new(open_grid(2, 2), (0, 0), (1, 9)) {
        Err(SearchError::InvalidCoordinate) => {}
        _ => panic!("expected InvalidCoordinate"),
    }
}

#[test]
fn initial_picture_shows_walls_and_discovered_start() {
    let g = vec![
        vec![true, false],
        vec![true, true],
    ];
    let alg = SlowAStar::new(g, (0, 0), (1, 1)).unwrap();
    let pic = alg.get_map_picture();
    assert_eq!(pic.len(), 2);
    assert_eq!(pic[0].len(), 2);
    assert_eq!(pic[0][0], CellType::Discovered);
    assert_eq!(pic[0][1], CellType::Wall);
    assert_eq!(pic[1][0], CellType::Unvisited);
    assert_eq!(pic[1][1], CellType::Unvisited);
    assert_eq!(alg.best_distance(0, 0), Some(0));
    assert_eq!(alg.best_distance(1, 1), None);
    assert_eq!(alg.best_distance(9, 9), None);
}

// A 3x3 all-open grid from corner to corner: the shortest distance is 4
// and the reconstructed path covers exactly 5 cells.
#[test]
fn three_by_three_shortest_distance_is_four() {
    let mut alg = SlowAStar::new(open_grid(3, 3), (0, 0), (2, 2)).unwrap();
    let steps = run_to_end(&mut alg).unwrap();
    assert!(steps <= 9);
    assert_eq!(alg.best_distance(2, 2), Some(4));
    let pic = alg.get_map_picture();
    let mut on_path = 0;
    for row in &pic {
        for cell in row {
            if *cell == CellType::OnPath {
                on_path += 1;
            }
        }
    }
    assert_eq!(on_path, 5);
    assert_eq!(pic[0][0], CellType::OnPath);
    assert_eq!(pic[2][2], CellType::OnPath);
}

// The shortest distance matches a brute-force breadth-first search on a
// grid with walls.
#[test]
fn distance_matches_breadth_first_search() {
    let g = vec![
        vec![true, true, true, true],
        vec![false, false, false, true],
        vec![true, true, true, true],
        vec![true, false, false, false],
        vec![true, true, true, true],
    ];
    let mut alg = SlowAStar::new(g.clone(), (0, 0), (4, 3)).unwrap();
    run_to_end(&mut alg).unwrap();

    // brute-force breadth-first search
    let h = g.len();
    let w = g[0].len();
    let mut dist = vec![vec![usize::MAX; w]; h];
    dist[0][0] = 0;
    let mut queue = std::collections::VecDeque::new();
    queue.push_back((0usize, 0usize));
    while let Some((r, c)) = queue.pop_front() {
        let mut push = |nr: usize, nc: usize, dist: &mut Vec<Vec<usize>>, queue: &mut std::collections::VecDeque<(usize, usize)>| {
            if g[nr][nc] && dist[nr][nc] == usize::MAX {
                dist[nr][nc] = dist[r][c] + 1;
                queue.push_back((nr, nc));
            }
        };
        if r > 0 {
            push(r - 1, c, &mut dist, &mut queue);
        }
        if r + 1 < h {
            push(r + 1, c, &mut dist, &mut queue);
        }
        if c > 0 {
            push(r, c - 1, &mut dist, &mut queue);
        }
        if c + 1 < w {
            push(r, c + 1, &mut dist, &mut queue);
        }
    }
    assert_eq!(alg.best_distance(4, 3), Some(dist[4][3]));
}

// Walls on all sides of the destination: the search reports exhaustion
// before any completion.
#[test]
fn separated_destination_yields_exhausted() {
    let g = vec![
        vec![true, false, true],
        vec![true, false, true],
        vec![true, false, true],
    ];
    let mut alg = SlowAStar::new(g, (0, 0), (0, 2)).unwrap();
    match run_to_end(&mut alg) {
        Err(SearchError::Exhausted) => {}
        other => panic!("expected Exhausted, got {:?}", other),
    }
    let pic = alg.get_map_picture();
    for row in &pic {
        for cell in row {
            assert_ne!(*cell, CellType::OnPath);
        }
    }
}

// No cell's classification ever moves backward, and walls stay walls.
#[test]
fn classification_is_monotone() {
    let g = vec![
        vec![true, true, true],
        vec![true, false, true],
        vec![true, true, true],
    ];
    let mut alg = SlowAStar::new(g, (0, 0), (2, 2)).unwrap();
    let mut prev = alg.get_map_picture();
    loop {
        let done = match alg.expand_one() {
            Ok(StepResult::Complete) => true,
            Ok(StepResult::Continuing) => false,
            Err(e) => panic!("unexpected error {:?}", e),
        };
        let cur = alg.get_map_picture();
        for r in 0..prev.len() {
            for c in 0..prev[r].len() {
                assert_eq!(prev[r][c] == CellType::Wall, cur[r][c] == CellType::Wall);
                assert!(rank(prev[r][c]) <= rank(cur[r][c]));
            }
        }
        prev = cur;
        if done {
            break;
        }
    }
}

// Each successful step finalizes exactly one more cell, and the number of
// finalized cells never exceeds the traversable cells.
#[test]
fn finalized_count_grows_by_one_and_is_bounded() {
    let g = open_grid(4, 4);
    let mut alg = SlowAStar::new(g, (0, 0), (3, 3)).unwrap();
    let count = |pic: &Vec<Vec<CellType>>| -> usize {
        let mut n = 0;
        for row in pic {
            for cell in row {
                if *cell == CellType::Finalized || *cell == CellType::OnPath {
                    n += 1;
                }
            }
        }
        n
    };
    let mut prev = count(&alg.get_map_picture());
    assert_eq!(prev, 0);
    loop {
        let done = match alg.expand_one() {
            Ok(StepResult::Complete) => true,
            Ok(StepResult::Continuing) => false,
            Err(e) => panic!("unexpected error {:?}", e),
        };
        let cur = count(&alg.get_map_picture());
        assert_eq!(cur, prev + 1);
        assert!(cur <= 16);
        prev = cur;
        if done {
            break;
        }
    }
}

// When the search completes, the path cells form a connected
// four-directional walk from start to destination with no walls on it.
#[test]
fn marked_path_is_connected_and_wall_free() {
    let g = vec![
        vec![true, true, false, true],
        vec![false, true, false, true],
        vec![true, true, true, true],
        vec![true, false, false, false],
    ];
    let mut alg = SlowAStar::new(g, (0, 0), (3, 0)).unwrap();
    run_to_end(&mut alg).unwrap();
    let pic = alg.get_map_picture();
    let dist = alg.best_distance(3, 0).unwrap();
    let mut on_path: Vec<(usize, usize)> = Vec::new();
    for (r, row) in pic.iter().enumerate() {
        for (c, cell) in row.iter().enumerate() {
            if *cell == CellType::OnPath {
                on_path.push((r, c));
            }
        }
    }
    assert_eq!(on_path.len(), dist + 1);
    assert!(on_path.contains(&(0, 0)));
    assert!(on_path.contains(&(3, 0)));
    // every path cell except the endpoints has exactly two path neighbors;
    // the endpoints have exactly one
    for &(r, c) in &on_path {
        let mut neighbors = 0;
        for &(nr, nc) in &on_path {
            let dr = if r > nr { r - nr } else { nr - r };
            let dc = if c > nc { c - nc } else { nc - c };
            if dr + dc == 1 {
                neighbors += 1;
            }
        }
        if (r, c) == (0, 0) || (r, c) == (3, 0) {
            assert_eq!(neighbors, 1);
        } else {
            assert_eq!(neighbors, 2);
        }
    }
}

// Re-running the same search yields the same sequence of grids: the
// tie-break order (score, then row, then column) is deterministic.
#[test]
fn rerun_is_deterministic() {
    let build = || SlowAStar::new(open_grid(4, 5), (1, 1), (3, 4)).unwrap();
    let mut a = build();
    let mut b = build();
    loop {
        let ra = a.expand_one();
        let rb = b.expand_one();
        assert_eq!(ra, rb);
        assert_eq!(a.get_map_picture(), b.get_map_picture());
        match ra {
            Ok(StepResult::Complete) | Err(_) => break,
            _ => {}
        }
    }
}

// A search whose start equals its destination completes on the first step
// with a single path cell.
#[test]
fn start_equals_destination() {
    let mut alg = SlowAStar::new(open_grid(2, 2), (1, 0), (1, 0)).unwrap();
    assert_eq!(alg.expand_one(), Ok(StepResult::Complete));
    assert_eq!(alg.best_distance(1, 0), Some(0));
    let pic = alg.get_map_picture();
    assert_eq!(pic[1][0], CellType::OnPath);
}
