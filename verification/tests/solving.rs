use maze_generator::maze::MazeKind;
use maze_generator::maze::algorithms::{Algorithm, generate};
use maze_generator::maze::grid::{Cell, Grid};
use maze_generator::maze::solve::solve;
use maze_generator::maze::stats::measure;
use rand::SeedableRng;
use rand::rngs::StdRng;

fn finished(kind: MazeKind, algorithm: Algorithm, seed: u64) -> Grid {
    let generation = generate(kind, algorithm, 20, 15, 500, &mut StdRng::seed_from_u64(seed));
    let mut grid = Grid::new(20, 15);
    for step in generation.steps {
        grid.apply(step);
    }
    grid
}

#[test]
fn path_runs_from_start_to_end_through_adjacent_walkable_squares() {
    for kind in MazeKind::ALL {
        for algorithm in Algorithm::ALL {
            let grid = finished(kind, algorithm, 3);
            let solution = solve(&grid).expect("every generated maze is solvable");
            let path = &solution.path;
            assert_eq!(path.first(), grid.find(Cell::Start).as_ref());
            assert_eq!(path.last(), grid.find(Cell::End).as_ref());
            for pair in path.windows(2) {
                let ((ax, ay), (bx, by)) = (pair[0], pair[1]);
                assert_eq!(ax.abs_diff(bx) + ay.abs_diff(by), 1, "{kind:?} {algorithm:?}");
            }
            assert!(path.iter().all(|&(x, y)| grid.walkable(x, y)));
        }
    }
}

#[test]
fn path_is_as_short_as_the_flood_says() {
    let grid = finished(MazeKind::Imperfect, Algorithm::Kruskal, 11);
    let solution = solve(&grid).unwrap();
    let end = grid.find(Cell::End).unwrap();
    let end_distance = solution
        .flood
        .iter()
        .find(|&&(x, y, _)| (x, y) == end)
        .map(|&(_, _, d)| d)
        .unwrap();
    assert_eq!(solution.path.len(), end_distance + 1);
    assert!(solution.flood.windows(2).all(|pair| pair[0].2 <= pair[1].2));
}

#[test]
fn no_route_means_no_solution() {
    let mut grid = Grid::new(3, 1);
    grid.set(1, 1, Cell::Start);
    grid.set(5, 1, Cell::End);
    assert!(solve(&grid).is_none());
}

#[test]
fn a_straight_corridor_is_solved_end_to_end() {
    let mut grid = Grid::new(3, 1);
    for x in 1..6 {
        grid.set(x, 1, Cell::Floor);
    }
    grid.set(1, 1, Cell::Start);
    grid.set(5, 1, Cell::End);
    let solution = solve(&grid).unwrap();
    assert_eq!(solution.path, vec![(1, 1), (2, 1), (3, 1), (4, 1), (5, 1)]);
    assert_eq!(solution.max_distance, 4);
    assert_eq!(solution.flood[0], (1, 1, 0));
    assert_eq!(solution.flood.len(), 5);
}

#[test]
fn no_start_means_no_solution() {
    let mut grid = Grid::new(2, 1);
    grid.set(1, 1, Cell::Floor);
    grid.set(3, 1, Cell::End);
    assert!(solve(&grid).is_none());
}

fn measured(kind: MazeKind, braiding: u32) -> maze_generator::maze::stats::Stats {
    let generation = generate(kind, Algorithm::Backtracker, 20, 15, braiding, &mut StdRng::seed_from_u64(5));
    let mut grid = Grid::new(20, 15);
    for step in generation.steps {
        grid.apply(step);
    }
    measure(&grid)
}

#[test]
fn perfect_mazes_have_no_loops() {
    let stats = measured(MazeKind::Perfect, 0);
    assert_eq!(stats.loops, 0);
    assert!(stats.dead_ends > 0);
    assert_eq!(stats.doors, 0);
}

#[test]
fn braiding_every_dead_end_creates_loops() {
    let stats = measured(MazeKind::Imperfect, 1000);
    assert!(stats.loops > 0);
}

#[test]
fn stats_of_a_small_plus_shape() {
    // A plus: the centre square has four ways out, the arms one each.
    let mut grid = Grid::new(2, 2);
    for (x, y) in [(2, 1), (1, 2), (2, 2), (3, 2), (2, 3)] {
        grid.set(x, y, Cell::Floor);
    }
    grid.set(3, 2, Cell::Door);
    let stats = measure(&grid);
    assert_eq!(stats.walkable, 5);
    assert_eq!(stats.dead_ends, 4);
    assert_eq!(stats.junctions, 1);
    assert_eq!(stats.doors, 1);
    assert_eq!(stats.loops, 0);
}

#[test]
fn stats_count_one_loop_for_a_ring() {
    let mut grid = Grid::new(2, 2);
    for (x, y) in [(1, 1), (2, 1), (3, 1), (1, 2), (3, 2), (1, 3), (2, 3), (3, 3)] {
        grid.set(x, y, Cell::Floor);
    }
    let stats = measure(&grid);
    assert_eq!(stats.walkable, 8);
    assert_eq!(stats.loops, 1);
    assert_eq!(stats.dead_ends, 0);
    assert_eq!(stats.junctions, 0);
}

#[test]
fn stats_of_an_all_wall_grid() {
    // No squares, no edges and no pieces: no cycle.
    let stats = measure(&Grid::new(4, 3));
    assert_eq!(stats.walkable, 0);
    assert_eq!(stats.loops, 0);
    let default = maze_generator::maze::stats::Stats::default();
    assert_eq!(default.walkable + default.dead_ends + default.junctions + default.loops + default.doors, 0);
}

#[test]
fn stats_count_the_cycles_of_every_piece() {
    // Two separate two-by-two blocks: each is one cycle, so two in all.
    let mut grid = Grid::new(3, 2);
    for (x, y) in [(1, 1), (2, 1), (1, 2), (2, 2), (4, 1), (5, 1), (4, 2), (5, 2)] {
        grid.set(x, y, Cell::Floor);
    }
    let stats = measure(&grid);
    assert_eq!(stats.walkable, 8);
    assert_eq!(stats.loops, 2);
}
