use maze_generator::maze::MazeKind;
use maze_generator::maze::algorithms::{Algorithm, generate, grid_after};
use maze_generator::maze::grid::{Cell, Grid, neighbours};
use rand::SeedableRng;
use rand::rngs::StdRng;

const SIZES: [(usize, usize); 3] = [(5, 5), (20, 15), (60, 45)];

fn any_rng() -> StdRng {
    StdRng::from_rng(&mut rand::rng())
}

fn count_cells(grid: &Grid, wanted: impl Fn(Cell) -> bool) -> usize {
    let mut count = 0;
    for y in 0..grid.height() {
        for x in 0..grid.width() {
            if wanted(grid.get(x, y)) {
                count += 1;
            }
        }
    }
    count
}

fn walkable_count(grid: &Grid) -> usize {
    count_cells(grid, |cell| cell != Cell::Wall)
}

fn reachable_from(grid: &Grid, start: (usize, usize)) -> usize {
    let (w, h) = (grid.width(), grid.height());
    let mut seen = vec![false; w * h];
    let mut stack = vec![start];
    seen[start.1 * w + start.0] = true;
    let mut count = 0;
    while let Some((x, y)) = stack.pop() {
        count += 1;
        for (nx, ny) in neighbours(x, y, w, h) {
            if grid.walkable(nx, ny) && !seen[ny * w + nx] {
                seen[ny * w + nx] = true;
                stack.push((nx, ny));
            }
        }
    }
    count
}

fn find_cell(grid: &Grid, wanted: Cell) -> (usize, usize) {
    for y in 0..grid.height() {
        for x in 0..grid.width() {
            if grid.get(x, y) == wanted {
                return (x, y);
            }
        }
    }
    panic!("no {wanted:?} in grid");
}

#[test]
fn steps_start_with_start_and_end() {
    for kind in MazeKind::ALL {
        let steps = generate(kind, Algorithm::Backtracker, 20, 15, 500, &mut any_rng()).steps;
        assert_eq!(steps[0].cell, Cell::Start);
        assert_eq!(steps[1].cell, Cell::End);
    }
}

#[test]
fn perfect_mazes_are_spanning_trees() {
    for algorithm in Algorithm::ALL {
        for (cx, cy) in SIZES {
            let steps = generate(MazeKind::Perfect, algorithm, cx, cy, 0, &mut any_rng()).steps;
            let grid = grid_after(cx, cy, &steps);
            // A tree over n corridors opens exactly n - 1 walls.
            assert_eq!(walkable_count(&grid), 2 * cx * cy - 1, "{algorithm:?} {cx}x{cy}");
            assert_eq!(reachable_from(&grid, (1, 1)), walkable_count(&grid));
        }
    }
}

#[test]
fn imperfect_mazes_have_loops_and_stay_connected() {
    for algorithm in Algorithm::ALL {
        for (cx, cy) in SIZES {
            let steps = generate(MazeKind::Imperfect, algorithm, cx, cy, 1000, &mut any_rng()).steps;
            let grid = grid_after(cx, cy, &steps);
            assert!(walkable_count(&grid) > 2 * cx * cy - 1, "{algorithm:?} {cx}x{cy}");
            assert_eq!(reachable_from(&grid, (1, 1)), walkable_count(&grid));
        }
    }
}

#[test]
fn dungeons_are_connected_through_doors() {
    for algorithm in Algorithm::ALL {
        for (cx, cy) in SIZES {
            let steps = generate(MazeKind::Dungeon, algorithm, cx, cy, 0, &mut any_rng()).steps;
            let grid = grid_after(cx, cy, &steps);
            let start = find_cell(&grid, Cell::Start);
            assert_eq!(reachable_from(&grid, start), walkable_count(&grid), "{algorithm:?} {cx}x{cy}");
            if cx >= 20 {
                let doors = count_cells(&grid, |cell| cell == Cell::Door);
                assert!(doors >= 1, "{algorithm:?} {cx}x{cy}");
            }
        }
    }
}

#[test]
fn start_and_end_stay_visible_during_the_replay() {
    for kind in MazeKind::ALL {
        for algorithm in Algorithm::ALL {
            let generation = generate(kind, algorithm, 12, 9, 700, &mut StdRng::seed_from_u64(17));
            let start = (generation.steps[0].x, generation.steps[0].y);
            let end = (generation.steps[1].x, generation.steps[1].y);
            let mut grid = Grid::new(12, 9);
            for (i, step) in generation.steps.iter().enumerate() {
                grid.apply(*step);
                assert_eq!(grid.get(start.0, start.1), Cell::Start, "{kind:?} {algorithm:?} step {i}");
                if i >= 1 && end != start {
                    assert_eq!(grid.get(end.0, end.1), Cell::End, "{kind:?} {algorithm:?} step {i}");
                }
            }
        }
    }
}

#[test]
fn perfect_and_imperfect_mazes_start_at_the_first_corridor() {
    for kind in [MazeKind::Perfect, MazeKind::Imperfect] {
        let steps = generate(kind, Algorithm::Prim, 8, 8, 300, &mut StdRng::seed_from_u64(2)).steps;
        assert_eq!((steps[0].x, steps[0].y), (1, 1));
    }
}

#[test]
fn end_is_the_farthest_square_from_start() {
    let generation = generate(MazeKind::Perfect, Algorithm::Kruskal, 15, 10, 0, &mut StdRng::seed_from_u64(4));
    let grid = grid_after(15, 10, &generation.steps);
    let start = (generation.steps[0].x, generation.steps[0].y);
    let end = (generation.steps[1].x, generation.steps[1].y);
    let flood = grid.flood(start.0, start.1);
    let deepest = flood.order.iter().map(|&(_, _, d)| d).max().unwrap();
    assert_eq!(flood.distance[end.1 * grid.width() + end.0], deepest);
}

#[test]
fn braiding_zero_adds_nothing_to_the_carving() {
    let perfect = generate(MazeKind::Perfect, Algorithm::Backtracker, 10, 10, 0, &mut StdRng::seed_from_u64(9));
    let imperfect = generate(MazeKind::Imperfect, Algorithm::Backtracker, 10, 10, 0, &mut StdRng::seed_from_u64(9));
    assert_eq!(perfect.steps, imperfect.steps);
}

#[test]
fn the_same_seed_gives_the_same_maze() {
    for kind in MazeKind::ALL {
        for algorithm in Algorithm::ALL {
            let a = generate(kind, algorithm, 14, 11, 400, &mut StdRng::seed_from_u64(77)).steps;
            let b = generate(kind, algorithm, 14, 11, 400, &mut StdRng::seed_from_u64(77)).steps;
            assert_eq!(a, b, "{kind:?} {algorithm:?}");
        }
    }
}

#[test]
fn different_seeds_give_different_mazes() {
    for algorithm in Algorithm::ALL {
        let a = generate(MazeKind::Perfect, algorithm, 14, 11, 0, &mut StdRng::seed_from_u64(1)).steps;
        let b = generate(MazeKind::Perfect, algorithm, 14, 11, 0, &mut StdRng::seed_from_u64(2)).steps;
        assert_ne!(a, b, "{algorithm:?}");
    }
}

#[test]
fn phases_name_what_is_happening() {
    let generation = generate(MazeKind::Dungeon, Algorithm::Division, 20, 15, 0, &mut StdRng::seed_from_u64(3));
    let names: Vec<&str> = generation.phases.iter().map(|phase| phase.name).collect();
    assert_eq!(
        names,
        vec![
            "Placing rooms",
            "Clearing the field",
            "Dividing chambers",
            "Opening doors",
            "Removing dead ends"
        ]
    );
    assert_eq!(generation.phase_at(0).unwrap().name, "Placing rooms");
    assert!(generation.phase_at(generation.steps.len()).is_none());
    let last = generation.phases.last().unwrap();
    if last.start < generation.steps.len() {
        assert_eq!(generation.phase_at(last.start).unwrap().name, "Removing dead ends");
    }
    for pair in generation.phases.windows(2) {
        assert!(pair[0].start <= pair[1].start);
    }
}
