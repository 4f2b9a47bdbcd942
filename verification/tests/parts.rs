use maze_generator::maze::MazeKind;
use maze_generator::maze::algorithms::braid::braid;
use maze_generator::maze::algorithms::disjoint_sets::DisjointSets;
use maze_generator::maze::algorithms::division::open_field;
use maze_generator::maze::algorithms::dungeon::{
    NO_REGION, Room, connect_regions, label_regions, place_rooms, prune_dead_ends,
};
use maze_generator::maze::algorithms::{Algorithm, Lattice, floor, grid_after, wall_between, with_start_and_end};
use maze_generator::maze::grid::{Cell, Grid, Step, neighbours};
use maze_generator::seed::hash_seed;
use maze_generator::tiles::{Tile, png_for};
use rand::SeedableRng;
use rand::rngs::StdRng;

#[test]
fn union_find_joins_groups() {
    let mut sets = DisjointSets::new(5);
    assert_ne!(sets.find(0), sets.find(1));
    assert!(sets.merge(0, 1));
    assert!(sets.merge(3, 4));
    assert_eq!(sets.find(0), sets.find(1));
    assert_ne!(sets.find(1), sets.find(3));
    assert!(sets.merge(1, 4));
    assert_eq!(sets.find(0), sets.find(3));
    assert!(!sets.merge(0, 4));
    assert_ne!(sets.find(2), sets.find(0));
}

#[test]
fn a_new_grid_is_all_wall() {
    let grid = Grid::new(3, 2);
    assert_eq!((grid.width(), grid.height()), (7, 5));
    for y in 0..5 {
        for x in 0..7 {
            assert_eq!(grid.get(x, y), Cell::Wall);
        }
    }
}

#[test]
fn apply_never_paints_over_start_or_end() {
    let mut grid = Grid::new(2, 2);
    grid.apply(Step { x: 1, y: 1, cell: Cell::Start });
    grid.apply(Step { x: 1, y: 1, cell: Cell::Wall });
    assert_eq!(grid.get(1, 1), Cell::Start);
    grid.apply(Step { x: 3, y: 3, cell: Cell::End });
    grid.apply(Step { x: 3, y: 3, cell: Cell::Floor });
    assert_eq!(grid.get(3, 3), Cell::End);
    grid.apply(Step { x: 2, y: 1, cell: Cell::Door });
    assert_eq!(grid.get(2, 1), Cell::Door);
    grid.reset();
    assert_eq!(grid.get(1, 1), Cell::Wall);
}

#[test]
fn find_returns_the_first_square_row_by_row() {
    let mut grid = Grid::new(3, 3);
    grid.set(5, 1, Cell::Door);
    grid.set(1, 3, Cell::Door);
    assert_eq!(grid.find(Cell::Door), Some((5, 1)));
    assert_eq!(grid.find(Cell::End), None);
}

#[test]
fn neighbours_come_left_up_right_down() {
    assert_eq!(neighbours(1, 1, 3, 3), vec![(0, 1), (1, 0), (2, 1), (1, 2)]);
    assert_eq!(neighbours(0, 0, 3, 3), vec![(1, 0), (0, 1)]);
    assert_eq!(neighbours(2, 2, 3, 3), vec![(1, 2), (2, 1)]);
}

#[test]
fn farthest_square_of_an_l_shaped_corridor() {
    let mut grid = Grid::new(3, 3);
    for (x, y) in [(1, 1), (2, 1), (3, 1), (4, 1), (5, 1), (5, 2), (5, 3)] {
        grid.set(x, y, Cell::Floor);
    }
    assert_eq!(grid.farthest_walkable_from(1, 1), (5, 3));
    assert_eq!(grid.farthest_walkable_from(5, 3), (1, 1));
}

#[test]
fn corridor_and_wall_steps_land_on_squares() {
    assert_eq!(floor(2, 3), Step { x: 5, y: 7, cell: Cell::Floor });
    assert_eq!(wall_between(2, 3, 3, 3), Step { x: 6, y: 7, cell: Cell::Floor });
    assert_eq!(wall_between(1, 0, 1, 1), Step { x: 3, y: 2, cell: Cell::Floor });
}

#[test]
fn an_open_lattice_lists_every_corridor() {
    let mut lattice = Lattice::open(3, 2);
    assert_eq!(lattice.corridors().len(), 6);
    lattice.block(1, 0);
    assert!(lattice.is_blocked(1, 0));
    assert_eq!(lattice.corridors(), vec![(0, 0), (2, 0), (0, 1), (1, 1), (2, 1)]);
    assert_eq!(lattice.neighbours(1, 1), vec![(0, 1), (2, 1)]);
    assert_eq!(lattice.pockets().len(), 1);
}

#[test]
fn the_open_field_opens_every_corridor_and_wall_between() {
    let lattice = Lattice::open(2, 2);
    let field = open_field(&lattice);
    // Four corridors, then the four walls between them.
    assert_eq!(field.len(), 8);
    let grid = grid_after(2, 2, &field);
    for (x, y) in [(1, 1), (3, 1), (1, 3), (3, 3), (2, 1), (1, 2), (3, 2), (2, 3)] {
        assert_eq!(grid.get(x, y), Cell::Floor);
    }
    assert_eq!(grid.get(2, 2), Cell::Wall);
}

#[test]
fn every_carver_floors_every_corridor() {
    let lattice = Lattice::open(9, 7);
    for algorithm in Algorithm::ALL {
        let steps = algorithm.carve(&lattice, &mut StdRng::seed_from_u64(21));
        let grid = grid_after(9, 7, &steps);
        for y in 0..7 {
            for x in 0..9 {
                assert!(grid.walkable(2 * x + 1, 2 * y + 1), "{algorithm:?} ({x}, {y})");
            }
        }
    }
}

#[test]
fn start_and_end_go_in_front() {
    let carving = vec![floor(0, 0), floor(1, 0), wall_between(0, 0, 1, 0)];
    let steps = with_start_and_end(carving.clone(), 2, 1, (1, 1));
    assert_eq!(steps[0], Step { x: 1, y: 1, cell: Cell::Start });
    assert_eq!(steps[1], Step { x: 3, y: 1, cell: Cell::End });
    assert_eq!(&steps[2..], &carving[..]);
}

#[test]
fn braiding_zero_knocks_nothing_through() {
    let mut grid = grid_after(2, 1, &[floor(0, 0), floor(1, 0)]);
    let steps = braid(&mut grid, 0, &mut StdRng::seed_from_u64(1));
    assert!(steps.is_empty());
}

#[test]
fn braiding_always_fixes_a_dead_end_with_a_wall_to_knock() {
    // Two corridors, joined: each is a dead end with no other inner wall,
    // so nothing can be knocked through.
    let mut grid = grid_after(2, 1, &[floor(0, 0), floor(1, 0), wall_between(0, 0, 1, 0)]);
    assert!(braid(&mut grid, 1000, &mut StdRng::seed_from_u64(1)).is_empty());
    // An L of three corridors in a 2x2 lattice: the two ends are dead ends,
    // and each has the wall to the fourth corridor to knock through.
    let carving = [floor(0, 0), floor(1, 0), floor(0, 1), floor(1, 1), wall_between(0, 0, 1, 0), wall_between(0, 0, 0, 1)];
    let mut grid = grid_after(2, 2, &carving);
    let steps = braid(&mut grid, 1000, &mut StdRng::seed_from_u64(1));
    assert!(!steps.is_empty());
    for step in &steps {
        assert_eq!(step.cell, Cell::Floor);
        assert!((step.x + step.y) % 2 == 1);
    }
}

#[test]
fn rooms_know_their_squares() {
    let room = Room { x: 1, y: 2, width: 2, height: 3 };
    assert_eq!(room.bounds(), (3, 5, 5, 9));
    assert_eq!(room.centre(), (4, 7));
    let squares = room.squares();
    assert_eq!(squares.len(), 15);
    assert_eq!(squares[0], (3, 5));
    assert_eq!(squares[1], (4, 5));
    assert_eq!(squares[3], (3, 6));
    assert_eq!(*squares.last().unwrap(), (5, 9));
}

#[test]
fn rooms_keep_a_corridor_between_them() {
    let a = Room { x: 0, y: 0, width: 2, height: 2 };
    assert!(a.too_close(&Room { x: 2, y: 0, width: 2, height: 2 }));
    assert!(!a.too_close(&Room { x: 3, y: 0, width: 2, height: 2 }));
    assert!(a.too_close(&Room { x: 1, y: 1, width: 2, height: 2 }));
    assert!(!a.too_close(&Room { x: 0, y: 3, width: 4, height: 2 }));
}

#[test]
fn placed_rooms_fit_and_stay_apart() {
    for seed in 0..20 {
        let rooms = place_rooms(30, 20, &mut StdRng::seed_from_u64(seed));
        assert!(rooms.len() <= 30 * 20 / 4);
        assert!(!rooms.is_empty());
        for (i, a) in rooms.iter().enumerate() {
            assert!((2..=4).contains(&a.width) && (2..=4).contains(&a.height));
            assert!(a.x + a.width <= 30 && a.y + a.height <= 20);
            for b in &rooms[i + 1..] {
                assert!(!a.too_close(b));
            }
        }
    }
    assert!(place_rooms(1, 3, &mut StdRng::seed_from_u64(0)).is_empty());
}

#[test]
fn regions_are_the_connected_pieces() {
    let grid = grid_after(3, 1, &[floor(0, 0), floor(1, 0), wall_between(0, 0, 1, 0), floor(2, 0)]);
    let (regions, count) = label_regions(&grid);
    let w = grid.width();
    assert_eq!(count, 2);
    assert_eq!(regions[w + 1], 0);
    assert_eq!(regions[w + 2], 0);
    assert_eq!(regions[w + 3], 0);
    assert_eq!(regions[w + 4], NO_REGION);
    assert_eq!(regions[w + 5], 1);
    assert_eq!(regions[0], NO_REGION);
}

#[test]
fn one_door_joins_two_regions() {
    let mut grid = grid_after(2, 1, &[floor(0, 0), floor(1, 0)]);
    let doors = connect_regions(&mut grid, &mut StdRng::seed_from_u64(8));
    assert_eq!(doors, vec![Step { x: 2, y: 1, cell: Cell::Door }]);
    assert_eq!(grid.get(2, 1), Cell::Door);
}

#[test]
fn doors_join_every_region_without_spare_ones() {
    // Four isolated corridors in a 2x2 lattice: three doors join them.
    let mut grid = grid_after(2, 2, &[floor(0, 0), floor(1, 0), floor(0, 1), floor(1, 1)]);
    let doors = connect_regions(&mut grid, &mut StdRng::seed_from_u64(8));
    assert_eq!(doors.len(), 3);
    assert_eq!(label_regions(&grid).1, 1);
}

#[test]
fn dead_ends_outside_rooms_are_filled_in() {
    // A room of one corridor with a corridor leading off it to nowhere.
    let room = Room { x: 0, y: 0, width: 1, height: 1 };
    let mut grid = grid_after(3, 1, &[floor(0, 0), floor(1, 0), floor(2, 0), wall_between(0, 0, 1, 0), wall_between(1, 0, 2, 0)]);
    let steps = prune_dead_ends(&mut grid, &[room]);
    assert_eq!(steps.len(), 4);
    assert!(steps.iter().all(|step| step.cell == Cell::Wall));
    assert_eq!(grid.get(1, 1), Cell::Floor);
    for x in 2..6 {
        assert_eq!(grid.get(x, 1), Cell::Wall);
    }
}

#[test]
fn pruning_keeps_what_remains_in_one_piece() {
    // A ring round a 2x2 block of corridors, with a spur off to the right.
    let mut grid = grid_after(
        3,
        2,
        &[
            floor(0, 0),
            floor(1, 0),
            floor(0, 1),
            floor(1, 1),
            floor(2, 0),
            wall_between(0, 0, 1, 0),
            wall_between(0, 1, 1, 1),
            wall_between(0, 0, 0, 1),
            wall_between(1, 0, 1, 1),
            wall_between(1, 0, 2, 0),
        ],
    );
    let steps = prune_dead_ends(&mut grid, &[]);
    assert_eq!(steps, vec![Step { x: 5, y: 1, cell: Cell::Wall }, Step { x: 4, y: 1, cell: Cell::Wall }]);
    let mut walkable = 0;
    for y in 0..grid.height() {
        for x in 0..grid.width() {
            if grid.walkable(x, y) {
                walkable += 1;
            }
        }
    }
    assert_eq!(walkable, 8);
    assert_eq!(label_regions(&grid).1, 1);
}

#[test]
fn seeds_hash_with_fnv1a() {
    assert_eq!(hash_seed(""), 0xcbf2_9ce4_8422_2325);
    assert_eq!(hash_seed("a"), 0xaf63_dc4c_8601_ec8c);
    assert_eq!(hash_seed("foobar"), 0x85944171f73967e8);
}

#[test]
fn probes_are_drawn_as_floor() {
    assert_eq!(png_for(Cell::Probe), Tile::Floor);
    assert_eq!(png_for(Cell::Floor), Tile::Floor);
    assert_eq!(png_for(Cell::Wall), Tile::Wall);
    assert_eq!(png_for(Cell::Door), Tile::Door);
    assert_eq!(png_for(Cell::Start), Tile::Start);
    assert_eq!(png_for(Cell::End), Tile::End);
}

#[test]
fn kinds_and_algorithms_have_names() {
    assert_eq!(MazeKind::Perfect.label(), "Perfect (no loops)");
    assert_eq!(MazeKind::Dungeon.description(), "Rooms joined by doors and winding corridors; dead-end corridors are removed.");
    assert_eq!(Algorithm::ALL.len(), 10);
    assert_eq!(Algorithm::Backtracker.label(), "Recursive backtracker");
    assert_eq!(Algorithm::Division.label(), "Recursive division");
}

#[test]
fn pruning_fills_dead_ends_round_by_round() {
    // A straight corridor of three squares: both ends go in the first
    // round, the middle, now alone, in the second.
    let mut grid = Grid::new(2, 1);
    grid.set(1, 1, Cell::Floor);
    grid.set(2, 1, Cell::Floor);
    grid.set(3, 1, Cell::Floor);
    let steps = prune_dead_ends(&mut grid, &[]);
    let squares: Vec<(usize, usize, Cell)> = steps.iter().map(|s| (s.x, s.y, s.cell)).collect();
    assert_eq!(squares, vec![(1, 1, Cell::Wall), (3, 1, Cell::Wall), (2, 1, Cell::Wall)]);
    for y in 0..3 {
        for x in 0..5 {
            assert_eq!(grid.get(x, y), Cell::Wall);
        }
    }
}
