use maze_generator::maze::MazeKind;
use maze_generator::maze::algorithms::{Algorithm, generate, grid_after};
use maze_generator::maze::grid::Grid;
use maze_generator::maze::playback::Playback;
use rand::SeedableRng;
use rand::rngs::StdRng;

fn same_cells(a: &Grid, b: &Grid) -> bool {
    (0..a.height()).all(|y| (0..a.width()).all(|x| a.get(x, y) == b.get(x, y)))
}

fn playback(seed: u64) -> Playback {
    let generation = generate(MazeKind::Dungeon, Algorithm::Wilson, 12, 10, 0, &mut StdRng::seed_from_u64(seed));
    Playback::new(generation, 12, 10)
}

#[test]
fn seeking_back_shows_the_replay_up_to_the_target() {
    let mut replay = playback(6);
    let total = replay.total();
    replay.play_until(total * 3 / 4);
    replay.seek(total / 3);
    assert_eq!(replay.next_step(), total / 3);
    let expected = grid_after(12, 10, &replay.generation().steps[..total / 3]);
    assert!(same_cells(replay.grid(), &expected));
    replay.seek(total + 50);
    assert!(replay.finished());
    assert_eq!(replay.phase_name(), "Done");
    let finished = grid_after(12, 10, &replay.generation().steps);
    assert!(same_cells(replay.grid(), &finished));
}

#[test]
fn stepping_moves_one_step_and_highlights_the_last_five() {
    let mut replay = playback(2);
    assert!(replay.trail().is_empty());
    assert_eq!(replay.phase_name(), "Placing rooms");
    for _ in 0..3 {
        replay.step_once();
    }
    assert_eq!(replay.next_step(), 3);
    assert_eq!(replay.trail(), replay.generation().steps[0..3].to_vec());
    replay.play_until(10);
    assert_eq!(replay.trail(), replay.generation().steps[5..10].to_vec());
    replay.restart();
    assert_eq!(replay.next_step(), 0);
    assert!(same_cells(replay.grid(), &Grid::new(12, 10)));
    replay.skip_to_end();
    assert!(replay.trail().is_empty());
}
