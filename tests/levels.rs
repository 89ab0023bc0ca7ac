use game::cli::CliArgs;
use game::grid::GridCoords;
use game::index::GridIndex;
use game::play::{next_frame, GameState};

fn c(x: i32, y: i32) -> GridCoords {
    GridCoords { x, y }
}

#[test]
fn index_groups_cells_by_level() {
    let pairs = vec![(c(0, 0), 7), (c(1, 0), 9), (c(2, 0), 7), (c(0, 0), 7)];
    let index = GridIndex::from_pairs(&pairs);
    let mut seven = index.cells_of(7).unwrap().clone();
    seven.sort_by_key(|p| (p.x, p.y));
    seven.dedup();
    assert_eq!(seven, vec![c(0, 0), c(2, 0)]);
    assert_eq!(index.cells_of(9).unwrap(), &vec![c(1, 0)]);
    assert!(index.cells_of(3).is_none());
}

#[test]
fn index_insert_adds_to_a_level() {
    let mut index = GridIndex::new();
    assert!(index.cells_of(1).is_none());
    index.insert(1, c(4, 5));
    index.insert(2, c(0, 0));
    index.insert(1, c(6, 5));
    assert_eq!(index.cells_of(1).unwrap(), &vec![c(4, 5), c(6, 5)]);
    assert_eq!(index.cells_of(2).unwrap(), &vec![c(0, 0)]);
}

#[test]
fn animation_steps_and_loops() {
    assert_eq!(next_frame(0, 0, 10), 1);
    assert_eq!(next_frame(9, 0, 10), 10);
    assert_eq!(next_frame(10, 0, 10), 0);
    assert_eq!(next_frame(12, 3, 10), 3);
    assert_eq!(next_frame(0, 0, 0), 0);
}

#[test]
fn pause_key_swaps_states() {
    assert_eq!(GameState::Running.toggled(), GameState::Paused);
    assert_eq!(GameState::Paused.toggled(), GameState::Running);
}

#[test]
fn cli_args_default_has_no_address() {
    let args = CliArgs::default();
    assert_eq!(args.listen_address, None);
    let args = CliArgs { listen_address: Some("127.0.0.1:4000".to_string()) };
    assert_eq!(args.clone(), args);
}
