use bevy_match3::{
    lemma_board_move_symmetric, process_command, Board, BoardCommand, BoardCommands, BoardEvent, BoardEvents,
    BoardMove, ConfigError, Match3Config, Position, QueueEmpty, SwapError,
};

fn pos(x: u32, y: u32) -> Position {
    Position::new(x, y)
}

fn numbered_board() -> Board {
    Board::from_rows(&vec![
        vec![0, 1, 2, 3, 4],
        vec![5, 6, 7, 8, 9],
        vec![10, 11, 12, 13, 14],
        vec![15, 16, 17, 18, 19],
        vec![20, 21, 22, 23, 24],
        vec![25, 26, 27, 28, 29],
        vec![30, 31, 32, 33, 34],
    ])
    .unwrap()
}

fn is_full(board: &Board) -> bool {
    let (w, h) = board.dimensions();
    (0..w).all(|x| (0..h).all(|y| board.get(&pos(x, y)).is_some()))
}

#[test]
fn matches_are_at_least_three_long() {
    let board = Board::from_rows(&vec![
        vec![1, 1, 2, 2, 2],
        vec![1, 3, 3, 4, 2],
        vec![1, 5, 5, 5, 2],
        vec![6, 7, 7, 8, 8],
    ])
    .unwrap();
    let matches = board.get_matches();
    assert_eq!(matches.len(), 4);
    for i in 0..matches.len() {
        assert!(matches.get(i).positions().len() >= 3);
    }
    assert_eq!(matches.get(0).positions(), &vec![pos(2, 0), pos(3, 0), pos(4, 0)]);
    assert_eq!(matches.get(1).positions(), &vec![pos(1, 2), pos(2, 2), pos(3, 2)]);
    assert_eq!(matches.get(2).positions(), &vec![pos(0, 0), pos(0, 1), pos(0, 2)]);
    assert_eq!(matches.get(3).positions(), &vec![pos(4, 0), pos(4, 1), pos(4, 2)]);
}

#[test]
fn swap_without_match_changes_nothing() {
    let mut board = numbered_board();
    let before = board.iter();
    assert_eq!(board.swap(&pos(1, 2), &pos(2, 2)), Err(SwapError::NoMatches));
    assert_eq!(board.iter(), before);
}

#[test]
fn swap_of_missing_gem_is_refused() {
    let mut board = numbered_board();
    assert_eq!(board.swap(&pos(9, 2), &pos(2, 2)), Err(SwapError::NoGem(pos(9, 2))));
    assert_eq!(board.swap(&pos(2, 2), &pos(2, 9)), Err(SwapError::NoGem(pos(2, 9))));
    assert_eq!(board.try_swap(&pos(9, 9), &pos(2, 2)), Err(SwapError::NoGem(pos(9, 9))));
}

#[test]
fn drop_on_full_board_does_nothing() {
    let mut board = numbered_board();
    let before = board.iter();
    assert!(board.drop().is_empty());
    assert_eq!(board.iter(), before);
}

#[test]
fn fill_leaves_no_empty_cell() {
    let mut board = numbered_board();
    board.remove(&pos(0, 0));
    board.remove(&pos(3, 4));
    board.remove(&pos(4, 6));
    let spawned = board.fill();
    assert!(is_full(&board));
    assert_eq!(spawned.len(), 3);
    for (p, t) in spawned {
        assert!(t <= 34);
        assert_eq!(board.get(&p), Some(t));
    }
    assert_eq!(board.get(&pos(1, 1)), Some(6));
    assert!(board.fill().is_empty());
}

#[test]
fn clear_matches_settles_the_board() {
    let mut board = Board::from_rows(&vec![
        vec![1, 1, 1, 2],
        vec![3, 4, 5, 2],
        vec![6, 7, 8, 2],
        vec![9, 10, 11, 12],
    ])
    .unwrap();
    let mut rounds = 0;
    while !board.clear_matches(8) {
        rounds += 1;
        assert!(rounds < 1000);
    }
    assert!(board.get_matches().is_empty());
    assert!(is_full(&board));
    let mut settled = numbered_board();
    let before = settled.iter();
    assert!(settled.clear_matches(0));
    assert_eq!(settled.iter(), before);
}

#[test]
fn pop_then_drop_scenario() {
    let mut board = numbered_board();
    board.remove(&pos(1, 4));
    let moves = board.drop();
    assert_eq!(
        moves,
        vec![(pos(1, 3), pos(1, 4)), (pos(1, 2), pos(1, 3)), (pos(1, 1), pos(1, 2)), (pos(1, 0), pos(1, 1))]
    );
    assert!(board.get(&pos(1, 0)).is_none());
    assert_eq!(board.get(&pos(1, 4)), Some(16));
    assert_eq!(board.get(&pos(1, 1)), Some(1));
}

#[test]
fn one_row_of_five_is_one_match() {
    let board = Board::from_rows(&vec![
        vec![0, 1, 2, 3, 4],
        vec![5, 6, 7, 8, 9],
        vec![10, 11, 12, 13, 14],
        vec![18, 18, 18, 18, 18],
        vec![20, 21, 22, 23, 24],
        vec![25, 26, 27, 28, 29],
        vec![30, 31, 32, 33, 34],
    ])
    .unwrap();
    let matches = board.get_matches();
    assert_eq!(matches.len(), 1);
    assert_eq!(matches.get(0).positions(), &vec![pos(0, 3), pos(1, 3), pos(2, 3), pos(3, 3), pos(4, 3)]);
}

#[test]
fn board_move_is_unordered() {
    let a = pos(3, 1);
    let b = pos(3, 2);
    assert_eq!(BoardMove(a, b), BoardMove(b, a));
    assert_ne!(BoardMove(a, b), BoardMove(a, pos(4, 1)));
    let _ = lemma_board_move_symmetric;
}

#[test]
fn ragged_rows_are_refused() {
    assert!(Board::from_rows(&vec![vec![1, 2, 3], vec![4, 5]]).is_none());
    let empty = Board::from_rows(&vec![]).unwrap();
    assert_eq!(empty.dimensions(), (0, 0));
    assert!(empty.iter().is_empty());
}

#[test]
fn configuration_is_checked() {
    let mut config = Match3Config::default();
    assert_eq!(config.gem_types, 5);
    assert_eq!(config.board_dimensions, (10, 10));
    config.gem_types = 2;
    assert_eq!(Board::new_random(&config).err(), Some(ConfigError::TooFewGemTypes));
    config.gem_types = 3;
    config.board_dimensions = (0, 4);
    assert_eq!(Board::new_random(&config).err(), Some(ConfigError::EmptyBoard));
    config.board_dimensions = (6, 4);
    let board = Board::new_random(&config).unwrap();
    assert_eq!(board.dimensions(), (6, 4));
    assert!(is_full(&board));
    for (_, t) in board.iter() {
        assert!(t < 3);
    }
}

#[test]
fn queues_are_first_in_first_out() {
    let mut commands = BoardCommands::new();
    assert!(commands.pop().is_err());
    commands.push(BoardCommand::Shuffle).unwrap();
    commands.push(BoardCommand::Swap(pos(0, 0), pos(0, 1))).unwrap();
    assert!(matches!(commands.pop(), Ok(BoardCommand::Shuffle)));
    assert!(matches!(commands.pop(), Ok(BoardCommand::Swap(_, _))));
    assert!(commands.pop().is_err());
    let mut events = BoardEvents::new();
    assert_eq!(events.pop().err(), Some(QueueEmpty));
    assert!(BoardCommands::default().pop().is_err());
    assert!(BoardEvents::default().pop().is_err());
}

#[test]
fn pop_command_reports_in_order() {
    let mut board = numbered_board();
    let mut events = BoardEvents::new();
    process_command(&mut board, &mut events, BoardCommand::Pop(vec![pos(1, 4), pos(3, 6)]));
    assert!(matches!(events.pop(), Ok(BoardEvent::Popped(p)) if p == pos(1, 4)));
    assert!(matches!(events.pop(), Ok(BoardEvent::Popped(p)) if p == pos(3, 6)));
    match events.pop() {
        Ok(BoardEvent::Dropped(drops)) => {
            assert_eq!(drops.len(), 10);
            for i in 1..drops.len() {
                assert!(drops[i - 1].from.y >= drops[i].from.y);
            }
        }
        _ => panic!("expected drops"),
    }
    match events.pop() {
        Ok(BoardEvent::Spawned(spawned)) => {
            assert_eq!(spawned.len(), 2);
            assert!(spawned.iter().any(|(p, _)| *p == pos(1, 0)));
            assert!(spawned.iter().any(|(p, _)| *p == pos(3, 0)));
        }
        _ => panic!("expected spawns"),
    }
    assert_eq!(board.get(&pos(3, 6)), Some(28));
    assert!(is_full(&board));
}

#[test]
fn swap_command_reports_matches() {
    let mut board = Board::from_rows(&vec![
        vec![0, 1, 2, 3, 4],
        vec![5, 6, 7, 8, 9],
        vec![10, 11, 12, 13, 14],
        vec![15, 16, 11, 18, 19],
        vec![20, 21, 11, 23, 24],
        vec![25, 26, 27, 28, 29],
        vec![30, 31, 32, 33, 34],
    ])
    .unwrap();
    let mut events = BoardEvents::new();
    process_command(&mut board, &mut events, BoardCommand::Swap(pos(1, 2), pos(2, 2)));
    assert!(matches!(events.pop(), Ok(BoardEvent::Swapped(a, b)) if a == pos(1, 2) && b == pos(2, 2)));
    match events.pop() {
        Ok(BoardEvent::Matched(matches)) => {
            assert_eq!(matches.len(), 1);
            assert_eq!(matches.get(0).positions(), &vec![pos(2, 2), pos(2, 3), pos(2, 4)]);
        }
        _ => panic!("expected matches"),
    }
    let mut settled = numbered_board();
    process_command(&mut settled, &mut events, BoardCommand::Swap(pos(0, 0), pos(0, 1)));
    assert!(matches!(events.pop(), Ok(BoardEvent::FailedSwap(_, _))));
    assert!(events.pop().is_err());
}

#[test]
fn shuffle_with_moves_each_gem() {
    let mut board = Board::from_rows(&vec![vec![1, 2], vec![3, 4]]).unwrap();
    let targets = board.grid_positions();
    assert_eq!(targets, vec![pos(0, 0), pos(1, 0), pos(0, 1), pos(1, 1)]);
    let sources = vec![pos(1, 1), pos(1, 0), pos(0, 0), pos(0, 1)];
    let moves = board.shuffle_with(&targets, &sources);
    assert_eq!(moves, vec![(pos(1, 1), pos(0, 0)), (pos(0, 0), pos(0, 1)), (pos(0, 1), pos(1, 1))]);
    assert_eq!(board.get(&pos(0, 0)), Some(4));
    assert_eq!(board.get(&pos(1, 0)), Some(2));
    assert_eq!(board.get(&pos(0, 1)), Some(1));
    assert_eq!(board.get(&pos(1, 1)), Some(3));
}

#[test]
fn shuffle_command_keeps_the_gems() {
    let mut board = numbered_board();
    let mut events = BoardEvents::new();
    process_command(&mut board, &mut events, BoardCommand::Shuffle);
    let mut types: Vec<u32> = board.iter().into_iter().map(|(_, t)| t).collect();
    types.sort();
    assert_eq!(types, (0..35).collect::<Vec<u32>>());
    match events.pop() {
        Ok(BoardEvent::Shuffled(moves)) => {
            assert!(!moves.is_empty());
            for (from, to) in moves {
                assert_ne!(from, to);
                let original = from.y * 5 + from.x;
                assert_eq!(board.get(&to), Some(original));
            }
        }
        _ => panic!("expected a shuffle"),
    }
    assert!(events.pop().is_err());
}

#[test]
fn matching_moves_on_a_dead_board() {
    let board = numbered_board();
    assert!(board.get_matching_moves().is_empty());
}

#[test]
fn board_as_text() {
    let board = Board::from_rows(&vec![vec![1, 2, 30], vec![4, 5, 6]]).unwrap();
    assert_eq!(board.to_string(), "[1, 2, 30]\n[4, 5, 6]\n");
}

#[test]
fn clear_round_clears_once() {
    let mut board = Board::from_rows(&vec![
        vec![1, 1, 1, 2],
        vec![3, 4, 5, 6],
        vec![7, 8, 9, 10],
    ])
    .unwrap();
    assert!(board.clear_round());
    assert!(is_full(&board));
    assert_eq!(board.get(&pos(3, 0)), Some(2));
    assert_eq!(board.get(&pos(0, 1)), Some(3));
    for x in 0..3 {
        let t = board.get(&pos(x, 0)).unwrap();
        assert!((1..=10).contains(&t));
    }
    let mut settled = numbered_board();
    let before = settled.iter();
    assert!(!settled.clear_round());
    assert_eq!(settled.iter(), before);
}

#[test]
fn shuffle_moves_form_a_cycle_of_cells() {
    let mut board = numbered_board();
    let moves = board.shuffle();
    let mut from: Vec<Position> = moves.iter().map(|m| m.0).collect();
    let mut to: Vec<Position> = moves.iter().map(|m| m.1).collect();
    from.sort_by_key(|p| (p.y, p.x));
    to.sort_by_key(|p| (p.y, p.x));
    assert_eq!(from, to);
}
