use bevy_match3::{read_commands, Board, BoardCommand, BoardCommands, BoardEvents, Position};

fn pos(x: u32, y: u32) -> Position {
    Position::new(x, y)
}

fn run(board: &Board, command: BoardCommand) -> (Board, BoardEvents) {
    let mut commands = BoardCommands::new();
    commands.push(command).unwrap();
    let mut events = BoardEvents::new();
    let mut world = board.duplicate();
    read_commands(&mut commands, &mut events, &mut world);
    (world, events)
}

fn numbered_board() -> Board {
    Board::from_rows(&vec![
        vec![0, 1, 2, 3, 4],
        vec![5, 6, 7, 8, 9],
        vec![10, 11, 12, 13, 14],
        vec![15, 16, 17, 18, 19],
        vec![20, 21, 22, 23, 24],
        vec![25, 26, 27, 28, 29],
        vec![30, 31, 32, 33, 34],
    ])
    .unwrap()
}

#[test]
fn swap_gems() {
    let board = Board::from_rows(&vec![
        vec![0, 1, 2, 3, 4],
        vec![5, 6, 7, 8, 9],
        vec![10, 11, 12, 13, 14],
        vec![15, 16, 11, 18, 19],
        vec![20, 21, 11, 23, 24],
        vec![25, 26, 27, 28, 29],
        vec![30, 31, 32, 33, 34],
    ])
    .unwrap();

    let (new_board, _) = run(&board, BoardCommand::Swap(pos(1, 2), pos(2, 2)));

    assert_ne!(board.iter(), new_board.iter());
    assert_eq!(new_board.get(&pos(1, 2)).unwrap(), 12);
    assert_eq!(new_board.get(&pos(2, 2)).unwrap(), 11);
}

#[test]
fn fail_to_swap_gems() {
    let board = numbered_board();

    let (new_board, _) = run(&board, BoardCommand::Swap(pos(1, 2), pos(2, 2)));

    assert_eq!(board.iter(), new_board.iter());
    assert_eq!(new_board.get(&pos(1, 2)).unwrap(), 11);
    assert_eq!(new_board.get(&pos(2, 2)).unwrap(), 12);
}

#[test]
fn lib_pop_gem() {
    let board = numbered_board();

    let (new_board, _) = run(&board, BoardCommand::Pop(vec![pos(1, 4)]));

    assert_ne!(board.iter(), new_board.iter());
    assert_eq!(new_board.get(&pos(1, 4)).unwrap(), 16);
    assert_eq!(new_board.get(&pos(1, 3)).unwrap(), 11);
    assert_eq!(new_board.get(&pos(1, 2)).unwrap(), 6);
    assert_eq!(new_board.get(&pos(1, 1)).unwrap(), 1);
    assert!(new_board.get(&pos(1, 0)).is_some());
}

#[test]
fn pop_gems_vertical() {
    let board = numbered_board();

    let (new_board, _) = run(&board, BoardCommand::Pop(vec![pos(3, 6), pos(3, 5), pos(3, 4)]));

    assert_ne!(board.iter(), new_board.iter());
    assert_eq!(new_board.get(&pos(3, 6)).unwrap(), 18);
    assert_eq!(new_board.get(&pos(3, 5)).unwrap(), 13);
    assert_eq!(new_board.get(&pos(3, 4)).unwrap(), 8);
    assert_eq!(new_board.get(&pos(3, 3)).unwrap(), 3);
    assert!(new_board.get(&pos(3, 0)).is_some());
    assert!(new_board.get(&pos(3, 1)).is_some());
    assert!(new_board.get(&pos(3, 2)).is_some());
}

#[test]
fn pop_gems_horizontal() {
    let board = numbered_board();

    let (new_board, _) = run(&board, BoardCommand::Pop(vec![pos(0, 5), pos(1, 5), pos(2, 5)]));

    assert_ne!(board.iter(), new_board.iter());
    assert_eq!(new_board.get(&pos(0, 5)).unwrap(), 20);
    assert_eq!(new_board.get(&pos(1, 5)).unwrap(), 21);
    assert_eq!(new_board.get(&pos(2, 5)).unwrap(), 22);
    assert!(new_board.get(&pos(0, 0)).is_some());
    assert!(new_board.get(&pos(1, 0)).is_some());
    assert!(new_board.get(&pos(2, 0)).is_some());
}
