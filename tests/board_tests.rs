use bevy_match3::{Board, BoardMove, Position};

fn board_of(rows: Vec<Vec<u32>>) -> Board {
    Board::from_rows(&rows).unwrap()
}

fn pos(x: u32, y: u32) -> Position {
    Position::new(x, y)
}

#[test]
fn board_creation() {
    let board = board_of(vec![
        vec![0, 1, 2, 3, 4],
        vec![5, 6, 7, 8, 9],
        vec![10, 11, 12, 13, 14],
        vec![15, 16, 17, 18, 19],
        vec![20, 21, 22, 23, 24],
        vec![25, 26, 27, 28, 29],
        vec![30, 31, 32, 33, 34],
    ]);

    assert_eq!(board.dimensions(), (5, 7));
    assert_eq!(board.get(&pos(0, 0)).unwrap(), 0);
    assert_eq!(board.get(&pos(1, 1)).unwrap(), 6);
    assert_eq!(board.get(&pos(4, 2)).unwrap(), 14);
    assert_eq!(board.get(&pos(2, 3)).unwrap(), 17);
    assert_eq!(board.get(&pos(0, 4)).unwrap(), 20);
    assert_eq!(board.get(&pos(4, 6)).unwrap(), 34);
}

#[test]
fn check_horizontal_matches() {
    let board = board_of(vec![
        vec![0, 1, 2, 3, 4],
        vec![5, 6, 7, 3, 9],
        vec![10, 11, 12, 3, 14],
        vec![15, 16, 12, 18, 19],
        vec![20, 26, 12, 23, 24],
        vec![25, 26, 27, 28, 24],
        vec![30, 26, 32, 33, 24],
    ]);

    let matches = board.get_matches();

    assert_eq!(matches.len(), 4);

    let without_duplicates = matches.without_duplicates();

    assert!(without_duplicates.contains(&pos(2, 2)));
    assert!(without_duplicates.contains(&pos(2, 3)));
    assert!(without_duplicates.contains(&pos(2, 4)));
    assert!(without_duplicates.contains(&pos(3, 0)));
    assert!(without_duplicates.contains(&pos(3, 1)));
    assert!(without_duplicates.contains(&pos(3, 2)));
    assert!(without_duplicates.contains(&pos(1, 4)));
    assert!(without_duplicates.contains(&pos(1, 5)));
    assert!(without_duplicates.contains(&pos(1, 6)));
    assert!(without_duplicates.contains(&pos(4, 4)));
    assert!(without_duplicates.contains(&pos(4, 5)));
    assert!(without_duplicates.contains(&pos(4, 6)));
}

#[test]
fn check_vertical_matches() {
    let board = board_of(vec![
        vec![0, 3, 3, 3, 4],
        vec![5, 6, 7, 8, 9],
        vec![11, 11, 11, 13, 14],
        vec![15, 16, 17, 18, 19],
        vec![20, 21, 22, 23, 24],
        vec![25, 26, 29, 29, 29],
        vec![30, 30, 30, 33, 34],
    ]);

    let matches = board.get_matches();

    assert_eq!(matches.len(), 4);

    let without_duplicates = matches.without_duplicates();

    assert!(without_duplicates.contains(&pos(1, 0)));
    assert!(without_duplicates.contains(&pos(2, 0)));
    assert!(without_duplicates.contains(&pos(3, 0)));
    assert!(without_duplicates.contains(&pos(0, 2)));
    assert!(without_duplicates.contains(&pos(1, 2)));
    assert!(without_duplicates.contains(&pos(2, 2)));
    assert!(without_duplicates.contains(&pos(2, 5)));
    assert!(without_duplicates.contains(&pos(3, 5)));
    assert!(without_duplicates.contains(&pos(4, 5)));
    assert!(without_duplicates.contains(&pos(0, 6)));
    assert!(without_duplicates.contains(&pos(1, 6)));
    assert!(without_duplicates.contains(&pos(2, 6)));
}

#[test]
fn check_both_directions_matches() {
    let board = board_of(vec![
        vec![0, 1, 2, 3, 4],
        vec![5, 6, 7, 8, 9],
        vec![11, 11, 11, 8, 14],
        vec![15, 16, 17, 8, 19],
        vec![20, 21, 22, 23, 24],
        vec![20, 26, 29, 29, 29],
        vec![20, 31, 32, 33, 34],
    ]);

    let matches = board.get_matches();

    assert_eq!(matches.len(), 4);

    let without_duplicates = matches.without_duplicates();

    assert!(without_duplicates.contains(&pos(3, 1)));
    assert!(without_duplicates.contains(&pos(3, 2)));
    assert!(without_duplicates.contains(&pos(3, 3)));
    assert!(without_duplicates.contains(&pos(0, 2)));
    assert!(without_duplicates.contains(&pos(1, 2)));
    assert!(without_duplicates.contains(&pos(2, 2)));
    assert!(without_duplicates.contains(&pos(0, 4)));
    assert!(without_duplicates.contains(&pos(0, 5)));
    assert!(without_duplicates.contains(&pos(0, 6)));
    assert!(without_duplicates.contains(&pos(2, 5)));
    assert!(without_duplicates.contains(&pos(3, 5)));
    assert!(without_duplicates.contains(&pos(4, 5)));
}

#[test]
fn check_bigger_matches() {
    let board = board_of(vec![
        vec![0, 1, 2, 3, 4],
        vec![5, 6, 7, 8, 9],
        vec![10, 11, 12, 13, 14],
        vec![18, 18, 18, 18, 18],
        vec![20, 21, 22, 23, 24],
        vec![25, 26, 27, 28, 29],
        vec![30, 31, 32, 33, 34],
    ]);

    let matches = board.get_matches();

    assert_eq!(matches.len(), 1);

    let without_duplicates = matches.without_duplicates();

    assert!(without_duplicates.contains(&pos(0, 3)));
    assert!(without_duplicates.contains(&pos(1, 3)));
    assert!(without_duplicates.contains(&pos(2, 3)));
    assert!(without_duplicates.contains(&pos(3, 3)));
    assert!(without_duplicates.contains(&pos(4, 3)));
}

#[test]
fn board_pop_gem() {
    let mut board = board_of(vec![
        vec![0, 1, 2, 3, 4],
        vec![5, 6, 7, 8, 9],
        vec![11, 11, 11, 8, 14],
        vec![15, 16, 17, 8, 19],
        vec![20, 21, 22, 23, 24],
        vec![20, 26, 29, 29, 29],
        vec![20, 31, 32, 33, 34],
    ]);

    board.remove(&pos(1, 4));

    assert!(board.get(&pos(1, 4)).is_none());
}

#[test]
fn pop_gem_and_drop() {
    let mut board = board_of(vec![
        vec![0, 1, 2, 3, 4],
        vec![5, 6, 7, 8, 9],
        vec![11, 11, 11, 8, 14],
        vec![15, 16, 17, 8, 19],
        vec![20, 21, 22, 23, 24],
        vec![20, 26, 29, 29, 29],
        vec![20, 31, 32, 33, 34],
    ]);

    board.remove(&pos(1, 4));
    assert!(board.get(&pos(1, 4)).is_none());

    let moves = board.drop();
    assert_eq!(moves.len(), 4);
    assert!(moves.contains(&(pos(1, 3), pos(1, 4))));
    assert!(moves.contains(&(pos(1, 2), pos(1, 3))));
    assert!(moves.contains(&(pos(1, 1), pos(1, 2))));
    assert!(moves.contains(&(pos(1, 0), pos(1, 1))));
}

#[test]
fn pop_multiple_gems_and_drop() {
    let mut board = board_of(vec![
        vec![0, 1, 2, 3, 4],
        vec![5, 6, 7, 8, 9],
        vec![11, 11, 11, 8, 14],
        vec![15, 16, 17, 8, 19],
        vec![20, 21, 22, 23, 24],
        vec![20, 26, 29, 29, 29],
        vec![20, 31, 32, 33, 34],
    ]);

    board.remove(&pos(0, 2));
    assert!(board.get(&pos(0, 2)).is_none());

    board.remove(&pos(0, 4));
    assert!(board.get(&pos(0, 4)).is_none());

    board.remove(&pos(0, 6));
    assert!(board.get(&pos(0, 6)).is_none());

    board.remove(&pos(4, 1));
    assert!(board.get(&pos(4, 1)).is_none());

    let moves = board.drop();
    assert_eq!(moves.len(), 5);
    assert!(moves.contains(&(pos(0, 5), pos(0, 6))));
    assert!(moves.contains(&(pos(0, 3), pos(0, 5))));
    assert!(moves.contains(&(pos(0, 1), pos(0, 4))));
    assert!(moves.contains(&(pos(0, 0), pos(0, 3))));
    assert!(moves.contains(&(pos(4, 0), pos(4, 1))));
}

#[test]
fn check_simple_move() {
    let board = board_of(vec![
        vec![0, 1, 2, 3, 4],
        vec![5, 6, 7, 8, 9],
        vec![10, 11, 8, 13, 8],
        vec![15, 16, 17, 18, 19],
        vec![20, 21, 22, 23, 24],
        vec![25, 26, 27, 28, 29],
        vec![30, 31, 32, 33, 34],
    ]);

    let matching_moves = board.get_matching_moves();

    assert_eq!(matching_moves.len(), 1);
    assert!(matching_moves.contains(&BoardMove(pos(3, 1), pos(3, 2))))
}

#[test]
fn check_multiple_simple_moves() {
    let board = board_of(vec![
        vec![0, 1, 2, 3, 4],
        vec![5, 0, 13, 8, 13],
        vec![0, 11, 12, 13, 14],
        vec![15, 16, 17, 18, 19],
        vec![20, 21, 22, 23, 24],
        vec![25, 26, 30, 28, 24],
        vec![30, 30, 32, 24, 34],
    ]);

    let matching_moves = board.get_matching_moves();

    assert_eq!(matching_moves.len(), 4);
    assert!(matching_moves.contains(&BoardMove(pos(0, 1), pos(1, 1))));
    assert!(matching_moves.contains(&BoardMove(pos(3, 1), pos(3, 2))));
    assert!(matching_moves.contains(&BoardMove(pos(2, 5), pos(2, 6))));
    assert!(matching_moves.contains(&BoardMove(pos(3, 6), pos(4, 6))));
}

#[test]
fn check_advanced_moves() {
    let board = board_of(vec![
        vec![0, 6, 2, 3, 4],
        vec![5, 6, 7, 8, 9],
        vec![6, 11, 6, 13, 14],
        vec![15, 6, 17, 18, 19],
        vec![20, 21, 25, 23, 24],
        vec![25, 25, 27, 25, 25],
        vec![30, 31, 25, 33, 34],
    ]);

    let matching_moves = board.get_matching_moves();

    assert_eq!(matching_moves.len(), 8);
    assert!(matching_moves.contains(&BoardMove(pos(0, 2), pos(1, 2))));
    assert!(matching_moves.contains(&BoardMove(pos(1, 1), pos(1, 2))));
    assert!(matching_moves.contains(&BoardMove(pos(1, 3), pos(1, 2))));
    assert!(matching_moves.contains(&BoardMove(pos(2, 2), pos(1, 2))));
    assert!(matching_moves.contains(&BoardMove(pos(2, 4), pos(2, 5))));
    assert!(matching_moves.contains(&BoardMove(pos(2, 6), pos(2, 5))));
    assert!(matching_moves.contains(&BoardMove(pos(1, 5), pos(2, 5))));
    assert!(matching_moves.contains(&BoardMove(pos(3, 5), pos(2, 5))));
}
