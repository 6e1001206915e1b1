use bevy_match3::{Drop, Position};

fn d(from: (u32, u32), to: (u32, u32)) -> Drop {
    Drop { from: Position::new(from.0, from.1), to: Position::new(to.0, to.1) }
}

#[test]
fn sort_drops() {
    let drops: Vec<Drop> = vec![
        d((0, 1), (0, 2)),
        d((1, 0), (1, 2)),
        d((4, 1), (4, 2)),
        d((1, 1), (1, 3)),
        d((4, 0), (4, 1)),
        d((0, 2), (0, 3)),
        d((3, 0), (3, 1)),
        d((2, 2), (2, 4)),
        d((0, 3), (0, 4)),
        d((2, 0), (2, 2)),
        d((2, 1), (2, 3)),
        d((1, 2), (1, 4)),
        d((3, 2), (3, 3)),
        d((4, 2), (4, 3)),
        d((0, 0), (0, 1)),
        d((3, 1), (3, 2)),
    ];

    let sorted_correctly_drops: Vec<Drop> = vec![
        d((0, 3), (0, 4)),
        d((0, 2), (0, 3)),
        d((2, 2), (2, 4)),
        d((1, 2), (1, 4)),
        d((3, 2), (3, 3)),
        d((4, 2), (4, 3)),
        d((0, 1), (0, 2)),
        d((4, 1), (4, 2)),
        d((1, 1), (1, 3)),
        d((2, 1), (2, 3)),
        d((3, 1), (3, 2)),
        d((1, 0), (1, 2)),
        d((4, 0), (4, 1)),
        d((3, 0), (3, 1)),
        d((2, 0), (2, 2)),
        d((0, 0), (0, 1)),
    ];
    let drops = bevy_match3::sort_drops(&drops);
    assert_eq!(drops, sorted_correctly_drops);
}

#[test]
fn sort_drops_empty_and_single() {
    assert_eq!(bevy_match3::sort_drops(&vec![]), vec![]);
    let one = vec![d((2, 3), (2, 5))];
    assert_eq!(bevy_match3::sort_drops(&one), one);
}
