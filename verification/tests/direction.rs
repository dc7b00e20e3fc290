use wfc::Direction;

#[test]
fn opposite() {
    assert_eq!(Direction::Up.opposite(), Direction::Down);
    assert_eq!(Direction::Down.opposite(), Direction::Up);
    assert_eq!(Direction::Right.opposite(), Direction::Left);
    assert_eq!(Direction::Left.opposite(), Direction::Right);
}

#[test]
fn add_to_pos() {
    assert_eq!(Direction::Up.add_pos((0, 0)), (-1, 0));
    assert_eq!(Direction::Right.add_pos((0, 0)), (0, 1));
    assert_eq!(Direction::Down.add_pos((0, 0)), (1, 0));
    assert_eq!(Direction::Left.add_pos((0, 0)), (0, -1));
}

#[test]
fn from_neighbors() {
    let (x, y) = (1, 1);

    let (nx, ny) = (0, 1);
    assert_eq!(Direction::from_neighbors((x, y), (nx, ny)), Direction::Up);
    let (nx, ny) = (1, 2);
    assert_eq!(
        Direction::from_neighbors((x, y), (nx, ny)),
        Direction::Right
    );
    let (nx, ny) = (2, 1);
    assert_eq!(Direction::from_neighbors((x, y), (nx, ny)), Direction::Down);
    let (nx, ny) = (1, 0);
    assert_eq!(Direction::from_neighbors((x, y), (nx, ny)), Direction::Left);
}

#[test]
fn conversions() {
    assert_eq!(Direction::from_delta((-1, 0)), Direction::Up);
    assert_eq!(Direction::from_delta((0, 1)), Direction::Right);
    assert_eq!(Direction::from_delta((1, 0)), Direction::Down);
    assert_eq!(Direction::from_delta((0, -1)), Direction::Left);

    assert_eq!(Direction::from_index(0), Direction::Up);
    assert_eq!(Direction::from_index(1), Direction::Right);
    assert_eq!(Direction::from_index(2), Direction::Down);
    assert_eq!(Direction::from_index(3), Direction::Left);

    assert_eq!(Direction::Up.to_index(), 0);
    assert_eq!(Direction::Right.to_index(), 1);
    assert_eq!(Direction::Down.to_index(), 2);
    assert_eq!(Direction::Left.to_index(), 3);
}

#[test]
fn all() {
    assert_eq!(
        Direction::all(),
        [
            Direction::Up,
            Direction::Right,
            Direction::Down,
            Direction::Left
        ]
    );
}
