use wfc::{Direction, Table};

#[test]
fn basic_properties() {
    let table = Table::new((0..9).collect::<Vec<i32>>(), 3);
    assert_eq!(table.width(), 3);
    assert_eq!(table.height(), 3);
    assert_eq!(table.len(), 9);
    assert_eq!(table.idx_to_pos(0), (0, 0));
    assert_eq!(table.idx_to_pos(1), (0, 1));
    assert_eq!(table.idx_to_pos(2), (0, 2));
    assert_eq!(table.idx_to_pos(3), (1, 0));
    assert_eq!(table.idx_to_pos(4), (1, 1));
}

#[test]
fn indexing() {
    let table = Table::new((0..9).collect::<Vec<i32>>(), 3);
    assert_eq!(*table.at(0), 0);
    assert_eq!(*table.at(4), 4);
    assert_eq!(*table.at_pos(0, 0), 0);
    assert_eq!(*table.at_pos(0, 1), 1);
    assert_eq!(*table.at_pos(1, 1), 4);
}

#[test]
fn get_neighbors() {
    // [0, 1, 2]
    // [3, 4, 5]
    // [6, 7, 8]
    let table = Table::new((0..9).collect::<Vec<i32>>(), 3);
    let neighbors = table.get_neighbors((0, 0));
    assert!(neighbors.contains(&(1, Direction::Right)));
    assert!(neighbors.contains(&(3, Direction::Down)));

    let neighbors = table.get_neighbors((1, 1));
    assert!(neighbors.contains(&(3, Direction::Left)));
    assert!(neighbors.contains(&(5, Direction::Right)));
    assert!(neighbors.contains(&(1, Direction::Up)));
    assert!(neighbors.contains(&(7, Direction::Down)));

    let neighbors = table.get_neighbors((2, 2));
    assert!(neighbors.contains(&(7, Direction::Left)));
    assert!(neighbors.contains(&(5, Direction::Up)));

    let neighbors = table.get_neighbors((2, 1));
    assert!(neighbors.contains(&(6, Direction::Left)));
    assert!(neighbors.contains(&(4, Direction::Up)));
    assert!(neighbors.contains(&(8, Direction::Right)));
}
