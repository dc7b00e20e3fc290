use wfc::test_utils::{c, img, p};
use wfc::{Color, Direction, Texture};

#[test]
fn new() {
    // [0, 1]
    // [2, 3]
    let texture = img(2);
    let pattern = p(0, 2, &texture, (0, 0));
    assert_eq!(pattern.pixels.len(), 4);
    assert_eq!(pattern.pixels, vec![c(0), c(1), c(2), c(3)]);

    let pattern = p(1, 2, &texture, (0, 1));
    assert_eq!(pattern.pixels.len(), 4);
    assert_eq!(pattern.pixels, vec![c(1), c(0), c(3), c(2)]);

    // [0, 1, 2, 3]
    // [4, 5, 6, 7]
    // [8, 9, 10, 11]
    // [12, 13, 14, 15]
    let texture = img(4);
    let pattern = p(0, 2, &texture, (0, 0));
    assert_eq!(pattern.pixels.len(), 4);
    assert_eq!(pattern.pixels, vec![c(0), c(1), c(4), c(5)]);

    let pattern = p(1, 2, &texture, (0, 1));
    assert_eq!(pattern.pixels.len(), 4);
    assert_eq!(pattern.pixels, vec![c(1), c(2), c(5), c(6)]);

    let pattern = p(2, 3, &texture, (3, 3));
    assert_eq!(pattern.pixels.len(), 9);
    assert_eq!(
        pattern.pixels,
        vec![c(15), c(12), c(13), c(3), c(0), c(1), c(7), c(4), c(5)]
    );

    let pattern = p(3, 1, &texture, (0, 0));
    assert_eq!(pattern.pixels.len(), 1);
    assert_eq!(pattern.pixels, vec![c(0)]);

    let pattern = p(4, 2, &texture, (3, 1));
    assert_eq!(pattern.pixels.len(), 4);
    assert_eq!(pattern.pixels, vec![c(13), c(14), c(1), c(2)]);
}

#[test]
fn get_side() {
    // [0, 1, 2, 3]
    // [4, 5, 6, 7]
    // [8, 9, 10, 11]
    // [12, 13, 14, 15]
    let texture = img(4);
    let pattern = p(0, 2, &texture, (0, 0));
    assert_eq!(pattern.pixels, vec![c(0), c(1), c(4), c(5)]);
    assert_eq!(pattern.get_side(&Direction::Up), vec![c(0), c(1)]);
    assert_eq!(pattern.get_side(&Direction::Right), vec![c(1), c(5)]);
    assert_eq!(pattern.get_side(&Direction::Down), vec![c(4), c(5)]);
    assert_eq!(pattern.get_side(&Direction::Left), vec![c(0), c(4)]);

    let pattern = p(1, 3, &texture, (3, 3));
    assert_eq!(
        pattern.pixels,
        vec![c(15), c(12), c(13), c(3), c(0), c(1), c(7), c(4), c(5)]
    );
    assert_eq!(
        pattern.get_side(&Direction::Up),
        vec![c(15), c(12), c(13), c(3), c(0), c(1)]
    );
    assert_eq!(
        pattern.get_side(&Direction::Right),
        vec![c(12), c(13), c(0), c(1), c(4), c(5)]
    );
    assert_eq!(
        pattern.get_side(&Direction::Down),
        vec![c(3), c(0), c(1), c(7), c(4), c(5)]
    );
    assert_eq!(
        pattern.get_side(&Direction::Left),
        vec![c(15), c(12), c(3), c(0), c(7), c(4)]
    );
}

#[test]
fn overlaps() {
    // [0, 1, 2, 3]
    // [1, 2, 3, 4]
    // [2, 3, 4, 5]
    // [3, 4, 5, 6]
    let mut texture = Texture::new(4, 4);
    for x in 0..4 {
        for y in 0..4 {
            texture.put_pixel(x, y, Color::new((x + y) as u8, 0, 0));
        }
    }

    let p1 = p(0, 2, &texture, (0, 0));
    let p2 = p(1, 2, &texture, (1, 0));
    assert!(p1.overlaps(&p2, &Direction::Right));
    assert!(p1.overlaps(&p2, &Direction::Down));
    assert!(!p1.overlaps(&p2, &Direction::Left));
    assert!(!p1.overlaps(&p2, &Direction::Up));

    let p1 = p(2, 2, &texture, (0, 1));
    let p2 = p(3, 2, &texture, (2, 0));
    assert!(p1.overlaps(&p2, &Direction::Right));
    assert!(p1.overlaps(&p2, &Direction::Down));
    assert!(!p1.overlaps(&p2, &Direction::Left));
    assert!(!p1.overlaps(&p2, &Direction::Up));

    let p1 = p(4, 2, &texture, (1, 2));
    let p2 = p(5, 2, &texture, (2, 0));
    assert!(p1.overlaps(&p2, &Direction::Up));
    assert!(p1.overlaps(&p2, &Direction::Left));
    assert!(!p1.overlaps(&p2, &Direction::Down));
    assert!(!p1.overlaps(&p2, &Direction::Right));
}

#[test]
fn get_patterns() {
    // [0, 3, 6]
    // [1, 4, 7]
    // [2, 5, 8]
    let texture = img(3);
    let patterns = wfc::get_patterns(&texture, 2);
    assert_eq!(patterns.len(), 9);
    let expected = vec![
        p(0, 2, &texture, (0, 0)),
        p(1, 2, &texture, (1, 0)),
        p(2, 2, &texture, (2, 0)),
        p(3, 2, &texture, (0, 1)),
        p(4, 2, &texture, (1, 1)),
        p(5, 2, &texture, (2, 1)),
        p(6, 2, &texture, (0, 2)),
        p(7, 2, &texture, (1, 2)),
        p(8, 2, &texture, (2, 2)),
    ];
    for pattern in expected {
        assert!(patterns.contains(&pattern));
    }

    // [0, 0, 0]
    // [0, 0, 0]
    // [0, 0, 0]
    let mut texture = Texture::new(3, 3);
    for x in 0..3 {
        for y in 0..3 {
            texture.put_pixel(x, y, Color::new(0, 0, 0));
        }
    }
    let patterns = wfc::get_patterns(&texture, 2);
    assert_eq!(patterns.len(), 1);
    assert!(patterns.contains(&p(0, 2, &texture, (0, 0))));
}
