use snake_core::grid::{in_bounds, Direction, Position, ARENA_HEIGHT, ARENA_WIDTH};

#[test]
fn arena_is_eleven_by_eleven() {
    assert_eq!(ARENA_WIDTH, 11);
    assert_eq!(ARENA_HEIGHT, 11);
}

#[test]
fn opposite_of_each_direction() {
    assert_eq!(Direction::Left.opposite(), Direction::Right);
    assert_eq!(Direction::Right.opposite(), Direction::Left);
    assert_eq!(Direction::Up.opposite(), Direction::Down);
    assert_eq!(Direction::Down.opposite(), Direction::Up);
}

#[test]
fn delta_of_each_direction() {
    assert_eq!(Direction::Left.delta(), (-1, 0));
    assert_eq!(Direction::Right.delta(), (1, 0));
    assert_eq!(Direction::Up.delta(), (0, 1));
    assert_eq!(Direction::Down.delta(), (0, -1));
}

#[test]
fn bounds_of_the_arena() {
    assert!(in_bounds(Position(0, 0)));
    assert!(in_bounds(Position(10, 10)));
    assert!(in_bounds(Position(5, 3)));
    assert!(!in_bounds(Position(-1, 3)));
    assert!(!in_bounds(Position(3, -1)));
    assert!(!in_bounds(Position(11, 0)));
    assert!(!in_bounds(Position(0, 11)));
}
