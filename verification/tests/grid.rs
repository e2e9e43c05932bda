use battlesnake::grid::{GameGrid, GridObject};
use battlesnake::point::Point;

#[test]
fn grid_is_in_bounds() {
    let grid = GameGrid::new((10, 10));
    assert_eq!(grid.is_in_bounds(&Point::new(5, 5)), true);
    assert_eq!(grid.is_in_bounds(&Point::new(0, 0)), true);
    assert_eq!(grid.is_in_bounds(&Point::new(9, 9)), true);
    assert_eq!(grid.is_in_bounds(&Point::new(-1, 5)), false);
    assert_eq!(grid.is_in_bounds(&Point::new(1, -5)), false);
    assert_eq!(grid.is_in_bounds(&Point::new(10, 5)), false);
    assert_eq!(grid.is_in_bounds(&Point::new(1, 15)), false);
}

#[test]
fn grid_get_value() {
    let grid = GameGrid::new((10, 10));
    assert_eq!(grid.get_value(&Point::new(5, 5)), GridObject::Empty);
    assert_eq!(grid.get_value(&Point::new(-1, 5)), GridObject::Outofbounds);
}

#[test]
fn grid_painting() {
    let mut grid = GameGrid::new((3, 4));
    assert_eq!(grid.get_height(), 3);
    assert_eq!(grid.get_width(), 4);
    grid.set_snakes(vec![
        vec![Point::new(0, 0), Point::new(1, 0), Point::new(9, 9)],
        vec![Point::new(1, 0), Point::new(1, 1)],
    ]);
    assert_eq!(grid.get_value(&Point::new(0, 0)), GridObject::Snake(0));
    assert_eq!(grid.get_value(&Point::new(1, 0)), GridObject::Snake(1));
    assert_eq!(grid.get_value(&Point::new(1, 1)), GridObject::Snake(1));
    assert_eq!(grid.get_value_at_index(5), GridObject::Snake(1));
    assert_eq!(grid.get_value_at_index(12), GridObject::Outofbounds);
    assert_eq!(grid.get_index(&Point::new(3, 2)), Some(11));
    assert_eq!(grid.get_index(&Point::new(4, 2)), None);
    grid.set_hazards(&vec![Point::new(0, 0), Point::new(2, 2), Point::new(3, 2)]);
    assert_eq!(grid.get_value(&Point::new(0, 0)), GridObject::Snake(0));
    assert_eq!(grid.get_value(&Point::new(2, 2)), GridObject::Hazard);
    grid.set_food(&vec![Point::new(3, 2), Point::new(3, 0), Point::new(-1, 0)]);
    assert_eq!(grid.get_value(&Point::new(3, 2)), GridObject::Food);
    grid.set_collision_chance(&vec![Point::new(3, 0), Point::new(1, 1)], 51);
    assert_eq!(grid.get_value(&Point::new(3, 0)), GridObject::Collisionchance(51));
    assert_eq!(grid.get_value(&Point::new(1, 1)), GridObject::Snake(1));
    assert!(grid.is_accessible(&Point::new(3, 2)));
    assert!(grid.is_accessible(&Point::new(2, 0)));
    assert!(!grid.is_accessible(&Point::new(2, 2)));
    assert!(!grid.is_accessible(&Point::new(3, 0)));
    assert!(!grid.is_accessible(&Point::new(0, 0)));
    assert!(!grid.is_accessible(&Point::new(0, 3)));
    grid.ignore_hazard();
    assert!(grid.is_accessible(&Point::new(2, 2)));
    grid.reset();
    assert_eq!(grid.get_value(&Point::new(0, 0)), GridObject::Empty);
    assert_eq!(grid.get_value(&Point::new(2, 2)), GridObject::Empty);
}

#[test]
fn grid_objects() {
    let all = [
        GridObject::Empty,
        GridObject::Food,
        GridObject::Snake(2),
        GridObject::Hazard,
        GridObject::Collisionchance(7),
        GridObject::Outofbounds,
    ];
    let snake = [false, false, true, false, false, false];
    let considerable = [true, true, false, true, false, false];
    let accessible = [true, true, false, true, true, false];
    for i in 0..6 {
        assert_eq!(all[i].is_snake(), snake[i]);
        assert_eq!(all[i].is_considerable(), considerable[i]);
        assert_eq!(all[i].is_accessible(), accessible[i]);
    }
}
