use battlesnake::direction::Direction;
use battlesnake::path::Path;
use battlesnake::point::Point;

#[test]
fn all_directions() {
    let all = Direction::iterator();
    let mut all_dirs = all.iter();
    assert_eq!(all_dirs.next().unwrap(), &Direction::Right);
    assert_eq!(all_dirs.next().unwrap(), &Direction::Left);
    assert_eq!(all_dirs.next().unwrap(), &Direction::Up);
    assert_eq!(all_dirs.next().unwrap(), &Direction::Down);
    assert!(all_dirs.next().is_none());
}

#[test]
fn dir_from_point() {
    assert_eq!(
        Direction::try_from(Point { x: 1, y: 0 }).unwrap(),
        Direction::Right
    );
    assert_eq!(
        Direction::try_from(Point { x: -1, y: 0 }).unwrap(),
        Direction::Left
    );
    assert_eq!(
        Direction::try_from(Point { x: 0, y: 1 }).unwrap(),
        Direction::Up
    );
    assert_eq!(
        Direction::try_from(Point { x: 0, y: -1 }).unwrap(),
        Direction::Down
    );
    assert!(Direction::try_from(Point { x: -1, y: -1 }).is_err());
    assert!(Direction::try_from(Point { x: -31, y: 91 }).is_err());
    assert!(Direction::try_from(Point { x: 10, y: 11 }).is_err());
    assert!(Direction::try_from(Point { x: 5, y: -1 }).is_err());
    assert_eq!(
        Direction::try_from(&Point { x: 1, y: 0 }).unwrap(),
        Direction::Right
    );
    assert_eq!(
        Direction::try_from(&Point { x: -1, y: 0 }).unwrap(),
        Direction::Left
    );
    assert_eq!(
        Direction::try_from(&Point { x: 0, y: 1 }).unwrap(),
        Direction::Up
    );
    assert_eq!(
        Direction::try_from(&Point { x: 0, y: -1 }).unwrap(),
        Direction::Down
    );
    assert!(Direction::try_from(&Point { x: -1, y: -1 }).is_err());
    assert!(Direction::try_from(&Point { x: -31, y: 91 }).is_err());
    assert!(Direction::try_from(&Point { x: 10, y: 11 }).is_err());
    assert!(Direction::try_from(&Point { x: 5, y: -1 }).is_err());
}

#[test]
fn point_ops() {
    let a = Point { x: 5, y: 5 };
    let b = Point { x: 1, y: 2 };
    assert_eq!(a + b, Point { x: 6, y: 7 });
    assert_eq!(a + &b, Point { x: 6, y: 7 });
    assert_eq!(a - b, Point { x: 4, y: 3 });
    assert_eq!(a - &b, Point { x: 4, y: 3 });
    assert_eq!(a + Direction::Left, Point { x: 4, y: 5 });
    assert_eq!(a - Direction::Left, Point { x: 6, y: 5 });
    let mut c = Point::default();
    c = c + a;
    assert_eq!(c, a);
    c = c + &a;
    assert_eq!(c, Point { x: 10, y: 10 });
    c = c - b;
    assert_eq!(c, Point { x: 9, y: 8 });
    c = c - &b;
    assert_eq!(c, Point { x: 8, y: 6 });
    c = c + Direction::Up;
    assert_eq!(c, Point { x: 8, y: 7 });
    c = c - &Direction::Up;
    assert_eq!(c, Point { x: 8, y: 6 });
}

#[test]
fn point_distances() {
    let a = Point { x: 5, y: 5 };
    for d in Direction::iterator().iter() {
        let b = a + d;
        assert_eq!((a.distance_squared(&b) as f32).sqrt(), 1.0);
        assert_eq!(a.manhattan_distance(&b), 1);
    }
    let b = Point { x: 7, y: 3 };
    assert_eq!(a.distance_squared(&b) as f32, 8.0);
    assert_eq!(a.manhattan_distance(&b), 4);
    let b = Point { x: 7, y: 1 };
    assert_eq!((a.distance_squared(&b) as f32).sqrt(), 4.472135955);
    assert_eq!(a.manhattan_distance(&b), 6);
}

#[test]
fn neighbours() {
    let a = Point { x: 5, y: 5 };
    let expected = [
        Point { x: 6, y: 5 },
        Point { x: 4, y: 5 },
        Point { x: 5, y: 6 },
        Point { x: 5, y: 4 },
    ];
    assert_eq!(a.get_neighbours(), expected);
}

#[test]
fn closest() {
    let point = Point::new(0, 0);
    let other_points = vec![
        Point::new(-1, -10),
        Point::new(-3, 3),
        Point::new(-10, -10),
        Point::new(-1, -1),
    ];
    assert_eq!(Point::new(-1, -1), point.find_closest(other_points));
}

#[test]
fn closest_takes_the_first_of_equals() {
    let point = Point::new(0, 0);
    let others = vec![Point::new(3, 4), Point::new(0, 5), Point::new(-5, 0), Point::new(6, 0)];
    assert_eq!(point.find_closest_euclidean(&others), Some(Point::new(3, 4)));
    assert_eq!(point.find_closest_manhattan(&others), Some(Point::new(0, 5)));
    assert_eq!(point.find_closest_euclidean(&Vec::new()), None);
    assert_eq!(point.find_closest_manhattan(&Vec::new()), None);
    assert_eq!(point.find_closest(Vec::new()), Point::new(-1, -1));
}

#[test]
fn directions() {
    let point = Point::new(10, 10);
    let right = Point { x: 11, y: 10 };
    let left = Point { x: 9, y: 10 };
    let up = Point { x: 10, y: 11 };
    let down = Point { x: 10, y: 9 };
    let bad = Point { x: 15, y: 15 };
    assert!(point.get_neighbour_direction(right).unwrap() == Direction::Right);
    assert!(point.get_neighbour_direction(left).unwrap() == Direction::Left);
    assert!(point.get_neighbour_direction(up).unwrap() == Direction::Up);
    assert!(point.get_neighbour_direction(down).unwrap() == Direction::Down);
    assert!(point.get_neighbour_direction(bad) == None);
    assert_eq!(point + Direction::Right, right);
    assert_eq!(point + Direction::Left, left);
    assert_eq!(point + Direction::Up, up);
    assert_eq!(point + Direction::Down, down);
    assert_eq!(point + &Direction::Right, right);
    assert_eq!(point + &Direction::Left, left);
    assert_eq!(point + &Direction::Up, up);
    assert_eq!(point + &Direction::Down, down);
}

#[test]
fn direction_to_other_fails_on_far_points() {
    let point = Point::new(10, 10);
    assert_eq!(point.direction_to_other(&Point::new(10, 11)).unwrap(), Direction::Up);
    assert!(point.direction_to_other(&Point::new(10, 10)).is_err());
    assert!(point.direction_to_other(&Point::new(12, 10)).is_err());
    assert!(point.is_neighbour(Point::new(9, 10)));
    assert!(!point.is_neighbour(Point::new(9, 9)));
    assert_eq!(Direction::Down.as_index(), 3);
    assert_eq!(Direction::default(), Direction::Up);
    assert_eq!(Direction::Left.name(), "left");
    assert_eq!(Point::from(Direction::Down), Point::new(0, -1));
    assert_eq!(Point::from(&Direction::Right), Point::new(1, 0));
    assert_eq!(Point::zero().get_x(), 0);
    assert_eq!(Point::new(3, -4).get_y(), -4);
    assert!(!Point::new(3, -4).is_not_negative());
}

#[test]
fn path_basics() {
    let mut ones = Path::from(vec![Point::new(1, 1)]);
    assert_eq!(ones.nodes, vec![Point::new(1, 1)]);

    assert_eq!(ones.first(), Some(Point::new(1, 1)));
    assert_eq!(ones.last(), Some(Point::new(1, 1)));
    let offset = Point::new(-1, 0);
    ones.extend_front(&offset);
    let offset = Point::new(0, -1);
    ones.extend_front(&offset);
    assert_eq!(ones.first(), Some(Point::new(0, 0)));
    assert_eq!(ones.last(), Some(Point::new(1, 1)));
    assert_eq!(ones.get_node(1), Some(Point::new(0, 1)));
}

#[test]
fn basics() {
    let mut ones = Path::from_vec(vec![Point::new(1, 1)]);
    assert_eq!(ones.nodes, vec![Point::new(1, 1)]);

    assert_eq!(ones.first(), Some(Point::new(1, 1)));
    assert_eq!(ones.last(), Some(Point::new(1, 1)));
    let offset = Point::new(-1, 0);
    ones.extend_front(&offset);
    let offset = Point::new(0, -1);
    ones.extend_front(&offset);
    assert_eq!(ones.first(), Some(Point::new(0, 0)));
    assert_eq!(ones.last(), Some(Point::new(1, 1)));
    assert_eq!(ones.get_node(1), Some(Point::new(0, 1)));
}

#[test]
fn path_extend() {
    let mut ones = Path::from(vec![Point::new(5, 1)]);
    assert_eq!(ones.nodes, vec![Point::new(5, 1)]);

    assert_eq!(ones.first(), Some(Point::new(5, 1)));
    assert_eq!(ones.last(), Some(Point::new(5, 1)));

    let offset = Point::new(-1, 0);
    ones.extend_front(&offset);
    assert_eq!(ones.nodes, vec![Point::new(4, 1), Point::new(5, 1)]);
    ones.extend_front(&offset);
    assert_eq!(
        ones.nodes,
        vec![Point::new(3, 1), Point::new(4, 1), Point::new(5, 1)]
    );
    ones.extend_front(&offset);
    assert_eq!(
        ones.nodes,
        vec![
            Point::new(2, 1),
            Point::new(3, 1),
            Point::new(4, 1),
            Point::new(5, 1)
        ]
    );
}

#[test]
fn extend() {
    let mut ones = Path::from_vec(vec![Point::new(5, 1)]);
    assert_eq!(ones.nodes, vec![Point::new(5, 1)]);

    assert_eq!(ones.first(), Some(Point::new(5, 1)));
    assert_eq!(ones.last(), Some(Point::new(5, 1)));

    let offset = Point::new(-1, 0);
    ones.extend_front(&offset);
    assert_eq!(ones.nodes, vec![Point::new(4, 1), Point::new(5, 1)]);
    ones.extend_front(&offset);
    assert_eq!(
        ones.nodes,
        vec![Point::new(3, 1), Point::new(4, 1), Point::new(5, 1)]
    );
    ones.extend_front(&offset);
    assert_eq!(
        ones.nodes,
        vec![
            Point::new(2, 1),
            Point::new(3, 1),
            Point::new(4, 1),
            Point::new(5, 1)
        ]
    );
}

#[test]
fn path_extend_dir() {
    let mut path = Path::from(vec![Point::new(5, 1)]);
    path.extend_front_dir(&Direction::Right);
    assert_eq!(path.nodes, vec![Point::new(6, 1), Point::new(5, 1)]);
    path.extend_front_dir(&Direction::Up);
    assert_eq!(
        path.nodes,
        vec![Point::new(6, 2), Point::new(6, 1), Point::new(5, 1)]
    );
    path.extend_front_dir(&Direction::Left);
    assert_eq!(
        path.nodes,
        vec![
            Point::new(5, 2),
            Point::new(6, 2),
            Point::new(6, 1),
            Point::new(5, 1)
        ]
    );
    path.extend_front_dir(&Direction::Down);
    assert_eq!(
        path.nodes,
        vec![
            Point::new(5, 1),
            Point::new(5, 2),
            Point::new(6, 2),
            Point::new(6, 1),
            Point::new(5, 1)
        ]
    );
}

#[test]
fn extend_dir() {
    let mut path = Path::from_vec(vec![Point::new(5, 1)]);
    path.extend_front_dir(&Direction::Right);
    assert_eq!(path.nodes, vec![Point::new(6, 1), Point::new(5, 1)]);
    path.extend_front_dir(&Direction::Up);
    assert_eq!(
        path.nodes,
        vec![Point::new(6, 2), Point::new(6, 1), Point::new(5, 1)]
    );
    path.extend_front_dir(&Direction::Left);
    assert_eq!(
        path.nodes,
        vec![
            Point::new(5, 2),
            Point::new(6, 2),
            Point::new(6, 1),
            Point::new(5, 1)
        ]
    );
    path.extend_front_dir(&Direction::Down);
    assert_eq!(
        path.nodes,
        vec![
            Point::new(5, 1),
            Point::new(5, 2),
            Point::new(6, 2),
            Point::new(6, 1),
            Point::new(5, 1)
        ]
    );
}

#[test]
fn path_round_trip_and_lengths() {
    let points = vec![Point::new(3, 3), Point::new(3, 2), Point::new(2, 2)];
    let mut path = Path::from_vec(points.clone());
    for (i, p) in points.iter().enumerate() {
        assert_eq!(path.get_node(i), Some(*p));
    }
    assert_eq!(path.get_node(3), None);
    path.slide_front(&Direction::Up);
    assert_eq!(path.nodes, vec![Point::new(3, 4), Point::new(3, 3), Point::new(3, 2)]);
    path.extend_back(&Point::new(0, 0));
    assert_eq!(
        path.nodes,
        vec![Point::new(3, 4), Point::new(3, 3), Point::new(3, 2), Point::new(3, 2)]
    );
    let mut empty = Path::new();
    empty.slide_front(&Direction::Up);
    empty.extend_back(&Point::new(1, 0));
    empty.extend_front(&Point::new(1, 0));
    assert_eq!(empty.nodes.len(), 0);
    assert_eq!(empty.first(), None);
    assert_eq!(empty.last(), None);
    assert_eq!(Path::with_capacity(8).nodes.len(), 0);
}
