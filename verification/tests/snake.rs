use battlesnake::direction::Direction;
use battlesnake::input::ApiSnake;
use battlesnake::path::Path;
use battlesnake::point::Point;
use battlesnake::snake::Snake;

#[test]
fn snake_basics() {
    let mut snake = Snake::new(
        100,
        vec![Point::new(0, 0), Point::new(1, 0), Point::new(2, 0)],
    );
    assert_eq!(snake.head().unwrap(), Point::new(0, 0));
    assert_eq!(snake.neck().unwrap(), Point::new(1, 0));
    assert!(snake.advance(&Direction::Up, Option::None).is_ok());
    assert_eq!(snake.head().unwrap(), Point::new(0, 1));
    assert_eq!(snake.neck().unwrap(), Point::new(0, 0));
    assert_eq!(snake.health, 99);
    assert!(snake.advance(&Direction::Up, Some(101)).is_err());
    assert_eq!(snake.head().unwrap(), Point::new(0, 2));
    assert_eq!(snake.neck().unwrap(), Point::new(0, 1));
    assert_eq!(snake.health, 0);

    let mut snake = Snake {
        health: 50,
        body: Path::from_vec(vec![
            Point { x: 9, y: 3 },
            Point { x: 9, y: 4 },
            Point { x: 9, y: 5 },
            Point { x: 8, y: 5 },
            Point { x: 7, y: 5 },
            Point { x: 7, y: 6 },
        ]),
    };
    assert_eq!(snake.size(), 6);
    assert_eq!(snake.get_default_move().unwrap(), Direction::Down);
    assert_eq!(snake.neck(), Some(Point { x: 9, y: 4 }));
    assert_eq!(snake.head(), Some(Point { x: 9, y: 3 }));
    let _ = snake.advance(&Direction::Down, None);
    assert_eq!(snake.size(), 6);
    assert_eq!(
        snake.body.nodes,
        vec![
            Point { x: 9, y: 2 },
            Point { x: 9, y: 3 },
            Point { x: 9, y: 4 },
            Point { x: 9, y: 5 },
            Point { x: 8, y: 5 },
            Point { x: 7, y: 5 }
        ]
    );
    assert_eq!(snake.health, 49);
    assert_eq!(snake.has_health(), true);
    let _ = snake.reduce_health(9);
    assert_eq!(snake.health, 40);
    let _ = snake.reduce_health(45);
    assert_eq!(snake.health, 0);
    assert_eq!(snake.has_health(), false);
    snake.feed();
    assert_eq!(snake.health, 100);
    assert_eq!(snake.has_health(), true);
    assert_eq!(snake.size(), 7);
    assert_eq!(
        snake.body.nodes,
        vec![
            Point { x: 9, y: 2 },
            Point { x: 9, y: 3 },
            Point { x: 9, y: 4 },
            Point { x: 9, y: 5 },
            Point { x: 8, y: 5 },
            Point { x: 7, y: 5 },
            Point { x: 7, y: 5 }
        ]
    );
    assert_eq!(snake.is_collision(&Point { x: 9, y: 4 }), Some(2));
    assert_eq!(snake.is_collision(&Point { x: 7, y: 5 }), Some(5));
    assert_eq!(snake.is_collision(&Point { x: 7, y: 6 }), None);
}

#[test]
fn extended_basics() {
    let mut snake = Snake {
        health: 50,
        body: Path::from(vec![
            Point::new(9, 3),
            Point::new(9, 4),
            Point::new(9, 5),
            Point::new(8, 5),
            Point::new(7, 5),
            Point::new(7, 6),
        ]),
    };
    assert_eq!(snake.size(), 6);
    assert_eq!(snake.get_default_move().unwrap(), Direction::Down);
    assert_eq!(snake.neck(), Some(Point::new(9, 4)));
    assert_eq!(snake.head(), Some(Point::new(9, 3)));
    let _ = snake.advance(&Direction::Down, Option::None);
    assert_eq!(snake.size(), 6);
    assert_eq!(
        snake.body.nodes,
        vec![
            Point::new(9, 2),
            Point::new(9, 3),
            Point::new(9, 4),
            Point::new(9, 5),
            Point::new(8, 5),
            Point::new(7, 5)
        ]
    );
    assert_eq!(snake.health, 49);
    assert_eq!(snake.has_health(), true);
    assert!(snake.reduce_health(9).is_ok());
    assert_eq!(snake.health, 40);
    assert!(snake.reduce_health(45).is_err());
    assert_eq!(snake.health, 0);
    assert!(!snake.has_health());
    snake.feed();
    assert_eq!(snake.health, 100);
    assert!(snake.has_health());
    assert_eq!(snake.size(), 7);
    assert_eq!(
        snake.body.nodes,
        vec![
            Point::new(9, 2),
            Point::new(9, 3),
            Point::new(9, 4),
            Point::new(9, 5),
            Point::new(8, 5),
            Point::new(7, 5),
            Point::new(7, 5)
        ]
    );
    assert_eq!(snake.is_collision(&Point::new(9, 4)), Some(2));
    assert_eq!(snake.is_collision(&Point::new(7, 5)), Some(5));
    assert_eq!(snake.is_collision(&Point::new(7, 6)), Option::None);
}

#[test]
fn default_move_of_short_and_bent_snakes() {
    let snake = Snake::new(100, vec![Point::new(3, 0), Point::new(2, 0), Point::new(1, 0)]);
    assert_eq!(snake.get_default_move().unwrap(), Direction::Right);
    let snake = Snake::new(100, Vec::new());
    assert_eq!(snake.get_default_move().unwrap(), Direction::default());
    let snake = Snake::new(100, vec![Point::new(3, 0)]);
    assert_eq!(snake.get_default_move().unwrap(), Direction::Up);
    let snake = Snake::new(100, vec![Point::new(3, 0), Point::new(3, 0)]);
    assert!(snake.get_default_move().is_err());
}

#[test]
fn reduce_health_fails_when_nothing_is_left() {
    let mut snake = Snake::new(100, vec![Point::new(3, 0), Point::new(2, 0), Point::new(1, 0)]);
    assert!(snake.reduce_health(50).is_ok());
    assert!(snake.reduce_health(100).is_err());
    assert_eq!(snake.health, 0);
    let mut snake = Snake::new(15, vec![Point::new(3, 0)]);
    assert!(snake.reduce_health(15).is_err());
    assert_eq!(snake.health, 0);
}

fn api_snake(health: i32, body: Vec<Point>) -> ApiSnake {
    let head = body.first().copied().unwrap_or(Point::new(0, 0));
    ApiSnake {
        id: String::from("one"),
        name: String::from("One"),
        health,
        length: body.len() as i32,
        body,
        head,
        shout: String::new(),
    }
}

#[test]
fn snakes_that_are_not_usable_are_rejected() {
    let good = Snake::try_from(&api_snake(90, vec![Point::new(1, 1), Point::new(1, 2)])).unwrap();
    assert_eq!(good.health, 90);
    assert_eq!(good.body.nodes, vec![Point::new(1, 1), Point::new(1, 2)]);
    assert!(Snake::try_from(&api_snake(90, Vec::new())).is_err());
    assert!(Snake::try_from(&api_snake(101, vec![Point::new(1, 1)])).is_err());
    assert!(Snake::try_from(&api_snake(-1, vec![Point::new(1, 1)])).is_err());
    assert!(Snake::try_from(&api_snake(90, vec![Point::new(i32::MAX, 1)])).is_err());
}
