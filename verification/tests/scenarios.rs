use battlesnake::board::{Board, CauseOfDeath};
use battlesnake::direction::Direction;
use battlesnake::point::Point;
use battlesnake::input::{ApiSnake, Board as ApiBoard, GameData, GameInfo};
use battlesnake::snake::Snake;
use battlesnake::status::{Error, ErrorKind};

fn board(snakes: Vec<Snake>, food: Vec<Point>) -> Board {
    Board { snakes, food, bound: Point::new(10, 10) }
}

#[test]
fn a_snake_facing_up_may_not_turn_down() {
    let b = board(
        vec![Snake::new(100, vec![Point::new(5, 5), Point::new(5, 4), Point::new(5, 3)])],
        Vec::new(),
    );
    let moves = b.get_all_moves();
    assert_eq!(moves, vec![vec![Direction::Right, Direction::Left, Direction::Up]]);
    assert!(!moves[0].contains(&Direction::Down));
    assert_eq!(b.snakes[0].get_default_move().unwrap(), Direction::Up);
}

#[test]
fn a_snake_with_no_way_out_gets_its_default_move() {
    let b = board(
        vec![
            Snake::new(
                100,
                vec![
                    Point::new(0, 0),
                    Point::new(1, 0),
                    Point::new(1, 1),
                    Point::new(0, 1),
                    Point::new(0, 2),
                ],
            ),
        ],
        Vec::new(),
    );
    assert_eq!(b.get_all_moves(), vec![vec![Direction::Left]]);
}

#[test]
fn heads_of_equal_snakes_on_one_cell_kill_both() {
    let mut b = board(
        vec![
            Snake::new(90, vec![Point::new(4, 5), Point::new(3, 5), Point::new(2, 5)]),
            Snake::new(90, vec![Point::new(6, 5), Point::new(7, 5), Point::new(8, 5)]),
        ],
        Vec::new(),
    );
    let dead = b.advance_snakes(&[Direction::Right, Direction::Left], &Vec::new());
    assert_eq!(dead.len(), 2);
    assert_eq!(dead.get(&0), Some(&CauseOfDeath::HeadToHead));
    assert_eq!(dead.get(&1), Some(&CauseOfDeath::HeadToHead));
    assert!(b.snakes.is_empty());
}

#[test]
fn the_longer_snake_survives_a_meeting_of_heads() {
    let mut b = board(
        vec![
            Snake::new(90, vec![Point::new(4, 5), Point::new(3, 5), Point::new(2, 5)]),
            Snake::new(
                90,
                vec![Point::new(6, 5), Point::new(7, 5), Point::new(8, 5), Point::new(9, 5)],
            ),
        ],
        Vec::new(),
    );
    let dead = b.advance_snakes(&[Direction::Right, Direction::Left], &Vec::new());
    assert_eq!(dead.len(), 1);
    assert_eq!(dead.get(&0), Some(&CauseOfDeath::HeadToHead));
    assert_eq!(b.snakes.len(), 1);
    assert_eq!(b.snakes[0].body.nodes[0], Point::new(5, 5));
    assert_eq!(b.snakes[0].health, 89);
}

#[test]
fn a_hazard_takes_no_more_health_than_there_is() {
    let mut b = board(
        vec![Snake::new(1, vec![Point::new(5, 5), Point::new(5, 4), Point::new(5, 3)])],
        Vec::new(),
    );
    let mut witness = b.clone();
    let hazards = vec![Point::new(5, 6)];
    let dead = b.advance_snakes(&[Direction::Up], &hazards);
    assert_eq!(dead.get(&0), Some(&CauseOfDeath::OutOfHealth));
    assert!(b.snakes.is_empty());
    let mut snake = witness.snakes.remove(0);
    let _ = snake.advance(&Direction::Up, None);
    let _ = snake.reduce_health(15);
    assert_eq!(snake.health, 0);
}

#[test]
fn hazards_cost_fifteen_on_top_of_the_step() {
    let mut b = board(
        vec![Snake::new(50, vec![Point::new(5, 5), Point::new(5, 4), Point::new(5, 3)])],
        Vec::new(),
    );
    let dead = b.advance_snakes(&[Direction::Up], &vec![Point::new(5, 6)]);
    assert!(dead.is_empty());
    assert_eq!(b.snakes[0].health, 34);
}

#[test]
fn moves_that_are_not_given_are_the_default_moves() {
    let mut b = board(
        vec![
            Snake::new(50, vec![Point::new(5, 5), Point::new(5, 4), Point::new(5, 3)]),
            Snake::new(50, vec![Point::new(1, 1), Point::new(2, 1)]),
            Snake::new(50, vec![Point::new(8, 8)]),
        ],
        Vec::new(),
    );
    let dead = b.advance_snakes(&[Direction::Left], &Vec::new());
    assert!(dead.is_empty());
    assert_eq!(b.snakes[0].body.nodes[0], Point::new(4, 5));
    assert_eq!(b.snakes[1].body.nodes[0], Point::new(0, 1));
    assert_eq!(b.snakes[2].body.nodes[0], Point::new(8, 9));
}

#[test]
fn food_is_eaten_once_and_feeds_the_snake() {
    let mut b = board(
        vec![
            Snake::new(50, vec![Point::new(5, 5), Point::new(5, 4), Point::new(5, 3)]),
            Snake::new(40, vec![Point::new(1, 1), Point::new(2, 1)]),
        ],
        vec![Point::new(9, 9), Point::new(5, 6), Point::new(5, 6), Point::new(0, 0)],
    );
    let dead = b.advance_snakes(&[Direction::Up, Direction::Left], &Vec::new());
    assert!(dead.is_empty());
    assert_eq!(b.food, vec![Point::new(9, 9), Point::new(5, 6), Point::new(0, 0)]);
    assert_eq!(b.snakes[0].health, 100);
    assert_eq!(
        b.snakes[0].body.nodes,
        vec![Point::new(5, 6), Point::new(5, 5), Point::new(5, 4), Point::new(5, 4)]
    );
    assert_eq!(b.snakes[1].health, 39);
    assert_eq!(b.check_food(&Point::new(0, 0)), Some(2));
    assert_eq!(b.check_food(&Point::new(1, 0)), None);
}

#[test]
fn every_cause_of_death() {
    let mut b = board(
        vec![
            // walks off the board
            Snake::new(50, vec![Point::new(0, 9), Point::new(1, 9)]),
            // runs into the body of the next
            Snake::new(50, vec![Point::new(4, 4), Point::new(4, 3)]),
            Snake::new(50, vec![Point::new(5, 5), Point::new(4, 5), Point::new(3, 5)]),
            // bites itself
            Snake::new(
                50,
                vec![
                    Point::new(8, 1),
                    Point::new(8, 2),
                    Point::new(7, 2),
                    Point::new(7, 1),
                    Point::new(7, 0),
                    Point::new(8, 0),
                ],
            ),
            // starves
            Snake::new(1, vec![Point::new(1, 1), Point::new(1, 2)]),
        ],
        Vec::new(),
    );
    let moves = [
        Direction::Left,
        Direction::Up,
        Direction::Right,
        Direction::Left,
        Direction::Down,
    ];
    let dead = b.advance_snakes(&moves, &Vec::new());
    assert_eq!(dead.get(&0), Some(&CauseOfDeath::OutOfBounds));
    assert_eq!(dead.get(&1), Some(&CauseOfDeath::OtherCollision));
    assert_eq!(dead.get(&2), None);
    assert_eq!(dead.get(&3), Some(&CauseOfDeath::SelfCollision));
    assert_eq!(dead.get(&4), Some(&CauseOfDeath::OutOfHealth));
    assert_eq!(b.snakes.len(), 1);
    assert_eq!(b.snakes[0].body.nodes[0], Point::new(6, 5));
    assert_eq!(b.get_my_death(), None);
}

#[test]
fn own_death_is_read_off_the_board() {
    let mut b = board(
        vec![
            Snake::new(50, vec![Point::new(5, 5), Point::new(5, 4)]),
            Snake::new(50, vec![Point::new(4, 6), Point::new(5, 6), Point::new(5, 5)]),
        ],
        Vec::new(),
    );
    assert_eq!(b.get_my_death(), Some(CauseOfDeath::OtherCollision));
    assert!(b.is_inbounds(&Point::new(10, 0)));
    assert!(!b.is_inbounds(&Point::new(11, 0)));
}

#[test]
fn board_route_from_a_point_to_itself_costs_nothing() {
    let b = board(vec![Snake::new(50, vec![Point::new(5, 5), Point::new(5, 4)])], Vec::new());
    let (cost, path) = b.astar(Point::new(2, 2), Point::new(2, 2), &Vec::new()).unwrap();
    assert_eq!(cost, 0);
    assert_eq!(path.nodes, Vec::new());
    let (cost, path) = b
        .astar(Point::new(2, 2), Point::new(2, 2), &vec![Point::new(2, 2)])
        .unwrap();
    assert_eq!(cost, 0);
    assert_eq!(path.nodes, Vec::new());
}

#[test]
fn board_route_to_food_five_steps_ahead() {
    let b = board(
        vec![Snake::new(50, vec![Point::new(0, 0), Point::new(0, 1), Point::new(0, 2)])],
        vec![Point::new(5, 0)],
    );
    let (cost, path) = b.astar(Point::new(0, 0), Point::new(5, 0), &Vec::new()).unwrap();
    assert_eq!(cost, 5);
    assert_eq!(
        path.nodes,
        vec![
            Point::new(1, 0),
            Point::new(2, 0),
            Point::new(3, 0),
            Point::new(4, 0),
            Point::new(5, 0)
        ]
    );
    let health = 50.0_f32;
    assert!(((health - cost as f32) / health - 0.9).abs() < 1e-6);
}

#[test]
fn default_moves_kill_no_snake_without_a_reason() {
    // heads stay apart; one snake walks off the board, one starves
    let mut b = board(
        vec![
            Snake::new(50, vec![Point::new(5, 5), Point::new(5, 4), Point::new(5, 3)]),
            Snake::new(50, vec![Point::new(10, 2), Point::new(9, 2)]),
            Snake::new(1, vec![Point::new(1, 1), Point::new(1, 2)]),
            Snake::new(50, vec![Point::new(8, 8)]),
        ],
        Vec::new(),
    );
    let before = b.snakes.len();
    let dead = b.advance_snakes(&[], &Vec::new());
    assert_eq!(dead.len(), 2);
    assert_eq!(dead.get(&1), Some(&CauseOfDeath::OutOfBounds));
    assert_eq!(dead.get(&2), Some(&CauseOfDeath::OutOfHealth));
    assert_eq!(before - b.snakes.len(), 2);
    assert_eq!(b.snakes[0].body.nodes[0], Point::new(5, 6));
    assert_eq!(b.snakes[1].body.nodes[0], Point::new(8, 9));
}

fn api_snake(id: &str, health: i32, body: Vec<Point>) -> ApiSnake {
    ApiSnake {
        id: String::from(id),
        name: String::from(id),
        health,
        head: body.first().copied().unwrap_or(Point::new(0, 0)),
        length: body.len() as i32,
        body,
        shout: String::new(),
    }
}

#[test]
fn a_snapshot_with_a_snake_without_body_is_rejected() {
    let snapshot = |other: ApiSnake| GameInfo {
        game: GameData { id: String::from("game"), timeout: 500 },
        turn: 1,
        board: ApiBoard {
            height: 7,
            width: 11,
            food: vec![Point::new(3, 3)],
            hazards: Vec::new(),
            snakes: vec![api_snake("me", 90, vec![Point::new(1, 1), Point::new(1, 2)]), other],
        },
        you: api_snake("me", 90, vec![Point::new(1, 1), Point::new(1, 2)]),
    };
    let good = Board::from_api(&snapshot(api_snake("other", 80, vec![Point::new(4, 4)]))).unwrap();
    assert_eq!(good.snakes.len(), 2);
    assert_eq!(good.bound, Point::new(10, 6));
    assert_eq!(good.food, vec![Point::new(3, 3)]);
    assert!(matches!(
        Board::from_api(&snapshot(api_snake("other", 80, Vec::new()))),
        Err(Error::Engine(ErrorKind::FailedSnakeConversion))
    ));
    assert!(matches!(
        Board::from_api(&snapshot(api_snake("other", 180, vec![Point::new(4, 4)]))),
        Err(Error::Engine(ErrorKind::FailedSnakeConversion))
    ));
}

#[test]
fn running_out_of_health_is_an_error_of_its_own() {
    let mut snake = Snake::new(1, vec![Point::new(5, 5), Point::new(5, 4)]);
    assert!(matches!(
        snake.advance(&Direction::Up, None),
        Err(Error::Engine(ErrorKind::OutOfHealth))
    ));
    assert!(matches!(
        Point::new(0, 0).direction_to_other(&Point::new(2, 2)),
        Err(Error::Engine(ErrorKind::FailedConversion))
    ));
}

#[test]
fn board_routes_wait_for_no_tail_and_pay_for_hazards() {
    // the own tail at (2, 0) is gone when the head gets there after two steps
    let b = board(
        vec![Snake::new(
            50,
            vec![Point::new(0, 0), Point::new(0, 1), Point::new(1, 1), Point::new(2, 1), Point::new(2, 0)],
        )],
        Vec::new(),
    );
    let (cost, path) = b.astar(Point::new(0, 0), Point::new(2, 0), &Vec::new()).unwrap();
    assert_eq!(cost, 2);
    assert_eq!(path.nodes, vec![Point::new(1, 0), Point::new(2, 0)]);
    // a hazard on the way and under the goal costs 15 more each
    let hazards = vec![Point::new(1, 0), Point::new(2, 0)];
    let (cost, path) = b.astar(Point::new(0, 0), Point::new(2, 0), &hazards).unwrap();
    assert_eq!(cost, 32);
    assert_eq!(path.nodes, vec![Point::new(1, 0), Point::new(2, 0)]);
    // the neck is reached round the body, once the body has left each cell
    let (cost, path) = b.astar(Point::new(0, 0), Point::new(0, 1), &Vec::new()).unwrap();
    assert_eq!(cost, 5);
    assert_eq!(
        path.nodes,
        vec![
            Point::new(1, 0),
            Point::new(2, 0),
            Point::new(2, 1),
            Point::new(1, 1),
            Point::new(0, 1)
        ]
    );
    // a neck that the snake never leaves in time is no goal
    let long = board(
        vec![Snake::new(
            50,
            vec![
                Point::new(0, 0),
                Point::new(0, 1),
                Point::new(1, 1),
                Point::new(1, 0),
                Point::new(2, 0),
                Point::new(2, 1),
                Point::new(2, 2),
                Point::new(1, 2),
                Point::new(0, 2),
            ],
        )],
        Vec::new(),
    );
    assert!(long.astar(Point::new(0, 0), Point::new(0, 1), &Vec::new()).is_none());
    // off the board there is no goal
    assert!(b.astar(Point::new(0, 0), Point::new(11, 0), &Vec::new()).is_none());
}

#[test]
fn a_margin_of_the_length_or_more_frees_every_segment() {
    let b = board(
        vec![Snake::new(50, vec![Point::new(5, 5), Point::new(5, 4), Point::new(5, 3)])],
        Vec::new(),
    );
    let from = Point::new(5, 2);
    // the tail alone at margin 1, the whole snake from margin 3 on
    assert_eq!(
        b.get_pruned_moves(&Point::new(4, 4), 1),
        vec![Direction::Left, Direction::Up, Direction::Down]
    );
    assert_eq!(
        b.get_pruned_moves(&from, 1),
        vec![Direction::Right, Direction::Left, Direction::Up, Direction::Down]
    );
    assert_eq!(
        b.get_pruned_moves(&Point::new(4, 4), 2),
        vec![Direction::Right, Direction::Left, Direction::Up, Direction::Down]
    );
    assert_eq!(
        b.get_pruned_moves(&Point::new(4, 5), 4),
        vec![Direction::Right, Direction::Left, Direction::Up, Direction::Down]
    );
    assert_eq!(
        b.get_pruned_moves(&Point::new(4, 5), 2),
        vec![Direction::Left, Direction::Up, Direction::Down]
    );
}
