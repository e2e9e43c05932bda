use battlesnake::board::{Board, CauseOfDeath};
use battlesnake::direction::Direction;
use battlesnake::input::{ApiSnake, Board as ApiBoard, GameData, GameInfo};
use battlesnake::point::Point;
use std::collections::HashMap;

fn snapshot_turn_4() -> GameInfo {
    GameInfo {
        game: GameData { id: String::from("5e6c3d1b-6404-403a-9803-09bd2b99224f"), timeout: 500 },
        turn: 4,
        board: ApiBoard {
            height: 11,
            width: 11,
            food: vec![
                Point { x: 10, y: 0 },
                Point { x: 5, y: 5 },
                Point { x: 6, y: 10 },
                Point { x: 5, y: 7 },
            ],
            hazards: vec![],
            snakes: vec![
                ApiSnake {
                    id: String::from("gs_SJWHXg6r4QtxBJQ4qQcT6tSH"),
                    name: String::from("Barry"),
                    health: 96,
                    body: vec![
                        Point { x: 2, y: 6 },
                        Point { x: 2, y: 7 },
                        Point { x: 1, y: 7 },
                    ],
                    head: Point { x: 2, y: 6 },
                    length: 3,
                    shout: String::from(""),
                },
                ApiSnake {
                    id: String::from("gs_kcVF7X8vkHkPdKPckKwfKRvF"),
                    name: String::from("Go  Giddy"),
                    health: 98,
                    body: vec![
                        Point { x: 6, y: 6 },
                        Point { x: 7, y: 6 },
                        Point { x: 8, y: 6 },
                        Point { x: 9, y: 6 },
                    ],
                    head: Point { x: 6, y: 6 },
                    length: 4,
                    shout: String::from(""),
                },
                ApiSnake {
                    id: String::from("gs_6Tfrmk6tdw87PDDvjq4Yk9GM"),
                    name: String::from("ninemo"),
                    health: 100,
                    body: vec![
                        Point { x: 0, y: 8 },
                        Point { x: 0, y: 7 },
                        Point { x: 0, y: 6 },
                        Point { x: 0, y: 5 },
                        Point { x: 0, y: 5 },
                    ],
                    head: Point { x: 0, y: 8 },
                    length: 5,
                    shout: String::from(""),
                },
                ApiSnake {
                    id: String::from("gs_xd7wttW7PBxPBK3WWGK793xM"),
                    name: String::from("CertnSnake"),
                    health: 96,
                    body: vec![
                        Point { x: 9, y: 5 },
                        Point { x: 9, y: 4 },
                        Point { x: 9, y: 3 },
                    ],
                    head: Point { x: 9, y: 5 },
                    length: 3,
                    shout: String::from(""),
                },
            ],
        },
        you: ApiSnake {
            id: String::from("gs_kcVF7X8vkHkPdKPckKwfKRvF"),
            name: String::from("Go  Giddy"),
            health: 98,
            body: vec![
                Point { x: 6, y: 6 },
                Point { x: 7, y: 6 },
                Point { x: 8, y: 6 },
                Point { x: 9, y: 6 },
            ],
            head: Point { x: 6, y: 6 },
            length: 4,
            shout: String::from(""),
        },
    }
}

fn snapshot_turn_12() -> GameInfo {
    GameInfo {
        game: GameData { id: String::from("2c2d43ec-0fdb-4bf4-9a00-8f1d243238d4"), timeout: 500 },
        turn: 12,
        board: ApiBoard {
            height: 11,
            width: 11,
            food: vec![
                Point { x: 1, y: 4 },
            ],
            hazards: vec![],
            snakes: vec![
                ApiSnake {
                    id: String::from("gs_9Xdgwh9wPKktBtXphrMt4d67"),
                    name: String::from("Eel In Snake's Clothing"),
                    health: 90,
                    body: vec![
                        Point { x: 7, y: 7 },
                        Point { x: 7, y: 6 },
                        Point { x: 7, y: 5 },
                        Point { x: 6, y: 5 },
                    ],
                    head: Point { x: 7, y: 7 },
                    length: 4,
                    shout: String::from(""),
                },
                ApiSnake {
                    id: String::from("gs_fhDCrB9BmRfgWBgXj9cBCxqR"),
                    name: String::from("Go  Giddy"),
                    health: 100,
                    body: vec![
                        Point { x: 5, y: 5 },
                        Point { x: 5, y: 6 },
                        Point { x: 5, y: 7 },
                        Point { x: 5, y: 8 },
                        Point { x: 5, y: 8 },
                    ],
                    head: Point { x: 5, y: 5 },
                    length: 5,
                    shout: String::from(""),
                },
                ApiSnake {
                    id: String::from("gs_KTTWwyytWTBjgXkyh8gDp9VD"),
                    name: String::from("Untimely Neglected Wearable"),
                    health: 100,
                    body: vec![
                        Point { x: 2, y: 0 },
                        Point { x: 2, y: 1 },
                        Point { x: 1, y: 1 },
                        Point { x: 1, y: 0 },
                        Point { x: 0, y: 0 },
                        Point { x: 0, y: 0 },
                    ],
                    head: Point { x: 2, y: 0 },
                    length: 6,
                    shout: String::from(""),
                },
                ApiSnake {
                    id: String::from("gs_8fMbQg9DHB9fMGxR7Hv39P9Q"),
                    name: String::from("Danger Noodle - A*/Flood"),
                    health: 100,
                    body: vec![
                        Point { x: 4, y: 2 },
                        Point { x: 4, y: 3 },
                        Point { x: 5, y: 3 },
                        Point { x: 5, y: 4 },
                        Point { x: 5, y: 4 },
                    ],
                    head: Point { x: 4, y: 2 },
                    length: 5,
                    shout: String::from(""),
                },
            ],
        },
        you: ApiSnake {
            id: String::from("gs_fhDCrB9BmRfgWBgXj9cBCxqR"),
            name: String::from("Go  Giddy"),
            health: 100,
            body: vec![
                Point { x: 5, y: 5 },
                Point { x: 5, y: 6 },
                Point { x: 5, y: 7 },
                Point { x: 5, y: 8 },
                Point { x: 5, y: 8 },
            ],
            head: Point { x: 5, y: 5 },
            length: 5,
            shout: String::from(""),
        },
    }
}

fn snapshot_turn_32() -> GameInfo {
    GameInfo {
        game: GameData { id: String::from("2c2d43ec-0fdb-4bf4-9a00-8f1d243238d4"), timeout: 500 },
        turn: 32,
        board: ApiBoard {
            height: 11,
            width: 11,
            food: vec![
                Point { x: 10, y: 6 },
            ],
            hazards: vec![
                Point { x: 10, y: 0 },
                Point { x: 10, y: 1 },
                Point { x: 10, y: 2 },
                Point { x: 10, y: 3 },
                Point { x: 10, y: 4 },
                Point { x: 10, y: 5 },
                Point { x: 10, y: 6 },
                Point { x: 10, y: 7 },
                Point { x: 10, y: 8 },
                Point { x: 10, y: 9 },
                Point { x: 10, y: 10 },
            ],
            snakes: vec![
                ApiSnake {
                    id: String::from("gs_9Xdgwh9wPKktBtXphrMt4d67"),
                    name: String::from("Eel In Snake's Clothing"),
                    health: 88,
                    body: vec![
                        Point { x: 3, y: 7 },
                        Point { x: 4, y: 7 },
                        Point { x: 4, y: 8 },
                        Point { x: 5, y: 8 },
                        Point { x: 6, y: 8 },
                    ],
                    head: Point { x: 3, y: 7 },
                    length: 5,
                    shout: String::from(""),
                },
                ApiSnake {
                    id: String::from("gs_fhDCrB9BmRfgWBgXj9cBCxqR"),
                    name: String::from("Go  Giddy"),
                    health: 100,
                    body: vec![
                        Point { x: 9, y: 3 },
                        Point { x: 9, y: 4 },
                        Point { x: 9, y: 5 },
                        Point { x: 8, y: 5 },
                        Point { x: 7, y: 5 },
                        Point { x: 7, y: 6 },
                        Point { x: 7, y: 6 },
                    ],
                    head: Point { x: 9, y: 3 },
                    length: 7,
                    shout: String::from(""),
                },
                ApiSnake {
                    id: String::from("gs_KTTWwyytWTBjgXkyh8gDp9VD"),
                    name: String::from("Untimely Neglected Wearable"),
                    health: 96,
                    body: vec![
                        Point { x: 7, y: 3 },
                        Point { x: 7, y: 2 },
                        Point { x: 8, y: 2 },
                        Point { x: 9, y: 2 },
                        Point { x: 9, y: 1 },
                        Point { x: 8, y: 1 },
                        Point { x: 7, y: 1 },
                    ],
                    head: Point { x: 7, y: 3 },
                    length: 7,
                    shout: String::from(""),
                },
                ApiSnake {
                    id: String::from("gs_8fMbQg9DHB9fMGxR7Hv39P9Q"),
                    name: String::from("Danger Noodle - A*/Flood"),
                    health: 80,
                    body: vec![
                        Point { x: 6, y: 4 },
                        Point { x: 6, y: 3 },
                        Point { x: 6, y: 2 },
                        Point { x: 5, y: 2 },
                        Point { x: 4, y: 2 },
                    ],
                    head: Point { x: 6, y: 4 },
                    length: 5,
                    shout: String::from(""),
                },
            ],
        },
        you: ApiSnake {
            id: String::from("gs_fhDCrB9BmRfgWBgXj9cBCxqR"),
            name: String::from("Go  Giddy"),
            health: 100,
            body: vec![
                Point { x: 9, y: 3 },
                Point { x: 9, y: 4 },
                Point { x: 9, y: 5 },
                Point { x: 8, y: 5 },
                Point { x: 7, y: 5 },
                Point { x: 7, y: 6 },
                Point { x: 7, y: 6 },
            ],
            head: Point { x: 9, y: 3 },
            length: 7,
            shout: String::from(""),
        },
    }
}

#[test]
fn from_api() {
    let gameinfo = snapshot_turn_4();
    let board = Board::from_api(&gameinfo).unwrap();
    assert_eq!(board.snakes[0].health, 98);
    assert_eq!(board.snakes[1].health, 96);
    assert_eq!(board.snakes[2].health, 100);
    assert_eq!(board.snakes[3].health, 96);
    assert_eq!(
        board.snakes[0].body.nodes,
        vec![
            Point::new(6, 6),
            Point::new(7, 6),
            Point::new(8, 6),
            Point::new(9, 6)
        ]
    );
    assert_eq!(
        board.snakes[1].body.nodes,
        vec![Point::new(2, 6), Point::new(2, 7), Point::new(1, 7)]
    );
    assert_eq!(
        board.snakes[2].body.nodes,
        vec![
            Point::new(0, 8),
            Point::new(0, 7),
            Point::new(0, 6),
            Point::new(0, 5),
            Point::new(0, 5)
        ]
    );
    assert_eq!(
        board.snakes[3].body.nodes,
        vec![Point::new(9, 5), Point::new(9, 4), Point::new(9, 3)]
    );
    assert_eq!(
        board.food,
        vec![
            Point { x: 10, y: 0 },
            Point { x: 5, y: 5 },
            Point { x: 6, y: 10 },
            Point { x: 5, y: 7 }
        ]
    );
}

#[test]
fn available_moves() {
    let gameinfo = snapshot_turn_12();
    let board = Board::from_api(&gameinfo).unwrap();
    let all_moves = board.get_all_moves();
    assert_eq!(
        all_moves,
        vec![
            vec![Direction::Right, Direction::Left,],
            vec![Direction::Right, Direction::Left, Direction::Up,],
            vec![Direction::Right,],
            vec![Direction::Right, Direction::Left, Direction::Down,]
        ]
    );
    let future_moves = board.get_pruned_moves(&Point { x: 6, y: 7 }, 2);
    assert_eq!(future_moves, vec![Direction::Up, Direction::Down]);
    let future_moves = board.get_pruned_moves(&Point { x: 6, y: 7 }, 3);
    assert_eq!(
        future_moves,
        vec![Direction::Left, Direction::Up, Direction::Down]
    );
}

#[test]
fn advance() {
    let gameinfo = snapshot_turn_32();
    let board = Board::from_api(&gameinfo).unwrap();
    let hazards = gameinfo.get_hazards();
    //  [Right, Left, Down]
    //  [Left, Up, Down]
    //  [Right, Left, Up]
    //  [Right, Left, Up],

    // Expected: OK, OK, OK, OK
    let moves = vec![
        Direction::Right,
        Direction::Left,
        Direction::Right,
        Direction::Right,
    ];
    let mut new_board = board.clone();
    let res = new_board.advance_snakes(&moves, &hazards);
    let expected: HashMap<usize, CauseOfDeath> = HashMap::new();
    assert_eq!(res, expected);
    // Expected: HeadCollision, OK, HeadCollision, OK
    let moves = vec![
        Direction::Left,
        Direction::Left,
        Direction::Right,
        Direction::Right,
    ];
    let mut new_board = board.clone();
    let res = new_board.advance_snakes(&moves, &hazards);
    let mut expected: HashMap<usize, CauseOfDeath> = HashMap::new();
    expected.insert(2, CauseOfDeath::HeadToHead);
    expected.insert(0, CauseOfDeath::HeadToHead);
    assert_eq!(res, expected);
    // // Expected: CollisionOther, OK, CollisionOther, OK
    let moves = vec![
        Direction::Down,
        Direction::Left,
        Direction::Left,
        Direction::Right,
    ];
    let mut new_board = board.clone();
    let res = new_board.advance_snakes(&moves, &hazards);
    let mut expected: HashMap<usize, CauseOfDeath> = HashMap::new();
    expected.insert(2, CauseOfDeath::OtherCollision);
    expected.insert(0, CauseOfDeath::OtherCollision);
    assert_eq!(res, expected);
}

#[test]
fn astar() {
    let gameinfo = snapshot_turn_32();
    let board = Board::from_api(&gameinfo).unwrap();
    let hazards = gameinfo.get_hazards();
    // the cheapest way goes round the hazards to the goal on the hazard
    let path = board.astar(Point { x: 9, y: 3 }, Point { x: 10, y: 6 }, hazards);
    assert!(path.is_some());
    let (g_score, path) = path.unwrap();
    assert_eq!(g_score, 23);
    assert_eq!(
        path.nodes,
        vec![
            Point { x: 8, y: 3 },
            Point { x: 8, y: 4 },
            Point { x: 7, y: 4 },
            Point { x: 7, y: 5 },
            Point { x: 7, y: 6 },
            Point { x: 8, y: 6 },
            Point { x: 9, y: 6 },
            Point { x: 10, y: 6 },
        ]
    );
    let path = board.astar(Point { x: 6, y: 4 }, Point { x: 10, y: 6 }, hazards);
    assert!(path.is_some());
    let (g_score, path) = path.unwrap();
    assert_eq!(g_score, 21);
    assert_eq!(
        path.nodes,
        vec![
            Point { x: 6, y: 5 },
            Point { x: 6, y: 6 },
            Point { x: 7, y: 6 },
            Point { x: 8, y: 6 },
            Point { x: 9, y: 6 },
            Point { x: 10, y: 6 },
        ]
    );
    let path = board.astar(Point { x: 7, y: 3 }, Point { x: 10, y: 6 }, hazards);
    assert!(path.is_none());
}
