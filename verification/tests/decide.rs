use battlesnake::area::Area;
use battlesnake::board::{Board, CauseOfDeath};
use battlesnake::direction::Direction;
use battlesnake::domove::{decision_grid, is_fit, Move};
use battlesnake::grid::GridObject;
use battlesnake::input::{ApiSnake, Board as ApiBoard, GameData, GameInfo};
use battlesnake::minimax::{cartesian_product, death_score, Outcome, Search, State, Step, NEUTRAL_SCORE};
use battlesnake::point::Point;
use battlesnake::score::{heuristic, Factors};
use battlesnake::snake::Snake;

fn snapshot_search() -> GameInfo {
    GameInfo {
        game: GameData { id: String::from("66a99167-b263-4c9f-988e-087f5df286be"), timeout: 500 },
        turn: 85,
        board: ApiBoard {
            height: 11,
            width: 11,
            food: vec![
                Point { x: 2, y: 7 },
                Point { x: 10, y: 7 },
                Point { x: 8, y: 9 },
                Point { x: 0, y: 0 },
            ],
            hazards: vec![
                Point { x: 0, y: 0 },
                Point { x: 0, y: 1 },
                Point { x: 0, y: 2 },
                Point { x: 0, y: 3 },
                Point { x: 0, y: 4 },
                Point { x: 0, y: 5 },
                Point { x: 0, y: 6 },
                Point { x: 0, y: 7 },
                Point { x: 0, y: 8 },
                Point { x: 0, y: 9 },
                Point { x: 0, y: 10 },
                Point { x: 1, y: 0 },
                Point { x: 1, y: 1 },
                Point { x: 1, y: 10 },
                Point { x: 2, y: 0 },
                Point { x: 2, y: 1 },
                Point { x: 2, y: 10 },
                Point { x: 3, y: 0 },
                Point { x: 3, y: 1 },
                Point { x: 3, y: 10 },
                Point { x: 4, y: 0 },
                Point { x: 4, y: 1 },
                Point { x: 4, y: 10 },
                Point { x: 5, y: 0 },
                Point { x: 5, y: 1 },
                Point { x: 5, y: 10 },
                Point { x: 6, y: 0 },
                Point { x: 6, y: 1 },
                Point { x: 6, y: 10 },
                Point { x: 7, y: 0 },
                Point { x: 7, y: 1 },
                Point { x: 7, y: 10 },
                Point { x: 8, y: 0 },
                Point { x: 8, y: 1 },
                Point { x: 8, y: 10 },
                Point { x: 9, y: 0 },
                Point { x: 9, y: 1 },
                Point { x: 9, y: 10 },
                Point { x: 10, y: 0 },
                Point { x: 10, y: 1 },
                Point { x: 10, y: 10 },
            ],
            snakes: vec![
                ApiSnake {
                    id: String::from("gs_bDM7cytwR9pKPcWFwFMY6BcW"),
                    name: String::from("Go  Giddy"),
                    health: 88,
                    body: vec![
                        Point { x: 10, y: 5 },
                        Point { x: 9, y: 5 },
                        Point { x: 8, y: 5 },
                        Point { x: 7, y: 5 },
                        Point { x: 6, y: 5 },
                        Point { x: 6, y: 4 },
                        Point { x: 7, y: 4 },
                        Point { x: 8, y: 4 },
                        Point { x: 9, y: 4 },
                    ],
                    head: Point { x: 10, y: 5 },
                    length: 9,
                    shout: String::from(""),
                },
                ApiSnake {
                    id: String::from("gs_MPSPTppCcQWCYCHy6TrvHhmK"),
                    name: String::from("DDT"),
                    health: 5,
                    body: vec![
                        Point { x: 7, y: 0 },
                        Point { x: 6, y: 0 },
                        Point { x: 6, y: 1 },
                        Point { x: 5, y: 1 },
                        Point { x: 5, y: 0 },
                        Point { x: 4, y: 0 },
                        Point { x: 4, y: 1 },
                        Point { x: 4, y: 2 },
                        Point { x: 3, y: 2 },
                        Point { x: 2, y: 2 },
                    ],
                    head: Point { x: 7, y: 0 },
                    length: 10,
                    shout: String::from("Out of my way!"),
                },
                ApiSnake {
                    id: String::from("gs_VVTvwpQRmtB8xKH6xxTKgxD4"),
                    name: String::from("spaceworm"),
                    health: 87,
                    body: vec![
                        Point { x: 7, y: 6 },
                        Point { x: 6, y: 6 },
                        Point { x: 5, y: 6 },
                        Point { x: 5, y: 5 },
                        Point { x: 5, y: 4 },
                        Point { x: 4, y: 4 },
                        Point { x: 4, y: 3 },
                        Point { x: 3, y: 3 },
                        Point { x: 3, y: 4 },
                        Point { x: 3, y: 5 },
                    ],
                    head: Point { x: 7, y: 6 },
                    length: 10,
                    shout: String::from(""),
                },
            ],
        },
        you: ApiSnake {
            id: String::from("gs_bDM7cytwR9pKPcWFwFMY6BcW"),
            name: String::from("Go  Giddy"),
            health: 88,
            body: vec![
                Point { x: 10, y: 5 },
                Point { x: 9, y: 5 },
                Point { x: 8, y: 5 },
                Point { x: 7, y: 5 },
                Point { x: 6, y: 5 },
                Point { x: 6, y: 4 },
                Point { x: 7, y: 4 },
                Point { x: 8, y: 4 },
                Point { x: 9, y: 4 },
            ],
            head: Point { x: 10, y: 5 },
            length: 9,
            shout: String::from(""),
        },
    }
}

fn snapshot_score_one() -> GameInfo {
    GameInfo {
        game: GameData { id: String::from("2c2d43ec-0fdb-4bf4-9a00-8f1d243238d4"), timeout: 500 },
        turn: 69,
        board: ApiBoard {
            height: 11,
            width: 11,
            food: vec![
                Point { x: 9, y: 1 },
            ],
            hazards: vec![],
            snakes: vec![
                ApiSnake {
                    id: String::from("gs_9Xdgwh9wPKktBtXphrMt4d67"),
                    name: String::from("Eel In Snake's Clothing"),
                    health: 97,
                    body: vec![
                        Point { x: 0, y: 5 },
                        Point { x: 1, y: 5 },
                        Point { x: 1, y: 6 },
                        Point { x: 1, y: 7 },
                        Point { x: 0, y: 7 },
                    ],
                    head: Point { x: 0, y: 5 },
                    length: 5,
                    shout: String::from(""),
                },
                ApiSnake {
                    id: String::from("gs_fhDCrB9BmRfgWBgXj9cBCxqR"),
                    name: String::from("Go  Giddy"),
                    health: 40,
                    body: vec![
                        Point { x: 7, y: 2 },
                        Point { x: 7, y: 1 },
                        Point { x: 6, y: 1 },
                        Point { x: 6, y: 0 },
                    ],
                    head: Point { x: 7, y: 2 },
                    length: 4,
                    shout: String::from(""),
                },
                ApiSnake {
                    id: String::from("gs_KTTWwyytWTBjgXkyh8gDp9VD"),
                    name: String::from("Untimely Neglected Wearable"),
                    health: 95,
                    body: vec![
                        Point { x: 2, y: 3 },
                        Point { x: 1, y: 3 },
                        Point { x: 0, y: 3 },
                        Point { x: 0, y: 2 },
                    ],
                    head: Point { x: 2, y: 3 },
                    length: 4,
                    shout: String::from(""),
                },
                ApiSnake {
                    id: String::from("gs_8fMbQg9DHB9fMGxR7Hv39P9Q"),
                    name: String::from("Danger Noodle - A*/Flood"),
                    health: 99,
                    body: vec![
                        Point { x: 5, y: 4 },
                        Point { x: 5, y: 5 },
                        Point { x: 5, y: 6 },
                        Point { x: 4, y: 6 },
                        Point { x: 3, y: 6 },
                    ],
                    head: Point { x: 5, y: 4 },
                    length: 5,
                    shout: String::from(""),
                },
            ],
        },
        you: ApiSnake {
            id: String::from("gs_fhDCrB9BmRfgWBgXj9cBCxqR"),
            name: String::from("Go  Giddy"),
            health: 40,
            body: vec![
                Point { x: 7, y: 2 },
                Point { x: 7, y: 1 },
                Point { x: 6, y: 1 },
                Point { x: 6, y: 0 },
            ],
            head: Point { x: 7, y: 2 },
            length: 4,
            shout: String::from(""),
        },
    }
}

fn snapshot_score_two() -> GameInfo {
    GameInfo {
        game: GameData { id: String::from("2c2d43ec-0fdb-4bf4-9a00-8f1d243238d4"), timeout: 500 },
        turn: 32,
        board: ApiBoard {
            height: 11,
            width: 11,
            food: vec![
                Point { x: 9, y: 1 },
            ],
            hazards: vec![],
            snakes: vec![
                ApiSnake {
                    id: String::from("gs_9Xdgwh9wPKktBtXphrMt4d67"),
                    name: String::from("Eel In Snake's Clothing"),
                    health: 97,
                    body: vec![
                        Point { x: 0, y: 5 },
                        Point { x: 1, y: 5 },
                        Point { x: 1, y: 6 },
                        Point { x: 1, y: 7 },
                        Point { x: 0, y: 7 },
                    ],
                    head: Point { x: 0, y: 5 },
                    length: 5,
                    shout: String::from(""),
                },
                ApiSnake {
                    id: String::from("gs_fhDCrB9BmRfgWBgXj9cBCxqR"),
                    name: String::from("Go  Giddy"),
                    health: 40,
                    body: vec![
                        Point { x: 8, y: 1 },
                        Point { x: 7, y: 1 },
                        Point { x: 6, y: 1 },
                        Point { x: 6, y: 0 },
                    ],
                    head: Point { x: 8, y: 1 },
                    length: 4,
                    shout: String::from(""),
                },
                ApiSnake {
                    id: String::from("gs_KTTWwyytWTBjgXkyh8gDp9VD"),
                    name: String::from("Untimely Neglected Wearable"),
                    health: 95,
                    body: vec![
                        Point { x: 2, y: 3 },
                        Point { x: 1, y: 3 },
                        Point { x: 0, y: 3 },
                        Point { x: 0, y: 2 },
                    ],
                    head: Point { x: 2, y: 3 },
                    length: 4,
                    shout: String::from(""),
                },
                ApiSnake {
                    id: String::from("gs_8fMbQg9DHB9fMGxR7Hv39P9Q"),
                    name: String::from("Danger Noodle - A*/Flood"),
                    health: 99,
                    body: vec![
                        Point { x: 5, y: 4 },
                        Point { x: 5, y: 5 },
                        Point { x: 5, y: 6 },
                        Point { x: 4, y: 6 },
                        Point { x: 3, y: 6 },
                    ],
                    head: Point { x: 5, y: 4 },
                    length: 5,
                    shout: String::from(""),
                },
            ],
        },
        you: ApiSnake {
            id: String::from("gs_fhDCrB9BmRfgWBgXj9cBCxqR"),
            name: String::from("Go  Giddy"),
            health: 40,
            body: vec![
                Point { x: 8, y: 1 },
                Point { x: 7, y: 1 },
                Point { x: 6, y: 1 },
                Point { x: 6, y: 0 },
            ],
            head: Point { x: 8, y: 1 },
            length: 4,
            shout: String::from(""),
        },
    }
}

fn score_of(f: &Factors) -> f32 {
    if f.solo {
        return 2.0;
    }
    let n = f.snakes as f32;
    let area = f.area as f32 / f.total_area as f32;
    let hp = f.health as f32;
    let food = if f.health == 0 {
        0.0
    } else {
        match f.food_cost {
            Some(cost) => f32::max(0.0, (hp - cost as f32) / hp),
            None => f32::min(1.0, 0.15 * hp * n / f.total_area as f32),
        }
    };
    let harmless = if f.snakes > 1 { (f.harmless as f32 - 1.0) / (n - 1.0) } else { 1.0 };
    let total = f.total_dist as f32;
    let distance = (1.0 - f.smaller_dist as f32 / total) * (f.bigger_dist as f32 / total);
    let length = f.length as f32 / f.total_length as f32;
    area * food * harmless * length * length * (hp / 100.0) * distance
}

fn fixed(score: f32) -> i64 {
    (score * NEUTRAL_SCORE as f32) as i64
}

#[test]
fn test_heuristic() {
    let gameinfo = snapshot_score_one();
    let board = Board::from_api(&gameinfo).unwrap();
    let hazards = gameinfo.get_hazards();
    let heur = heuristic(&board, 0, &hazards);
    println!("{:?}", heur);
    assert!(!heur.solo);
    assert_eq!(heur.snakes, 4);
    assert_eq!(heur.health, 40);
    assert_eq!(heur.length, 4);
    assert_eq!(heur.total_length, 18);
    assert!(score_of(&heur) >= 0.0 && score_of(&heur) <= 1.0);
    let gameinfo = snapshot_score_two();
    let board = Board::from_api(&gameinfo).unwrap();
    let hazards = gameinfo.get_hazards();
    let heur = heuristic(&board, 0, &hazards);
    println!("{:?}", heur);
    assert_eq!(heur.snakes, 4);
    assert_eq!(heur.health, 40);
    assert_eq!(heur.total_dist, heur.smaller_dist + heur.bigger_dist - 1);
    assert!(score_of(&heur) >= 0.0 && score_of(&heur) <= 1.0);
}

#[test]
fn test_test() {
    let data = snapshot_search();
    let board = Board::from_api(&data).unwrap();
    let hazards = data.get_hazards();
    let fallback = board.snakes[0].get_default_move().unwrap_or(Direction::Up);
    let mut search = Search::new(board);
    assert_eq!(search.get_decision(), fallback);
    let mut turns = 0;
    let res = loop {
        turns += 1;
        match search.next(turns > 40) {
            Step::Done(dir) => break dir,
            Step::Skip => {}
            Step::Expand(state, joint) => {
                let mut outcomes = Vec::new();
                for moves in joint.iter() {
                    let mut outcome = Search::branch(&state, moves, hazards);
                    if outcome.death.is_none() {
                        outcome.score = fixed(score_of(&heuristic(&outcome.board, 0, hazards)));
                    }
                    outcomes.push(outcome);
                }
                search.absorb(&state, &outcomes);
            }
        }
    };
    println!("{:?} after {} joint moves", res, search.get_explored());
    assert_eq!(res, search.get_decision());
    assert!(search.get_explored() > 0);
}

#[test]
fn product_of_lists() {
    let lists = vec![vec![1, 2], vec![3, 4]];
    assert_eq!(
        cartesian_product(&lists),
        vec![vec![1, 3], vec![2, 3], vec![1, 4], vec![2, 4]]
    );
    let lists = vec![vec![1, 2, 3], vec![7], vec![8, 9]];
    assert_eq!(
        cartesian_product(&lists),
        vec![
            vec![1, 7, 8],
            vec![2, 7, 8],
            vec![3, 7, 8],
            vec![1, 7, 9],
            vec![2, 7, 9],
            vec![3, 7, 9]
        ]
    );
    let none: Vec<Vec<u8>> = Vec::new();
    assert_eq!(cartesian_product(&none), vec![Vec::<u8>::new()]);
    let lists = vec![vec![1, 2], Vec::new()];
    assert_eq!(cartesian_product(&lists), Vec::<Vec<i32>>::new());
}

#[test]
fn scores_of_lost_branches() {
    assert_eq!(death_score(CauseOfDeath::OutOfHealth), -3_000_000);
    assert_eq!(death_score(CauseOfDeath::HeadToHead), -2_000_000);
    assert_eq!(death_score(CauseOfDeath::OtherCollision), -1_000_000);
    assert_eq!(death_score(CauseOfDeath::SelfCollision), -1_000_000);
    assert_eq!(death_score(CauseOfDeath::OutOfBounds), -1_000_000);
    assert!(death_score(CauseOfDeath::OutOfHealth) < death_score(CauseOfDeath::HeadToHead));
    assert!(death_score(CauseOfDeath::HeadToHead) < death_score(CauseOfDeath::OutOfBounds));
}

fn small_board() -> Board {
    Board {
        snakes: vec![
            Snake::new(90, vec![Point::new(1, 1), Point::new(1, 0)]),
            Snake::new(90, vec![Point::new(3, 3), Point::new(3, 4), Point::new(4, 4)]),
        ],
        food: vec![Point::new(0, 4)],
        bound: Point::new(4, 4),
    }
}

fn outcome(my_move: Direction, death: Option<CauseOfDeath>, score: i64) -> Outcome {
    Outcome { my_move, board: small_board(), death, score }
}

#[test]
fn search_starts_with_the_root_and_the_default_move() {
    let mut search = Search::new(small_board());
    assert_eq!(search.get_decision(), Direction::Up);
    assert_eq!(search.get_explored(), 0);
    match search.next(false) {
        Step::Expand(state, joint) => {
            assert_eq!(state.h, NEUTRAL_SCORE);
            assert_eq!(state.depth, 0);
            assert_eq!(state.root, None);
            // the own snake may go anywhere, its tail moves away; the other may
            // go right, left and down
            assert_eq!(joint.len(), 12);
            assert_eq!(joint[0], vec![Direction::Right, Direction::Right]);
            assert_eq!(joint[1], vec![Direction::Left, Direction::Right]);
            assert_eq!(joint[3], vec![Direction::Down, Direction::Right]);
            assert_eq!(joint[4], vec![Direction::Right, Direction::Left]);
            assert_eq!(joint[11], vec![Direction::Down, Direction::Down]);
            assert_eq!(search.get_explored(), 12);
        }
        other => panic!("{:?}", other),
    }
    // the root carried no move, and nothing is left
    assert_eq!(search.get_decision(), Direction::Up);
    assert!(matches!(search.next(false), Step::Done(Direction::Up)));
}

#[test]
fn search_keeps_the_worst_branch_that_is_lived_through() {
    let mut search = Search::new(small_board());
    let root = match search.next(false) {
        Step::Expand(state, _) => state,
        other => panic!("{:?}", other),
    };
    let outcomes = vec![
        outcome(Direction::Right, None, 700_000),
        outcome(Direction::Right, None, 300_000),
        outcome(Direction::Right, Some(CauseOfDeath::HeadToHead), 0),
        outcome(Direction::Right, None, 300_000),
        outcome(Direction::Left, Some(CauseOfDeath::OutOfBounds), 0),
        outcome(Direction::Left, Some(CauseOfDeath::OutOfHealth), 0),
        outcome(Direction::Up, Some(CauseOfDeath::OtherCollision), 0),
        outcome(Direction::Up, None, 2_000_000),
        outcome(Direction::Down, None, -5),
    ];
    search.absorb(&root, &outcomes);
    // the best goes first: up, which is capped by the score of the root
    match search.next(false) {
        Step::Expand(state, _) => {
            assert_eq!(state.root, Some(Direction::Up));
            assert_eq!(state.h, NEUTRAL_SCORE);
            assert_eq!(state.depth, 1);
        }
        other => panic!("{:?}", other),
    }
    assert_eq!(search.get_decision(), Direction::Up);
    match search.next(false) {
        Step::Expand(state, _) => {
            assert_eq!(state.root, Some(Direction::Right));
            assert_eq!(state.h, 300_000);
        }
        other => panic!("{:?}", other),
    }
    assert_eq!(search.get_decision(), Direction::Right);
    // the lost branch to the left is reported, and not expanded
    assert!(matches!(search.next(false), Step::Skip));
    assert_eq!(search.get_decision(), Direction::Left);
    // down was lived through with a negative score: it was dropped
    assert!(matches!(search.next(false), Step::Done(Direction::Left)));
}

#[test]
fn search_stops_when_the_time_is_up() {
    let mut search = Search::new(small_board());
    let root = match search.next(false) {
        Step::Expand(state, _) => state,
        other => panic!("{:?}", other),
    };
    search.absorb(
        &root,
        &vec![outcome(Direction::Left, None, 10), outcome(Direction::Right, None, 20)],
    );
    assert!(matches!(search.next(true), Step::Done(Direction::Right)));
    assert_eq!(search.get_decision(), Direction::Right);
}

#[test]
fn first_moves_are_handed_down() {
    let mut search = Search::new(small_board());
    let root = match search.next(false) {
        Step::Expand(state, _) => state,
        other => panic!("{:?}", other),
    };
    search.absorb(&root, &vec![outcome(Direction::Left, None, 10)]);
    let child = match search.next(false) {
        Step::Expand(state, _) => state,
        other => panic!("{:?}", other),
    };
    search.absorb(&child, &vec![outcome(Direction::Up, None, 50)]);
    match search.next(false) {
        Step::Expand(state, _) => {
            assert_eq!(state.root, Some(Direction::Left));
            assert_eq!(state.depth, 2);
            assert_eq!(state.h, 10);
        }
        other => panic!("{:?}", other),
    }
}

#[test]
fn branches_are_simulated_on_a_copy() {
    let parent = State { board: small_board(), root: None, depth: 0, h: NEUTRAL_SCORE };
    let o = Search::branch(&parent, &vec![Direction::Left, Direction::Left], &Vec::new());
    assert_eq!(o.my_move, Direction::Left);
    assert_eq!(o.death, None);
    assert_eq!(o.score, 0);
    assert_eq!(o.board.snakes[0].body.nodes[0], Point::new(0, 1));
    assert_eq!(o.board.snakes[0].health, 89);
    assert_eq!(parent.board.snakes[0].body.nodes[0], Point::new(1, 1));
    // a snake of two turns round unharmed: its tail has moved away
    let o = Search::branch(&parent, &vec![Direction::Down], &Vec::new());
    assert_eq!(o.death, None);
    let mut board = small_board();
    board.snakes[0] = Snake::new(90, vec![Point::new(1, 1), Point::new(1, 0), Point::new(0, 0)]);
    let parent = State { board, root: None, depth: 0, h: NEUTRAL_SCORE };
    let o = Search::branch(&parent, &vec![Direction::Down], &Vec::new());
    assert_eq!(o.death, Some(CauseOfDeath::SelfCollision));
    assert_eq!(o.board.snakes.len(), 1);
    assert_eq!(o.board.snakes[0].body.nodes[0], Point::new(3, 2));
}

#[test]
fn room_is_counted_by_flooding() {
    // the body of the second snake splits the board; the own snake has the
    // left part, the head of the second snake gets to both
    let board = Board {
        snakes: vec![
            Snake::new(90, vec![Point::new(0, 0), Point::new(1, 0)]),
            Snake::new(
                90,
                vec![Point::new(2, 2), Point::new(2, 1), Point::new(2, 0)],
            ),
        ],
        food: vec![Point::new(4, 2), Point::new(0, 2), Point::new(3, 0)],
        bound: Point::new(4, 2),
    };
    let cells = board.flood(Point::new(0, 0));
    assert_eq!(
        cells,
        vec![Point::new(0, 1), Point::new(1, 1), Point::new(0, 2), Point::new(1, 2)]
    );
    let areas = board.get_area(&vec![Point::new(1, 1), Point::new(4, 0)]);
    assert_eq!(
        areas,
        vec![
            Area { safe: 3, hazardous: 1, food: Some(Point::new(0, 2)) },
            Area { safe: 8, hazardous: 2, food: Some(Point::new(4, 2)) },
        ]
    );
    assert!(board.is_free(&Point::new(3, 1)));
    assert!(!board.is_free(&Point::new(2, 1)));
    assert!(!board.is_free(&Point::new(5, 1)));
    let f = heuristic(&board, 0, &vec![Point::new(1, 1), Point::new(4, 0)]);
    assert_eq!(f.area, 3);
    assert_eq!(f.total_area, 11);
    assert_eq!(f.food_cost, Some(2));
    assert_eq!(f.harmless, 2);
    assert_eq!(f.length, 2);
    assert_eq!(f.total_length, 5);
    assert_eq!(f.total_dist, 5);
    assert_eq!(f.smaller_dist, 1);
    assert_eq!(f.bigger_dist, 5);
    let g = heuristic(&board, 1, &Vec::new());
    assert_eq!(g.smaller_dist, 5);
    assert_eq!(g.bigger_dist, 1);
    assert_eq!(g.harmless, 2);
}

#[test]
fn a_snake_alone_is_solo() {
    let board = Board {
        snakes: vec![Snake::new(50, vec![Point::new(0, 0), Point::new(0, 1), Point::new(0, 2)])],
        food: vec![Point::new(5, 0)],
        bound: Point::new(5, 2),
    };
    let f = heuristic(&board, 0, &Vec::new());
    assert!(f.solo);
    assert_eq!(score_of(&f), 2.0);
    assert_eq!(f.food_cost, Some(5));
    let food_score = (f.health as f32 - f.food_cost.unwrap() as f32) / f.health as f32;
    assert!((food_score - 0.9).abs() < 1e-6);
}

fn lone_snapshot(food: Vec<Point>, body: Vec<Point>, health: i32) -> GameInfo {
    let you = |body: &Vec<Point>| ApiSnake {
        id: String::from("me"),
        name: String::from("Me"),
        health,
        body: body.clone(),
        head: body[0],
        length: body.len() as i32,
        shout: String::new(),
    };
    GameInfo {
        game: GameData { id: String::from("game"), timeout: 500 },
        turn: 3,
        board: ApiBoard { height: 5, width: 5, food, hazards: Vec::new(), snakes: vec![you(&body)] },
        you: you(&body),
    }
}

#[test]
fn the_move_goes_towards_food() {
    let info = lone_snapshot(
        vec![Point::new(4, 2)],
        vec![Point::new(1, 2), Point::new(0, 2), Point::new(0, 1)],
        90,
    );
    assert!(is_fit(&info));
    let m = Move::new(&info);
    assert_eq!(m.movement, Direction::Right);
    assert!(m.shout.is_none());
    let info = lone_snapshot(
        vec![Point::new(1, 4)],
        vec![Point::new(1, 2), Point::new(0, 2), Point::new(0, 1)],
        90,
    );
    assert_eq!(Move::new(&info).movement, Direction::Up);
}

#[test]
fn the_move_falls_back_to_a_neighbour_with_room() {
    // no food: the first neighbour that leaves room is to the right
    let info = lone_snapshot(
        Vec::new(),
        vec![Point::new(1, 2), Point::new(0, 2), Point::new(0, 1)],
        90,
    );
    assert_eq!(Move::new(&info).movement, Direction::Right);
    // in the corner, right is off the board and left is the own body
    let info = lone_snapshot(
        Vec::new(),
        vec![Point::new(4, 0), Point::new(3, 0), Point::new(2, 0)],
        90,
    );
    assert_eq!(Move::new(&info).movement, Direction::Up);
    // food that is farther than the health lasts is not gone for
    let info = lone_snapshot(
        vec![Point::new(4, 4)],
        vec![Point::new(0, 0), Point::new(0, 1), Point::new(0, 2)],
        3,
    );
    assert_eq!(Move::new(&info).movement, Direction::Right);
}

#[test]
fn a_snapshot_that_does_not_fit_gets_the_default_move() {
    let mut info = lone_snapshot(
        vec![Point::new(4, 2)],
        vec![Point::new(1, 2), Point::new(0, 2), Point::new(0, 1)],
        90,
    );
    info.you.head = Point::new(i32::MAX, 0);
    assert!(!is_fit(&info));
    assert_eq!(Move::new(&info).movement, Direction::Up);
}

#[test]
fn the_grid_of_a_snapshot() {
    let mut info = lone_snapshot(
        vec![Point::new(4, 2), Point::new(0, 1)],
        vec![Point::new(1, 2), Point::new(0, 2), Point::new(0, 1)],
        90,
    );
    info.board.hazards = vec![Point::new(0, 2), Point::new(3, 3)];
    info.board.snakes.push(ApiSnake {
        id: String::from("other"),
        name: String::from("Other"),
        health: 50,
        body: vec![Point::new(3, 1), Point::new(3, 0), Point::new(2, 0), Point::new(1, 0)],
        head: Point::new(3, 1),
        length: 4,
        shout: String::new(),
    });
    let (grid, risk) = decision_grid(&info);
    assert_eq!(risk, vec![Point::new(4, 1), Point::new(2, 1), Point::new(3, 2)]);
    assert_eq!(grid.get_value(&Point::new(1, 2)), GridObject::Snake(0));
    assert_eq!(grid.get_value(&Point::new(0, 2)), GridObject::Snake(0));
    assert_eq!(grid.get_value(&Point::new(0, 1)), GridObject::Food);
    assert_eq!(grid.get_value(&Point::new(3, 3)), GridObject::Hazard);
    assert_eq!(grid.get_value(&Point::new(3, 0)), GridObject::Snake(1));
    assert_eq!(grid.get_value(&Point::new(2, 1)), GridObject::Collisionchance(91));
    assert_eq!(grid.get_value(&Point::new(4, 2)), GridObject::Food);
    assert_eq!(grid.get_value(&Point::new(4, 4)), GridObject::Empty);
}
