use battlesnake::game_logger::{GameGridLog, GameStateLog, GridObjectLog};
use battlesnake::input::{ApiSnake, Board as ApiBoard, GameData, GameInfo};
use battlesnake::point::Point;
use battlesnake::props::SnakeProps;
use battlesnake::session::SessionStats;

fn snapshot_picture() -> GameInfo {
    GameInfo {
        game: GameData { id: String::from("2c2d43ec-0fdb-4bf4-9a00-8f1d243238d4"), timeout: 500 },
        turn: 32,
        board: ApiBoard {
            height: 11,
            width: 11,
            food: vec![
                Point { x: 10, y: 6 },
            ],
            hazards: vec![
                Point { x: 10, y: 0 },
                Point { x: 10, y: 1 },
                Point { x: 10, y: 2 },
                Point { x: 10, y: 3 },
                Point { x: 10, y: 4 },
                Point { x: 10, y: 5 },
                Point { x: 10, y: 6 },
                Point { x: 10, y: 7 },
                Point { x: 10, y: 8 },
                Point { x: 10, y: 9 },
                Point { x: 10, y: 10 },
            ],
            snakes: vec![
                ApiSnake {
                    id: String::from("gs_9Xdgwh9wPKktBtXphrMt4d67"),
                    name: String::from("Eel In Snake's Clothing"),
                    health: 88,
                    body: vec![
                        Point { x: 3, y: 7 },
                        Point { x: 4, y: 7 },
                        Point { x: 4, y: 8 },
                        Point { x: 5, y: 8 },
                        Point { x: 6, y: 8 },
                    ],
                    head: Point { x: 3, y: 7 },
                    length: 5,
                    shout: String::from(""),
                },
                ApiSnake {
                    id: String::from("gs_fhDCrB9BmRfgWBgXj9cBCxqR"),
                    name: String::from("Go  Giddy"),
                    health: 100,
                    body: vec![
                        Point { x: 9, y: 3 },
                        Point { x: 9, y: 4 },
                        Point { x: 9, y: 5 },
                        Point { x: 8, y: 5 },
                        Point { x: 7, y: 5 },
                        Point { x: 7, y: 6 },
                        Point { x: 7, y: 6 },
                    ],
                    head: Point { x: 9, y: 3 },
                    length: 7,
                    shout: String::from(""),
                },
                ApiSnake {
                    id: String::from("gs_KTTWwyytWTBjgXkyh8gDp9VD"),
                    name: String::from("Untimely Neglected Wearable"),
                    health: 96,
                    body: vec![
                        Point { x: 7, y: 3 },
                        Point { x: 7, y: 2 },
                        Point { x: 8, y: 2 },
                        Point { x: 9, y: 2 },
                        Point { x: 9, y: 1 },
                        Point { x: 8, y: 1 },
                        Point { x: 7, y: 1 },
                    ],
                    head: Point { x: 7, y: 3 },
                    length: 7,
                    shout: String::from(""),
                },
                ApiSnake {
                    id: String::from("gs_8fMbQg9DHB9fMGxR7Hv39P9Q"),
                    name: String::from("Danger Noodle - A*/Flood"),
                    health: 80,
                    body: vec![
                        Point { x: 6, y: 4 },
                        Point { x: 6, y: 3 },
                        Point { x: 6, y: 2 },
                        Point { x: 5, y: 2 },
                        Point { x: 4, y: 2 },
                    ],
                    head: Point { x: 6, y: 4 },
                    length: 5,
                    shout: String::from(""),
                },
            ],
        },
        you: ApiSnake {
            id: String::from("gs_fhDCrB9BmRfgWBgXj9cBCxqR"),
            name: String::from("Go  Giddy"),
            health: 100,
            body: vec![
                Point { x: 9, y: 3 },
                Point { x: 9, y: 4 },
                Point { x: 9, y: 5 },
                Point { x: 8, y: 5 },
                Point { x: 7, y: 5 },
                Point { x: 7, y: 6 },
                Point { x: 7, y: 6 },
            ],
            head: Point { x: 9, y: 3 },
            length: 7,
            shout: String::from(""),
        },
    }
}

fn picture(grid: &GameGridLog) -> Vec<String> {
    let mut lines = Vec::new();
    let mut line = String::new();
    for i in (0..grid.len()).rev() {
        let mut sign = String::from(grid.get_cell(i).symbol());
        if grid.is_head(i) {
            sign = sign.to_uppercase();
            sign.push('!');
        }
        if grid.is_hazard(i) {
            sign.push('~');
        }
        line.insert_str(0, &sign);
        if i % grid.get_width() == 0 {
            lines.push(std::mem::take(&mut line));
        }
    }
    lines
}

#[test]
fn print() {
    let gameinfo = snapshot_picture();
    let game = GameStateLog::from_api(&gameinfo);
    println!("Turn {}", game.get_turn());
    for snake in game.get_legend().iter() {
        println!(
            "[ {:3} | {} ] {}",
            snake.health,
            GridObjectLog::Snake(snake.index).symbol(),
            snake.name
        );
    }
    let lines = picture(game.get_grid());
    for line in lines.iter() {
        println!("{}", line);
    }
    assert_eq!(game.get_turn(), gameinfo.turn);
    assert_eq!(game.get_legend().len(), gameinfo.board.snakes.len());
    assert_eq!(game.get_legend()[0].name, gameinfo.board.snakes[0].name);
    assert_eq!(lines.len(), gameinfo.board.height as usize);
    let grid = game.get_grid();
    for (k, snake) in gameinfo.board.snakes.iter().enumerate() {
        let head = snake.head;
        let i = grid.get_index(&head).unwrap();
        assert!(grid.is_head(i));
        assert!(matches!(grid.get_cell(i), GridObjectLog::Snake(n) if n >= k));
    }
    for h in gameinfo.board.hazards.iter() {
        assert!(grid.is_hazard(grid.get_index(h).unwrap()));
    }
}

#[test]
fn pictures_of_small_boards() {
    let mut grid = GameGridLog::new((2, 3));
    assert!(grid.is_in_bounds(&Point::new(2, 1)));
    assert!(!grid.is_in_bounds(&Point::new(3, 1)));
    assert_eq!(grid.get_index(&Point::new(2, 1)), Some(5));
    assert_eq!(grid.get_index(&Point::new(0, 2)), None);
    grid.set_snakes(vec![vec![Point::new(0, 0), Point::new(1, 0)], vec![Point::new(1, 0)]]);
    grid.set_food(&vec![Point::new(1, 0), Point::new(2, 1), Point::new(7, 7)]);
    assert_eq!(grid.get_cell(0), GridObjectLog::Snake(0));
    assert_eq!(grid.get_cell(1), GridObjectLog::Snake(1));
    assert_eq!(grid.get_cell(2), GridObjectLog::Empty);
    assert_eq!(grid.get_cell(5), GridObjectLog::Food);
    assert_eq!(picture(&grid), vec!["◦◦⚕", "■⌀◦"]);
    assert_eq!(GridObjectLog::Snake(7).symbol(), "☻");
    assert_eq!(GridObjectLog::Snake(8).symbol(), "S");
    assert_eq!(grid.get_height(), 2);
}

#[test]
fn session_basic() {
    let mut session = SessionStats::new(1);
    let mut now: u64 = 1_000_000;
    session.start_game("2c2d43ec-0fdb-4bf4-9a00-8f1d243238d4".to_string(), now);
    session.start_game("2c2d43ec-0fdb-4bf4-9a00-8f1d243238d5".to_string(), now);
    session.start_game("2c2d43ec-0fdb-4bf4-9a00-8f1d243238d6".to_string(), now);

    session.update_game(&"2c2d43ec-0fdb-4bf4-9a00-8f1d243238d4".to_string(), 70);
    session.update_game(&"2c2d43ec-0fdb-4bf4-9a00-8f1d243238d5".to_string(), 120);
    session.update_game(&"2c2d43ec-0fdb-4bf4-9a00-8f1d243238d6".to_string(), 80);
    assert_eq!(session.get_running_len(), 3);
    session.end_game(&"2c2d43ec-0fdb-4bf4-9a00-8f1d243238d6".to_string(), false);
    assert_eq!(session.get_running_len(), 2);
    assert_eq!(session.get_games(), 1);
    assert_eq!(session.get_total_turns(), 80);
    session.end_game(&"2c2d43ec-0fdb-4bf4-9a00-8f1d243238d4".to_string(), true);
    assert_eq!(session.get_running_len(), 1);
    assert_eq!(session.get_games(), 2);
    assert_eq!(session.get_total_turns(), 150);
    // two seconds later
    now += 2_000;
    session.start_game("2c2d43ec-0fdb-4bf4-9a00-8f1d243238d7".to_string(), now);
    assert_eq!(session.get_running_len(), 2);
    assert!(session.has_room());
    session.garbage_collect(now);
    assert_eq!(session.get_running_len(), 1);
    assert_eq!(session.get_games(), 3);
    assert_eq!(session.get_wins(), 1);
    assert_eq!(session.get_total_turns(), 270);
}

#[test]
fn session_details() {
    let mut session = SessionStats::new(20);
    assert_eq!(session.get_timeout(), 20);
    session.set_timeout(2_500);
    assert_eq!(session.get_timeout(), 2);
    let id = String::from("game");
    // a game that is not under way is passed over
    session.update_game(&id, 5);
    session.end_game(&id, true);
    assert_eq!(session.get_games(), 0);
    session.start_game(id.clone(), 100);
    session.update_game(&id, 5);
    // a game that starts again starts at turn 0
    session.start_game(id.clone(), 200);
    assert_eq!(session.get_running_len(), 1);
    // the clock has gone back: the game counts as one millisecond old
    session.garbage_collect(50);
    assert_eq!(session.get_running_len(), 1);
    // exactly as old as the timeout is not yet too old
    session.garbage_collect(2_700);
    assert_eq!(session.get_running_len(), 1);
    session.garbage_collect(2_701);
    assert_eq!(session.get_running_len(), 0);
    assert_eq!(session.get_games(), 1);
    assert_eq!(session.get_wins(), 0);
    assert_eq!(session.get_total_turns(), 0);
}

#[test]
fn the_snake_presents_itself() {
    let mut props = SnakeProps::new();
    assert_eq!(props.apiversion(), "1");
    assert_eq!(props.author(), "jiricodes");
    assert_eq!(props.color(), "#622BAA");
    assert_eq!(props.head(), "evil");
    assert_eq!(props.tail(), "rattle");
    assert_eq!(props.version(), "0.0.1");
    props.set_apiversion("2");
    props.set_author("someone");
    props.set_color("#000000");
    props.set_head("villain");
    props.set_tail("skinny-jeans");
    props.set_version("1.2.3");
    assert_eq!(props.apiversion(), "2");
    assert_eq!(props.author(), "someone");
    assert_eq!(props.color(), "#000000");
    assert_eq!(props.head(), "villain");
    assert_eq!(props.tail(), "skinny-jeans");
    assert_eq!(props.version(), "1.2.3");
}
