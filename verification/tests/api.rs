use battlesnake::api::{
    make_move, solo, wrapped, Battlesnake, Board, GameContext, GameMode, GameState, Movement,
    RuleSet,
};
use battlesnake::direction::Direction;
use battlesnake::point::Point;
use battlesnake::snake::Snake;
use battlesnake::status::{Error, ErrorKind};

fn snake(health: u8, body: Vec<Point>) -> Battlesnake {
    Battlesnake {
        id: String::from("one"),
        name: String::from("One"),
        health,
        head: body.first().copied().unwrap_or(Point::new(0, 0)),
        length: body.len() as i32,
        body,
        latency: String::from("111"),
        shout: String::new(),
        squad: String::new(),
    }
}

fn state(mode: &str) -> GameState {
    GameState {
        game: GameContext {
            id: String::from("game"),
            ruleset: RuleSet { name: String::from(mode), version: String::from("v1"), settings: None },
            timeout: 500,
            source: String::from("league"),
        },
        turn: 7,
        board: Board {
            height: 7,
            width: 11,
            food: vec![Point::new(1, 1)],
            hazards: vec![Point::new(2, 2), Point::new(3, 3)],
            snakes: vec![snake(80, vec![Point::new(5, 5), Point::new(5, 4)])],
        },
        you: snake(80, vec![Point::new(5, 5), Point::new(5, 4)]),
    }
}

#[test]
fn game_modes_by_name() {
    assert_eq!(GameMode::from("solo"), GameMode::Solo);
    assert_eq!(GameMode::from("standard"), GameMode::Standard);
    assert_eq!(GameMode::from("royale"), GameMode::Royale);
    assert_eq!(GameMode::from("wrapped"), GameMode::Wrapped);
    assert_eq!(GameMode::from("constrictor"), GameMode::Constrictor);
    assert_eq!(GameMode::from("squad"), GameMode::Squad);
    assert_eq!(GameMode::from("Solo"), GameMode::Custom);
    assert_eq!(GameMode::from(""), GameMode::Custom);
    assert_eq!(state("royale").gamemode(), GameMode::Royale);
    assert_eq!(state("royale").game.gamemode(), GameMode::Royale);
}

#[test]
fn snapshot_getters() {
    let s = state("standard");
    assert_eq!(s.board_dimensions(), (7, 11));
    assert_eq!(s.board.dimensions(), (7, 11));
    assert_eq!(s.board_food(), &vec![Point::new(1, 1)]);
    assert_eq!(s.board_hazards().len(), 2);
    assert_eq!(s.board_snakes().len(), 1);
    assert_eq!(s.board.food().len(), 1);
    assert_eq!(s.board.hazards()[1], Point::new(3, 3));
    assert_eq!(s.board.snakes()[0].health(), 80);
    assert!(!s.you.is_empty());
    assert_eq!(s.you.body_ref(), &vec![Point::new(5, 5), Point::new(5, 4)]);
}

#[test]
fn every_mode_moves_up() {
    for mode in ["solo", "wrapped", "royale", "nothing"] {
        let m = make_move(&state(mode));
        assert_eq!(m.direction, Direction::Up);
        assert!(m.shout.is_none());
    }
    assert_eq!(solo(&state("solo")).direction, Direction::Up);
    assert_eq!(wrapped(&state("wrapped")).direction, Direction::Up);
    let m = Movement::new(Direction::Left, Some(String::from("hiss")));
    assert_eq!(m.direction, Direction::Left);
    assert_eq!(m.shout.as_deref(), Some("hiss"));
    assert_eq!(Movement::default().direction, Direction::Up);
}

#[test]
fn snakes_of_the_protocol_become_snakes_of_the_board() {
    let s = Snake::try_from(&snake(80, vec![Point::new(5, 5), Point::new(5, 4)])).unwrap();
    assert_eq!(s.health, 80);
    assert_eq!(s.body.nodes, vec![Point::new(5, 5), Point::new(5, 4)]);
    assert!(matches!(
        Snake::try_from(&snake(80, Vec::new())),
        Err(Error::Engine(ErrorKind::FailedSnakeConversion))
    ));
    assert!(Snake::try_from(&snake(101, vec![Point::new(5, 5)])).is_err());
}

#[test]
fn error_kinds_have_names_and_messages() {
    assert_eq!(ErrorKind::FailedConversion.as_str(), "Conversion Attempt failed");
    assert_eq!(
        ErrorKind::FailedSnakeConversion.as_str(),
        "Conversion from api::battlesnake::Battlesnake to Snake failed."
    );
    assert_eq!(ErrorKind::OutOfHealth.as_str(), "Snake is out of health with current move");
    assert_eq!(ErrorKind::FailedConversion.error_name(), "FailedConversion");
    assert_eq!(ErrorKind::FailedSnakeConversion.error_name(), "FailedConversion");
    assert_eq!(ErrorKind::OutOfHealth.error_name(), "SnakeDeath");
}
