//! The objects of the game's protocol, and the move that answers a
//! snapshot.

use vstd::prelude::*;
use crate::direction::Direction;
use crate::path::Path;
use crate::point::Point;
use crate::snake::{Snake, SnakeModel, FULL_HEALTH};
use crate::status::{Error, ErrorKind};

verus! {

/// The rules that a game is played by.
#[derive(Debug, Clone, Copy, PartialEq, Eq, Structural)]
pub enum GameMode {
    Solo,
    Standard,
    Royale,
    Wrapped,
    Constrictor,
    Squad,
    Custom,
}

/// The mode that a ruleset of the given name stands for.
pub open spec fn mode_of(name: Seq<char>) -> GameMode {
    if name == "solo"@ {
        GameMode::Solo
    } else if name == "standard"@ {
        GameMode::Standard
    } else if name == "royale"@ {
        GameMode::Royale
    } else if name == "wrapped"@ {
        GameMode::Wrapped
    } else if name == "constrictor"@ {
        GameMode::Constrictor
    } else if name == "squad"@ {
        GameMode::Squad
    } else {
        GameMode::Custom
    }
}

impl From<&str> for GameMode {
    fn from(f: &str) -> (mode: GameMode)
        ensures
            mode == mode_of(f@),
    {
        let name = f.to_owned();
        if name == "solo".to_owned() {
            GameMode::Solo
        } else if name == "standard".to_owned() {
            GameMode::Standard
        } else if name == "royale".to_owned() {
            GameMode::Royale
        } else if name == "wrapped".to_owned() {
            GameMode::Wrapped
        } else if name == "constrictor".to_owned() {
            GameMode::Constrictor
        } else if name == "squad".to_owned() {
            GameMode::Squad
        } else {
            GameMode::Custom
        }
    }
}

impl vstd::std_specs::convert::FromSpecImpl<&str> for GameMode {
    open spec fn obeys_from_spec() -> bool {
        true
    }

    open spec fn from_spec(f: &str) -> GameMode {
        mode_of(f@)
    }
}

/// What a royale game adds to the rules.
#[derive(Debug)]
pub struct RoyaleSettings {
    /// The number of turns between two growths of the hazards.
    pub shrink_n: i32,
}

/// What a squad game adds to the rules.
#[derive(Debug)]
pub struct SquadSettings {
    pub allow_collision: bool,
    pub shared_elimination: bool,
    pub shared_health: bool,
    pub shared_length: bool,
}

/// The settings of a ruleset.
#[derive(Debug)]
pub struct RulesetSettings {
    pub food_spawn_chance: u32,
    pub min_food: u32,
    /// The health that a hazard takes on top of the health of the step.
    pub hazard_dmg: u32,
    pub royale: RoyaleSettings,
    pub squad: SquadSettings,
}

/// The ruleset of a game.
#[derive(Debug)]
pub struct RuleSet {
    pub name: String,
    pub version: String,
    pub settings: Option<RulesetSettings>,
}

/// The game that a snapshot belongs to.
#[derive(Debug)]
pub struct GameContext {
    pub id: String,
    pub ruleset: RuleSet,
    /// The time that a turn may take, in milliseconds.
    pub timeout: u32,
    pub source: String,
}

impl GameContext {
    pub fn gamemode(&self) -> (mode: GameMode)
        ensures
            mode == mode_of(self.ruleset.name@),
    {
        GameMode::from(self.ruleset.name.as_str())
    }
}

/// A snake as the protocol describes it.
#[derive(Debug)]
pub struct Battlesnake {
    pub id: String,
    pub name: String,
    pub health: u8,
    /// The body, head first.
    pub body: Vec<Point>,
    pub latency: String,
    pub head: Point,
    pub length: i32,
    pub shout: String,
    pub squad: String,
}

impl Battlesnake {
    pub fn is_empty(&self) -> (b: bool)
        ensures
            b == (self.body@.len() == 0),
    {
        self.body.len() == 0
    }

    pub fn body_ref(&self) -> (body: &Vec<Point>)
        ensures
            body == &self.body,
    {
        &self.body
    }

    pub fn health(&self) -> (h: u8)
        ensures
            h == self.health,
    {
        self.health
    }

    /// Whether the simulation can take the snake: it has a body and no more
    /// than full health.
    pub open spec fn usable(self) -> bool {
        self.body@.len() > 0 && self.health <= FULL_HEALTH
    }
}

impl TryFrom<&Battlesnake> for Snake {
    type Error = Error;

    /// Fails with `FailedSnakeConversion` on a snake that is not usable.
    fn try_from(input: &Battlesnake) -> (r: Result<Snake, Error>)
        ensures
            r is Ok <==> input.usable(),
            r is Ok ==> r->Ok_0@ == (SnakeModel { health: input.health, body: input.body@ })
                && r->Ok_0@.wf(),
            r is Err ==> r == Err::<Snake, Error>(
                Error::Engine(ErrorKind::FailedSnakeConversion),
            ),
    {
        if input.is_empty() || input.health() > 100 {
            return Err(Error::Engine(ErrorKind::FailedSnakeConversion));
        }
        let body = input.body_ref().clone();
        assert(body@ =~= input.body@);
        Ok(Snake { health: input.health(), body: Path::from_vec(body) })
    }
}

/// The snake made of a snapshot holds a copy of the body: what it holds is
/// stated by `try_from` itself.
impl vstd::std_specs::convert::TryFromSpecImpl<&Battlesnake> for Snake {
    open spec fn obeys_try_from_spec() -> bool {
        false
    }

    open spec fn try_from_spec(input: &Battlesnake) -> Result<Snake, Error> {
        Err(Error::Engine(ErrorKind::FailedSnakeConversion))
    }
}

/// The board as the protocol describes it.
#[derive(Debug)]
pub struct Board {
    pub height: i32,
    pub width: i32,
    pub food: Vec<Point>,
    pub hazards: Vec<Point>,
    pub snakes: Vec<Battlesnake>,
}

impl Board {
    /// Rows and columns, in this order.
    pub fn dimensions(&self) -> (dim: (i32, i32))
        ensures
            dim == (self.height, self.width),
    {
        (self.height, self.width)
    }

    pub fn food(&self) -> (food: &Vec<Point>)
        ensures
            food == &self.food,
    {
        &self.food
    }

    pub fn hazards(&self) -> (hazards: &Vec<Point>)
        ensures
            hazards == &self.hazards,
    {
        &self.hazards
    }

    pub fn snakes(&self) -> (snakes: &Vec<Battlesnake>)
        ensures
            snakes == &self.snakes,
    {
        &self.snakes
    }
}

/// One turn's snapshot as the protocol describes it.
#[derive(Debug)]
pub struct GameState {
    pub game: GameContext,
    pub turn: u32,
    pub board: Board,
    pub you: Battlesnake,
}

impl GameState {
    pub fn gamemode(&self) -> (mode: GameMode)
        ensures
            mode == mode_of(self.game.ruleset.name@),
    {
        self.game.gamemode()
    }

    pub fn board_dimensions(&self) -> (dim: (i32, i32))
        ensures
            dim == (self.board.height, self.board.width),
    {
        self.board.dimensions()
    }

    pub fn board_food(&self) -> (food: &Vec<Point>)
        ensures
            food == &self.board.food,
    {
        self.board.food()
    }

    pub fn board_hazards(&self) -> (hazards: &Vec<Point>)
        ensures
            hazards == &self.board.hazards,
    {
        self.board.hazards()
    }

    pub fn board_snakes(&self) -> (snakes: &Vec<Battlesnake>)
        ensures
            snakes == &self.board.snakes,
    {
        self.board.snakes()
    }
}

/// The answer to a turn as the protocol wants it.
#[derive(Debug)]
pub struct Movement {
    pub direction: Direction,
    pub shout: Option<String>,
}

impl Movement {
    pub fn new(direction: Direction, shout: Option<String>) -> (m: Movement)
        ensures
            m.direction == direction,
            m.shout == shout,
    {
        Movement { direction, shout }
    }
}

impl Default for Movement {
    /// The fallback: up, and nothing to shout.
    fn default() -> (m: Movement)
        ensures
            m.direction == Direction::Up,
            m.shout is None,
    {
        Movement { direction: Direction::Up, shout: None }
    }
}

/// The move in a game of one snake.
pub fn solo(state: &GameState) -> (m: Movement)
    ensures
        m.direction == Direction::Up,
        m.shout is None,
{
    Movement::default()
}

/// The move in a game on a board without edges.
pub fn wrapped(state: &GameState) -> (m: Movement)
    ensures
        m.direction == Direction::Up,
        m.shout is None,
{
    Movement::default()
}

/// The move that answers the snapshot: in every mode the fallback.
pub fn make_move(state: &GameState) -> (m: Movement)
    ensures
        m.direction == Direction::Up,
        m.shout is None,
{
    match state.gamemode() {
        GameMode::Solo => solo(state),
        GameMode::Wrapped => wrapped(state),
        _ => Movement::default(),
    }
}

} // verus!
