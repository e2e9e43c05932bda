//! Decision engine for a snake on a bounded grid that it shares with other
//! snakes, with food and with hazards.
//!
//! Each turn a snapshot of the game comes in and one of four moves goes
//! out. The crate holds what decides the move:
//!
//! - the geometry: [`point`], [`direction`], [`path`];
//! - the snakes and the rules of one tick: [`snake`], [`board`];
//! - the grid index that is painted from a snapshot: [`grid`];
//! - the searches on the grid index: for a way of the least price
//!   ([`astar`], guided by a [`heuristic`]) and for room to escape to
//!   ([`dfs`]), and the move that is chosen with them ([`domove`]);
//! - the searches on the board: for a route ([`route`]) and for the room
//!   that a snake commands ([`area`]);
//! - the whole numbers that the score of a board is made of ([`score`]), and
//!   the search over the joint moves of all snakes ([`minimax`]), which
//!   the caller drives against the clock;
//! - the snapshot as the protocol hands it over ([`input`], [`api`]), the
//!   looks of the snake ([`props`]), the picture of a board for the log
//!   ([`game_logger`]) and the count of the games of a session
//!   ([`session`]).
//!
//! Every function states what it returns; the statements are proved.

pub mod api;
pub mod area;
pub mod astar;
pub mod board;
pub mod dfs;
pub mod direction;
pub mod domove;
pub mod game_logger;
pub mod grid;
pub mod heuristic;
pub mod input;
pub mod minimax;
pub mod path;
pub mod point;
pub mod props;
pub mod queue;
pub mod route;
pub mod score;
pub mod seqs;
pub mod session;
pub mod snake;
pub mod status;
