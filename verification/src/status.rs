//! Errors reported by the engine.

use vstd::prelude::*;

verus! {

/// What went wrong inside the engine.
#[derive(Clone, Copy, Debug, PartialEq, Eq, Hash, Structural)]
pub enum ErrorKind {
    /// A point that is no unit step was read as a direction.
    FailedConversion,
    /// A snake without body, with a health above 100 or with coordinates
    /// outside the supported range was handed to the simulation.
    FailedSnakeConversion,
    /// A health reduction used up all the health.
    OutOfHealth,
}

impl ErrorKind {
    /// The message of this kind.
    pub open spec fn message(self) -> Seq<char> {
        match self {
            ErrorKind::FailedConversion => "Conversion Attempt failed"@,
            ErrorKind::FailedSnakeConversion => "Conversion from api::battlesnake::Battlesnake to Snake failed."@,
            ErrorKind::OutOfHealth => "Snake is out of health with current move"@,
        }
    }

    /// The name of the group of errors that this kind belongs to.
    pub open spec fn group(self) -> Seq<char> {
        match self {
            ErrorKind::OutOfHealth => "SnakeDeath"@,
            _ => "FailedConversion"@,
        }
    }

    /// Human readable message.
    pub fn as_str(&self) -> (s: &'static str)
        ensures
            s@ == self.message(),
    {
        match *self {
            ErrorKind::FailedConversion => "Conversion Attempt failed",
            ErrorKind::FailedSnakeConversion => {
                "Conversion from api::battlesnake::Battlesnake to Snake failed."
            },
            ErrorKind::OutOfHealth => "Snake is out of health with current move",
        }
    }

    /// Name of the group of errors this kind belongs to.
    pub fn error_name(&self) -> (s: &'static str)
        ensures
            s@ == self.group(),
    {
        match *self {
            ErrorKind::FailedConversion | ErrorKind::FailedSnakeConversion => "FailedConversion",
            ErrorKind::OutOfHealth => "SnakeDeath",
        }
    }
}

/// Error type of the engine.
#[derive(Debug)]
pub enum Error {
    /// An error raised by the engine itself.
    Engine(ErrorKind),
    /// A free-form error.
    Custom(String),
}

} // verus!
