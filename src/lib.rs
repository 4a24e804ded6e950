use vstd::prelude::*;

pub mod bitboard;
pub mod board;
pub mod evaluate;
pub mod magic;
pub mod magic_simple;
pub mod movegen;
pub mod moves;
pub mod position;
pub mod search;
pub mod text;
pub mod uci;

verus! {

/// What can go wrong when a move, a position or a FEN text is handed in.
#[derive(Debug)]
pub enum Error {
    InvalidMove(String),
    InvalidPosition(String),
    InvalidFen(String),
}

pub type Result<T> = core::result::Result<T, Error>;

impl Error {
    /// The message this error is shown with: its kind, then its detail.
    pub fn message(&self) -> (r: String)
        ensures
            r@ == match self {
                Error::InvalidMove(s) => "Invalid move: "@ + s@,
                Error::InvalidPosition(s) => "Invalid position: "@ + s@,
                Error::InvalidFen(s) => "Invalid FEN: "@ + s@,
            },
    {
        let (prefix, detail) = match self {
            Error::InvalidMove(s) => ("Invalid move: ", s),
            Error::InvalidPosition(s) => ("Invalid position: ", s),
            Error::InvalidFen(s) => ("Invalid FEN: ", s),
        };
        let mut out = prefix.to_owned();
        text::push_str(&mut out, detail.as_str());
        out
    }
}

} // verus!
