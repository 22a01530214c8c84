use vstd::prelude::*;

use crate::position::Position;

verus! {

/// What went wrong.
#[derive(Clone, Copy, Debug, PartialEq, Eq, Structural)]
pub enum BadukErrorKind {
    /// The position lies off the board.
    InvalidPosition(Position),
    /// A checked placement onto an occupied intersection.
    AlreadyOccupied(Position),
    /// Board text whose number of intersections is not a square.
    InvalidInputSize,
    /// The move would leave a chain of the mover without liberties.
    SuicidalMove,
    /// The move retakes a ko at once.
    RetakingKo,
    /// The node has no board yet.
    MissingGoBoard,
    /// A board size set anywhere but on the root.
    InvalidRootNode,
    /// Input that cannot be acted on.
    InvalidInput,
}

/// An error of this library: its kind, and optionally a description of
/// the underlying cause.
#[derive(Debug)]
pub struct BadukError {
    pub kind: BadukErrorKind,
    pub source: Option<String>,
}

/// `r` is an error of kind `k`.
pub open spec fn fails_with<T>(r: Result<T, BadukError>, k: BadukErrorKind) -> bool {
    r is Err && r->Err_0.kind == k
}

impl BadukError {
    /// The description of the underlying cause, if one was given.
    pub open spec fn cause(&self) -> Option<String> {
        self.source
    }

    pub fn source(&self) -> (r: Option<&String>)
        ensures
            r is Some <==> self.cause() is Some,
            r is Some ==> *r->0 == self.cause()->0,
    {
        match &self.source {
            Some(s) => Some(s),
            None => None,
        }
    }

    fn with_cause(kind: BadukErrorKind, cause: String) -> (r: Self)
        ensures
            r.kind == kind,
            r.cause() == Some(cause),
    {
        BadukError { kind, source: Some(cause) }
    }

    pub fn invalid_position(pos: Position, cause: String) -> (r: Self)
        ensures
            r.kind == BadukErrorKind::InvalidPosition(pos),
            r.cause() == Some(cause),
    {
        Self::with_cause(BadukErrorKind::InvalidPosition(pos), cause)
    }

    pub fn already_occupied(pos: Position, cause: String) -> (r: Self)
        ensures
            r.kind == BadukErrorKind::AlreadyOccupied(pos),
            r.cause() == Some(cause),
    {
        Self::with_cause(BadukErrorKind::AlreadyOccupied(pos), cause)
    }

    pub fn invalid_input(cause: String) -> (r: Self)
        ensures
            r.kind == BadukErrorKind::InvalidInput,
            r.cause() == Some(cause),
    {
        Self::with_cause(BadukErrorKind::InvalidInput, cause)
    }

    pub fn invalid_root_node(cause: String) -> (r: Self)
        ensures
            r.kind == BadukErrorKind::InvalidRootNode,
            r.cause() == Some(cause),
    {
        Self::with_cause(BadukErrorKind::InvalidRootNode, cause)
    }

    pub fn missing_go_board(cause: String) -> (r: Self)
        ensures
            r.kind == BadukErrorKind::MissingGoBoard,
            r.cause() == Some(cause),
    {
        Self::with_cause(BadukErrorKind::MissingGoBoard, cause)
    }

    pub fn retaking_ko(cause: String) -> (r: Self)
        ensures
            r.kind == BadukErrorKind::RetakingKo,
            r.cause() == Some(cause),
    {
        Self::with_cause(BadukErrorKind::RetakingKo, cause)
    }

    pub fn suicidal_move(cause: String) -> (r: Self)
        ensures
            r.kind == BadukErrorKind::SuicidalMove,
            r.cause() == Some(cause),
    {
        Self::with_cause(BadukErrorKind::SuicidalMove, cause)
    }

    pub fn invalid_input_size(cause: String) -> (r: Self)
        ensures
            r.kind == BadukErrorKind::InvalidInputSize,
            r.cause() == Some(cause),
    {
        Self::with_cause(BadukErrorKind::InvalidInputSize, cause)
    }
}

impl From<BadukErrorKind> for BadukError {
    fn from(kind: BadukErrorKind) -> (r: BadukError) {
        BadukError { kind, source: None }
    }
}

impl vstd::std_specs::convert::FromSpecImpl<BadukErrorKind> for BadukError {
    open spec fn obeys_from_spec() -> bool {
        true
    }

    open spec fn from_spec(kind: BadukErrorKind) -> BadukError {
        BadukError { kind, source: None }
    }
}

impl BadukErrorKind {
    /// A short description of the error for people.
    pub fn message(&self) -> (r: &'static str)
        ensures
            r@ == kind_message(*self)@,
    {
        match self {
            BadukErrorKind::InvalidPosition(_) => "Invalid position",
            BadukErrorKind::AlreadyOccupied(_) => "Position already occupied",
            BadukErrorKind::InvalidInputSize => "Invalid input size",
            BadukErrorKind::SuicidalMove => "Suicidal move",
            BadukErrorKind::RetakingKo => "Illegal retaking of ko",
            BadukErrorKind::MissingGoBoard => "No go board defined",
            BadukErrorKind::InvalidRootNode => "Invalid root node",
            BadukErrorKind::InvalidInput => "Invalid input",
        }
    }
}

/// The description of each kind of error.
pub open spec fn kind_message(k: BadukErrorKind) -> &'static str {
    match k {
        BadukErrorKind::InvalidPosition(_) => "Invalid position",
        BadukErrorKind::AlreadyOccupied(_) => "Position already occupied",
        BadukErrorKind::InvalidInputSize => "Invalid input size",
        BadukErrorKind::SuicidalMove => "Suicidal move",
        BadukErrorKind::RetakingKo => "Illegal retaking of ko",
        BadukErrorKind::MissingGoBoard => "No go board defined",
        BadukErrorKind::InvalidRootNode => "Invalid root node",
        BadukErrorKind::InvalidInput => "Invalid input",
    }
}

impl BadukError {
    /// A short description of the error for people: that of its kind.
    pub fn message(&self) -> (r: &'static str)
        ensures
            r@ == kind_message(self.kind)@,
    {
        self.kind.message()
    }
}

} // verus!
