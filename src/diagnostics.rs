use vstd::prelude::*;
use crate::ir::Position;

verus! {

/// A non-fatal finding about the program, tied to a place in its source.
#[derive(Debug)]
pub struct Warning {
    pub message: String,
    pub position: Option<Position>,
}

/// How serious a diagnostic is.
#[derive(Clone, Copy, Debug, PartialEq, Eq, Structural)]
pub enum Level {
    Warning,
    Error,
}

/// A diagnostic as handed to the host for rendering.
#[derive(Debug)]
pub struct Info {
    pub level: Level,
    pub filename: String,
    pub message: String,
    pub position: Option<Position>,
    pub source: Option<String>,
}

} // verus!
