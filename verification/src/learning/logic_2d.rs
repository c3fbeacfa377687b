use vstd::prelude::*;

verus! {

/// Which cells of a grid a rule of an agent applies to.
#[derive(Debug, Clone, Copy)]
pub enum Filter2D {
    IsAny,
    IsColor(usize),
    IsSymbol(usize),
}

/// A transformation of a symbol before it is put on a grid.
#[derive(Debug, Clone, Copy)]
pub enum Transformation2D {
    Identity,
    MirroredH,
    MirroredV,
    MirroredHV,
    Grow(usize),
    Rotate(usize),
}

/// A symbol of the context.
pub struct Symbol;

/// A color of the context, by number.
pub struct Color(pub usize);

/// A symbol named by index, or the one the filter matched.
#[derive(Debug, Clone, Copy)]
pub enum SymbolID {
    Index(usize),
    FilterVar,
}

/// A color named by index, or the one the filter matched.
#[derive(Debug, Clone, Copy)]
pub enum ColorID {
    Index(usize),
    FilterColor,
}

/// The symbols and colors an agent can use.
pub struct LogicContext2D {
    pub symbols: Vec<Symbol>,
    pub colors: Vec<Color>,
}

/// What a rule writes on the grid.
#[derive(Debug, Clone, Copy)]
pub enum Output2D {
    NoOutput,
    PutColor(ColorID),
    PutSymbol(Transformation2D, SymbolID),
}

/// A move of the agent on the grid.
#[derive(Debug, Clone, Copy)]
pub enum Movement2D {
    N,
    NE,
    E,
    SE,
    S,
    SW,
    W,
    NW,
}

/// Index of a state of an agent.
pub type StateID = usize;

/// The state in which an agent stops.
pub const HALT: StateID = usize::MAX;

/// A rule of an agent: when the filter matches, write, move, and go to the state.
pub type Agent2DCase = (Filter2D, Output2D, Movement2D, StateID);

/// The rules of a state of an agent.
pub type Agent2DState = Vec<Agent2DCase>;

/// An agent moving on a two-dimensional grid, driven like a Turing machine by its states.
pub struct Agent2D {
    pub states: Vec<Agent2DState>,
}

} // verus!
