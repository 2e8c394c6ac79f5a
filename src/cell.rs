use vstd::prelude::*;

use crate::error::MazeError;

verus! {

/// The four legal cell classes.
#[derive(Clone, Copy, Debug, PartialEq, Eq, Structural)]
pub enum CellKind {
    Start,
    Goal,
    Open,
    Wall,
}

pub const START: char = 'S';
pub const GOAL: char = 'G';
pub const OPEN: char = '.';
pub const WALL: char = '#';

/// The class of a symbol, if it is one of the four legal ones.
pub open spec fn kind_of(c: char) -> Option<CellKind> {
    if c == 'S' {
        Some(CellKind::Start)
    } else if c == 'G' {
        Some(CellKind::Goal)
    } else if c == '.' {
        Some(CellKind::Open)
    } else if c == '#' {
        Some(CellKind::Wall)
    } else {
        None
    }
}

/// The class that a document code stands for.
pub open spec fn kind_of_code(k: u8) -> Option<CellKind> {
    if k == 0 {
        Some(CellKind::Start)
    } else if k == 1 {
        Some(CellKind::Goal)
    } else if k == 2 {
        Some(CellKind::Open)
    } else if k == 3 {
        Some(CellKind::Wall)
    } else {
        None
    }
}

/// The document code of a symbol: `S` 0, `G` 1, `.` 2, `#` 3.
pub open spec fn symbol_code(c: char) -> Option<u8> {
    match kind_of(c) {
        Some(k) => Some(k.spec_code()),
        None => None,
    }
}

/// The symbol that a document code stands for.
pub open spec fn code_symbol(k: u8) -> Option<char> {
    match kind_of_code(k) {
        Some(kind) => Some(kind.spec_symbol()),
        None => None,
    }
}

pub open spec fn is_legal(c: char) -> bool {
    kind_of(c) is Some
}

impl CellKind {
    pub open spec fn spec_symbol(self) -> char {
        match self {
            CellKind::Start => 'S',
            CellKind::Goal => 'G',
            CellKind::Open => '.',
            CellKind::Wall => '#',
        }
    }

    pub open spec fn spec_code(self) -> u8 {
        match self {
            CellKind::Start => 0,
            CellKind::Goal => 1,
            CellKind::Open => 2,
            CellKind::Wall => 3,
        }
    }

    /// The class of `c`, or `None` for a symbol outside the four legal ones.
    pub fn from_symbol(c: char) -> (r: Option<CellKind>)
        ensures
            r == kind_of(c),
    {
        if c == START {
            Some(CellKind::Start)
        } else if c == GOAL {
            Some(CellKind::Goal)
        } else if c == OPEN {
            Some(CellKind::Open)
        } else if c == WALL {
            Some(CellKind::Wall)
        } else {
            None
        }
    }

    /// The class that `code` stands for, or `None` for a code above 3.
    pub fn from_code(code: u8) -> (r: Option<CellKind>)
        ensures
            r == kind_of_code(code),
    {
        match code {
            0 => Some(CellKind::Start),
            1 => Some(CellKind::Goal),
            2 => Some(CellKind::Open),
            3 => Some(CellKind::Wall),
            _ => None,
        }
    }

    pub fn symbol(&self) -> (r: char)
        ensures
            r == self.spec_symbol(),
    {
        match self {
            CellKind::Start => START,
            CellKind::Goal => GOAL,
            CellKind::Open => OPEN,
            CellKind::Wall => WALL,
        }
    }

    pub fn code(&self) -> (r: u8)
        ensures
            r == self.spec_code(),
    {
        match self {
            CellKind::Start => 0,
            CellKind::Goal => 1,
            CellKind::Open => 2,
            CellKind::Wall => 3,
        }
    }
}

/// The document code of `c`; a symbol outside the four legal ones is a fault.
pub fn classify(c: char) -> (r: Result<u8, MazeError>)
    ensures
        match symbol_code(c) {
            Some(k) => r == Ok::<u8, MazeError>(k),
            None => r == Err::<u8, MazeError>(MazeError::UnknownSymbol(c)),
        },
{
    match CellKind::from_symbol(c) {
        Some(kind) => Ok(kind.code()),
        None => Err(MazeError::UnknownSymbol(c)),
    }
}

/// The symbol that `code` stands for, or `None` for a code above 3.
pub fn decode(code: u8) -> (r: Option<char>)
    ensures
        r == code_symbol(code),
{
    match CellKind::from_code(code) {
        Some(kind) => Some(kind.symbol()),
        None => None,
    }
}

/// Classification is total and one to one on the four legal symbols: a
/// symbol has a code exactly when it is legal, a code has a symbol exactly
/// when it is below 4, and a symbol has a code exactly when that code
/// stands for the symbol.
pub proof fn lemma_classification_bijective(c: char, k: u8)
    ensures
        (symbol_code(c) is Some) <==> (c == 'S' || c == 'G' || c == '.' || c == '#'),
        (code_symbol(k) is Some) <==> k < 4,
        (symbol_code(c) == Some(k)) <==> (code_symbol(k) == Some(c)),
{
}

} // verus!
