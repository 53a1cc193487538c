//! Source files and locations in them.
use vstd::prelude::*;

verus! {

/// A piece of Cotowali code, with the name it is known by.
#[derive(Clone, Debug)]
pub struct Source {
    pub name: String,
    pub code: String,
}

impl Source {
    /// A source with the given name and code.
    pub fn dummy(name: &str, code: String) -> (res: Source)
        ensures
            res.name@ == name@,
            res.code@ == code@,
    {
        Source { name: String::from_str(name), code }
    }

    /// A source written inline, such as in a test.
    pub fn inline(code: &str) -> (res: Source)
        ensures
            res.name@ == "<inline>"@,
            res.code@ == code@,
    {
        Source { name: String::from_str("<inline>"), code: String::from_str(code) }
    }
}

/// A span of source code: its first byte, its length in bytes, and the line
/// and column (both counted from 1) where it starts.
#[derive(Clone, Copy, PartialEq, Eq, Structural, Debug)]
pub struct Loc {
    pub index: usize,
    pub len: usize,
    pub line: usize,
    pub column: usize,
}

/// A location as mathematical integers.
pub struct SpecLoc {
    pub index: int,
    pub len: int,
    pub line: int,
    pub column: int,
}

impl View for Loc {
    type V = SpecLoc;

    open spec fn view(&self) -> SpecLoc {
        SpecLoc {
            index: self.index as int,
            len: self.len as int,
            line: self.line as int,
            column: self.column as int,
        }
    }
}

impl Loc {
    /// The empty span at the start of a source.
    pub fn head() -> (res: Loc)
        ensures
            res == (Loc { index: 0, len: 0, line: 1, column: 1 }),
    {
        Loc { index: 0, len: 0, line: 1, column: 1 }
    }

    /// The span from byte `begin` to byte `end`, starting at `line` and `column`.
    pub fn new(begin: usize, end: usize, line: usize, column: usize) -> (res: Loc)
        requires
            begin <= end,
        ensures
            res == (Loc { index: begin, len: (end - begin) as usize, line, column }),
    {
        Loc { index: begin, len: end - begin, line, column }
    }
}

} // verus!
