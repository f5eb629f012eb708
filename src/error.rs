use vstd::prelude::*;

verus! {

/// An error met while reading WSON text, with the place where it was met when known.
#[derive(Debug, Clone)]
pub struct WsonParseError {
    pub message: String,
    pub line: Option<usize>,
    pub column: Option<usize>,
}

impl WsonParseError {
    pub fn new(msg: String, line: Option<usize>, col: Option<usize>) -> (r: Self)
        ensures
            r.message@ == msg@,
            r.line == line,
            r.column == col,
    {
        WsonParseError { message: msg, line, column: col }
    }
}

/// An error met while writing WSON text.
#[derive(Debug, Clone)]
pub struct WsonSerializeError {
    pub message: String,
}

impl WsonSerializeError {
    pub fn new(msg: String) -> (r: Self)
        ensures
            r.message@ == msg@,
    {
        WsonSerializeError { message: msg }
    }
}

} // verus!
