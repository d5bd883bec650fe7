use vstd::prelude::*;

verus! {

/// A span of source text.
#[derive(Clone, Copy, Debug, PartialEq, Eq, Structural)]
pub struct Region {
    pub start_line: u32,
    pub end_line: u32,
    pub start_col: u16,
    pub end_col: u16,
}

impl Region {
    /// The region that covers nothing, at the start of the file.
    pub fn zero() -> (r: Region)
        ensures
            r == (Region { start_line: 0, end_line: 0, start_col: 0, end_col: 0 }),
    {
        Region { start_line: 0, end_line: 0, start_col: 0, end_col: 0 }
    }
}

/// A value together with the region of source text it came from.
#[derive(Clone, Debug, PartialEq, Eq)]
pub struct Located<T> {
    pub region: Region,
    pub value: T,
}

} // verus!
