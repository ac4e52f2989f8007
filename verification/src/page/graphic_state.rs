use vstd::prelude::*;

verus! {

/// How the inside of a path is found.
#[derive(Debug, Clone, Copy, PartialEq, Eq, Structural)]
pub enum FillType {
    NoFill,
    EvenOdd,
    Winding,
}

impl Default for FillType {
    fn default() -> (r: FillType)
        ensures
            r == FillType::NoFill,
    {
        FillType::NoFill
    }
}

} // verus!
