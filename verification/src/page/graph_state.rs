use vstd::prelude::*;

verus! {

/// The shape of the ends of stroked lines.
#[derive(Debug, Clone, Copy, PartialEq, Eq, Structural)]
pub enum LineCap {
    Butt,
    Round,
    Square,
}

impl Default for LineCap {
    fn default() -> (r: LineCap)
        ensures
            r == LineCap::Butt,
    {
        LineCap::Butt
    }
}

impl LineCap {
    /// The line cap of an operand value; an unknown value gives `Butt`.
    pub fn new_from_value(value: u8) -> (r: LineCap)
        ensures
            r == (if value == 1 {
                LineCap::Round
            } else if value == 2 {
                LineCap::Square
            } else {
                LineCap::Butt
            }),
    {
        match value {
            0 => LineCap::Butt,
            1 => LineCap::Round,
            2 => LineCap::Square,
            _ => LineCap::Butt,
        }
    }
}

/// The shape of the corners of stroked paths.
#[derive(Debug, Clone, Copy, PartialEq, Eq, Structural)]
pub enum LineJoin {
    Miter,
    Round,
    Bevel,
}

impl Default for LineJoin {
    fn default() -> (r: LineJoin)
        ensures
            r == LineJoin::Miter,
    {
        LineJoin::Miter
    }
}

impl LineJoin {
    /// The line join of an operand value; an unknown value gives the default, `Miter`.
    pub fn new_from_value(value: u8) -> (r: LineJoin)
        ensures
            r == (if value == 1 {
                LineJoin::Round
            } else if value == 2 {
                LineJoin::Bevel
            } else {
                LineJoin::Miter
            }),
    {
        match value {
            0 => LineJoin::Miter,
            1 => LineJoin::Round,
            2 => LineJoin::Bevel,
            _ => LineJoin::default(),
        }
    }
}

} // verus!
