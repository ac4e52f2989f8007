use vstd::prelude::*;

verus! {

/// A character shown on a page: where, its code, and its text when known.
#[derive(Debug, Clone)]
pub struct CharItem<P, C> {
    pub pos: P,
    pub charcode: C,
    pub unicode: Option<String>,
}

impl<P, C> CharItem<P, C> {
    pub fn new(pos: P, charcode: C, unicode: Option<String>) -> (r: CharItem<P, C>)
        ensures
            r.pos == pos,
            r.charcode == charcode,
            r.unicode == unicode,
    {
        CharItem { pos, charcode, unicode }
    }

    pub fn pos(&self) -> (r: &P)
        ensures
            *r == self.pos,
    {
        &self.pos
    }

    pub fn charcode(&self) -> (r: &C)
        ensures
            *r == self.charcode,
    {
        &self.charcode
    }

    pub fn unicode(&self) -> (r: Option<&String>)
        ensures
            match self.unicode {
                Some(s) => r == Some(&s),
                None => r is None,
            },
    {
        match &self.unicode {
            Some(s) => Some(s),
            None => None,
        }
    }
}

} // verus!
