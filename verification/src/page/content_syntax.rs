use vstd::prelude::*;

verus! {

/// The bytes of a content stream and a position in them.
#[derive(Debug)]
pub struct ContentSyntax {
    pub buffer: Vec<u8>,
    pub pos: u64,
}

impl ContentSyntax {
    pub fn new(buffer: Vec<u8>) -> (r: ContentSyntax)
        ensures
            r.buffer == buffer,
            r.pos == 0,
    {
        ContentSyntax { buffer, pos: 0 }
    }

    /// Whether the position is past the end of the bytes.
    pub fn is_end(&self) -> (r: bool)
        ensures
            r == (self.pos > self.buffer@.len()),
    {
        self.pos > self.buffer.len() as u64
    }
}

} // verus!
