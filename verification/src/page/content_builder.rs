use vstd::prelude::*;
use vstd::string::StringSliceAdditionalSpecFns;
use crate::writer::escaped_bytes;

verus! {

/// Builds the bytes of a content stream, one operator line at a time.
#[derive(Debug)]
pub struct ContentBuilder {
    pub bytes: Vec<u8>,
}

impl Default for ContentBuilder {
    fn default() -> (r: ContentBuilder)
        ensures
            r.bytes@ == Seq::<u8>::empty(),
    {
        ContentBuilder { bytes: Vec::new() }
    }
}

/// A line: its bytes and a line feed.
pub open spec fn line_out(line: Seq<u8>) -> Seq<u8> {
    line.push(10u8)
}

/// The line that shows a text: the escaped text in parentheses, then `Tj`.
pub open spec fn show_text_line(text: Seq<u8>) -> Seq<u8> {
    seq![40u8] + escaped_bytes(text) + seq![41u8, 32u8, 84u8, 106u8]
}

impl ContentBuilder {
    pub fn new() -> (r: ContentBuilder)
        ensures
            r.bytes@ == Seq::<u8>::empty(),
    {
        ContentBuilder { bytes: Vec::new() }
    }

    /// `q`: saves the graphics state.
    pub fn save_state(&mut self) -> (r: &mut ContentBuilder)
        ensures
            r.bytes@ == old(self).bytes@ + line_out(seq![113u8]),
            *final(self) == *final(r),
    {
        self.push_operator_line(&[113u8]);
        self
    }

    /// `Q`: restores the graphics state.
    pub fn restore_state(&mut self) -> (r: &mut ContentBuilder)
        ensures
            r.bytes@ == old(self).bytes@ + line_out(seq![81u8]),
            *final(self) == *final(r),
    {
        self.push_operator_line(&[81u8]);
        self
    }

    /// `BT`: begins a text object.
    pub fn begin_text(&mut self) -> (r: &mut ContentBuilder)
        ensures
            r.bytes@ == old(self).bytes@ + line_out(seq![66u8, 84u8]),
            *final(self) == *final(r),
    {
        self.push_operator_line(&[66u8, 84u8]);
        self
    }

    /// `ET`: ends a text object.
    pub fn end_text(&mut self) -> (r: &mut ContentBuilder)
        ensures
            r.bytes@ == old(self).bytes@ + line_out(seq![69u8, 84u8]),
            *final(self) == *final(r),
    {
        self.push_operator_line(&[69u8, 84u8]);
        self
    }

    /// `(text) Tj`: shows a text, escaped as a literal string.
    pub fn show_text(&mut self, text: &str) -> (r: &mut ContentBuilder)
        ensures
            r.bytes@ == old(self).bytes@ + line_out(show_text_line(text.spec_bytes())),
            *final(self) == *final(r),
    {
        let escaped = escape_pdf_literal_string(text.as_bytes());
        let mut line: Vec<u8> = Vec::new();
        line.push(40u8);
        crate::writer::append(&mut line, escaped.as_slice());
        line.push(41u8);
        line.push(32u8);
        line.push(84u8);
        line.push(106u8);
        assert(line@ =~= show_text_line(text.spec_bytes()));
        self.push_line(line.as_slice());
        self
    }

    /// `f`: fills the path.
    pub fn fill(&mut self) -> (r: &mut ContentBuilder)
        ensures
            r.bytes@ == old(self).bytes@ + line_out(seq![102u8]),
            *final(self) == *final(r),
    {
        self.push_operator_line(&[102u8]);
        self
    }

    /// `S`: strokes the path.
    pub fn stroke(&mut self) -> (r: &mut ContentBuilder)
        ensures
            r.bytes@ == old(self).bytes@ + line_out(seq![83u8]),
            *final(self) == *final(r),
    {
        self.push_operator_line(&[83u8]);
        self
    }

    /// Adds a line as it is given.
    pub fn raw_operator(&mut self, line: &str) -> (r: &mut ContentBuilder)
        ensures
            r.bytes@ == old(self).bytes@ + line_out(line.spec_bytes()),
            *final(self) == *final(r),
    {
        self.push_line(line.as_bytes());
        self
    }

    /// The bytes built so far.
    pub fn build(&self) -> (r: Vec<u8>)
        ensures
            r@ == self.bytes@,
    {
        crate::objects::copy_bytes(self.bytes.as_slice())
    }

    fn push_operator_line(&mut self, operator: &[u8])
        ensures
            final(self).bytes@ == old(self).bytes@ + line_out(operator@),
    {
        self.push_line(operator);
    }

    fn push_line(&mut self, line: &[u8])
        ensures
            final(self).bytes@ == old(self).bytes@ + line_out(line@),
    {
        crate::writer::append(&mut self.bytes, line);
        self.bytes.push(10u8);
        assert(self.bytes@ =~= old(self).bytes@ + line_out(line@));
    }
}

/// Escapes a text for a literal string: the parentheses and the backslash are
/// escaped, and so are the line feed, carriage return, tab, backspace and
/// form feed, by their letters.
fn escape_pdf_literal_string(text: &[u8]) -> (r: Vec<u8>)
    ensures
        r@ == escaped_bytes(text@),
{
    let mut escaped: Vec<u8> = Vec::new();
    let mut i: usize = 0;
    while i < text.len()
        invariant
            0 <= i <= text@.len(),
            escaped@ == escaped_bytes(text@.take(i as int)),
        decreases text.len() - i,
    {
        let b = text[i];
        proof {
            assert(text@.take(i + 1).drop_last() =~= text@.take(i as int));
            assert(text@.take(i + 1).last() == b);
        }
        if b == 40u8 || b == 41u8 || b == 92u8 {
            escaped.push(92u8);
            escaped.push(b);
        } else if b == 10u8 {
            escaped.push(92u8);
            escaped.push(110u8);
        } else if b == 13u8 {
            escaped.push(92u8);
            escaped.push(114u8);
        } else if b == 9u8 {
            escaped.push(92u8);
            escaped.push(116u8);
        } else if b == 8u8 {
            escaped.push(92u8);
            escaped.push(98u8);
        } else if b == 12u8 {
            escaped.push(92u8);
            escaped.push(102u8);
        } else {
            escaped.push(b);
        }
        i = i + 1;
        assert(escaped@ =~= escaped_bytes(text@.take(i as int)));
    }
    assert(text@.take(i as int) =~= text@);
    escaped
}

} // verus!
