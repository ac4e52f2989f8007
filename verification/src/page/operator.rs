use vstd::prelude::*;
use crate::error::{PdfError, PdfResult};
use crate::objects::PdfObject;

verus! {

/// An operator of a content stream with its operands.
#[derive(Debug)]
pub struct Operator {
    pub op: String,
    pub operands: Vec<PdfObject>,
}

impl Default for Operator {
    fn default() -> (r: Operator)
        ensures
            r.op@ == Seq::<char>::empty(),
            r.operands@.len() == 0,
    {
        Operator { op: String::new(), operands: Vec::new() }
    }
}

impl Operator {
    pub fn new(op: String, operands: Vec<PdfObject>) -> (r: Operator)
        ensures
            r.op == op,
            r.operands == operands,
    {
        Operator { op, operands }
    }

    pub fn name(&self) -> (r: &str)
        ensures
            r@ == self.op@,
    {
        self.op.as_str()
    }

    /// The operand at `index`; an error when there are not that many.
    pub fn operand(&self, index: usize) -> (r: PdfResult<&PdfObject>)
        ensures
            index < self.operands@.len() ==> (r matches Ok(o) && *o == self.operands@[index as int]),
            index >= self.operands@.len() ==> r == Err::<&PdfObject, PdfError>(
                PdfError::ContentParseError,
            ),
    {
        if index < self.operands.len() {
            Ok(&self.operands[index])
        } else {
            Err(PdfError::ContentParseError)
        }
    }

    pub fn num_operands(&self) -> (r: usize)
        ensures
            r == self.operands@.len(),
    {
        self.operands.len()
    }
}

} // verus!
