use vstd::prelude::*;
use crate::page::graphic_state::FillType;
use crate::path::pdf_path::PdfPath;

verus! {

/// A path that clips, with its fill rule and the matrix it was given in.
#[derive(Debug, Clone)]
pub struct ClipElement<P, M> {
    pub path: PdfPath<P>,
    pub fill_type: FillType,
    pub matrix: M,
}

impl<P, M> ClipElement<P, M> {
    pub fn new(path: PdfPath<P>, fill_type: FillType, matrix: M) -> (r: ClipElement<P, M>)
        ensures
            r.path == path,
            r.fill_type == fill_type,
            r.matrix == matrix,
    {
        ClipElement { path, fill_type, matrix }
    }
}

/// The paths that clip, in the order they were added.
#[derive(Debug, Clone)]
pub struct ClipPath<P, M> {
    pub elements: Vec<ClipElement<P, M>>,
}

impl<P, M> Default for ClipPath<P, M> {
    fn default() -> (r: ClipPath<P, M>)
        ensures
            r.elements@.len() == 0,
    {
        ClipPath { elements: Vec::new() }
    }
}

impl<P, M> ClipPath<P, M> {
    pub fn add_path(&mut self, path: PdfPath<P>, fill_type: FillType, matrix: M)
        ensures
            final(self).elements@ == old(self).elements@.push(
                ClipElement { path, fill_type, matrix },
            ),
    {
        let element = ClipElement { path, fill_type, matrix };
        self.elements.push(element);
    }

    pub fn is_empty(&self) -> (r: bool)
        ensures
            r == (self.elements@.len() == 0),
    {
        self.elements.len() == 0
    }

    pub fn elements(&self) -> (r: &[ClipElement<P, M>])
        ensures
            r@ == self.elements@,
    {
        self.elements.as_slice()
    }
}

} // verus!
