use vstd::prelude::*;
use crate::error::{PdfError, PdfResult};
use crate::objects::{Obj, ObjectId, PdfObject};
use crate::cross_ref_table::{xref_lookup, xref_map};
use crate::parser::parser::{PdfParser, parse_xref, spec_parse_xref};
use crate::parser::syntax::SyntaxParser;
use crate::parser::syntax_spec::ParseMode;
use crate::pdf_context::{PDFContext, max_objnum};

verus! {

/// An open document: the objects of its file and the changes made to them.
#[derive(Debug)]
pub struct PdfDocument {
    pub ctx: PDFContext,
}

impl PdfDocument {
    /// Opens the document that the bytes hold: its cross-reference data is
    /// read, and the objects are read through it when they are asked for.
    pub fn from_bytes(data: Vec<u8>) -> (r: PdfResult<PdfDocument>)
        ensures
            match spec_parse_xref(data@, ParseMode::Compatible, None) {
                Err(e) => r == Err::<PdfDocument, PdfError>(e),
                Ok((m, t)) => match r {
                    Ok(doc) => {
                        &&& doc.ctx.wf()
                        &&& doc.ctx.parser.syntax.data@ == data@
                        &&& doc.ctx.parser.syntax.mode == ParseMode::Compatible
                        &&& doc.ctx.parser.syntax.xref_spec() == Some(
                            doc.ctx.cross_ref_table.entries@,
                        )
                        &&& xref_map(doc.ctx.cross_ref_table.entries@) == m
                        &&& doc.ctx.cross_ref_table.trailer@ == t
                        &&& forall|id: ObjectId| #[trigger] doc.ctx.store.get(id) is None
                    },
                    Err(e) => e == PdfError::ObjectError && m.contains_key(u32::MAX),
                },
            },
            spec_parse_xref(data@, ParseMode::Compatible, None) matches Ok((m, t)) ==> (r is Err
                <==> m.contains_key(u32::MAX)),
    {
        let mut syntax = SyntaxParser::new(data);
        let xref = match parse_xref(&mut syntax) {
            Ok(x) => x,
            Err(e) => {
                return Err(e);
            },
        };
        let syntax = syntax.with_xref_table(xref.clone_table());
        let parser = PdfParser::new(syntax);
        proof {
            let es = xref.entries@;
            crate::pdf_context::lemma_max_objnum_bound(es);
            crate::cross_ref_table::lemma_xref_lookup_from(es, u32::MAX, 0);
            if es.len() > 0 && max_objnum(es) == u32::MAX {
                let i = choose|i: int| 0 <= i < es.len() && #[trigger] es[i].objnum == max_objnum(es);
                crate::cross_ref_table::lemma_xref_lookup_from(es, u32::MAX, 0);
                assert(xref_map(es).contains_key(u32::MAX));
            }
            if xref_map(es).contains_key(u32::MAX) {
                assert(xref_lookup(es, u32::MAX) is Some);
                let j = choose|j: int| 0 <= j < es.len() && es[j] == xref_lookup(es, u32::MAX)->0 && forall|m: int|
                    0 <= m < j ==> es[m].objnum != u32::MAX;
                assert(es[j].objnum <= max_objnum(es));
            }
        }
        match PDFContext::try_new(parser, xref) {
            Ok(ctx) => Ok(PdfDocument { ctx }),
            Err(e) => Err(e),
        }
    }

    pub fn ctx(&self) -> (r: &PDFContext)
        ensures
            r == &self.ctx,
    {
        &self.ctx
    }

    /// The object `id` as the document has it now.
    pub fn resolve_object(&mut self, id: ObjectId) -> (r: PdfResult<PdfObject>)
        requires
            old(self).ctx.wf(),
        ensures
            final(self).ctx.same_file(&old(self).ctx),
            final(self).ctx.store == old(self).ctx.store,
            match old(self).ctx.object_value(id) {
                Ok(o) => r matches Ok(obj) && obj@ == o,
                Err(e) => r == Err::<PdfObject, PdfError>(e),
            },
    {
        self.ctx.resolve_object_owned(id)
    }

    /// Adds a new object to the document.
    pub fn insert_object(&mut self, object: PdfObject) -> (r: ObjectId)
        requires
            old(self).ctx.wf(),
            old(self).ctx.store.next_obj_num < u32::MAX,
        ensures
            final(self).ctx.wf(),
            final(self).ctx.same_file(&old(self).ctx),
            !old(self).ctx.known(r),
            final(self).ctx.object_value(r) == Ok::<Obj, PdfError>(object@),
            forall|k: ObjectId| k != r ==> #[trigger] final(self).ctx.store.get(k) == old(self).ctx.store.get(k),
    {
        self.ctx.insert_object(object)
    }

    /// Gives an object of the document a new value.
    pub fn update_object(&mut self, id: ObjectId, object: PdfObject) -> (r: PdfResult<()>)
        requires
            old(self).ctx.wf(),
        ensures
            final(self).ctx.wf(),
            final(self).ctx.same_file(&old(self).ctx),
            r is Ok <==> old(self).ctx.known(id),
            r is Err ==> r == Err::<(), PdfError>(PdfError::ObjectError) && final(self).ctx.store
                == old(self).ctx.store,
            r is Ok ==> final(self).ctx.object_value(id) == Ok::<Obj, PdfError>(object@),
            forall|k: ObjectId| k != id ==> #[trigger] final(self).ctx.store.get(k) == old(self).ctx.store.get(k),
    {
        self.ctx.update_object(id, object)
    }

    /// Deletes an object of the document.
    pub fn delete_object(&mut self, id: ObjectId) -> (r: PdfResult<()>)
        requires
            old(self).ctx.wf(),
        ensures
            final(self).ctx.wf(),
            final(self).ctx.same_file(&old(self).ctx),
            r is Ok <==> old(self).ctx.known(id),
            r is Err ==> r == Err::<(), PdfError>(PdfError::ObjectError) && final(self).ctx.store
                == old(self).ctx.store,
            r is Ok ==> final(self).ctx.object_value(id) == Err::<Obj, PdfError>(
                PdfError::ObjectError,
            ),
            forall|k: ObjectId| k != id ==> #[trigger] final(self).ctx.store.get(k) == old(self).ctx.store.get(k),
    {
        self.ctx.delete_object(id)
    }
}

} // verus!
