use vstd::prelude::*;
use crate::error::{PdfError, PdfResult};
use crate::objects::{Obj, ObjectId, PdfDict, PdfObject, PdfStream, bytes_eq, copy_bytes, dict_get};
use crate::cross_ref_table::{CrossRefTable, ObjectInfo, ObjectState, xref_lookup};
use crate::parser::parser::PdfParser;
use crate::parser::syntax_spec::{ParseMode, spec_get_indirect};
use crate::parser::xref_stream::key_type;
use crate::store::{DocumentStore, StoreEntry, StoreValue, key_find, lemma_key_find_from};

verus! {

// ---------------------------------------------------------------- the objects of the file

/// `ObjStm`
pub open spec fn name_objstm() -> Seq<u8> {
    seq![79u8, 98u8, 106u8, 83u8, 116u8, 109u8]
}

/// `Root`
pub open spec fn key_root() -> Seq<u8> {
    seq![82u8, 111u8, 111u8, 116u8]
}

/// Whether an object is an object stream (a stream of `/Type /ObjStm`).
pub open spec fn is_objstm(o: Obj) -> bool {
    match o {
        Obj::Stream(dict, _) => dict_get(dict, key_type()) == Some(Obj::Name(name_objstm())),
        _ => false,
    }
}

/// Whether the cross-reference entries give the object `id`: an entry for its
/// number that is in use or compressed, with its generation.
pub open spec fn file_has(es: Seq<ObjectInfo>, id: ObjectId) -> bool {
    match xref_lookup(es, id.obj_num) {
        Some(info) => info.state != ObjectState::Free && info.gennum == id.gen_num,
        None => false,
    }
}

/// The object that the indirect object at `off` holds. The objects of an
/// object stream are not read: such a stream gives `Unsupported`.
#[verifier::opaque]
pub open spec fn spec_parse_at(d: Seq<u8>, mode: ParseMode, x: Option<Seq<ObjectInfo>>, off: u64) -> PdfResult<Obj> {
    match spec_get_indirect(d, off as int, mode, x).1 {
        Err(e) => Err(e),
        Ok((_, _, o)) => if is_objstm(o) {
            Err(PdfError::Unsupported)
        } else {
            Ok(o)
        },
    }
}

/// The object `id` of the file. An object in use is read at its offset. A
/// compressed object is looked for in the object stream that its entry names,
/// which must itself be in use; as the objects of an object stream are not
/// read, it is never found there.
pub open spec fn spec_file_object(
    d: Seq<u8>,
    mode: ParseMode,
    x: Option<Seq<ObjectInfo>>,
    es: Seq<ObjectInfo>,
    id: ObjectId,
) -> PdfResult<Obj> {
    if !file_has(es, id) {
        Err(PdfError::ObjectError)
    } else {
        let info = xref_lookup(es, id.obj_num)->0;
        match info.state {
            ObjectState::Normal => spec_parse_at(d, mode, x, info.offset),
            ObjectState::Compressed => {
                let sref = ObjectId { obj_num: (info.offset % 0x1_0000_0000) as u32, gen_num: 0 };
                if !file_has(es, sref) {
                    Err(PdfError::ObjectError)
                } else {
                    let si = xref_lookup(es, sref.obj_num)->0;
                    if si.state != ObjectState::Normal {
                        Err(PdfError::ObjectError)
                    } else {
                        match spec_parse_at(d, mode, x, si.offset) {
                            Err(e) => Err(e),
                            Ok(_) => Err(PdfError::ObjectError),
                        }
                    }
                }
            },
            ObjectState::Free => Err(PdfError::ObjectError),
        }
    }
}

/// What is read at an offset is never an object stream.
pub proof fn lemma_parse_at_not_objstm(d: Seq<u8>, mode: ParseMode, x: Option<Seq<ObjectInfo>>, off: u64)
    ensures
        spec_parse_at(d, mode, x, off) matches Ok(o) ==> !is_objstm(o),
{
    reveal(spec_parse_at);
}

// ---------------------------------------------------------------- ordered ids

/// The order of object ids: by object number, then by generation.
pub open spec fn id_lt(a: ObjectId, b: ObjectId) -> bool {
    a.obj_num < b.obj_num || (a.obj_num == b.obj_num && a.gen_num < b.gen_num)
}

/// Strictly increasing ids.
pub open spec fn ids_sorted(s: Seq<ObjectId>) -> bool {
    forall|i: int, j: int| 0 <= i < j < s.len() ==> id_lt(#[trigger] s[i], #[trigger] s[j])
}

fn id_less(a: ObjectId, b: ObjectId) -> (r: bool)
    ensures
        r == id_lt(a, b),
{
    a.obj_num < b.obj_num || (a.obj_num == b.obj_num && a.gen_num < b.gen_num)
}

fn contains_id(v: &Vec<ObjectId>, id: ObjectId) -> (r: bool)
    ensures
        r == v@.contains(id),
{
    let mut i: usize = 0;
    while i < v.len()
        invariant
            0 <= i <= v@.len(),
            forall|j: int| 0 <= j < i ==> v@[j] != id,
        decreases v.len() - i,
    {
        if v[i] == id {
            assert(v@[i as int] == id);
            return true;
        }
        i = i + 1;
    }
    false
}

/// Puts `id` at its place in an increasing list.
fn insert_sorted(v: &mut Vec<ObjectId>, id: ObjectId)
    requires
        ids_sorted(old(v)@),
        !old(v)@.contains(id),
    ensures
        ids_sorted(final(v)@),
        forall|k: ObjectId| #[trigger] final(v)@.contains(k) <==> (k == id || old(v)@.contains(k)),
        final(v)@.len() == old(v)@.len() + 1,
{
    let mut p: usize = 0;
    while p < v.len() && id_less(v[p], id)
        invariant
            0 <= p <= v@.len(),
            forall|j: int| 0 <= j < p ==> id_lt(#[trigger] v@[j], id),
        decreases v.len() - p,
    {
        p = p + 1;
    }
    let ghost s = v@;
    proof {
        if p < s.len() {
            assert(!id_lt(s[p as int], id));
            assert(s[p as int] != id);
            assert forall|j: int| p <= j < s.len() implies id_lt(id, #[trigger] s[j]) by {
                if j > p {
                    assert(id_lt(s[p as int], s[j]));
                }
                assert(s[j] != id);
            }
        }
    }
    v.insert(p, id);
    proof {
        assert(v@ =~= s.take(p as int).push(id) + s.skip(p as int));
        assert forall|i: int, j: int| 0 <= i < j < v@.len() implies id_lt(
            #[trigger] v@[i],
            #[trigger] v@[j],
        ) by {
            if j < p {
                assert(v@[i] == s[i] && v@[j] == s[j]);
            } else if j == p {
                assert(v@[i] == s[i]);
            } else if i < p {
                assert(v@[i] == s[i] && v@[j] == s[j - 1]);
                if p < s.len() {
                    assert(id_lt(id, s[j - 1]));
                }
            } else if i == p {
                assert(v@[j] == s[j - 1]);
            } else {
                assert(v@[i] == s[i - 1] && v@[j] == s[j - 1]);
            }
        }
        assert forall|k: ObjectId| #[trigger] v@.contains(k) <==> (k == id || s.contains(k)) by {
            if k == id {
                assert(v@[p as int] == k);
            }
            if s.contains(k) {
                let j = choose|j: int| 0 <= j < s.len() && s[j] == k;
                if j < p {
                    assert(v@[j] == k);
                } else {
                    assert(v@[j + 1] == k);
                }
            }
            if v@.contains(k) && k != id {
                let j = choose|j: int| 0 <= j < v@.len() && v@[j] == k;
                if j < p {
                    assert(s[j] == k);
                } else if j > p {
                    assert(s[j - 1] == k);
                }
            }
        }
    }
}

// ---------------------------------------------------------------- the context

/// The objects of an open document: those of the file, read through its
/// cross-reference table, and the changes made since it was opened.
#[derive(Debug)]
pub struct PDFContext {
    pub parser: PdfParser,
    pub cross_ref_table: CrossRefTable,
    pub store: DocumentStore,
}

impl PDFContext {
    /// The object `id` as the file gives it.
    pub open spec fn file_object(&self, id: ObjectId) -> PdfResult<Obj> {
        spec_file_object(
            self.parser.syntax.data@,
            self.parser.syntax.mode,
            self.parser.syntax.xref_spec(),
            self.cross_ref_table.entries@,
            id,
        )
    }

    /// Whether the file has the object `id`.
    pub open spec fn in_file(&self, id: ObjectId) -> bool {
        file_has(self.cross_ref_table.entries@, id)
    }

    /// The object `id` as the document has it now: its last change, or what
    /// the file gives.
    pub open spec fn object_value(&self, id: ObjectId) -> PdfResult<Obj> {
        match self.store.get(id) {
            Some(StoreValue::Upsert(o)) => Ok(o),
            Some(StoreValue::Deleted) => Err(PdfError::ObjectError),
            None => self.file_object(id),
        }
    }

    /// `id` is the first object of the file, in the order of object number
    /// and generation, that cannot be read, and `e` is what reading it gives.
    pub open spec fn first_failure(&self, id: ObjectId, e: PdfError) -> bool {
        &&& self.in_file(id)
        &&& self.file_object(id) == Err::<Obj, PdfError>(e)
        &&& forall|id2: ObjectId| #[trigger] self.in_file(id2) && id_lt(id2, id) ==> self.file_object(id2) is Ok
    }

    /// Whether `id` names an object of the file or one that was changed.
    pub open spec fn known(&self, id: ObjectId) -> bool {
        self.in_file(id) || self.store.get(id) is Some
    }

    /// No two objects of the document share a number: a changed object is an
    /// object of the file or has a number that the file does not use, and no
    /// two changed objects have the same number.
    pub open spec fn numbers_unique(&self) -> bool {
        &&& forall|a: ObjectId|
            #[trigger] self.store.get(a) is Some ==> self.in_file(a) || xref_lookup(
                self.cross_ref_table.entries@,
                a.obj_num,
            ) is None
        &&& forall|a: ObjectId, b: ObjectId|
            #[trigger] self.store.get(a) is Some && #[trigger] self.store.get(b) is Some && a.obj_num
                == b.obj_num ==> a == b
    }

    /// The next new object gets a number that no object of the file and no
    /// changed object has, and no two objects share a number.
    pub open spec fn wf(&self) -> bool {
        &&& self.store.wf()
        &&& forall|i: int|
            0 <= i < self.cross_ref_table.entries@.len()
                ==> #[trigger] self.cross_ref_table.entries@[i].objnum < self.store.next_obj_num
        &&& forall|i: int|
            0 <= i < self.store.keys@.len() ==> #[trigger] self.store.keys@[i].obj_num
                < self.store.next_obj_num
        &&& self.numbers_unique()
    }

    /// Two objects of the document with the same number are the same object.
    pub proof fn lemma_numbers_unique(&self, a: ObjectId, b: ObjectId)
        requires
            self.wf(),
            self.known(a),
            self.known(b),
            a.obj_num == b.obj_num,
        ensures
            a == b,
    {
        if self.in_file(a) && self.in_file(b) {
            assert(a.gen_num == b.gen_num);
        }
    }

    /// Nothing but the changes and the read position differ.
    pub open spec fn same_file(&self, other: &PDFContext) -> bool {
        &&& self.parser.syntax.same_input(&other.parser.syntax)
        &&& self.cross_ref_table == other.cross_ref_table
    }

    /// A context over the parser and the table; new objects are numbered
    /// after the largest object number of the table.
    pub fn try_new(parser: PdfParser, cross_ref_table: CrossRefTable) -> (r: PdfResult<PDFContext>)
        ensures
            match r {
                Ok(ctx) => {
                    &&& ctx.wf()
                    &&& ctx.parser == parser
                    &&& ctx.cross_ref_table == cross_ref_table
                    &&& forall|id: ObjectId| #[trigger] ctx.store.get(id) is None
                    &&& ctx.store.next_obj_num == (if cross_ref_table.entries@.len() == 0 {
                        1
                    } else {
                        max_objnum(cross_ref_table.entries@) + 1
                    })
                },
                Err(e) => e == PdfError::ObjectError && cross_ref_table.entries@.len() > 0
                    && max_objnum(cross_ref_table.entries@) == u32::MAX,
            },
    {
        let n = cross_ref_table.entries.len();
        let mut next: u32 = 1;
        let mut i: usize = 0;
        while i < n
            invariant
                n == cross_ref_table.entries@.len(),
                0 <= i <= n,
                next == (if i == 0 {
                    1
                } else {
                    max_objnum(cross_ref_table.entries@.take(i as int)) + 1
                }),
                forall|j: int| 0 <= j < i ==> #[trigger] cross_ref_table.entries@[j].objnum < next,
            decreases n - i,
        {
            let objnum = cross_ref_table.entries[i].objnum;
            proof {
                let es = cross_ref_table.entries@;
                assert(es.take(i + 1).drop_last() =~= es.take(i as int));
                assert(es.take(i + 1).last() == es[i as int]);
            }
            if objnum == u32::MAX {
                proof {
                    lemma_max_objnum_ge(cross_ref_table.entries@, i as int);
                }
                return Err(PdfError::ObjectError);
            }
            if objnum + 1 > next {
                next = objnum + 1;
            }
            i = i + 1;
        }
        proof {
            assert(cross_ref_table.entries@.take(n as int) =~= cross_ref_table.entries@);
            if n > 0 {
                lemma_max_objnum_bound(cross_ref_table.entries@);
            }
        }
        let store = DocumentStore::new(next);
        Ok(PDFContext { parser, cross_ref_table, store })
    }

    pub fn trailer(&self) -> (r: &PdfDict)
        ensures
            r@ == self.cross_ref_table.trailer@,
    {
        self.cross_ref_table.trailer()
    }

    /// Whether the file has the object `id`.
    fn has_file_object(&self, id: ObjectId) -> (r: bool)
        ensures
            r == self.in_file(id),
    {
        match self.cross_ref_table.lookup(&id.obj_num) {
            Some(info) => info.state != ObjectState::Free && info.gennum == id.gen_num,
            None => false,
        }
    }

    /// The objects of the file, by object number and generation.
    pub fn object_ids(&self) -> (r: Vec<ObjectId>)
        ensures
            ids_sorted(r@),
            forall|id: ObjectId| #[trigger] r@.contains(id) <==> self.in_file(id),
    {
        let n = self.cross_ref_table.entries.len();
        let mut ids: Vec<ObjectId> = Vec::new();
        let mut i: usize = 0;
        while i < n
            invariant
                n == self.cross_ref_table.entries@.len(),
                0 <= i <= n,
                ids_sorted(ids@),
                forall|id: ObjectId| #[trigger] ids@.contains(id) ==> self.in_file(id),
                forall|j: int|
                    0 <= j < i ==> #[trigger] self.in_file(
                        ObjectId {
                            obj_num: self.cross_ref_table.entries@[j].objnum,
                            gen_num: self.cross_ref_table.entries@[j].gennum,
                        },
                    ) ==> ids@.contains(
                        ObjectId {
                            obj_num: self.cross_ref_table.entries@[j].objnum,
                            gen_num: self.cross_ref_table.entries@[j].gennum,
                        },
                    ),
            decreases n - i,
        {
            let e = self.cross_ref_table.entries[i];
            let id = ObjectId::new(e.objnum, e.gennum);
            if self.has_file_object(id) && !contains_id(&ids, id) {
                insert_sorted(&mut ids, id);
            }
            i = i + 1;
        }
        proof {
            assert forall|id: ObjectId| self.in_file(id) implies #[trigger] ids@.contains(id) by {
                let es = self.cross_ref_table.entries@;
                crate::cross_ref_table::lemma_xref_lookup_from(es, id.obj_num, 0);
                let j = choose|j: int|
                    0 <= j < es.len() && es[j] == xref_lookup(es, id.obj_num)->0 && forall|m: int|
                        0 <= m < j ==> es[m].objnum != id.obj_num;
                assert(ObjectId { obj_num: es[j].objnum, gen_num: es[j].gennum } == id);
            }
        }
        ids
    }

    /// The objects that a saved document has: those of the file and the
    /// changed ones, by object number and generation.
    pub fn serializable_object_ids(&self) -> (r: Vec<ObjectId>)
        requires
            self.wf(),
        ensures
            ids_sorted(r@),
            forall|id: ObjectId| #[trigger] r@.contains(id) <==> self.known(id),
    {
        let mut ids = self.object_ids();
        let keys = self.store.ids();
        let mut i: usize = 0;
        while i < keys.len()
            invariant
                keys@ == self.store.keys@,
                self.wf(),
                0 <= i <= keys@.len(),
                ids_sorted(ids@),
                forall|id: ObjectId| #[trigger] ids@.contains(id) <==> (self.in_file(id) || exists|j: int|
                    0 <= j < i && keys@[j] == id),
            decreases keys.len() - i,
        {
            let k = keys[i];
            if !contains_id(&ids, k) {
                insert_sorted(&mut ids, k);
            }
            proof {
                assert forall|id: ObjectId| #[trigger] ids@.contains(id) <==> (self.in_file(id)
                    || exists|j: int| 0 <= j < i + 1 && keys@[j] == id) by {
                    if id == k {
                        assert(keys@[i as int] == id);
                    }
                }
            }
            i = i + 1;
        }
        proof {
            assert forall|id: ObjectId| #[trigger] ids@.contains(id) <==> self.known(id) by {
                lemma_key_find_from(self.store.keys@, id, 0);
                if exists|j: int| 0 <= j < keys@.len() && keys@[j] == id {
                    let j = choose|j: int| 0 <= j < keys@.len() && keys@[j] == id;
                    assert(key_find(self.store.keys@, id) is Some);
                }
                if self.store.get(id) is Some {
                    let j = key_find(self.store.keys@, id)->0;
                    assert(keys@[j] == id);
                }
            }
        }
        ids
    }

    /// The object of an object in use at `offset`; an object stream is refused.
    fn parse_indirect_object(&mut self, offset: u64) -> (r: PdfResult<PdfObject>)
        ensures
            final(self).same_file(old(self)),
            final(self).store == old(self).store,
            match spec_parse_at(
                old(self).parser.syntax.data@,
                old(self).parser.syntax.mode,
                old(self).parser.syntax.xref_spec(),
                offset,
            ) {
                Ok(o) => r matches Ok(obj) && obj@ == o,
                Err(e) => r == Err::<PdfObject, PdfError>(e),
            },
    {
        reveal(spec_parse_at);
        let obj = match self.parser.parse_indirect_obj(offset) {
            Ok(o) => o,
            Err(e) => {
                return Err(e);
            },
        };
        match self.populate_object_stream_entries(&obj) {
            Ok(_) => {},
            Err(e) => {
                return Err(e);
            },
        }
        Ok(obj)
    }

    /// The objects of an object stream are not read: an object stream is
    /// answered `Unsupported`, any other object is accepted.
    fn populate_object_stream_entries(&self, obj: &PdfObject) -> (r: PdfResult<()>)
        ensures
            r is Ok <==> !is_objstm(obj@),
            r is Err ==> r == Err::<(), PdfError>(PdfError::Unsupported),
    {
        let type_key: [u8; 4] = [84u8, 121u8, 112u8, 101u8];
        let objstm: [u8; 6] = [79u8, 98u8, 106u8, 83u8, 116u8, 109u8];
        assert(type_key@ =~= key_type());
        assert(objstm@ =~= name_objstm());
        let stream = match obj.as_stream() {
            Some(s) => s,
            None => {
                return Ok(());
            },
        };
        let st = match stream.dict().get(&type_key) {
            Some(t) => t,
            None => {
                return Ok(());
            },
        };
        let name = match st.as_name() {
            Some(n) => n,
            None => {
                return Ok(());
            },
        };
        if !bytes_eq(name.name(), &objstm) {
            return Ok(());
        }
        Err(PdfError::Unsupported)
    }

    /// Loads the object stream `stream_ref`, which must be an object in use;
    /// its objects are not read.
    fn load_object_stream(&mut self, stream_ref: ObjectId) -> (r: PdfResult<()>)
        ensures
            final(self).same_file(old(self)),
            final(self).store == old(self).store,
            match xref_lookup(old(self).cross_ref_table.entries@, stream_ref.obj_num) {
                Some(si) => if si.state != ObjectState::Normal || si.gennum != stream_ref.gen_num {
                    r == Err::<(), PdfError>(PdfError::ObjectError)
                } else {
                    match spec_parse_at(
                        old(self).parser.syntax.data@,
                        old(self).parser.syntax.mode,
                        old(self).parser.syntax.xref_spec(),
                        si.offset,
                    ) {
                        Ok(o) => if o is Stream {
                            r is Ok
                        } else {
                            r == Err::<(), PdfError>(PdfError::ObjectError)
                        },
                        Err(e) => r == Err::<(), PdfError>(e),
                    }
                },
                None => r == Err::<(), PdfError>(PdfError::ObjectError),
            },
    {
        let info = match self.cross_ref_table.lookup_id(stream_ref) {
            Some(i) => *i,
            None => {
                return Err(PdfError::ObjectError);
            },
        };
        if info.state != ObjectState::Normal || info.gennum != stream_ref.gen_num {
            return Err(PdfError::ObjectError);
        }
        proof {
            lemma_parse_at_not_objstm(
                self.parser.syntax.data@,
                self.parser.syntax.mode,
                self.parser.syntax.xref_spec(),
                info.offset,
            );
        }
        let object_stream = match self.parse_indirect_object(info.offset) {
            Ok(o) => o,
            Err(e) => {
                return Err(e);
            },
        };
        let stream = match object_stream.as_stream() {
            Some(st) => st,
            None => {
                return Err(PdfError::ObjectError);
            },
        };
        let copy = PdfObject::PdfStream(
            PdfStream::new(stream.dict().clone_dict(), copy_bytes(stream.raw_data())),
        );
        self.populate_object_stream_entries(&copy)
    }

    /// Reads the object `id` of the file.
    fn load_indirect_object(&mut self, object_id: ObjectId) -> (r: PdfResult<PdfObject>)
        ensures
            final(self).same_file(old(self)),
            final(self).store == old(self).store,
            match old(self).file_object(object_id) {
                Ok(o) => r matches Ok(obj) && obj@ == o,
                Err(e) => r == Err::<PdfObject, PdfError>(e),
            },
    {
        if !self.has_file_object(object_id) {
            return Err(PdfError::ObjectError);
        }
        let objinfo = match self.cross_ref_table.lookup_id(object_id) {
            Some(i) => *i,
            None => {
                return Err(PdfError::ObjectError);
            },
        };
        match objinfo.state {
            ObjectState::Normal => self.parse_indirect_object(objinfo.offset),
            ObjectState::Compressed => {
                let stream_ref = ObjectId::new((objinfo.offset % 4294967296u64) as u32, 0);
                match self.load_object_stream(stream_ref) {
                    Ok(_) => {},
                    Err(e) => {
                        return Err(e);
                    },
                }
                Err(PdfError::ObjectError)
            },
            ObjectState::Free => Err(PdfError::ObjectError),
        }
    }

    /// The object `object_id` of the file, as the file gives it.
    pub fn resolve_object_id(&mut self, object_id: ObjectId) -> (r: PdfResult<PdfObject>)
        ensures
            final(self).same_file(old(self)),
            final(self).store == old(self).store,
            match old(self).file_object(object_id) {
                Ok(o) => r matches Ok(obj) && obj@ == o,
                Err(e) => r == Err::<PdfObject, PdfError>(e),
            },
    {
        self.load_indirect_object(object_id)
    }

    /// The object `object_id` as the document has it now.
    pub fn resolve_object_owned(&mut self, object_id: ObjectId) -> (r: PdfResult<PdfObject>)
        requires
            old(self).wf(),
        ensures
            final(self).same_file(old(self)),
            final(self).store == old(self).store,
            match old(self).object_value(object_id) {
                Ok(o) => r matches Ok(obj) && obj@ == o,
                Err(e) => r == Err::<PdfObject, PdfError>(e),
            },
    {
        match self.store.entry(object_id) {
            Some(StoreEntry::Upsert(object)) => Ok(object.clone_object()),
            Some(StoreEntry::Deleted) => Err(PdfError::ObjectError),
            None => self.resolve_object_id(object_id),
        }
    }

    /// A reference is replaced by the object of the file that it names;
    /// another object is given back as it is.
    pub fn resolve(&mut self, obj: &PdfObject) -> (r: PdfResult<PdfObject>)
        ensures
            final(self).same_file(old(self)),
            final(self).store == old(self).store,
            match obj@ {
                Obj::Ref(n, g) => match old(self).file_object(ObjectId { obj_num: n, gen_num: g }) {
                    Ok(o) => r matches Ok(v) && v@ == o,
                    Err(e) => r == Err::<PdfObject, PdfError>(e),
                },
                _ => r matches Ok(v) && v@ == obj@,
            },
    {
        match obj {
            PdfObject::PdfReference(reference) => self.resolve_object_id(reference.id()),
            _ => Ok(obj.clone_object()),
        }
    }

    /// A reference is replaced by the object that it names as the document
    /// has it now; another object is given back as it is.
    pub fn resolve_owned(&mut self, obj: &PdfObject) -> (r: PdfResult<PdfObject>)
        requires
            old(self).wf(),
        ensures
            final(self).same_file(old(self)),
            final(self).store == old(self).store,
            match obj@ {
                Obj::Ref(n, g) => match old(self).object_value(ObjectId { obj_num: n, gen_num: g }) {
                    Ok(o) => r matches Ok(v) && v@ == o,
                    Err(e) => r == Err::<PdfObject, PdfError>(e),
                },
                _ => r matches Ok(v) && v@ == obj@,
            },
    {
        match obj {
            PdfObject::PdfReference(reference) => self.resolve_object_owned(reference.id()),
            _ => Ok(obj.clone_object()),
        }
    }

    /// Reads every object of the file; the first object that cannot be read
    /// gives its error.
    pub fn materialize_all_objects(&mut self) -> (r: PdfResult<()>)
        ensures
            final(self).same_file(old(self)),
            final(self).store == old(self).store,
            r is Ok <==> forall|id: ObjectId|
                #[trigger] old(self).in_file(id) ==> old(self).file_object(id) is Ok,
            r matches Err(e) ==> exists|id: ObjectId| #[trigger] old(self).first_failure(id, e),
    {
        let ids = self.object_ids();
        let mut i: usize = 0;
        while i < ids.len()
            invariant
                0 <= i <= ids@.len(),
                self.same_file(old(self)),
                self.store == old(self).store,
                ids_sorted(ids@),
                forall|id: ObjectId| #[trigger] ids@.contains(id) <==> old(self).in_file(id),
                forall|j: int| 0 <= j < i ==> old(self).file_object(#[trigger] ids@[j]) is Ok,
            decreases ids.len() - i,
        {
            let id = ids[i];
            assert(ids@.contains(id));
            match self.resolve_object_id(id) {
                Ok(_) => {},
                Err(e) => {
                    proof {
                        assert forall|id2: ObjectId| #[trigger] old(self).in_file(id2) && id_lt(id2, id) implies old(
                            self,
                        ).file_object(id2) is Ok by {
                            assert(ids@.contains(id2));
                            let j = choose|j: int| 0 <= j < ids@.len() && ids@[j] == id2;
                            if j >= i {
                                if j > i {
                                    assert(id_lt(ids@[i as int], ids@[j]));
                                }
                            }
                        }
                        assert(old(self).first_failure(id, e));
                    }
                    return Err(e);
                },
            }
            i = i + 1;
        }
        assert forall|id: ObjectId| #[trigger] old(self).in_file(id) implies old(self).file_object(
            id,
        ) is Ok by {
            assert(ids@.contains(id));
            let j = choose|j: int| 0 <= j < ids@.len() && ids@[j] == id;
        }
        Ok(())
    }

    /// Reads every object of the file, as `materialize_all_objects` does.
    pub fn parse_indirect_objects(&mut self) -> (r: PdfResult<()>)
        ensures
            final(self).same_file(old(self)),
            final(self).store == old(self).store,
            r is Ok <==> forall|id: ObjectId|
                #[trigger] old(self).in_file(id) ==> old(self).file_object(id) is Ok,
            r matches Err(e) ==> exists|id: ObjectId| #[trigger] old(self).first_failure(id, e),
    {
        self.materialize_all_objects()
    }

    /// The catalog that the trailer's `Root` names: read from the file when
    /// `current` is false, as the document has it now otherwise.
    pub open spec fn root_value(&self, current: bool) -> PdfResult<Seq<(Seq<u8>, Obj)>> {
        match dict_get(self.cross_ref_table.trailer@, key_root()) {
            None => Err(PdfError::DocumentError),
            Some(o) => {
                let v = match o {
                    Obj::Ref(n, g) => if current {
                        self.object_value(ObjectId { obj_num: n, gen_num: g })
                    } else {
                        self.file_object(ObjectId { obj_num: n, gen_num: g })
                    },
                    _ => Ok(o),
                };
                match v {
                    Err(e) => Err(e),
                    Ok(Obj::Dict(dd)) => Ok(dd),
                    Ok(_) => Err(PdfError::DocumentError),
                }
            },
        }
    }

    /// The catalog, as the file gives it.
    pub fn get_root(&mut self) -> (r: PdfResult<PdfDict>)
        ensures
            final(self).same_file(old(self)),
            final(self).store == old(self).store,
            match old(self).root_value(false) {
                Ok(dd) => r matches Ok(d) && d@ == dd,
                Err(e) => r == Err::<PdfDict, PdfError>(e),
            },
    {
        let root_key: [u8; 4] = [82u8, 111u8, 111u8, 116u8];
        assert(root_key@ =~= key_root());
        let root = match self.cross_ref_table.trailer().get(&root_key) {
            Some(o) => o.clone_object(),
            None => {
                return Err(PdfError::DocumentError);
            },
        };
        let resolved = match self.resolve(&root) {
            Ok(o) => o,
            Err(e) => {
                return Err(e);
            },
        };
        match resolved.into_dict() {
            Some(d) => Ok(d),
            None => Err(PdfError::DocumentError),
        }
    }

    /// The catalog, as the document has it now.
    pub fn get_root_owned(&mut self) -> (r: PdfResult<PdfDict>)
        requires
            old(self).wf(),
        ensures
            final(self).same_file(old(self)),
            final(self).store == old(self).store,
            match old(self).root_value(true) {
                Ok(dd) => r matches Ok(d) && d@ == dd,
                Err(e) => r == Err::<PdfDict, PdfError>(e),
            },
    {
        let root_key: [u8; 4] = [82u8, 111u8, 111u8, 116u8];
        assert(root_key@ =~= key_root());
        let root = match self.cross_ref_table.trailer().get(&root_key) {
            Some(o) => o.clone_object(),
            None => {
                return Err(PdfError::DocumentError);
            },
        };
        let resolved = match self.resolve_owned(&root) {
            Ok(o) => o,
            Err(e) => {
                return Err(e);
            },
        };
        match resolved.into_dict() {
            Some(d) => Ok(d),
            None => Err(PdfError::DocumentError),
        }
    }

    /// What a saved document holds for `id`: its value, `None` when it was
    /// deleted, an error when the document has no such object.
    pub open spec fn write_value(&self, id: ObjectId) -> PdfResult<Option<Obj>> {
        match self.store.get(id) {
            Some(StoreValue::Upsert(o)) => Ok(Some(o)),
            Some(StoreValue::Deleted) => Ok(None),
            None => if !self.in_file(id) {
                Err(PdfError::ObjectError)
            } else {
                match self.file_object(id) {
                    Ok(o) => Ok(Some(o)),
                    Err(e) => Err(e),
                }
            },
        }
    }

    /// The object `object_id` as a saved document holds it.
    pub fn object_for_write(&mut self, object_id: ObjectId) -> (r: PdfResult<Option<PdfObject>>)
        requires
            old(self).wf(),
        ensures
            final(self).same_file(old(self)),
            final(self).store == old(self).store,
            match old(self).write_value(object_id) {
                Ok(Some(o)) => r matches Ok(Some(obj)) && obj@ == o,
                Ok(None) => r matches Ok(None),
                Err(e) => r == Err::<Option<PdfObject>, PdfError>(e),
            },
    {
        match self.store.entry(object_id) {
            Some(StoreEntry::Upsert(object)) => {
                return Ok(Some(object.clone_object()));
            },
            Some(StoreEntry::Deleted) => {
                return Ok(None);
            },
            None => {},
        }
        if !self.has_file_object(object_id) {
            return Err(PdfError::ObjectError);
        }
        match self.resolve_object_id(object_id) {
            Ok(o) => Ok(Some(o)),
            Err(e) => Err(e),
        }
    }

    /// Adds a new object; it gets the next object number, with generation 0,
    /// which no object of the document had before.
    pub fn insert_object(&mut self, object: PdfObject) -> (r: ObjectId)
        requires
            old(self).wf(),
            old(self).store.next_obj_num < u32::MAX,
        ensures
            final(self).wf(),
            final(self).same_file(old(self)),
            r == (ObjectId { obj_num: old(self).store.next_obj_num, gen_num: 0 }),
            final(self).store.next_obj_num == old(self).store.next_obj_num + 1,
            !old(self).known(r),
            final(self).object_value(r) == Ok::<Obj, PdfError>(object@),
            final(self).known(r),
            forall|k: ObjectId| k != r ==> #[trigger] final(self).store.get(k) == old(self).store.get(k),
    {
        let ghost es = self.cross_ref_table.entries@;
        let ghost next = self.store.next_obj_num;
        let ghost ov = object@;
        let id = self.store.insert_object(object);
        proof {
            crate::cross_ref_table::lemma_xref_lookup_from(es, next, 0);
            lemma_key_find_from(old(self).store.keys@, id, 0);
            assert(self.store.get(id) == Some(StoreValue::Upsert(ov)));
            assert forall|i: int| 0 <= i < self.store.keys@.len() implies #[trigger] self.store.keys@[i].obj_num
                < self.store.next_obj_num by {
                assert(self.store.keys@.contains(self.store.keys@[i]));
                if self.store.keys@[i] != id {
                    assert(old(self).store.keys@.contains(self.store.keys@[i]));
                    let j = choose|j: int| 0 <= j < old(self).store.keys@.len() && old(self).store.keys@[j] == self.store.keys@[i];
                    assert(old(self).store.keys@[j].obj_num < next);
                }
            }
            assert forall|a: ObjectId| #[trigger] self.store.get(a) is Some implies self.in_file(a)
                || xref_lookup(self.cross_ref_table.entries@, a.obj_num) is None by {
                if a != id {
                    assert(old(self).store.get(a) is Some);
                }
            }
            assert forall|a: ObjectId, b: ObjectId|
                #[trigger] self.store.get(a) is Some && #[trigger] self.store.get(b) is Some
                    && a.obj_num == b.obj_num implies a == b by {
                if a != id && b != id {
                    assert(old(self).store.get(a) is Some && old(self).store.get(b) is Some);
                } else if a == id && b != id {
                    lemma_key_find_from(old(self).store.keys@, b, 0);
                    assert(old(self).store.get(b) is Some);
                } else if a != id && b == id {
                    lemma_key_find_from(old(self).store.keys@, a, 0);
                    assert(old(self).store.get(a) is Some);
                }
            }
        }
        id
    }

    /// Gives the object `object_id` a new value; it must be an object of the
    /// document.
    pub fn update_object(&mut self, object_id: ObjectId, object: PdfObject) -> (r: PdfResult<()>)
        requires
            old(self).wf(),
        ensures
            final(self).wf(),
            final(self).same_file(old(self)),
            final(self).store.next_obj_num == old(self).store.next_obj_num,
            r is Ok <==> old(self).known(object_id),
            r is Err ==> r == Err::<(), PdfError>(PdfError::ObjectError) && final(self).store
                == old(self).store,
            r is Ok ==> final(self).object_value(object_id) == Ok::<Obj, PdfError>(object@),
            r is Ok ==> final(self).known(object_id),
            forall|k: ObjectId| k != object_id ==> #[trigger] final(self).store.get(k) == old(self).store.get(k),
    {
        if !self.has_file_object(object_id) && self.store.entry(object_id).is_none() {
            return Err(PdfError::ObjectError);
        }
        let ghost ov = object@;
        proof {
            self.lemma_known_below_next(object_id);
        }
        self.store.update_object(object_id, object);
        proof {
            assert(self.store.get(object_id) == Some(StoreValue::Upsert(ov)));
            self.lemma_store_keys_below(old(self), object_id);
        }
        Ok(())
    }

    /// Deletes the object `object_id`; it must be an object of the document.
    pub fn delete_object(&mut self, object_id: ObjectId) -> (r: PdfResult<()>)
        requires
            old(self).wf(),
        ensures
            final(self).wf(),
            final(self).same_file(old(self)),
            final(self).store.next_obj_num == old(self).store.next_obj_num,
            r is Ok <==> old(self).known(object_id),
            r is Err ==> r == Err::<(), PdfError>(PdfError::ObjectError) && final(self).store
                == old(self).store,
            r is Ok ==> final(self).object_value(object_id) == Err::<Obj, PdfError>(
                PdfError::ObjectError,
            ),
            r is Ok ==> final(self).write_value(object_id) == Ok::<Option<Obj>, PdfError>(None),
            r is Ok ==> final(self).known(object_id),
            forall|k: ObjectId| k != object_id ==> #[trigger] final(self).store.get(k) == old(self).store.get(k),
    {
        if !self.has_file_object(object_id) && self.store.entry(object_id).is_none() {
            return Err(PdfError::ObjectError);
        }
        proof {
            self.lemma_known_below_next(object_id);
        }
        self.store.delete_object(object_id);
        proof {
            assert(self.store.get(object_id) == Some(StoreValue::Deleted));
            self.lemma_store_keys_below(old(self), object_id);
        }
        Ok(())
    }

    /// An object of the document has a number below the next one.
    pub proof fn lemma_known_below_next_pub(&self, id: ObjectId)
        requires
            self.wf(),
            self.known(id),
        ensures
            id.obj_num < self.store.next_obj_num,
    {
        self.lemma_known_below_next(id);
    }

    /// An object of the document has a number below the next one.
    proof fn lemma_known_below_next(&self, id: ObjectId)
        requires
            self.wf(),
            self.known(id),
        ensures
            id.obj_num < self.store.next_obj_num,
    {
        crate::cross_ref_table::lemma_xref_lookup_from(self.cross_ref_table.entries@, id.obj_num, 0);
        lemma_key_find_from(self.store.keys@, id, 0);
        if !self.in_file(id) {
            let j = key_find(self.store.keys@, id)->0;
            assert(self.store.keys@[j].obj_num < self.store.next_obj_num);
        }
    }

    /// After a change to `id`, below the next number, every changed object
    /// is still below it.
    proof fn lemma_store_keys_below(&self, before: &PDFContext, id: ObjectId)
        requires
            before.wf(),
            self.store.wf(),
            self.cross_ref_table == before.cross_ref_table,
            self.store.next_obj_num == before.store.next_obj_num,
            id.obj_num < before.store.next_obj_num,
            forall|k: ObjectId| #[trigger] self.store.keys@.contains(k) <==> (k == id || before.store.keys@.contains(k)),
            before.known(id),
            self.store.get(id) is Some,
            forall|k: ObjectId| k != id ==> #[trigger] self.store.get(k) == before.store.get(k),
        ensures
            self.wf(),
    {
        assert forall|a: ObjectId| #[trigger] self.store.get(a) is Some implies self.in_file(a) || xref_lookup(
            self.cross_ref_table.entries@,
            a.obj_num,
        ) is None by {
            if a != id {
                assert(before.store.get(a) is Some);
            }
        }
        assert forall|a: ObjectId, b: ObjectId|
            #[trigger] self.store.get(a) is Some && #[trigger] self.store.get(b) is Some && a.obj_num
                == b.obj_num implies a == b by {
            if a != id && b != id {
                assert(before.store.get(a) is Some && before.store.get(b) is Some);
            } else if a == id && b != id {
                assert(before.store.get(b) is Some);
                if before.in_file(b) || before.in_file(a) {
                    before.lemma_numbers_unique(a, b);
                } else {
                    assert(before.store.get(a) is Some);
                }
            } else if a != id && b == id {
                assert(before.store.get(a) is Some);
                if before.in_file(b) || before.in_file(a) {
                    before.lemma_numbers_unique(a, b);
                } else {
                    assert(before.store.get(b) is Some);
                }
            }
        }
        assert forall|i: int| 0 <= i < self.store.keys@.len() implies #[trigger] self.store.keys@[i].obj_num
            < self.store.next_obj_num by {
            assert(self.store.keys@.contains(self.store.keys@[i]));
            if self.store.keys@[i] != id {
                let j = choose|j: int| 0 <= j < before.store.keys@.len() && before.store.keys@[j] == self.store.keys@[i];
                assert(before.store.keys@[j].obj_num < before.store.next_obj_num);
            }
        }
    }
}

/// Two strictly increasing lists of ids with the same ids are the same list.
pub proof fn lemma_sorted_ids_unique(a: Seq<ObjectId>, b: Seq<ObjectId>)
    requires
        ids_sorted(a),
        ids_sorted(b),
        forall|x: ObjectId| #![trigger a.contains(x)] #![trigger b.contains(x)] a.contains(x) <==> b.contains(x),
    ensures
        a == b,
    decreases a.len(),
{
    if a.len() == 0 {
        if b.len() > 0 {
            assert(b.contains(b[0]));
        }
        assert(a =~= b);
    } else if b.len() == 0 {
        assert(a.contains(a[0]));
    } else {
        assert(a.contains(a[0]) && b.contains(b[0]));
        assert(a[0] == b[0]) by {
            if a[0] != b[0] {
                let j = choose|j: int| 0 <= j < b.len() && b[j] == a[0];
                let i = choose|i: int| 0 <= i < a.len() && a[i] == b[0];
                assert(id_lt(b[0], b[j]));
                assert(id_lt(a[0], a[i]));
            }
        }
        let a1 = a.drop_first();
        let b1 = b.drop_first();
        assert forall|x: ObjectId| #![trigger a1.contains(x)] #![trigger b1.contains(x)] a1.contains(x) <==> b1.contains(x) by {
            if a1.contains(x) {
                let i = choose|i: int| 0 <= i < a1.len() && a1[i] == x;
                assert(a[i + 1] == x);
                assert(id_lt(a[0], a[i + 1]));
                assert(b.contains(x));
                let j = choose|j: int| 0 <= j < b.len() && b[j] == x;
                if j == 0 {
                    assert(false);
                }
                assert(b1[j - 1] == x);
            }
            if b1.contains(x) {
                let j = choose|j: int| 0 <= j < b1.len() && b1[j] == x;
                assert(b[j + 1] == x);
                assert(id_lt(b[0], b[j + 1]));
                assert(a.contains(x));
                let i = choose|i: int| 0 <= i < a.len() && a[i] == x;
                if i == 0 {
                    assert(false);
                }
                assert(a1[i - 1] == x);
            }
        }
        assert(ids_sorted(a1)) by {
            assert forall|i: int, j: int| 0 <= i < j < a1.len() implies id_lt(#[trigger] a1[i], #[trigger] a1[j]) by {
                assert(a1[i] == a[i + 1] && a1[j] == a[j + 1]);
            }
        }
        assert(ids_sorted(b1)) by {
            assert forall|i: int, j: int| 0 <= i < j < b1.len() implies id_lt(#[trigger] b1[i], #[trigger] b1[j]) by {
                assert(b1[i] == b[i + 1] && b1[j] == b[j + 1]);
            }
        }
        lemma_sorted_ids_unique(a1, b1);
        assert(a =~= seq![a[0]] + a1);
        assert(b =~= seq![b[0]] + b1);
    }
}

/// The objects of the file never change: changing the document (inserting,
/// updating or deleting an object) keeps the same file, and the ids of the
/// file in order (what `object_ids` gives) are the same list before and after.
pub proof fn law_file_ids_unchanged(
    before: PDFContext,
    after: PDFContext,
    ids_before: Seq<ObjectId>,
    ids_after: Seq<ObjectId>,
)
    requires
        after.same_file(&before),
        ids_sorted(ids_before),
        forall|id: ObjectId| #[trigger] ids_before.contains(id) <==> before.in_file(id),
        ids_sorted(ids_after),
        forall|id: ObjectId| #[trigger] ids_after.contains(id) <==> after.in_file(id),
    ensures
        ids_after == ids_before,
{
    assert forall|x: ObjectId| #[trigger] ids_after.contains(x) <==> ids_before.contains(x) by {
        assert(after.in_file(x) == before.in_file(x));
    }
    lemma_sorted_ids_unique(ids_after, ids_before);
}

/// The objects that a saved document has grow by the changed object alone:
/// after inserting, updating or deleting the object `id`, the ids in order
/// (what `serializable_object_ids` gives) are those of before with `id`
/// added; a deleted object stays listed, and an object that was already
/// listed leaves the list as it was.
pub proof fn law_saved_ids_grow(
    before: PDFContext,
    after: PDFContext,
    id: ObjectId,
    ids_before: Seq<ObjectId>,
    ids_after: Seq<ObjectId>,
)
    requires
        after.same_file(&before),
        forall|k: ObjectId| k != id ==> #[trigger] after.store.get(k) == before.store.get(k),
        after.known(id),
        ids_sorted(ids_before),
        forall|k: ObjectId| #[trigger] ids_before.contains(k) <==> before.known(k),
        ids_sorted(ids_after),
        forall|k: ObjectId| #[trigger] ids_after.contains(k) <==> after.known(k),
    ensures
        forall|k: ObjectId| #[trigger] ids_after.contains(k) <==> (ids_before.contains(k) || k == id),
        before.known(id) ==> ids_after == ids_before,
{
    assert forall|k: ObjectId| #[trigger] ids_after.contains(k) <==> (ids_before.contains(k) || k == id) by {
        if k != id {
            assert(after.store.get(k) == before.store.get(k));
            assert(after.in_file(k) == before.in_file(k));
        }
    }
    if before.known(id) {
        assert forall|k: ObjectId| #[trigger] ids_after.contains(k) <==> ids_before.contains(k) by {
            if k == id {
                assert(ids_before.contains(id));
            }
        }
        lemma_sorted_ids_unique(ids_after, ids_before);
    }
}

/// A change to one object leaves every other object as it was: what it reads
/// as now and what a saved document holds for it are the same before and
/// after the change.
pub proof fn law_change_is_local(before: PDFContext, after: PDFContext, id: ObjectId, other: ObjectId)
    requires
        after.same_file(&before),
        forall|k: ObjectId| k != id ==> #[trigger] after.store.get(k) == before.store.get(k),
        other != id,
    ensures
        after.object_value(other) == before.object_value(other),
        after.write_value(other) == before.write_value(other),
        after.known(other) == before.known(other),
{
    assert(after.store.get(other) == before.store.get(other));
}

/// The largest object number of the entries.
pub open spec fn max_objnum(es: Seq<ObjectInfo>) -> u32
    decreases es.len(),
{
    if es.len() == 0 {
        0
    } else if es.len() == 1 {
        es[0].objnum
    } else {
        let m = max_objnum(es.drop_last());
        if es.last().objnum > m {
            es.last().objnum
        } else {
            m
        }
    }
}

pub proof fn lemma_max_objnum_bound(es: Seq<ObjectInfo>)
    ensures
        forall|i: int| 0 <= i < es.len() ==> #[trigger] es[i].objnum <= max_objnum(es),
        es.len() > 0 ==> exists|i: int| 0 <= i < es.len() && #[trigger] es[i].objnum == max_objnum(es),
    decreases es.len(),
{
    if es.len() == 1 {
        assert(es[0].objnum == max_objnum(es));
    } else if es.len() > 1 {
        lemma_max_objnum_bound(es.drop_last());
        assert forall|i: int| 0 <= i < es.len() implies #[trigger] es[i].objnum <= max_objnum(es) by {
            if i < es.len() - 1 {
                assert(es.drop_last()[i] == es[i]);
            }
        }
        let m = max_objnum(es.drop_last());
        if es.last().objnum <= m {
            let i = choose|i: int| 0 <= i < es.drop_last().len() && #[trigger] es.drop_last()[i].objnum == m;
            assert(es[i] == es.drop_last()[i]);
            assert(es[i].objnum == max_objnum(es));
        } else {
            assert(es[es.len() - 1].objnum == max_objnum(es));
        }
    }
}

pub proof fn lemma_max_objnum_ge(es: Seq<ObjectInfo>, i: int)
    requires
        0 <= i < es.len(),
    ensures
        max_objnum(es) >= es[i].objnum,
{
    lemma_max_objnum_bound(es);
}

} // verus!
