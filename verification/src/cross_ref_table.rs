use vstd::prelude::*;
use crate::objects::{ObjectId, PdfDict, Obj};

verus! {

/// How an object is stored: in use at a byte offset, free, or inside an object stream.
#[derive(Debug, Clone, Copy, PartialEq, Eq, Structural)]
pub enum ObjectState {
    Normal,
    Free,
    Compressed,
}

/// One cross-reference entry.
#[derive(Debug, Clone, Copy, PartialEq, Eq, Structural)]
pub struct ObjectInfo {
    pub objnum: u32,
    pub offset: u64,
    pub gennum: u32,
    pub state: ObjectState,
}

impl ObjectInfo {
    pub fn new(objnum: u32, offset: u64, gennum: u32, state: ObjectState) -> (r: ObjectInfo)
        ensures
            r == (ObjectInfo { objnum, offset, gennum, state }),
    {
        ObjectInfo { objnum, offset, gennum, state }
    }

    pub fn objnum(&self) -> (r: u32)
        ensures
            r == self.objnum,
    {
        self.objnum
    }

    pub fn offset(&self) -> (r: u64)
        ensures
            r == self.offset,
    {
        self.offset
    }

    pub fn gennum(&self) -> (r: u32)
        ensures
            r == self.gennum,
    {
        self.gennum
    }

    pub fn state(&self) -> (r: ObjectState)
        ensures
            r == self.state,
    {
        self.state
    }
}

/// The first entry for object number `n`, searching from index `i`.
pub open spec fn xref_lookup_from(es: Seq<ObjectInfo>, n: u32, i: int) -> Option<ObjectInfo>
    decreases es.len() - i,
{
    if i < 0 || i >= es.len() {
        None
    } else if es[i].objnum == n {
        Some(es[i])
    } else {
        xref_lookup_from(es, n, i + 1)
    }
}

/// The entry for object number `n`: the first one that names it.
pub open spec fn xref_lookup(es: Seq<ObjectInfo>, n: u32) -> Option<ObjectInfo> {
    xref_lookup_from(es, n, 0)
}

/// The entries as a map from object numbers.
pub open spec fn xref_map(es: Seq<ObjectInfo>) -> Map<u32, ObjectInfo> {
    Map::new(|n: u32| xref_lookup(es, n) is Some, |n: u32| xref_lookup(es, n)->0)
}

pub proof fn lemma_xref_lookup_from(es: Seq<ObjectInfo>, n: u32, i: int)
    requires
        0 <= i,
    ensures
        match xref_lookup_from(es, n, i) {
            Some(info) => info.objnum == n && exists|j: int|
                i <= j < es.len() && es[j] == info && forall|m: int| i <= m < j ==> es[m].objnum != n,
            None => forall|m: int| i <= m < es.len() ==> es[m].objnum != n,
        },
    decreases es.len() - i,
{
    if i < es.len() && es[i].objnum != n {
        lemma_xref_lookup_from(es, n, i + 1);
    }
}


/// Looking up after a push: the old entry when there is one, else the pushed one.
pub proof fn lemma_xref_lookup_push(es: Seq<ObjectInfo>, x: ObjectInfo, n: u32, i: int)
    requires
        0 <= i <= es.len(),
    ensures
        xref_lookup_from(es.push(x), n, i) == (match xref_lookup_from(es, n, i) {
            Some(a) => Some(a),
            None => if x.objnum == n {
                Some(x)
            } else {
                None
            },
        }),
    decreases es.len() - i,
{
    if i < es.len() {
        assert(es.push(x)[i] == es[i]);
        if es[i].objnum != n {
            lemma_xref_lookup_push(es, x, n, i + 1);
        }
    } else {
        assert(es.push(x)[i] == x);
        assert(xref_lookup_from(es.push(x), n, i + 1) is None);
        assert(xref_lookup_from(es, n, i) is None);
    }
}

/// Two sequences that agree on the entries that name `n` give the same lookup.
pub proof fn lemma_xref_lookup_congruent(es1: Seq<ObjectInfo>, es2: Seq<ObjectInfo>, n: u32, i: int)
    requires
        es1.len() == es2.len(),
        0 <= i,
        forall|m: int|
            0 <= m < es1.len() ==> ((#[trigger] es1[m]).objnum == n) == (es2[m].objnum == n),
        forall|m: int| 0 <= m < es1.len() && (#[trigger] es1[m]).objnum == n ==> es1[m] == es2[m],
    ensures
        xref_lookup_from(es1, n, i) == xref_lookup_from(es2, n, i),
    decreases es1.len() - i,
{
    if i < es1.len() {
        if es1[i].objnum != n {
            lemma_xref_lookup_congruent(es1, es2, n, i + 1);
        }
    }
}

/// The lookup finds the first entry that names `n`.
pub proof fn lemma_xref_lookup_first(es: Seq<ObjectInfo>, n: u32, k: int, i: int)
    requires
        0 <= k <= i < es.len(),
        es[i].objnum == n,
        forall|m: int| k <= m < i ==> (#[trigger] es[m]).objnum != n,
    ensures
        xref_lookup_from(es, n, k) == Some(es[i]),
    decreases i - k,
{
    if k < i {
        lemma_xref_lookup_first(es, n, k + 1, i);
    }
}

/// The entry at index `i` after `find` stopped there is what the lookup gives.
pub proof fn lemma_xref_lookup_none(es: Seq<ObjectInfo>, n: u32, i: int)
    requires
        0 <= i,
        forall|m: int| i <= m < es.len() ==> (#[trigger] es[m]).objnum != n,
    ensures
        xref_lookup_from(es, n, i) is None,
    decreases es.len() - i,
{
    if i < es.len() {
        lemma_xref_lookup_none(es, n, i + 1);
    }
}

/// A cross-reference table: its entries and the trailer dictionary.
/// Entries added one after the other, each replacing an entry for the same object.
pub open spec fn map_extend(m: Map<u32, ObjectInfo>, r: Seq<ObjectInfo>) -> Map<u32, ObjectInfo>
    decreases r.len(),
{
    if r.len() == 0 {
        m
    } else {
        map_extend(m.insert(r[0].objnum, r[0]), r.drop_first())
    }
}

/// Adding one more entry at the end inserts it last.
pub proof fn lemma_map_extend_push(m: Map<u32, ObjectInfo>, r: Seq<ObjectInfo>, x: ObjectInfo)
    ensures
        map_extend(m, r.push(x)) == map_extend(m, r).insert(x.objnum, x),
    decreases r.len(),
{
    if r.len() == 0 {
        assert(r.push(x).drop_first() =~= Seq::<ObjectInfo>::empty());
        assert(r.push(x)[0] == x);
        assert(map_extend(m.insert(x.objnum, x), Seq::<ObjectInfo>::empty()) == m.insert(
            x.objnum,
            x,
        ));
        assert(map_extend(m, r) == m);
    } else {
        assert(r.push(x).drop_first() =~= r.drop_first().push(x));
        assert(r.push(x)[0] == r[0]);
        lemma_map_extend_push(m.insert(r[0].objnum, r[0]), r.drop_first(), x);
    }
}

#[derive(Debug)]
pub struct CrossRefTable {
    pub entries: Vec<ObjectInfo>,
    pub trailer: PdfDict,
}

impl CrossRefTable {
    pub fn new(entries: Vec<ObjectInfo>, trailer: PdfDict) -> (r: CrossRefTable)
        ensures
            r.entries@ == entries@,
            r.trailer@ == trailer@,
    {
        CrossRefTable { entries, trailer }
    }

    pub fn new_empty() -> (r: CrossRefTable)
        ensures
            r.entries@ == Seq::<ObjectInfo>::empty(),
            r.trailer@ == Seq::<(Seq<u8>, Obj)>::empty(),
    {
        CrossRefTable { entries: Vec::new(), trailer: PdfDict::new() }
    }

    /// A copy of the table.
    pub fn clone_table(&self) -> (r: CrossRefTable)
        ensures
            r.entries@ == self.entries@,
            r.trailer@ == self.trailer@,
    {
        let mut entries: Vec<ObjectInfo> = Vec::new();
        let mut i: usize = 0;
        while i < self.entries.len()
            invariant
                0 <= i <= self.entries@.len(),
                entries@ =~= self.entries@.take(i as int),
            decreases self.entries.len() - i,
        {
            entries.push(self.entries[i]);
            i = i + 1;
        }
        assert(self.entries@.take(i as int) =~= self.entries@);
        CrossRefTable { entries, trailer: self.trailer.clone_dict() }
    }

    pub fn trailer(&self) -> (r: &PdfDict)
        ensures
            r@ == self.trailer@,
    {
        &self.trailer
    }

    pub fn objects(&self) -> (r: &[ObjectInfo])
        ensures
            r@ == self.entries@,
    {
        self.entries.as_slice()
    }

    fn find(&self, n: u32) -> (r: Option<usize>)
        ensures
            match r {
                Some(i) => i < self.entries@.len() && xref_lookup(self.entries@, n) == Some(
                    self.entries@[i as int],
                ) && self.entries@[i as int].objnum == n && forall|m: int|
                    0 <= m < i ==> (#[trigger] self.entries@[m]).objnum != n,
                None => xref_lookup(self.entries@, n) is None,
            },
    {
        let mut i: usize = 0;
        while i < self.entries.len()
            invariant
                0 <= i <= self.entries@.len(),
                xref_lookup(self.entries@, n) == xref_lookup_from(self.entries@, n, i as int),
                forall|m: int| 0 <= m < i ==> (#[trigger] self.entries@[m]).objnum != n,
            decreases self.entries.len() - i,
        {
            if self.entries[i].objnum == n {
                return Some(i);
            }
            i = i + 1;
        }
        None
    }

    /// The entry for an object number.
    pub fn lookup(&self, n: &u32) -> (r: Option<&ObjectInfo>)
        ensures
            match r {
                Some(info) => xref_lookup(self.entries@, *n) == Some(*info),
                None => xref_lookup(self.entries@, *n) is None,
            },
    {
        match self.find(*n) {
            Some(i) => Some(&self.entries[i]),
            None => None,
        }
    }

    /// The entry for an object identity, looked up by its object number.
    pub fn lookup_id(&self, id: ObjectId) -> (r: Option<&ObjectInfo>)
        ensures
            match r {
                Some(info) => xref_lookup(self.entries@, id.obj_num) == Some(*info),
                None => xref_lookup(self.entries@, id.obj_num) is None,
            },
    {
        self.lookup(&id.obj_num)
    }

    /// Adds an entry; an entry already there for the same object number is replaced.
    pub fn insert(&mut self, info: ObjectInfo)
        ensures
            final(self).trailer == old(self).trailer,
            xref_map(final(self).entries@) == xref_map(old(self).entries@).insert(info.objnum, info),
    {
        let ghost old_es = self.entries@;
        match self.find(info.objnum) {
            Some(i) => {
                self.entries.set(i, info);
                proof {
                    assert forall|n: u32| #[trigger] xref_lookup(self.entries@, n) == (if n
                        == info.objnum {
                        Some(info)
                    } else {
                        xref_lookup(old_es, n)
                    }) by {
                        if n == info.objnum {
                            lemma_xref_lookup_first(self.entries@, n, 0, i as int);
                        } else {
                            lemma_xref_lookup_congruent(old_es, self.entries@, n, 0);
                        }
                    }
                }
            },
            None => {
                self.entries.push(info);
                proof {
                    assert forall|n: u32| #[trigger] xref_lookup(self.entries@, n) == (if n
                        == info.objnum {
                        Some(info)
                    } else {
                        xref_lookup(old_es, n)
                    }) by {
                        lemma_xref_lookup_push(old_es, info, n, 0);
                    }
                }
            },
        }
        assert(xref_map(self.entries@) =~= xref_map(old_es).insert(info.objnum, info));
    }

    /// Merges an older table into this one: its entries are added for the
    /// object numbers that this table does not name; this table's trailer stays,
    /// unless it is empty, in which case the other trailer is taken.
    pub fn merge(&mut self, other: CrossRefTable)
        ensures
            forall|n: u32|
                #[trigger] xref_lookup(final(self).entries@, n) == (match xref_lookup(
                    old(self).entries@,
                    n,
                ) {
                    Some(info) => Some(info),
                    None => xref_lookup(other.entries@, n),
                }),
            xref_map(final(self).entries@) == xref_map(other.entries@).union_prefer_right(
                xref_map(old(self).entries@),
            ),
            final(self).trailer@ == (if old(self).trailer@.len() == 0 {
                other.trailer@
            } else {
                old(self).trailer@
            }),
    {
        let ghost old_es = self.entries@;
        let CrossRefTable { entries: other_entries, trailer: other_trailer } = other;
        let mut i: usize = 0;
        while i < other_entries.len()
            invariant
                0 <= i <= other_entries@.len(),
                forall|n: u32|
                    #[trigger] xref_lookup(self.entries@, n) == (match xref_lookup(old_es, n) {
                        Some(info) => Some(info),
                        None => xref_lookup(other_entries@.take(i as int), n),
                    }),
                self.trailer == old(self).trailer,
            decreases other_entries.len() - i,
        {
            let info = other_entries[i];
            let ghost before = self.entries@;
            let found = self.find(info.objnum);
            if found.is_none() {
                self.entries.push(info);
            }
            proof {
                assert forall|n: u32| #[trigger] xref_lookup(self.entries@, n) == (match xref_lookup(
                    old_es,
                    n,
                ) {
                    Some(inf) => Some(inf),
                    None => xref_lookup(other_entries@.take(i + 1), n),
                }) by {
                    assert(other_entries@.take(i + 1) =~= other_entries@.take(i as int).push(
                        info,
                    ));
                    lemma_xref_lookup_push(other_entries@.take(i as int), info, n, 0);
                    assert(xref_lookup(before, n) == (match xref_lookup(old_es, n) {
                        Some(inf) => Some(inf),
                        None => xref_lookup(other_entries@.take(i as int), n),
                    }));
                    if found is None {
                        lemma_xref_lookup_push(before, info, n, 0);
                    }
                }
            }
            i = i + 1;
        }
        assert(other_entries@.take(i as int) =~= other_entries@);
        assert(xref_map(self.entries@) =~= xref_map(other_entries@).union_prefer_right(
            xref_map(old_es),
        ));
        if self.trailer.len() == 0 {
            self.trailer = other_trailer;
        }
    }
}

} // verus!
