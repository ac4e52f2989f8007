use vstd::prelude::*;
use crate::objects::{Obj, ObjectId, PdfObject};

verus! {

/// A change to an object of a document that has not been saved yet.
#[derive(Debug)]
pub enum StoreEntry {
    /// The object was added or given a new value.
    Upsert(PdfObject),
    /// The object was deleted.
    Deleted,
}

/// The model of a change.
pub enum StoreValue {
    Upsert(Obj),
    Deleted,
}

impl View for StoreEntry {
    type V = StoreValue;

    open spec fn view(&self) -> StoreValue {
        match self {
            StoreEntry::Upsert(o) => StoreValue::Upsert(o@),
            StoreEntry::Deleted => StoreValue::Deleted,
        }
    }
}

/// The index of the first key equal to `id`, from index `i` on.
pub open spec fn key_find_from(keys: Seq<ObjectId>, id: ObjectId, i: int) -> Option<int>
    decreases keys.len() - i,
{
    if i < 0 || i >= keys.len() {
        None
    } else if keys[i] == id {
        Some(i)
    } else {
        key_find_from(keys, id, i + 1)
    }
}

pub open spec fn key_find(keys: Seq<ObjectId>, id: ObjectId) -> Option<int> {
    key_find_from(keys, id, 0)
}

pub proof fn lemma_key_find_from(keys: Seq<ObjectId>, id: ObjectId, i: int)
    requires
        0 <= i,
    ensures
        match key_find_from(keys, id, i) {
            Some(j) => i <= j < keys.len() && keys[j] == id && forall|m: int|
                i <= m < j ==> keys[m] != id,
            None => forall|m: int| i <= m < keys.len() ==> keys[m] != id,
        },
    decreases keys.len() - i,
{
    if i < keys.len() && keys[i] != id {
        lemma_key_find_from(keys, id, i + 1);
    }
}

pub proof fn lemma_key_find_push(keys: Seq<ObjectId>, k: ObjectId, id: ObjectId, i: int)
    requires
        0 <= i <= keys.len(),
    ensures
        key_find_from(keys.push(k), id, i) == (match key_find_from(keys, id, i) {
            Some(j) => Some(j),
            None => if k == id {
                Some(keys.len() as int)
            } else {
                None
            },
        }),
    decreases keys.len() - i,
{
    if i < keys.len() {
        assert(keys.push(k)[i] == keys[i]);
        if keys[i] != id {
            lemma_key_find_push(keys, k, id, i + 1);
        }
    } else {
        assert(keys.push(k)[i] == k);
        assert(key_find_from(keys.push(k), id, i + 1) is None);
    }
}

/// The changes made to a document since it was opened, and the number that
/// the next new object gets.
#[derive(Debug)]
pub struct DocumentStore {
    pub next_obj_num: u32,
    pub keys: Vec<ObjectId>,
    pub values: Vec<StoreEntry>,
}

impl DocumentStore {
    /// The store keeps one value for each key.
    pub open spec fn wf(&self) -> bool {
        self.keys@.len() == self.values@.len()
    }

    /// The change recorded for `id`, if any.
    pub open spec fn get(&self, id: ObjectId) -> Option<StoreValue> {
        match key_find(self.keys@, id) {
            Some(i) => Some(self.values@[i]@),
            None => None,
        }
    }

    pub fn new(next_obj_num: u32) -> (r: DocumentStore)
        ensures
            r.wf(),
            r.next_obj_num == next_obj_num,
            r.keys@.len() == 0,
            forall|id: ObjectId| #[trigger] r.get(id) is None,
    {
        DocumentStore { next_obj_num, keys: Vec::new(), values: Vec::new() }
    }

    fn find(&self, id: ObjectId) -> (r: Option<usize>)
        ensures
            match r {
                Some(i) => key_find(self.keys@, id) == Some(i as int) && i < self.keys@.len(),
                None => key_find(self.keys@, id) is None,
            },
    {
        let mut i: usize = 0;
        while i < self.keys.len()
            invariant
                0 <= i <= self.keys@.len(),
                key_find(self.keys@, id) == key_find_from(self.keys@, id, i as int),
            decreases self.keys.len() - i,
        {
            if self.keys[i] == id {
                return Some(i);
            }
            i = i + 1;
        }
        None
    }

    /// The change recorded for `id`, if any.
    pub fn entry(&self, id: ObjectId) -> (r: Option<&StoreEntry>)
        requires
            self.wf(),
        ensures
            match r {
                Some(e) => self.get(id) == Some(e@),
                None => self.get(id) is None,
            },
    {
        match self.find(id) {
            Some(i) => Some(&self.values[i]),
            None => None,
        }
    }

    /// The objects that have a change recorded, in the order of their first change.
    pub fn ids(&self) -> (r: &[ObjectId])
        ensures
            r@ == self.keys@,
    {
        self.keys.as_slice()
    }

    /// Records `e` for `id`, replacing what was recorded for it.
    fn put(&mut self, id: ObjectId, e: StoreEntry)
        requires
            old(self).wf(),
        ensures
            final(self).wf(),
            final(self).next_obj_num == old(self).next_obj_num,
            forall|k: ObjectId| #[trigger] final(self).get(k) == (if k == id {
                Some(e@)
            } else {
                old(self).get(k)
            }),
            forall|k: ObjectId| #[trigger] final(self).keys@.contains(k) <==> (k == id || old(self).keys@.contains(k)),
    {
        let ghost old_keys = self.keys@;
        let ghost ev = e@;
        match self.find(id) {
            Some(i) => {
                proof {
                    lemma_key_find_from(old_keys, id, 0);
                }
                assert(old_keys[i as int] == id);
                self.values.set(i, e);
                proof {
                    assert forall|k: ObjectId| #[trigger] self.get(k) == (if k == id {
                        Some(ev)
                    } else {
                        old(self).get(k)
                    }) by {
                        lemma_key_find_from(old_keys, k, 0);
                    }
                    assert forall|k: ObjectId| #[trigger] self.keys@.contains(k) <==> (k == id
                        || old_keys.contains(k)) by {
                        if k == id {
                            assert(old_keys[i as int] == k);
                        }
                    }
                }
            },
            None => {
                self.keys.push(id);
                self.values.push(e);
                proof {
                    assert forall|k: ObjectId| #[trigger] self.get(k) == (if k == id {
                        Some(ev)
                    } else {
                        old(self).get(k)
                    }) by {
                        lemma_key_find_push(old_keys, id, k, 0);
                        lemma_key_find_from(old_keys, k, 0);
                        match key_find(old_keys, k) {
                            Some(j) => {
                                assert(self.values@[j] == old(self).values@[j]);
                            },
                            None => {},
                        }
                    }
                    assert forall|k: ObjectId| #[trigger] self.keys@.contains(k) <==> (k == id
                        || old_keys.contains(k)) by {
                        if k == id {
                            assert(self.keys@[old_keys.len() as int] == k);
                        }
                        if old_keys.contains(k) {
                            let j = choose|j: int| 0 <= j < old_keys.len() && old_keys[j] == k;
                            assert(self.keys@[j] == k);
                        }
                        if self.keys@.contains(k) && k != id {
                            let j = choose|j: int| 0 <= j < self.keys@.len() && self.keys@[j] == k;
                            assert(j < old_keys.len());
                            assert(old_keys[j] == k);
                        }
                    }
                }
            },
        }
    }

    /// Adds a new object under the next object number, with generation 0.
    pub fn insert_object(&mut self, object: PdfObject) -> (r: ObjectId)
        requires
            old(self).wf(),
            old(self).next_obj_num < u32::MAX,
        ensures
            final(self).wf(),
            r == (ObjectId { obj_num: old(self).next_obj_num, gen_num: 0 }),
            final(self).next_obj_num == old(self).next_obj_num + 1,
            forall|k: ObjectId| #[trigger] final(self).get(k) == (if k == r {
                Some(StoreValue::Upsert(object@))
            } else {
                old(self).get(k)
            }),
            forall|k: ObjectId| #[trigger] final(self).keys@.contains(k) <==> (k == r || old(self).keys@.contains(k)),
    {
        let id = ObjectId::new(self.next_obj_num, 0);
        self.next_obj_num = self.next_obj_num + 1;
        self.put(id, StoreEntry::Upsert(object));
        id
    }

    /// Gives `id` a new value.
    pub fn update_object(&mut self, id: ObjectId, object: PdfObject)
        requires
            old(self).wf(),
        ensures
            final(self).wf(),
            final(self).next_obj_num == old(self).next_obj_num,
            forall|k: ObjectId| #[trigger] final(self).get(k) == (if k == id {
                Some(StoreValue::Upsert(object@))
            } else {
                old(self).get(k)
            }),
            forall|k: ObjectId| #[trigger] final(self).keys@.contains(k) <==> (k == id || old(self).keys@.contains(k)),
    {
        self.put(id, StoreEntry::Upsert(object));
    }

    /// Marks `id` deleted.
    pub fn delete_object(&mut self, id: ObjectId)
        requires
            old(self).wf(),
        ensures
            final(self).wf(),
            final(self).next_obj_num == old(self).next_obj_num,
            forall|k: ObjectId| #[trigger] final(self).get(k) == (if k == id {
                Some(StoreValue::Deleted)
            } else {
                old(self).get(k)
            }),
            forall|k: ObjectId| #[trigger] final(self).keys@.contains(k) <==> (k == id || old(self).keys@.contains(k)),
    {
        self.put(id, StoreEntry::Deleted);
    }
}

} // verus!
