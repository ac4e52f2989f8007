use vstd::prelude::*;
use vstd::arithmetic::div_mod::{lemma_add_mod_noop, lemma_mul_mod_noop_left, lemma_mod_mod};
use crate::error::{PdfError, PdfResult};
use crate::objects::{Obj, PdfArray, PdfDict, bytes_eq, dict_get, spec_number_as};
use crate::cross_ref_table::{
    CrossRefTable, ObjectInfo, ObjectState, xref_map, map_extend, lemma_map_extend_push,
};
use crate::parser::syntax::SyntaxParser;
use crate::parser::syntax_spec::{ParseMode, spec_get_indirect};

verus! {

// ---------------------------------------------------------------- numbers in arrays

/// The value of a number object as a `u32`, when it is a non-negative integer that fits.
pub open spec fn obj_u32(o: Obj) -> Option<u32> {
    match o {
        Obj::Number(lex) => match spec_number_as(lex, u32::MAX as int) {
            Ok(v) => Some(v as u32),
            Err(_) => None,
        },
        _ => None,
    }
}

/// The items of an array as `u32` values, when each is a number that fits.
pub open spec fn spec_u32_items(items: Seq<Obj>) -> PdfResult<Seq<u32>> {
    if forall|i: int| 0 <= i < items.len() ==> (#[trigger] obj_u32(items[i])) is Some {
        Ok(Seq::new(items.len(), |i: int| obj_u32(items[i])->0))
    } else {
        Err(PdfError::ParserError)
    }
}

/// The items of an array as `u32` values.
fn u32_items(a: &PdfArray) -> (r: PdfResult<Vec<u32>>)
    ensures
        match spec_u32_items(a@) {
            Ok(s) => r matches Ok(v) && v@ == s,
            Err(e) => r == Err::<Vec<u32>, PdfError>(e),
        },
{
    let n = a.len();
    let mut res: Vec<u32> = Vec::new();
    let mut i: usize = 0;
    while i < n
        invariant
            n == a@.len(),
            0 <= i <= n,
            res@.len() == i,
            forall|j: int| 0 <= j < i ==> obj_u32(a@[j]) == Some(#[trigger] res@[j]),
        decreases n - i,
    {
        let item = match a.get(i) {
            Some(o) => o,
            None => {
                return Err(PdfError::ParserError);
            },
        };
        let num = match item.as_number() {
            Some(x) => x,
            None => {
                assert(obj_u32(a@[i as int]) is None);
                return Err(PdfError::ParserError);
            },
        };
        let v = match num.as_u32_checked() {
            Ok(v) => v,
            Err(e) => {
                assert(obj_u32(a@[i as int]) is None);
                return Err(e);
            },
        };
        res.push(v);
        i = i + 1;
    }
    assert forall|j: int| 0 <= j < a@.len() implies (#[trigger] obj_u32(a@[j])) is Some by {
        assert(obj_u32(a@[j]) == Some(res@[j]));
    }
    assert(res@ =~= Seq::new(a@.len(), |j: int| obj_u32(a@[j])->0));
    Ok(res)
}

// ---------------------------------------------------------------- big-endian fields

/// The big-endian value of the bytes.
pub open spec fn be_value(s: Seq<u8>) -> nat
    decreases s.len(),
{
    if s.len() == 0 {
        0
    } else {
        be_value(s.drop_last()) * 256 + s.last() as nat
    }
}

/// `2^64`
pub open spec fn two_64() -> nat {
    0x1_0000_0000_0000_0000
}

/// `2^32`
pub open spec fn two_32() -> nat {
    0x1_0000_0000
}

/// The `n` bytes at `at` read big-endian; the value is kept modulo `2^64`.
fn read_be(buf: &[u8], at: usize, n: u32) -> (r: u64)
    requires
        at + n <= buf@.len(),
    ensures
        r == be_value(buf@.subrange(at as int, at + n)) % two_64(),
{
    let blen = buf.len();
    let mut acc: u64 = 0;
    let mut k: u32 = 0;
    while k < n
        invariant
            at + n <= buf@.len(),
            blen == buf@.len(),
            k <= n,
            acc == be_value(buf@.subrange(at as int, at + k)) % two_64(),
        decreases n - k,
    {
        let b = buf[at + k as usize];
        let ghost prev = be_value(buf@.subrange(at as int, at + k));
        let ghost s = buf@.subrange(at as int, at + k + 1);
        assert(s.drop_last() =~= buf@.subrange(at as int, at + k));
        assert(s.last() == b);
        let m = acc.wrapping_mul(256);
        proof {
            lemma_mul_mod_noop_left(prev as int, 256, two_64() as int);
            assert(m == ((prev * 256) as int) % (two_64() as int));
            lemma_add_mod_noop((prev * 256) as int, b as int, two_64() as int);
            assert((b as int) % (two_64() as int) == b);
        }
        acc = m.wrapping_add(b as u64);
        assert(acc == be_value(s) % two_64());
        k = k + 1;
    }
    acc
}

// ---------------------------------------------------------------- entries

/// The entry for object `num` whose fields start at `at`, with the field widths
/// `w`; `None` when its type is not 0, 1 or 2. A missing type field means type 1.
pub open spec fn stream_entry(buf: Seq<u8>, at: int, w: Seq<u32>, num: u32) -> Option<ObjectInfo> {
    let a = at + w[0];
    let b = a + w[1];
    let c = b + w[2];
    let t = if w[0] > 0 {
        be_value(buf.subrange(at, a)) % two_32()
    } else {
        1
    };
    let offset = (be_value(buf.subrange(a, b)) % two_64()) as u64;
    let gennum = (be_value(buf.subrange(b, c)) % two_32()) as u32;
    if t == 0 {
        Some(ObjectInfo { objnum: num, offset, gennum, state: ObjectState::Free })
    } else if t == 1 {
        Some(ObjectInfo { objnum: num, offset, gennum, state: ObjectState::Normal })
    } else if t == 2 {
        Some(ObjectInfo { objnum: num, offset, gennum, state: ObjectState::Compressed })
    } else {
        None
    }
}

/// The object numbers that the pairs `start count` of `Index` name, in order.
pub open spec fn index_nums(ix: Seq<u32>) -> Seq<u32>
    decreases ix.len(),
{
    if ix.len() < 2 {
        Seq::empty()
    } else {
        index_nums(ix.take(ix.len() - 2)) + Seq::new(
            ix[ix.len() - 1] as nat,
            |i: int| (ix[ix.len() - 2] + i) as u32,
        )
    }
}

/// No pair of `Index` runs past the largest object number.
pub open spec fn index_fits(ix: Seq<u32>) -> bool {
    forall|p: int| 0 <= p && 2 * p + 1 < ix.len() ==> #[trigger] ix[2 * p] + ix[2 * p + 1] <= u32::MAX
}

/// The entries of the stream data `buf`, with field widths `w` and the pairs
/// `ix`. An error when a pair runs past the largest object number, when the
/// data ends before the last entry, when an entry has an unknown type, or, in
/// strict mode, when bytes are left after the last entry.
pub open spec fn spec_stream_entries(buf: Seq<u8>, w: Seq<u32>, ix: Seq<u32>, mode: ParseMode) -> PdfResult<
    Seq<ObjectInfo>,
> {
    let es = w[0] + w[1] + w[2];
    let nums = index_nums(ix);
    if !index_fits(ix) || nums.len() * es > buf.len() || (exists|j: int|
        0 <= j < nums.len() && stream_entry(buf, j * es, w, #[trigger] nums[j]) is None) || (mode
        == ParseMode::Strict && nums.len() * es != buf.len()) {
        Err(PdfError::ParserError)
    } else {
        Ok(Seq::new(nums.len(), |j: int| stream_entry(buf, j * es, w, nums[j])->0))
    }
}

/// The number names of an xref stream dictionary.
pub open spec fn key_type() -> Seq<u8> {
    seq![84u8, 121u8, 112u8, 101u8]
}

pub open spec fn name_xref() -> Seq<u8> {
    seq![88u8, 82u8, 101u8, 102u8]
}

pub open spec fn key_w() -> Seq<u8> {
    seq![87u8]
}

pub open spec fn key_size() -> Seq<u8> {
    seq![83u8, 105u8, 122u8, 101u8]
}

pub open spec fn key_index() -> Seq<u8> {
    seq![73u8, 110u8, 100u8, 101u8, 120u8]
}

pub open spec fn key_filter() -> Seq<u8> {
    seq![70u8, 105u8, 108u8, 116u8, 101u8, 114u8]
}

/// The entries and trailer that an xref stream's dictionary and data give.
/// Data that is not `decoded` cannot be read when the dictionary names a
/// `Filter`; decoded data is read as it is.
pub open spec fn spec_xref_stream_data(
    dict: Seq<(Seq<u8>, Obj)>,
    raw: Seq<u8>,
    mode: ParseMode,
    decoded: bool,
) -> PdfResult<(Seq<ObjectInfo>, Seq<(Seq<u8>, Obj)>)> {
    if mode == ParseMode::Strict && dict_get(dict, key_type()) != Some(Obj::Name(name_xref())) {
        Err(PdfError::ParserError)
    } else {
        match (dict_get(dict, key_w()), dict_get(dict, key_size())) {
            (Some(Obj::Array(ws)), Some(Obj::Number(size_lex))) => match (
                spec_number_as(size_lex, u32::MAX as int),
                spec_u32_items(ws),
            ) {
                (Ok(size), Ok(w)) => if w.len() != 3 {
                    Err(PdfError::ParserError)
                } else {
                    let index = match dict_get(dict, key_index()) {
                        Some(Obj::Array(a)) => spec_u32_items(a),
                        Some(_) => Err(PdfError::ParserError),
                        None => Ok(seq![0u32, size as u32]),
                    };
                    match index {
                        Err(e) => Err(e),
                        Ok(ix) => if ix.len() % 2 != 0 {
                            Err(PdfError::ParserError)
                        } else if !decoded && dict_get(dict, key_filter()) is Some {
                            Err(PdfError::Unsupported)
                        } else if w[0] + w[1] + w[2] == 0 {
                            Err(PdfError::ParserError)
                        } else {
                            match spec_stream_entries(raw, w, ix, mode) {
                                Err(e) => Err(e),
                                Ok(es) => Ok((es, dict)),
                            }
                        },
                    }
                },
                _ => Err(PdfError::ParserError),
            },
            _ => Err(PdfError::ParserError),
        }
    }
}

/// The entries and trailer that an xref stream object gives.
pub open spec fn spec_xref_stream_object(o: Obj, mode: ParseMode) -> PdfResult<
    (Seq<ObjectInfo>, Seq<(Seq<u8>, Obj)>),
> {
    match o {
        Obj::Stream(dict, raw) => spec_xref_stream_data(dict, raw, mode, false),
        _ => Err(PdfError::ParserError),
    }
}

/// The xref stream at `pos`: where reading stops, and its entries and trailer.
pub open spec fn spec_parse_xref_stream(
    d: Seq<u8>,
    pos: int,
    mode: ParseMode,
    x: Option<Seq<ObjectInfo>>,
) -> (int, PdfResult<(Seq<ObjectInfo>, Seq<(Seq<u8>, Obj)>)>) {
    let (p1, r) = spec_get_indirect(d, pos, mode, x);
    match r {
        Err(e) => (p1, Err(e)),
        Ok((_, _, o)) => (p1, spec_xref_stream_object(o, mode)),
    }
}

// ---------------------------------------------------------------- reading

/// The object numbers of the first pairs of `Index` come first.
pub proof fn lemma_index_nums_prefix(ix: Seq<u32>, m: int)
    requires
        0 <= m <= ix.len(),
        m % 2 == 0,
        ix.len() % 2 == 0,
    ensures
        index_nums(ix.take(m)).len() <= index_nums(ix).len(),
        forall|j: int|
            0 <= j < index_nums(ix.take(m)).len() ==> #[trigger] index_nums(ix)[j] == index_nums(
                ix.take(m),
            )[j],
    decreases ix.len(),
{
    if m == ix.len() {
        assert(ix.take(m) =~= ix);
    } else {
        let ix2 = ix.take(ix.len() - 2);
        assert(ix2.take(m) =~= ix.take(m));
        lemma_index_nums_prefix(ix2, m);
    }
}

/// One more pair of `Index` adds its object numbers at the end.
pub proof fn lemma_index_nums_step(ix: Seq<u32>, k: int)
    requires
        0 <= k,
        k + 2 <= ix.len(),
    ensures
        index_nums(ix.take(k + 2)) == index_nums(ix.take(k)) + Seq::new(
            ix[k + 1] as nat,
            |i: int| (ix[k] + i) as u32,
        ),
{
    let t = ix.take(k + 2);
    assert(t.take(t.len() - 2) =~= ix.take(k));
    assert(t[t.len() - 1] == ix[k + 1]);
    assert(t[t.len() - 2] == ix[k]);
}

/// The entries of xref stream data, in a table with an empty trailer.
#[verifier::spinoff_prover]
#[verifier::rlimit(40)]
fn read_stream_entries(buf: &[u8], w: &Vec<u32>, ix: &Vec<u32>, mode: ParseMode) -> (r: PdfResult<
    CrossRefTable,
>)
    requires
        w@.len() == 3,
        ix@.len() % 2 == 0,
        w@[0] + w@[1] + w@[2] > 0,
    ensures
        match spec_stream_entries(buf@, w@, ix@, mode) {
            Ok(es) => r matches Ok(table) && xref_map(table.entries@) == map_extend(
                Map::empty(),
                es,
            ) && table.trailer@ == Seq::<(Seq<u8>, Obj)>::empty(),
            Err(e) => r == Err::<CrossRefTable, PdfError>(e),
        },
{
    let ghost nums = index_nums(ix@);
    let w0 = w[0];
    let w1 = w[1];
    let w2 = w[2];
    let es: u64 = w0 as u64 + w1 as u64 + w2 as u64;
    let blen = buf.len();
    let len: u64 = blen as u64;
    let mut table = CrossRefTable::new_empty();
    let ghost mut done: Seq<ObjectInfo> = Seq::empty();
    let mut bptr: u64 = 0;
    let mut k: usize = 0;
    proof {
        assert(ix@.take(0) =~= Seq::<u32>::empty());
        assert(xref_map(table.entries@) =~= Map::<u32, ObjectInfo>::empty());
    }
    while k < ix.len()
        invariant
            w@.len() == 3,
            w0 == w@[0],
            w1 == w@[1],
            w2 == w@[2],
            es == w0 + w1 + w2,
            es > 0,
            len == buf@.len(),
            len <= usize::MAX,
            ix@.len() % 2 == 0,
            nums == index_nums(ix@),
            0 <= k <= ix@.len(),
            k % 2 == 0,
            done.len() == index_nums(ix@.take(k as int)).len(),
            bptr == done.len() * es,
            bptr <= len,
            forall|j: int|
                0 <= j < done.len() ==> stream_entry(buf@, j * es, w@, nums[j]) == Some(
                    #[trigger] done[j],
                ),
            xref_map(table.entries@) == map_extend(Map::empty(), done),
            table.trailer@ == Seq::<(Seq<u8>, Obj)>::empty(),
            forall|p: int| 0 <= p && 2 * p + 1 < k ==> #[trigger] ix@[2 * p] + ix@[2 * p + 1] <= u32::MAX,
        decreases ix@.len() - k,
    {
        let start = ix[k];
        let length = ix[k + 1];
        proof {
            lemma_index_nums_step(ix@, k as int);
            lemma_index_nums_prefix(ix@, k + 2);
            lemma_index_nums_prefix(ix@, k as int);
        }
        if start as u64 + length as u64 > u32::MAX as u64 {
            proof {
                let p = k as int / 2;
                assert(2 * p == k);
                assert(ix@[2 * p] + ix@[2 * p + 1] > u32::MAX);
                assert(!index_fits(ix@));
            }
            return Err(PdfError::ParserError);
        }
        let ghost pre = index_nums(ix@.take(k as int));
        let ghost pre2 = index_nums(ix@.take(k + 2));
        let mut i: u32 = 0;
        while i < length
            invariant
                w@.len() == 3,
                w0 == w@[0],
                w1 == w@[1],
                w2 == w@[2],
                es == w0 + w1 + w2,
                es > 0,
                len == buf@.len(),
                len <= usize::MAX,
                ix@.len() % 2 == 0,
                nums == index_nums(ix@),
                0 <= k,
                k + 2 <= ix@.len(),
                start == ix@[k as int],
                length == ix@[k + 1],
                start + length <= u32::MAX,
                pre == index_nums(ix@.take(k as int)),
                pre2 == pre + Seq::new(length as nat, |m: int| (start + m) as u32),
                pre2.len() <= nums.len(),
                forall|j: int| 0 <= j < pre2.len() ==> #[trigger] nums[j] == pre2[j],
                i <= length,
                done.len() == pre.len() + i,
                bptr == done.len() * es,
                bptr <= len,
                forall|j: int|
                    0 <= j < done.len() ==> stream_entry(buf@, j * es, w@, nums[j]) == Some(
                        #[trigger] done[j],
                    ),
                xref_map(table.entries@) == map_extend(Map::empty(), done),
                table.trailer@ == Seq::<(Seq<u8>, Obj)>::empty(),
            decreases length - i,
        {
            let ghost j = done.len() as int;
            assert(nums[j] == pre2[j]);
            assert(pre2[j] == (start + i) as u32);
            if es > len - bptr {
                proof {
                    assert((j + 1) * es <= nums.len() * es) by (nonlinear_arith)
                        requires
                            j + 1 <= nums.len(),
                            es > 0,
                    ;
                    assert((j + 1) * es == j * es + es) by (nonlinear_arith);
                }
                return Err(PdfError::ParserError);
            }
            proof {
                assert((j + 1) * es == j * es + es) by (nonlinear_arith);
            }
            let at = bptr as usize;
            let t: u64 = if w0 > 0 {
                let v = read_be(buf, at, w0);
                proof {
                    lemma_mod_mod(be_value(buf@.subrange(at as int, at + w0)) as int, two_32() as int, two_32() as int);
                }
                v % 4294967296u64
            } else {
                1
            };
            let offset = read_be(buf, at + w0 as usize, w1);
            let g = read_be(buf, at + w0 as usize + w1 as usize, w2);
            proof {
                lemma_mod_mod(
                    be_value(buf@.subrange(at + w0 + w1, at + w0 + w1 + w2)) as int,
                    two_32() as int,
                    two_32() as int,
                );
            }
            let gennum = (g % 4294967296u64) as u32;
            let num = start + i;
            let state = if t == 0 {
                ObjectState::Free
            } else if t == 1 {
                ObjectState::Normal
            } else if t == 2 {
                ObjectState::Compressed
            } else {
                proof {
                    assert(stream_entry(buf@, j * es, w@, nums[j]) is None);
                }
                return Err(PdfError::ParserError);
            };
            let info = ObjectInfo::new(num, offset, gennum, state);
            assert(stream_entry(buf@, j * es, w@, nums[j]) == Some(info));
            proof {
                lemma_map_extend_push(Map::empty(), done, info);
            }
            table.insert(info);
            proof {
                done = done.push(info);
            }
            bptr = bptr + es;
            i = i + 1;
        }
        proof {
            assert(pre2.len() == pre.len() + length);
        }
        k = k + 2;
    }
    proof {
        assert(ix@.take(k as int) =~= ix@);
        assert(index_fits(ix@));
    }
    if mode == ParseMode::Strict && bptr != len {
        return Err(PdfError::ParserError);
    }
    proof {
        assert(index_nums(ix@.take(k as int)) == nums);
        assert forall|j: int| 0 <= j < nums.len() implies stream_entry(
            buf@,
            j * es,
            w@,
            #[trigger] nums[j],
        ) is Some by {
            assert(stream_entry(buf@, j * es, w@, nums[j]) == Some(done[j]));
        }
        assert(done =~= Seq::new(nums.len(), |j: int| stream_entry(buf@, j * es, w@, nums[j])->0));
    }
    Ok(table)
}

/// The table that the dictionary and data of an xref stream give; the
/// dictionary becomes the trailer. `decoded` tells whether the data was
/// already decoded through the dictionary's filters.
fn xref_stream_table(dict: &PdfDict, raw: &[u8], mode: ParseMode, decoded: bool) -> (r: PdfResult<
    CrossRefTable,
>)
    ensures
        match spec_xref_stream_data(dict@, raw@, mode, decoded) {
            Ok((es, t)) => r matches Ok(table) && xref_map(table.entries@) == map_extend(
                Map::empty(),
                es,
            ) && table.trailer@ == t,
            Err(e) => r == Err::<CrossRefTable, PdfError>(e),
        },
{
    let type_key: [u8; 4] = [84u8, 121u8, 112u8, 101u8];
    let xref_name: [u8; 4] = [88u8, 82u8, 101u8, 102u8];
    let w_key: [u8; 1] = [87u8];
    let size_key: [u8; 4] = [83u8, 105u8, 122u8, 101u8];
    let index_key: [u8; 5] = [73u8, 110u8, 100u8, 101u8, 120u8];
    let filter_key: [u8; 6] = [70u8, 105u8, 108u8, 116u8, 101u8, 114u8];
    assert(type_key@ =~= key_type());
    assert(xref_name@ =~= name_xref());
    assert(w_key@ =~= key_w());
    assert(size_key@ =~= key_size());
    assert(index_key@ =~= key_index());
    assert(filter_key@ =~= key_filter());
    if mode == ParseMode::Strict {
        let is_xref = match dict.get(&type_key) {
            Some(o) => match o.as_name() {
                Some(n) => bytes_eq(n.name(), &xref_name),
                None => false,
            },
            None => false,
        };
        if !is_xref {
            return Err(PdfError::ParserError);
        }
    }
    let wobj = match dict.get(&w_key) {
        Some(o) => match o.as_array() {
            Some(a) => a,
            None => {
                return Err(PdfError::ParserError);
            },
        },
        None => {
            return Err(PdfError::ParserError);
        },
    };
    let size_num = match dict.get(&size_key) {
        Some(o) => match o.as_number() {
            Some(n) => n,
            None => {
                return Err(PdfError::ParserError);
            },
        },
        None => {
            return Err(PdfError::ParserError);
        },
    };
    let size = match size_num.as_u32_checked() {
        Ok(v) => v,
        Err(e) => {
            return Err(e);
        },
    };
    let w = match u32_items(wobj) {
        Ok(v) => v,
        Err(e) => {
            return Err(e);
        },
    };
    if w.len() != 3 {
        return Err(PdfError::ParserError);
    }
    let index: Vec<u32> = match dict.get(&index_key) {
        Some(o) => match o.as_array() {
            Some(a) => match u32_items(a) {
                Ok(v) => v,
                Err(e) => {
                    return Err(e);
                },
            },
            None => {
                return Err(PdfError::ParserError);
            },
        },
        None => vec![0u32, size],
    };
    if index.len() % 2 != 0 {
        return Err(PdfError::ParserError);
    }
    if !decoded && dict.contains_key(&filter_key) {
        return Err(PdfError::Unsupported);
    }
    if w[0] as u64 + w[1] as u64 + w[2] as u64 == 0 {
        return Err(PdfError::ParserError);
    }
    let mut table = match read_stream_entries(raw, &w, &index, mode) {
        Ok(t) => t,
        Err(e) => {
            return Err(e);
        },
    };
    table.trailer = dict.clone_dict();
    Ok(table)
}

/// Reads the xref stream object at `pos`: its entries, with its dictionary as
/// the trailer.
pub fn parse_xref_stream(syntax: &mut SyntaxParser, pos: u64) -> (r: PdfResult<CrossRefTable>)
    ensures
        final(syntax).same_input(old(syntax)),
        final(syntax).pos == spec_parse_xref_stream(
            old(syntax).data@,
            pos as int,
            old(syntax).mode,
            old(syntax).xref_spec(),
        ).0,
        match spec_parse_xref_stream(
            old(syntax).data@,
            pos as int,
            old(syntax).mode,
            old(syntax).xref_spec(),
        ).1 {
            Ok((es, t)) => r matches Ok(table) && xref_map(table.entries@) == map_extend(
                Map::empty(),
                es,
            ) && table.trailer@ == t,
            Err(e) => r == Err::<CrossRefTable, PdfError>(e),
        },
{
    syntax.pos = pos;
    let indirect = match syntax.get_indirect_object() {
        Ok(i) => i,
        Err(e) => {
            return Err(e);
        },
    };
    let stream = match indirect.obj().as_stream() {
        Some(st) => st,
        None => {
            return Err(PdfError::ParserError);
        },
    };
    xref_stream_table(stream.dict(), stream.raw_data(), syntax.mode, false)
}

/// The table that an xref stream gives from its dictionary and its data
/// once decoded through the dictionary's filters: the same checks and
/// entries as for a stream without filters, with the dictionary as the
/// trailer.
pub fn xref_stream_table_decoded(dict: &PdfDict, decoded: &[u8], mode: ParseMode) -> (r: PdfResult<
    CrossRefTable,
>)
    ensures
        match spec_xref_stream_data(dict@, decoded@, mode, true) {
            Ok((es, t)) => r matches Ok(table) && xref_map(table.entries@) == map_extend(
                Map::empty(),
                es,
            ) && table.trailer@ == t,
            Err(e) => r == Err::<CrossRefTable, PdfError>(e),
        },
{
    xref_stream_table(dict, decoded, mode, true)
}

} // verus!
