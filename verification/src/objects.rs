use vstd::prelude::*;
use crate::error::{PdfError, PdfResult};
use crate::parser::character::{spec_is_digit, spec_is_hex_digit};
use crate::parser::parse_utility::{
    all_digits, digits_value, hex_to_u8, spec_hex_value, lemma_hex_value_of_digits,
};

verus! {

/// The mathematical model of a PDF object.
pub enum Obj {
    Null,
    Bool(bool),
    /// A number, by its lexeme.
    Number(Seq<u8>),
    /// A string: its bytes, and whether it was written in hexadecimal.
    Str(Seq<u8>, bool),
    /// A name, by its decoded bytes (without the leading `/`).
    Name(Seq<u8>),
    Array(Seq<Obj>),
    /// A dictionary: its entries in order.
    Dict(Seq<(Seq<u8>, Obj)>),
    /// A stream: its dictionary and its raw bytes.
    Stream(Seq<(Seq<u8>, Obj)>, Seq<u8>),
    /// A reference to an indirect object: object and generation number.
    Ref(u32, u32),
}

/// The identity of an indirect object.
#[derive(Debug, Clone, Copy, PartialEq, Eq, Structural)]
pub struct ObjectId {
    pub obj_num: u32,
    pub gen_num: u32,
}

impl ObjectId {
    pub fn new(obj_num: u32, gen_num: u32) -> (r: ObjectId)
        ensures
            r.obj_num == obj_num,
            r.gen_num == gen_num,
    {
        ObjectId { obj_num, gen_num }
    }

    pub fn obj_num(&self) -> (r: u32)
        ensures
            r == self.obj_num,
    {
        self.obj_num
    }

    pub fn gen_num(&self) -> (r: u32)
        ensures
            r == self.gen_num,
    {
        self.gen_num
    }
}

/// A boolean object.
#[derive(Debug, Clone, Copy, PartialEq, Eq, Structural)]
pub struct PdfBool {
    pub value: bool,
}

impl PdfBool {
    /// The boolean that the keyword `true` or `false` stands for.
    pub fn new(raw: &[u8]) -> (r: PdfBool)
        ensures
            r.value == (raw@ =~= seq![116u8, 114u8, 117u8, 101u8]),
    {
        let t: [u8; 4] = [116u8, 114u8, 117u8, 101u8];
        PdfBool { value: bytes_eq(raw, &t) }
    }

    pub fn value(&self) -> (r: bool)
        ensures
            r == self.value,
    {
        self.value
    }
}

/// A reference to an indirect object.
#[derive(Debug, Clone, Copy, PartialEq, Eq, Structural)]
pub struct PdfReference {
    pub objnum: u32,
    pub gennum: u32,
}

impl PdfReference {
    pub fn new(objnum: u32, gennum: u32) -> (r: PdfReference)
        ensures
            r.objnum == objnum,
            r.gennum == gennum,
    {
        PdfReference { objnum, gennum }
    }

    pub fn from_id(id: ObjectId) -> (r: PdfReference)
        ensures
            r.objnum == id.obj_num,
            r.gennum == id.gen_num,
    {
        PdfReference { objnum: id.obj_num, gennum: id.gen_num }
    }

    pub fn id(&self) -> (r: ObjectId)
        ensures
            r.obj_num == self.objnum,
            r.gen_num == self.gennum,
    {
        ObjectId { obj_num: self.objnum, gen_num: self.gennum }
    }

    pub fn objnum(&self) -> (r: u32)
        ensures
            r == self.objnum,
    {
        self.objnum
    }

    pub fn gennum(&self) -> (r: u32)
        ensures
            r == self.gennum,
    {
        self.gennum
    }
}

/// Byte-wise equality of two byte strings.
pub fn bytes_eq(a: &[u8], b: &[u8]) -> (r: bool)
    ensures
        r == (a@ =~= b@),
{
    if a.len() != b.len() {
        return false;
    }
    let mut i: usize = 0;
    while i < a.len()
        invariant
            a@.len() == b@.len(),
            0 <= i <= a@.len(),
            forall|j: int| 0 <= j < i ==> a@[j] == b@[j],
        decreases a.len() - i,
    {
        if a[i] != b[i] {
            return false;
        }
        i = i + 1;
    }
    true
}

/// Copies a byte slice into a new vector.
pub fn copy_bytes(a: &[u8]) -> (r: Vec<u8>)
    ensures
        r@ == a@,
{
    let mut r: Vec<u8> = Vec::new();
    let mut i: usize = 0;
    while i < a.len()
        invariant
            0 <= i <= a@.len(),
            r@ =~= a@.take(i as int),
        decreases a.len() - i,
    {
        r.push(a[i]);
        i = i + 1;
    }
    assert(a@.take(a@.len() as int) =~= a@);
    r
}

// ---------------------------------------------------------------- numbers

/// The sign of a number lexeme and the rest of it.
pub open spec fn strip_sign(w: Seq<u8>) -> (int, Seq<u8>) {
    if w.len() > 0 && w[0] == 45u8 {
        (-1, w.drop_first())
    } else if w.len() > 0 && w[0] == 43u8 {
        (1, w.drop_first())
    } else {
        (1, w)
    }
}

/// The length of the run of decimal digits at the start of `b`.
pub open spec fn digit_prefix_len(b: Seq<u8>) -> nat
    decreases b.len(),
{
    if b.len() > 0 && spec_is_digit(b[0]) {
        1 + digit_prefix_len(b.drop_first())
    } else {
        0
    }
}

/// The number grammar: an optional sign, then digits, optionally followed by
/// a point and more digits, with at least one digit in all.
pub open spec fn spec_is_number_token(w: Seq<u8>) -> bool {
    let b = strip_sign(w).1;
    let k = digit_prefix_len(b) as int;
    b.len() > 0 && ((k == b.len() && k > 0) || (k < b.len() && b[k] == 46u8 && all_digits(
        b.skip(k + 1),
    ) && b.len() > 1))
}

/// The integer value of a number lexeme, when its fractional digits are all zeros.
pub open spec fn number_int_value(w: Seq<u8>) -> Option<int> {
    let (sign, b) = strip_sign(w);
    let k = digit_prefix_len(b) as int;
    if !spec_is_number_token(w) {
        None
    } else if forall|i: int| k + 1 <= i < b.len() ==> #[trigger] b[i] == 48u8 {
        Some(sign * digits_value(b.take(k)))
    } else {
        None
    }
}

/// The integer value of a number lexeme, when it lies in `0..=max`.
pub open spec fn spec_number_as(w: Seq<u8>, max: int) -> PdfResult<u64> {
    match number_int_value(w) {
        Some(v) => if 0 <= v <= max {
            Ok(v as u64)
        } else {
            Err(PdfError::ParserError)
        },
        None => Err(PdfError::ParserError),
    }
}

/// A number object, kept as its lexeme so that it is written back as read.
#[derive(Debug, Clone, PartialEq)]
pub struct PdfNumber {
    pub lexeme: Vec<u8>,
}

impl PdfNumber {
    pub open spec fn view(&self) -> Seq<u8> {
        self.lexeme@
    }

    /// The number whose lexeme is `raw`.
    pub fn new_from_lexeme(raw: &[u8]) -> (r: PdfNumber)
        ensures
            r.lexeme@ == raw@,
    {
        PdfNumber { lexeme: copy_bytes(raw) }
    }

    /// The number written as the decimal digits of `v`.
    pub fn from_u64(v: u64) -> (r: PdfNumber)
        ensures
            r.lexeme@ == decimal_digits(v as nat),
            number_int_value(r.lexeme@) == Some(v as int),
    {
        let lexeme = u64_to_decimal(v);
        proof {
            lemma_decimal_digits_number(v as nat);
        }
        PdfNumber { lexeme }
    }

    pub fn lexeme(&self) -> (r: &[u8])
        ensures
            r@ == self.lexeme@,
    {
        self.lexeme.as_slice()
    }

    /// The value as a `u64`, when the number is a non-negative integer that fits.
    pub fn as_u64_checked(&self) -> (r: PdfResult<u64>)
        ensures
            r == spec_number_as(self.lexeme@, u64::MAX as int),
    {
        number_as_bounded(self.lexeme.as_slice(), u64::MAX)
    }

    /// The value as a `u32`, when the number is a non-negative integer that fits.
    pub fn as_u32_checked(&self) -> (r: PdfResult<u32>)
        ensures
            r == (match spec_number_as(self.lexeme@, u32::MAX as int) {
                Ok(v) => Ok::<u32, PdfError>(v as u32),
                Err(e) => Err(e),
            }),
    {
        match number_as_bounded(self.lexeme.as_slice(), u32::MAX as u64) {
            Ok(v) => Ok(v as u32),
            Err(e) => Err(e),
        }
    }
}

/// The integer part of a number, as a cast to `u32` gives it: negative
/// numbers give 0, and values past the largest `u32` give the largest.
pub open spec fn number_u32_saturating(w: Seq<u8>) -> u32 {
    let (sign, b) = strip_sign(w);
    let v = digits_value(b.take(digit_prefix_len(b) as int));
    if sign < 0 {
        0
    } else if v > u32::MAX {
        u32::MAX
    } else {
        v as u32
    }
}

impl PdfNumber {
    /// The integer part of the number as a `u32`, saturating at both ends.
    pub fn get_u32(&self) -> (r: u32)
        ensures
            r == number_u32_saturating(self.lexeme@),
    {
        let w = self.lexeme.as_slice();
        let n = w.len();
        let negative = n > 0 && w[0] == 45u8;
        let start: usize = if n > 0 && (w[0] == 45u8 || w[0] == 43u8) {
            1
        } else {
            0
        };
        let ghost b = strip_sign(w@).1;
        assert(b =~= w@.subrange(start as int, n as int));
        let ghost k = digit_prefix_len(b) as int;
        proof {
            lemma_digit_prefix_bound(b);
        }
        let mut v: u64 = 0;
        let mut i: usize = start;
        assert(b.take(0) =~= Seq::<u8>::empty());
        while i < n && crate::parser::character::is_digit(w[i])
            invariant
                start <= i <= n,
                n == w@.len(),
                b == w@.subrange(start as int, n as int),
                k == digit_prefix_len(b),
                k <= b.len(),
                i - start <= k,
                v == (if digits_value(b.take(i - start)) > u32::MAX {
                    u32::MAX + 1
                } else {
                    digits_value(b.take(i - start)) as int
                }),
            decreases n - i,
        {
            proof {
                lemma_digit_prefix_take(b, i - start);
                assert(b[i - start] == w@[i as int]);
                assert(b.take(i - start + 1).drop_last() =~= b.take(i - start));
                assert(b.take(i - start + 1).last() == w@[i as int]);
            }
            let d = (w[i] - 48u8) as u64;
            if v > u32::MAX as u64 {
                v = u32::MAX as u64 + 1;
            } else {
                v = v * 10 + d;
                if v > u32::MAX as u64 {
                    v = u32::MAX as u64 + 1;
                }
            }
            i = i + 1;
        }
        proof {
            lemma_digit_prefix_take(b, i - start);
            if i - start < k {
                assert(b[i - start] == w@[i as int]);
            }
        }
        assert(i - start == k);
        if negative {
            0
        } else if v > u32::MAX as u64 {
            u32::MAX
        } else {
            v as u32
        }
    }
}

/// The decimal digits of a natural number, without leading zeros.
pub open spec fn decimal_digits(v: nat) -> Seq<u8>
    decreases v,
{
    if v < 10 {
        seq![(v + 48) as u8]
    } else {
        decimal_digits(v / 10).push(((v % 10) + 48) as u8)
    }
}

pub proof fn lemma_decimal_digits_props(v: nat)
    ensures
        all_digits(decimal_digits(v)),
        digits_value(decimal_digits(v)) == v,
        decimal_digits(v).len() >= 1,
        spec_is_digit(decimal_digits(v)[0]),
    decreases v,
{
    if v >= 10 {
        lemma_decimal_digits_props(v / 10);
        let s = decimal_digits(v / 10);
        let t = s.push(((v % 10) + 48) as u8);
        assert(t.drop_last() =~= s);
        assert(v == (v / 10) * 10 + v % 10) by (nonlinear_arith);
        assert(t.last() == ((v % 10) + 48) as u8);
        assert((((v % 10) + 48) as u8 - 48) as nat == v % 10);
        assert(digits_value(t) == digits_value(s) * 10 + (t.last() - 48) as nat);
        assert forall|i: int| 0 <= i < t.len() implies spec_is_digit(#[trigger] t[i]) by {
            if i < s.len() {
                assert(t[i] == s[i]);
            }
        }
    } else {
        let t = decimal_digits(v);
        assert(t.drop_last() =~= Seq::<u8>::empty());
        assert(t.last() == (v + 48) as u8);
        assert(digits_value(t) == digits_value(t.drop_last()) * 10 + (t.last() - 48) as nat);
    }
}

pub proof fn lemma_digit_prefix_all(b: Seq<u8>)
    requires
        all_digits(b),
    ensures
        digit_prefix_len(b) == b.len(),
    decreases b.len(),
{
    if b.len() > 0 {
        assert(all_digits(b.drop_first())) by {
            assert forall|i: int| 0 <= i < b.drop_first().len() implies spec_is_digit(
                #[trigger] b.drop_first()[i],
            ) by {
                assert(b.drop_first()[i] == b[i + 1]);
            }
        }
        assert(spec_is_digit(b[0]));
        lemma_digit_prefix_all(b.drop_first());
    }
}

pub proof fn lemma_decimal_digits_number(v: nat)
    ensures
        spec_is_number_token(decimal_digits(v)),
        number_int_value(decimal_digits(v)) == Some(v as int),
{
    lemma_decimal_digits_props(v);
    let w = decimal_digits(v);
    assert(strip_sign(w) == (1int, w));
    lemma_digit_prefix_all(w);
    assert(w.take(w.len() as int) =~= w);
}

/// The decimal digits of `v`.
pub fn u64_to_decimal(v: u64) -> (r: Vec<u8>)
    ensures
        r@ == decimal_digits(v as nat),
    decreases v,
{
    if v < 10 {
        let mut r: Vec<u8> = Vec::new();
        r.push((v + 48) as u8);
        r
    } else {
        let mut r = u64_to_decimal(v / 10);
        r.push(((v % 10) + 48) as u8);
        r
    }
}

pub proof fn lemma_digit_prefix_bound(b: Seq<u8>)
    ensures
        digit_prefix_len(b) <= b.len(),
    decreases b.len(),
{
    if b.len() > 0 {
        lemma_digit_prefix_bound(b.drop_first());
    }
}

proof fn lemma_digit_prefix_take(b: Seq<u8>, i: int)
    requires
        0 <= i <= digit_prefix_len(b),
    ensures
        all_digits(b.take(i)),
        i < digit_prefix_len(b) ==> i < b.len() && spec_is_digit(b[i]),
        i == digit_prefix_len(b) ==> i == b.len() || !spec_is_digit(b[i]),
    decreases b.len(),
{
    lemma_digit_prefix_bound(b);
    if i > 0 {
        assert(b.len() > 0 && spec_is_digit(b[0]));
        lemma_digit_prefix_take(b.drop_first(), i - 1);
        assert forall|j: int| 0 <= j < b.take(i).len() implies spec_is_digit(
            #[trigger] b.take(i)[j],
        ) by {
            if j > 0 {
                assert(b.take(i)[j] == b.drop_first().take(i - 1)[j - 1]);
            }
        }
        if i < b.len() {
            assert(b[i] == b.drop_first()[i - 1]);
        }
    } else {
        assert(b.take(0) =~= Seq::<u8>::empty());
    }
}

proof fn lemma_digits_value_push2(s: Seq<u8>, c: u8)
    ensures
        digits_value(s.push(c)) == digits_value(s) * 10 + (c - 48) as nat,
{
    assert(s.push(c).drop_last() =~= s);
}

/// Computes the integer value of a number lexeme if it lies in `0..=max`.
fn number_as_bounded(w: &[u8], max: u64) -> (r: PdfResult<u64>)
    ensures
        r == spec_number_as(w@, max as int),
{
    if !is_number_token(w) {
        return Err(PdfError::ParserError);
    }
    let ghost sb = strip_sign(w@);
    let negative = w.len() > 0 && w[0] == 45u8;
    let start: usize = if w.len() > 0 && (w[0] == 45u8 || w[0] == 43u8) {
        1
    } else {
        0
    };
    assert(sb.1 =~= w@.subrange(start as int, w@.len() as int));
    let ghost b = sb.1;
    let ghost k = digit_prefix_len(b) as int;
    // integer part
    let mut v: u128 = 0;
    let mut i: usize = start;
    let mut overflow = false;
    while i < w.len() && 48u8 <= w[i] && w[i] <= 57u8
        invariant
            start <= i <= w@.len(),
            b =~= w@.subrange(start as int, w@.len() as int),
            k == digit_prefix_len(b),
            i - start <= k,
            !overflow ==> v as nat == digits_value(b.take(i - start)),
            !overflow ==> v <= max,
            overflow ==> digits_value(b.take(i - start)) > max,
        decreases w.len() - i,
    {
        proof {
            lemma_digit_prefix_take(b, i - start);
            if i - start == k {
                assert(b[i - start] == w@[i as int]);
            }
            assert(b.take(i - start + 1) =~= b.take(i - start).push(w@[i as int]));
            lemma_digits_value_push2(b.take(i - start), w@[i as int]);
        }
        if !overflow {
            let nv: u128 = v * 10 + (w[i] - 48u8) as u128;
            if nv > max as u128 {
                overflow = true;
            } else {
                v = nv;
            }
        } else {
            proof {
                assert(digits_value(b.take(i - start + 1)) >= digits_value(b.take(i - start)))
                    by (nonlinear_arith)
                    requires
                        digits_value(b.take(i - start + 1)) == digits_value(b.take(i - start))
                            * 10 + (w@[i as int] - 48) as nat,
                ;
            }
        }
        i = i + 1;
    }
    proof {
        lemma_digit_prefix_take(b, i - start);
        if i < w.len() && i - start < k {
            assert(b[i - start] == w@[i as int]);
        }
    }
    assert(i - start == k);
    assert(!overflow ==> v as nat == digits_value(b.take(k)) && v <= max);
    assert(overflow ==> digits_value(b.take(k)) > max);
    // fractional part: only zeros are allowed
    let int_end = i;
    proof {
        lemma_digit_prefix_bound(b);
    }
    if i < w.len() {
        // the number grammar puts a point here
        proof {
            assert(b[k] == w@[i as int]);
        }
        i = i + 1;
        while i < w.len()
            invariant
                int_end + 1 <= i <= w@.len(),
                start <= int_end,
                k == digit_prefix_len(b),
                sb == strip_sign(w@),
                b == sb.1,
                b =~= w@.subrange(start as int, w@.len() as int),
                k == int_end - start,
                forall|j: int| k + 1 <= j < i - start ==> #[trigger] b[j] == 48u8,
            decreases w.len() - i,
        {
            if w[i] != 48u8 {
                proof {
                    assert(b[i - start] == w@[i as int]);
                    assert(!(b[i - start] == 48u8));
                    assert(number_int_value(w@) is None);
                }
                return Err(PdfError::ParserError);
            }
            proof {
                assert(b[i - start] == w@[i as int]);
            }
            i = i + 1;
        }
    }
    assert(forall|j: int| k + 1 <= j < b.len() ==> #[trigger] b[j] == 48u8);
    assert(sb.0 == (if negative { -1int } else { 1int }));
    assert(number_int_value(w@) == Some(sb.0 * digits_value(b.take(k))));
    let ghost dv = digits_value(b.take(k)) as int;
    assert(sb.0 * dv == (if negative { -dv } else { dv })) by (nonlinear_arith)
        requires
            sb.0 == (if negative { -1int } else { 1int }),
    ;
    if overflow {
        return Err(PdfError::ParserError);
    }
    if negative && v != 0 {
        return Err(PdfError::ParserError);
    }
    Ok(v as u64)
}

/// Whether `w` follows the number grammar: an optional sign, digits, and
/// optionally a point followed by digits, with at least one digit in all.
pub fn is_number_token(buf: &[u8]) -> (r: bool)
    ensures
        r == spec_is_number_token(buf@),
{
    if buf.len() == 0 {
        return false;
    }
    let mut i: usize = 0;
    if buf[0] == 43u8 || buf[0] == 45u8 {
        i = i + 1;
    }
    let start = i;
    let ghost b = strip_sign(buf@).1;
    assert(b =~= buf@.subrange(start as int, buf@.len() as int));
    if i >= buf.len() {
        return false;
    }
    let mut digits_before: usize = 0;
    while i < buf.len() && 48u8 <= buf[i] && buf[i] <= 57u8
        invariant
            start <= i <= buf@.len(),
            b =~= buf@.subrange(start as int, buf@.len() as int),
            digits_before == i - start,
            i - start <= digit_prefix_len(b),
        decreases buf.len() - i,
    {
        proof {
            lemma_digit_prefix_take(b, i - start);
            if i - start == digit_prefix_len(b) {
                assert(b[i - start] == buf@[i as int]);
            }
        }
        digits_before = digits_before + 1;
        i = i + 1;
    }
    proof {
        lemma_digit_prefix_take(b, i - start);
        if i < buf.len() && i - start < digit_prefix_len(b) {
            assert(b[i - start] == buf@[i as int]);
        }
    }
    let k = i;
    let mut digits_after: usize = 0;
    if i < buf.len() && buf[i] == 46u8 {
        i = i + 1;
        while i < buf.len() && 48u8 <= buf[i] && buf[i] <= 57u8
            invariant
                k + 1 <= i <= buf@.len(),
                digits_after == i - k - 1,
                forall|j: int| k + 1 <= j < i ==> spec_is_digit(#[trigger] buf@[j]),
            decreases buf.len() - i,
        {
            digits_after = digits_after + 1;
            i = i + 1;
        }
    }
    let r = i == buf.len() && (digits_before > 0 || digits_after > 0);
    proof {
        let kk = (k - start) as int;
        if k < buf.len() && buf@[k as int] == 46u8 {
            assert(b[kk] == buf@[k as int]);
            if i == buf.len() {
                assert forall|j: int| 0 <= j < b.skip(kk + 1).len() implies spec_is_digit(
                    #[trigger] b.skip(kk + 1)[j],
                ) by {
                    assert(b.skip(kk + 1)[j] == buf@[k + 1 + j]);
                }
            } else {
                assert(b.skip(kk + 1)[i - k - 1] == buf@[i as int]);
                assert(!spec_is_digit(b.skip(kk + 1)[i - k - 1]));
            }
        } else if k < buf.len() {
            assert(b[kk] == buf@[k as int]);
        }
    }
    r
}

// ---------------------------------------------------------------- strings and names

/// A string object: its bytes and whether it was written in hexadecimal.
#[derive(Debug, Clone, PartialEq)]
pub struct PdfString {
    pub bytes: Vec<u8>,
    pub hex: bool,
}

impl PdfString {
    pub fn new(bytes: Vec<u8>, hex: bool) -> (r: PdfString)
        ensures
            r.bytes@ == bytes@,
            r.hex == hex,
    {
        PdfString { bytes, hex }
    }

    pub fn bytes(&self) -> (r: &[u8])
        ensures
            r@ == self.bytes@,
    {
        self.bytes.as_slice()
    }

    pub fn raw_bytes(&self) -> (r: Vec<u8>)
        ensures
            r@ == self.bytes@,
    {
        copy_bytes(self.bytes.as_slice())
    }

    pub fn is_hex(&self) -> (r: bool)
        ensures
            r == self.hex,
    {
        self.hex
    }
}

/// The decoded bytes of a name from index `i` on, after the bytes `acc` already
/// decoded: `#` followed by two hexadecimal digits stands for the byte they spell.
pub open spec fn decode_name_acc(s: Seq<u8>, i: int, acc: Seq<u8>) -> Option<Seq<u8>>
    decreases s.len() - i,
{
    if i < 0 || i >= s.len() {
        Some(acc)
    } else if s[i] == 35u8 {
        if i + 2 < s.len() && spec_is_hex_digit(s[i + 1]) && spec_is_hex_digit(s[i + 2]) {
            decode_name_acc(
                s,
                i + 3,
                acc.push((spec_hex_value(s[i + 1]) * 16 + spec_hex_value(s[i + 2])) as u8),
            )
        } else {
            None
        }
    } else {
        decode_name_acc(s, i + 1, acc.push(s[i]))
    }
}

/// The decoded bytes of a name token, whose first byte is the `/`.
pub open spec fn spec_decode_name(raw: Seq<u8>) -> Option<Seq<u8>> {
    decode_name_acc(raw, 1, Seq::empty())
}

/// A name object, by its decoded bytes.
#[derive(Debug, Clone, PartialEq)]
pub struct PdfName {
    pub bytes: Vec<u8>,
}

impl PdfName {
    pub fn new(bytes: Vec<u8>) -> (r: PdfName)
        ensures
            r.bytes@ == bytes@,
    {
        PdfName { bytes }
    }

    /// Decodes a name token (which starts with `/`); a `#` that is not followed
    /// by two hexadecimal digits is refused.
    pub fn new_from_buffer(raw: &[u8]) -> (r: PdfResult<PdfName>)
        ensures
            match spec_decode_name(raw@) {
                Some(n) => r matches Ok(name) && name.bytes@ == n,
                None => r == Err::<PdfName, PdfError>(PdfError::ParserError),
            },
    {
        let mut out: Vec<u8> = Vec::new();
        let mut i: usize = 1;
        while i < raw.len()
            invariant
                1 <= i <= raw@.len() || (i == 1 && raw@.len() == 0),
                spec_decode_name(raw@) == decode_name_acc(raw@, i as int, out@),
            decreases raw.len() - i,
        {
            if raw[i] == 35u8 {
                if i < raw.len() - 2 && is_hex(raw[i + 1]) && is_hex(raw[i + 2]) {
                    proof {
                        lemma_hex_value_of_digits(raw@[i + 1]);
                        lemma_hex_value_of_digits(raw@[i + 2]);
                    }
                    let hi = hex_to_u8(raw[i + 1]);
                    let lo = hex_to_u8(raw[i + 2]);
                    out.push(hi * 16 + lo);
                    i = i + 3;
                } else {
                    return Err(PdfError::ParserError);
                }
            } else {
                out.push(raw[i]);
                i = i + 1;
            }
        }
        Ok(PdfName { bytes: out })
    }

    pub fn bytes(&self) -> (r: &[u8])
        ensures
            r@ == self.bytes@,
    {
        self.bytes.as_slice()
    }

    pub fn name(&self) -> (r: &[u8])
        ensures
            r@ == self.bytes@,
    {
        self.bytes.as_slice()
    }
}

fn is_hex(c: u8) -> (r: bool)
    ensures
        r == spec_is_hex_digit(c),
{
    crate::parser::character::is_hex_digit(c)
}

// ---------------------------------------------------------------- compound objects

/// One entry of a dictionary.
#[derive(Debug, PartialEq)]
pub struct DictEntry {
    pub key: Vec<u8>,
    pub value: PdfObject,
}

/// An array object.
#[derive(Debug, PartialEq)]
pub struct PdfArray {
    pub items: Vec<PdfObject>,
}

/// A dictionary object; its entries keep their order, and a key that is
/// inserted again replaces the value of its first entry.
#[derive(Debug, PartialEq)]
pub struct PdfDict {
    pub entries: Vec<DictEntry>,
}

/// A stream object: its dictionary and its raw (undecoded) bytes.
#[derive(Debug, PartialEq)]
pub struct PdfStream {
    pub dict: PdfDict,
    pub data: Vec<u8>,
}

#[derive(Debug, PartialEq)]
pub enum PdfObject {
    PdfNull,
    PdfBool(PdfBool),
    PdfNumber(PdfNumber),
    PdfString(PdfString),
    PdfName(PdfName),
    PdfArray(PdfArray),
    PdfDict(PdfDict),
    PdfStream(PdfStream),
    PdfReference(PdfReference),
}

pub open spec fn items_view(s: Seq<PdfObject>) -> Seq<Obj>
    decreases s,
{
    if s.len() == 0 {
        Seq::empty()
    } else {
        seq![s[0].view()] + items_view(s.drop_first())
    }
}

pub open spec fn entries_view(s: Seq<DictEntry>) -> Seq<(Seq<u8>, Obj)>
    decreases s,
{
    if s.len() == 0 {
        Seq::empty()
    } else {
        seq![(s[0].key@, s[0].value.view())] + entries_view(s.drop_first())
    }
}

impl View for PdfObject {
    type V = Obj;

    open spec fn view(&self) -> Obj
        decreases self,
    {
        match self {
            PdfObject::PdfNull => Obj::Null,
            PdfObject::PdfBool(b) => Obj::Bool(b.value),
            PdfObject::PdfNumber(n) => Obj::Number(n.lexeme@),
            PdfObject::PdfString(s) => Obj::Str(s.bytes@, s.hex),
            PdfObject::PdfName(n) => Obj::Name(n.bytes@),
            PdfObject::PdfArray(a) => Obj::Array(items_view(a.items@)),
            PdfObject::PdfDict(d) => Obj::Dict(entries_view(d.entries@)),
            PdfObject::PdfStream(st) => Obj::Stream(entries_view(st.dict.entries@), st.data@),
            PdfObject::PdfReference(r) => Obj::Ref(r.objnum, r.gennum),
        }
    }
}

impl View for PdfArray {
    type V = Seq<Obj>;

    open spec fn view(&self) -> Seq<Obj> {
        items_view(self.items@)
    }
}

impl View for PdfDict {
    type V = Seq<(Seq<u8>, Obj)>;

    open spec fn view(&self) -> Seq<(Seq<u8>, Obj)> {
        entries_view(self.entries@)
    }
}

pub proof fn lemma_items_view(s: Seq<PdfObject>)
    ensures
        items_view(s).len() == s.len(),
        forall|i: int| 0 <= i < s.len() ==> #[trigger] items_view(s)[i] == s[i]@,
    decreases s.len(),
{
    if s.len() > 0 {
        lemma_items_view(s.drop_first());
        assert(items_view(s) == seq![s[0].view()] + items_view(s.drop_first()));
        assert forall|i: int| 0 <= i < s.len() implies #[trigger] items_view(s)[i] == s[i]@ by {
            if i > 0 {
                assert(s.drop_first()[i - 1] == s[i]);
            }
        }
    }
}

pub proof fn lemma_entries_view(s: Seq<DictEntry>)
    ensures
        entries_view(s).len() == s.len(),
        forall|i: int|
            0 <= i < s.len() ==> #[trigger] entries_view(s)[i] == (s[i].key@, s[i].value@),
    decreases s.len(),
{
    if s.len() > 0 {
        lemma_entries_view(s.drop_first());
        assert(entries_view(s) == seq![(s[0].key@, s[0].value.view())] + entries_view(
            s.drop_first(),
        ));
        assert forall|i: int| 0 <= i < s.len() implies #[trigger] entries_view(s)[i] == (
            s[i].key@,
            s[i].value@,
        ) by {
            if i > 0 {
                assert(s.drop_first()[i - 1] == s[i]);
            }
        }
    }
}

pub proof fn lemma_items_view_push(s: Seq<PdfObject>, o: PdfObject)
    ensures
        items_view(s.push(o)) == items_view(s).push(o@),
{
    lemma_items_view(s);
    lemma_items_view(s.push(o));
    assert(items_view(s.push(o)) =~= items_view(s).push(o@));
}

pub proof fn lemma_entries_view_push(s: Seq<DictEntry>, e: DictEntry)
    ensures
        entries_view(s.push(e)) == entries_view(s).push((e.key@, e.value@)),
{
    lemma_entries_view(s);
    lemma_entries_view(s.push(e));
    assert(entries_view(s.push(e)) =~= entries_view(s).push((e.key@, e.value@)));
}

pub proof fn lemma_entries_view_update(s: Seq<DictEntry>, i: int, e: DictEntry)
    requires
        0 <= i < s.len(),
    ensures
        entries_view(s.update(i, e)) == entries_view(s).update(i, (e.key@, e.value@)),
{
    lemma_entries_view(s);
    lemma_entries_view(s.update(i, e));
    assert(entries_view(s.update(i, e)) =~= entries_view(s).update(i, (e.key@, e.value@)));
}

/// The index of the first entry with key `k`, searching from index `i`.
pub open spec fn dict_find_from(es: Seq<(Seq<u8>, Obj)>, k: Seq<u8>, i: int) -> Option<int>
    decreases es.len() - i,
{
    if i < 0 || i >= es.len() {
        None
    } else if es[i].0 == k {
        Some(i)
    } else {
        dict_find_from(es, k, i + 1)
    }
}

/// The index of the first entry with key `k`.
pub open spec fn dict_find(es: Seq<(Seq<u8>, Obj)>, k: Seq<u8>) -> Option<int> {
    dict_find_from(es, k, 0)
}

/// The value of the first entry with key `k`.
pub open spec fn dict_get(es: Seq<(Seq<u8>, Obj)>, k: Seq<u8>) -> Option<Obj> {
    match dict_find(es, k) {
        Some(i) => Some(es[i].1),
        None => None,
    }
}

/// Insertion: the first entry with key `k` gets the value `v`, or a new entry
/// is added at the end.
pub open spec fn dict_insert(es: Seq<(Seq<u8>, Obj)>, k: Seq<u8>, v: Obj) -> Seq<(Seq<u8>, Obj)> {
    match dict_find(es, k) {
        Some(i) => es.update(i, (k, v)),
        None => es.push((k, v)),
    }
}

pub proof fn lemma_dict_find_from(es: Seq<(Seq<u8>, Obj)>, k: Seq<u8>, i: int)
    requires
        0 <= i,
    ensures
        match dict_find_from(es, k, i) {
            Some(j) => i <= j < es.len() && es[j].0 == k && forall|m: int|
                i <= m < j ==> es[m].0 != k,
            None => forall|m: int| i <= m < es.len() ==> es[m].0 != k,
        },
    decreases es.len() - i,
{
    if i < es.len() && es[i].0 != k {
        lemma_dict_find_from(es, k, i + 1);
    }
}

impl PdfArray {
    pub fn new() -> (r: PdfArray)
        ensures
            r@ == Seq::<Obj>::empty(),
    {
        PdfArray { items: Vec::new() }
    }

    pub fn add_obj(&mut self, obj: PdfObject)
        ensures
            final(self)@ == old(self)@.push(obj@),
    {
        proof {
            lemma_items_view_push(self.items@, obj);
        }
        self.items.push(obj);
    }

    pub fn len(&self) -> (r: usize)
        ensures
            r == self@.len(),
    {
        proof {
            lemma_items_view(self.items@);
        }
        self.items.len()
    }

    pub fn get(&self, i: usize) -> (r: Option<&PdfObject>)
        ensures
            match r {
                Some(o) => i < self@.len() && o@ == self@[i as int],
                None => i >= self@.len(),
            },
    {
        proof {
            lemma_items_view(self.items@);
        }
        if i < self.items.len() {
            Some(&self.items[i])
        } else {
            None
        }
    }
}

impl PdfDict {
    pub fn new() -> (r: PdfDict)
        ensures
            r@ == Seq::<(Seq<u8>, Obj)>::empty(),
    {
        PdfDict { entries: Vec::new() }
    }

    pub fn len(&self) -> (r: usize)
        ensures
            r == self@.len(),
    {
        proof {
            lemma_entries_view(self.entries@);
        }
        self.entries.len()
    }

    /// The position of the first entry with the given key.
    pub fn find(&self, key: &[u8]) -> (r: Option<usize>)
        ensures
            match r {
                Some(i) => dict_find(self@, key@) == Some(i as int) && i < self.entries@.len()
                    && i < self@.len(),
                None => dict_find(self@, key@) is None,
            },
    {
        proof {
            lemma_entries_view(self.entries@);
        }
        let mut i: usize = 0;
        while i < self.entries.len()
            invariant
                0 <= i <= self.entries@.len(),
                entries_view(self.entries@).len() == self.entries@.len(),
                forall|j: int|
                    0 <= j < self.entries@.len() ==> #[trigger] entries_view(self.entries@)[j]
                        == (self.entries@[j].key@, self.entries@[j].value@),
                dict_find(self@, key@) == dict_find_from(self@, key@, i as int),
            decreases self.entries.len() - i,
        {
            if bytes_eq(self.entries[i].key.as_slice(), key) {
                return Some(i);
            }
            i = i + 1;
        }
        None
    }

    /// The value of the first entry with the given key.
    pub fn get(&self, key: &[u8]) -> (r: Option<&PdfObject>)
        ensures
            match r {
                Some(o) => dict_get(self@, key@) == Some(o@),
                None => dict_get(self@, key@) is None,
            },
    {
        proof {
            lemma_entries_view(self.entries@);
        }
        match self.find(key) {
            Some(i) => Some(&self.entries[i].value),
            None => None,
        }
    }

    pub fn contains_key(&self, key: &[u8]) -> (r: bool)
        ensures
            r == dict_get(self@, key@) is Some,
    {
        self.find(key).is_some()
    }

    /// Sets the value of the first entry with this key, or adds an entry at the end.
    pub fn insert(&mut self, key: Vec<u8>, value: PdfObject)
        ensures
            final(self)@ == dict_insert(old(self)@, key@, value@),
    {
        match self.find(key.as_slice()) {
            Some(i) => {
                proof {
                    lemma_entries_view(self.entries@);
                    lemma_entries_view_update(
                        self.entries@,
                        i as int,
                        DictEntry { key: key, value: value },
                    );
                }
                let e = DictEntry { key, value };
                self.entries.set(i, e);
            },
            None => {
                proof {
                    lemma_entries_view_push(self.entries@, DictEntry { key: key, value: value });
                }
                self.entries.push(DictEntry { key, value });
            },
        }
    }

    /// The key of the entry at position `i`.
    pub fn key_at(&self, i: usize) -> (r: &[u8])
        requires
            i < self@.len(),
        ensures
            r@ == self@[i as int].0,
    {
        proof {
            lemma_entries_view(self.entries@);
        }
        self.entries[i].key.as_slice()
    }

    /// The value of the entry at position `i`.
    pub fn value_at(&self, i: usize) -> (r: &PdfObject)
        requires
            i < self@.len(),
        ensures
            r@ == self@[i as int].1,
    {
        proof {
            lemma_entries_view(self.entries@);
        }
        &self.entries[i].value
    }
}

impl PdfStream {
    pub fn new(dict: PdfDict, data: Vec<u8>) -> (r: PdfStream)
        ensures
            r.dict@ == dict@,
            r.data@ == data@,
    {
        PdfStream { dict, data }
    }

    pub fn dict(&self) -> (r: &PdfDict)
        ensures
            r@ == self.dict@,
    {
        &self.dict
    }

    pub fn raw_data(&self) -> (r: &[u8])
        ensures
            r@ == self.data@,
    {
        self.data.as_slice()
    }
}

// ---------------------------------------------------------------- object accessors

impl PdfObject {
    pub fn as_number(&self) -> (r: Option<&PdfNumber>)
        ensures
            r is Some <==> self@ is Number,
            r matches Some(n) ==> self@ == Obj::Number(n.lexeme@),
    {
        match self {
            PdfObject::PdfNumber(n) => Some(n),
            _ => None,
        }
    }

    pub fn as_name(&self) -> (r: Option<&PdfName>)
        ensures
            r is Some <==> self@ is Name,
            r matches Some(n) ==> self@ == Obj::Name(n.bytes@),
    {
        match self {
            PdfObject::PdfName(n) => Some(n),
            _ => None,
        }
    }

    pub fn as_string(&self) -> (r: Option<&PdfString>)
        ensures
            r is Some <==> self@ is Str,
            r matches Some(st) ==> self@ == Obj::Str(st.bytes@, st.hex),
    {
        match self {
            PdfObject::PdfString(st) => Some(st),
            _ => None,
        }
    }

    pub fn as_array(&self) -> (r: Option<&PdfArray>)
        ensures
            r is Some <==> self@ is Array,
            r matches Some(a) ==> self@ == Obj::Array(a@),
    {
        match self {
            PdfObject::PdfArray(a) => Some(a),
            _ => None,
        }
    }

    pub fn as_dict(&self) -> (r: Option<&PdfDict>)
        ensures
            r is Some <==> self@ is Dict,
            r matches Some(d) ==> self@ == Obj::Dict(d@),
    {
        match self {
            PdfObject::PdfDict(d) => Some(d),
            _ => None,
        }
    }

    pub fn as_stream(&self) -> (r: Option<&PdfStream>)
        ensures
            r is Some <==> self@ is Stream,
            r matches Some(st) ==> self@ == Obj::Stream(st.dict@, st.data@),
    {
        match self {
            PdfObject::PdfStream(st) => Some(st),
            _ => None,
        }
    }

    pub fn as_reference(&self) -> (r: Option<&PdfReference>)
        ensures
            r is Some <==> self@ is Ref,
            r matches Some(rf) ==> self@ == Obj::Ref(rf.objnum, rf.gennum),
    {
        match self {
            PdfObject::PdfReference(rf) => Some(rf),
            _ => None,
        }
    }

    pub fn into_dict(self) -> (r: Option<PdfDict>)
        ensures
            r is Some <==> self@ is Dict,
            r matches Some(d) ==> self@ == Obj::Dict(d@),
    {
        match self {
            PdfObject::PdfDict(d) => Some(d),
            _ => None,
        }
    }

    pub fn into_stream(self) -> (r: Option<PdfStream>)
        ensures
            r is Some <==> self@ is Stream,
            r matches Some(st) ==> self@ == Obj::Stream(st.dict@, st.data@),
    {
        match self {
            PdfObject::PdfStream(st) => Some(st),
            _ => None,
        }
    }

    pub fn into_string(self) -> (r: Option<PdfString>)
        ensures
            r is Some <==> self@ is Str,
            r matches Some(st) ==> self@ == Obj::Str(st.bytes@, st.hex),
    {
        match self {
            PdfObject::PdfString(st) => Some(st),
            _ => None,
        }
    }

    pub fn into_name(self) -> (r: Option<PdfName>)
        ensures
            r is Some <==> self@ is Name,
            r matches Some(n) ==> self@ == Obj::Name(n.bytes@),
    {
        match self {
            PdfObject::PdfName(n) => Some(n),
            _ => None,
        }
    }

    pub fn into_reference(self) -> (r: Option<PdfReference>)
        ensures
            r is Some <==> self@ is Ref,
            r matches Some(rf) ==> self@ == Obj::Ref(rf.objnum, rf.gennum),
    {
        match self {
            PdfObject::PdfReference(rf) => Some(rf),
            _ => None,
        }
    }

    /// A copy of the object, equal to it.
    pub fn clone_object(&self) -> (r: PdfObject)
        ensures
            r@ == self@,
        decreases self,
    {
        match self {
            PdfObject::PdfNull => PdfObject::PdfNull,
            PdfObject::PdfBool(b) => PdfObject::PdfBool(PdfBool { value: b.value }),
            PdfObject::PdfNumber(n) => PdfObject::PdfNumber(
                PdfNumber { lexeme: copy_bytes(n.lexeme.as_slice()) },
            ),
            PdfObject::PdfString(st) => PdfObject::PdfString(
                PdfString { bytes: copy_bytes(st.bytes.as_slice()), hex: st.hex },
            ),
            PdfObject::PdfName(n) => PdfObject::PdfName(
                PdfName { bytes: copy_bytes(n.bytes.as_slice()) },
            ),
            PdfObject::PdfArray(a) => PdfObject::PdfArray(a.clone_array()),
            PdfObject::PdfDict(d) => PdfObject::PdfDict(d.clone_dict()),
            PdfObject::PdfStream(st) => PdfObject::PdfStream(
                PdfStream { dict: st.dict.clone_dict(), data: copy_bytes(st.data.as_slice()) },
            ),
            PdfObject::PdfReference(rf) => PdfObject::PdfReference(
                PdfReference { objnum: rf.objnum, gennum: rf.gennum },
            ),
        }
    }
}

impl PdfArray {
    /// A copy of the array, equal to it.
    pub fn clone_array(&self) -> (r: PdfArray)
        ensures
            r@ == self@,
        decreases self,
    {
        let mut items: Vec<PdfObject> = Vec::new();
        let mut i: usize = 0;
        proof {
            lemma_items_view(self.items@);
        }
        while i < self.items.len()
            invariant
                0 <= i <= self.items@.len(),
                items_view(items@) =~= items_view(self.items@).take(i as int),
                items_view(self.items@).len() == self.items@.len(),
                forall|j: int|
                    0 <= j < self.items@.len() ==> #[trigger] items_view(self.items@)[j]
                        == self.items@[j]@,
            decreases self.items.len() - i,
        {
            proof {
                assert(decreases_to!(self => self.items));
                vstd::std_specs::vec::axiom_vec_index_decreases(self.items, i as int);
            }
            let o = self.items[i].clone_object();
            proof {
                lemma_items_view_push(items@, o);
            }
            items.push(o);
            i = i + 1;
        }
        assert(items_view(self.items@).take(i as int) =~= items_view(self.items@));
        PdfArray { items }
    }
}

impl PdfDict {
    /// A copy of the dictionary, equal to it.
    pub fn clone_dict(&self) -> (r: PdfDict)
        ensures
            r@ == self@,
        decreases self,
    {
        let mut entries: Vec<DictEntry> = Vec::new();
        let mut i: usize = 0;
        proof {
            lemma_entries_view(self.entries@);
        }
        while i < self.entries.len()
            invariant
                0 <= i <= self.entries@.len(),
                entries_view(entries@) =~= entries_view(self.entries@).take(i as int),
                entries_view(self.entries@).len() == self.entries@.len(),
                forall|j: int|
                    0 <= j < self.entries@.len() ==> #[trigger] entries_view(self.entries@)[j]
                        == (self.entries@[j].key@, self.entries@[j].value@),
            decreases self.entries.len() - i,
        {
            proof {
                assert(decreases_to!(self => self.entries));
                vstd::std_specs::vec::axiom_vec_index_decreases(self.entries, i as int);
                assert(decreases_to!(self.entries[i as int] => self.entries[i as int].value));
            }
            let v = self.entries[i].value.clone_object();
            let e = DictEntry { key: copy_bytes(self.entries[i].key.as_slice()), value: v };
            proof {
                lemma_entries_view_push(entries@, e);
            }
            entries.push(e);
            i = i + 1;
        }
        assert(entries_view(self.entries@).take(i as int) =~= entries_view(self.entries@));
        PdfDict { entries }
    }
}

/// An indirect object: its object and generation numbers and the object itself.
#[derive(Debug, PartialEq)]
pub struct PdfIndirect {
    pub objnum: u32,
    pub gennum: u16,
    pub obj: PdfObject,
}

impl PdfIndirect {
    pub fn new(objnum: u32, gennum: u16, obj: PdfObject) -> (r: PdfIndirect)
        ensures
            r.objnum == objnum,
            r.gennum == gennum,
            r.obj@ == obj@,
    {
        PdfIndirect { objnum, gennum, obj }
    }

    pub fn obj(&self) -> (r: &PdfObject)
        ensures
            r@ == self.obj@,
    {
        &self.obj
    }

    pub fn to_obj(self) -> (r: PdfObject)
        ensures
            r@ == self.obj@,
    {
        self.obj
    }
}

} // verus!
