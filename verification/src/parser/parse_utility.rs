use vstd::prelude::*;

verus! {

/// ASCII upper-casing of a byte.
pub open spec fn spec_to_upper(c: u8) -> u8 {
    if 97u8 <= c && c <= 122u8 {
        (c - 32) as u8
    } else {
        c
    }
}

/// The digit value that `hex_to_u8` computes: letters count from 10 upwards
/// after upper-casing, other bytes count from `0`.
pub open spec fn spec_hex_value(c: u8) -> u8 {
    let uc = spec_to_upper(c);
    if uc > 57u8 {
        (uc - 55) as u8
    } else {
        (uc - 48) as u8
    }
}

/// The bytes on which `hex_to_u8` is defined: it would underflow below `0`
/// and between `:` and `@`.
pub open spec fn hex_to_u8_defined(c: u8) -> bool {
    c >= 48u8 && !(58u8 <= c && c <= 64u8)
}

/// The value of a hexadecimal digit; both cases of the letters are accepted.
pub fn hex_to_u8(c: u8) -> (r: u8)
    requires
        hex_to_u8_defined(c),
    ensures
        r == spec_hex_value(c),
{
    let uc = if 97u8 <= c && c <= 122u8 {
        c - 32
    } else {
        c
    };
    if uc > 57u8 {
        uc - 65u8 + 10
    } else {
        uc - 48u8
    }
}

/// On the hexadecimal digits the value is the digit's value.
pub proof fn lemma_hex_value_of_digits(c: u8)
    requires
        crate::parser::character::spec_is_hex_digit(c),
    ensures
        hex_to_u8_defined(c),
        spec_hex_value(c) < 16,
        48u8 <= c <= 57u8 ==> spec_hex_value(c) == c - 48,
        65u8 <= c <= 70u8 ==> spec_hex_value(c) == c - 55,
        97u8 <= c <= 102u8 ==> spec_hex_value(c) == c - 87,
{
}

} // verus!

verus! {

/// The value of a string of decimal digits, most significant first.
pub open spec fn digits_value(s: Seq<u8>) -> nat
    decreases s.len(),
{
    if s.len() == 0 {
        0
    } else {
        digits_value(s.drop_last()) * 10 + (s.last() - 48) as nat
    }
}

pub open spec fn all_digits(s: Seq<u8>) -> bool {
    forall|i: int| 0 <= i < s.len() ==> crate::parser::character::spec_is_digit(#[trigger] s[i])
}

/// What `str::parse` gives for an unsigned integer type with maximum `max`:
/// an optional `+`, then at least one decimal digit, and a value that fits.
pub open spec fn spec_parse_unsigned(s: Seq<u8>, max: nat) -> Option<nat> {
    let b = if s.len() > 0 && s[0] == 43u8 {
        s.drop_first()
    } else {
        s
    };
    if b.len() > 0 && all_digits(b) && digits_value(b) <= max {
        Some(digits_value(b))
    } else {
        None
    }
}

/// A prefix of a digit string has at most the value of the whole string.
proof fn lemma_prefix_value_monotone(b: Seq<u8>, k: int)
    requires
        all_digits(b),
        0 <= k <= b.len(),
    ensures
        digits_value(b.take(k)) <= digits_value(b),
    decreases b.len(),
{
    if k < b.len() {
        let c = b.drop_last();
        assert(all_digits(c)) by {
            assert forall|i: int| 0 <= i < c.len() implies crate::parser::character::spec_is_digit(#[trigger] c[i]) by {
                assert(c[i] == b[i]);
            }
        }
        lemma_prefix_value_monotone(c, k);
        assert(c.take(k) =~= b.take(k));
    } else {
        assert(b.take(k) =~= b);
    }
}

/// When a prefix already exceeds the bound, the parse fails.
proof fn lemma_prefix_value_bound(b: Seq<u8>, k: int, max: nat)
    requires
        0 <= k <= b.len(),
        digits_value(b.take(k)) > max,
    ensures
        !(b.len() > 0 && all_digits(b) && digits_value(b) <= max),
{
    if all_digits(b) {
        lemma_prefix_value_monotone(b, k);
    }
}

proof fn lemma_digits_value_push(s: Seq<u8>, c: u8)
    ensures
        digits_value(s.push(c)) == digits_value(s) * 10 + (c - 48) as nat,
{
    assert(s.push(c).drop_last() =~= s);
}

/// Parses an unsigned decimal number as `str::parse::<u64>` does, with the
/// bound `max` in place of the type's maximum.
pub fn parse_unsigned(s: &[u8], max: u64) -> (r: Option<u64>)
    ensures
        match r {
            Some(v) => spec_parse_unsigned(s@, max as nat) == Some(v as nat),
            None => spec_parse_unsigned(s@, max as nat) is None,
        },
{
    let start: usize = if s.len() > 0 && s[0] == 43u8 {
        1
    } else {
        0
    };
    let ghost b = if s@.len() > 0 && s@[0] == 43u8 {
        s@.drop_first()
    } else {
        s@
    };
    assert(b =~= s@.subrange(start as int, s@.len() as int));
    if start >= s.len() {
        return None;
    }
    let mut v: u64 = 0;
    let mut i: usize = start;
    while i < s.len()
        invariant
            start <= i <= s.len(),
            b =~= s@.subrange(start as int, s@.len() as int),
            b == (if s@.len() > 0 && s@[0] == 43u8 {
                s@.drop_first()
            } else {
                s@
            }),
            v as nat == digits_value(s@.subrange(start as int, i as int)),
            all_digits(s@.subrange(start as int, i as int)),
            v <= max,
        decreases s.len() - i,
    {
        let c = s[i];
        proof {
            assert(s@.subrange(start as int, i + 1) =~= s@.subrange(start as int, i as int).push(c));
            lemma_digits_value_push(s@.subrange(start as int, i as int), c);
        }
        if !(48u8 <= c && c <= 57u8) {
            proof {
                assert(b[i - start] == c);
                assert(!crate::parser::character::spec_is_digit(b[i - start]));
            }
            return None;
        }
        let nv: u128 = v as u128 * 10 + (c - 48u8) as u128;
        if nv > max as u128 {
            proof {
                assert(b.take((i - start + 1) as int) =~= s@.subrange(start as int, i + 1));
                lemma_prefix_value_bound(b, (i - start + 1) as int, max as nat);
            }
            return None;
        }
        v = nv as u64;
        i = i + 1;
    }
    assert(s@.subrange(start as int, i as int) =~= b);
    Some(v)
}

} // verus!
