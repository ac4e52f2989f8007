use vstd::prelude::*;

verus! {

/// The operators of content streams of one byte: `w J j M d i q Q m l c v y h
/// s F B b n S f W ' " g G k K`.
pub open spec fn is_op1(a: u8) -> bool {
    ||| a == 119u8
    ||| a == 74u8
    ||| a == 106u8
    ||| a == 77u8
    ||| a == 100u8
    ||| a == 105u8
    ||| a == 113u8
    ||| a == 81u8
    ||| a == 109u8
    ||| a == 108u8
    ||| a == 99u8
    ||| a == 118u8
    ||| a == 121u8
    ||| a == 104u8
    ||| a == 115u8
    ||| a == 70u8
    ||| a == 66u8
    ||| a == 98u8
    ||| a == 110u8
    ||| a == 83u8
    ||| a == 102u8
    ||| a == 87u8
    ||| a == 39u8
    ||| a == 34u8
    ||| a == 103u8
    ||| a == 71u8
    ||| a == 107u8
    ||| a == 75u8
}

/// The operators of two bytes: `ri gs cm re f* B* b* W* BT ET Tc Tw Tz TL Tf
/// Tr Ts Td TD Tm T* Tj TJ d0 d1 cs CS sc SC rg RG sh BI ID EI Do MP DP BX EX`.
pub open spec fn is_op2(a: u8, b: u8) -> bool {
    ||| (a == 114u8 && b == 105u8)
    ||| (a == 103u8 && b == 115u8)
    ||| (a == 99u8 && b == 109u8)
    ||| (a == 114u8 && b == 101u8)
    ||| (a == 102u8 && b == 42u8)
    ||| (a == 66u8 && b == 42u8)
    ||| (a == 98u8 && b == 42u8)
    ||| (a == 87u8 && b == 42u8)
    ||| (a == 66u8 && b == 84u8)
    ||| (a == 69u8 && b == 84u8)
    ||| (a == 84u8 && b == 99u8)
    ||| (a == 84u8 && b == 119u8)
    ||| (a == 84u8 && b == 122u8)
    ||| (a == 84u8 && b == 76u8)
    ||| (a == 84u8 && b == 102u8)
    ||| (a == 84u8 && b == 114u8)
    ||| (a == 84u8 && b == 115u8)
    ||| (a == 84u8 && b == 100u8)
    ||| (a == 84u8 && b == 68u8)
    ||| (a == 84u8 && b == 109u8)
    ||| (a == 84u8 && b == 42u8)
    ||| (a == 84u8 && b == 106u8)
    ||| (a == 84u8 && b == 74u8)
    ||| (a == 100u8 && b == 48u8)
    ||| (a == 100u8 && b == 49u8)
    ||| (a == 99u8 && b == 115u8)
    ||| (a == 67u8 && b == 83u8)
    ||| (a == 115u8 && b == 99u8)
    ||| (a == 83u8 && b == 67u8)
    ||| (a == 114u8 && b == 103u8)
    ||| (a == 82u8 && b == 71u8)
    ||| (a == 115u8 && b == 104u8)
    ||| (a == 66u8 && b == 73u8)
    ||| (a == 73u8 && b == 68u8)
    ||| (a == 69u8 && b == 73u8)
    ||| (a == 68u8 && b == 111u8)
    ||| (a == 77u8 && b == 80u8)
    ||| (a == 68u8 && b == 80u8)
    ||| (a == 66u8 && b == 88u8)
    ||| (a == 69u8 && b == 88u8)
}

/// The operators of three bytes: `scn SCN BMC BDC EMC`.
pub open spec fn is_op3(a: u8, b: u8, c: u8) -> bool {
    ||| (a == 115u8 && b == 99u8 && c == 110u8)
    ||| (a == 83u8 && b == 67u8 && c == 78u8)
    ||| (a == 66u8 && b == 77u8 && c == 67u8)
    ||| (a == 66u8 && b == 68u8 && c == 67u8)
    ||| (a == 69u8 && b == 77u8 && c == 67u8)
}

/// Whether a word is an operator of content streams.
pub open spec fn spec_is_op(n: Seq<u8>) -> bool {
    ||| n.len() == 1 && is_op1(n[0])
    ||| n.len() == 2 && is_op2(n[0], n[1])
    ||| n.len() == 3 && is_op3(n[0], n[1], n[2])
}

/// Whether `name` is an operator of content streams.
pub fn is_op(name: &[u8]) -> (r: bool)
    ensures
        r == spec_is_op(name@),
{
    let n = name.len();
    if n == 1 {
        let a = name[0];
        a == 119u8 ||
        a == 74u8 ||
        a == 106u8 ||
        a == 77u8 ||
        a == 100u8 ||
        a == 105u8 ||
        a == 113u8 ||
        a == 81u8 ||
        a == 109u8 ||
        a == 108u8 ||
        a == 99u8 ||
        a == 118u8 ||
        a == 121u8 ||
        a == 104u8 ||
        a == 115u8 ||
        a == 70u8 ||
        a == 66u8 ||
        a == 98u8 ||
        a == 110u8 ||
        a == 83u8 ||
        a == 102u8 ||
        a == 87u8 ||
        a == 39u8 ||
        a == 34u8 ||
        a == 103u8 ||
        a == 71u8 ||
        a == 107u8 ||
        a == 75u8
    } else if n == 2 {
        let a = name[0];
        let b = name[1];
        (a == 114u8 && b == 105u8) ||
        (a == 103u8 && b == 115u8) ||
        (a == 99u8 && b == 109u8) ||
        (a == 114u8 && b == 101u8) ||
        (a == 102u8 && b == 42u8) ||
        (a == 66u8 && b == 42u8) ||
        (a == 98u8 && b == 42u8) ||
        (a == 87u8 && b == 42u8) ||
        (a == 66u8 && b == 84u8) ||
        (a == 69u8 && b == 84u8) ||
        (a == 84u8 && b == 99u8) ||
        (a == 84u8 && b == 119u8) ||
        (a == 84u8 && b == 122u8) ||
        (a == 84u8 && b == 76u8) ||
        (a == 84u8 && b == 102u8) ||
        (a == 84u8 && b == 114u8) ||
        (a == 84u8 && b == 115u8) ||
        (a == 84u8 && b == 100u8) ||
        (a == 84u8 && b == 68u8) ||
        (a == 84u8 && b == 109u8) ||
        (a == 84u8 && b == 42u8) ||
        (a == 84u8 && b == 106u8) ||
        (a == 84u8 && b == 74u8) ||
        (a == 100u8 && b == 48u8) ||
        (a == 100u8 && b == 49u8) ||
        (a == 99u8 && b == 115u8) ||
        (a == 67u8 && b == 83u8) ||
        (a == 115u8 && b == 99u8) ||
        (a == 83u8 && b == 67u8) ||
        (a == 114u8 && b == 103u8) ||
        (a == 82u8 && b == 71u8) ||
        (a == 115u8 && b == 104u8) ||
        (a == 66u8 && b == 73u8) ||
        (a == 73u8 && b == 68u8) ||
        (a == 69u8 && b == 73u8) ||
        (a == 68u8 && b == 111u8) ||
        (a == 77u8 && b == 80u8) ||
        (a == 68u8 && b == 80u8) ||
        (a == 66u8 && b == 88u8) ||
        (a == 69u8 && b == 88u8)
    } else if n == 3 {
        let a = name[0];
        let b = name[1];
        let c = name[2];
        (a == 115u8 && b == 99u8 && c == 110u8) ||
        (a == 83u8 && b == 67u8 && c == 78u8) ||
        (a == 66u8 && b == 77u8 && c == 67u8) ||
        (a == 66u8 && b == 68u8 && c == 67u8) ||
        (a == 69u8 && b == 77u8 && c == 67u8)
    } else {
        false
    }
}

} // verus!
