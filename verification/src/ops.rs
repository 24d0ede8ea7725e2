//! Operator dispatch at the library boundary.

use crate::bignum::{BigNum, BigNumError};
use vstd::prelude::*;
use vstd::string::StrSliceExecFns;

verus! {

/// Apply an operator token to two values. `+`, `-` and `*` are the supported
/// operations; any other token, the division token included, is refused with
/// an `UnsupportedOperation` error rather than answered numerically.
pub fn apply_op(a: &BigNum, b: &BigNum, op: &str) -> (r: Result<BigNum, BigNumError>)
    requires
        a.wf(),
        b.wf(),
    ensures
        (op@ =~= seq!['+']) ==> (r is Ok && r->Ok_0.wf() && r->Ok_0.as_int() == a.as_int()
            + b.as_int()),
        (op@ =~= seq!['-']) ==> (r is Ok && r->Ok_0.wf() && r->Ok_0.as_int() == a.as_int()
            - b.as_int()),
        (op@ =~= seq!['*']) ==> (r is Ok && r->Ok_0.wf() && r->Ok_0.as_int() == a.as_int()
            * b.as_int()),
        (!(op@ =~= seq!['+']) && !(op@ =~= seq!['-']) && !(op@ =~= seq!['*'])) ==> r == Result::<
            BigNum,
            BigNumError,
        >::Err(BigNumError::UnsupportedOperation),
{
    if op.unicode_len() == 1 {
        let c = op.get_char(0);
        proof {
            assert(op@[0] == c);
            if c == '+' {
                assert(op@ =~= seq!['+']);
            }
            if c == '-' {
                assert(op@ =~= seq!['-']);
            }
            if c == '*' {
                assert(op@ =~= seq!['*']);
            }
        }
        if c == '+' {
            Ok(a.add(b))
        } else if c == '-' {
            Ok(a.sub(b))
        } else if c == '*' {
            Ok(a.mul(b))
        } else {
            Err(BigNumError::UnsupportedOperation)
        }
    } else {
        Err(BigNumError::UnsupportedOperation)
    }
}

} // verus!
