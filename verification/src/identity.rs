//! Dense 32-bit identities.

use vstd::prelude::*;

verus! {

/// More rows than 32-bit identities.
#[derive(Debug, Clone, Copy, PartialEq, Eq)]
pub struct IdentityOverflow {
    pub what: &'static str,
    pub count: u64,
}

/// The row count as a 32-bit identity bound, or the overflow.
pub fn checked_u32_identity(what: &'static str, count: u64) -> (result: Result<u32, IdentityOverflow>)
    ensures
        count <= u32::MAX ==> result == Ok::<u32, IdentityOverflow>(count as u32),
        count > u32::MAX ==> result == Err::<u32, IdentityOverflow>(IdentityOverflow { what, count }),
{
    if count <= u32::MAX as u64 {
        Ok(count as u32)
    } else {
        Err(IdentityOverflow { what, count })
    }
}

} // verus!
