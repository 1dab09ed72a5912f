//! The computations behind the governance queries. The database and RPC
//! plumbing around them is I/O and lives outside this core; what is
//! verified here is what those handlers decide: how a stored reference
//! gas price row becomes the reported price, which layout of the system
//! state object a version number selects, and the byte key under which
//! the inner system state object is filed (the canonical little-endian
//! encoding of its version).

use vstd::prelude::*;

verus! {

/// The wire layouts of the inner system state object.
#[derive(Clone, Copy, PartialEq, Eq, Structural, Debug)]
pub enum SystemStateLayout {
    V1,
    V2,
}

#[derive(Clone, Copy, PartialEq, Eq, Structural, Debug)]
pub enum GovernanceError {
    /// The stored system state version has no known layout.
    UnexpectedVersion,
    /// The stored reference gas price row is negative, which the schema
    /// forbids.
    NegativePrice,
}

/// Selects the layout for a stored system state version: exactly
/// versions one and two are known.
pub fn system_state_layout(version: u64) -> (r: Result<SystemStateLayout, GovernanceError>)
    ensures
        version == 1 ==> r == Ok::<SystemStateLayout, GovernanceError>(SystemStateLayout::V1),
        version == 2 ==> r == Ok::<SystemStateLayout, GovernanceError>(SystemStateLayout::V2),
        version != 1 && version != 2
            ==> r == Err::<SystemStateLayout, GovernanceError>(GovernanceError::UnexpectedVersion),
{
    if version == 1 {
        Ok(SystemStateLayout::V1)
    } else if version == 2 {
        Ok(SystemStateLayout::V2)
    } else {
        Err(GovernanceError::UnexpectedVersion)
    }
}

/// Converts the reference gas price as stored (a signed database row)
/// into the unsigned price reported to clients: exactly the nonnegative
/// rows convert.
pub fn reference_gas_price(row: i64) -> (r: Result<u64, GovernanceError>)
    ensures
        row >= 0 ==> r == Ok::<u64, GovernanceError>(row as u64),
        row < 0 ==> r == Err::<u64, GovernanceError>(GovernanceError::NegativePrice),
{
    if row >= 0 {
        Ok(row as u64)
    } else {
        Err(GovernanceError::NegativePrice)
    }
}

/// The canonical serialization of an unsigned 64-bit value: eight bytes,
/// little-endian — byte `i` is bit-range `8i..8i+8` of the value. This is
/// the key material for deriving the inner system state field.
pub fn canonical_u64_bytes(x: u64) -> (r: Vec<u8>)
    ensures
        r@.len() == 8,
        forall|i: int| 0 <= i < 8 ==> #[trigger] r@[i] == (x >> (8 * i)) as u8,
{
    let mut out: Vec<u8> = Vec::new();
    let mut i: u32 = 0;
    while i < 8
        invariant
            0 <= i <= 8,
            out@.len() == i,
            forall|k: int| 0 <= k < i ==> #[trigger] out@[k] == (x >> (8 * k)) as u8,
        decreases 8 - i,
    {
        out.push(#[verifier::truncate] ((x >> (8 * i)) as u8));
        i = i + 1;
    }
    out
}

} // verus!
