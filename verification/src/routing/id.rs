//! How a node's identifier derives from its public key.

use crate::math::hash::{sha256, sha256_spec};
use crate::math::u256::U256;
use vstd::prelude::*;

verus! {

/// Why an identifier could not be derived.
#[derive(Debug, Clone, Copy, PartialEq, Eq, Structural)]
pub enum IdError {
    /// The key derivation failed.
    HashError,
    /// The version names no known rule.
    VersionError,
}

/// The cost settings of the key derivation.
#[derive(Debug, Clone, Copy, PartialEq, Eq, Structural)]
pub struct DerivationParams {
    pub mem_kib: u32,
    pub time: u32,
    pub lanes: u32,
    pub tag_len: usize,
}

/// The salt of the first version of the rule: the text `version_1`.
pub const SALT_V1: [u8; 9] = [118, 101, 114, 115, 105, 111, 110, 95, 49];

/// The settings of the first version of the rule.
pub open spec fn params_v1() -> DerivationParams {
    DerivationParams { mem_kib: 262_144, time: 3, lanes: 4, tag_len: 32 }
}

/// The cost settings that a version of the rule asks for.
pub fn derivation_params(version: usize) -> (r: Result<DerivationParams, IdError>)
    ensures
        version == 1 ==> r == Ok::<DerivationParams, IdError>(params_v1()),
        version != 1 ==> r == Err::<DerivationParams, IdError>(IdError::VersionError),
{
    if version == 1 {
        Ok(DerivationParams { mem_kib: 262_144, time: 3, lanes: 4, tag_len: 32 })
    } else {
        Err(IdError::VersionError)
    }
}

/// The identifier of a node, from what the key derivation of its public
/// key returned: the SHA-256 of the derived bytes, or the failure.
pub fn generate_id(version: usize, derived: Option<&[u8]>) -> (r: Result<U256, IdError>)
    requires
        derived matches Some(bytes) ==> bytes@.len() < 0x2000_0000_0000_0000,
    ensures
        version != 1 ==> r == Err::<U256, IdError>(IdError::VersionError),
        version == 1 && derived is None ==> r == Err::<U256, IdError>(IdError::HashError),
        version == 1 ==> (derived matches Some(bytes) ==> (r matches Ok(id) && id@ == sha256_spec(
            bytes@,
        ))),
{
    if version != 1 {
        return Err(IdError::VersionError);
    }
    match derived {
        Some(bytes) => Ok(sha256(bytes)),
        None => Err(IdError::HashError),
    }
}

} // verus!
