//! Stellar credit-asset code validation.
//!
//! The check is deliberately length-only: a credit-asset code is acceptable exactly when its
//! UTF-8 encoding is 1 to 12 bytes long, which is the acceptance boundary of the payment
//! operation builder that consumes it. No character-set restriction is applied.

use vstd::prelude::*;

verus! {

/// Whether a code of `len` UTF-8 bytes is acceptable.
pub open spec fn asset_code_len_ok(len: nat) -> bool {
    1 <= len <= 12
}

/// Returns `true` iff `code` is an acceptable Stellar credit-asset code: 1 to 12 UTF-8 bytes.
///
/// The length is the UTF-8 **byte** length, not the number of characters: a multi-byte
/// character can push a short-looking code over the boundary. (`code.len()` here is
/// `str::len`, the length of the UTF-8 encoding of `code@`.)
pub fn is_valid_asset_code(code: &str) -> (valid: bool)
    ensures
        valid == asset_code_len_ok(code.len() as nat),
{
    let len = code.len();
    1 <= len && len <= 12
}

/// A code is acceptable exactly when it is non-empty and fits the twelve-byte `AlphaNum12`
/// code: lengths 1 to 4 (`AlphaNum4`) and 5 to 12 (`AlphaNum12`) pass, the empty code and
/// anything of 13 bytes or more fails.
pub proof fn lemma_asset_code_lengths(len: nat)
    ensures
        asset_code_len_ok(len) <==> (len != 0 && len <= 4) || (5 <= len && len <= 12),
        len == 0 ==> !asset_code_len_ok(len),
        len >= 13 ==> !asset_code_len_ok(len),
{
}

} // verus!
