//! Structural validation of a message body.

use vstd::prelude::*;

verus! {

/// Whether `bytes` is, as a whole, exactly one JSON value, as `serde_json`
/// decides it. Nothing is stated of this predicate on particular inputs.
pub uninterp spec fn json_valid(bytes: Seq<u8>) -> bool;

/// Calls `serde_json::from_slice` with `serde_json::Value` as the target and
/// reports whether it succeeded.
///
/// Trusted: the outcome depends on the bytes alone. `from_slice` parses one
/// value, then fails if anything but whitespace follows it; it refuses nesting
/// deeper than 128 levels instead of overflowing the stack.
#[verifier::external_body]
pub(crate) fn is_json(bytes: &[u8]) -> (ok: bool)
    ensures
        ok == json_valid(bytes@),
{
    serde_json::from_slice::<serde_json::Value>(bytes).is_ok()
}

} // verus!
