//! Normalization of an error code before message lookup.
//!
//! An NT status code lives in a different numbering domain than a DOS error
//! code. When the caller asks for NT interpretation, the code is run through
//! the operating system's NT-status-to-DOS-error mapping table (an opaque
//! service; the binary front end performs the call). The service answers with
//! either the mapped DOS error or a sentinel meaning "no mapping found"; in
//! the latter case the original code is kept unchanged, because some values
//! are valid in both domains.

use vstd::prelude::*;

verus! {

/// Sentinel answer of the NT-status mapping service: the status has no DOS
/// equivalent and must be resolved as-is.
pub const NO_DOS_MAPPING: u32 = 317;

/// The code to resolve against the DOS message domain, given the caller's
/// wish for NT interpretation and the mapping service's answer (which is
/// consulted only when that wish is set).
pub open spec fn spec_normalize(code: i32, wants_nt: bool, mapped: u32) -> i32 {
    if wants_nt && mapped != NO_DOS_MAPPING {
        mapped as i32
    } else {
        code
    }
}

/// Apply the NT-status normalization decision.
///
/// `mapped` is the answer of the mapping service for `code`; it is ignored
/// unless `wants_nt` is set. A sentinel answer keeps the code unchanged; any
/// other answer replaces it, reinterpreted as a signed 32-bit value.
pub fn normalize_code(code: i32, wants_nt: bool, mapped: u32) -> (r: i32)
    ensures
        r == spec_normalize(code, wants_nt, mapped),
{
    if wants_nt && mapped != NO_DOS_MAPPING {
        #[verifier::truncate] (mapped as i32)
    } else {
        code
    }
}

/// The zero code is a sentinel meaning "no error": the pipeline produces no
/// output for it and exits successfully.
pub fn is_no_error(code: i32) -> (r: bool)
    ensures
        r == (code == 0),
{
    code == 0
}

/// A status with no DOS mapping resolves exactly as the same value would
/// without NT interpretation: the sentinel answer is a pass-through, not an
/// error.
pub proof fn lemma_unmapped_status_passthrough(code: i32, mapped: u32)
    ensures
        spec_normalize(code, true, NO_DOS_MAPPING) == spec_normalize(code, false, mapped),
{
}

} // verus!
