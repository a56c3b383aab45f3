//! The fallback rule of message resolution.
//!
//! The operating system's message-table service is an opaque collaborator:
//! the binary front end loads the message module, asks it for the text of a
//! code, and hands the outcome here as a plain `Option<String>` (`None` when
//! the module could not be loaded or the lookup found no entry). Resolution
//! itself never fails: an absent message degrades to the literal fallback
//! text, so the pipeline always has something to print.

use vstd::prelude::*;

verus! {

/// Turn the outcome of the message-table lookup into the resolved message:
/// the service's text verbatim (trailing template characters and all), or
/// the literal fallback `"unknown"` when the service had none.
pub fn resolve_message(lookup: Option<String>) -> (r: String)
    ensures
        lookup is None ==> r@ == "unknown"@ && r@.len() > 0,
        lookup is Some ==> r@ == lookup->0@,
{
    match lookup {
        None => {
            proof {
                reveal_strlit("unknown");
            }
            String::from_str("unknown")
        },
        Some(text) => text,
    }
}

} // verus!
