//! Translate a numeric Windows error code (DOS `GetLastError` value or NT
//! `STATUS_*` value) into its human-readable description.
//!
//! The verified core covers the dual-format integer parsing (decimal and
//! `0x`-prefixed hex), the NT-status normalization decision, the fallback rule
//! for message resolution, and the presentation of the result line. The
//! operating-system message-table service and the NT-to-DOS mapping table are
//! opaque collaborators: the binary front end performs those calls and hands
//! their plain results to the functions here.

pub mod digits;
pub mod message;
pub mod parse;
pub mod present;
pub mod status;
