//! Batch image transcoding core: directory-scan filtering, collision-safe
//! output path resolution, per-task output placement, the WebP transcode
//! step, and the persisted-settings record format.
//!
//! All path manipulation works on `/`-separated path strings; the thin
//! unverified shell around this library performs the actual file and
//! directory I/O and hands plain values in and out.

pub mod pathname;
pub mod resolve;
pub mod scan;
pub mod config;
pub mod codec;
pub mod dispatch;

use vstd::prelude::*;

verus! {

/// Greets a caller by name, echoing the fixed greeting text around it.
pub fn greet(name: &str) -> (r: String)
    ensures
        r@ == "Hello, "@ + name@ + "! You've been greeted from Rust!"@,
{
    let s = String::from_str("Hello, ");
    let s = s.concat(name);
    s.concat("! You've been greeted from Rust!")
}

} // verus!
