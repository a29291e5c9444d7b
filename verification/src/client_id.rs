//! Client identifiers: a 64-bit number minted once per accepted connection
//! and never reused for the life of the process.

use vstd::prelude::*;

verus! {

/// Identifier of one worker connection. The caller mints the raw number
/// from a process-wide monotone counter (the library keeps no global
/// state), so two distinct connections never share an identifier.
#[derive(Clone, Copy, Debug, PartialEq, Eq, Hash, Structural)]
pub struct ClientId(pub u64);

impl ClientId {
    /// Wraps the raw counter value handed out at connection-accept time.
    pub fn new(raw: u64) -> (r: ClientId)
        ensures
            r.0 == raw,
    {
        ClientId(raw)
    }
}

} // verus!
