//! One worker connection's session: the version handshake and the strict
//! request/response alternation.
//!
//! The caller owns the socket; it hands the four version bytes here once,
//! then notes every decoded request and every written response. The
//! session's invariant is the connection contract: responses are written
//! one per request, in order, so whenever no exchange is in progress the
//! two counters are equal.

use vstd::prelude::*;
use crate::codec::spec_u32_of_be;

verus! {

/// The highest protocol version this coordinator speaks: 0 encodes frames
/// as JSON text, 1 as the compact binary form of [`crate::codec`].
pub const MAX_PROTOCOL_VERSION: u32 = 1;

/// Per-connection session state.
pub struct Session {
    /// The version fixed by the handshake; immutable afterwards.
    pub version: u32,
    /// True while a request has been read whose response is not yet
    /// written.
    pub exchange_open: bool,
    pub requests_read: u64,
    pub responses_written: u64,
}

impl Session {
    /// Responses track requests exactly: equal when idle, one behind
    /// while an exchange is open.
    pub open spec fn wf(self) -> bool {
        &&& self.version <= MAX_PROTOCOL_VERSION
        &&& (self.exchange_open ==> self.requests_read == self.responses_written + 1)
        &&& (!self.exchange_open ==> self.requests_read == self.responses_written)
    }

    /// The handshake: read the big-endian version word and accept only
    /// versions this coordinator speaks. `Some` exactly on 0 and 1; any
    /// higher version is fatal for the connection.
    pub fn start(version_be: &Vec<u8>) -> (r: Option<Session>)
        requires
            version_be@.len() == 4,
        ensures
            match r {
                Some(s) => {
                    &&& spec_u32_of_be(version_be@) <= MAX_PROTOCOL_VERSION
                    &&& s.wf()
                    &&& s.version == spec_u32_of_be(version_be@)
                    &&& s.requests_read == 0
                    &&& s.responses_written == 0
                    &&& !s.exchange_open
                },
                None => spec_u32_of_be(version_be@) > MAX_PROTOCOL_VERSION,
            },
    {
        let version = crate::codec::read_u32_be(version_be);
        if version > MAX_PROTOCOL_VERSION {
            None
        } else {
            Some(
                Session { version, exchange_open: false, requests_read: 0, responses_written: 0 },
            )
        }
    }

    /// A request was read and forwarded: an exchange opens. No second
    /// request may be read before the response goes out.
    pub fn note_request(&mut self)
        requires
            old(self).wf(),
            !old(self).exchange_open,
            old(self).requests_read < u64::MAX,
        ensures
            final(self).wf(),
            final(self).exchange_open,
            final(self).requests_read == old(self).requests_read + 1,
            final(self).responses_written == old(self).responses_written,
            final(self).version == old(self).version,
    {
        self.requests_read = self.requests_read + 1;
        self.exchange_open = true;
    }

    /// The matching response was written: the exchange closes and the
    /// counters are equal again.
    pub fn note_response(&mut self)
        requires
            old(self).wf(),
            old(self).exchange_open,
        ensures
            final(self).wf(),
            !final(self).exchange_open,
            final(self).responses_written == old(self).responses_written + 1,
            final(self).responses_written == final(self).requests_read,
            final(self).requests_read == old(self).requests_read,
            final(self).version == old(self).version,
    {
        self.responses_written = self.responses_written + 1;
        self.exchange_open = false;
    }
}

} // verus!
