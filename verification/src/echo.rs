//! The echo service's configuration. The copying loop itself is plain
//! socket I/O and lives with the shells outside this crate.

use vstd::prelude::*;

verus! {

/// The echo service: everything it is configured by.
#[derive(Debug, Clone, Copy, PartialEq, Eq)]
pub struct EchoServer {
    pub port: u16,
}

impl Default for EchoServer {
    /// The port the echo service takes when none is given.
    fn default() -> (r: Self)
        ensures
            r.port == 12000,
    {
        EchoServer { port: 12000 }
    }
}

} // verus!
