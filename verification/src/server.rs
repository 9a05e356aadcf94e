//! The connection server's configuration. The listening loop itself is
//! transport plumbing and lives with the application around the library:
//! it reads bytes, hands them to the parser, dispatches through a shared
//! handler, and writes the serialized response back, isolating failures to
//! the one connection.

use vstd::prelude::*;

verus! {

/// A server bound to one listening address.
pub struct Server {
    pub addr: &'static str,
}

impl Server {
    pub fn new(addr: &'static str) -> (r: Self)
        ensures
            r.addr@ == addr@,
    {
        Self { addr }
    }

    /// The address the server listens on.
    pub fn addr(&self) -> (r: &str)
        ensures
            r@ == self.addr@,
    {
        self.addr
    }
}

} // verus!
