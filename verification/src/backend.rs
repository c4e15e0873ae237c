//! The allowlist policy deciding which tunnel targets may be dialed.

use vstd::prelude::*;

verus! {

/// A backend policy that allows connections to a single host/port pair
/// and refuses all others.  The network dial itself is performed by the
/// caller, only after `allows` has approved the target.
pub struct SingleHostBackend {
    host: String,
    port: u16,
}

impl SingleHostBackend {
    /// The one hostname this policy permits.
    pub closed spec fn spec_host(&self) -> Seq<char> {
        self.host@
    }

    /// The one port this policy permits.
    pub closed spec fn spec_port(&self) -> u16 {
        self.port
    }

    pub fn new(host: String, port: u16) -> (r: Self)
        ensures
            r.spec_host() == host@,
            r.spec_port() == port,
    {
        Self { host, port }
    }

    /// Decide whether a requested target matches the configured pair.
    pub fn allows(&self, host: &str, port: u16) -> (r: bool)
        ensures
            r <==> (host@ == self.spec_host() && port == self.spec_port()),
    {
        let requested: String = host.to_owned();
        self.host == requested && self.port == port
    }
}

} // verus!
