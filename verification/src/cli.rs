//! Command-line configuration: the asset list and the chosen transport.
//! Argument parsing itself happens outside the library; these are the
//! values it must produce and the bounds they must satisfy.

use vstd::prelude::*;

verus! {

/// Default ring capacity in bytes for the shared-memory transport.
pub const DEFAULT_CAPACITY: u32 = 1048576;

/// The most assets one run may subscribe to.
pub const MAX_ASSETS: usize = 10;

/// The communication transport carrying encoded frames to consumers.
pub enum Comm {
    /// Length-prefixed frames over a TCP socket bound to this port.
    Tcp { port: u16 },
    /// A shared-memory ring with this name and capacity in bytes.
    Shm { name: String, capacity: u32 },
}

/// The parsed command line: the assets to subscribe to and the transport.
pub struct Cli {
    /// Symbols to subscribe to, at most `MAX_ASSETS` of them.
    pub assets: Vec<String>,
    /// The transport to fan frames out on.
    pub comm: Comm,
}

impl Cli {
    /// The asset list is within the subscription bound.
    pub fn assets_ok(&self) -> (r: bool)
        ensures
            r == (self.assets@.len() <= MAX_ASSETS),
    {
        self.assets.len() <= MAX_ASSETS
    }
}

} // verus!

