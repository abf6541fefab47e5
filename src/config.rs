//! Where the server listens.
use vstd::prelude::*;

verus! {

/// The port a server listens on when none is configured.
pub const DEFAULT_PORT: u16 = 3000;

/// The address and port a server listens on.
pub struct Config {
    pub address: String,
    pub port: u16,
}

impl Default for Config {
    /// Listening on `127.0.0.1`, port 3000.
    fn default() -> (r: Config)
        ensures
            r.address@ == "127.0.0.1"@,
            r.port == DEFAULT_PORT,
    {
        Config { address: "127.0.0.1".to_owned(), port: DEFAULT_PORT }
    }
}

} // verus!
