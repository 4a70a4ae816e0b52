//! Where the server finds the key-value store and where it listens.

use vstd::prelude::*;
use vstd::string::*;

verus! {

/// The address of the key-value store when none is configured.
pub const DEFAULT_VALKEY_URL: &'static str = "redis://127.0.0.1:6379";

/// The address to listen on when none is configured.
pub const DEFAULT_LISTEN_ADDR: &'static str = "0.0.0.0:3000";

/// The server's configuration.
#[derive(Debug, PartialEq, Eq)]
pub struct Config {
    pub valkey_url: String,
    pub listen_addr: String,
}

impl Config {
    /// Make the configuration from the values that were set: a value that
    /// is not set takes its default.
    pub fn from_values(valkey_url: Option<String>, listen_addr: Option<String>) -> (config: Config)
        ensures
            config.valkey_url@ == match valkey_url {
                Some(url) => url@,
                None => DEFAULT_VALKEY_URL@,
            },
            config.listen_addr@ == match listen_addr {
                Some(addr) => addr@,
                None => DEFAULT_LISTEN_ADDR@,
            },
    {
        Config {
            valkey_url: match valkey_url {
                Some(url) => url,
                None => String::from_str(DEFAULT_VALKEY_URL),
            },
            listen_addr: match listen_addr {
                Some(addr) => addr,
                None => String::from_str(DEFAULT_LISTEN_ADDR),
            },
        }
    }
}

} // verus!
