//! Settings of the tokenization service.

use vstd::prelude::*;

verus! {

/// Where the service listens.
#[derive(Debug, Default)]
pub struct Server {
    pub host: String,
    pub port: String,
}

/// Settings of the service.
#[derive(Debug, Default)]
pub struct Settings {
    pub server: Server,
}

} // verus!
