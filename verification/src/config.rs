//! Server settings and their builder.

use vstd::prelude::*;

verus! {

/// The default largest request body: 2 MiB.
pub const DEFAULT_MAX_BODY_SIZE: usize = 2097152;

/// The settings of the server.
pub struct ServerConfig {
    pub max_body_size: usize,
}

impl Default for ServerConfig {
    fn default() -> (c: ServerConfig)
        ensures
            c.max_body_size == DEFAULT_MAX_BODY_SIZE,
    {
        ServerConfig { max_body_size: DEFAULT_MAX_BODY_SIZE }
    }
}

/// Builds a `ServerConfig`, starting from the defaults.
pub struct ServerConfigBuilder {
    max_body_size: usize,
}

impl ServerConfigBuilder {
    /// The body size limit the built settings will hold.
    pub closed spec fn spec_max_body_size(&self) -> usize {
        self.max_body_size
    }

    /// A builder holding the default settings.
    pub fn new() -> (b: ServerConfigBuilder)
        ensures
            b.spec_max_body_size() == DEFAULT_MAX_BODY_SIZE,
    {
        let default_config = ServerConfig::default();
        ServerConfigBuilder { max_body_size: default_config.max_body_size }
    }

    /// Sets the largest request body.
    pub fn max_body_size(self, size: usize) -> (b: ServerConfigBuilder)
        ensures
            b.spec_max_body_size() == size,
    {
        let mut b = self;
        b.max_body_size = size;
        b
    }

    /// The settings held.
    pub fn build(self) -> (c: ServerConfig)
        ensures
            c.max_body_size == self.spec_max_body_size(),
    {
        ServerConfig { max_body_size: self.max_body_size }
    }
}

} // verus!
