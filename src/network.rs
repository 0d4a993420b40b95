//! The network module's configuration, as handed to it at startup.

use vstd::prelude::*;
use crate::config::{join_path, join_spec};
use crate::constants::KEYPAIR_FILE_NAME;

verus! {

/// What the network module needs: the endpoints to listen on and the data
/// directory that holds the node's identity.
#[derive(Debug, Clone)]
pub struct NetworkConfig {
    pub listen_addr: Vec<String>,
    pub data_dir: String,
}

/// The network module, holding its configuration.
#[derive(Debug)]
pub struct Network {
    config: NetworkConfig,
}

impl Network {
    pub closed spec fn spec_config(&self) -> NetworkConfig {
        self.config
    }

    pub fn new(config: NetworkConfig) -> (r: Network)
        ensures
            r.spec_config() == config,
    {
        Network { config }
    }

    /// The configuration the module was made with.
    pub fn config(&self) -> (r: &NetworkConfig)
        ensures
            *r == self.spec_config(),
    {
        &self.config
    }

    /// Path of the file that holds the node's encoded keypair: a fixed name
    /// inside the data directory.
    pub fn keypair_file_path(&self) -> (r: String)
        ensures
            r@ == join_spec(self.spec_config().data_dir@, KEYPAIR_FILE_NAME@),
    {
        join_path(self.config.data_dir.as_str(), KEYPAIR_FILE_NAME)
    }
}

} // verus!
