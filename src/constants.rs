//! Default values of the node's configuration.

use vstd::prelude::*;

verus! {

/// Size of a file segment, in bytes.
pub const SEGMENT_SIZE_BYTES: u64 = 10 * 1024 * 1024;

/// Idle connection timeout, in seconds.
pub const DEFAULT_IDLE_TIMEOUT_SECS: u64 = 300;

/// Listen on every interface, on a port the system picks.
pub const DEFAULT_LISTEN_ADDR: &'static str = "0.0.0.0:0";

/// Name of the node's directory under the user's data directory.
pub const DEFAULT_DATA_DIR: &'static str = "XchangeFS";

/// Name of the mount point under the user's home directory.
pub const DEFAULT_MOUNT_PATH: &'static str = "XchangeFS";

/// Data directory base used when the user has none.
pub const FALLBACK_DATA_BASE: &'static str = "/tmp";

/// Name of the file that holds the node's encoded keypair.
pub const KEYPAIR_FILE_NAME: &'static str = "identity_keypair";

/// Protocol version announced to peers during capability identification.
pub const PROTOCOL_VERSION: &'static str = "xchangefs/0.0.1";

} // verus!
