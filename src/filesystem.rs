//! Configuration of the shared filesystem's mount.

use vstd::prelude::*;

verus! {

/// Where and how the shared filesystem is mounted.
#[derive(Debug, Clone)]
pub struct FilesystemConfig {
    pub mount_path: String,
}

impl FilesystemConfig {
    pub fn new(mount_path: String) -> (r: FilesystemConfig)
        ensures
            r.mount_path == mount_path,
    {
        FilesystemConfig { mount_path }
    }
}

} // verus!
