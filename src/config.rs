//! The node's configuration values and how their default paths are formed.

use vstd::prelude::*;
use crate::constants::{
    DEFAULT_DATA_DIR, DEFAULT_IDLE_TIMEOUT_SECS, DEFAULT_LISTEN_ADDR, DEFAULT_MOUNT_PATH,
    FALLBACK_DATA_BASE,
};
use crate::text::push_char;

verus! {

/// `name` appended to the directory `base` as a path component: an
/// absolute `name` replaces `base`, and exactly one `/` separates the two.
pub open spec fn join_spec(base: Seq<char>, name: Seq<char>) -> Seq<char> {
    if name.len() > 0 && name[0] == '/' {
        name
    } else if base.len() == 0 {
        name
    } else if base.last() == '/' {
        base + name
    } else {
        base.push('/') + name
    }
}

/// Joins a path component onto a directory path.
pub fn join_path(base: &str, name: &str) -> (r: String)
    ensures
        r@ == join_spec(base@, name@),
{
    let nlen = name.unicode_len();
    let blen = base.unicode_len();
    if nlen > 0 && name.get_char(0) == '/' {
        return name.to_owned();
    }
    if blen == 0 {
        return name.to_owned();
    }
    let mut r = base.to_owned();
    if base.get_char(blen - 1) != '/' {
        push_char(&mut r, '/');
    }
    r.append(name);
    r
}

/// Settings of a node.
#[derive(Debug, Clone)]
pub struct AppConfig {
    /// Where the node keeps its data (its identity among it).
    pub data_dir: String,
    /// Endpoints (`host:port`) the node listens on.
    pub listen_addr: Vec<String>,
    /// Where the shared filesystem is mounted.
    pub mount_path: String,
    /// Idle connection timeout, in seconds.
    pub idle_timeout_secs: u64,
}

impl AppConfig {
    /// The default settings, given the user's data directory (if there is
    /// one) and home directory: data under `<data>/XchangeFS` (with `/tmp`
    /// for a missing data directory), mount point `<home>/XchangeFS`, one
    /// listen address `0.0.0.0:0`, and a 300 s idle timeout.
    pub fn from_dirs(user_data_dir: Option<&str>, home_dir: &str) -> (r: AppConfig)
        ensures
            r.data_dir@ == join_spec(
                match user_data_dir {
                    Some(d) => d@,
                    None => FALLBACK_DATA_BASE@,
                },
                DEFAULT_DATA_DIR@,
            ),
            r.listen_addr@.len() == 1,
            r.listen_addr@[0]@ == DEFAULT_LISTEN_ADDR@,
            r.mount_path@ == join_spec(home_dir@, DEFAULT_MOUNT_PATH@),
            r.idle_timeout_secs == DEFAULT_IDLE_TIMEOUT_SECS,
    {
        let base = match user_data_dir {
            Some(d) => d,
            None => FALLBACK_DATA_BASE,
        };
        let data_dir = join_path(base, DEFAULT_DATA_DIR);
        let mut listen_addr: Vec<String> = Vec::new();
        listen_addr.push(DEFAULT_LISTEN_ADDR.to_owned());
        AppConfig {
            data_dir,
            listen_addr,
            mount_path: join_path(home_dir, DEFAULT_MOUNT_PATH),
            idle_timeout_secs: DEFAULT_IDLE_TIMEOUT_SECS,
        }
    }
}

} // verus!
