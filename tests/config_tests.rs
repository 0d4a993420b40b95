use std::path::PathBuf;
use xchangefs::config::{join_path, AppConfig};
use xchangefs::constants::{DEFAULT_DATA_DIR, DEFAULT_IDLE_TIMEOUT_SECS, DEFAULT_LISTEN_ADDR};
use xchangefs::filesystem::FilesystemConfig;
use xchangefs::network::{Network, NetworkConfig};

#[test]
fn test_default_config() {
    let data = dirs::data_dir().map(|p| p.to_str().unwrap().to_string());
    let home = dirs::home_dir().unwrap().to_str().unwrap().to_string();
    let config = AppConfig::from_dirs(data.as_deref(), &home);
    let expected = dirs::data_dir().unwrap_or_else(|| PathBuf::from("/tmp")).join(DEFAULT_DATA_DIR);
    assert_eq!(config.data_dir, expected.to_str().unwrap());
    assert_eq!(config.listen_addr, vec![DEFAULT_LISTEN_ADDR.to_string()]);
    assert_eq!(config.idle_timeout_secs, DEFAULT_IDLE_TIMEOUT_SECS);
}

#[test]
fn defaults_without_data_dir() {
    let config = AppConfig::from_dirs(None, "/home/u");
    assert_eq!(config.data_dir, "/tmp/XchangeFS");
    assert_eq!(config.mount_path, "/home/u/XchangeFS");
    assert_eq!(config.idle_timeout_secs, 300);
    assert_eq!(config.listen_addr, vec!["0.0.0.0:0".to_string()]);
}

#[test]
fn join_path_cases() {
    assert_eq!(join_path("/a", "b"), "/a/b");
    assert_eq!(join_path("/a/", "b"), "/a/b");
    assert_eq!(join_path("", "b"), "b");
    assert_eq!(join_path("/a", "/b"), "/b");
    assert_eq!(join_path("/a", ""), "/a/");
}

#[test]
fn network_keeps_config() {
    let n = Network::new(NetworkConfig {
        listen_addr: vec!["127.0.0.1:1".to_string()],
        data_dir: "/d/XchangeFS".to_string(),
    });
    assert_eq!(n.config().listen_addr, vec!["127.0.0.1:1".to_string()]);
    assert_eq!(n.keypair_file_path(), "/d/XchangeFS/identity_keypair");
    let f = FilesystemConfig::new("/mnt/x".to_string());
    assert_eq!(f.mount_path, "/mnt/x");
}
