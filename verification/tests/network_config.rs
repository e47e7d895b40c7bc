use crius::config::RuntimeConfig;
use crius::network::DefaultNetworkManager;

#[test]
fn network_manager_defaults_absent_locations() {
    let m = DefaultNetworkManager::new(None, None, None);
    assert_eq!(m.cni_plugin_dirs, vec!["/opt/cni/bin".to_string()]);
    assert_eq!(m.cni_config_dirs, vec!["/etc/cni/net.d".to_string()]);
    assert_eq!(m.cni_cache_dir, "/var/lib/cni/cache");
}

#[test]
fn network_manager_keeps_given_locations() {
    let m = DefaultNetworkManager::new(
        Some(vec!["/custom/bin".to_string()]),
        None,
        Some("/custom/cache".to_string()),
    );
    assert_eq!(m.cni_plugin_dirs, vec!["/custom/bin".to_string()]);
    assert_eq!(m.cni_config_dirs, vec!["/etc/cni/net.d".to_string()]);
    assert_eq!(m.cni_cache_dir, "/custom/cache");
}

#[test]
fn storage_lives_under_the_runtime_root() {
    let cfg = RuntimeConfig {
        root_dir: "/var/lib/crius".to_string(),
        runtime: "runc".to_string(),
        runtime_root: "/var/run/runc".to_string(),
        log_dir: "/var/log/crius".to_string(),
    };
    assert_eq!(cfg.storage_path(), "/var/lib/crius/storage");
    let copy = cfg.clone();
    assert_eq!(copy, cfg);
}
