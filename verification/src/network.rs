//! The network manager's configuration: CNI plugin, configuration and
//! cache locations, with their conventional defaults. Creating and
//! tearing down namespaces runs external commands and lives outside the
//! library.

use vstd::prelude::*;

verus! {

/// The default network manager: where it looks for CNI plugins and
/// configurations, and where it caches results.
#[derive(Debug, PartialEq, Eq)]
pub struct DefaultNetworkManager {
    pub cni_plugin_dirs: Vec<String>,
    pub cni_config_dirs: Vec<String>,
    pub cni_cache_dir: String,
}

impl DefaultNetworkManager {
    /// A manager from optional overrides; an absent override takes the
    /// conventional location.
    pub fn new(
        cni_plugin_dirs: Option<Vec<String>>,
        cni_config_dirs: Option<Vec<String>>,
        cni_cache_dir: Option<String>,
    ) -> (r: Self)
        ensures
            match cni_plugin_dirs {
                Some(v) => r.cni_plugin_dirs == v,
                None => r.cni_plugin_dirs.deep_view() =~= seq!["/opt/cni/bin"@],
            },
            match cni_config_dirs {
                Some(v) => r.cni_config_dirs == v,
                None => r.cni_config_dirs.deep_view() =~= seq!["/etc/cni/net.d"@],
            },
            match cni_cache_dir {
                Some(v) => r.cni_cache_dir == v,
                None => r.cni_cache_dir@ == "/var/lib/cni/cache"@,
            },
    {
        let plugin_dirs = match cni_plugin_dirs {
            Some(v) => v,
            None => {
                let mut d: Vec<String> = Vec::new();
                d.push("/opt/cni/bin".to_owned());
                proof {
                    assert(d.deep_view() =~= seq!["/opt/cni/bin"@]);
                }
                d
            },
        };
        let config_dirs = match cni_config_dirs {
            Some(v) => v,
            None => {
                let mut d: Vec<String> = Vec::new();
                d.push("/etc/cni/net.d".to_owned());
                proof {
                    assert(d.deep_view() =~= seq!["/etc/cni/net.d"@]);
                }
                d
            },
        };
        let cache_dir = match cni_cache_dir {
            Some(v) => v,
            None => "/var/lib/cni/cache".to_owned(),
        };
        DefaultNetworkManager {
            cni_plugin_dirs: plugin_dirs,
            cni_config_dirs: config_dirs,
            cni_cache_dir: cache_dir,
        }
    }
}

} // verus!
