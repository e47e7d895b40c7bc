//! Runtime configuration handed to the services at startup.

use vstd::prelude::*;

verus! {

/// Where the runtime keeps its state: the root directory, the OCI
/// runtime binary name, the runtime's own root, and the log directory.
#[derive(Debug, PartialEq, Eq)]
pub struct RuntimeConfig {
    pub root_dir: String,
    pub runtime: String,
    pub runtime_root: String,
    pub log_dir: String,
}

impl RuntimeConfig {
    /// The directory image storage lives under: `<root_dir>/storage`.
    pub fn storage_path(&self) -> (r: String)
        ensures
            r@ == self.root_dir@ + "/storage"@,
    {
        let mut r = self.root_dir.clone();
        r.append("/storage");
        r
    }
}

impl Clone for RuntimeConfig {
    fn clone(&self) -> (r: Self)
        ensures
            r == *self,
    {
        RuntimeConfig {
            root_dir: self.root_dir.clone(),
            runtime: self.runtime.clone(),
            runtime_root: self.runtime_root.clone(),
            log_dir: self.log_dir.clone(),
        }
    }
}

} // verus!
