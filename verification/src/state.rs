//! Locations of the per-user state files.
use vstd::prelude::*;
use vstd::string::*;

use crate::error::{PortaError, PortaResult};
use crate::paths::{join_path, joined};

verus! {

/// The state directory and the files inside it.
#[derive(Debug)]
pub struct StatePaths {
    pub root: String,
    pub config: String,
    pub config_lock: String,
    pub registry: String,
    pub registry_lock: String,
}

impl Clone for StatePaths {
    fn clone(&self) -> (copy: Self)
        ensures
            copy.root@ == self.root@,
            copy.config@ == self.config@,
            copy.config_lock@ == self.config_lock@,
            copy.registry@ == self.registry@,
            copy.registry_lock@ == self.registry_lock@,
    {
        StatePaths {
            root: self.root.clone(),
            config: self.config.clone(),
            config_lock: self.config_lock.clone(),
            registry: self.registry.clone(),
            registry_lock: self.registry_lock.clone(),
        }
    }
}

impl StatePaths {
    /// The state files under `root`: `config.toml`, `config.lock`,
    /// `registry.json` and `registry.lock`.
    pub fn from_root(root: String) -> (paths: Self)
        ensures
            paths.root@ == root@,
            paths.config@ == joined(root@, "config.toml"@),
            paths.config_lock@ == joined(root@, "config.lock"@),
            paths.registry@ == joined(root@, "registry.json"@),
            paths.registry_lock@ == joined(root@, "registry.lock"@),
    {
        let config = join_path(root.as_str(), "config.toml");
        let config_lock = join_path(root.as_str(), "config.lock");
        let registry = join_path(root.as_str(), "registry.json");
        let registry_lock = join_path(root.as_str(), "registry.lock");
        StatePaths { config, config_lock, registry, registry_lock, root }
    }

    /// The state directory: `PORTA_HOME` when set, else `.porta` under
    /// `HOME`. Fails with `state_directory_failed` when neither is set.
    pub fn discover(porta_home: Option<String>, home: Option<String>) -> (result: PortaResult<Self>)
        ensures
            match result {
                Ok(paths) => match porta_home {
                    Some(root) => paths.root@ == root@,
                    None => home matches Some(h) && paths.root@ == joined(h@, ".porta"@),
                },
                Err(error) => {
                    &&& porta_home is None && home is None
                    &&& error.code@ == "state_directory_failed"@ && error.exit_code == 3
                    &&& error.message@ == "HOME is not set and PORTA_HOME was not provided"@
                },
            },
    {
        if let Some(root) = porta_home {
            return Ok(StatePaths::from_root(root));
        }
        match home {
            Some(h) => Ok(StatePaths::from_root(join_path(h.as_str(), ".porta"))),
            None => Err(
                PortaError::infrastructure(
                    "state_directory_failed",
                    String::from_str("HOME is not set and PORTA_HOME was not provided"),
                ),
            ),
        }
    }
}

} // verus!
