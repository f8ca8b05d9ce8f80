//! What a registry transaction decides when it opens: the schema version read
//! from the file picks the parser, and the loaded registry's cleanup trigger
//! is clamped into the configured range.
use vstd::prelude::*;
use vstd::string::*;

use crate::error::{PortaError, PortaResult};
use crate::registry::model::{
    invalid_registry, is_invalid_registry, valid_registry, Registry, REGISTRY_SCHEMA_VERSION,
    CLEANUP_TRIGGER_CAP,
};
use crate::state::StatePaths;
use crate::text::{decimal_string, decimal_text};

verus! {

/// Largest registry file accepted, in bytes.
pub const MAX_REGISTRY_BYTES: u64 = 16777216;

/// The JSON-file registry; its file access happens outside the library.
#[derive(Debug)]
pub struct JsonRegistryStore {
    paths: StatePaths,
}

impl JsonRegistryStore {
    pub fn new(paths: StatePaths) -> (store: Self)
        ensures
            store.paths() == paths,
    {
        JsonRegistryStore { paths }
    }

    pub closed spec fn paths(&self) -> StatePaths {
        self.paths
    }

    /// The state files this store reads and writes.
    pub fn state_paths(&self) -> (paths: &StatePaths)
        ensures
            *paths == self.paths(),
    {
        &self.paths
    }
}

/// How a registry file with a given schema version is read.
#[derive(Clone, Copy, Debug, PartialEq, Eq, Structural)]
pub enum SchemaFormat {
    Current,
    VersionOne,
}

/// The parser for a schema version, or `invalid_registry` for an
/// unsupported one.
pub fn schema_format(version: u32) -> (result: PortaResult<SchemaFormat>)
    ensures
        match result {
            Ok(SchemaFormat::Current) => version == REGISTRY_SCHEMA_VERSION,
            Ok(SchemaFormat::VersionOne) => version == 1,
            Err(error) => {
                &&& version != REGISTRY_SCHEMA_VERSION && version != 1
                &&& is_invalid_registry(error)
                &&& error.message@ == "Unsupported registry schema version: "@ + decimal_text(
                    version as nat,
                )
            },
        },
{
    if version == REGISTRY_SCHEMA_VERSION {
        Ok(SchemaFormat::Current)
    } else if version == 1 {
        Ok(SchemaFormat::VersionOne)
    } else {
        let mut message = String::from_str("Unsupported registry schema version: ");
        message.append(decimal_string(version as u64).as_str());
        Err(invalid_registry(message))
    }
}

/// `value` clamped into `[low, high]`.
pub open spec fn clamped(value: int, low: int, high: int) -> int {
    if value < low {
        low
    } else if value > high {
        high
    } else {
        value
    }
}

/// Brings a freshly loaded registry in line with the configuration: its
/// cleanup trigger is clamped into `[initial_cleanup_trigger, 100]`. Returns
/// whether the registry must be written back, which it must when it was
/// migrated or the trigger moved.
pub fn normalize_loaded(registry: &mut Registry, initial_cleanup_trigger: usize, migrated: bool) -> (dirty: bool)
    requires
        initial_cleanup_trigger <= CLEANUP_TRIGGER_CAP,
    ensures
        final(registry)@.cleanup_trigger == clamped(
            old(registry)@.cleanup_trigger as int,
            initial_cleanup_trigger as int,
            CLEANUP_TRIGGER_CAP as int,
        ),
        final(registry)@.leases == old(registry)@.leases,
        final(registry)@.reservations == old(registry)@.reservations,
        final(registry)@.schema_version == old(registry)@.schema_version,
        dirty == (migrated || final(registry)@.cleanup_trigger != old(registry)@.cleanup_trigger),
        valid_registry(old(registry)@) ==> valid_registry(final(registry)@),
{
    let trigger = registry.maintenance.cleanup_trigger;
    let normalized = if trigger < initial_cleanup_trigger {
        initial_cleanup_trigger
    } else if trigger > CLEANUP_TRIGGER_CAP {
        CLEANUP_TRIGGER_CAP
    } else {
        trigger
    };
    registry.maintenance.cleanup_trigger = normalized;
    migrated || normalized != trigger
}

} // verus!
