//! The decisions of every registry command. Reading files, probing sockets
//! and inspecting directories happen outside the library; their outcomes
//! come in as arguments, and the functions here decide what the registry
//! becomes and what the command answers.
use vstd::prelude::*;
use vstd::string::*;

use crate::config::{
    config_after_set, config_refused, config_value, default_config, document_outcome, document_sets,
    document_with, is_known_key, key_unknown, supported_key, value_refused, Config, ConfigDocument,
    ConfigEntry, ConfigStore,
    ConfigValue, SUPPORTED_KEY_COUNT,
};
use crate::error::{PortaError, PortaResult};
use crate::registry::model::{
    allocation_models, clone_key, key_view, lease_models, reservation_models, Allocation,
    AllocationModel, LeaseModel, OpenLease, Registry, RegistryModel, Reservation,
    ReservationModel, CLEANUP_TRIGGER_CAP,
};
use crate::registry::store::JsonRegistryStore;
use crate::state::StatePaths;
use crate::timestamp::{now_utc, Timestamp, NANOS_PER_SECOND};
use crate::duration::{duration_outcome, duration_result, parse_duration};
use crate::paths::{paths_equal, same_path};
use crate::text::{decimal_string, decimal_text, str_eq};
use crate::ports::PortSet;
use crate::registry::model::port_list;

verus! {

/// Most reservation records an allocation-triggered sweep may reap and still
/// raise the cleanup trigger.
pub const CLEANUP_LOW_YIELD_MAX: usize = 10;

/// The configuration and registry stores of one state directory.
#[derive(Debug)]
pub struct PortaService {
    config: ConfigStore,
    registry: JsonRegistryStore,
}

impl PortaService {
    pub fn new(paths: StatePaths) -> (service: Self)
        ensures
            service.config_store().paths().root@ == paths.root@,
            service.registry_store().paths() == paths,
    {
        PortaService {
            config: ConfigStore::new(paths.clone()),
            registry: JsonRegistryStore::new(paths),
        }
    }

    pub closed spec fn config_store(&self) -> ConfigStore {
        self.config
    }

    pub closed spec fn registry_store(&self) -> JsonRegistryStore {
        self.registry
    }

    pub fn config(&self) -> (store: &ConfigStore)
        ensures
            *store == self.config_store(),
    {
        &self.config
    }

    pub fn registry(&self) -> (store: &JsonRegistryStore)
        ensures
            *store == self.registry_store(),
    {
        &self.registry
    }

    /// The service of the discovered state directory (see
    /// `StatePaths::discover`).
    pub fn discover(porta_home: Option<String>, home: Option<String>) -> (result: PortaResult<Self>)
        ensures
            match result {
                Ok(service) => {
                    &&& match porta_home {
                        Some(root) => service.registry_store().paths().root@ == root@,
                        None => home matches Some(h) && service.registry_store().paths().root@
                            == crate::paths::joined(h@, ".porta"@),
                    }
                    &&& service.config_store().paths().root@ == service.registry_store().paths().root@
                },
                Err(error) => {
                    &&& porta_home is None && home is None
                    &&& error.code@ == "state_directory_failed"@ && error.exit_code == 3
                    &&& error.message@ == "HOME is not set and PORTA_HOME was not provided"@
                },
            },
    {
        let paths = StatePaths::discover(porta_home, home)?;
        Ok(PortaService::new(paths))
    }

    /// `config get`: the effective value of `key` in the stored document.
    pub fn config_get(&self, document: &ConfigDocument, key: &str) -> (result: PortaResult<
        ConfigValue,
    >)
        ensures
            match result {
                Ok(value) => document_outcome(document@) matches Some(config) && config_value(
                    config,
                    key@,
                ) == Some(value@),
                Err(error) => match document_outcome(document@) {
                    None => config_refused(error, document@),
                    Some(config) => config_value(config, key@) is None && key_unknown(error, key@),
                },
            },
    {
        self.config.get(document, key)
    }

    /// `config`: every supported key of the stored document.
    pub fn config_list(&self, document: &ConfigDocument) -> (result: PortaResult<Vec<ConfigEntry>>)
        ensures
            match result {
                Ok(entries) => document_outcome(document@) is Some && entries@.len()
                    == SUPPORTED_KEY_COUNT && forall|i: int|
                    0 <= i < SUPPORTED_KEY_COUNT ==> {
                        let e = #[trigger] entries@[i];
                        &&& e.key@ == supported_key(i)
                        &&& config_value(document_outcome(document@).unwrap(), supported_key(i))
                            == Some(e.value@)
                        &&& config_value(default_config(), supported_key(i)) == Some(e.default@)
                        &&& e.is_set == document_sets(document@, supported_key(i))
                    },
                Err(error) => document_outcome(document@) is None && config_refused(error, document@),
            },
    {
        self.config.list(document)
    }

    /// `config set`: sets `key` in the stored document, which the caller
    /// then writes back.
    pub fn config_set(&self, document: &mut ConfigDocument, key: &str, value: &str) -> (result:
        PortaResult<ConfigValue>)
        ensures
            match result {
                Ok(stored) => {
                    &&& document_outcome(old(document)@) matches Some(before)
                    &&& config_after_set(before, key@, value@) matches Some(after)
                    &&& is_known_key(key@)
                    &&& final(document)@ == document_with(old(document)@, after, key@)
                    &&& config_value(after, key@) == Some(stored@)
                },
                Err(error) => final(document)@ == old(document)@ && (match document_outcome(
                    old(document)@,
                ) {
                    None => config_refused(error, old(document)@),
                    Some(before) => if is_known_key(key@) {
                        config_after_set(before, key@, value@) is None && value_refused(error, key@)
                    } else {
                        key_unknown(error, key@)
                    },
                }),
            },
    {
        self.config.set(document, key, value)
    }
}

/// A request to add allocations to a directory reservation.
#[derive(Debug)]
pub struct ReserveRequest {
    pub directory: String,
    pub base: Option<u16>,
    pub keys: Vec<String>,
    pub contiguous: bool,
    pub expires: Option<String>,
}

pub open spec fn has_code(error: PortaError, code: Seq<char>, exit_code: u8) -> bool {
    error.code@ == code && error.exit_code == exit_code
}

/// The error's human-readable message is exactly `text`.
pub open spec fn says(error: PortaError, text: Seq<char>) -> bool {
    error.message@ == text
}

/// The base port itself, unless it is zero.
pub fn validate_base(base: u16) -> (result: PortaResult<u16>)
    ensures
        match result {
            Ok(b) => b == base && base != 0,
            Err(error) => base == 0 && has_code(error, "invalid_port"@, 2) && says(
                error,
                "Port must be between 1 and 65535"@,
            ),
        },
{
    if base == 0 {
        return Err(
            PortaError::invalid("invalid_port", String::from_str("Port must be between 1 and 65535")),
        );
    }
    Ok(base)
}

pub open spec fn keys_have_empty(keys: Seq<Seq<char>>) -> bool {
    exists|i: int| 0 <= i < keys.len() && keys[i].len() == 0
}

pub open spec fn texts(strings: Seq<String>) -> Seq<Seq<char>> {
    strings.map_values(|s: String| s@)
}

/// Keys must be nonempty (`invalid_arguments`) and distinct (`duplicate_key`).
pub fn validate_keys(keys: &Vec<String>) -> (result: PortaResult<()>)
    ensures
        match result {
            Ok(()) => !keys_have_empty(texts(keys@)) && texts(keys@).no_duplicates(),
            Err(error) => if keys_have_empty(texts(keys@)) {
                has_code(error, "invalid_arguments"@, 2) && says(error, "Keys cannot be empty"@)
            } else {
                &&& !texts(keys@).no_duplicates()
                &&& has_code(error, "duplicate_key"@, 2)
                &&& says(error, "The same key cannot be requested more than once"@)
            },
        },
{
    let ghost ks = texts(keys@);
    let mut i: usize = 0;
    while i < keys.len()
        invariant
            i <= keys@.len(),
            ks == texts(keys@),
            forall|k: int| 0 <= k < i ==> ks[k].len() > 0,
        decreases keys@.len() - i,
    {
        if keys[i].as_str().is_empty() {
            assert(ks[i as int].len() == 0);
            return Err(
                PortaError::invalid("invalid_arguments", String::from_str("Keys cannot be empty")),
            );
        }
        i = i + 1;
    }
    let mut i: usize = 0;
    while i < keys.len()
        invariant
            i <= keys@.len(),
            ks == texts(keys@),
            !keys_have_empty(ks),
            forall|a: int, b: int| 0 <= a < b < i ==> ks[a] != ks[b],
        decreases keys@.len() - i,
    {
        let mut j: usize = 0;
        while j < i
            invariant
                j <= i < keys@.len(),
                ks == texts(keys@),
                !keys_have_empty(ks),
                forall|a: int| 0 <= a < j ==> ks[a] != ks[i as int],
            decreases i - j,
        {
            if keys[j] == keys[i] {
                assert(ks[j as int] == keys@[j as int]@);
                assert(ks[i as int] == keys@[i as int]@);
                assert(ks[j as int] == ks[i as int]);
                assert(!ks.no_duplicates());
                return Err(
                    PortaError::invalid(
                        "duplicate_key",
                        String::from_str("The same key cannot be requested more than once"),
                    ),
                );
            }
            j = j + 1;
        }
        i = i + 1;
    }
    proof {
        assert forall|a: int, b: int| 0 <= a < ks.len() && 0 <= b < ks.len() && a != b implies ks[a]
            != ks[b] by {
            if a < b {
            } else {
            }
        }
    }
    Ok(())
}

// ---------------------------------------------------------------------
// Expiration sweep
// ---------------------------------------------------------------------
/// Counts of one expiration sweep.
#[derive(Clone, Copy, Debug)]
pub struct ExpirationStats {
    pub released_leases: usize,
    pub expired_reservations: usize,
}

/// A lease survives a sweep while unexpired, or while its port is bound.
pub open spec fn lease_survives(lease: LeaseModel, bound: bool, now: Timestamp) -> bool {
    lease.expires_at.unix_nanos > now.unix_nanos || bound
}

/// The leases that survive a sweep, in order; `bound[i]` says whether the port
/// of lease `i` was bound (asked only of expired leases).
pub open spec fn surviving_leases(leases: Seq<LeaseModel>, bound: Seq<bool>, now: Timestamp) -> Seq<
    LeaseModel,
>
    decreases leases.len(),
{
    if leases.len() == 0 {
        Seq::empty()
    } else {
        let rest = surviving_leases(leases.drop_last(), bound, now);
        if lease_survives(leases.last(), bound[leases.len() - 1], now) {
            rest.push(leases.last())
        } else {
            rest
        }
    }
}

/// A reservation is live until its expiration, a hard deadline.
pub open spec fn reservation_live(reservation: ReservationModel, now: Timestamp) -> bool {
    reservation.expires_at matches Some(e) ==> e.unix_nanos > now.unix_nanos
}

pub open spec fn live_reservations(reservations: Seq<ReservationModel>, now: Timestamp) -> Seq<
    ReservationModel,
>
    decreases reservations.len(),
{
    if reservations.len() == 0 {
        Seq::empty()
    } else {
        let rest = live_reservations(reservations.drop_last(), now);
        if reservation_live(reservations.last(), now) {
            rest.push(reservations.last())
        } else {
            rest
        }
    }
}

/// Removes expired leases whose ports are unbound and every reservation past
/// its expiration. `bound[i]` tells whether the port of lease `i` is bound; it
/// is consulted only for expired leases.
pub fn sweep_expired(registry: &mut Registry, now: Timestamp, bound: &Vec<bool>) -> (stats:
    ExpirationStats)
    requires
        bound@.len() == old(registry).open_leases@.len(),
    ensures
        final(registry)@.leases == surviving_leases(old(registry)@.leases, bound@, now),
        final(registry)@.reservations == live_reservations(old(registry)@.reservations, now),
        final(registry)@.schema_version == old(registry)@.schema_version,
        final(registry)@.cleanup_trigger == old(registry)@.cleanup_trigger,
        stats.released_leases == old(registry)@.leases.len() - final(registry)@.leases.len(),
        stats.expired_reservations == old(registry)@.reservations.len()
            - final(registry)@.reservations.len(),
{
    let ghost old_leases = registry@.leases;
    let ghost old_reservations = registry@.reservations;
    let mut leases: Vec<OpenLease> = Vec::new();
    let mut i: usize = 0;
    while i < registry.open_leases.len()
        invariant
            i <= registry.open_leases@.len(),
            bound@.len() == registry.open_leases@.len(),
            old_leases == lease_models(registry.open_leases@),
            lease_models(leases@) == surviving_leases(old_leases.take(i as int), bound@, now),
            leases@.len() <= i,
        decreases registry.open_leases@.len() - i,
    {
        let lease = &registry.open_leases[i];
        proof {
            let t = old_leases.take(i + 1);
            assert(t.drop_last() =~= old_leases.take(i as int));
            assert(t.last() == lease@);
        }
        if lease.expires_at.is_after(&now) || bound[i] {
            let ghost before = leases@;
            let copy = lease.clone();
            leases.push(copy);
            assert(lease_models(leases@) =~= lease_models(before).push(copy@));
        }
        i = i + 1;
    }
    assert(old_leases.take(i as int) =~= old_leases);
    let mut reservations: Vec<Reservation> = Vec::new();
    let mut r: usize = 0;
    while r < registry.reservations.len()
        invariant
            r <= registry.reservations@.len(),
            old_reservations == reservation_models(registry.reservations@),
            reservation_models(reservations@) == live_reservations(
                old_reservations.take(r as int),
                now,
            ),
            reservations@.len() <= r,
        decreases registry.reservations@.len() - r,
    {
        let reservation = &registry.reservations[r];
        proof {
            let t = old_reservations.take(r + 1);
            assert(t.drop_last() =~= old_reservations.take(r as int));
            assert(t.last() == reservation@);
        }
        let live = match &reservation.expires_at {
            Some(e) => e.is_after(&now),
            None => true,
        };
        if live {
            let ghost before = reservations@;
            let copy = reservation.clone();
            reservations.push(copy);
            assert(reservation_models(reservations@) =~= reservation_models(before).push(copy@));
        }
        r = r + 1;
    }
    assert(old_reservations.take(r as int) =~= old_reservations);
    let released_leases = registry.open_leases.len() - leases.len();
    let expired_reservations = registry.reservations.len() - reservations.len();
    registry.open_leases = leases;
    registry.reservations = reservations;
    ExpirationStats { released_leases, expired_reservations }
}

// ---------------------------------------------------------------------
// Missing-directory cleanup
// ---------------------------------------------------------------------
/// How a cleanup pass treats reservations whose directories are absent.
#[derive(Clone, Copy, Debug, PartialEq, Eq, Structural)]
pub enum SweepMode {
    /// Record and clear `missing_since` marks, never reap (`list`).
    Observe,
    /// Reap reservations marked missing for at least the grace period
    /// (`clean` and the automatic cleanup).
    Reap,
    /// Reap every reservation whose directory is absent now (`clean --force`).
    Force,
}

/// Counts of one missing-directory pass.
#[derive(Clone, Copy, Debug)]
pub struct MissingStats {
    pub marked_missing: usize,
    pub restored: usize,
    pub reaped: usize,
}

/// What becomes of one reservation in a missing-directory pass: `None` when
/// it is reaped.
pub open spec fn after_observation(
    reservation: ReservationModel,
    exists: bool,
    now: Timestamp,
    mode: SweepMode,
    grace_nanos: int,
) -> Option<ReservationModel> {
    if exists {
        Some(ReservationModel { missing_since: None, ..reservation })
    } else if mode == SweepMode::Force {
        None
    } else {
        match reservation.missing_since {
            Some(since) => if mode == SweepMode::Reap && now.unix_nanos - since.unix_nanos
                >= grace_nanos {
                None
            } else {
                Some(reservation)
            },
            None => Some(ReservationModel { missing_since: Some(now), ..reservation }),
        }
    }
}

/// The reservations after a missing-directory pass, in order; `exists[i]`
/// tells whether the directory of reservation `i` exists.
pub open spec fn observed_reservations(
    reservations: Seq<ReservationModel>,
    exists: Seq<bool>,
    now: Timestamp,
    mode: SweepMode,
    grace_nanos: int,
) -> Seq<ReservationModel>
    decreases reservations.len(),
{
    if reservations.len() == 0 {
        Seq::empty()
    } else {
        let rest = observed_reservations(reservations.drop_last(), exists, now, mode, grace_nanos);
        match after_observation(
            reservations.last(),
            exists[reservations.len() - 1],
            now,
            mode,
            grace_nanos,
        ) {
            Some(r) => rest.push(r),
            None => rest,
        }
    }
}

pub open spec fn newly_marked(reservation: ReservationModel, exists: bool, mode: SweepMode) -> bool {
    !exists && mode != SweepMode::Force && reservation.missing_since is None
}

pub open spec fn count_marked(reservations: Seq<ReservationModel>, exists: Seq<bool>, mode: SweepMode) -> nat
    decreases reservations.len(),
{
    if reservations.len() == 0 {
        0
    } else {
        count_marked(reservations.drop_last(), exists, mode) + if newly_marked(
            reservations.last(),
            exists[reservations.len() - 1],
            mode,
        ) {
            1nat
        } else {
            0nat
        }
    }
}

pub open spec fn count_restored(reservations: Seq<ReservationModel>, exists: Seq<bool>) -> nat
    decreases reservations.len(),
{
    if reservations.len() == 0 {
        0
    } else {
        count_restored(reservations.drop_last(), exists) + if exists[reservations.len() - 1]
            && reservations.last().missing_since is Some {
            1nat
        } else {
            0nat
        }
    }
}

/// Marks absent directories as missing, clears the mark of directories that
/// returned, and reaps according to `mode`. `exists[i]` tells whether the
/// directory of reservation `i` exists. Reaping with a grace period longer
/// than a signed duration can hold fails with `invalid_config`.
pub fn observe_missing(
    registry: &mut Registry,
    config: &Config,
    now: Timestamp,
    exists: &Vec<bool>,
    mode: SweepMode,
) -> (result: PortaResult<MissingStats>)
    requires
        exists@.len() == old(registry).reservations@.len(),
    ensures
        match result {
            Ok(stats) => {
                let grace = config.missing_for * NANOS_PER_SECOND;
                &&& !(mode == SweepMode::Reap && config.missing_for > i64::MAX)
                &&& final(registry)@.reservations == observed_reservations(
                    old(registry)@.reservations,
                    exists@,
                    now,
                    mode,
                    grace,
                )
                &&& final(registry)@.leases == old(registry)@.leases
                &&& final(registry)@.schema_version == old(registry)@.schema_version
                &&& final(registry)@.cleanup_trigger == old(registry)@.cleanup_trigger
                &&& stats.marked_missing == count_marked(old(registry)@.reservations, exists@, mode)
                &&& stats.restored == count_restored(old(registry)@.reservations, exists@)
                &&& stats.reaped == old(registry)@.reservations.len() - final(registry)@.reservations.len()
            },
            Err(error) => {
                &&& mode == SweepMode::Reap && config.missing_for > i64::MAX
                &&& has_code(error, "invalid_config"@, 2)
                &&& says(error, "missing_for duration is too large"@)
                &&& final(registry)@ == old(registry)@
            },
        },
{
    if mode == SweepMode::Reap && config.missing_for > i64::MAX as u64 {
        return Err(
            PortaError::invalid(
                "invalid_config",
                String::from_str("missing_for duration is too large"),
            ),
        );
    }
    let grace: i128 = config.missing_for as i128 * NANOS_PER_SECOND;
    let ghost old_reservations = registry@.reservations;
    let mut kept: Vec<Reservation> = Vec::new();
    let mut marked: usize = 0;
    let mut restored: usize = 0;
    let mut i: usize = 0;
    while i < registry.reservations.len()
        invariant
            i <= registry.reservations@.len(),
            exists@.len() == registry.reservations@.len(),
            old_reservations == reservation_models(registry.reservations@),
            grace == config.missing_for * NANOS_PER_SECOND,
            reservation_models(kept@) == observed_reservations(
                old_reservations.take(i as int),
                exists@,
                now,
                mode,
                grace as int,
            ),
            marked == count_marked(old_reservations.take(i as int), exists@, mode),
            restored == count_restored(old_reservations.take(i as int), exists@),
            kept@.len() <= i,
            marked <= i,
            restored <= i,
        decreases registry.reservations@.len() - i,
    {
        let reservation = &registry.reservations[i];
        proof {
            let t = old_reservations.take(i + 1);
            assert(t.drop_last() =~= old_reservations.take(i as int));
            assert(t.last() == reservation@);
        }
        let ghost before = kept@;
        if exists[i] {
            if reservation.missing_since.is_some() {
                restored = restored + 1;
            }
            let mut copy = reservation.clone();
            copy.missing_since = None;
            kept.push(copy);
            assert(reservation_models(kept@) =~= reservation_models(before).push(copy@));
        } else if mode == SweepMode::Force {
        } else {
            match reservation.missing_since {
                Some(since) => {
                    let elapsed_enough = mode == SweepMode::Reap && match since.unix_nanos.checked_add(
                        grace,
                    ) {
                        Some(deadline) => now.unix_nanos >= deadline,
                        None => false,
                    };
                    if !elapsed_enough {
                        let copy = reservation.clone();
                        kept.push(copy);
                        assert(reservation_models(kept@) =~= reservation_models(before).push(
                            copy@,
                        ));
                    }
                },
                None => {
                    let mut copy = reservation.clone();
                    copy.missing_since = Some(now);
                    marked = marked + 1;
                    kept.push(copy);
                    assert(reservation_models(kept@) =~= reservation_models(before).push(copy@));
                },
            }
        }
        i = i + 1;
    }
    assert(old_reservations.take(i as int) =~= old_reservations);
    let reaped = registry.reservations.len() - kept.len();
    registry.reservations = kept;
    Ok(MissingStats { marked_missing: marked, restored, reaped })
}

/// Whether an allocation must run the automatic cleanup first: the registry
/// holds at least as many reservations as its cleanup trigger.
pub fn needs_automatic_cleanup(registry: &Registry) -> (needed: bool)
    ensures
        needed == (registry@.reservations.len() >= registry@.cleanup_trigger),
{
    registry.reservations.len() >= registry.maintenance.cleanup_trigger
}

/// The cleanup trigger after an automatic cleanup that reaped `reaped`
/// records: raised by the step, up to the cap, unless the pass reaped more
/// than the low-yield bound.
pub open spec fn next_trigger(trigger: int, step: int, reaped: int) -> int {
    if reaped <= CLEANUP_LOW_YIELD_MAX {
        if trigger + step < CLEANUP_TRIGGER_CAP {
            trigger + step
        } else {
            CLEANUP_TRIGGER_CAP as int
        }
    } else {
        trigger
    }
}

/// The cleanup that runs before `lease` and `reserve`: below the trigger it
/// changes nothing; once the registry holds as many reservations as its
/// trigger, it reaps missing directories past their grace period and
/// schedules the next run. `exists` is read only in that case.
pub fn automatic_cleanup(registry: &mut Registry, config: &Config, now: Timestamp, exists: &Vec<bool>) -> (result:
    PortaResult<()>)
    requires
        old(registry)@.reservations.len() >= old(registry)@.cleanup_trigger ==> exists@.len()
            == old(registry).reservations@.len(),
    ensures
        old(registry)@.reservations.len() < old(registry)@.cleanup_trigger ==> result is Ok
            && final(registry)@ == old(registry)@,
        match result {
            Ok(()) => old(registry)@.reservations.len() >= old(registry)@.cleanup_trigger ==> {
                let grace = config.missing_for * NANOS_PER_SECOND;
                let after = observed_reservations(
                    old(registry)@.reservations,
                    exists@,
                    now,
                    SweepMode::Reap,
                    grace,
                );
                &&& final(registry)@.reservations == after
                &&& final(registry)@.leases == old(registry)@.leases
                &&& final(registry)@.schema_version == old(registry)@.schema_version
                &&& final(registry)@.cleanup_trigger == next_trigger(
                    old(registry)@.cleanup_trigger as int,
                    config.cleanup_trigger_step as int,
                    old(registry)@.reservations.len() - after.len(),
                )
            },
            Err(error) => {
                &&& old(registry)@.reservations.len() >= old(registry)@.cleanup_trigger
                &&& config.missing_for > i64::MAX
                &&& has_code(error, "invalid_config"@, 2)
                &&& says(error, "missing_for duration is too large"@)
                &&& final(registry)@ == old(registry)@
            },
        },
{
    if registry.reservations.len() < registry.maintenance.cleanup_trigger {
        return Ok(());
    }
    let stats = observe_missing(registry, config, now, exists, SweepMode::Reap)?;
    if stats.reaped <= CLEANUP_LOW_YIELD_MAX {
        let trigger = registry.maintenance.cleanup_trigger;
        let raised = trigger.saturating_add(config.cleanup_trigger_step);
        registry.maintenance.cleanup_trigger = if raised < CLEANUP_TRIGGER_CAP {
            raised
        } else {
            CLEANUP_TRIGGER_CAP
        };
    }
    Ok(())
}

// ---------------------------------------------------------------------
// Identifiers
// ---------------------------------------------------------------------
/// A fresh random (version 4) UUID from `uuid::Uuid::new_v4`, as a 128-bit
/// number. Chance decides the other bits; the contract claims only the
/// version nibble (4) and the RFC 4122 variant bits (`10`), which `new_v4`
/// sets.
#[verifier::external_body]
fn new_uuid() -> (id: u128)
    ensures
        (id >> 76u128) & 0xfu128 == 4,
        (id >> 62u128) & 0x3u128 == 2,
{
    uuid::Uuid::new_v4().as_u128()
}

// ---------------------------------------------------------------------
// lease
// ---------------------------------------------------------------------
/// The answer of `lease`.
#[derive(Debug)]
pub struct LeaseResult {
    pub port: u16,
    pub key: Option<String>,
    pub lease_id: u128,
    pub created_at: Timestamp,
    pub expires_at: Timestamp,
}

pub open spec fn lease_result_model(result: LeaseResult) -> LeaseModel {
    LeaseModel {
        id: result.lease_id,
        port: result.port,
        key: key_view(result.key),
        created_at: result.created_at,
        expires_at: result.expires_at,
    }
}

/// A lease key, when given, must not be empty (`invalid_arguments`).
pub fn check_lease_key(key: Option<&str>) -> (result: PortaResult<()>)
    ensures
        match result {
            Ok(()) => key matches Some(k) ==> k@.len() > 0,
            Err(error) => {
                &&& key matches Some(k) && k@.len() == 0
                &&& has_code(error, "invalid_arguments"@, 2)
                &&& says(error, "Keys cannot be empty"@)
            },
        },
{
    match key {
        Some(k) => if k.is_empty() {
            Err(PortaError::invalid("invalid_arguments", String::from_str("Keys cannot be empty")))
        } else {
            Ok(())
        },
        None => Ok(()),
    }
}

/// The scan base, start time and deadline of a lease.
#[derive(Debug)]
pub struct LeasePlan {
    pub base: u16,
    pub now: Timestamp,
    pub expires_at: Timestamp,
}

/// Some representable UTC start time has no representable deadline
/// `seconds` later.
pub open spec fn deadline_can_overflow(seconds: nat) -> bool {
    exists|t: Timestamp| t.is_utc() && t.well_formed() && #[trigger] t.spec_add_seconds(seconds) is None
}

/// The lifetime that a lease request asks for, in seconds, if valid.
pub open spec fn requested_timeout(config: Config, timeout: Option<Seq<char>>) -> Option<nat> {
    match timeout {
        Some(t) => duration_outcome(t, true, false),
        None => Some(config.lease_timeout as nat),
    }
}

/// Validates the base port and timeout of a lease and fixes its start time
/// (now) and deadline. A bare timeout means minutes.
pub fn plan_lease(config: &Config, base: Option<u16>, timeout: Option<&str>) -> (result:
    PortaResult<LeasePlan>)
    ensures
        ({
            let effective_base = match base {
                Some(b) => b,
                None => config.default_port,
            };
            let seconds = requested_timeout(
                *config,
                match timeout {
                    Some(t) => Some(t@),
                    None => None,
                },
            );
            match result {
                Ok(plan) => {
                    &&& effective_base != 0
                    &&& plan.base == effective_base
                    &&& seconds is Some
                    &&& plan.now.is_utc() && plan.now.well_formed()
                    &&& plan.now.spec_add_seconds(seconds.unwrap()) == Some(plan.expires_at)
                },
                Err(error) => if effective_base == 0 {
                    has_code(error, "invalid_port"@, 2) && says(
                        error,
                        "Port must be between 1 and 65535"@,
                    )
                } else {
                    &&& has_code(error, "invalid_duration"@, 2)
                    &&& match timeout {
                        Some(t) => match duration_result(t@, true, false) {
                            Err(message) => says(error, message),
                            Ok(_) => says(error, "timeout is too large"@) && deadline_can_overflow(
                                seconds.unwrap(),
                            ),
                        },
                        None => says(error, "timeout is too large"@) && deadline_can_overflow(
                            seconds.unwrap(),
                        ),
                    }
                    &&& seconds is None || deadline_can_overflow(seconds.unwrap())
                },
            }
        }),
{
    let effective = match base {
        Some(b) => b,
        None => config.default_port,
    };
    let base = validate_base(effective)?;
    let seconds = match timeout {
        Some(value) => parse_duration(value, true, false)?,
        None => config.lease_timeout,
    };
    let now = now_utc();
    let expires_at = match now.checked_add_seconds(seconds) {
        Some(t) => t,
        None => {
            let ghost requested = requested_timeout(
                *config,
                match timeout {
                    Some(t) => Some(t@),
                    None => None,
                },
            );
            assert(now.spec_add_seconds(requested.unwrap()) is None);
            return Err(
                PortaError::invalid("invalid_duration", String::from_str("timeout is too large")),
            );
        },
    };
    Ok(LeasePlan { base, now, expires_at })
}

/// The first lease whose key is `key`.
pub open spec fn lease_with_key(leases: Seq<LeaseModel>, key: Seq<char>, index: int) -> bool {
    &&& 0 <= index < leases.len()
    &&& leases[index].key == Some(key)
    &&& forall|i: int| 0 <= i < index ==> #[trigger] leases[i].key != Some(key)
}

/// The position of the first lease keyed `key`, if any.
pub fn find_lease(registry: &Registry, key: &str) -> (found: Option<usize>)
    ensures
        match found {
            Some(index) => lease_with_key(registry@.leases, key@, index as int),
            None => forall|i: int|
                0 <= i < registry@.leases.len() ==> #[trigger] registry@.leases[i].key != Some(key@),
        },
{
    let mut i: usize = 0;
    while i < registry.open_leases.len()
        invariant
            i <= registry.open_leases@.len(),
            forall|k: int| 0 <= k < i ==> #[trigger] registry@.leases[k].key != Some(key@),
        decreases registry.open_leases@.len() - i,
    {
        let hit = match &registry.open_leases[i].key {
            Some(k) => str_eq(k.as_str(), key),
            None => false,
        };
        assert(registry@.leases[i as int] == registry.open_leases@[i as int]@);
        if hit {
            return Some(i);
        }
        i = i + 1;
    }
    None
}

/// Which leases a sweep must ask about: those at or past their deadline,
/// whose survival depends on whether their port is bound.
pub fn leases_to_probe(registry: &Registry, now: Timestamp) -> (probe: Vec<bool>)
    ensures
        probe@.len() == registry@.leases.len(),
        forall|i: int|
            0 <= i < probe@.len() ==> probe@[i] == (registry@.leases[i].expires_at.unix_nanos
                <= now.unix_nanos),
{
    let mut probe: Vec<bool> = Vec::new();
    let mut i: usize = 0;
    while i < registry.open_leases.len()
        invariant
            i <= registry.open_leases@.len(),
            probe@.len() == i,
            forall|k: int|
                0 <= k < i ==> probe@[k] == (registry@.leases[k].expires_at.unix_nanos
                    <= now.unix_nanos),
        decreases registry.open_leases@.len() - i,
    {
        assert(registry@.leases[i as int] == registry.open_leases@[i as int]@);
        probe.push(!registry.open_leases[i].expires_at.is_after(&now));
        i = i + 1;
    }
    probe
}

/// Renews the first lease keyed `key` with the new deadline, when a key is
/// given and some lease has it; otherwise changes nothing.
pub fn renew_keyed_lease(registry: &mut Registry, key: Option<&str>, expires_at: Timestamp) -> (result:
    Option<LeaseResult>)
    ensures
        final(registry)@.reservations == old(registry)@.reservations,
        final(registry)@.schema_version == old(registry)@.schema_version,
        final(registry)@.cleanup_trigger == old(registry)@.cleanup_trigger,
        match result {
            Some(renewed) => key matches Some(k) && exists|index: int|
                #[trigger] lease_with_key(old(registry)@.leases, k@, index) && final(registry)@.leases
                    == old(registry)@.leases.update(
                    index,
                    (LeaseModel { expires_at, ..old(registry)@.leases[index] }),
                ) && lease_result_model(renewed) == (LeaseModel {
                    expires_at,
                    ..old(registry)@.leases[index]
                }),
            None => final(registry)@ == old(registry)@ && (key matches Some(k) ==> forall|i: int|
                0 <= i < old(registry)@.leases.len() ==> #[trigger] old(registry)@.leases[i].key
                    != Some(k@)),
        },
{
    match key {
        Some(k) => match find_lease(registry, k) {
            Some(index) => Some(renew_lease(registry, index, expires_at)),
            None => None,
        },
        None => None,
    }
}

/// Renews lease `index`: same port, ID and creation time, a new deadline.
pub fn renew_lease(registry: &mut Registry, index: usize, expires_at: Timestamp) -> (result: LeaseResult)
    requires
        index < old(registry).open_leases@.len(),
    ensures
        final(registry)@.leases == old(registry)@.leases.update(
            index as int,
            (LeaseModel { expires_at, ..old(registry)@.leases[index as int] }),
        ),
        final(registry)@.reservations == old(registry)@.reservations,
        final(registry)@.schema_version == old(registry)@.schema_version,
        final(registry)@.cleanup_trigger == old(registry)@.cleanup_trigger,
        lease_result_model(result) == (LeaseModel {
            expires_at,
            ..old(registry)@.leases[index as int]
        }),
{
    let mut lease = registry.open_leases[index].clone();
    lease.expires_at = expires_at;
    let result = LeaseResult {
        port: lease.port,
        key: clone_key(&lease.key),
        lease_id: lease.id,
        created_at: lease.created_at,
        expires_at: lease.expires_at,
    };
    let ghost before = registry.open_leases@;
    registry.open_leases.set(index, lease);
    assert(lease_models(registry.open_leases@) =~= lease_models(before).update(
        index as int,
        LeaseModel { expires_at, ..lease_models(before)[index as int] },
    ));
    result
}

/// Adds a new lease on `port` with a fresh random ID.
pub fn add_lease(registry: &mut Registry, port: u16, key: Option<String>, plan: &LeasePlan) -> (result:
    LeaseResult)
    ensures
        final(registry)@.leases == old(registry)@.leases.push(lease_result_model(result)),
        final(registry)@.reservations == old(registry)@.reservations,
        final(registry)@.schema_version == old(registry)@.schema_version,
        final(registry)@.cleanup_trigger == old(registry)@.cleanup_trigger,
        result.port == port,
        key_view(result.key) == key_view(key),
        result.created_at == plan.now,
        result.expires_at == plan.expires_at,
{
    let id = new_uuid();
    let lease = OpenLease {
        id,
        port,
        key: clone_key(&key),
        created_at: plan.now,
        expires_at: plan.expires_at,
    };
    let result = LeaseResult {
        port,
        key,
        lease_id: id,
        created_at: plan.now,
        expires_at: plan.expires_at,
    };
    let ghost before = registry.open_leases@;
    registry.open_leases.push(lease);
    assert(lease_models(registry.open_leases@) =~= lease_models(before).push(lease@));
    result
}

// ---------------------------------------------------------------------
// reserve
// ---------------------------------------------------------------------
/// `index` is the first reservation for `directory`.
pub open spec fn reservation_at(reservations: Seq<ReservationModel>, directory: Seq<char>, index: int) -> bool {
    &&& 0 <= index < reservations.len()
    &&& same_path(reservations[index].directory, directory)
    &&& forall|i: int| 0 <= i < index ==> !same_path(#[trigger] reservations[i].directory, directory)
}

pub open spec fn no_reservation(reservations: Seq<ReservationModel>, directory: Seq<char>) -> bool {
    forall|i: int| 0 <= i < reservations.len() ==> !same_path(#[trigger] reservations[i].directory, directory)
}

/// The position of the reservation for `directory`, if any.
pub fn find_reservation(registry: &Registry, directory: &str) -> (found: Option<usize>)
    ensures
        match found {
            Some(index) => reservation_at(registry@.reservations, directory@, index as int),
            None => no_reservation(registry@.reservations, directory@),
        },
{
    let mut i: usize = 0;
    while i < registry.reservations.len()
        invariant
            i <= registry.reservations@.len(),
            forall|k: int| 0 <= k < i ==> !same_path(#[trigger] registry@.reservations[k].directory, directory@),
        decreases registry.reservations@.len() - i,
    {
        assert(registry@.reservations[i as int] == registry.reservations@[i as int]@);
        if paths_equal(registry.reservations[i].directory.as_str(), directory) {
            return Some(i);
        }
        i = i + 1;
    }
    None
}

/// The position of the first allocation keyed `key`, or -1.
pub open spec fn key_index(allocations: Seq<AllocationModel>, key: Seq<char>) -> int
    decreases allocations.len(),
{
    if allocations.len() == 0 {
        -1
    } else {
        let earlier = key_index(allocations.drop_last(), key);
        if earlier >= 0 {
            earlier
        } else if allocations.last().key == Some(key) {
            allocations.len() - 1
        } else {
            -1
        }
    }
}

pub(crate) proof fn lemma_key_index(allocations: Seq<AllocationModel>, key: Seq<char>)
    ensures
        -1 <= key_index(allocations, key) < allocations.len(),
        key_index(allocations, key) >= 0 ==> allocations[key_index(allocations, key)].key == Some(key),
        key_index(allocations, key) >= 0 ==> forall|i: int|
            0 <= i < key_index(allocations, key) ==> #[trigger] allocations[i].key != Some(key),
        key_index(allocations, key) < 0 ==> forall|i: int|
            0 <= i < allocations.len() ==> #[trigger] allocations[i].key != Some(key),
    decreases allocations.len(),
{
    if allocations.len() > 0 {
        lemma_key_index(allocations.drop_last(), key);
        assert forall|i: int| 0 <= i < allocations.len() - 1 implies allocations[i]
            == allocations.drop_last()[i] by {}
    }
}

/// The position of the first allocation keyed `key`.
pub(crate) fn find_key(allocations: &Vec<Allocation>, key: &String) -> (found: Option<usize>)
    ensures
        match found {
            Some(i) => key_index(allocation_models(allocations@), key@) == i,
            None => key_index(allocation_models(allocations@), key@) < 0,
        },
{
    let ghost models = allocation_models(allocations@);
    proof {
        lemma_key_index(models, key@);
    }
    let mut i: usize = 0;
    while i < allocations.len()
        invariant
            i <= allocations@.len(),
            models == allocation_models(allocations@),
            -1 <= key_index(models, key@) < models.len(),
            key_index(models, key@) >= 0 ==> models[key_index(models, key@)].key == Some(key@),
            key_index(models, key@) >= 0 ==> forall|k: int|
                0 <= k < key_index(models, key@) ==> #[trigger] models[k].key != Some(key@),
            key_index(models, key@) < 0 ==> forall|k: int|
                0 <= k < models.len() ==> #[trigger] models[k].key != Some(key@),
            forall|k: int| 0 <= k < i ==> #[trigger] models[k].key != Some(key@),
        decreases allocations@.len() - i,
    {
        let hit = match &allocations[i].key {
            Some(k) => *k == *key,
            None => false,
        };
        assert(models[i as int] == allocations@[i as int]@);
        if hit {
            assert(models[i as int].key == Some(key@));
            assert(key_index(models, key@) >= 0);
            assert(key_index(models, key@) == i);
            return Some(i);
        }
        i = i + 1;
    }
    None
}

/// The existing allocations of the reservation a request adds to, if any.
pub open spec fn existing_allocations(reservations: Seq<ReservationModel>, existing: Option<usize>) -> Seq<AllocationModel> {
    match existing {
        Some(i) => reservations[i as int].allocations,
        None => Seq::empty(),
    }
}

/// Whether `key` already has an allocation among `allocations`.
pub open spec fn has_key(allocations: Seq<AllocationModel>, key: Seq<char>) -> bool {
    key_index(allocations, key) >= 0
}

/// How many of `keys` are new, that is, have no allocation yet.
pub open spec fn new_key_count(keys: Seq<Seq<char>>, allocations: Seq<AllocationModel>) -> nat
    decreases keys.len(),
{
    if keys.len() == 0 {
        0
    } else {
        new_key_count(keys.drop_last(), allocations) + if has_key(allocations, keys.last()) {
            0nat
        } else {
            1nat
        }
    }
}

/// The keys of `keys` that already have an allocation, in request order.
pub open spec fn reused_key_list(keys: Seq<Seq<char>>, allocations: Seq<AllocationModel>) -> Seq<Seq<char>>
    decreases keys.len(),
{
    if keys.len() == 0 {
        Seq::empty()
    } else {
        let rest = reused_key_list(keys.drop_last(), allocations);
        if has_key(allocations, keys.last()) {
            rest.push(keys.last())
        } else {
            rest
        }
    }
}

/// How many ports a request allocates: one per new key, or one unkeyed port
/// when no key is given.
pub open spec fn allocation_count(keys: Seq<Seq<char>>, allocations: Seq<AllocationModel>) -> nat {
    if keys.len() == 0 {
        1
    } else {
        new_key_count(keys, allocations)
    }
}

/// The reservation a request adds to and how many ports it needs.
#[derive(Debug)]
pub struct ReservePlan {
    pub existing: Option<usize>,
    pub allocation_count: usize,
}

pub open spec fn plan_matches(plan: ReservePlan, registry: RegistryModel, directory: Seq<char>, keys: Seq<Seq<char>>) -> bool {
    &&& match plan.existing {
        Some(i) => reservation_at(registry.reservations, directory, i as int),
        None => no_reservation(registry.reservations, directory),
    }
    &&& plan.allocation_count == allocation_count(
        keys,
        existing_allocations(registry.reservations, plan.existing),
    )
}

/// Finds the reservation for `directory` and counts the ports that the keys
/// need: existing keys keep their ports.
pub fn plan_reserve(registry: &Registry, directory: &str, keys: &Vec<String>) -> (plan: ReservePlan)
    ensures
        plan_matches(plan, registry@, directory@, texts(keys@)),
{
    let existing = find_reservation(registry, directory);
    if keys.len() == 0 {
        return ReservePlan { existing, allocation_count: 1 };
    }
    let ghost allocations = existing_allocations(registry@.reservations, existing);
    let ghost ks = texts(keys@);
    let mut count: usize = 0;
    let mut i: usize = 0;
    while i < keys.len()
        invariant
            i <= keys@.len(),
            ks == texts(keys@),
            allocations == existing_allocations(registry@.reservations, existing),
            existing matches Some(e) ==> e < registry@.reservations.len(),
            count == new_key_count(ks.take(i as int), allocations),
            count <= i,
        decreases keys@.len() - i,
    {
        let found = match existing {
            Some(e) => {
                assert(registry@.reservations[e as int] == registry.reservations@[e as int]@);
                find_key(&registry.reservations[e].allocations, &keys[i]).is_some()
            },
            None => {
                proof {
                    lemma_key_index(allocations, ks[i as int]);
                }
                false
            },
        };
        proof {
            assert(ks.take(i + 1).drop_last() =~= ks.take(i as int));
            assert(ks.take(i + 1).last() == keys@[i as int]@);
        }
        if !found {
            count = count + 1;
        }
        i = i + 1;
    }
    assert(ks.take(i as int) =~= ks);
    ReservePlan { existing, allocation_count: count }
}

/// The allocation a keyed request answers for its key at position `j`: the
/// existing one, or a new one on the next selected port.
pub open spec fn requested_allocation(
    keys: Seq<Seq<char>>,
    j: int,
    existing: Seq<AllocationModel>,
    ports: Seq<u16>,
    now: Timestamp,
) -> AllocationModel {
    if has_key(existing, keys[j]) {
        existing[key_index(existing, keys[j])]
    } else {
        AllocationModel {
            port: ports[new_key_count(keys.take(j), existing) as int],
            key: Some(keys[j]),
            created_at: now,
        }
    }
}

/// The allocations a request adds, in order: one per new key on the selected
/// ports, or one unkeyed allocation.
pub open spec fn added_allocations(
    keys: Seq<Seq<char>>,
    existing: Seq<AllocationModel>,
    ports: Seq<u16>,
    now: Timestamp,
) -> Seq<AllocationModel>
    decreases keys.len(),
{
    if keys.len() == 0 {
        Seq::empty()
    } else {
        let rest = added_allocations(keys.drop_last(), existing, ports, now);
        if has_key(existing, keys.last()) {
            rest
        } else {
            rest.push(
                AllocationModel {
                    port: ports[new_key_count(keys.drop_last(), existing) as int],
                    key: Some(keys.last()),
                    created_at: now,
                },
            )
        }
    }
}

pub open spec fn new_allocations(
    keys: Seq<Seq<char>>,
    existing: Seq<AllocationModel>,
    ports: Seq<u16>,
    now: Timestamp,
) -> Seq<AllocationModel> {
    if keys.len() == 0 {
        seq![AllocationModel { port: ports[0], key: None, created_at: now }]
    } else {
        added_allocations(keys, existing, ports, now)
    }
}

/// The allocations a request answers with: the new unkeyed one, or one per
/// requested key in request order.
pub open spec fn answered_allocations(
    keys: Seq<Seq<char>>,
    existing: Seq<AllocationModel>,
    ports: Seq<u16>,
    now: Timestamp,
) -> Seq<AllocationModel> {
    if keys.len() == 0 {
        new_allocations(keys, existing, ports, now)
    } else {
        Seq::new(keys.len(), |j: int| requested_allocation(keys, j, existing, ports, now))
    }
}

/// The reservation after a request: created or updated, no longer missing,
/// with the requested expiration when one was given, and the new allocations
/// appended.
pub open spec fn reserved_reservation(
    previous: Option<ReservationModel>,
    id: u128,
    directory: Seq<char>,
    expires: Option<Option<Timestamp>>,
    added: Seq<AllocationModel>,
    now: Timestamp,
) -> ReservationModel {
    match previous {
        Some(r) => ReservationModel {
            missing_since: None,
            expires_at: match expires {
                Some(e) => e,
                None => r.expires_at,
            },
            allocations: r.allocations + added,
            ..r
        },
        None => ReservationModel {
            id,
            directory,
            created_at: now,
            expires_at: match expires {
                Some(e) => e,
                None => None,
            },
            missing_since: None,
            allocations: added,
        },
    }
}

pub open spec fn keyed_pairs(allocations: Seq<AllocationModel>) -> Seq<(Seq<char>, u16)>
    decreases allocations.len(),
{
    if allocations.len() == 0 {
        Seq::empty()
    } else {
        let rest = keyed_pairs(allocations.drop_last());
        match allocations.last().key {
            Some(k) => rest.push((k, allocations.last().port)),
            None => rest,
        }
    }
}

/// The answer of `reserve`.
#[derive(Debug)]
pub struct ReserveResult {
    pub directory: String,
    pub reservation_id: u128,
    pub expires_at: Option<Timestamp>,
    pub ports: Vec<u16>,
    pub allocations: Vec<Allocation>,
    /// Key and port of every keyed allocation in the answer.
    pub keyed_ports: Vec<(String, u16)>,
    pub reused_keys: Vec<String>,
}

pub open spec fn pair_views(pairs: Seq<(String, u16)>) -> Seq<(Seq<char>, u16)> {
    pairs.map_values(|p: (String, u16)| (p.0@, p.1))
}

pub(crate) proof fn lemma_new_key_count_prefix(keys: Seq<Seq<char>>, existing: Seq<AllocationModel>, j: int)
    requires
        0 <= j < keys.len(),
    ensures
        new_key_count(keys.take(j), existing) + (if has_key(existing, keys[j]) {
            0nat
        } else {
            1nat
        }) == new_key_count(keys.take(j + 1), existing),
        new_key_count(keys.take(j + 1), existing) <= new_key_count(keys, existing),
    decreases keys.len() - j,
{
    assert(keys.take(j + 1).drop_last() =~= keys.take(j));
    assert(keys.take(j + 1).last() == keys[j]);
    if j + 1 < keys.len() {
        lemma_new_key_count_prefix(keys, existing, j + 1);
    } else {
        assert(keys.take(j + 1) =~= keys);
    }
}

/// Adds the allocations of a planned request on the selected `ports` and
/// answers it. `expires` is the requested expiration when `--expires` was
/// given.
pub fn apply_reserve(
    registry: &mut Registry,
    plan: &ReservePlan,
    directory: &String,
    keys: &Vec<String>,
    ports: &Vec<u16>,
    expires: Option<Option<Timestamp>>,
    now: Timestamp,
) -> (result: ReserveResult)
    requires
        plan_matches(*plan, old(registry)@, directory@, texts(keys@)),
        ports@.len() == plan.allocation_count,
    ensures
        ({
            let before = old(registry)@.reservations;
            let existing = existing_allocations(before, plan.existing);
            let ks = texts(keys@);
            let added = new_allocations(ks, existing, ports@, now);
            let previous = match plan.existing {
                Some(i) => Some(before[i as int]),
                None => None,
            };
            let updated = reserved_reservation(
                previous,
                result.reservation_id,
                directory@,
                expires,
                added,
                now,
            );
            let answered = answered_allocations(ks, existing, ports@, now);
            &&& final(registry)@.reservations == match plan.existing {
                Some(i) => before.update(i as int, updated),
                None => before.push(updated),
            }
            &&& final(registry)@.leases == old(registry)@.leases
            &&& final(registry)@.schema_version == old(registry)@.schema_version
            &&& final(registry)@.cleanup_trigger == old(registry)@.cleanup_trigger
            &&& result.directory@ == updated.directory
            &&& result.reservation_id == updated.id
            &&& result.expires_at == updated.expires_at
            &&& allocation_models(result.allocations@) == answered
            &&& result.ports@ == answered.map_values(|a: AllocationModel| a.port)
            &&& pair_views(result.keyed_ports@) == keyed_pairs(answered)
            &&& texts(result.reused_keys@) == reused_key_list(ks, existing)
        }),
{
    let ghost before = registry@.reservations;
    let ghost ks = texts(keys@);
    let ghost existing = existing_allocations(before, plan.existing);
    let mut reservation = match plan.existing {
        Some(e) => {
            assert(before[e as int] == registry.reservations@[e as int]@);
            registry.reservations[e].clone()
        },
        None => Reservation {
            id: new_uuid(),
            directory: directory.clone(),
            created_at: now,
            expires_at: match expires {
                Some(e) => e,
                None => None,
            },
            missing_since: None,
            allocations: Vec::new(),
        },
    };
    let ghost start = reservation@;
    assert(reservation@.allocations == existing || plan.existing is None);
    reservation.missing_since = None;
    if let Some(e) = expires {
        reservation.expires_at = e;
    }
    let ghost fixed = reservation@;
    let mut answered: Vec<Allocation> = Vec::new();
    let mut reused: Vec<String> = Vec::new();
    if keys.len() == 0 {
        let allocation = Allocation { port: ports[0], key: None, created_at: now };
        answered.push(allocation.clone());
        let ghost base_allocs = reservation.allocations@;
        reservation.allocations.push(allocation);
        proof {
            assert(allocation_models(answered@) =~= new_allocations(ks, existing, ports@, now));
            assert(allocation_models(reservation.allocations@) =~= allocation_models(base_allocs).push(
                allocation@,
            ));
        }
    } else {
        let ghost base_allocs = allocation_models(reservation.allocations@);
        let total = ports.len();
        let mut n: usize = 0;
        let mut j: usize = 0;
        while j < keys.len()
            invariant
                j <= keys@.len(),
                keys@.len() > 0,
                ks == texts(keys@),
                ports@.len() == new_key_count(ks, existing),
                total == ports@.len(),
                n == new_key_count(ks.take(j as int), existing),
                n <= ports@.len(),
                registry.reservations@ == old(registry).reservations@,
                reservation@.id == fixed.id,
                reservation@.directory == fixed.directory,
                reservation@.created_at == fixed.created_at,
                reservation@.expires_at == fixed.expires_at,
                reservation@.missing_since == fixed.missing_since,
                plan.existing matches Some(e) ==> e < old(registry).reservations@.len() && existing
                    == allocation_models(old(registry).reservations@[e as int].allocations@),
                plan.existing is None ==> existing == Seq::<AllocationModel>::empty(),
                allocation_models(reservation.allocations@) == base_allocs + added_allocations(
                    ks.take(j as int),
                    existing,
                    ports@,
                    now,
                ),
                allocation_models(answered@) == Seq::new(
                    j as nat,
                    |k: int| requested_allocation(ks, k, existing, ports@, now),
                ),
                texts(reused@) == reused_key_list(ks.take(j as int), existing),
            decreases keys@.len() - j,
        {
            proof {
                lemma_new_key_count_prefix(ks, existing, j as int);
                lemma_key_index(existing, ks[j as int]);
                assert(ks.take(j + 1).drop_last() =~= ks.take(j as int));
                assert(ks.take(j + 1).last() == ks[j as int]);
                assert(ks[j as int] == keys@[j as int]@);
            }
            let found = match plan.existing {
                Some(e) => find_key(&registry.reservations[e].allocations, &keys[j]),
                None => None,
            };
            let ghost answered_before = allocation_models(answered@);
            let ghost allocs_before = allocation_models(reservation.allocations@);
            match found {
                Some(index) => {
                    let e = plan.existing.unwrap();
                    let allocation = registry.reservations[e].allocations[index].clone();
                    answered.push(allocation);
                    let ghost reused_before = texts(reused@);
                    reused.push(keys[j].clone());
                    proof {
                        assert(texts(reused@) =~= reused_before.push(keys@[j as int]@));
                        assert(allocation_models(answered@) =~= answered_before.push(allocation@));
                        assert(allocation_models(answered@) =~= Seq::new(
                            (j + 1) as nat,
                            |k: int| requested_allocation(ks, k, existing, ports@, now),
                        ));
                        assert(added_allocations(ks.take(j + 1), existing, ports@, now)
                            == added_allocations(ks.take(j as int), existing, ports@, now));
                    }
                },
                None => {
                    let allocation = Allocation {
                        port: ports[n],
                        key: Some(keys[j].clone()),
                        created_at: now,
                    };
                    answered.push(allocation.clone());
                    reservation.allocations.push(allocation);
                    n = n + 1;
                    proof {
                        assert(allocation_models(answered@) =~= answered_before.push(allocation@));
                        assert(allocation_models(answered@) =~= Seq::new(
                            (j + 1) as nat,
                            |k: int| requested_allocation(ks, k, existing, ports@, now),
                        ));
                        assert(allocation_models(reservation.allocations@) =~= allocs_before.push(
                            allocation@,
                        ));
                        assert(added_allocations(ks.take(j + 1), existing, ports@, now)
                            =~= added_allocations(ks.take(j as int), existing, ports@, now).push(
                            allocation@,
                        ));
                    }
                },
            }
            j = j + 1;
        }
        proof {
            assert(ks.take(j as int) =~= ks);
        }
    }
    let mut ports_out: Vec<u16> = Vec::new();
    let mut pairs: Vec<(String, u16)> = Vec::new();
    let ghost answered_models = allocation_models(answered@);
    let mut k: usize = 0;
    while k < answered.len()
        invariant
            k <= answered@.len(),
            answered_models == allocation_models(answered@),
            ports_out@ =~= answered_models.take(k as int).map_values(|a: AllocationModel| a.port),
            pair_views(pairs@) == keyed_pairs(answered_models.take(k as int)),
        decreases answered@.len() - k,
    {
        let allocation = &answered[k];
        ports_out.push(allocation.port);
        proof {
            assert(answered_models.take(k + 1).drop_last() =~= answered_models.take(k as int));
            assert(answered_models.take(k + 1).last() == allocation@);
        }
        match &allocation.key {
            Some(key) => {
                let ghost pairs_before = pair_views(pairs@);
                pairs.push((key.clone(), allocation.port));
                assert(pair_views(pairs@) =~= pairs_before.push((key@, allocation.port)));
            },
            None => {},
        }
        k = k + 1;
    }
    assert(answered_models.take(k as int) =~= answered_models);
    let result = ReserveResult {
        directory: reservation.directory.clone(),
        reservation_id: reservation.id,
        expires_at: reservation.expires_at,
        ports: ports_out,
        allocations: answered,
        keyed_ports: pairs,
        reused_keys: reused,
    };
    let ghost final_reservation = reservation@;
    proof {
        let added = new_allocations(ks, existing, ports@, now);
        let previous = match plan.existing {
            Some(i) => Some(before[i as int]),
            None => None,
        };
        let updated = reserved_reservation(previous, result.reservation_id, directory@, expires, added, now);
        assert(final_reservation.allocations =~= updated.allocations);
        assert(final_reservation.id == updated.id);
        assert(final_reservation.directory == updated.directory);
        assert(final_reservation.expires_at == updated.expires_at);
        assert(final_reservation.created_at == updated.created_at);
        assert(final_reservation == updated);
    }
    match plan.existing {
        Some(e) => {
            registry.reservations.set(e, reservation);
            assert(reservation_models(registry.reservations@) =~= before.update(
                e as int,
                final_reservation,
            ));
        },
        None => {
            registry.reservations.push(reservation);
            assert(reservation_models(registry.reservations@) =~= before.push(final_reservation));
        },
    }
    result
}

// ---------------------------------------------------------------------
// Sorted port lists
// ---------------------------------------------------------------------
/// Adds `port` to a strictly increasing list unless it is already there.
pub(crate) fn insert_sorted_unique(ports: &mut Vec<u16>, port: u16)
    requires
        crate::socket::strictly_increasing(old(ports)@),
    ensures
        crate::socket::strictly_increasing(final(ports)@),
        final(ports)@.to_set() == old(ports)@.to_set().insert(port),
{
    let mut i: usize = 0;
    while i < ports.len() && ports[i] < port
        invariant
            i <= ports@.len(),
            forall|k: int| 0 <= k < i ==> ports@[k] < port,
        decreases ports@.len() - i,
    {
        i = i + 1;
    }
    if i < ports.len() && ports[i] == port {
        assert(old(ports)@.to_set().insert(port) =~= old(ports)@.to_set()) by {
            assert(old(ports)@.contains(port));
        }
        return;
    }
    let ghost before = ports@;
    ports.insert(i, port);
    proof {
        assert forall|a: int, b: int| 0 <= a < b < ports@.len() implies ports@[a] < ports@[b] by {
            if b < i {
            } else if a < i && b == i {
            } else if a < i {
                assert(ports@[b] == before[b - 1]);
                assert(before[a] < before[b - 1] || a == b - 1);
            } else if a == i {
                assert(ports@[b] == before[b - 1]);
                assert(before[i as int] > port);
                assert(before[i as int] <= before[b - 1]);
            } else {
                assert(ports@[a] == before[a - 1]);
                assert(ports@[b] == before[b - 1]);
            }
        }
        assert forall|x: u16| ports@.to_set().contains(x) <==> before.to_set().insert(port).contains(
            x,
        ) by {
            if ports@.contains(x) {
                let k = choose|k: int| 0 <= k < ports@.len() && ports@[k] == x;
                if k < i {
                    assert(before[k] == x);
                } else if k > i {
                    assert(before[k - 1] == x);
                }
            }
            if before.contains(x) {
                let k = choose|k: int| 0 <= k < before.len() && before[k] == x;
                if k < i {
                    assert(ports@[k] == x);
                } else {
                    assert(ports@[k + 1] == x);
                }
            }
            if x == port {
                assert(ports@[i as int] == x);
            }
        }
        assert(ports@.to_set() =~= before.to_set().insert(port));
    }
}

// ---------------------------------------------------------------------
// release
// ---------------------------------------------------------------------
/// The answer of a directory release.
#[derive(Debug)]
pub struct ReleaseResult {
    pub directory: String,
    pub ports: Vec<u16>,
    pub released: usize,
}

/// The answer of a release by port.
#[derive(Debug)]
pub struct ReleasePortsResult {
    pub ports: Vec<u16>,
    pub released: usize,
}

/// The allocations whose port is not in `ports`, in order.
pub open spec fn allocations_without(allocations: Seq<AllocationModel>, ports: Set<u16>) -> Seq<AllocationModel>
    decreases allocations.len(),
{
    if allocations.len() == 0 {
        Seq::empty()
    } else {
        let rest = allocations_without(allocations.drop_last(), ports);
        if ports.contains(allocations.last().port) {
            rest
        } else {
            rest.push(allocations.last())
        }
    }
}

pub open spec fn allocation_port_set(allocations: Seq<AllocationModel>) -> Set<u16> {
    allocations.map_values(|a: AllocationModel| a.port).to_set()
}

/// The keys among `keys` that `allocations` lack.
pub open spec fn missing_keys(keys: Seq<Seq<char>>, allocations: Seq<AllocationModel>) -> bool {
    exists|i: int| 0 <= i < keys.len() && !has_key(allocations, #[trigger] keys[i])
}

/// The keys without an allocation, in request order, separated by a comma
/// and a space.
pub open spec fn missing_key_text(keys: Seq<Seq<char>>, allocations: Seq<AllocationModel>) -> Seq<
    char,
>
    decreases keys.len(),
{
    if keys.len() == 0 {
        Seq::empty()
    } else {
        let earlier = keys.drop_last();
        if has_key(allocations, keys.last()) {
            missing_key_text(earlier, allocations)
        } else if missing_keys(earlier, allocations) {
            missing_key_text(earlier, allocations) + ", "@ + keys.last()
        } else {
            keys.last()
        }
    }
}

proof fn lemma_no_missing_text(keys: Seq<Seq<char>>, allocations: Seq<AllocationModel>)
    requires
        !missing_keys(keys, allocations),
    ensures
        missing_key_text(keys, allocations).len() == 0,
    decreases keys.len(),
{
    if keys.len() > 0 {
        let earlier = keys.drop_last();
        assert(has_key(allocations, keys[keys.len() - 1]));
        assert(!missing_keys(earlier, allocations)) by {
            if missing_keys(earlier, allocations) {
                let i = choose|i: int|
                    0 <= i < earlier.len() && !has_key(allocations, #[trigger] earlier[i]);
                assert(earlier[i] == keys[i]);
            }
        }
        lemma_no_missing_text(earlier, allocations);
    }
}

/// The ports that a keyed release frees: those of the keys' allocations.
pub open spec fn key_ports(keys: Seq<Seq<char>>, allocations: Seq<AllocationModel>) -> Set<u16> {
    Set::new(
        |p: u16|
            exists|i: int|
                0 <= i < keys.len() && has_key(allocations, #[trigger] keys[i]) && allocations[key_index(
                    allocations,
                    keys[i],
                )].port == p,
    )
}

/// The reservations after a directory release of reservation `index`.
pub open spec fn released_reservations(
    reservations: Seq<ReservationModel>,
    index: int,
    keys: Seq<Seq<char>>,
) -> Seq<ReservationModel> {
    if keys.len() == 0 {
        reservations.remove(index)
    } else {
        let r = reservations[index];
        let remaining = allocations_without(r.allocations, key_ports(keys, r.allocations));
        if remaining.len() == 0 {
            reservations.remove(index)
        } else {
            reservations.update(index, ReservationModel { allocations: remaining, ..r })
        }
    }
}

/// The ports a directory release frees.
pub open spec fn released_ports(reservation: ReservationModel, keys: Seq<Seq<char>>) -> Set<u16> {
    if keys.len() == 0 {
        allocation_port_set(reservation.allocations)
    } else {
        key_ports(keys, reservation.allocations)
    }
}

pub(crate) fn reservation_not_found(directory: &str) -> (error: PortaError)
    ensures
        has_code(error, "reservation_not_found"@, 1),
        says(error, "No reservation exists for "@ + directory@),
{
    let mut message = String::from_str("No reservation exists for ");
    message.append(directory);
    PortaError::missing("reservation_not_found", message)
}

/// Keeps the allocations whose port is not in `ports`.
fn retain_allocations(allocations: &Vec<Allocation>, ports: &Vec<u16>) -> (kept: Vec<Allocation>)
    ensures
        allocation_models(kept@) == allocations_without(allocation_models(allocations@), ports@.to_set()),
{
    let ghost models = allocation_models(allocations@);
    let mut kept: Vec<Allocation> = Vec::new();
    let mut i: usize = 0;
    while i < allocations.len()
        invariant
            i <= allocations@.len(),
            models == allocation_models(allocations@),
            allocation_models(kept@) == allocations_without(models.take(i as int), ports@.to_set()),
        decreases allocations@.len() - i,
    {
        let allocation = &allocations[i];
        proof {
            assert(models.take(i + 1).drop_last() =~= models.take(i as int));
            assert(models.take(i + 1).last() == allocation@);
        }
        if !contains_port(ports, allocation.port) {
            let ghost before = allocation_models(kept@);
            let copy = allocation.clone();
            kept.push(copy);
            assert(allocation_models(kept@) =~= before.push(copy@));
        }
        i = i + 1;
    }
    assert(models.take(i as int) =~= models);
    kept
}

pub(crate) fn contains_port(ports: &Vec<u16>, port: u16) -> (present: bool)
    ensures
        present == ports@.to_set().contains(port),
{
    let mut i: usize = 0;
    while i < ports.len()
        invariant
            i <= ports@.len(),
            forall|k: int| 0 <= k < i ==> ports@[k] != port,
        decreases ports@.len() - i,
    {
        if ports[i] == port {
            assert(ports@.contains(port));
            return true;
        }
        i = i + 1;
    }
    false
}

/// Releases the whole reservation of `directory`, or only the allocations of
/// `keys`. Fails with `reservation_not_found` when the directory has no
/// reservation and with `key_not_found`, changing nothing, when a key has no
/// allocation. A reservation left without allocations is removed.
pub fn release_keys(registry: &mut Registry, directory: &str, keys: &Vec<String>) -> (result:
    PortaResult<ReleaseResult>)
    ensures
        match result {
            Ok(released) => exists|index: int|
                {
                    &&& reservation_at(old(registry)@.reservations, directory@, index)
                    &&& !(texts(keys@).len() > 0 && missing_keys(
                        texts(keys@),
                        old(registry)@.reservations[index].allocations,
                    ))
                    &&& final(registry)@.reservations == released_reservations(
                        old(registry)@.reservations,
                        index,
                        texts(keys@),
                    )
                    &&& released.ports@.to_set() == released_ports(
                        old(registry)@.reservations[index],
                        texts(keys@),
                    )
                } && final(registry)@.leases == old(registry)@.leases
                && final(registry)@.schema_version == old(registry)@.schema_version
                && final(registry)@.cleanup_trigger == old(registry)@.cleanup_trigger
                && crate::socket::strictly_increasing(released.ports@) && released.released
                == released.ports@.len() && released.directory@ == directory@,
            Err(error) => final(registry)@ == old(registry)@ && (if no_reservation(
                old(registry)@.reservations,
                directory@,
            ) {
                has_code(error, "reservation_not_found"@, 1) && says(
                    error,
                    "No reservation exists for "@ + directory@,
                )
            } else {
                &&& has_code(error, "key_not_found"@, 1)
                &&& exists|index: int|
                    {
                        &&& reservation_at(old(registry)@.reservations, directory@, index)
                        &&& texts(keys@).len() > 0
                        &&& missing_keys(
                            texts(keys@),
                            #[trigger] old(registry)@.reservations[index].allocations,
                        )
                        &&& says(
                            error,
                            "No port is reserved for key(s): "@ + missing_key_text(
                                texts(keys@),
                                old(registry)@.reservations[index].allocations,
                            ),
                        )
                    }
            }),
        },
{
    let index = match find_reservation(registry, directory) {
        Some(i) => i,
        None => return Err(reservation_not_found(directory)),
    };
    let ghost before = registry@.reservations;
    let ghost ks = texts(keys@);
    let allocations = &registry.reservations[index].allocations;
    let ghost models = allocation_models(allocations@);
    assert(before[index as int].allocations == models);
    let mut ports: Vec<u16> = Vec::new();
    if keys.len() == 0 {
        let mut i: usize = 0;
        while i < allocations.len()
            invariant
                i <= allocations@.len(),
                models == allocation_models(allocations@),
                crate::socket::strictly_increasing(ports@),
                ports@.to_set() == models.take(i as int).map_values(|a: AllocationModel| a.port).to_set(),
            decreases allocations@.len() - i,
        {
            insert_sorted_unique(&mut ports, allocations[i].port);
            proof {
                let f = |a: AllocationModel| a.port;
                assert(models.take(i + 1).map_values(f) =~= models.take(i as int).map_values(f).push(
                    models[i as int].port,
                ));
                models.take(i as int).map_values(f).lemma_push_to_set_commute(models[i as int].port);
            }
            i = i + 1;
        }
        assert(models.take(i as int) =~= models);
        registry.reservations.remove(index);
        assert(reservation_models(registry.reservations@) =~= before.remove(index as int));
    } else {
        let mut missing = String::new();
        let mut any_missing = false;
        let mut j: usize = 0;
        while j < keys.len()
            invariant
                j <= keys@.len(),
                ks == texts(keys@),
                models == allocation_models(allocations@),
                crate::socket::strictly_increasing(ports@),
                any_missing == exists|i: int| 0 <= i < j && !has_key(models, #[trigger] ks[i]),
                missing@ == missing_key_text(ks.take(j as int), models),
                !any_missing ==> ports@.to_set() == Set::new(
                    |p: u16|
                        exists|i: int|
                            0 <= i < j && has_key(models, #[trigger] ks[i]) && models[key_index(
                                models,
                                ks[i],
                            )].port == p,
                ),
            decreases keys@.len() - j,
        {
            proof {
                lemma_key_index(models, ks[j as int]);
                assert(ks[j as int] == keys@[j as int]@);
                assert(ks.take(j + 1).drop_last() =~= ks.take(j as int));
                assert(ks.take(j + 1).last() == ks[j as int]);
                assert(missing_keys(ks.take(j as int), models) == any_missing) by {
                    if any_missing {
                        let i = choose|i: int| 0 <= i < j && !has_key(models, #[trigger] ks[i]);
                        assert(ks.take(j as int)[i] == ks[i]);
                    }
                    if missing_keys(ks.take(j as int), models) {
                        let i = choose|i: int|
                            0 <= i < j && !has_key(models, #[trigger] ks.take(j as int)[i]);
                        assert(ks.take(j as int)[i] == ks[i]);
                    }
                }
            }
            let ghost shown = missing@;
            match find_key(allocations, &keys[j]) {
                Some(k) => {
                    let ghost set_before = ports@.to_set();
                    insert_sorted_unique(&mut ports, allocations[k].port);
                    proof {
                        if !any_missing {
                            assert(ports@.to_set() =~= Set::new(
                                |p: u16|
                                    exists|i: int|
                                        0 <= i < j + 1 && has_key(models, #[trigger] ks[i])
                                            && models[key_index(models, ks[i])].port == p,
                            )) by {
                                assert forall|p: u16| ports@.to_set().contains(p) implies exists|
                                    i: int,
                                |
                                    0 <= i < j + 1 && has_key(models, #[trigger] ks[i]) && models[key_index(
                                        models,
                                        ks[i],
                                    )].port == p by {
                                    if p == models[k as int].port {
                                        assert(has_key(models, ks[j as int]));
                                    } else {
                                        assert(set_before.contains(p));
                                    }
                                }
                                assert forall|p: u16|
                                    (exists|i: int|
                                        0 <= i < j + 1 && has_key(models, #[trigger] ks[i])
                                            && models[key_index(models, ks[i])].port
                                            == p) implies ports@.to_set().contains(p) by {
                                    let i = choose|i: int|
                                        0 <= i < j + 1 && has_key(models, #[trigger] ks[i])
                                            && models[key_index(models, ks[i])].port == p;
                                    if i < j {
                                        assert(set_before.contains(p));
                                    }
                                }
                            }
                        }
                    }
                },
                None => {
                    if any_missing {
                        missing.append(", ");
                    }
                    missing.append(keys[j].as_str());
                    proof {
                        if !any_missing {
                            assert(missing@ =~= shown + ks[j as int]);
                            assert(shown.len() == 0) by {
                                lemma_no_missing_text(ks.take(j as int), models);
                            }
                            assert(missing@ =~= ks[j as int]);
                        }
                    }
                    any_missing = true;
                },
            }
            j = j + 1;
        }
        assert(ks.take(j as int) =~= ks);
        if any_missing {
            let mut message = String::from_str("No port is reserved for key(s): ");
            message.append(missing.as_str());
            return Err(PortaError::missing("key_not_found", message));
        }
        assert(ports@.to_set() =~= key_ports(ks, models));
        let kept = retain_allocations(allocations, &ports);
        if kept.len() == 0 {
            registry.reservations.remove(index);
            assert(reservation_models(registry.reservations@) =~= before.remove(index as int));
        } else {
            let mut updated = registry.reservations[index].clone();
            updated.allocations = kept;
            let ghost updated_model = updated@;
            registry.reservations.set(index, updated);
            assert(reservation_models(registry.reservations@) =~= before.update(
                index as int,
                updated_model,
            ));
        }
    }
    let released = ports.len();
    let directory_text = String::from_str(directory);
    Ok(ReleaseResult { directory: directory_text, ports, released })
}

// ---------------------------------------------------------------------
// release by port
// ---------------------------------------------------------------------
/// A release by port names at least one port (`invalid_arguments`), no port
/// zero (`invalid_port`) and no port twice (`duplicate_port`).
pub fn validate_release_ports(ports: &Vec<u16>) -> (result: PortaResult<()>)
    ensures
        match result {
            Ok(()) => ports@.len() > 0 && !ports@.contains(0u16) && ports@.no_duplicates(),
            Err(error) => if ports@.len() == 0 {
                has_code(error, "invalid_arguments"@, 2) && says(
                    error,
                    "At least one port is required"@,
                )
            } else if ports@.contains(0u16) {
                has_code(error, "invalid_port"@, 2) && says(
                    error,
                    "Port must be between 1 and 65535"@,
                )
            } else {
                &&& !ports@.no_duplicates()
                &&& has_code(error, "duplicate_port"@, 2)
                &&& says(error, "The same port cannot be requested more than once"@)
            },
        },
{
    if ports.len() == 0 {
        return Err(
            PortaError::invalid(
                "invalid_arguments",
                String::from_str("At least one port is required"),
            ),
        );
    }
    if contains_port(ports, 0) {
        return Err(
            PortaError::invalid("invalid_port", String::from_str("Port must be between 1 and 65535")),
        );
    }
    let mut seen = PortSet::new();
    let mut i: usize = 0;
    while i < ports.len()
        invariant
            i <= ports@.len(),
            ports@.len() > 0,
            !ports@.contains(0u16),
            seen@ == ports@.take(i as int).to_set(),
            ports@.take(i as int).no_duplicates(),
        decreases ports@.len() - i,
    {
        let port = ports[i];
        if seen.contains(port) {
            proof {
                assert(ports@.take(i as int).contains(port));
                let k = choose|k: int| 0 <= k < i && ports@.take(i as int)[k] == port;
                assert(ports@[k] == ports@[i as int] && k != i);
                assert(!ports@.no_duplicates());
            }
            return Err(
                PortaError::invalid(
                    "duplicate_port",
                    String::from_str("The same port cannot be requested more than once"),
                ),
            );
        }
        seen = seen.insert(port);
        proof {
            assert(ports@.take(i + 1) =~= ports@.take(i as int).push(port));
            ports@.take(i as int).lemma_push_to_set_commute(port);
        }
        i = i + 1;
    }
    assert(ports@.take(i as int) =~= ports@);
    Ok(())
}

/// The leases whose port is not in `ports`, in order.
pub open spec fn leases_without(leases: Seq<LeaseModel>, ports: Set<u16>) -> Seq<LeaseModel>
    decreases leases.len(),
{
    if leases.len() == 0 {
        Seq::empty()
    } else {
        let rest = leases_without(leases.drop_last(), ports);
        if ports.contains(leases.last().port) {
            rest
        } else {
            rest.push(leases.last())
        }
    }
}

/// The reservations after releasing `ports`: their allocations on those ports
/// go, and the reservations left without allocations go too.
pub open spec fn reservations_without(reservations: Seq<ReservationModel>, ports: Set<u16>) -> Seq<
    ReservationModel,
>
    decreases reservations.len(),
{
    if reservations.len() == 0 {
        Seq::empty()
    } else {
        let rest = reservations_without(reservations.drop_last(), ports);
        let r = reservations.last();
        let kept = allocations_without(r.allocations, ports);
        if kept.len() == 0 {
            rest
        } else {
            rest.push(ReservationModel { allocations: kept, ..r })
        }
    }
}

/// Some requested port is neither leased nor allocated.
pub open spec fn has_unregistered(ports: Seq<u16>, registry: RegistryModel) -> bool {
    exists|i: int| 0 <= i < ports.len() && !port_list(registry).contains(#[trigger] ports[i])
}

/// The requested ports that no lease or allocation of `registry` holds.
pub open spec fn unregistered_ports(ports: Seq<u16>, registry: RegistryModel) -> Set<u16> {
    ports.to_set().filter(|p: u16| !port_list(registry).contains(p))
}

/// Ports spelled in decimal and separated by a comma and a space.
pub open spec fn port_list_text(ports: Seq<u16>) -> Seq<char>
    decreases ports.len(),
{
    if ports.len() == 0 {
        Seq::empty()
    } else if ports.len() == 1 {
        decimal_text(ports[0] as nat)
    } else {
        port_list_text(ports.drop_last()) + ", "@ + decimal_text(ports.last() as nat)
    }
}

/// Releases exactly `ports`, whoever holds them: leases on them end,
/// allocations on them go, and reservations left empty are removed. Fails,
/// changing nothing, on an invalid request and with `port_not_found` when a
/// port is not registered.
pub fn release_ports(registry: &mut Registry, ports: &Vec<u16>) -> (result: PortaResult<
    ReleasePortsResult,
>)
    ensures
        match result {
            Ok(released) => {
                &&& ports@.len() > 0 && !ports@.contains(0u16) && ports@.no_duplicates()
                &&& !has_unregistered(ports@, old(registry)@)
                &&& final(registry)@.leases == leases_without(old(registry)@.leases, ports@.to_set())
                &&& final(registry)@.reservations == reservations_without(
                    old(registry)@.reservations,
                    ports@.to_set(),
                )
                &&& final(registry)@.schema_version == old(registry)@.schema_version
                &&& final(registry)@.cleanup_trigger == old(registry)@.cleanup_trigger
                &&& crate::socket::strictly_increasing(released.ports@)
                &&& released.ports@.to_set() == ports@.to_set()
                &&& released.released == released.ports@.len()
                &&& released.ports@.len() == ports@.len()
            },
            Err(error) => final(registry)@ == old(registry)@ && if ports@.len() == 0 {
                has_code(error, "invalid_arguments"@, 2) && says(
                    error,
                    "At least one port is required"@,
                )
            } else if ports@.contains(0u16) {
                has_code(error, "invalid_port"@, 2) && says(
                    error,
                    "Port must be between 1 and 65535"@,
                )
            } else if !ports@.no_duplicates() {
                has_code(error, "duplicate_port"@, 2) && says(
                    error,
                    "The same port cannot be requested more than once"@,
                )
            } else {
                &&& has_unregistered(ports@, old(registry)@)
                &&& has_code(error, "port_not_found"@, 1)
                &&& exists|missing: Seq<u16>|
                    {
                        &&& crate::socket::strictly_increasing(missing)
                        &&& missing.to_set() == unregistered_ports(ports@, old(registry)@)
                        &&& says(
                            error,
                            "No reservation or lease exists for port(s): "@ + port_list_text(
                                missing,
                            ),
                        )
                    }
            },
        },
{
    validate_release_ports(ports)?;
    let used = registry.used_ports();
    let mut missing: Vec<u16> = Vec::new();
    let mut i: usize = 0;
    while i < ports.len()
        invariant
            i <= ports@.len(),
            used@ == port_list(registry@),
            crate::socket::strictly_increasing(missing@),
            (missing@.len() == 0) == (forall|k: int|
                0 <= k < i ==> used@.contains(#[trigger] ports@[k])),
            missing@.to_set() == ports@.take(i as int).to_set().filter(
                |p: u16| !used@.contains(p),
            ),
        decreases ports@.len() - i,
    {
        let ghost before = missing@.to_set();
        let port = ports[i];
        proof {
            assert(ports@.take(i + 1) =~= ports@.take(i as int).push(port));
            ports@.take(i as int).lemma_push_to_set_commute(port);
        }
        if !contains_port(&used, port) {
            insert_sorted_unique(&mut missing, port);
            assert(missing@.to_set().contains(ports@[i as int]));
            assert(missing@.to_set() =~= ports@.take(i + 1).to_set().filter(
                |p: u16| !used@.contains(p),
            ));
        } else {
            assert(missing@.to_set() =~= ports@.take(i + 1).to_set().filter(
                |p: u16| !used@.contains(p),
            ));
        }
        i = i + 1;
    }
    assert(ports@.take(i as int) =~= ports@);
    if missing.len() > 0 {
        let ghost prefix = "No reservation or lease exists for port(s): "@;
        let mut message = String::from_str("No reservation or lease exists for port(s): ");
        let mut j: usize = 0;
        assert(missing@.take(0) =~= Seq::<u16>::empty());
        assert(prefix + port_list_text(missing@.take(0)) =~= prefix);
        while j < missing.len()
            invariant
                j <= missing@.len(),
                message@ == prefix + port_list_text(missing@.take(j as int)),
            decreases missing@.len() - j,
        {
            let ghost shown = message@;
            assert(missing@.take(j + 1).drop_last() =~= missing@.take(j as int));
            assert(missing@.take(j + 1).last() == missing@[j as int]);
            if j > 0 {
                message.append(", ");
            }
            let number = decimal_string(missing[j] as u64);
            message.append(number.as_str());
            proof {
                if j == 0 {
                    assert(port_list_text(missing@.take(1)) == decimal_text(missing@[0] as nat));
                    assert(shown =~= prefix);
                } else {
                    assert(shown + ", "@ + decimal_text(missing@[j as int] as nat) =~= prefix
                        + port_list_text(missing@.take(j + 1)));
                }
            }
            j = j + 1;
        }
        assert(missing@.take(j as int) =~= missing@);
        assert(missing@.to_set() == unregistered_ports(ports@, registry@));
        return Err(PortaError::missing("port_not_found", message));
    }
    let ghost requested = ports@.to_set();
    let ghost old_leases = registry@.leases;
    let ghost old_reservations = registry@.reservations;
    let mut leases: Vec<OpenLease> = Vec::new();
    let mut l: usize = 0;
    while l < registry.open_leases.len()
        invariant
            l <= registry.open_leases@.len(),
            old_leases == lease_models(registry.open_leases@),
            requested == ports@.to_set(),
            lease_models(leases@) == leases_without(old_leases.take(l as int), requested),
        decreases registry.open_leases@.len() - l,
    {
        let lease = &registry.open_leases[l];
        proof {
            assert(old_leases.take(l + 1).drop_last() =~= old_leases.take(l as int));
            assert(old_leases.take(l + 1).last() == lease@);
        }
        if !contains_port(ports, lease.port) {
            let ghost before = leases@;
            let copy = lease.clone();
            leases.push(copy);
            assert(lease_models(leases@) =~= lease_models(before).push(copy@));
        }
        l = l + 1;
    }
    assert(old_leases.take(l as int) =~= old_leases);
    let mut reservations: Vec<Reservation> = Vec::new();
    let mut r: usize = 0;
    while r < registry.reservations.len()
        invariant
            r <= registry.reservations@.len(),
            old_reservations == reservation_models(registry.reservations@),
            requested == ports@.to_set(),
            reservation_models(reservations@) == reservations_without(
                old_reservations.take(r as int),
                requested,
            ),
        decreases registry.reservations@.len() - r,
    {
        let reservation = &registry.reservations[r];
        proof {
            assert(old_reservations.take(r + 1).drop_last() =~= old_reservations.take(r as int));
            assert(old_reservations.take(r + 1).last() == reservation@);
        }
        let kept = retain_allocations(&reservation.allocations, ports);
        if kept.len() > 0 {
            let mut copy = reservation.clone();
            copy.allocations = kept;
            let ghost before = reservations@;
            reservations.push(copy);
            assert(reservation_models(reservations@) =~= reservation_models(before).push(copy@));
        }
        r = r + 1;
    }
    assert(old_reservations.take(r as int) =~= old_reservations);
    registry.open_leases = leases;
    registry.reservations = reservations;
    let mut sorted: Vec<u16> = Vec::new();
    let mut k: usize = 0;
    while k < ports.len()
        invariant
            k <= ports@.len(),
            crate::socket::strictly_increasing(sorted@),
            sorted@.to_set() == ports@.take(k as int).to_set(),
        decreases ports@.len() - k,
    {
        insert_sorted_unique(&mut sorted, ports[k]);
        proof {
            assert(ports@.take(k + 1) =~= ports@.take(k as int).push(ports@[k as int]));
            ports@.take(k as int).lemma_push_to_set_commute(ports@[k as int]);
        }
        k = k + 1;
    }
    proof {
        assert(ports@.take(k as int) =~= ports@);
        lemma_increasing_no_duplicates(sorted@);
        sorted@.unique_seq_to_set();
        ports@.unique_seq_to_set();
    }
    let released = sorted.len();
    Ok(ReleasePortsResult { ports: sorted, released })
}

pub(crate) proof fn lemma_increasing_no_duplicates(ports: Seq<u16>)
    requires
        crate::socket::strictly_increasing(ports),
    ensures
        ports.no_duplicates(),
{
    assert forall|i: int, j: int| 0 <= i < ports.len() && 0 <= j < ports.len() && i != j implies ports[i]
        != ports[j] by {
        if i < j {
            assert(ports[i] < ports[j]);
        } else {
            assert(ports[j] < ports[i]);
        }
    }
}

} // verus!
