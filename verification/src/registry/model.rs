//! The registry: open leases and directory reservations, with the invariants
//! every committed registry satisfies.
use vstd::prelude::*;
use vstd::string::*;

use crate::error::{PortaError, PortaResult};
use crate::paths::{is_absolute, is_absolute_path, paths_equal, same_path};
use crate::ports::PortSet;
use crate::timestamp::Timestamp;

verus! {

pub const REGISTRY_SCHEMA_VERSION: u32 = 2;

/// Largest automatic cleanup trigger.
pub const CLEANUP_TRIGGER_CAP: usize = 100;

#[derive(Clone, Copy, Debug)]
pub struct Maintenance {
    pub cleanup_trigger: usize,
}

/// One directory allocation: a port with an optional key.
#[derive(Debug)]
pub struct Allocation {
    pub port: u16,
    pub key: Option<String>,
    pub created_at: Timestamp,
}

/// A temporary, directory-independent claim on one port. `id` is the UUID as
/// a 128-bit number.
#[derive(Debug)]
pub struct OpenLease {
    pub id: u128,
    pub port: u16,
    pub key: Option<String>,
    pub created_at: Timestamp,
    pub expires_at: Timestamp,
}

/// All durable allocations of one directory.
#[derive(Debug)]
pub struct Reservation {
    pub id: u128,
    pub directory: String,
    pub created_at: Timestamp,
    pub expires_at: Option<Timestamp>,
    pub missing_since: Option<Timestamp>,
    pub allocations: Vec<Allocation>,
}

#[derive(Debug)]
pub struct Registry {
    pub schema_version: u32,
    pub maintenance: Maintenance,
    pub open_leases: Vec<OpenLease>,
    pub reservations: Vec<Reservation>,
}

/// A lease of a version 1 registry, which had no key.
#[derive(Debug)]
pub struct OpenLeaseV1 {
    pub id: u128,
    pub port: u16,
    pub created_at: Timestamp,
    pub expires_at: Timestamp,
}

/// A version 1 registry.
#[derive(Debug)]
pub struct RegistryV1 {
    pub schema_version: u32,
    pub maintenance: Maintenance,
    pub open_leases: Vec<OpenLeaseV1>,
    pub reservations: Vec<Reservation>,
}

pub struct AllocationModel {
    pub port: u16,
    pub key: Option<Seq<char>>,
    pub created_at: Timestamp,
}

pub struct LeaseModel {
    pub id: u128,
    pub port: u16,
    pub key: Option<Seq<char>>,
    pub created_at: Timestamp,
    pub expires_at: Timestamp,
}

pub struct ReservationModel {
    pub id: u128,
    pub directory: Seq<char>,
    pub created_at: Timestamp,
    pub expires_at: Option<Timestamp>,
    pub missing_since: Option<Timestamp>,
    pub allocations: Seq<AllocationModel>,
}

pub struct RegistryModel {
    pub schema_version: u32,
    pub cleanup_trigger: usize,
    pub leases: Seq<LeaseModel>,
    pub reservations: Seq<ReservationModel>,
}

pub open spec fn key_view(key: Option<String>) -> Option<Seq<char>> {
    match key {
        Some(k) => Some(k@),
        None => None,
    }
}

impl View for Allocation {
    type V = AllocationModel;

    open spec fn view(&self) -> AllocationModel {
        AllocationModel { port: self.port, key: key_view(self.key), created_at: self.created_at }
    }
}

impl View for OpenLease {
    type V = LeaseModel;

    open spec fn view(&self) -> LeaseModel {
        LeaseModel {
            id: self.id,
            port: self.port,
            key: key_view(self.key),
            created_at: self.created_at,
            expires_at: self.expires_at,
        }
    }
}

pub open spec fn allocation_models(allocations: Seq<Allocation>) -> Seq<AllocationModel> {
    allocations.map_values(|a: Allocation| a@)
}

impl View for Reservation {
    type V = ReservationModel;

    open spec fn view(&self) -> ReservationModel {
        ReservationModel {
            id: self.id,
            directory: self.directory@,
            created_at: self.created_at,
            expires_at: self.expires_at,
            missing_since: self.missing_since,
            allocations: allocation_models(self.allocations@),
        }
    }
}

pub open spec fn lease_models(leases: Seq<OpenLease>) -> Seq<LeaseModel> {
    leases.map_values(|l: OpenLease| l@)
}

pub open spec fn reservation_models(reservations: Seq<Reservation>) -> Seq<ReservationModel> {
    reservations.map_values(|r: Reservation| r@)
}

impl View for Registry {
    type V = RegistryModel;

    open spec fn view(&self) -> RegistryModel {
        RegistryModel {
            schema_version: self.schema_version,
            cleanup_trigger: self.maintenance.cleanup_trigger,
            leases: lease_models(self.open_leases@),
            reservations: reservation_models(self.reservations@),
        }
    }
}

pub fn clone_key(key: &Option<String>) -> (copy: Option<String>)
    ensures
        key_view(copy) == key_view(*key),
{
    match key {
        Some(k) => Some(k.clone()),
        None => None,
    }
}

impl Clone for Allocation {
    fn clone(&self) -> (copy: Self)
        ensures
            copy@ == self@,
    {
        Allocation { port: self.port, key: clone_key(&self.key), created_at: self.created_at }
    }
}

impl Clone for OpenLease {
    fn clone(&self) -> (copy: Self)
        ensures
            copy@ == self@,
    {
        OpenLease {
            id: self.id,
            port: self.port,
            key: clone_key(&self.key),
            created_at: self.created_at,
            expires_at: self.expires_at,
        }
    }
}

pub fn clone_allocations(allocations: &Vec<Allocation>) -> (copy: Vec<Allocation>)
    ensures
        allocation_models(copy@) == allocation_models(allocations@),
{
    let mut copy: Vec<Allocation> = Vec::new();
    let mut i: usize = 0;
    while i < allocations.len()
        invariant
            i <= allocations@.len(),
            allocation_models(copy@) == allocation_models(allocations@.take(i as int)),
        decreases allocations@.len() - i,
    {
        let ghost prev = copy@;
        let item = allocations[i].clone();
        copy.push(item);
        assert(allocation_models(copy@) =~= allocation_models(prev).push(item@));
        assert(allocations@.take(i + 1) =~= allocations@.take(i as int).push(allocations@[i as int]));
        assert(allocation_models(allocations@.take(i + 1)) =~= allocation_models(allocations@.take(i as int)).push(
            allocations@[i as int]@,
        ));
        i = i + 1;
    }
    assert(allocations@.take(allocations@.len() as int) =~= allocations@);
    copy
}

impl Clone for Reservation {
    fn clone(&self) -> (copy: Self)
        ensures
            copy@ == self@,
    {
        Reservation {
            id: self.id,
            directory: self.directory.clone(),
            created_at: self.created_at,
            expires_at: self.expires_at,
            missing_since: self.missing_since,
            allocations: clone_allocations(&self.allocations),
        }
    }
}

pub fn clone_leases(leases: &Vec<OpenLease>) -> (copy: Vec<OpenLease>)
    ensures
        lease_models(copy@) == lease_models(leases@),
{
    let mut copy: Vec<OpenLease> = Vec::new();
    let mut i: usize = 0;
    while i < leases.len()
        invariant
            i <= leases@.len(),
            lease_models(copy@) == lease_models(leases@.take(i as int)),
        decreases leases@.len() - i,
    {
        let ghost prev = copy@;
        let item = leases[i].clone();
        copy.push(item);
        assert(lease_models(copy@) =~= lease_models(prev).push(item@));
        assert(leases@.take(i + 1) =~= leases@.take(i as int).push(leases@[i as int]));
        assert(lease_models(leases@.take(i + 1)) =~= lease_models(leases@.take(i as int)).push(
            leases@[i as int]@,
        ));
        i = i + 1;
    }
    assert(leases@.take(leases@.len() as int) =~= leases@);
    copy
}

pub fn clone_reservations(reservations: &Vec<Reservation>) -> (copy: Vec<Reservation>)
    ensures
        reservation_models(copy@) == reservation_models(reservations@),
{
    let mut copy: Vec<Reservation> = Vec::new();
    let mut i: usize = 0;
    while i < reservations.len()
        invariant
            i <= reservations@.len(),
            reservation_models(copy@) == reservation_models(reservations@.take(i as int)),
        decreases reservations@.len() - i,
    {
        let ghost prev = copy@;
        let item = reservations[i].clone();
        copy.push(item);
        assert(reservation_models(copy@) =~= reservation_models(prev).push(item@));
        assert(reservations@.take(i + 1) =~= reservations@.take(i as int).push(reservations@[i as int]));
        assert(reservation_models(reservations@.take(i + 1)) =~= reservation_models(reservations@.take(i as int)).push(
            reservations@[i as int]@,
        ));
        i = i + 1;
    }
    assert(reservations@.take(reservations@.len() as int) =~= reservations@);
    copy
}

impl Clone for Registry {
    fn clone(&self) -> (copy: Self)
        ensures
            copy@ == self@,
    {
        Registry {
            schema_version: self.schema_version,
            maintenance: Maintenance { cleanup_trigger: self.maintenance.cleanup_trigger },
            open_leases: clone_leases(&self.open_leases),
            reservations: clone_reservations(&self.reservations),
        }
    }
}

// ---------------------------------------------------------------------
// Invariants
// ---------------------------------------------------------------------
/// A key, when present, is not empty.
pub open spec fn key_ok(key: Option<Seq<char>>) -> bool {
    key matches Some(k) ==> k.len() > 0
}

/// Two keys are the same present key.
pub open spec fn keys_clash(a: Option<Seq<char>>, b: Option<Seq<char>>) -> bool {
    a is Some && a == b
}

pub open spec fn lease_ok(lease: LeaseModel) -> bool {
    &&& key_ok(lease.key)
    &&& lease.expires_at.unix_nanos > lease.created_at.unix_nanos
    &&& lease.created_at.is_utc()
    &&& lease.expires_at.is_utc()
}

pub open spec fn allocation_ok(allocation: AllocationModel) -> bool {
    key_ok(allocation.key) && allocation.created_at.is_utc()
}

pub open spec fn allocation_keys_distinct(allocations: Seq<AllocationModel>) -> bool {
    forall|i: int, j: int|
        0 <= i < j < allocations.len() ==> !keys_clash(
            #[trigger] allocations[i].key,
            #[trigger] allocations[j].key,
        )
}

pub open spec fn reservation_ok(reservation: ReservationModel) -> bool {
    &&& is_absolute_path(reservation.directory)
    &&& reservation.allocations.len() > 0
    &&& (reservation.expires_at matches Some(e) ==> e.unix_nanos
        > reservation.created_at.unix_nanos)
    &&& reservation.created_at.is_utc()
    &&& (reservation.expires_at matches Some(e) ==> e.is_utc())
    &&& (reservation.missing_since matches Some(e) ==> e.is_utc())
    &&& (forall|i: int|
        0 <= i < reservation.allocations.len() ==> allocation_ok(
            #[trigger] reservation.allocations[i],
        ))
    &&& allocation_keys_distinct(reservation.allocations)
}

pub open spec fn lease_keys_distinct(leases: Seq<LeaseModel>) -> bool {
    forall|i: int, j: int|
        0 <= i < j < leases.len() ==> !keys_clash(#[trigger] leases[i].key, #[trigger] leases[j].key)
}

pub open spec fn directories_distinct(reservations: Seq<ReservationModel>) -> bool {
    forall|i: int, j: int|
        0 <= i < j < reservations.len() ==> !same_path(
            #[trigger] reservations[i].directory,
            #[trigger] reservations[j].directory,
        )
}

/// Every UUID in the registry, leases first.
pub open spec fn id_list(m: RegistryModel) -> Seq<u128> {
    m.leases.map_values(|l: LeaseModel| l.id) + m.reservations.map_values(
        |r: ReservationModel| r.id,
    )
}

pub open spec fn allocation_port_list(allocations: Seq<AllocationModel>) -> Seq<u16> {
    allocations.map_values(|a: AllocationModel| a.port)
}

/// The ports of every allocation, reservation by reservation.
pub open spec fn allocation_ports(reservations: Seq<ReservationModel>) -> Seq<u16>
    decreases reservations.len(),
{
    if reservations.len() == 0 {
        Seq::empty()
    } else {
        allocation_ports(reservations.drop_last()) + allocation_port_list(
            reservations.last().allocations,
        )
    }
}

pub open spec fn lease_port_list(leases: Seq<LeaseModel>) -> Seq<u16> {
    leases.map_values(|l: LeaseModel| l.port)
}

/// Every registered port, leases first.
pub open spec fn port_list(m: RegistryModel) -> Seq<u16> {
    lease_port_list(m.leases) + allocation_ports(m.reservations)
}

/// The registry invariants that `validate` checks.
pub open spec fn valid_registry(m: RegistryModel) -> bool {
    &&& m.schema_version == REGISTRY_SCHEMA_VERSION
    &&& 1 <= m.cleanup_trigger <= CLEANUP_TRIGGER_CAP
    &&& id_list(m).no_duplicates()
    &&& port_list(m).no_duplicates()
    &&& !port_list(m).contains(0u16)
    &&& (forall|i: int| 0 <= i < m.leases.len() ==> lease_ok(#[trigger] m.leases[i]))
    &&& lease_keys_distinct(m.leases)
    &&& (forall|i: int| 0 <= i < m.reservations.len() ==> reservation_ok(#[trigger] m.reservations[i]))
    &&& directories_distinct(m.reservations)
}

/// The first problem among checks `0..n`, in order.
pub open spec fn first_problem(check: spec_fn(int) -> Option<Seq<char>>, n: int) -> Option<Seq<char>>
    decreases n,
{
    if n <= 0 {
        None
    } else {
        match first_problem(check, n - 1) {
            Some(message) => Some(message),
            None => check(n - 1),
        }
    }
}

/// Once a check has failed, later checks do not change the first problem.
pub proof fn lemma_first_problem_stays(check: spec_fn(int) -> Option<Seq<char>>, k: int, n: int)
    requires
        0 <= k <= n,
        first_problem(check, k) is Some,
    ensures
        first_problem(check, n) == first_problem(check, k),
    decreases n - k,
{
    if k < n {
        lemma_first_problem_stays(check, k, n - 1);
    }
}

pub open spec fn ids_message() -> Seq<char> {
    "Registry IDs must be unique"@
}

pub open spec fn ports_message() -> Seq<char> {
    "Registry ports must be valid and unique"@
}

pub open spec fn utc_message() -> Seq<char> {
    "Registry timestamps must use UTC"@
}

/// Some earlier lease has the present key `key`.
pub open spec fn lease_key_taken(leases: Seq<LeaseModel>, i: int, key: Option<Seq<char>>) -> bool {
    exists|j: int| 0 <= j < i && keys_clash(#[trigger] leases[j].key, key)
}

/// What the check of open lease `i` finds: a repeated ID, an invalid or
/// repeated port, an empty or repeated key, an expiration not after the
/// creation, or a time not in UTC.
pub open spec fn lease_problem(m: RegistryModel, i: int) -> Option<Seq<char>> {
    let lease = m.leases[i];
    if id_list(m).take(i).contains(lease.id) {
        Some(ids_message())
    } else if lease.port == 0 || port_list(m).take(i).contains(lease.port) {
        Some(ports_message())
    } else if !key_ok(lease.key) || lease_key_taken(m.leases, i, lease.key) {
        Some("Open lease keys must be non-empty and unique"@)
    } else if lease.expires_at.unix_nanos <= lease.created_at.unix_nanos {
        Some("Lease expiration must follow creation"@)
    } else if !(lease.created_at.is_utc() && lease.expires_at.is_utc()) {
        Some(utc_message())
    } else {
        None
    }
}

/// Some earlier reservation has the same directory as `directory`.
pub open spec fn directory_taken(reservations: Seq<ReservationModel>, r: int, directory: Seq<char>) -> bool {
    exists|j: int| 0 <= j < r && same_path(#[trigger] reservations[j].directory, directory)
}

/// What the check of reservation `r` itself finds, before its allocations.
pub open spec fn reservation_head_problem(m: RegistryModel, r: int) -> Option<Seq<char>> {
    let reservation = m.reservations[r];
    if id_list(m).take(m.leases.len() + r).contains(reservation.id) {
        Some(ids_message())
    } else if !is_absolute_path(reservation.directory) || directory_taken(
        m.reservations,
        r,
        reservation.directory,
    ) {
        Some("Reservation directories must be absolute, UTF-8, and unique"@)
    } else if reservation.allocations.len() == 0 {
        Some("A reservation must contain an allocation"@)
    } else if reservation.expires_at matches Some(e) && e.unix_nanos
        <= reservation.created_at.unix_nanos {
        Some("Reservation expiration must follow creation"@)
    } else if !(reservation.created_at.is_utc() && (reservation.expires_at matches Some(e)
        ==> e.is_utc()) && (reservation.missing_since matches Some(e) ==> e.is_utc())) {
        Some(utc_message())
    } else {
        None
    }
}

/// Where the port of allocation `a` of reservation `r` stands in `port_list`.
pub open spec fn allocation_position(m: RegistryModel, r: int, a: int) -> int {
    m.leases.len() + allocation_ports(m.reservations.take(r)).len() + a
}

/// Some earlier allocation of the same reservation has the present key `key`.
pub open spec fn allocation_key_taken(allocations: Seq<AllocationModel>, a: int, key: Option<Seq<char>>) -> bool {
    exists|b: int| 0 <= b < a && keys_clash(#[trigger] allocations[b].key, key)
}

/// What the check of allocation `a` of reservation `r` finds.
pub open spec fn allocation_problem(m: RegistryModel, r: int, a: int) -> Option<Seq<char>> {
    let allocations = m.reservations[r].allocations;
    let allocation = allocations[a];
    if allocation.port == 0 || port_list(m).take(allocation_position(m, r, a)).contains(
        allocation.port,
    ) {
        Some(ports_message())
    } else if !key_ok(allocation.key) || allocation_key_taken(allocations, a, allocation.key) {
        Some("Reservation keys must be non-empty and unique"@)
    } else if !allocation.created_at.is_utc() {
        Some(utc_message())
    } else {
        None
    }
}

pub open spec fn lease_checks(m: RegistryModel) -> spec_fn(int) -> Option<Seq<char>> {
    |i: int| lease_problem(m, i)
}

pub open spec fn allocation_checks(m: RegistryModel, r: int) -> spec_fn(int) -> Option<Seq<char>> {
    |a: int| allocation_problem(m, r, a)
}

pub open spec fn reservation_problem(m: RegistryModel, r: int) -> Option<Seq<char>> {
    match reservation_head_problem(m, r) {
        Some(message) => Some(message),
        None => first_problem(allocation_checks(m, r), m.reservations[r].allocations.len() as int),
    }
}

pub open spec fn reservation_checks(m: RegistryModel) -> spec_fn(int) -> Option<Seq<char>> {
    |r: int| reservation_problem(m, r)
}

/// The message of the first check, in the order `validate` makes them, that
/// `m` fails: the schema version, the cleanup trigger, then each open lease
/// and each reservation with its allocations in turn; `None` for a valid
/// registry.
pub open spec fn registry_problem(m: RegistryModel) -> Option<Seq<char>> {
    if m.schema_version != REGISTRY_SCHEMA_VERSION {
        Some(
            "Unsupported registry schema version: "@ + crate::text::decimal_text(
                m.schema_version as nat,
            ),
        )
    } else if !(1 <= m.cleanup_trigger <= CLEANUP_TRIGGER_CAP) {
        Some("maintenance.cleanup_trigger must be between 1 and 100"@)
    } else {
        match first_problem(lease_checks(m), m.leases.len() as int) {
            Some(message) => Some(message),
            None => first_problem(reservation_checks(m), m.reservations.len() as int),
        }
    }
}

pub open spec fn is_invalid_registry(error: PortaError) -> bool {
    error.code@ == "invalid_registry"@ && error.exit_code == 2
}

// ---------------------------------------------------------------------
// Validation
// ---------------------------------------------------------------------
fn key_present_and_empty(key: &Option<String>) -> (empty: bool)
    ensures
        empty == !key_ok(key_view(*key)),
{
    match key {
        Some(k) => k.as_str().is_empty(),
        None => false,
    }
}

fn keys_equal(a: &Option<String>, b: &Option<String>) -> (clash: bool)
    ensures
        clash == keys_clash(key_view(*a), key_view(*b)),
{
    match (a, b) {
        (Some(x), Some(y)) => *x == *y,
        _ => false,
    }
}

fn utc_if_present(value: &Option<Timestamp>) -> (ok: bool)
    ensures
        ok == (*value matches Some(e) ==> e.is_utc()),
{
    match value {
        Some(e) => e.offset_seconds == 0,
        None => true,
    }
}

fn contains_id(ids: &Vec<u128>, id: u128) -> (present: bool)
    ensures
        present == ids@.contains(id),
{
    let mut i: usize = 0;
    while i < ids.len()
        invariant
            i <= ids@.len(),
            forall|k: int| 0 <= k < i ==> ids@[k] != id,
        decreases ids@.len() - i,
    {
        if ids[i] == id {
            assert(ids@[i as int] == id);
            return true;
        }
        i = i + 1;
    }
    false
}

/// Appends `id` to `ids` unless it is already there; reports whether it was new.
fn push_new_id(ids: &mut Vec<u128>, id: u128) -> (fresh: bool)
    ensures
        fresh == !old(ids)@.contains(id),
        fresh ==> final(ids)@ == old(ids)@.push(id),
        !fresh ==> final(ids)@ == old(ids)@,
{
    if contains_id(ids, id) {
        false
    } else {
        ids.push(id);
        true
    }
}

proof fn lemma_no_duplicates_push<T>(s: Seq<T>, x: T)
    requires
        s.no_duplicates(),
        !s.contains(x),
    ensures
        s.push(x).no_duplicates(),
{
    let t = s.push(x);
    assert forall|i: int, j: int| 0 <= i < t.len() && 0 <= j < t.len() && i != j implies t[i]
        != t[j] by {
        if i < s.len() && j < s.len() {
            assert(t[i] == s[i] && t[j] == s[j]);
        } else if i < s.len() {
            assert(t[i] == s[i]);
            assert(s.contains(s[i]));
        } else {
            assert(t[j] == s[j]);
            assert(s.contains(s[j]));
        }
    }
}

proof fn lemma_prefix_duplicate<T>(whole: Seq<T>, prefix: Seq<T>, x: T)
    requires
        prefix.push(x) =~= whole.take(prefix.len() as int + 1),
        prefix.len() < whole.len(),
        prefix.contains(x),
    ensures
        !whole.no_duplicates(),
{
    let k = choose|k: int| 0 <= k < prefix.len() && prefix[k] == x;
    assert(whole[k] == whole.take(prefix.len() as int + 1)[k]);
    assert(whole[prefix.len() as int] == whole.take(prefix.len() as int + 1)[prefix.len() as int]);
}

proof fn lemma_allocation_ports_step(reservations: Seq<ReservationModel>, r: int)
    requires
        0 <= r < reservations.len(),
    ensures
        allocation_ports(reservations.take(r + 1)) == allocation_ports(reservations.take(r))
            + allocation_port_list(reservations[r].allocations),
{
    assert(reservations.take(r + 1).drop_last() =~= reservations.take(r));
}

/// Checks the open leases in order, as `validate` does, collecting their IDs
/// and ports for the reservations' checks.
fn check_leases(registry: &Registry) -> (checked: Result<(Vec<u128>, PortSet), String>)
    ensures
        ({
            let m = registry@;
            let n = m.leases.len() as int;
            match checked {
                Err(message) => first_problem(lease_checks(m), n) == Some(message@) && !valid_registry(m),
                Ok((ids, seen)) => {
                    &&& first_problem(lease_checks(m), n) is None
                    &&& ids@ =~= id_list(m).take(n)
                    &&& ids@.no_duplicates()
                    &&& seen@ == port_list(m).take(n).to_set()
                    &&& port_list(m).take(n).no_duplicates()
                    &&& !port_list(m).take(n).contains(0u16)
                    &&& forall|k: int| 0 <= k < n ==> lease_ok(#[trigger] m.leases[k])
                    &&& lease_keys_distinct(m.leases)
                },
            }
        }),
{
    let ghost m = registry@;
    let ghost all_ids = id_list(m);
    let ghost all_ports = port_list(m);
    let ghost models = m.leases;
    let ghost n = models.len() as int;
    let ghost mut listed: Seq<u16> = Seq::empty();
    let mut ids: Vec<u128> = Vec::new();
    let mut seen = PortSet::new();
    let mut i: usize = 0;
    while i < registry.open_leases.len()
        invariant
            i <= registry.open_leases@.len(),
            m == registry@,
            all_ids == id_list(m),
            all_ports == port_list(m),
            models == m.leases,
            n == models.len(),
            ids@ =~= all_ids.take(i as int),
            ids@.no_duplicates(),
            listed =~= all_ports.take(i as int),
            listed.no_duplicates(),
            !listed.contains(0u16),
            seen@ == listed.to_set(),
            forall|k: int| 0 <= k < i ==> lease_ok(#[trigger] models[k]),
            forall|a: int, b: int|
                0 <= a < b < i ==> !keys_clash(#[trigger] models[a].key, #[trigger] models[b].key),
            first_problem(lease_checks(m), i as int) is None,
        decreases registry.open_leases@.len() - i,
    {
        let lease = &registry.open_leases[i];
        let ghost model = models[i as int];
        assert(model == lease@);
        assert(all_ids[i as int] == lease.id);
        assert(all_ports[i as int] == lease.port);
        assert(first_problem(lease_checks(m), i + 1) == lease_problem(m, i as int));
        let ghost before_ids = ids@;
        if contains_id(&ids, lease.id) {
            proof {
                assert(before_ids.push(lease.id) =~= all_ids.take(i + 1));
                lemma_prefix_duplicate(all_ids, before_ids, lease.id);
                lemma_first_problem_stays(lease_checks(m), i + 1, n);
            }
            return Err(String::from_str("Registry IDs must be unique"));
        }
        ids.push(lease.id);
        proof {
            lemma_no_duplicates_push(before_ids, lease.id);
        }
        let port = lease.port;
        assert(listed.push(port) =~= all_ports.take(i + 1));
        if port == 0 || seen.contains(port) {
            proof {
                if port == 0 {
                    assert(all_ports.contains(0u16));
                } else {
                    lemma_prefix_duplicate(all_ports, listed, port);
                }
                lemma_first_problem_stays(lease_checks(m), i + 1, n);
            }
            return Err(String::from_str("Registry ports must be valid and unique"));
        }
        seen = seen.insert(port);
        proof {
            lemma_no_duplicates_push(listed, port);
            listed.lemma_push_to_set_commute(port);
            listed = listed.push(port);
        }
        let mut taken = false;
        let mut j: usize = 0;
        while j < i
            invariant
                j <= i < registry.open_leases@.len(),
                models == registry@.leases,
                model == models[i as int],
                model == registry.open_leases@[i as int]@,
                model == lease@,
                taken == exists|k: int| 0 <= k < j && keys_clash(#[trigger] models[k].key, model.key),
            decreases i - j,
        {
            assert(models[j as int] == registry.open_leases@[j as int]@);
            if keys_equal(&registry.open_leases[j].key, &lease.key) {
                assert(keys_clash(models[j as int].key, model.key));
                taken = true;
            } else {
                assert(!keys_clash(models[j as int].key, model.key));
            }
            j = j + 1;
        }
        assert(taken == lease_key_taken(models, i as int, model.key));
        if key_present_and_empty(&lease.key) || taken {
            proof {
                if taken {
                    let k = choose|k: int| 0 <= k < i && keys_clash(#[trigger] models[k].key, model.key);
                    assert(!lease_keys_distinct(models));
                }
                lemma_first_problem_stays(lease_checks(m), i + 1, n);
            }
            return Err(String::from_str("Open lease keys must be non-empty and unique"));
        }
        if !lease.expires_at.is_after(&lease.created_at) {
            proof {
                lemma_first_problem_stays(lease_checks(m), i + 1, n);
            }
            return Err(String::from_str("Lease expiration must follow creation"));
        }
        if lease.created_at.offset_seconds != 0 || lease.expires_at.offset_seconds != 0 {
            proof {
                lemma_first_problem_stays(lease_checks(m), i + 1, n);
            }
            return Err(String::from_str("Registry timestamps must use UTC"));
        }
        assert(lease_ok(model));
        i = i + 1;
    }
    assert(all_ids.take(n) =~= ids@);
    Ok((ids, seen))
}

/// The port of allocation `a` of reservation `r` stands at its position in
/// `port_list`.
proof fn lemma_allocation_position(m: RegistryModel, r: int, a: int)
    requires
        0 <= r < m.reservations.len(),
        0 <= a < m.reservations[r].allocations.len(),
    ensures
        allocation_position(m, r, a) < port_list(m).len(),
        port_list(m)[allocation_position(m, r, a)] == m.reservations[r].allocations[a].port,
{
    let models = m.reservations;
    lemma_allocation_ports_step(models, r);
    lemma_allocation_ports_prefix(models, r + 1);
    let whole_r = allocation_ports(models.take(r + 1));
    let ports_r = allocation_port_list(models[r].allocations);
    let k = allocation_ports(models.take(r)).len() + a;
    assert(whole_r[k] == ports_r[a]);
    assert(allocation_ports(models)[k] == whole_r[k]);
    assert(port_list(m)[m.leases.len() + k] == allocation_ports(models)[k]);
}

/// Where the allocations of reservation `r` end in `port_list` is where those
/// of reservation `r + 1` begin.
proof fn lemma_allocation_position_next(m: RegistryModel, r: int)
    requires
        0 <= r < m.reservations.len(),
    ensures
        allocation_position(m, r, m.reservations[r].allocations.len() as int) == allocation_position(
            m,
            r + 1,
            0,
        ),
{
    lemma_allocation_ports_step(m.reservations, r);
}

/// Checks the allocations of reservation `r` in order, as `validate` does,
/// adding their ports to those seen.
fn check_allocations(registry: &Registry, r: usize, seen: PortSet, Ghost(listed): Ghost<Seq<u16>>) -> (checked: Result<PortSet, String>)
    requires
        r < registry.reservations@.len(),
        listed =~= port_list(registry@).take(allocation_position(registry@, r as int, 0)),
        listed.no_duplicates(),
        !listed.contains(0u16),
        seen@ == listed.to_set(),
    ensures
        ({
            let m = registry@;
            let allocations = m.reservations[r as int].allocations;
            let n = allocations.len() as int;
            let end = port_list(m).take(allocation_position(m, r as int, n));
            match checked {
                Err(message) => first_problem(allocation_checks(m, r as int), n) == Some(message@)
                    && !valid_registry(m),
                Ok(seen) => {
                    &&& first_problem(allocation_checks(m, r as int), n) is None
                    &&& seen@ == end.to_set()
                    &&& end.no_duplicates()
                    &&& !end.contains(0u16)
                    &&& forall|a: int| 0 <= a < n ==> allocation_ok(#[trigger] allocations[a])
                    &&& allocation_keys_distinct(allocations)
                },
            }
        }),
{
    let ghost m = registry@;
    let ghost all = port_list(m);
    let allocations = &registry.reservations[r].allocations;
    let ghost models = m.reservations[r as int].allocations;
    let ghost n = models.len() as int;
    assert(models == allocation_models(allocations@));
    let mut seen = seen;
    let ghost mut listed = listed;
    let mut a: usize = 0;
    while a < allocations.len()
        invariant
            a <= allocations@.len(),
            r < m.reservations.len(),
            m == registry@,
            all == port_list(m),
            models == m.reservations[r as int].allocations,
            models == allocation_models(allocations@),
            n == models.len(),
            listed =~= all.take(allocation_position(m, r as int, a as int)),
            listed.no_duplicates(),
            !listed.contains(0u16),
            seen@ == listed.to_set(),
            forall|k: int| 0 <= k < a ==> allocation_ok(#[trigger] models[k]),
            forall|x: int, y: int|
                0 <= x < y < a ==> !keys_clash(#[trigger] models[x].key, #[trigger] models[y].key),
            first_problem(allocation_checks(m, r as int), a as int) is None,
        decreases allocations@.len() - a,
    {
        let allocation = &allocations[a];
        let ghost model = models[a as int];
        assert(model == allocation@);
        let port = allocation.port;
        proof {
            lemma_allocation_position(m, r as int, a as int);
            assert(listed.push(port) =~= all.take(allocation_position(m, r as int, a as int) + 1));
        }
        assert(first_problem(allocation_checks(m, r as int), a + 1) == allocation_problem(
            m,
            r as int,
            a as int,
        ));
        if port == 0 || seen.contains(port) {
            proof {
                if port == 0 {
                    assert(all.contains(0u16));
                } else {
                    lemma_prefix_duplicate(all, listed, port);
                }
                lemma_first_problem_stays(allocation_checks(m, r as int), a + 1, n);
            }
            return Err(String::from_str("Registry ports must be valid and unique"));
        }
        seen = seen.insert(port);
        proof {
            lemma_no_duplicates_push(listed, port);
            listed.lemma_push_to_set_commute(port);
            listed = listed.push(port);
        }
        let mut taken = false;
        let mut b: usize = 0;
        while b < a
            invariant
                b <= a < allocations@.len(),
                models == allocation_models(allocations@),
                model == models[a as int],
                model == allocation@,
                taken == exists|k: int| 0 <= k < b && keys_clash(#[trigger] models[k].key, model.key),
            decreases a - b,
        {
            assert(models[b as int] == allocations@[b as int]@);
            if keys_equal(&allocations[b].key, &allocation.key) {
                assert(keys_clash(models[b as int].key, model.key));
                taken = true;
            } else {
                assert(!keys_clash(models[b as int].key, model.key));
            }
            b = b + 1;
        }
        assert(taken == allocation_key_taken(models, a as int, model.key));
        if key_present_and_empty(&allocation.key) || taken {
            proof {
                if taken {
                    let k = choose|k: int| 0 <= k < a && keys_clash(#[trigger] models[k].key, model.key);
                    assert(!allocation_keys_distinct(models));
                    assert(!reservation_ok(m.reservations[r as int]));
                } else {
                    assert(!allocation_ok(model));
                    assert(!reservation_ok(m.reservations[r as int]));
                }
                lemma_first_problem_stays(allocation_checks(m, r as int), a + 1, n);
            }
            return Err(String::from_str("Reservation keys must be non-empty and unique"));
        }
        if allocation.created_at.offset_seconds != 0 {
            proof {
                assert(!allocation_ok(model));
                assert(!reservation_ok(m.reservations[r as int]));
                lemma_first_problem_stays(allocation_checks(m, r as int), a + 1, n);
            }
            return Err(String::from_str("Registry timestamps must use UTC"));
        }
        a = a + 1;
    }
    Ok(seen)
}

/// Checks the reservations in order, as `validate` does, after the open
/// leases, whose IDs and ports are given.
fn check_reservations(registry: &Registry, ids: Vec<u128>, seen: PortSet) -> (checked: Result<(), String>)
    requires
        ({
            let m = registry@;
            let n = m.leases.len() as int;
            &&& ids@ =~= id_list(m).take(n)
            &&& ids@.no_duplicates()
            &&& seen@ == port_list(m).take(n).to_set()
            &&& port_list(m).take(n).no_duplicates()
            &&& !port_list(m).take(n).contains(0u16)
        }),
    ensures
        ({
            let m = registry@;
            let n = m.reservations.len() as int;
            match checked {
                Err(message) => first_problem(reservation_checks(m), n) == Some(message@)
                    && !valid_registry(m),
                Ok(()) => {
                    &&& first_problem(reservation_checks(m), n) is None
                    &&& id_list(m).no_duplicates()
                    &&& port_list(m).no_duplicates()
                    &&& !port_list(m).contains(0u16)
                    &&& forall|k: int| 0 <= k < n ==> reservation_ok(#[trigger] m.reservations[k])
                    &&& directories_distinct(m.reservations)
                },
            }
        }),
{
    let ghost m = registry@;
    let ghost all_ids = id_list(m);
    let ghost all_ports = port_list(m);
    let ghost models = m.reservations;
    let ghost lease_count = m.leases.len() as int;
    let ghost n = models.len() as int;
    let mut ids = ids;
    let mut seen = seen;
    let ghost mut listed = all_ports.take(lease_count);
    assert(models.take(0) =~= Seq::<ReservationModel>::empty());
    let mut r: usize = 0;
    while r < registry.reservations.len()
        invariant
            r <= registry.reservations@.len(),
            m == registry@,
            all_ids == id_list(m),
            all_ports == port_list(m),
            models == m.reservations,
            lease_count == m.leases.len(),
            n == models.len(),
            ids@ =~= all_ids.take(lease_count + r),
            ids@.no_duplicates(),
            listed =~= all_ports.take(allocation_position(m, r as int, 0)),
            listed.no_duplicates(),
            !listed.contains(0u16),
            seen@ == listed.to_set(),
            forall|k: int| 0 <= k < r ==> reservation_ok(#[trigger] models[k]),
            forall|x: int, y: int|
                0 <= x < y < r ==> !same_path(
                    #[trigger] models[x].directory,
                    #[trigger] models[y].directory,
                ),
            first_problem(reservation_checks(m), r as int) is None,
        decreases registry.reservations@.len() - r,
    {
        let reservation = &registry.reservations[r];
        let ghost model = models[r as int];
        assert(model == reservation@);
        assert(all_ids[lease_count + r] == reservation.id);
        assert(first_problem(reservation_checks(m), r + 1) == reservation_problem(m, r as int));
        let ghost before_ids = ids@;
        if contains_id(&ids, reservation.id) {
            proof {
                assert(before_ids.push(reservation.id) =~= all_ids.take(lease_count + r + 1));
                lemma_prefix_duplicate(all_ids, before_ids, reservation.id);
                lemma_first_problem_stays(reservation_checks(m), r + 1, n);
            }
            return Err(String::from_str("Registry IDs must be unique"));
        }
        ids.push(reservation.id);
        proof {
            lemma_no_duplicates_push(before_ids, reservation.id);
        }
        let mut taken = false;
        let mut j: usize = 0;
        while j < r
            invariant
                j <= r < registry.reservations@.len(),
                models == registry@.reservations,
                model == models[r as int],
                model == reservation@,
                taken == exists|k: int|
                    0 <= k < j && same_path(#[trigger] models[k].directory, model.directory),
            decreases r - j,
        {
            assert(models[j as int] == registry.reservations@[j as int]@);
            if paths_equal(registry.reservations[j].directory.as_str(), reservation.directory.as_str()) {
                assert(same_path(models[j as int].directory, model.directory));
                taken = true;
            } else {
                assert(!same_path(models[j as int].directory, model.directory));
            }
            j = j + 1;
        }
        assert(taken == directory_taken(models, r as int, model.directory));
        if !is_absolute(reservation.directory.as_str()) || taken {
            proof {
                if taken {
                    let k = choose|k: int|
                        0 <= k < r && same_path(#[trigger] models[k].directory, model.directory);
                    assert(!directories_distinct(models));
                } else {
                    assert(!reservation_ok(model));
                }
                lemma_first_problem_stays(reservation_checks(m), r + 1, n);
            }
            return Err(
                String::from_str("Reservation directories must be absolute, UTF-8, and unique"),
            );
        }
        if reservation.allocations.len() == 0 {
            proof {
                assert(!reservation_ok(model));
                lemma_first_problem_stays(reservation_checks(m), r + 1, n);
            }
            return Err(String::from_str("A reservation must contain an allocation"));
        }
        let expiry_ok = match &reservation.expires_at {
            Some(e) => e.is_after(&reservation.created_at),
            None => true,
        };
        if !expiry_ok {
            proof {
                assert(!reservation_ok(model));
                lemma_first_problem_stays(reservation_checks(m), r + 1, n);
            }
            return Err(String::from_str("Reservation expiration must follow creation"));
        }
        if reservation.created_at.offset_seconds != 0 || !utc_if_present(&reservation.expires_at)
            || !utc_if_present(&reservation.missing_since) {
            proof {
                assert(!reservation_ok(model));
                lemma_first_problem_stays(reservation_checks(m), r + 1, n);
            }
            return Err(String::from_str("Registry timestamps must use UTC"));
        }
        assert(reservation_head_problem(m, r as int) is None);
        match check_allocations(registry, r, seen, Ghost(listed)) {
            Ok(next) => {
                seen = next;
            },
            Err(message) => {
                proof {
                    lemma_first_problem_stays(reservation_checks(m), r + 1, n);
                }
                return Err(message);
            },
        }
        proof {
            lemma_allocation_position_next(m, r as int);
            listed = all_ports.take(allocation_position(m, r + 1, 0));
            assert(reservation_ok(model));
        }
        r = r + 1;
    }
    proof {
        assert(all_ids.take(lease_count + n) =~= all_ids);
        assert(models.take(n) =~= models);
        assert(all_ports.take(allocation_position(m, n, 0)) =~= all_ports);
    }
    Ok(())
}

/// `allocation_ports` of a prefix is a prefix of `allocation_ports` of the whole.
proof fn lemma_allocation_ports_prefix(reservations: Seq<ReservationModel>, r: int)
    requires
        0 <= r <= reservations.len(),
    ensures
        allocation_ports(reservations.take(r)).len() <= allocation_ports(reservations).len(),
        allocation_ports(reservations.take(r)) =~= allocation_ports(reservations).take(
            allocation_ports(reservations.take(r)).len() as int,
        ),
    decreases reservations.len() - r,
{
    let whole = allocation_ports(reservations);
    let mine = allocation_ports(reservations.take(r));
    if r == reservations.len() {
        assert(reservations.take(r) =~= reservations);
        assert(whole.take(whole.len() as int) =~= whole);
    } else {
        lemma_allocation_ports_prefix(reservations, r + 1);
        lemma_allocation_ports_step(reservations, r);
        let next = allocation_ports(reservations.take(r + 1));
        assert(next =~= whole.take(next.len() as int));
        assert(next.len() >= mine.len());
        assert(mine =~= next.take(mine.len() as int));
        assert(whole.take(next.len() as int).take(mine.len() as int) =~= whole.take(
            mine.len() as int,
        ));
    }
}

impl Registry {
    /// An empty registry with the given automatic cleanup trigger.
    pub fn empty(cleanup_trigger: usize) -> (registry: Self)
        ensures
            registry@.schema_version == REGISTRY_SCHEMA_VERSION,
            registry@.cleanup_trigger == cleanup_trigger,
            registry@.leases.len() == 0,
            registry@.reservations.len() == 0,
    {
        Registry {
            schema_version: REGISTRY_SCHEMA_VERSION,
            maintenance: Maintenance { cleanup_trigger },
            open_leases: Vec::new(),
            reservations: Vec::new(),
        }
    }

    /// Checks the registry invariants: a supported schema version, a trigger
    /// within `1..=100`, globally unique IDs and nonzero ports, well-formed
    /// UTC leases with unique nonempty keys, and absolute, unique reservation
    /// directories with nonempty, uniquely keyed allocations. The checks run
    /// lease by lease, then reservation by reservation with its allocations,
    /// and the first that fails gives the message.
    pub fn validate(&self) -> (result: PortaResult<()>)
        ensures
            result is Ok <==> valid_registry(self@),
            result matches Err(error) ==> is_invalid_registry(error) && registry_problem(self@)
                == Some(error.message@),
            valid_registry(self@) <==> registry_problem(self@) is None,
    {
        if self.schema_version != REGISTRY_SCHEMA_VERSION {
            let mut message = String::from_str("Unsupported registry schema version: ");
            message.append(crate::text::decimal_string(self.schema_version as u64).as_str());
            return Err(invalid_registry(message));
        }
        if self.maintenance.cleanup_trigger < 1 || self.maintenance.cleanup_trigger
            > CLEANUP_TRIGGER_CAP {
            return Err(
                invalid_registry(
                    String::from_str("maintenance.cleanup_trigger must be between 1 and 100"),
                ),
            );
        }
        let (ids, seen) = match check_leases(self) {
            Ok(checked) => checked,
            Err(message) => return Err(invalid_registry(message)),
        };
        match check_reservations(self, ids, seen) {
            Ok(()) => {},
            Err(message) => return Err(invalid_registry(message)),
        }
        Ok(())
    }

    /// The registered ports, leases first.
    pub fn used_ports(&self) -> (ports: Vec<u16>)
        ensures
            ports@ == port_list(self@),
    {
        let mut ports: Vec<u16> = Vec::new();
        let mut i: usize = 0;
        while i < self.open_leases.len()
            invariant
                i <= self.open_leases@.len(),
                ports@ =~= lease_port_list(self@.leases).take(i as int),
            decreases self.open_leases@.len() - i,
        {
            ports.push(self.open_leases[i].port);
            i = i + 1;
        }
        assert(lease_port_list(self@.leases).take(i as int) =~= lease_port_list(self@.leases));
        let ghost models = self@.reservations;
        assert(models.take(0) =~= Seq::<ReservationModel>::empty());
        let mut r: usize = 0;
        while r < self.reservations.len()
            invariant
                r <= self.reservations@.len(),
                models == self@.reservations,
                ports@ =~= lease_port_list(self@.leases) + allocation_ports(models.take(r as int)),
            decreases self.reservations@.len() - r,
        {
            let allocations = &self.reservations[r].allocations;
            let ghost base = ports@;
            let ghost list = allocation_port_list(models[r as int].allocations);
            let mut a: usize = 0;
            while a < allocations.len()
                invariant
                    a <= allocations@.len(),
                    r < models.len(),
                    models == self@.reservations,
                    list == allocation_port_list(models[r as int].allocations),
                    models[r as int].allocations == allocation_models(allocations@),
                    ports@ =~= base + list.take(a as int),
                decreases allocations@.len() - a,
            {
                ports.push(allocations[a].port);
                assert(list.take(a + 1) =~= list.take(a as int).push(list[a as int]));
                a = a + 1;
            }
            proof {
                lemma_allocation_ports_step(models, r as int);
                assert(list.take(allocations@.len() as int) =~= list);
            }
            r = r + 1;
        }
        assert(models.take(models.len() as int) =~= models);
        ports
    }

    /// A version 1 registry migrated to the current schema: every lease
    /// gains an absent key.
    pub fn from_v1(registry: RegistryV1) -> (migrated: Registry)
        requires
            registry.schema_version == 1,
        ensures
            migrated@.schema_version == REGISTRY_SCHEMA_VERSION,
            migrated@.cleanup_trigger == registry.maintenance.cleanup_trigger,
            migrated@.reservations == reservation_models(registry.reservations@),
            migrated@.leases.len() == registry.open_leases@.len(),
            forall|i: int|
                0 <= i < registry.open_leases@.len() ==> #[trigger] migrated@.leases[i]
                    == (LeaseModel {
                    id: registry.open_leases@[i].id,
                    port: registry.open_leases@[i].port,
                    key: None,
                    created_at: registry.open_leases@[i].created_at,
                    expires_at: registry.open_leases@[i].expires_at,
                }),
    {
        let RegistryV1 { schema_version: _, maintenance, open_leases, reservations } = registry;
        let mut leases: Vec<OpenLease> = Vec::new();
        let mut i: usize = 0;
        while i < open_leases.len()
            invariant
                i <= open_leases@.len(),
                leases@.len() == i,
                forall|k: int|
                    0 <= k < i ==> (#[trigger] leases@[k])@ == (LeaseModel {
                        id: open_leases@[k].id,
                        port: open_leases@[k].port,
                        key: None,
                        created_at: open_leases@[k].created_at,
                        expires_at: open_leases@[k].expires_at,
                    }),
            decreases open_leases@.len() - i,
        {
            let old_lease = &open_leases[i];
            leases.push(
                OpenLease {
                    id: old_lease.id,
                    port: old_lease.port,
                    key: None,
                    created_at: old_lease.created_at,
                    expires_at: old_lease.expires_at,
                },
            );
            i = i + 1;
        }
        Registry {
            schema_version: REGISTRY_SCHEMA_VERSION,
            maintenance: Maintenance { cleanup_trigger: maintenance.cleanup_trigger },
            open_leases: leases,
            reservations,
        }
    }
}

pub fn invalid_registry(message: String) -> (error: PortaError)
    ensures
        is_invalid_registry(error),
        error.message@ == message@,
{
    PortaError::invalid("invalid_registry", message)
}

} // verus!
