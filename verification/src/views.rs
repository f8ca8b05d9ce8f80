//! What the read-only commands answer: `get`, `info`, `list` and the counts
//! of `clean`. Socket probes and directory checks happen outside the library
//! and come in as arguments.
use vstd::prelude::*;
use vstd::string::*;

use crate::error::{PortaError, PortaResult};
use crate::registry::model::{
    allocation_models, clone_key, key_view, lease_models, reservation_models, Allocation,
    AllocationModel, LeaseModel, OpenLease, Registry, RegistryModel, Reservation,
    ReservationModel,
};
use crate::service::{
    find_key, find_reservation, has_code, has_key, key_index, lemma_key_index, no_reservation,
    reservation_at, reservation_not_found, says,
};
use crate::timestamp::Timestamp;
use crate::paths::{path_less, Order};
use crate::service::{
    keyed_pairs, observe_missing, observed_reservations, pair_views, ExpirationStats,
    MissingStats, SweepMode,
};
use crate::config::Config;
use crate::sorting::{insertion_sorted, lemma_insertion_point, lemma_insertion_sorted_push};
use crate::timestamp::NANOS_PER_SECOND;

verus! {

/// A key given as text, viewed as characters.
pub open spec fn str_key(key: Option<&str>) -> Option<Seq<char>> {
    match key {
        Some(k) => Some(k@),
        None => None,
    }
}

// ---------------------------------------------------------------------
// get
// ---------------------------------------------------------------------
/// The answer of `get`.
#[derive(Debug)]
pub struct GetResult {
    pub directory: String,
    pub port: u16,
    pub key: Option<String>,
    pub allocation: Allocation,
}

/// The allocation that `get` answers from a reservation: the first one keyed
/// `key`, or, without a key, the only one.
pub open spec fn selected_allocation(allocations: Seq<AllocationModel>, key: Option<Seq<char>>) -> Option<
    AllocationModel,
> {
    match key {
        Some(k) => if has_key(allocations, k) {
            Some(allocations[key_index(allocations, k)])
        } else {
            None
        },
        None => if allocations.len() == 1 {
            Some(allocations[0])
        } else {
            None
        },
    }
}

/// The allocation of `directory` for `key`, or its only allocation when no
/// key is given. Fails with `reservation_not_found`, with `key_not_found` when
/// the key has no allocation, and with `key_required` when no key is given
/// and the reservation has several allocations.
pub fn get_allocation(registry: &Registry, directory: &str, key: Option<&str>) -> (result:
    PortaResult<GetResult>)
    ensures
        match result {
            Ok(found) => {
                &&& exists|index: int|
                    reservation_at(registry@.reservations, directory@, index) && selected_allocation(
                        #[trigger] registry@.reservations[index].allocations,
                        str_key(key),
                    ) == Some(found.allocation@)
                &&& found.port == found.allocation.port
                &&& key_view(found.key) == found.allocation@.key
                &&& found.directory@ == directory@
            },
            Err(error) => if no_reservation(registry@.reservations, directory@) {
                has_code(error, "reservation_not_found"@, 1) && says(
                    error,
                    "No reservation exists for "@ + directory@,
                )
            } else {
                &&& exists|index: int|
                    reservation_at(registry@.reservations, directory@, index) && selected_allocation(
                        #[trigger] registry@.reservations[index].allocations,
                        str_key(key),
                    ) is None
                &&& match key {
                    Some(k) => has_code(error, "key_not_found"@, 1) && says(
                        error,
                        "No port is reserved for key: "@ + k@,
                    ),
                    None => has_code(error, "key_required"@, 1) && says(
                        error,
                        "A key is required when a reservation has multiple ports"@,
                    ),
                }
            },
        },
{
    let index = match find_reservation(registry, directory) {
        Some(i) => i,
        None => return Err(reservation_not_found(directory)),
    };
    let allocations = &registry.reservations[index].allocations;
    let ghost models = registry@.reservations[index as int].allocations;
    assert(models == allocation_models(allocations@));
    let allocation = match key {
        Some(k) => {
            let wanted = String::from_str(k);
            proof {
                lemma_key_index(models, k@);
            }
            match find_key(allocations, &wanted) {
                Some(position) => {
                    let copy = allocations[position].clone();
                    assert(selected_allocation(models, str_key(key)) == Some(copy@));
                    copy
                },
                None => {
                    let mut message = String::from_str("No port is reserved for key: ");
                    message.append(k);
                    return Err(PortaError::missing("key_not_found", message));
                },
            }
        },
        None => {
            if allocations.len() == 1 {
                let copy = allocations[0].clone();
                assert(selected_allocation(models, str_key(key)) == Some(copy@));
                copy
            } else {
                return Err(
                    PortaError::missing(
                        "key_required",
                        String::from_str(
                            "A key is required when a reservation has multiple ports",
                        ),
                    ),
                );
            }
        },
    };
    let port = allocation.port;
    let key_copy = clone_key(&allocation.key);
    Ok(GetResult { directory: String::from_str(directory), port, key: key_copy, allocation })
}

// ---------------------------------------------------------------------
// info
// ---------------------------------------------------------------------
/// What the registry and the socket say of one port.
#[derive(Debug)]
pub struct PortInfo {
    pub port: u16,
    pub state: String,
    pub in_use: bool,
    pub key: Option<String>,
    pub directory: Option<String>,
    pub lease_id: Option<u128>,
    pub expires_at: Option<Timestamp>,
}

/// A port argument of `info` must not be zero (`invalid_port`).
pub fn validate_info_ports(ports: &Vec<u16>) -> (result: PortaResult<()>)
    ensures
        match result {
            Ok(()) => !ports@.contains(0u16),
            Err(error) => {
                &&& ports@.contains(0u16)
                &&& has_code(error, "invalid_port"@, 2)
                &&& says(error, "Port must be between 1 and 65535"@)
            },
        },
{
    let mut i: usize = 0;
    while i < ports.len()
        invariant
            i <= ports@.len(),
            forall|k: int| 0 <= k < i ==> ports@[k] != 0,
        decreases ports@.len() - i,
    {
        if ports[i] == 0 {
            assert(ports@.contains(0u16)) by {
                assert(ports@[i as int] == 0u16);
            }
            return Err(
                PortaError::invalid(
                    "invalid_port",
                    String::from_str("Port must be between 1 and 65535"),
                ),
            );
        }
        i = i + 1;
    }
    Ok(())
}

/// Some allocation of `reservation` is on `port`.
pub open spec fn holds_port(reservation: ReservationModel, port: u16) -> bool {
    exists|a: int|
        0 <= a < reservation.allocations.len() && #[trigger] reservation.allocations[a].port == port
}

/// `a` is the first allocation on `port`.
pub open spec fn first_allocation_on(allocations: Seq<AllocationModel>, port: u16, a: int) -> bool {
    &&& 0 <= a < allocations.len()
    &&& allocations[a].port == port
    &&& forall|i: int| 0 <= i < a ==> #[trigger] allocations[i].port != port
}

/// `r` is the first reservation holding `port`.
pub open spec fn first_holder(reservations: Seq<ReservationModel>, port: u16, r: int) -> bool {
    &&& 0 <= r < reservations.len()
    &&& holds_port(reservations[r], port)
    &&& forall|i: int| 0 <= i < r ==> !holds_port(#[trigger] reservations[i], port)
}

/// `l` is the first lease on `port`.
pub open spec fn first_lease_on(leases: Seq<LeaseModel>, port: u16, l: int) -> bool {
    &&& 0 <= l < leases.len()
    &&& leases[l].port == port
    &&& forall|i: int| 0 <= i < l ==> #[trigger] leases[i].port != port
}

/// A lease past its deadline that still shows is one whose port is bound.
pub open spec fn lease_state(lease: LeaseModel, now: Timestamp) -> Seq<char> {
    if lease.expires_at.unix_nanos <= now.unix_nanos {
        "expired_in_use"@
    } else {
        "leased"@
    }
}

/// `info` describes `port`: a reservation holding it wins over a lease on
/// it; otherwise the socket decides between `in_use` and `available`.
/// `bound` tells whether the port is bound now.
pub open spec fn describes_port(
    registry: RegistryModel,
    port: u16,
    now: Timestamp,
    bound: bool,
    info: PortInfo,
) -> bool {
    let reservations = registry.reservations;
    let leases = registry.leases;
    &&& info.port == port
    &&& info.in_use == bound
    &&& if exists|r: int| first_holder(reservations, port, r) {
        exists|r: int, a: int|
            #[trigger] first_holder(reservations, port, r) && #[trigger] first_allocation_on(
                reservations[r].allocations,
                port,
                a,
            ) && info.state@ == "reserved"@ && key_view(info.key)
                == reservations[r].allocations[a].key && key_view(info.directory) == Some(
                reservations[r].directory,
            ) && info.lease_id is None && info.expires_at == reservations[r].expires_at
    } else if exists|l: int| first_lease_on(leases, port, l) {
        exists|l: int|
            #[trigger] first_lease_on(leases, port, l) && info.state@ == lease_state(leases[l], now)
                && key_view(info.key) == leases[l].key && info.directory is None && info.lease_id
                == Some(leases[l].id) && info.expires_at == Some(leases[l].expires_at)
    } else {
        &&& info.state@ == (if bound {
            "in_use"@
        } else {
            "available"@
        })
        &&& info.key is None
        &&& info.directory is None
        &&& info.lease_id is None
        &&& info.expires_at is None
    }
}

/// The first allocation on `port`, if any.
fn find_port_allocation(allocations: &Vec<Allocation>, port: u16) -> (found: Option<usize>)
    ensures
        match found {
            Some(a) => first_allocation_on(allocation_models(allocations@), port, a as int),
            None => forall|a: int|
                0 <= a < allocations@.len() ==> #[trigger] allocation_models(allocations@)[a].port
                    != port,
        },
{
    let ghost models = allocation_models(allocations@);
    let mut a: usize = 0;
    while a < allocations.len()
        invariant
            a <= allocations@.len(),
            models == allocation_models(allocations@),
            forall|i: int| 0 <= i < a ==> #[trigger] models[i].port != port,
        decreases allocations@.len() - a,
    {
        assert(models[a as int] == allocations@[a as int]@);
        if allocations[a].port == port {
            return Some(a);
        }
        a = a + 1;
    }
    None
}

fn state_text(text: &str) -> (state: String)
    ensures
        state@ == text@,
{
    String::from_str(text)
}

/// Describes one port. `bound` tells whether the port is bound now.
pub fn port_info(registry: &Registry, port: u16, now: Timestamp, bound: bool) -> (info: PortInfo)
    ensures
        describes_port(registry@, port, now, bound, info),
{
    let ghost reservations = registry@.reservations;
    let ghost leases = registry@.leases;
    let mut r: usize = 0;
    while r < registry.reservations.len()
        invariant
            r <= registry.reservations@.len(),
            reservations == registry@.reservations,
            forall|i: int| 0 <= i < r ==> !holds_port(#[trigger] reservations[i], port),
        decreases registry.reservations@.len() - r,
    {
        let reservation = &registry.reservations[r];
        assert(reservations[r as int] == reservation@);
        match find_port_allocation(&reservation.allocations, port) {
            Some(a) => {
                let allocation = &reservation.allocations[a];
                let info = PortInfo {
                    port,
                    state: state_text("reserved"),
                    in_use: bound,
                    key: clone_key(&allocation.key),
                    directory: Some(reservation.directory.clone()),
                    lease_id: None,
                    expires_at: reservation.expires_at,
                };
                proof {
                    reveal_strlit("reserved");
                    assert(holds_port(reservations[r as int], port));
                    assert(first_holder(reservations, port, r as int));
                    assert(first_allocation_on(reservations[r as int].allocations, port, a as int));
                }
                return info;
            },
            None => {
                assert(!holds_port(reservations[r as int], port));
            },
        }
        r = r + 1;
    }
    assert(!(exists|i: int| first_holder(reservations, port, i)));
    let mut l: usize = 0;
    while l < registry.open_leases.len()
        invariant
            l <= registry.open_leases@.len(),
            leases == registry@.leases,
            reservations == registry@.reservations,
            !(exists|i: int| first_holder(reservations, port, i)),
            forall|i: int| 0 <= i < l ==> #[trigger] leases[i].port != port,
        decreases registry.open_leases@.len() - l,
    {
        let lease = &registry.open_leases[l];
        assert(leases[l as int] == lease@);
        if lease.port == port {
            let expired = !lease.expires_at.is_after(&now);
            let state = if expired {
                state_text("expired_in_use")
            } else {
                state_text("leased")
            };
            let info = PortInfo {
                port,
                state,
                in_use: bound,
                key: clone_key(&lease.key),
                directory: None,
                lease_id: Some(lease.id),
                expires_at: Some(lease.expires_at),
            };
            assert(first_lease_on(leases, port, l as int));
            return info;
        }
        l = l + 1;
    }
    assert(!(exists|i: int| first_lease_on(leases, port, i)));
    let state = if bound {
        state_text("in_use")
    } else {
        state_text("available")
    };
    PortInfo {
        port,
        state,
        in_use: bound,
        key: None,
        directory: None,
        lease_id: None,
        expires_at: None,
    }
}

/// Describes each of `ports` in order; `bound[i]` tells whether `ports[i]`
/// is bound now.
pub fn describe_ports(registry: &Registry, ports: &Vec<u16>, now: Timestamp, bound: &Vec<bool>) -> (infos:
    Vec<PortInfo>)
    requires
        bound@.len() == ports@.len(),
    ensures
        infos@.len() == ports@.len(),
        forall|i: int|
            0 <= i < ports@.len() ==> describes_port(
                registry@,
                ports@[i],
                now,
                bound@[i],
                #[trigger] infos@[i],
            ),
{
    let mut infos: Vec<PortInfo> = Vec::new();
    let mut i: usize = 0;
    while i < ports.len()
        invariant
            i <= ports@.len(),
            bound@.len() == ports@.len(),
            infos@.len() == i,
            forall|k: int|
                0 <= k < i ==> describes_port(registry@, ports@[k], now, bound@[k], #[trigger] infos@[k]),
        decreases ports@.len() - i,
    {
        let info = port_info(registry, ports[i], now, bound[i]);
        infos.push(info);
        i = i + 1;
    }
    infos
}

// ---------------------------------------------------------------------
// list
// ---------------------------------------------------------------------
/// One reservation as `list` shows it.
#[derive(Debug)]
pub struct ReservationView {
    pub id: u128,
    pub directory: String,
    pub created_at: Timestamp,
    pub expires_at: Option<Timestamp>,
    pub missing_since: Option<Timestamp>,
    /// `missing` while the directory is marked missing, else `active`.
    pub status: String,
    pub ports: Vec<u16>,
    /// Key and port of every keyed allocation.
    pub keyed_ports: Vec<(String, u16)>,
    pub allocations: Vec<Allocation>,
}

pub struct ReservationViewModel {
    pub id: u128,
    pub directory: Seq<char>,
    pub created_at: Timestamp,
    pub expires_at: Option<Timestamp>,
    pub missing_since: Option<Timestamp>,
    pub status: Seq<char>,
    pub ports: Seq<u16>,
    pub keyed_ports: Seq<(Seq<char>, u16)>,
    pub allocations: Seq<AllocationModel>,
}

impl View for ReservationView {
    type V = ReservationViewModel;

    open spec fn view(&self) -> ReservationViewModel {
        ReservationViewModel {
            id: self.id,
            directory: self.directory@,
            created_at: self.created_at,
            expires_at: self.expires_at,
            missing_since: self.missing_since,
            status: self.status@,
            ports: self.ports@,
            keyed_ports: pair_views(self.keyed_ports@),
            allocations: allocation_models(self.allocations@),
        }
    }
}

/// One lease as `list` shows it.
#[derive(Debug)]
pub struct LeaseView {
    pub id: u128,
    pub port: u16,
    pub key: Option<String>,
    pub created_at: Timestamp,
    pub expires_at: Timestamp,
    /// `expired_in_use` past the deadline, else `leased`.
    pub status: String,
}

pub struct LeaseViewModel {
    pub lease: LeaseModel,
    pub status: Seq<char>,
}

impl View for LeaseView {
    type V = LeaseViewModel;

    open spec fn view(&self) -> LeaseViewModel {
        LeaseViewModel {
            lease: LeaseModel {
                id: self.id,
                port: self.port,
                key: key_view(self.key),
                created_at: self.created_at,
                expires_at: self.expires_at,
            },
            status: self.status@,
        }
    }
}

/// The answer of `list`.
#[derive(Debug)]
pub struct ListResult {
    pub reservations: Vec<ReservationView>,
    pub leases: Vec<LeaseView>,
}

pub open spec fn reservation_view_models(views: Seq<ReservationView>) -> Seq<ReservationViewModel> {
    views.map_values(|v: ReservationView| v@)
}

pub open spec fn lease_view_models(views: Seq<LeaseView>) -> Seq<LeaseViewModel> {
    views.map_values(|v: LeaseView| v@)
}

/// Allocations in nondecreasing port order.
pub open spec fn by_port(allocations: Seq<AllocationModel>) -> bool {
    forall|i: int, j: int|
        0 <= i < j < allocations.len() ==> #[trigger] allocations[i].port
            <= #[trigger] allocations[j].port
}

pub open spec fn status_of(missing_since: Option<Timestamp>) -> Seq<char> {
    if missing_since is Some {
        "missing"@
    } else {
        "active"@
    }
}

/// What a reservation view records of its reservation; the allocations are
/// counted without their order.
pub open spec fn reservation_summary(r: ReservationModel) -> (
    u128,
    Seq<char>,
    Timestamp,
    Option<Timestamp>,
    Option<Timestamp>,
    vstd::multiset::Multiset<AllocationModel>,
) {
    (r.id, r.directory, r.created_at, r.expires_at, r.missing_since, r.allocations.to_multiset())
}

pub open spec fn view_summary(v: ReservationViewModel) -> (
    u128,
    Seq<char>,
    Timestamp,
    Option<Timestamp>,
    Option<Timestamp>,
    vstd::multiset::Multiset<AllocationModel>,
) {
    (v.id, v.directory, v.created_at, v.expires_at, v.missing_since, v.allocations.to_multiset())
}

/// A view lists its allocations by port, with their ports and keyed ports in
/// the same order, and its status from the missing mark.
pub open spec fn view_consistent(v: ReservationViewModel) -> bool {
    &&& by_port(v.allocations)
    &&& v.ports == v.allocations.map_values(|a: AllocationModel| a.port)
    &&& v.keyed_ports == keyed_pairs(v.allocations)
    &&& v.status == status_of(v.missing_since)
}

pub open spec fn path_ordered(views: Seq<ReservationViewModel>) -> bool {
    forall|i: int, j: int|
        0 <= i < j < views.len() ==> !path_less(
            #[trigger] views[j].directory,
            #[trigger] views[i].directory,
        )
}

/// The views show exactly `reservations`, one view each, ordered by path.
pub open spec fn lists_reservations(views: Seq<ReservationViewModel>, reservations: Seq<ReservationModel>) -> bool {
    &&& views.map_values(|v: ReservationViewModel| view_summary(v)).to_multiset()
        == reservations.map_values(|r: ReservationModel| reservation_summary(r)).to_multiset()
    &&& forall|i: int| 0 <= i < views.len() ==> view_consistent(#[trigger] views[i])
    &&& path_ordered(views)
}

/// The lease views show exactly `leases`, ordered by port, each with its
/// status at `now`.
pub open spec fn lists_leases(views: Seq<LeaseViewModel>, leases: Seq<LeaseModel>, now: Timestamp) -> bool {
    &&& views.map_values(|v: LeaseViewModel| v.lease).to_multiset() == leases.to_multiset()
    &&& forall|i: int| 0 <= i < views.len() ==> (#[trigger] views[i]).status == lease_state(views[i].lease, now)
    &&& forall|i: int, j: int|
        0 <= i < j < views.len() ==> #[trigger] views[i].lease.port <= #[trigger] views[j].lease.port
}

/// Allocation `a` goes before allocation `b`: its port is lower.
pub open spec fn port_order() -> spec_fn(AllocationModel, AllocationModel) -> bool {
    |a: AllocationModel, b: AllocationModel| a.port < b.port
}

/// The allocations in nondecreasing port order, those on one port in the
/// order they were given.
pub fn sort_allocations(allocations: &Vec<Allocation>) -> (sorted: Vec<Allocation>)
    ensures
        allocation_models(sorted@) == insertion_sorted(allocation_models(allocations@), port_order()),
        allocation_models(sorted@).to_multiset() == allocation_models(allocations@).to_multiset(),
        by_port(allocation_models(sorted@)),
{
    broadcast use vstd::seq_lib::group_to_multiset_ensures;

    let ghost input = allocation_models(allocations@);
    let mut sorted: Vec<Allocation> = Vec::new();
    let mut i: usize = 0;
    while i < allocations.len()
        invariant
            i <= allocations@.len(),
            input == allocation_models(allocations@),
            allocation_models(sorted@).to_multiset() == input.take(i as int).to_multiset(),
            allocation_models(sorted@) == insertion_sorted(input.take(i as int), port_order()),
            by_port(allocation_models(sorted@)),
        decreases allocations@.len() - i,
    {
        let item = allocations[i].clone();
        let ghost before = allocation_models(sorted@);
        let mut p: usize = 0;
        while p < sorted.len() && sorted[p].port <= item.port
            invariant
                p <= sorted@.len(),
                before == allocation_models(sorted@),
                forall|k: int| 0 <= k < p ==> #[trigger] before[k].port <= item.port,
            decreases sorted@.len() - p,
        {
            assert(before[p as int] == sorted@[p as int]@);
            p = p + 1;
        }
        proof {
            if p < sorted@.len() {
                assert(before[p as int] == sorted@[p as int]@);
            }
            assert forall|k: int| 0 <= k < p implies !(port_order())(item@, #[trigger] before[k]) by {
            }
            lemma_insertion_point(before, item@, port_order(), p as int);
            lemma_insertion_sorted_push(input.take(i as int), input[i as int], port_order());
        }
        sorted.insert(p, item);
        proof {
            let after = allocation_models(sorted@);
            assert(after =~= before.insert(p as int, item@));
            vstd::seq_lib::to_multiset_insert(before, p as int, item@);
            assert(input.take(i + 1) =~= input.take(i as int).push(input[i as int]));
            assert(input[i as int] == item@);
            vstd::seq_lib::to_multiset_build(input.take(i as int), item@);
            assert(allocation_models(sorted@).to_multiset() =~= input.take(i + 1).to_multiset());
            assert forall|a: int, b: int| 0 <= a < b < after.len() implies #[trigger] after[a].port
                <= #[trigger] after[b].port by {
                if b < p {
                } else if b == p {
                    assert(after[a] == before[a]);
                } else if a < p {
                    assert(after[b] == before[b - 1]);
                    if b - 1 > a {
                        assert(before[a].port <= before[b - 1].port);
                    }
                } else if a == p {
                    assert(after[b] == before[b - 1]);
                    assert(before[p as int].port > item.port);
                    if b - 1 > p {
                        assert(before[p as int].port <= before[b - 1].port);
                    }
                } else {
                    assert(after[a] == before[a - 1]);
                    assert(after[b] == before[b - 1]);
                }
            }
        }
        i = i + 1;
    }
    assert(input.take(i as int) =~= input);
    sorted
}

fn status_text(missing_since: &Option<Timestamp>) -> (status: String)
    ensures
        status@ == status_of(*missing_since),
{
    match missing_since {
        Some(_) => String::from_str("missing"),
        None => String::from_str("active"),
    }
}

/// How `list` shows a reservation: its allocations by port, their ports
/// and keyed ports in that order, and its status from the missing mark.
pub open spec fn reservation_view_of(r: ReservationModel) -> ReservationViewModel {
    let allocations = insertion_sorted(r.allocations, port_order());
    ReservationViewModel {
        id: r.id,
        directory: r.directory,
        created_at: r.created_at,
        expires_at: r.expires_at,
        missing_since: r.missing_since,
        status: status_of(r.missing_since),
        ports: allocations.map_values(|a: AllocationModel| a.port),
        keyed_ports: keyed_pairs(allocations),
        allocations,
    }
}

/// The view of one reservation.
pub fn reservation_view(reservation: &Reservation) -> (view: ReservationView)
    ensures
        view@ == reservation_view_of(reservation@),
        view_summary(view@) == reservation_summary(reservation@),
        view_consistent(view@),
{
    let allocations = sort_allocations(&reservation.allocations);
    let ghost models = allocation_models(allocations@);
    let mut ports: Vec<u16> = Vec::new();
    let mut pairs: Vec<(String, u16)> = Vec::new();
    let mut k: usize = 0;
    while k < allocations.len()
        invariant
            k <= allocations@.len(),
            models == allocation_models(allocations@),
            ports@ =~= models.take(k as int).map_values(|a: AllocationModel| a.port),
            pair_views(pairs@) == keyed_pairs(models.take(k as int)),
        decreases allocations@.len() - k,
    {
        let allocation = &allocations[k];
        ports.push(allocation.port);
        proof {
            assert(models.take(k + 1).drop_last() =~= models.take(k as int));
            assert(models.take(k + 1).last() == allocation@);
        }
        match &allocation.key {
            Some(key) => {
                let ghost pairs_before = pair_views(pairs@);
                pairs.push((key.clone(), allocation.port));
                assert(pair_views(pairs@) =~= pairs_before.push((key@, allocation.port)));
            },
            None => {},
        }
        k = k + 1;
    }
    assert(models.take(k as int) =~= models);
    ReservationView {
        id: reservation.id,
        directory: reservation.directory.clone(),
        created_at: reservation.created_at,
        expires_at: reservation.expires_at,
        missing_since: reservation.missing_since,
        status: status_text(&reservation.missing_since),
        ports,
        keyed_ports: pairs,
        allocations,
    }
}

/// View `a` goes before view `b`: its directory comes first by path.
pub open spec fn directory_order() -> spec_fn(ReservationViewModel, ReservationViewModel) -> bool {
    |a: ReservationViewModel, b: ReservationViewModel| path_less(a.directory, b.directory)
}

/// How `list` shows `reservations`: one view each, ordered by directory
/// path, those on one path in registry order.
pub open spec fn reservation_listing(reservations: Seq<ReservationModel>) -> Seq<ReservationViewModel> {
    insertion_sorted(
        reservations.map_values(|r: ReservationModel| reservation_view_of(r)),
        directory_order(),
    )
}

/// The views of `reservations` ordered by directory path.
pub fn reservation_views(reservations: &Vec<Reservation>) -> (views: Vec<ReservationView>)
    ensures
        reservation_view_models(views@) == reservation_listing(reservation_models(reservations@)),
        lists_reservations(reservation_view_models(views@), reservation_models(reservations@)),
{
    broadcast use vstd::seq_lib::group_to_multiset_ensures;

    let ghost input = reservation_models(reservations@).map_values(
        |r: ReservationModel| reservation_summary(r),
    );
    let ghost views_in = reservation_models(reservations@).map_values(
        |r: ReservationModel| reservation_view_of(r),
    );
    let mut views: Vec<ReservationView> = Vec::new();
    let mut i: usize = 0;
    while i < reservations.len()
        invariant
            i <= reservations@.len(),
            input == reservation_models(reservations@).map_values(
                |r: ReservationModel| reservation_summary(r),
            ),
            views_in == reservation_models(reservations@).map_values(
                |r: ReservationModel| reservation_view_of(r),
            ),
            reservation_view_models(views@).map_values(|v: ReservationViewModel| view_summary(v)).to_multiset()
                == input.take(i as int).to_multiset(),
            forall|k: int|
                0 <= k < views@.len() ==> view_consistent(#[trigger] reservation_view_models(views@)[k]),
            path_ordered(reservation_view_models(views@)),
            reservation_view_models(views@) == insertion_sorted(
                views_in.take(i as int),
                directory_order(),
            ),
        decreases reservations@.len() - i,
    {
        let view = reservation_view(&reservations[i]);
        let ghost before = reservation_view_models(views@);
        let mut p: usize = 0;
        while p < views.len() && !(crate::paths::compare_paths(
            view.directory.as_str(),
            views[p].directory.as_str(),
        ) == Order::Less)
            invariant
                p <= views@.len(),
                before == reservation_view_models(views@),
                forall|k: int| 0 <= k < p ==> !path_less(view@.directory, #[trigger] before[k].directory),
            decreases views@.len() - p,
        {
            assert(before[p as int] == views@[p as int]@);
            p = p + 1;
        }
        proof {
            if p < views@.len() {
                assert(before[p as int] == views@[p as int]@);
            }
            assert forall|k: int| 0 <= k < p implies !(directory_order())(
                view@,
                #[trigger] before[k],
            ) by {}
            lemma_insertion_point(before, view@, directory_order(), p as int);
            assert(views_in[i as int] == view@);
            lemma_insertion_sorted_push(views_in.take(i as int), views_in[i as int], directory_order());
            assert(views_in.take(i + 1) =~= views_in.take(i as int).push(views_in[i as int]));
        }
        let ghost item = view@;
        views.insert(p, view);
        proof {
            let after = reservation_view_models(views@);
            assert(after =~= before.insert(p as int, item));
            let f = |v: ReservationViewModel| view_summary(v);
            assert(after.map_values(f) =~= before.map_values(f).insert(p as int, view_summary(item)));
            vstd::seq_lib::to_multiset_insert(before.map_values(f), p as int, view_summary(item));
            assert(input.take(i + 1) =~= input.take(i as int).push(input[i as int]));
            assert(input[i as int] == reservation_summary(reservations@[i as int]@));
            assert(input[i as int] == view_summary(item));
            vstd::seq_lib::to_multiset_build(input.take(i as int), view_summary(item));
            assert(after.map_values(f).to_multiset() =~= input.take(i + 1).to_multiset());
            assert forall|k: int| 0 <= k < after.len() implies view_consistent(#[trigger] after[k]) by {
                if k < p {
                    assert(after[k] == before[k]);
                } else if k > p {
                    assert(after[k] == before[k - 1]);
                }
            }
            assert forall|a: int, b: int| 0 <= a < b < after.len() implies !path_less(
                #[trigger] after[b].directory,
                #[trigger] after[a].directory,
            ) by {
                if b < p {
                } else if b == p {
                    assert(after[a] == before[a]);
                } else if a < p {
                    assert(after[b] == before[b - 1]);
                    if b - 1 > a {
                        assert(!path_less(before[b - 1].directory, before[a].directory));
                    }
                } else if a == p {
                    assert(after[b] == before[b - 1]);
                    assert(path_less(item.directory, before[p as int].directory));
                    crate::paths::lemma_path_less_order(
                        before[b - 1].directory,
                        item.directory,
                        before[p as int].directory,
                    );
                    if b - 1 > p {
                        assert(!path_less(before[b - 1].directory, before[p as int].directory));
                    }
                } else {
                    assert(after[a] == before[a - 1]);
                    assert(after[b] == before[b - 1]);
                }
            }
        }
        i = i + 1;
    }
    assert(input.take(i as int) =~= input);
    assert(views_in.take(i as int) =~= views_in);
    views
}

fn lease_view(lease: &OpenLease, now: Timestamp) -> (view: LeaseView)
    ensures
        view@.lease == lease@,
        view@.status == lease_state(lease@, now),
{
    let status = if lease.expires_at.is_after(&now) {
        String::from_str("leased")
    } else {
        String::from_str("expired_in_use")
    };
    LeaseView {
        id: lease.id,
        port: lease.port,
        key: clone_key(&lease.key),
        created_at: lease.created_at,
        expires_at: lease.expires_at,
        status,
    }
}

/// Lease view `a` goes before lease view `b`: its port is lower.
pub open spec fn lease_port_order() -> spec_fn(LeaseViewModel, LeaseViewModel) -> bool {
    |a: LeaseViewModel, b: LeaseViewModel| a.lease.port < b.lease.port
}

/// How `list` shows a lease at `now`.
pub open spec fn lease_view_of(lease: LeaseModel, now: Timestamp) -> LeaseViewModel {
    LeaseViewModel { lease, status: lease_state(lease, now) }
}

/// How `list` shows `leases` at `now`: ordered by port, those on one port in
/// registry order.
pub open spec fn lease_listing(leases: Seq<LeaseModel>, now: Timestamp) -> Seq<LeaseViewModel> {
    insertion_sorted(leases.map_values(|l: LeaseModel| lease_view_of(l, now)), lease_port_order())
}

/// The views of `leases` ordered by port, each with its status at `now`.
pub fn lease_views(leases: &Vec<OpenLease>, now: Timestamp) -> (views: Vec<LeaseView>)
    ensures
        lease_view_models(views@) == lease_listing(lease_models(leases@), now),
        lists_leases(lease_view_models(views@), lease_models(leases@), now),
{
    broadcast use vstd::seq_lib::group_to_multiset_ensures;

    let ghost input = lease_models(leases@);
    let ghost views_in = input.map_values(|l: LeaseModel| lease_view_of(l, now));
    let mut views: Vec<LeaseView> = Vec::new();
    let mut i: usize = 0;
    while i < leases.len()
        invariant
            i <= leases@.len(),
            input == lease_models(leases@),
            views_in == input.map_values(|l: LeaseModel| lease_view_of(l, now)),
            lease_view_models(views@) == insertion_sorted(
                views_in.take(i as int),
                lease_port_order(),
            ),
            lease_view_models(views@).map_values(|v: LeaseViewModel| v.lease).to_multiset()
                == input.take(i as int).to_multiset(),
            forall|k: int|
                0 <= k < views@.len() ==> (#[trigger] lease_view_models(views@)[k]).status
                    == lease_state(lease_view_models(views@)[k].lease, now),
            forall|a: int, b: int|
                0 <= a < b < views@.len() ==> #[trigger] lease_view_models(views@)[a].lease.port
                    <= #[trigger] lease_view_models(views@)[b].lease.port,
        decreases leases@.len() - i,
    {
        let view = lease_view(&leases[i], now);
        let ghost before = lease_view_models(views@);
        let mut p: usize = 0;
        while p < views.len() && views[p].port <= view.port
            invariant
                p <= views@.len(),
                before == lease_view_models(views@),
                forall|k: int| 0 <= k < p ==> #[trigger] before[k].lease.port <= view@.lease.port,
            decreases views@.len() - p,
        {
            assert(before[p as int] == views@[p as int]@);
            p = p + 1;
        }
        proof {
            if p < views@.len() {
                assert(before[p as int] == views@[p as int]@);
            }
            assert forall|k: int| 0 <= k < p implies !(lease_port_order())(
                view@,
                #[trigger] before[k],
            ) by {}
            lemma_insertion_point(before, view@, lease_port_order(), p as int);
            assert(views_in[i as int] == view@);
            lemma_insertion_sorted_push(views_in.take(i as int), views_in[i as int], lease_port_order());
            assert(views_in.take(i + 1) =~= views_in.take(i as int).push(views_in[i as int]));
        }
        let ghost item = view@;
        views.insert(p, view);
        proof {
            let after = lease_view_models(views@);
            assert(after =~= before.insert(p as int, item));
            let f = |v: LeaseViewModel| v.lease;
            assert(after.map_values(f) =~= before.map_values(f).insert(p as int, item.lease));
            vstd::seq_lib::to_multiset_insert(before.map_values(f), p as int, item.lease);
            assert(input.take(i + 1) =~= input.take(i as int).push(input[i as int]));
            assert(input[i as int] == item.lease);
            vstd::seq_lib::to_multiset_build(input.take(i as int), item.lease);
            assert(after.map_values(f).to_multiset() =~= input.take(i + 1).to_multiset());
            assert forall|k: int| 0 <= k < after.len() implies (#[trigger] after[k]).status
                == lease_state(after[k].lease, now) by {
                if k < p {
                    assert(after[k] == before[k]);
                } else if k > p {
                    assert(after[k] == before[k - 1]);
                }
            }
            assert forall|a: int, b: int| 0 <= a < b < after.len() implies #[trigger] after[a].lease.port
                <= #[trigger] after[b].lease.port by {
                if b < p {
                } else if b == p {
                    assert(after[a] == before[a]);
                } else if a < p {
                    assert(after[b] == before[b - 1]);
                    if b - 1 > a {
                        assert(before[a].lease.port <= before[b - 1].lease.port);
                    }
                } else if a == p {
                    assert(after[b] == before[b - 1]);
                    assert(before[p as int].lease.port > item.lease.port);
                    if b - 1 > p {
                        assert(before[p as int].lease.port <= before[b - 1].lease.port);
                    }
                } else {
                    assert(after[a] == before[a - 1]);
                    assert(after[b] == before[b - 1]);
                }
            }
        }
        i = i + 1;
    }
    assert(input.take(i as int) =~= input);
    assert(views_in.take(i as int) =~= views_in);
    views
}

proof fn lemma_observation_ignores_grace(
    reservations: Seq<ReservationModel>,
    exists: Seq<bool>,
    now: Timestamp,
    grace: int,
)
    ensures
        observed_reservations(reservations, exists, now, SweepMode::Observe, grace)
            == observed_reservations(reservations, exists, now, SweepMode::Observe, 0),
    decreases reservations.len(),
{
    if reservations.len() > 0 {
        lemma_observation_ignores_grace(reservations.drop_last(), exists, now, grace);
    }
}

/// `list`: records which reservation directories are missing and which have
/// returned, without reaping, then shows every reservation ordered by path
/// and every lease ordered by port. `exists[i]` tells whether the directory
/// of reservation `i` exists.
pub fn list_registry(registry: &mut Registry, now: Timestamp, exists: &Vec<bool>) -> (listing: ListResult)
    requires
        exists@.len() == old(registry).reservations@.len(),
    ensures
        final(registry)@.reservations == observed_reservations(
            old(registry)@.reservations,
            exists@,
            now,
            SweepMode::Observe,
            0,
        ),
        final(registry)@.leases == old(registry)@.leases,
        final(registry)@.schema_version == old(registry)@.schema_version,
        final(registry)@.cleanup_trigger == old(registry)@.cleanup_trigger,
        lists_reservations(
            reservation_view_models(listing.reservations@),
            final(registry)@.reservations,
        ),
        lists_leases(lease_view_models(listing.leases@), final(registry)@.leases, now),
        reservation_view_models(listing.reservations@) == reservation_listing(
            final(registry)@.reservations,
        ),
        lease_view_models(listing.leases@) == lease_listing(final(registry)@.leases, now),
{
    let config = Config::default();
    let ghost before = registry@.reservations;
    match observe_missing(registry, &config, now, exists, SweepMode::Observe) {
        Ok(_) => {},
        Err(_) => {
            return ListResult { reservations: Vec::new(), leases: Vec::new() };
        },
    }
    proof {
        lemma_observation_ignores_grace(before, exists@, now, config.missing_for * NANOS_PER_SECOND);
    }
    let reservations = reservation_views(&registry.reservations);
    let leases = lease_views(&registry.open_leases, now);
    ListResult { reservations, leases }
}

// ---------------------------------------------------------------------
// clean
// ---------------------------------------------------------------------
/// The answer of `clean`.
#[derive(Clone, Copy, Debug)]
pub struct CleanResult {
    pub released_leases: usize,
    pub expired_reservations: usize,
    pub marked_missing: usize,
    pub restored: usize,
    pub reaped: usize,
    /// The automatic cleanup trigger after the pass.
    pub cleanup_trigger: usize,
}

impl CleanResult {
    /// The counts of an expiration sweep and a missing-directory pass, with
    /// the registry's cleanup trigger after them.
    pub fn new(expiration: ExpirationStats, missing: MissingStats, registry: &Registry) -> (result: Self)
        ensures
            result.released_leases == expiration.released_leases,
            result.expired_reservations == expiration.expired_reservations,
            result.marked_missing == missing.marked_missing,
            result.restored == missing.restored,
            result.reaped == missing.reaped,
            result.cleanup_trigger == registry@.cleanup_trigger,
    {
        CleanResult {
            released_leases: expiration.released_leases,
            expired_reservations: expiration.expired_reservations,
            marked_missing: missing.marked_missing,
            restored: missing.restored,
            reaped: missing.reaped,
            cleanup_trigger: registry.maintenance.cleanup_trigger,
        }
    }

    /// The labelled counts that plain output shows, led by `reaped`.
    pub fn rows(&self) -> (rows: Vec<(&'static str, usize)>)
        ensures
            rows@ == seq![
                ("reaped", self.reaped),
                ("released leases", self.released_leases),
                ("expired reservations", self.expired_reservations),
                ("marked missing", self.marked_missing),
                ("restored", self.restored),
                ("next automatic cleanup", self.cleanup_trigger),
            ],
    {
        let mut rows: Vec<(&'static str, usize)> = Vec::new();
        rows.push(("reaped", self.reaped));
        rows.push(("released leases", self.released_leases));
        rows.push(("expired reservations", self.expired_reservations));
        rows.push(("marked missing", self.marked_missing));
        rows.push(("restored", self.restored));
        rows.push(("next automatic cleanup", self.cleanup_trigger));
        assert(rows@ =~= seq![
            ("reaped", self.reaped),
            ("released leases", self.released_leases),
            ("expired reservations", self.expired_reservations),
            ("marked missing", self.marked_missing),
            ("restored", self.restored),
            ("next automatic cleanup", self.cleanup_trigger),
        ]);
        rows
    }
}

} // verus!
