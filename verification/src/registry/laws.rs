//! Every registry operation keeps a valid registry valid, so a transaction
//! never commits a registry that `validate` would refuse.
use vstd::prelude::*;

use crate::registry::model::{
    allocation_ok, allocation_port_list, allocation_ports, id_list, keys_clash, lease_ok,
    lease_port_list, port_list, reservation_ok, valid_registry, AllocationModel, LeaseModel,
    RegistryModel, ReservationModel, CLEANUP_TRIGGER_CAP, REGISTRY_SCHEMA_VERSION,
};
use crate::paths::same_path;
use crate::service::{
    after_observation, allocations_without, key_ports, leases_without, live_reservations,
    next_trigger, observed_reservations, released_reservations, reservations_without,
    surviving_leases, SweepMode,
};
use crate::timestamp::Timestamp;
use crate::service::{
    added_allocations, allocation_count, existing_allocations, has_key, lemma_key_index,
    new_allocations, new_key_count, no_reservation, reservation_at, reserved_reservation,
    answered_allocations, key_index, reused_key_list, lease_with_key, lemma_new_key_count_prefix,
};
use crate::views::selected_allocation;
use crate::paths::is_absolute_path;
use crate::subsequence::{
    lemma_concat_no_duplicates, lemma_subseq_concat, lemma_subseq_elements, lemma_subseq_map,
    lemma_subseq_no_duplicates, lemma_subseq_pairs, lemma_subseq_pointwise,
    lemma_subseq_reflexive, lemma_subseq_remove, lemma_subseq_weaken, stands_for_pair, subseq,
    subseq_by,
};

verus! {

/// `b` is what an operation that only drops things left of reservation `a`:
/// the same identity, directory and deadlines, a subsequence of its
/// allocations that is not empty, and a missing mark that is unchanged,
/// cleared, or a UTC instant.
pub open spec fn reservation_kept(b: ReservationModel, a: ReservationModel) -> bool {
    &&& b.id == a.id
    &&& b.directory == a.directory
    &&& b.created_at == a.created_at
    &&& b.expires_at == a.expires_at
    &&& (b.missing_since matches Some(t) ==> (t.is_utc() || b.missing_since == a.missing_since))
    &&& subseq(b.allocations, a.allocations)
    &&& b.allocations.len() > 0
}

/// `b` keeps a subsequence of the leases of `a` and of its reservations,
/// each kept reservation per `reservation_kept`.
pub open spec fn registry_kept(b: RegistryModel, a: RegistryModel) -> bool {
    &&& b.schema_version == a.schema_version
    &&& subseq(b.leases, a.leases)
    &&& subseq_by(b.reservations, a.reservations, |x: ReservationModel, y: ReservationModel| reservation_kept(x, y))
}

proof fn lemma_subseq_empty<A>(s: Seq<A>)
    ensures
        subseq(Seq::<A>::empty(), s),
    decreases s.len(),
{
    if s.len() > 0 {
        lemma_subseq_empty(s.drop_last());
    }
}

/// A subsequence stays one when more elements follow the larger sequence.
proof fn lemma_subseq_extend<A>(small: Seq<A>, large: Seq<A>, more: Seq<A>)
    requires
        subseq(small, large),
    ensures
        subseq(small, large + more),
{
    lemma_subseq_empty(more);
    lemma_subseq_concat(small, large, Seq::<A>::empty(), more, |x: A, y: A| x == y);
    assert(small + Seq::<A>::empty() =~= small);
}

/// The allocation ports of kept reservations are a subsequence of those of
/// the reservations they were kept from.
proof fn lemma_allocation_ports_kept(b: Seq<ReservationModel>, a: Seq<ReservationModel>)
    requires
        subseq_by(b, a, |x: ReservationModel, y: ReservationModel| reservation_kept(x, y)),
    ensures
        subseq(allocation_ports(b), allocation_ports(a)),
    decreases a.len(),
{
    let rel = |x: ReservationModel, y: ReservationModel| reservation_kept(x, y);
    let eq = |x: AllocationModel, y: AllocationModel| x == y;
    let port = |x: AllocationModel| x.port;
    if a.len() == 0 {
        assert(b.len() == 0);
        assert(allocation_ports(b) =~= Seq::<u16>::empty());
        lemma_subseq_empty(allocation_ports(a));
    } else if b.len() > 0 && rel(b.last(), a.last()) && subseq_by(b.drop_last(), a.drop_last(), rel) {
        lemma_allocation_ports_kept(b.drop_last(), a.drop_last());
        lemma_subseq_map(b.last().allocations, a.last().allocations, eq, port, port);
        lemma_subseq_concat(
            allocation_ports(b.drop_last()),
            allocation_ports(a.drop_last()),
            allocation_port_list(b.last().allocations),
            allocation_port_list(a.last().allocations),
            |x: u16, y: u16| x == y,
        );
    } else {
        lemma_allocation_ports_kept(b, a.drop_last());
        lemma_subseq_extend(
            allocation_ports(b),
            allocation_ports(a.drop_last()),
            allocation_port_list(a.last().allocations),
        );
    }
}

/// A registry that keeps part of a valid registry, with a trigger in range,
/// is valid.
pub proof fn lemma_kept_registry_valid(b: RegistryModel, a: RegistryModel)
    requires
        valid_registry(a),
        registry_kept(b, a),
        1 <= b.cleanup_trigger <= CLEANUP_TRIGGER_CAP,
    ensures
        valid_registry(b),
{
    let rel = |x: ReservationModel, y: ReservationModel| reservation_kept(x, y);
    let eq_lease = |x: LeaseModel, y: LeaseModel| x == y;
    let eq_alloc = |x: AllocationModel, y: AllocationModel| x == y;
    // Identifiers.
    lemma_subseq_map(b.leases, a.leases, eq_lease, |l: LeaseModel| l.id, |l: LeaseModel| l.id);
    lemma_subseq_map(
        b.reservations,
        a.reservations,
        rel,
        |r: ReservationModel| r.id,
        |r: ReservationModel| r.id,
    );
    lemma_subseq_concat(
        b.leases.map_values(|l: LeaseModel| l.id),
        a.leases.map_values(|l: LeaseModel| l.id),
        b.reservations.map_values(|r: ReservationModel| r.id),
        a.reservations.map_values(|r: ReservationModel| r.id),
        |x: u128, y: u128| x == y,
    );
    lemma_subseq_no_duplicates(id_list(b), id_list(a));
    // Ports.
    lemma_subseq_map(b.leases, a.leases, eq_lease, |l: LeaseModel| l.port, |l: LeaseModel| l.port);
    lemma_allocation_ports_kept(b.reservations, a.reservations);
    lemma_subseq_concat(
        lease_port_list(b.leases),
        lease_port_list(a.leases),
        allocation_ports(b.reservations),
        allocation_ports(a.reservations),
        |x: u16, y: u16| x == y,
    );
    lemma_subseq_no_duplicates(port_list(b), port_list(a));
    // Leases.
    lemma_subseq_elements(b.leases, a.leases, eq_lease);
    lemma_subseq_pairs(b.leases, a.leases, eq_lease);
    assert forall|i: int| 0 <= i < b.leases.len() implies lease_ok(#[trigger] b.leases[i]) by {
        let j = choose|j: int| 0 <= j < a.leases.len() && eq_lease(b.leases[i], a.leases[j]);
        assert(lease_ok(a.leases[j]));
    }
    assert forall|i: int, k: int| 0 <= i < k < b.leases.len() implies !keys_clash(
        #[trigger] b.leases[i].key,
        #[trigger] b.leases[k].key,
    ) by {
        assert(stands_for_pair(b.leases, a.leases, eq_lease, i, k));
        let (j, l) = choose|j: int, l: int|
            0 <= j < l < a.leases.len() && eq_lease(b.leases[i], a.leases[j]) && eq_lease(
                b.leases[k],
                a.leases[l],
            );
        assert(!keys_clash(a.leases[j].key, a.leases[l].key));
    }
    // Reservations.
    lemma_subseq_elements(b.reservations, a.reservations, rel);
    lemma_subseq_pairs(b.reservations, a.reservations, rel);
    assert forall|i: int| 0 <= i < b.reservations.len() implies reservation_ok(
        #[trigger] b.reservations[i],
    ) by {
        let j = choose|j: int| 0 <= j < a.reservations.len() && rel(b.reservations[i], a.reservations[j]);
        let x = b.reservations[i];
        let y = a.reservations[j];
        assert(reservation_ok(y));
        lemma_subseq_elements(x.allocations, y.allocations, eq_alloc);
        lemma_subseq_pairs(x.allocations, y.allocations, eq_alloc);
        assert forall|p: int| 0 <= p < x.allocations.len() implies allocation_ok(
            #[trigger] x.allocations[p],
        ) by {
            let q = choose|q: int| 0 <= q < y.allocations.len() && eq_alloc(x.allocations[p], y.allocations[q]);
            assert(allocation_ok(y.allocations[q]));
        }
        assert forall|p: int, q: int| 0 <= p < q < x.allocations.len() implies !keys_clash(
            #[trigger] x.allocations[p].key,
            #[trigger] x.allocations[q].key,
        ) by {
            assert(stands_for_pair(x.allocations, y.allocations, eq_alloc, p, q));
            let (j2, l2) = choose|j2: int, l2: int|
                0 <= j2 < l2 < y.allocations.len() && eq_alloc(x.allocations[p], y.allocations[j2])
                    && eq_alloc(x.allocations[q], y.allocations[l2]);
            assert(!keys_clash(y.allocations[j2].key, y.allocations[l2].key));
        }
    }
    assert forall|i: int, k: int| 0 <= i < k < b.reservations.len() implies !same_path(
        #[trigger] b.reservations[i].directory,
        #[trigger] b.reservations[k].directory,
    ) by {
        assert(stands_for_pair(b.reservations, a.reservations, rel, i, k));
        let (j, l) = choose|j: int, l: int|
            0 <= j < l < a.reservations.len() && rel(b.reservations[i], a.reservations[j]) && rel(
                b.reservations[k],
                a.reservations[l],
            );
        assert(!same_path(a.reservations[j].directory, a.reservations[l].directory));
    }
}

proof fn lemma_kept_reflexive(reservations: Seq<ReservationModel>)
    requires
        forall|i: int| 0 <= i < reservations.len() ==> #[trigger] reservations[i].allocations.len() > 0,
    ensures
        forall|x: ReservationModel, y: ReservationModel|
            #![trigger reservation_kept(x, y)]
            x == y && y.allocations.len() > 0 ==> reservation_kept(x, y),
{
    assert forall|x: ReservationModel, y: ReservationModel|
        x == y && y.allocations.len() > 0 implies #[trigger] reservation_kept(x, y) by {
        lemma_subseq_reflexive(y.allocations, |p: AllocationModel, q: AllocationModel| p == q);
    }
}

/// A plain subsequence of valid reservations is a kept one.
proof fn lemma_subseq_kept(b: Seq<ReservationModel>, a: Seq<ReservationModel>)
    requires
        subseq(b, a),
        forall|i: int| 0 <= i < a.len() ==> #[trigger] a[i].allocations.len() > 0,
    ensures
        subseq_by(b, a, |x: ReservationModel, y: ReservationModel| reservation_kept(x, y)),
{
    lemma_kept_reflexive(a);
    lemma_subseq_weaken(
        b,
        a,
        |x: ReservationModel, y: ReservationModel| x == y,
        |x: ReservationModel, y: ReservationModel| reservation_kept(x, y),
        |y: ReservationModel| y.allocations.len() > 0,
    );
}

proof fn lemma_valid_allocations_nonempty(registry: RegistryModel)
    requires
        valid_registry(registry),
    ensures
        forall|i: int|
            0 <= i < registry.reservations.len() ==> #[trigger] registry.reservations[i].allocations.len()
                > 0,
{
    assert forall|i: int| 0 <= i < registry.reservations.len() implies #[trigger] registry.reservations[i].allocations.len()
        > 0 by {
        assert(reservation_ok(registry.reservations[i]));
    }
}

proof fn lemma_surviving_leases_subseq(leases: Seq<LeaseModel>, bound: Seq<bool>, now: Timestamp)
    ensures
        subseq(surviving_leases(leases, bound, now), leases),
    decreases leases.len(),
{
    if leases.len() > 0 {
        lemma_surviving_leases_subseq(leases.drop_last(), bound, now);
        let rest = surviving_leases(leases.drop_last(), bound, now);
        assert(rest.push(leases.last()).drop_last() =~= rest);
    }
}

proof fn lemma_live_reservations_subseq(reservations: Seq<ReservationModel>, now: Timestamp)
    ensures
        subseq(live_reservations(reservations, now), reservations),
    decreases reservations.len(),
{
    if reservations.len() > 0 {
        lemma_live_reservations_subseq(reservations.drop_last(), now);
        let rest = live_reservations(reservations.drop_last(), now);
        assert(rest.push(reservations.last()).drop_last() =~= rest);
    }
}

proof fn lemma_observed_kept(
    reservations: Seq<ReservationModel>,
    exists: Seq<bool>,
    now: Timestamp,
    mode: SweepMode,
    grace: int,
)
    requires
        now.is_utc(),
        forall|i: int| 0 <= i < reservations.len() ==> #[trigger] reservations[i].allocations.len() > 0,
    ensures
        subseq_by(
            observed_reservations(reservations, exists, now, mode, grace),
            reservations,
            |x: ReservationModel, y: ReservationModel| reservation_kept(x, y),
        ),
    decreases reservations.len(),
{
    if reservations.len() > 0 {
        let last = reservations.last();
        assert(last.allocations.len() > 0);
        assert forall|i: int| 0 <= i < reservations.drop_last().len() implies #[trigger] reservations.drop_last()[i].allocations.len()
            > 0 by {
            assert(reservations.drop_last()[i] == reservations[i]);
        }
        lemma_observed_kept(reservations.drop_last(), exists, now, mode, grace);
        let rest = observed_reservations(reservations.drop_last(), exists, now, mode, grace);
        lemma_subseq_reflexive(last.allocations, |p: AllocationModel, q: AllocationModel| p == q);
        match after_observation(last, exists[reservations.len() - 1], now, mode, grace) {
            Some(r) => {
                assert(rest.push(r).drop_last() =~= rest);
                assert(reservation_kept(r, last));
            },
            None => {},
        }
    }
}

proof fn lemma_leases_without_subseq(leases: Seq<LeaseModel>, ports: Set<u16>)
    ensures
        subseq(leases_without(leases, ports), leases),
    decreases leases.len(),
{
    if leases.len() > 0 {
        lemma_leases_without_subseq(leases.drop_last(), ports);
        let rest = leases_without(leases.drop_last(), ports);
        assert(rest.push(leases.last()).drop_last() =~= rest);
    }
}

proof fn lemma_allocations_without_subseq(allocations: Seq<AllocationModel>, ports: Set<u16>)
    ensures
        subseq(allocations_without(allocations, ports), allocations),
    decreases allocations.len(),
{
    if allocations.len() > 0 {
        lemma_allocations_without_subseq(allocations.drop_last(), ports);
        let rest = allocations_without(allocations.drop_last(), ports);
        assert(rest.push(allocations.last()).drop_last() =~= rest);
    }
}

proof fn lemma_reservations_without_kept(reservations: Seq<ReservationModel>, ports: Set<u16>)
    ensures
        subseq_by(
            reservations_without(reservations, ports),
            reservations,
            |x: ReservationModel, y: ReservationModel| reservation_kept(x, y),
        ),
    decreases reservations.len(),
{
    if reservations.len() > 0 {
        lemma_reservations_without_kept(reservations.drop_last(), ports);
        let rest = reservations_without(reservations.drop_last(), ports);
        let r = reservations.last();
        let kept = allocations_without(r.allocations, ports);
        lemma_allocations_without_subseq(r.allocations, ports);
        if kept.len() > 0 {
            let updated = ReservationModel { allocations: kept, ..r };
            assert(rest.push(updated).drop_last() =~= rest);
            assert(reservation_kept(updated, r));
        }
    }
}

/// An expiration sweep keeps a valid registry valid.
pub proof fn lemma_sweep_keeps_registry_valid(registry: RegistryModel, bound: Seq<bool>, now: Timestamp)
    requires
        valid_registry(registry),
    ensures
        valid_registry(
            RegistryModel {
                leases: surviving_leases(registry.leases, bound, now),
                reservations: live_reservations(registry.reservations, now),
                ..registry
            },
        ),
{
    let after = RegistryModel {
        leases: surviving_leases(registry.leases, bound, now),
        reservations: live_reservations(registry.reservations, now),
        ..registry
    };
    lemma_valid_allocations_nonempty(registry);
    lemma_surviving_leases_subseq(registry.leases, bound, now);
    lemma_live_reservations_subseq(registry.reservations, now);
    lemma_subseq_kept(after.reservations, registry.reservations);
    lemma_kept_registry_valid(after, registry);
}

/// A missing-directory pass, in any mode, keeps a valid registry valid when
/// the missing marks it records are UTC instants.
pub proof fn lemma_observation_keeps_registry_valid(
    registry: RegistryModel,
    exists: Seq<bool>,
    now: Timestamp,
    mode: SweepMode,
    grace: int,
)
    requires
        valid_registry(registry),
        now.is_utc(),
    ensures
        valid_registry(
            RegistryModel {
                reservations: observed_reservations(registry.reservations, exists, now, mode, grace),
                ..registry
            },
        ),
{
    let after = RegistryModel {
        reservations: observed_reservations(registry.reservations, exists, now, mode, grace),
        ..registry
    };
    lemma_valid_allocations_nonempty(registry);
    lemma_observed_kept(registry.reservations, exists, now, mode, grace);
    lemma_subseq_reflexive(registry.leases, |x: LeaseModel, y: LeaseModel| x == y);
    lemma_kept_registry_valid(after, registry);
}

/// The automatic cleanup keeps a valid registry valid: its trigger stays
/// within `1..=100`.
pub proof fn lemma_automatic_cleanup_keeps_registry_valid(
    registry: RegistryModel,
    exists: Seq<bool>,
    now: Timestamp,
    grace: int,
    step: nat,
)
    requires
        valid_registry(registry),
        now.is_utc(),
    ensures
        ({
            let after = observed_reservations(
                registry.reservations,
                exists,
                now,
                SweepMode::Reap,
                grace,
            );
            let trigger = next_trigger(
                registry.cleanup_trigger as int,
                step as int,
                registry.reservations.len() - after.len(),
            );
            &&& 1 <= trigger <= CLEANUP_TRIGGER_CAP
            &&& valid_registry(
                RegistryModel { reservations: after, cleanup_trigger: trigger as usize, ..registry },
            )
        }),
{
    let after = observed_reservations(registry.reservations, exists, now, SweepMode::Reap, grace);
    let trigger = next_trigger(
        registry.cleanup_trigger as int,
        step as int,
        registry.reservations.len() - after.len(),
    );
    lemma_valid_allocations_nonempty(registry);
    lemma_observed_kept(registry.reservations, exists, now, SweepMode::Reap, grace);
    lemma_subseq_reflexive(registry.leases, |x: LeaseModel, y: LeaseModel| x == y);
    lemma_kept_registry_valid(
        RegistryModel { reservations: after, cleanup_trigger: trigger as usize, ..registry },
        registry,
    );
}

/// Releasing ports keeps a valid registry valid.
pub proof fn lemma_release_ports_keeps_registry_valid(registry: RegistryModel, ports: Set<u16>)
    requires
        valid_registry(registry),
    ensures
        valid_registry(
            RegistryModel {
                leases: leases_without(registry.leases, ports),
                reservations: reservations_without(registry.reservations, ports),
                ..registry
            },
        ),
{
    let after = RegistryModel {
        leases: leases_without(registry.leases, ports),
        reservations: reservations_without(registry.reservations, ports),
        ..registry
    };
    lemma_leases_without_subseq(registry.leases, ports);
    lemma_reservations_without_kept(registry.reservations, ports);
    lemma_kept_registry_valid(after, registry);
}

/// Releasing a directory's reservation, or some of its keys, keeps a valid
/// registry valid.
pub proof fn lemma_release_keys_keeps_registry_valid(
    registry: RegistryModel,
    index: int,
    keys: Seq<Seq<char>>,
)
    requires
        valid_registry(registry),
        0 <= index < registry.reservations.len(),
    ensures
        valid_registry(
            RegistryModel {
                reservations: released_reservations(registry.reservations, index, keys),
                ..registry
            },
        ),
{
    let before = registry.reservations;
    let after = RegistryModel {
        reservations: released_reservations(before, index, keys),
        ..registry
    };
    lemma_valid_allocations_nonempty(registry);
    lemma_subseq_reflexive(registry.leases, |x: LeaseModel, y: LeaseModel| x == y);
    let r = before[index];
    let remaining = allocations_without(r.allocations, key_ports(keys, r.allocations));
    if keys.len() == 0 || remaining.len() == 0 {
        lemma_subseq_remove(before, index);
        lemma_subseq_kept(before.remove(index), before);
    } else {
        let updated = ReservationModel { allocations: remaining, ..r };
        lemma_allocations_without_subseq(r.allocations, key_ports(keys, r.allocations));
        lemma_kept_reflexive(before);
        let b = before.update(index, updated);
        assert forall|i: int| 0 <= i < b.len() implies reservation_kept(#[trigger] b[i], before[i]) by {
            if i != index {
                assert(b[i] == before[i]);
                assert(before[i].allocations.len() > 0);
            }
        }
        lemma_subseq_pointwise(
            b,
            before,
            |x: ReservationModel, y: ReservationModel| reservation_kept(x, y),
        );
    }
    lemma_kept_registry_valid(after, registry);
}

/// Renewing a lease with a UTC deadline after its creation keeps a valid
/// registry valid.
pub proof fn lemma_renew_keeps_registry_valid(registry: RegistryModel, index: int, expires_at: Timestamp)
    requires
        valid_registry(registry),
        0 <= index < registry.leases.len(),
        expires_at.is_utc(),
        expires_at.unix_nanos > registry.leases[index].created_at.unix_nanos,
    ensures
        valid_registry(
            RegistryModel {
                leases: registry.leases.update(
                    index,
                    LeaseModel { expires_at, ..registry.leases[index] },
                ),
                ..registry
            },
        ),
{
    let renewed = LeaseModel { expires_at, ..registry.leases[index] };
    let after = RegistryModel { leases: registry.leases.update(index, renewed), ..registry };
    assert(after.leases.map_values(|l: LeaseModel| l.id) =~= registry.leases.map_values(
        |l: LeaseModel| l.id,
    ));
    assert(id_list(after) =~= id_list(registry));
    assert(lease_port_list(after.leases) =~= lease_port_list(registry.leases));
    assert(port_list(after) =~= port_list(registry));
    assert(lease_ok(registry.leases[index]));
    assert forall|i: int| 0 <= i < after.leases.len() implies lease_ok(#[trigger] after.leases[i]) by {
        if i != index {
            assert(after.leases[i] == registry.leases[i]);
        }
    }
    assert forall|i: int, k: int| 0 <= i < k < after.leases.len() implies !keys_clash(
        #[trigger] after.leases[i].key,
        #[trigger] after.leases[k].key,
    ) by {
        assert(after.leases[i].key == registry.leases[i].key);
        assert(after.leases[k].key == registry.leases[k].key);
    }
}

/// Adding a lease keeps a valid registry valid when its ID is new, its port
/// is nonzero and unregistered, its key is unused by other leases, and it is
/// well formed.
pub proof fn lemma_new_lease_keeps_registry_valid(registry: RegistryModel, lease: LeaseModel)
    requires
        valid_registry(registry),
        lease_ok(lease),
        lease.port != 0,
        !port_list(registry).contains(lease.port),
        !id_list(registry).contains(lease.id),
        forall|i: int| 0 <= i < registry.leases.len() ==> !keys_clash(#[trigger] registry.leases[i].key, lease.key),
    ensures
        valid_registry(RegistryModel { leases: registry.leases.push(lease), ..registry }),
{
    let after = RegistryModel { leases: registry.leases.push(lease), ..registry };
    let lease_ids = registry.leases.map_values(|l: LeaseModel| l.id);
    let reservation_ids = registry.reservations.map_values(|r: ReservationModel| r.id);
    assert(after.leases.map_values(|l: LeaseModel| l.id) =~= lease_ids.push(lease.id));
    lemma_concat_no_duplicates(lease_ids, reservation_ids);
    lemma_concat_no_duplicates(lease_ids.push(lease.id), reservation_ids);
    assert(lease_ids.push(lease.id).no_duplicates()) by {
        if lease_ids.contains(lease.id) {
            let i = choose|i: int| 0 <= i < lease_ids.len() && lease_ids[i] == lease.id;
            assert(id_list(registry)[i] == lease.id);
        }
        lemma_push_no_duplicates(lease_ids, lease.id);
    }
    assert forall|x: u128| !(lease_ids.push(lease.id).contains(x) && reservation_ids.contains(x)) by {
        if lease_ids.push(lease.id).contains(x) && reservation_ids.contains(x) {
            let i = choose|i: int| 0 <= i < lease_ids.push(lease.id).len() && lease_ids.push(lease.id)[i] == x;
            if i < lease_ids.len() {
                assert(lease_ids.contains(x));
            } else {
                let j = choose|j: int| 0 <= j < reservation_ids.len() && reservation_ids[j] == x;
                assert(id_list(registry)[lease_ids.len() + j] == x);
            }
        }
    }
    let lease_ports = lease_port_list(registry.leases);
    let reservation_ports = allocation_ports(registry.reservations);
    assert(lease_port_list(after.leases) =~= lease_ports.push(lease.port));
    lemma_concat_no_duplicates(lease_ports, reservation_ports);
    lemma_concat_no_duplicates(lease_ports.push(lease.port), reservation_ports);
    assert(lease_ports.push(lease.port).no_duplicates()) by {
        if lease_ports.contains(lease.port) {
            let i = choose|i: int| 0 <= i < lease_ports.len() && lease_ports[i] == lease.port;
            assert(port_list(registry)[i] == lease.port);
        }
        lemma_push_no_duplicates(lease_ports, lease.port);
    }
    assert forall|x: u16| !(lease_ports.push(lease.port).contains(x) && reservation_ports.contains(x)) by {
        if lease_ports.push(lease.port).contains(x) && reservation_ports.contains(x) {
            let i = choose|i: int| 0 <= i < lease_ports.push(lease.port).len() && lease_ports.push(lease.port)[i] == x;
            if i < lease_ports.len() {
                assert(lease_ports.contains(x));
            } else {
                let j = choose|j: int| 0 <= j < reservation_ports.len() && reservation_ports[j] == x;
                assert(port_list(registry)[lease_ports.len() + j] == x);
            }
        }
    }
    assert(!port_list(after).contains(0u16)) by {
        if port_list(after).contains(0u16) {
            let i = choose|i: int| 0 <= i < port_list(after).len() && port_list(after)[i] == 0u16;
            if i < lease_ports.len() {
                assert(port_list(registry)[i] == 0u16);
            } else if i > lease_ports.len() {
                assert(port_list(registry)[i - 1] == 0u16);
            }
        }
    }
    assert forall|i: int| 0 <= i < after.leases.len() implies lease_ok(#[trigger] after.leases[i]) by {
        if i < registry.leases.len() {
            assert(after.leases[i] == registry.leases[i]);
        }
    }
    assert forall|i: int, k: int| 0 <= i < k < after.leases.len() implies !keys_clash(
        #[trigger] after.leases[i].key,
        #[trigger] after.leases[k].key,
    ) by {
        assert(after.leases[i] == registry.leases[i]);
        if k < registry.leases.len() {
            assert(after.leases[k] == registry.leases[k]);
        }
    }
}

proof fn lemma_push_no_duplicates<A>(s: Seq<A>, x: A)
    requires
        s.no_duplicates(),
        !s.contains(x),
    ensures
        s.push(x).no_duplicates(),
{
    assert forall|i: int, j: int| 0 <= i < s.push(x).len() && 0 <= j < s.push(x).len() && i != j implies s.push(x)[i]
        != s.push(x)[j] by {
        if i < s.len() && j < s.len() {
        } else if i < s.len() {
            assert(s.contains(s[i]));
        } else {
            assert(s.contains(s[j]));
        }
    }
}

// ---------------------------------------------------------------------
// Reservations
// ---------------------------------------------------------------------
proof fn lemma_added_ports(
    keys: Seq<Seq<char>>,
    existing: Seq<AllocationModel>,
    ports: Seq<u16>,
    now: Timestamp,
)
    requires
        new_key_count(keys, existing) <= ports.len(),
    ensures
        added_allocations(keys, existing, ports, now).map_values(|a: AllocationModel| a.port)
            =~= ports.take(new_key_count(keys, existing) as int),
    decreases keys.len(),
{
    if keys.len() > 0 {
        lemma_added_ports(keys.drop_last(), existing, ports, now);
        let c = new_key_count(keys.drop_last(), existing);
        if !has_key(existing, keys.last()) {
            assert(ports.take(c + 1 as int) =~= ports.take(c as int).push(ports[c as int]));
        }
    }
}

/// The key of an allocation a request adds is one of the requested keys that
/// had no allocation yet.
pub open spec fn added_key(keys: Seq<Seq<char>>, existing: Seq<AllocationModel>, allocation: AllocationModel) -> bool {
    exists|j: int|
        0 <= j < keys.len() && allocation.key == Some(keys[j]) && !has_key(existing, #[trigger] keys[j])
}

proof fn lemma_added_keys(
    keys: Seq<Seq<char>>,
    existing: Seq<AllocationModel>,
    ports: Seq<u16>,
    now: Timestamp,
)
    requires
        keys.no_duplicates(),
    ensures
        forall|p: int|
            0 <= p < added_allocations(keys, existing, ports, now).len() ==> {
                let a = #[trigger] added_allocations(keys, existing, ports, now)[p];
                a.created_at == now && added_key(keys, existing, a)
            },
        forall|p: int, q: int|
            0 <= p < q < added_allocations(keys, existing, ports, now).len() ==> #[trigger] added_allocations(
                keys,
                existing,
                ports,
                now,
            )[p].key != #[trigger] added_allocations(keys, existing, ports, now)[q].key,
    decreases keys.len(),
{
    if keys.len() > 0 {
        let front = keys.drop_last();
        assert(front.no_duplicates());
        lemma_added_keys(front, existing, ports, now);
        let rest = added_allocations(front, existing, ports, now);
        let all = added_allocations(keys, existing, ports, now);
        assert forall|p: int| 0 <= p < rest.len() implies added_key(keys, existing, #[trigger] rest[p]) by {
            let a = rest[p];
            assert(added_key(front, existing, a));
            let j = choose|j: int|
                0 <= j < front.len() && a.key == Some(front[j]) && !has_key(existing, #[trigger] front[j]);
            assert(keys[j] == front[j]);
        }
        assert forall|p: int| 0 <= p < rest.len() implies (#[trigger] rest[p]).key != Some(keys.last()) by {
            let a = rest[p];
            assert(added_key(front, existing, a));
            let j = choose|j: int|
                0 <= j < front.len() && a.key == Some(front[j]) && !has_key(existing, #[trigger] front[j]);
            assert(keys[j] == front[j]);
            assert(keys[j] != keys[keys.len() - 1]);
        }
        if !has_key(existing, keys.last()) {
            assert(all[all.len() - 1].key == Some(keys[keys.len() - 1]));
            assert(added_key(keys, existing, all[all.len() - 1]));
            assert forall|p: int| 0 <= p < all.len() - 1 implies all[p] == rest[p] by {}
        }
    }
}

proof fn lemma_new_key_count_fresh(keys: Seq<Seq<char>>)
    ensures
        new_key_count(keys, Seq::<AllocationModel>::empty()) == keys.len(),
    decreases keys.len(),
{
    if keys.len() > 0 {
        lemma_new_key_count_fresh(keys.drop_last());
    }
}

proof fn lemma_allocation_ports_concat(x: Seq<ReservationModel>, y: Seq<ReservationModel>)
    ensures
        allocation_ports(x + y) =~= allocation_ports(x) + allocation_ports(y),
    decreases y.len(),
{
    if y.len() > 0 {
        lemma_allocation_ports_concat(x, y.drop_last());
        assert((x + y).drop_last() =~= x + y.drop_last());
        assert((x + y).last() == y.last());
    } else {
        assert(x + y =~= x);
    }
}

/// The allocations a request adds: their ports are exactly the selected
/// ports, they are well formed, and their keys are new and distinct.
proof fn lemma_new_allocations_facts(
    keys: Seq<Seq<char>>,
    existing: Seq<AllocationModel>,
    ports: Seq<u16>,
    now: Timestamp,
)
    requires
        ports.len() == allocation_count(keys, existing),
        forall|i: int| 0 <= i < keys.len() ==> #[trigger] keys[i].len() > 0,
        keys.no_duplicates(),
        now.is_utc(),
    ensures
        ({
            let added = new_allocations(keys, existing, ports, now);
            &&& added.map_values(|a: AllocationModel| a.port) =~= ports
            &&& forall|p: int| 0 <= p < added.len() ==> allocation_ok(#[trigger] added[p])
            &&& forall|p: int, q: int|
                0 <= p < q < added.len() ==> !keys_clash(#[trigger] added[p].key, #[trigger] added[q].key)
            &&& forall|p: int, i: int|
                0 <= p < added.len() && 0 <= i < existing.len() ==> !keys_clash(
                    #[trigger] existing[i].key,
                    #[trigger] added[p].key,
                )
        }),
{
    let added = new_allocations(keys, existing, ports, now);
    if keys.len() == 0 {
        assert(added.map_values(|a: AllocationModel| a.port) =~= ports);
    } else {
        lemma_added_ports(keys, existing, ports, now);
        assert(ports.take(ports.len() as int) =~= ports);
        lemma_added_keys(keys, existing, ports, now);
        assert forall|p: int| 0 <= p < added.len() implies allocation_ok(#[trigger] added[p]) by {
            assert(added_key(keys, existing, added[p]));
            let j = choose|j: int|
                0 <= j < keys.len() && added[p].key == Some(keys[j]) && !has_key(existing, #[trigger] keys[j]);
        }
        assert forall|p: int, i: int|
            0 <= p < added.len() && 0 <= i < existing.len() implies !keys_clash(
                #[trigger] existing[i].key,
                #[trigger] added[p].key,
            ) by {
            assert(added_key(keys, existing, added[p]));
            let j = choose|j: int|
                0 <= j < keys.len() && added[p].key == Some(keys[j]) && !has_key(existing, #[trigger] keys[j]);
            lemma_key_index(existing, keys[j]);
        }
    }
}

/// Adding allocations on fresh, distinct, nonzero ports after a list without
/// duplicates keeps it without duplicates and without zero.
proof fn lemma_insert_fresh_ports(front: Seq<u16>, added: Seq<u16>, back: Seq<u16>)
    requires
        (front + back).no_duplicates(),
        !(front + back).contains(0u16),
        added.no_duplicates(),
        forall|i: int| 0 <= i < added.len() ==> #[trigger] added[i] != 0 && !(front + back).contains(added[i]),
    ensures
        (front + added + back).no_duplicates(),
        !(front + added + back).contains(0u16),
{
    lemma_concat_no_duplicates(front, back);
    lemma_concat_no_duplicates(front, added);
    lemma_concat_no_duplicates(front + added, back);
    assert forall|x: u16| !(front.contains(x) && added.contains(x)) by {
        if front.contains(x) && added.contains(x) {
            let i = choose|i: int| 0 <= i < front.len() && front[i] == x;
            let k = choose|k: int| 0 <= k < added.len() && added[k] == x;
            assert((front + back)[i] == x);
        }
    }
    assert forall|x: u16| !((front + added).contains(x) && back.contains(x)) by {
        if (front + added).contains(x) && back.contains(x) {
            let i = choose|i: int| 0 <= i < (front + added).len() && (front + added)[i] == x;
            let k = choose|k: int| 0 <= k < back.len() && back[k] == x;
            assert((front + back)[front.len() + k] == x);
            if i < front.len() {
                assert(front[i] == x);
                assert(front.contains(x));
            } else {
                assert(added[i - front.len()] == x);
            }
        }
    }
    if (front + added + back).contains(0u16) {
        let i = choose|i: int| 0 <= i < (front + added + back).len() && (front + added + back)[i] == 0u16;
        if i < front.len() {
            assert((front + back)[i] == 0u16);
        } else if i < front.len() + added.len() {
            assert(added[i - front.len()] == 0u16);
        } else {
            assert((front + back)[i - added.len()] == 0u16);
        }
    }
}

/// A reservation request keeps a valid registry valid when its selected
/// ports are distinct, nonzero and unregistered, its keys are nonempty and
/// distinct, its time is a UTC instant, a new reservation has an absolute
/// directory and a new ID, and a requested expiration is a UTC instant after
/// the reservation's creation.
pub proof fn lemma_reserve_keeps_registry_valid(
    registry: RegistryModel,
    existing: Option<usize>,
    id: u128,
    directory: Seq<char>,
    keys: Seq<Seq<char>>,
    ports: Seq<u16>,
    expires: Option<Option<Timestamp>>,
    now: Timestamp,
)
    requires
        valid_registry(registry),
        match existing {
            Some(i) => reservation_at(registry.reservations, directory, i as int),
            None => no_reservation(registry.reservations, directory),
        },
        ports.len() == allocation_count(keys, existing_allocations(registry.reservations, existing)),
        ports.no_duplicates(),
        forall|i: int|
            0 <= i < ports.len() ==> #[trigger] ports[i] != 0 && !port_list(registry).contains(ports[i]),
        forall|i: int| 0 <= i < keys.len() ==> #[trigger] keys[i].len() > 0,
        keys.no_duplicates(),
        now.is_utc(),
        existing is None ==> is_absolute_path(directory) && !id_list(registry).contains(id),
        expires matches Some(Some(e)) ==> e.is_utc() && e.unix_nanos > (match existing {
            Some(i) => registry.reservations[i as int].created_at,
            None => now,
        }).unix_nanos,
    ensures
        ({
            let before = registry.reservations;
            let previous = match existing {
                Some(i) => Some(before[i as int]),
                None => None,
            };
            let added = new_allocations(
                keys,
                existing_allocations(before, existing),
                ports,
                now,
            );
            let updated = reserved_reservation(previous, id, directory, expires, added, now);
            valid_registry(
                RegistryModel {
                    reservations: match existing {
                        Some(i) => before.update(i as int, updated),
                        None => before.push(updated),
                    },
                    ..registry
                },
            )
        }),
{
    let before = registry.reservations;
    let previous = match existing {
        Some(i) => Some(before[i as int]),
        None => None,
    };
    let prior = existing_allocations(before, existing);
    let added = new_allocations(keys, prior, ports, now);
    let updated = reserved_reservation(previous, id, directory, expires, added, now);
    let after_reservations = match existing {
        Some(i) => before.update(i as int, updated),
        None => before.push(updated),
    };
    let after = RegistryModel { reservations: after_reservations, ..registry };
    lemma_new_allocations_facts(keys, prior, ports, now);
    let lease_ports = lease_port_list(registry.leases);
    match existing {
        Some(i) => {
            let i = i as int;
            let r = before[i];
            assert(reservation_ok(r));
            assert(updated.allocations == r.allocations + added);
            // The updated reservation is well formed.
            assert forall|p: int| 0 <= p < updated.allocations.len() implies allocation_ok(
                #[trigger] updated.allocations[p],
            ) by {
                if p >= r.allocations.len() {
                    assert(updated.allocations[p] == added[p - r.allocations.len()]);
                }
            }
            assert forall|p: int, q: int| 0 <= p < q < updated.allocations.len() implies !keys_clash(
                #[trigger] updated.allocations[p].key,
                #[trigger] updated.allocations[q].key,
            ) by {
                let n = r.allocations.len() as int;
                if q < n {
                } else if p < n {
                    assert(updated.allocations[q] == added[q - n]);
                    assert(!keys_clash(prior[p].key, added[q - n].key));
                } else {
                    assert(updated.allocations[p] == added[p - n]);
                    assert(updated.allocations[q] == added[q - n]);
                }
            }
            assert(reservation_ok(updated));
            assert forall|k: int| 0 <= k < after_reservations.len() implies reservation_ok(
                #[trigger] after_reservations[k],
            ) by {
                if k != i {
                    assert(after_reservations[k] == before[k]);
                }
            }
            assert forall|a: int, b: int| 0 <= a < b < after_reservations.len() implies !same_path(
                #[trigger] after_reservations[a].directory,
                #[trigger] after_reservations[b].directory,
            ) by {
                assert(after_reservations[a].directory == before[a].directory);
                assert(after_reservations[b].directory == before[b].directory);
            }
            // Identifiers are unchanged.
            assert(after_reservations.map_values(|x: ReservationModel| x.id) =~= before.map_values(
                |x: ReservationModel| x.id,
            ));
            assert(id_list(after) =~= id_list(registry));
            // Ports: the selected ports join the reservation's own.
            let front = before.take(i);
            let back = before.skip(i + 1);
            assert(before =~= front + seq![r] + back);
            assert(after_reservations =~= front + seq![updated] + back);
            lemma_allocation_ports_concat(front + seq![r], back);
            lemma_allocation_ports_concat(front, seq![r]);
            lemma_allocation_ports_concat(front + seq![updated], back);
            lemma_allocation_ports_concat(front, seq![updated]);
            assert(allocation_ports(seq![r]) =~= allocation_port_list(r.allocations)) by {
                assert(seq![r].drop_last() =~= Seq::<ReservationModel>::empty());
                assert(seq![r].last() == r);
                assert(allocation_ports(Seq::<ReservationModel>::empty()) =~= Seq::<u16>::empty());
            }
            assert(allocation_ports(seq![updated]) =~= allocation_port_list(updated.allocations)) by {
                assert(seq![updated].drop_last() =~= Seq::<ReservationModel>::empty());
                assert(seq![updated].last() == updated);
                assert(allocation_ports(Seq::<ReservationModel>::empty()) =~= Seq::<u16>::empty());
            }
            assert(allocation_port_list(updated.allocations) =~= allocation_port_list(r.allocations)
                + ports);
            let x = lease_ports + allocation_ports(front) + allocation_port_list(r.allocations);
            let z = allocation_ports(back);
            assert(port_list(registry) =~= x + z);
            assert(port_list(after) =~= x + ports + z);
            lemma_insert_fresh_ports(x, ports, z);
        },
        None => {
            lemma_new_key_count_fresh(keys);
            assert(added.len() == ports.len()) by {
                assert(added.map_values(|a: AllocationModel| a.port).len() == added.len());
            }
            assert(forall|p: int, q: int| 0 <= p < q < updated.allocations.len() ==> !keys_clash(
                #[trigger] updated.allocations[p].key,
                #[trigger] updated.allocations[q].key,
            ));
            assert(reservation_ok(updated));
            assert forall|k: int| 0 <= k < after_reservations.len() implies reservation_ok(
                #[trigger] after_reservations[k],
            ) by {
                if k < before.len() {
                    assert(after_reservations[k] == before[k]);
                }
            }
            assert forall|a: int, b: int| 0 <= a < b < after_reservations.len() implies !same_path(
                #[trigger] after_reservations[a].directory,
                #[trigger] after_reservations[b].directory,
            ) by {
                assert(after_reservations[a] == before[a]);
                if b < before.len() {
                    assert(after_reservations[b] == before[b]);
                }
            }
            let lease_ids = registry.leases.map_values(|l: LeaseModel| l.id);
            let reservation_ids = before.map_values(|x: ReservationModel| x.id);
            assert(after_reservations.map_values(|x: ReservationModel| x.id) =~= reservation_ids.push(
                id,
            ));
            assert(id_list(after) =~= id_list(registry).push(id));
            lemma_push_no_duplicates(id_list(registry), id);
            assert(allocation_ports(after_reservations) =~= allocation_ports(before) + ports) by {
                assert(after_reservations.drop_last() =~= before);
            }
            assert(port_list(after) =~= port_list(registry) + ports + Seq::<u16>::empty());
            assert(port_list(registry) =~= port_list(registry) + Seq::<u16>::empty());
            lemma_insert_fresh_ports(port_list(registry), ports, Seq::<u16>::empty());
        },
    }
}

// ---------------------------------------------------------------------
// What operations promise of each other
// ---------------------------------------------------------------------
proof fn lemma_existing_keys_add_nothing(
    keys: Seq<Seq<char>>,
    existing: Seq<AllocationModel>,
    ports: Seq<u16>,
    now: Timestamp,
)
    requires
        forall|j: int| 0 <= j < keys.len() ==> has_key(existing, #[trigger] keys[j]),
    ensures
        new_key_count(keys, existing) == 0,
        added_allocations(keys, existing, ports, now).len() == 0,
        reused_key_list(keys, existing) =~= keys,
    decreases keys.len(),
{
    if keys.len() > 0 {
        let front = keys.drop_last();
        assert forall|j: int| 0 <= j < front.len() implies has_key(existing, #[trigger] front[j]) by {
            assert(front[j] == keys[j]);
        }
        lemma_existing_keys_add_nothing(front, existing, ports, now);
        assert(has_key(existing, keys[keys.len() - 1]));
        assert(front.push(keys.last()) =~= keys);
    }
}

/// Reserving keys that all have allocations already adds nothing and
/// answers each key with the allocation it already had.
pub proof fn lemma_reserve_existing_keys_is_idempotent(
    keys: Seq<Seq<char>>,
    existing: Seq<AllocationModel>,
    ports: Seq<u16>,
    now: Timestamp,
)
    requires
        keys.len() > 0,
        forall|j: int| 0 <= j < keys.len() ==> has_key(existing, #[trigger] keys[j]),
    ensures
        allocation_count(keys, existing) == 0,
        new_allocations(keys, existing, ports, now).len() == 0,
        reused_key_list(keys, existing) == keys,
        forall|j: int|
            0 <= j < keys.len() ==> 0 <= #[trigger] key_index(existing, keys[j]) < existing.len(),
        forall|j: int|
            0 <= j < keys.len() ==> #[trigger] answered_allocations(keys, existing, ports, now)[j]
                == existing[key_index(existing, keys[j])],
{
    lemma_existing_keys_add_nothing(keys, existing, ports, now);
    assert forall|j: int| 0 <= j < keys.len() implies 0 <= #[trigger] key_index(existing, keys[j])
        < existing.len() by {
        lemma_key_index(existing, keys[j]);
        assert(has_key(existing, keys[j]));
    }
    assert forall|j: int| 0 <= j < keys.len() implies #[trigger] answered_allocations(
        keys,
        existing,
        ports,
        now,
    )[j] == existing[key_index(existing, keys[j])] by {
        assert(has_key(existing, keys[j]));
    }
}

/// Reserving with some keys already reserved and some new is additive: each
/// reused key is answered with the allocation it already had, each new key
/// with its own selected port, and no new key's port is that of a reused key
/// or of another new key, when the selected ports are distinct and none of
/// them is already allocated.
pub proof fn lemma_reserve_adds_new_keys_beside_reused(
    keys: Seq<Seq<char>>,
    existing: Seq<AllocationModel>,
    ports: Seq<u16>,
    now: Timestamp,
)
    requires
        keys.len() > 0,
        ports.len() == new_key_count(keys, existing),
        ports.no_duplicates(),
        forall|i: int, k: int|
            0 <= i < existing.len() && 0 <= k < ports.len() ==> #[trigger] existing[i].port
                != #[trigger] ports[k],
    ensures
        forall|j: int|
            0 <= j < keys.len() && has_key(existing, keys[j]) ==> #[trigger] answered_allocations(
                keys,
                existing,
                ports,
                now,
            )[j] == existing[key_index(existing, keys[j])],
        forall|j: int|
            0 <= j < keys.len() && !has_key(existing, keys[j]) ==> {
                &&& new_key_count(keys.take(j), existing) < ports.len()
                &&& #[trigger] answered_allocations(keys, existing, ports, now)[j] == (AllocationModel {
                    port: ports[new_key_count(keys.take(j), existing) as int],
                    key: Some(keys[j]),
                    created_at: now,
                })
            },
        forall|j: int, k: int|
            0 <= j < keys.len() && 0 <= k < keys.len() && has_key(existing, keys[j]) && !has_key(
                existing,
                keys[k],
            ) ==> #[trigger] answered_allocations(keys, existing, ports, now)[j].port
                != #[trigger] answered_allocations(keys, existing, ports, now)[k].port,
        forall|j: int, k: int|
            0 <= j < k < keys.len() && !has_key(existing, keys[j]) && !has_key(existing, keys[k])
                ==> #[trigger] answered_allocations(keys, existing, ports, now)[j].port
                != #[trigger] answered_allocations(keys, existing, ports, now)[k].port,
{
    let answered = answered_allocations(keys, existing, ports, now);
    assert forall|j: int| 0 <= j < keys.len() && !has_key(existing, keys[j]) implies new_key_count(
        keys.take(j),
        existing,
    ) < ports.len() by {
        lemma_new_key_count_prefix(keys, existing, j);
    }
    assert forall|j: int, k: int|
        0 <= j < keys.len() && 0 <= k < keys.len() && has_key(existing, keys[j]) && !has_key(
            existing,
            keys[k],
        ) implies #[trigger] answered[j].port != #[trigger] answered[k].port by {
        lemma_key_index(existing, keys[j]);
        lemma_new_key_count_prefix(keys, existing, k);
        let i = key_index(existing, keys[j]);
        let c = new_key_count(keys.take(k), existing) as int;
        assert(existing[i].port != ports[c]);
    }
    assert forall|j: int, k: int|
        0 <= j < k < keys.len() && !has_key(existing, keys[j]) && !has_key(existing, keys[k])
            implies #[trigger] answered[j].port != #[trigger] answered[k].port by {
        lemma_new_key_count_prefix(keys, existing, j);
        lemma_new_key_count_prefix(keys, existing, k);
        lemma_new_key_count_prefix(keys.take(k), existing, j);
        assert(keys.take(k).take(j + 1) =~= keys.take(j + 1));
        assert(keys.take(k)[j] == keys[j]);
        let a = new_key_count(keys.take(j), existing) as int;
        let b = new_key_count(keys.take(k), existing) as int;
        assert(a < b);
        assert(ports[a] != ports[b]);
    }
}

/// Characterizes the allocations left after dropping some ports: each comes
/// from the given allocations and is on a port not dropped.
proof fn lemma_allocations_without_ports(allocations: Seq<AllocationModel>, ports: Set<u16>)
    ensures
        forall|i: int|
            0 <= i < allocations_without(allocations, ports).len() ==> !ports.contains(
                #[trigger] allocations_without(allocations, ports)[i].port,
            ),
        forall|i: int|
            0 <= i < allocations_without(allocations, ports).len() ==> allocations.contains(
                #[trigger] allocations_without(allocations, ports)[i],
            ),
    decreases allocations.len(),
{
    if allocations.len() > 0 {
        lemma_allocations_without_ports(allocations.drop_last(), ports);
        let rest = allocations_without(allocations.drop_last(), ports);
        let all = allocations_without(allocations, ports);
        assert forall|i: int| 0 <= i < all.len() implies allocations.contains(#[trigger] all[i]) by {
            if i < rest.len() {
                assert(all[i] == rest[i]);
                let k = choose|k: int| 0 <= k < allocations.drop_last().len() && allocations.drop_last()[k] == rest[i];
                assert(allocations[k] == rest[i]);
            } else {
                assert(all[i] == allocations[allocations.len() - 1]);
            }
        }
    }
}

/// After releasing some keys of a reservation, none of them has an
/// allocation left: `get` for any of them finds no allocation, unless the
/// whole reservation is gone.
pub proof fn lemma_released_keys_are_gone(reservations: Seq<ReservationModel>, index: int, keys: Seq<Seq<char>>)
    requires
        0 <= index < reservations.len(),
        reservation_ok(reservations[index]),
    ensures
        ({
            let after = released_reservations(reservations, index, keys);
            ||| after == reservations.remove(index)
            ||| {
                &&& after.len() == reservations.len()
                &&& after[index].directory == reservations[index].directory
                &&& forall|j: int|
                    0 <= j < keys.len() ==> selected_allocation(
                        after[index].allocations,
                        Some(#[trigger] keys[j]),
                    ) is None
            }
        }),
{
    let r = reservations[index];
    let released = key_ports(keys, r.allocations);
    let remaining = allocations_without(r.allocations, released);
    if keys.len() > 0 && remaining.len() > 0 {
        lemma_allocations_without_ports(r.allocations, released);
        assert forall|j: int| 0 <= j < keys.len() implies !has_key(remaining, #[trigger] keys[j]) by {
            lemma_key_index(remaining, keys[j]);
            lemma_key_index(r.allocations, keys[j]);
            if has_key(remaining, keys[j]) {
                let y = remaining[key_index(remaining, keys[j])];
                assert(r.allocations.contains(y));
                let m = choose|m: int| 0 <= m < r.allocations.len() && r.allocations[m] == y;
                assert(has_key(r.allocations, keys[j]));
                let first = key_index(r.allocations, keys[j]);
                if m != first {
                    if m < first {
                        assert(!keys_clash(r.allocations[m].key, r.allocations[first].key));
                    } else {
                        assert(!keys_clash(r.allocations[first].key, r.allocations[m].key));
                    }
                }
                assert(released.contains(y.port));
            }
        }
    }
}

proof fn lemma_leases_without_ports(leases: Seq<LeaseModel>, ports: Set<u16>)
    ensures
        forall|i: int|
            0 <= i < leases_without(leases, ports).len() ==> !ports.contains(
                #[trigger] leases_without(leases, ports)[i].port,
            ),
    decreases leases.len(),
{
    if leases.len() > 0 {
        lemma_leases_without_ports(leases.drop_last(), ports);
    }
}

proof fn lemma_reservations_without_ports(reservations: Seq<ReservationModel>, ports: Set<u16>)
    ensures
        forall|p: u16|
            ports.contains(p) ==> !allocation_ports(reservations_without(reservations, ports)).contains(p),
    decreases reservations.len(),
{
    if reservations.len() > 0 {
        lemma_reservations_without_ports(reservations.drop_last(), ports);
        let rest = reservations_without(reservations.drop_last(), ports);
        let r = reservations.last();
        let kept = allocations_without(r.allocations, ports);
        lemma_allocations_without_ports(r.allocations, ports);
        if kept.len() > 0 {
            let updated = ReservationModel { allocations: kept, ..r };
            assert(rest.push(updated).drop_last() =~= rest);
            assert forall|p: u16| ports.contains(p) implies !allocation_ports(rest.push(updated)).contains(p) by {
                let list = allocation_port_list(kept);
                if list.contains(p) {
                    let k = choose|k: int| 0 <= k < list.len() && list[k] == p;
                    assert(kept[k].port == p);
                }
                if allocation_ports(rest.push(updated)).contains(p) {
                    let k = choose|k: int|
                        0 <= k < allocation_ports(rest.push(updated)).len() && allocation_ports(
                            rest.push(updated),
                        )[k] == p;
                    if k < allocation_ports(rest).len() {
                        assert(allocation_ports(rest)[k] == p);
                    } else {
                        assert(list[k - allocation_ports(rest).len()] == p);
                    }
                }
            }
        }
    }
}

/// After releasing ports, none of them is registered any more: `info`
/// reports each as `in_use` or `available`.
pub proof fn lemma_released_ports_are_unregistered(registry: RegistryModel, ports: Set<u16>)
    ensures
        forall|p: u16|
            ports.contains(p) ==> !port_list(
                RegistryModel {
                    leases: leases_without(registry.leases, ports),
                    reservations: reservations_without(registry.reservations, ports),
                    ..registry
                },
            ).contains(p),
{
    let after = RegistryModel {
        leases: leases_without(registry.leases, ports),
        reservations: reservations_without(registry.reservations, ports),
        ..registry
    };
    lemma_leases_without_ports(registry.leases, ports);
    lemma_reservations_without_ports(registry.reservations, ports);
    assert forall|p: u16| ports.contains(p) implies !port_list(after).contains(p) by {
        let lp = lease_port_list(after.leases);
        if port_list(after).contains(p) {
            let k = choose|k: int| 0 <= k < port_list(after).len() && port_list(after)[k] == p;
            if k < lp.len() {
                assert(after.leases[k].port == p);
            } else {
                assert(allocation_ports(after.reservations)[k - lp.len()] == p);
            }
        }
    }
}

/// How many reservations have a present directory.
pub open spec fn present_count(reservations: Seq<ReservationModel>, exists: Seq<bool>) -> nat
    decreases reservations.len(),
{
    if reservations.len() == 0 {
        0
    } else {
        present_count(reservations.drop_last(), exists) + if exists[reservations.len() - 1] {
            1nat
        } else {
            0nat
        }
    }
}

/// How many reservations have an absent directory already marked missing.
pub open spec fn marked_absent_count(reservations: Seq<ReservationModel>, exists: Seq<bool>) -> nat
    decreases reservations.len(),
{
    if reservations.len() == 0 {
        0
    } else {
        marked_absent_count(reservations.drop_last(), exists) + if !exists[reservations.len() - 1]
            && reservations.last().missing_since is Some {
            1nat
        } else {
            0nat
        }
    }
}

/// `list` never reaps; `clean` reaps only reservations already marked
/// missing, so a first sighting of an absent directory only marks it, even
/// with a zero grace period; `clean --force` reaps exactly the reservations
/// whose directories are absent.
pub proof fn lemma_reaping_bounds(
    reservations: Seq<ReservationModel>,
    exists: Seq<bool>,
    now: Timestamp,
    grace: int,
)
    ensures
        observed_reservations(reservations, exists, now, SweepMode::Observe, grace).len()
            == reservations.len(),
        observed_reservations(reservations, exists, now, SweepMode::Reap, grace).len()
            >= reservations.len() - marked_absent_count(reservations, exists),
        observed_reservations(reservations, exists, now, SweepMode::Force, grace).len()
            == present_count(reservations, exists),
    decreases reservations.len(),
{
    if reservations.len() > 0 {
        lemma_reaping_bounds(reservations.drop_last(), exists, now, grace);
    }
}

proof fn lemma_observation_settles(
    reservations: Seq<ReservationModel>,
    exists: Seq<bool>,
    first: Timestamp,
    second: Timestamp,
)
    requires
        exists.len() >= reservations.len(),
    ensures
        observed_reservations(
            observed_reservations(reservations, exists, first, SweepMode::Observe, 0),
            exists,
            second,
            SweepMode::Observe,
            0,
        ) == observed_reservations(reservations, exists, first, SweepMode::Observe, 0),
    decreases reservations.len(),
{
    if reservations.len() > 0 {
        let earlier = reservations.drop_last();
        let once = observed_reservations(reservations, exists, first, SweepMode::Observe, 0);
        let rest = observed_reservations(earlier, exists, first, SweepMode::Observe, 0);
        lemma_reaping_bounds(earlier, exists, first, 0);
        lemma_observation_settles(earlier, exists, first, second);
        assert(once.drop_last() =~= rest);
    }
}

/// Listing a second time, with the directories as they were, changes
/// nothing more: a directory first seen absent keeps the instant it was first
/// seen absent, and a present one stays unmarked.
pub proof fn lemma_listing_again_changes_nothing(
    reservations: Seq<ReservationModel>,
    exists: Seq<bool>,
    first: Timestamp,
    second: Timestamp,
)
    requires
        exists.len() == reservations.len(),
    ensures
        observed_reservations(
            observed_reservations(reservations, exists, first, SweepMode::Observe, 0),
            exists,
            second,
            SweepMode::Observe,
            0,
        ) == observed_reservations(reservations, exists, first, SweepMode::Observe, 0),
{
    lemma_observation_settles(reservations, exists, first, second);
}

/// `r` is marked missing, no later than `bound`.
pub open spec fn marked_by(r: ReservationModel, bound: int) -> bool {
    match r.missing_since {
        Some(since) => since.unix_nanos <= bound,
        None => false,
    }
}

/// `r` is unmarked, or marked no later than `bound`.
pub open spec fn mark_not_after(r: ReservationModel, bound: int) -> bool {
    match r.missing_since {
        Some(since) => since.unix_nanos <= bound,
        None => true,
    }
}

proof fn lemma_first_clean_marks(
    reservations: Seq<ReservationModel>,
    exists: Seq<bool>,
    first: Timestamp,
    grace: int,
    id: u128,
)
    requires
        exists.len() >= reservations.len(),
        forall|i: int|
            0 <= i < reservations.len() && (#[trigger] reservations[i]).id == id ==> !exists[i]
                && mark_not_after(reservations[i], first.unix_nanos as int),
    ensures
        forall|j: int|
            0 <= j < observed_reservations(reservations, exists, first, SweepMode::Reap, grace).len()
                && (#[trigger] observed_reservations(
                reservations,
                exists,
                first,
                SweepMode::Reap,
                grace,
            )[j]).id == id ==> marked_by(
                observed_reservations(reservations, exists, first, SweepMode::Reap, grace)[j],
                first.unix_nanos as int,
            ),
    decreases reservations.len(),
{
    if reservations.len() > 0 {
        let earlier = reservations.drop_last();
        assert forall|i: int| 0 <= i < earlier.len() && (#[trigger] earlier[i]).id == id implies !exists[i]
            && mark_not_after(earlier[i], first.unix_nanos as int) by {
            assert(earlier[i] == reservations[i]);
        }
        lemma_first_clean_marks(earlier, exists, first, grace, id);
        let n = reservations.len() - 1;
        let rest = observed_reservations(earlier, exists, first, SweepMode::Reap, grace);
        let once = observed_reservations(reservations, exists, first, SweepMode::Reap, grace);
        match after_observation(reservations[n], exists[n], first, SweepMode::Reap, grace) {
            Some(r) => {
                assert(once == rest.push(r));
                assert(r.id == reservations[n].id);
                if r.id == id {
                    assert(!exists[n]);
                    assert(mark_not_after(reservations[n], first.unix_nanos as int));
                    assert(marked_by(r, first.unix_nanos as int));
                }
                assert forall|j: int| 0 <= j < once.len() && (#[trigger] once[j]).id == id implies marked_by(
                    once[j],
                    first.unix_nanos as int,
                ) by {
                    if j < rest.len() {
                        assert(once[j] == rest[j]);
                    }
                }
            },
            None => {
                assert(once == rest);
            },
        }
    }
}

proof fn lemma_second_clean_reaps(
    marked: Seq<ReservationModel>,
    exists: Seq<bool>,
    second: Timestamp,
    grace: int,
    id: u128,
)
    requires
        exists.len() >= marked.len(),
        forall|k: int|
            0 <= k < marked.len() && (#[trigger] marked[k]).id == id ==> !exists[k] && marked_by(
                marked[k],
                second.unix_nanos - grace,
            ),
    ensures
        forall|j: int|
            0 <= j < observed_reservations(marked, exists, second, SweepMode::Reap, grace).len()
                ==> (#[trigger] observed_reservations(
                marked,
                exists,
                second,
                SweepMode::Reap,
                grace,
            )[j]).id != id,
    decreases marked.len(),
{
    if marked.len() > 0 {
        let earlier = marked.drop_last();
        assert forall|k: int| 0 <= k < earlier.len() && (#[trigger] earlier[k]).id == id implies !exists[k]
            && marked_by(earlier[k], second.unix_nanos - grace) by {
            assert(earlier[k] == marked[k]);
        }
        lemma_second_clean_reaps(earlier, exists, second, grace, id);
        let n = marked.len() - 1;
        let rest = observed_reservations(earlier, exists, second, SweepMode::Reap, grace);
        let twice = observed_reservations(marked, exists, second, SweepMode::Reap, grace);
        match after_observation(marked[n], exists[n], second, SweepMode::Reap, grace) {
            Some(r) => {
                assert(twice == rest.push(r));
                if marked[n].id == id {
                    assert(!exists[n]);
                    assert(marked[n].missing_since is Some);
                    assert(false);
                }
                assert forall|j: int| 0 <= j < twice.len() implies (#[trigger] twice[j]).id != id by {
                    if j < rest.len() {
                        assert(twice[j] == rest[j]);
                    }
                }
            },
            None => {
                assert(twice == rest);
            },
        }
    }
}

/// Two cleans reap a reservation whose directory is absent at both, once the
/// second comes at least the grace period after the first and its mark, if
/// it had one, is no later than the first clean: the first clean marks (or
/// reaps) it, and the second reaps it, whatever becomes of the others.
/// Reservations are told apart by their IDs, and `first_exists[i]` and
/// `second_exists[k]` tell whether the directory of the `i`-th reservation
/// before the first clean and of the `k`-th after it exists.
pub proof fn lemma_second_clean_past_grace_reaps(
    reservations: Seq<ReservationModel>,
    first_exists: Seq<bool>,
    second_exists: Seq<bool>,
    first: Timestamp,
    second: Timestamp,
    grace: int,
    id: u128,
)
    requires
        first_exists.len() == reservations.len(),
        second_exists.len() == observed_reservations(
            reservations,
            first_exists,
            first,
            SweepMode::Reap,
            grace,
        ).len(),
        forall|i: int|
            0 <= i < reservations.len() && (#[trigger] reservations[i]).id == id ==> !first_exists[i]
                && mark_not_after(reservations[i], first.unix_nanos as int),
        forall|k: int|
            0 <= k < second_exists.len() && (#[trigger] observed_reservations(
                reservations,
                first_exists,
                first,
                SweepMode::Reap,
                grace,
            )[k]).id == id ==> !second_exists[k],
        second.unix_nanos - first.unix_nanos >= grace,
    ensures
        forall|j: int|
            0 <= j < observed_reservations(
                observed_reservations(reservations, first_exists, first, SweepMode::Reap, grace),
                second_exists,
                second,
                SweepMode::Reap,
                grace,
            ).len() ==> (#[trigger] observed_reservations(
                observed_reservations(reservations, first_exists, first, SweepMode::Reap, grace),
                second_exists,
                second,
                SweepMode::Reap,
                grace,
            )[j]).id != id,
{
    let once = observed_reservations(reservations, first_exists, first, SweepMode::Reap, grace);
    lemma_first_clean_marks(reservations, first_exists, first, grace, id);
    assert forall|k: int| 0 <= k < once.len() && (#[trigger] once[k]).id == id implies !second_exists[k]
        && marked_by(once[k], second.unix_nanos - grace) by {
        assert(marked_by(once[k], first.unix_nanos as int));
    }
    lemma_second_clean_reaps(once, second_exists, second, grace, id);
}

proof fn lemma_key_index_concat(a: Seq<AllocationModel>, b: Seq<AllocationModel>, key: Seq<char>)
    ensures
        key_index(a + b, key) == if key_index(a, key) >= 0 {
            key_index(a, key)
        } else if key_index(b, key) >= 0 {
            a.len() + key_index(b, key)
        } else {
            -1
        },
    decreases b.len(),
{
    if b.len() == 0 {
        assert(a + b =~= a);
    } else {
        lemma_key_index_concat(a, b.drop_last(), key);
        assert((a + b).drop_last() =~= a + b.drop_last());
        assert((a + b).last() == b.last());
    }
}

proof fn lemma_added_prefix(
    keys: Seq<Seq<char>>,
    existing: Seq<AllocationModel>,
    ports: Seq<u16>,
    now: Timestamp,
    m: int,
)
    requires
        0 <= m <= keys.len(),
    ensures
        added_allocations(keys, existing, ports, now).len() == new_key_count(keys, existing),
        added_allocations(keys.take(m), existing, ports, now).len() == new_key_count(
            keys.take(m),
            existing,
        ),
        added_allocations(keys.take(m), existing, ports, now) =~= added_allocations(
            keys,
            existing,
            ports,
            now,
        ).take(new_key_count(keys.take(m), existing) as int),
    decreases keys.len() - m,
{
    if m == keys.len() {
        assert(keys.take(m) =~= keys);
        lemma_added_len(keys, existing, ports, now);
    } else {
        lemma_added_prefix(keys, existing, ports, now, m + 1);
        let next = keys.take(m + 1);
        assert(next.drop_last() =~= keys.take(m));
        assert(next.last() == keys[m]);
        lemma_added_len(keys.take(m), existing, ports, now);
        lemma_added_len(next, existing, ports, now);
        lemma_new_key_count_prefix_bound(keys, existing, m);
        let whole = added_allocations(keys, existing, ports, now);
        let longer = added_allocations(next, existing, ports, now);
        let shorter = added_allocations(keys.take(m), existing, ports, now);
        let c = new_key_count(keys.take(m), existing) as int;
        let c1 = new_key_count(next, existing) as int;
        assert(longer =~= whole.take(c1));
        if has_key(existing, keys[m]) {
            assert(longer == shorter);
            assert(c1 == c);
        } else {
            assert(longer == shorter.push(longer.last()));
            assert(shorter =~= longer.take(c));
        }
        lemma_new_key_count_prefix(keys, existing, m);
        assert(c <= c1 <= whole.len());
        assert(whole.take(c1).take(c) =~= whole.take(c));
    }
}

proof fn lemma_added_len(
    keys: Seq<Seq<char>>,
    existing: Seq<AllocationModel>,
    ports: Seq<u16>,
    now: Timestamp,
)
    ensures
        added_allocations(keys, existing, ports, now).len() == new_key_count(keys, existing),
    decreases keys.len(),
{
    if keys.len() > 0 {
        lemma_added_len(keys.drop_last(), existing, ports, now);
    }
}

proof fn lemma_new_key_count_prefix_bound(keys: Seq<Seq<char>>, existing: Seq<AllocationModel>, m: int)
    requires
        0 <= m < keys.len(),
    ensures
        new_key_count(keys.take(m + 1), existing) == new_key_count(keys.take(m), existing) + if has_key(
            existing,
            keys[m],
        ) {
            0nat
        } else {
            1nat
        },
{
    assert(keys.take(m + 1).drop_last() =~= keys.take(m));
    assert(keys.take(m + 1).last() == keys[m]);
}

/// After a keyed reservation request, the reservation of the directory is
/// found where the request put it, and `get` for each requested key answers
/// the allocation that the request answered for that key.
pub proof fn lemma_reserve_then_get(
    registry: RegistryModel,
    existing: Option<usize>,
    id: u128,
    directory: Seq<char>,
    keys: Seq<Seq<char>>,
    ports: Seq<u16>,
    expires: Option<Option<Timestamp>>,
    now: Timestamp,
)
    requires
        match existing {
            Some(i) => reservation_at(registry.reservations, directory, i as int),
            None => no_reservation(registry.reservations, directory),
        },
        keys.len() > 0,
        keys.no_duplicates(),
    ensures
        ({
            let before = registry.reservations;
            let previous = match existing {
                Some(i) => Some(before[i as int]),
                None => None,
            };
            let prior = existing_allocations(before, existing);
            let updated = reserved_reservation(
                previous,
                id,
                directory,
                expires,
                new_allocations(keys, prior, ports, now),
                now,
            );
            let after = match existing {
                Some(i) => before.update(i as int, updated),
                None => before.push(updated),
            };
            let index = match existing {
                Some(i) => i as int,
                None => before.len() as int,
            };
            &&& reservation_at(after, directory, index)
            &&& forall|j: int|
                0 <= j < keys.len() ==> selected_allocation(after[index].allocations, Some(#[trigger] keys[j]))
                    == Some(answered_allocations(keys, prior, ports, now)[j])
        }),
{
    let before = registry.reservations;
    let previous = match existing {
        Some(i) => Some(before[i as int]),
        None => None,
    };
    let prior = existing_allocations(before, existing);
    let added = new_allocations(keys, prior, ports, now);
    let updated = reserved_reservation(previous, id, directory, expires, added, now);
    let after = match existing {
        Some(i) => before.update(i as int, updated),
        None => before.push(updated),
    };
    let index = match existing {
        Some(i) => i as int,
        None => before.len() as int,
    };
    assert(updated.allocations =~= prior + added);
    assert(after[index] == updated);
    assert(reservation_at(after, directory, index)) by {
        assert forall|i: int| 0 <= i < index implies !same_path(#[trigger] after[i].directory, directory) by {
            assert(after[i] == before[i]);
        }
    }
    lemma_added_keys(keys, prior, ports, now);
    assert forall|j: int| 0 <= j < keys.len() implies selected_allocation(
        after[index].allocations,
        Some(#[trigger] keys[j]),
    ) == Some(answered_allocations(keys, prior, ports, now)[j]) by {
        let k = keys[j];
        assert(added == added_allocations(keys, prior, ports, now));
        lemma_key_index_concat(prior, added, k);
        lemma_key_index(prior, k);
        lemma_key_index(prior + added, k);
        if !has_key(prior, k) {
            lemma_added_prefix(keys, prior, ports, now, j + 1);
            lemma_added_prefix(keys, prior, ports, now, j);
            lemma_new_key_count_prefix_bound(keys, prior, j);
            let p = new_key_count(keys.take(j), prior) as int;
            let upto = added_allocations(keys.take(j + 1), prior, ports, now);
            assert(keys.take(j + 1).drop_last() =~= keys.take(j));
            assert(keys.take(j + 1).last() == k);
            lemma_new_key_count_prefix(keys, prior, j);
            assert(p < added.len());
            assert(upto.len() == p + 1);
            assert(upto[p] == added[p]);
            assert(added[p].key == Some(k));
            assert forall|q: int| 0 <= q < p implies #[trigger] added[q].key != Some(k) by {
                assert(added[q].key != added[p].key);
            }
            lemma_key_index(added, k);
            if key_index(added, k) != p {
                let first = key_index(added, k);
                assert(first < p ==> added[first].key != Some(k));
                assert(first > p ==> added[p].key != Some(k));
            }
        }
    }
}

/// Renewing a keyed lease, after the lease was added with a key no other
/// lease had, gives back the same lease (port, ID, key and creation time)
/// with only the new deadline, and adds no lease: the lease that
/// `renew_keyed_lease` finds is the added one, and what it answers and
/// stores is that lease with the new deadline.
pub proof fn lemma_keyed_lease_renews_the_added_lease(
    leases: Seq<LeaseModel>,
    lease: LeaseModel,
    key: Seq<char>,
    expires_at: Timestamp,
    index: int,
)
    requires
        lease.key == Some(key),
        forall|i: int| 0 <= i < leases.len() ==> #[trigger] leases[i].key != Some(key),
        lease_with_key(leases.push(lease), key, index),
    ensures
        index == leases.len(),
        (LeaseModel { expires_at, ..leases.push(lease)[index] }) == (LeaseModel {
            expires_at,
            ..lease
        }),
        leases.push(lease).update(index, (LeaseModel { expires_at, ..leases.push(lease)[index] }))
            == leases.push(LeaseModel { expires_at, ..lease }),
        leases.push(lease).update(
            index,
            (LeaseModel { expires_at, ..leases.push(lease)[index] }),
        ).len() == leases.len() + 1,
{
    if index < leases.len() {
        assert(leases.push(lease)[index] == leases[index]);
    }
    assert(leases.push(lease).update(index, (LeaseModel { expires_at, ..lease })) =~= leases.push(
        LeaseModel { expires_at, ..lease },
    ));
}

/// A new keyed lease is the one a later keyed lease request finds and
/// renews, when no other lease had its key.
pub proof fn lemma_added_lease_is_found(leases: Seq<LeaseModel>, lease: LeaseModel, key: Seq<char>)
    requires
        lease.key == Some(key),
        forall|i: int| 0 <= i < leases.len() ==> #[trigger] leases[i].key != Some(key),
    ensures
        lease_with_key(leases.push(lease), key, leases.len() as int),
{
    assert forall|i: int| 0 <= i < leases.len() implies #[trigger] leases.push(lease)[i].key != Some(
        key,
    ) by {
        assert(leases.push(lease)[i] == leases[i]);
    }
}

} // verus!
