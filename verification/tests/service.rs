use port_authority::config::Config;
use port_authority::error::PortaResult;
use port_authority::output::reserve_text;
use port_authority::ports::PortSet;
use port_authority::registry::model::{Allocation, OpenLease, Registry, Reservation};
use port_authority::service::{
    add_lease, apply_reserve, automatic_cleanup, check_lease_key, leases_to_probe, observe_missing,
    plan_lease, plan_reserve, release_keys, release_ports, renew_keyed_lease, sweep_expired,
    validate_base, validate_keys, validate_release_ports, ReserveResult, SweepMode,
};
use port_authority::listing::{list_text, render_columns};
use port_authority::socket::{PortSelector, ProbeStep};
use port_authority::timestamp::Timestamp;
use port_authority::views::{
    describe_ports, get_allocation, list_registry, port_info, sort_allocations, validate_info_ports,
    CleanResult,
};

const NANOS: i128 = 1_000_000_000;
const T0: i128 = 1_785_585_600;

fn at(seconds: i128) -> Timestamp {
    Timestamp { unix_nanos: (T0 + seconds) * NANOS, offset_seconds: 0 }
}

fn select(
    registry: &Registry,
    base: u16,
    count: usize,
    contiguous: bool,
    busy: &[u16],
) -> PortaResult<Vec<u16>> {
    let registered = PortSet::from_ports(&registry.used_ports());
    let mut selector = PortSelector::new(base, count, contiguous, registered)?;
    loop {
        match selector.next_step() {
            ProbeStep::Probe { port, .. } => selector.observe(!busy.contains(&port)),
            ProbeStep::Selected(ports) => return Ok(ports),
            ProbeStep::Failed(error) => return Err(error),
        }
    }
}

fn strings(items: &[&str]) -> Vec<String> {
    items.iter().map(|item| (*item).to_owned()).collect()
}

fn reserve(
    registry: &mut Registry,
    directory: &str,
    keys: &[&str],
    base: u16,
    contiguous: bool,
    busy: &[u16],
    now: Timestamp,
) -> ReserveResult {
    let keys = strings(keys);
    validate_keys(&keys).expect("valid keys");
    let plan = plan_reserve(registry, directory, &keys);
    let ports = if plan.allocation_count == 0 {
        Vec::new()
    } else {
        select(registry, base, plan.allocation_count, contiguous, busy).expect("ports")
    };
    apply_reserve(registry, &plan, &directory.to_owned(), &keys, &ports, None, now)
}

fn lease(registry: &mut Registry, base: u16, timeout: &str, key: Option<&str>, busy: &[u16]) -> (u16, u128) {
    check_lease_key(key).expect("key");
    let plan = plan_lease(&Config::default(), Some(base), Some(timeout)).expect("plan");
    if let Some(renewed) = renew_keyed_lease(registry, key, plan.expires_at) {
        return (renewed.port, renewed.lease_id);
    }
    let port = select(registry, plan.base, 1, false, busy).expect("port")[0];
    let result = add_lease(registry, port, key.map(str::to_owned), &plan);
    (result.port, result.lease_id)
}

#[test]
fn keyed_reservation_is_additive_and_idempotent() {
    let mut registry = Registry::empty(30);
    let first = reserve(&mut registry, "/work/space", &["web"], 55_000, false, &[], at(0));
    let second = reserve(&mut registry, "/work/space", &["web", "api"], 55_000, false, &[], at(1));
    assert_eq!(first.ports[0], second.ports[0]);
    assert_eq!(second.reused_keys, vec!["web"]);
    assert_ne!(second.ports[0], second.ports[1]);
    assert!(registry.validate().is_ok());
}

#[test]
fn reserving_existing_keys_again_allocates_nothing() {
    let mut registry = Registry::empty(30);
    let first = reserve(&mut registry, "/work/a", &["web", "api"], 6006, false, &[], at(0));
    let again = reserve(&mut registry, "/work/a", &["api", "web"], 6006, false, &[], at(5));
    assert_eq!(again.ports, vec![first.ports[1], first.ports[0]]);
    assert_eq!(again.reused_keys, vec!["api", "web"]);
    assert_eq!(registry.reservations[0].allocations.len(), 2);
    assert_eq!(again.reservation_id, first.reservation_id);
}

#[test]
fn reservations_skip_registered_and_busy_ports() {
    let mut registry = Registry::empty(30);
    let first = reserve(&mut registry, "/work/a", &[], 6006, false, &[6007], at(0));
    assert_eq!(first.ports, vec![6006]);
    assert!(first.keyed_ports.is_empty());
    let second = reserve(&mut registry, "/work/b", &["web", "api"], 6006, false, &[6007], at(0));
    assert_eq!(second.ports, vec![6008, 6009]);
    assert_eq!(second.keyed_ports, vec![("web".to_owned(), 6008), ("api".to_owned(), 6009)]);
    assert_eq!(reserve_text(&second), "web=6008 api=6009");
    assert_eq!(reserve_text(&first), "6006");
    let third = reserve(&mut registry, "/work/c", &["a", "b", "c"], 6006, true, &[6011], at(0));
    assert_eq!(third.ports, vec![6012, 6013, 6014]);
    assert!(registry.validate().is_ok());
}

#[test]
fn impossible_selections_report_no_available_ports() {
    let registry = Registry::empty(30);
    assert_eq!(select(&registry, 65_535, 2, true, &[]).unwrap_err().code, "no_available_ports");
    assert_eq!(select(&registry, 65_534, 1, false, &[65_534, 65_535]).unwrap_err().code, "no_available_ports");
    assert_eq!(select(&registry, 0, 1, false, &[]).unwrap_err().code, "invalid_port");
    assert_eq!(select(&registry, 65_535, 1, false, &[]).unwrap(), vec![65_535]);
}

#[test]
fn request_arguments_are_validated() {
    assert_eq!(validate_base(0).unwrap_err().code, "invalid_port");
    assert_eq!(validate_base(6006).unwrap(), 6006);
    assert_eq!(validate_keys(&strings(&["web", ""])).unwrap_err().code, "invalid_arguments");
    assert_eq!(validate_keys(&strings(&["web", "web"])).unwrap_err().code, "duplicate_key");
    assert_eq!(check_lease_key(Some("")).unwrap_err().code, "invalid_arguments");
    assert_eq!(validate_release_ports(&vec![]).unwrap_err().code, "invalid_arguments");
    assert_eq!(validate_release_ports(&vec![6006, 0]).unwrap_err().code, "invalid_port");
    assert_eq!(validate_release_ports(&vec![6006, 6006]).unwrap_err().code, "duplicate_port");
    assert_eq!(validate_info_ports(&vec![6006, 0]).unwrap_err().code, "invalid_port");
    let error = plan_lease(&Config::default(), Some(6006), Some("10x")).unwrap_err();
    assert_eq!(error.code, "invalid_duration");
    let plan = plan_lease(&Config::default(), None, None).unwrap();
    assert_eq!(plan.base, 55_000);
    assert_eq!(plan.expires_at.unix_nanos - plan.now.unix_nanos, 120 * NANOS);
    let plan = plan_lease(&Config::default(), Some(6006), Some("5")).unwrap();
    assert_eq!(plan.expires_at.unix_nanos - plan.now.unix_nanos, 300 * NANOS);
}

#[test]
fn keyed_lease_renews_the_same_identity() {
    let mut registry = Registry::empty(30);
    let (port, id) = lease(&mut registry, 6008, "10s", Some("preview"), &[]);
    let created = registry.open_leases[0].created_at;
    let (again, again_id) = lease(&mut registry, 6008, "20s", Some("preview"), &[]);
    assert_eq!((port, id), (again, again_id));
    assert_eq!(registry.open_leases.len(), 1);
    assert_eq!(registry.open_leases[0].created_at, created);
    let (other, other_id) = lease(&mut registry, 6008, "10s", None, &[]);
    assert_ne!(other, port);
    assert_ne!(other_id, id);
    assert!(registry.validate().is_ok());
}

#[test]
fn sweeps_release_expired_unbound_leases_and_expired_reservations() {
    let mut registry = Registry::empty(30);
    registry.open_leases = vec![
        OpenLease { id: 1, port: 7001, key: None, created_at: at(0), expires_at: at(10) },
        OpenLease { id: 2, port: 7002, key: None, created_at: at(0), expires_at: at(10) },
        OpenLease { id: 3, port: 7003, key: None, created_at: at(0), expires_at: at(100) },
    ];
    registry.reservations = vec![
        Reservation {
            id: 4,
            directory: "/work/a".to_owned(),
            created_at: at(0),
            expires_at: Some(at(10)),
            missing_since: None,
            allocations: vec![Allocation { port: 7004, key: None, created_at: at(0) }],
        },
        Reservation {
            id: 5,
            directory: "/work/b".to_owned(),
            created_at: at(0),
            expires_at: None,
            missing_since: None,
            allocations: vec![Allocation { port: 7005, key: None, created_at: at(0) }],
        },
    ];
    let now = at(10);
    assert_eq!(leases_to_probe(&registry, now), vec![true, true, false]);
    let bound = vec![true, false, false];
    let stats = sweep_expired(&mut registry, now, &bound);
    assert_eq!(stats.released_leases, 1);
    assert_eq!(stats.expired_reservations, 1);
    assert_eq!(registry.open_leases.iter().map(|l| l.id).collect::<Vec<_>>(), vec![1, 3]);
    assert_eq!(registry.reservations[0].id, 5);
    let info = port_info(&registry, 7001, now, true);
    assert_eq!(info.state, "expired_in_use");
    let info = port_info(&registry, 7003, now, false);
    assert_eq!(info.state, "leased");
    assert_eq!(info.lease_id, Some(3));
    let info = port_info(&registry, 7004, now, false);
    assert_eq!(info.state, "available");
    let info = port_info(&registry, 7004, now, true);
    assert_eq!(info.state, "in_use");
    let info = port_info(&registry, 7005, now, false);
    assert_eq!(info.state, "reserved");
    assert_eq!(info.directory.as_deref(), Some("/work/b"));
    let infos = describe_ports(&registry, &vec![7005, 7006], now, &vec![false, true]);
    assert_eq!(infos[0].state, "reserved");
    assert_eq!(infos[1].state, "in_use");
    assert!(registry.validate().is_ok());
}

#[test]
fn missing_directories_are_marked_restored_and_reaped() {
    let mut config = Config::default();
    config.missing_for = 0;
    let mut registry = Registry::empty(30);
    reserve(&mut registry, "/work/a", &["web"], 6006, false, &[], at(0));
    reserve(&mut registry, "/work/b", &["web"], 6006, false, &[], at(0));
    let listing = list_registry(&mut registry, at(1), &vec![false, true]);
    assert_eq!(registry.reservations[0].missing_since, Some(at(1)));
    assert_eq!(listing.reservations[0].status, "missing");
    assert_eq!(listing.reservations[1].status, "active");
    let stats = observe_missing(&mut registry, &config, at(2), &vec![true, true], SweepMode::Reap).unwrap();
    assert_eq!(stats.restored, 1);
    assert_eq!(stats.reaped, 0);
    assert_eq!(registry.reservations[0].missing_since, None);
    let stats = observe_missing(&mut registry, &config, at(3), &vec![false, true], SweepMode::Reap).unwrap();
    assert_eq!((stats.marked_missing, stats.reaped), (1, 0));
    let stats = observe_missing(&mut registry, &config, at(3), &vec![false, true], SweepMode::Reap).unwrap();
    assert_eq!((stats.marked_missing, stats.reaped), (0, 1));
    assert_eq!(registry.reservations.len(), 1);
    let stats = observe_missing(&mut registry, &config, at(4), &vec![false], SweepMode::Force).unwrap();
    assert_eq!(stats.reaped, 1);
    assert!(registry.reservations.is_empty());
}

#[test]
fn grace_periods_delay_reaping() {
    let config = Config::default();
    let mut registry = Registry::empty(30);
    reserve(&mut registry, "/work/a", &[], 6006, false, &[], at(0));
    observe_missing(&mut registry, &config, at(1), &vec![false], SweepMode::Reap).unwrap();
    let stats = observe_missing(&mut registry, &config, at(1 + 604_799), &vec![false], SweepMode::Reap).unwrap();
    assert_eq!(stats.reaped, 0);
    let stats = observe_missing(&mut registry, &config, at(1 + 604_800), &vec![false], SweepMode::Reap).unwrap();
    assert_eq!(stats.reaped, 1);
    let mut huge = Config::default();
    huge.missing_for = u64::MAX;
    assert_eq!(
        observe_missing(&mut registry, &huge, at(0), &vec![], SweepMode::Reap).unwrap_err().code,
        "invalid_config"
    );
}

#[test]
fn automatic_cleanup_raises_its_trigger_up_to_the_cap() {
    let config = Config::default();
    let mut registry = Registry::empty(95);
    for index in 0..95 {
        reserve(&mut registry, &format!("/work/{index}"), &[], 10_000, false, &[], at(0));
    }
    let exists = vec![true; 95];
    automatic_cleanup(&mut registry, &config, at(1), &exists).unwrap();
    assert_eq!(registry.maintenance.cleanup_trigger, 100);
    let mut registry = Registry::empty(1);
    reserve(&mut registry, "/work/a", &[], 10_000, false, &[], at(0));
    automatic_cleanup(&mut registry, &config, at(1), &vec![true]).unwrap();
    assert_eq!(registry.maintenance.cleanup_trigger, 16);
    assert!(registry.validate().is_ok());
}

#[test]
fn directory_releases_free_all_or_keyed_ports() {
    let mut registry = Registry::empty(30);
    reserve(&mut registry, "/work/a", &["web", "api", "db"], 6006, false, &[], at(0));
    let error = release_keys(&mut registry, "/work/other", &vec![]).unwrap_err();
    assert_eq!(error.code, "reservation_not_found");
    let error = release_keys(&mut registry, "/work/a", &strings(&["web", "nope"])).unwrap_err();
    assert_eq!(error.code, "key_not_found");
    assert_eq!(registry.reservations[0].allocations.len(), 3);
    let released = release_keys(&mut registry, "/work/a", &strings(&["db", "web"])).unwrap();
    assert_eq!(released.ports, vec![6006, 6008]);
    assert_eq!(released.released, 2);
    assert_eq!(get_allocation(&registry, "/work/a", Some("web")).unwrap_err().code, "key_not_found");
    let found = get_allocation(&registry, "/work/a/", None).unwrap();
    assert_eq!((found.port, found.key.as_deref()), (6007, Some("api")));
    let released = release_keys(&mut registry, "/work/a", &vec![]).unwrap();
    assert_eq!(released.ports, vec![6007]);
    assert!(registry.reservations.is_empty());
    assert_eq!(get_allocation(&registry, "/work/a", None).unwrap_err().code, "reservation_not_found");
}

#[test]
fn get_needs_a_key_for_several_ports() {
    let mut registry = Registry::empty(30);
    reserve(&mut registry, "/work/a", &["web", "api"], 6006, false, &[], at(0));
    assert_eq!(get_allocation(&registry, "/work/a", None).unwrap_err().code, "key_required");
    let found = get_allocation(&registry, "/work/a", Some("api")).unwrap();
    assert_eq!(found.port, 6007);
    assert_eq!(found.directory, "/work/a");
}

#[test]
fn releasing_ports_is_exact_and_atomic() {
    let mut registry = Registry::empty(30);
    reserve(&mut registry, "/work/a", &["web", "api"], 6006, false, &[], at(0));
    lease(&mut registry, 6006, "10s", Some("preview"), &[]);
    assert_eq!(registry.open_leases[0].port, 6008);
    let error = release_ports(&mut registry, &vec![6006, 65_535]).unwrap_err();
    assert_eq!(error.code, "port_not_found");
    assert_eq!(error.exit_code, 1);
    assert_eq!(registry.reservations[0].allocations.len(), 2);
    assert_eq!(release_ports(&mut registry, &vec![6006, 6006]).unwrap_err().code, "duplicate_port");
    let released = release_ports(&mut registry, &vec![6008, 6006]).unwrap();
    assert_eq!(released.ports, vec![6006, 6008]);
    assert_eq!(released.released, 2);
    assert!(registry.open_leases.is_empty());
    assert_eq!(registry.reservations[0].allocations[0].port, 6007);
    let released = release_ports(&mut registry, &vec![6007]).unwrap();
    assert_eq!(released.ports, vec![6007]);
    assert!(registry.reservations.is_empty());
    assert!(registry.validate().is_ok());
}

#[test]
fn list_orders_directories_by_path_and_ports_numerically() {
    let mut registry = Registry::empty(30);
    reserve(&mut registry, "/work/b", &["web"], 6010, false, &[], at(0));
    reserve(&mut registry, "/work/a", &["web", "api"], 6006, false, &[], at(0));
    registry.reservations[1].allocations.swap(0, 1);
    lease(&mut registry, 7002, "10s", None, &[]);
    lease(&mut registry, 7000, "10s", None, &[]);
    let listing = list_registry(&mut registry, at(1), &vec![true, true]);
    let directories: Vec<&str> = listing.reservations.iter().map(|r| r.directory.as_str()).collect();
    assert_eq!(directories, vec!["/work/a", "/work/b"]);
    assert_eq!(listing.reservations[0].ports, vec![6006, 6007]);
    assert_eq!(listing.leases.iter().map(|l| l.port).collect::<Vec<_>>(), vec![7000, 7002]);
    assert_eq!(listing.leases[0].status, "leased");
}

#[test]
fn clean_reports_counts_led_by_reaped() {
    let mut registry = Registry::empty(30);
    let expiration = sweep_expired(&mut registry, at(0), &vec![]);
    let missing = observe_missing(&mut registry, &Config::default(), at(0), &vec![], SweepMode::Reap).unwrap();
    let result = CleanResult::new(expiration, missing, &registry);
    assert_eq!(result.cleanup_trigger, 30);
    let rows = result.rows();
    assert_eq!(rows[0], ("reaped", 0));
    assert_eq!(rows[5], ("next automatic cleanup", 30));
}

#[test]
fn equal_ports_keep_their_registry_order() {
    let allocation = |port: u16, key: &str| Allocation { port, key: Some(key.to_string()), created_at: at(1) };
    let sorted = sort_allocations(&vec![allocation(7, "b"), allocation(5, "a"), allocation(7, "c"), allocation(6, "d")]);
    let order: Vec<(u16, String)> = sorted.iter().map(|a| (a.port, a.key.clone().unwrap())).collect();
    assert_eq!(
        order,
        vec![(5, "a".to_string()), (6, "d".to_string()), (7, "b".to_string()), (7, "c".to_string())]
    );
}

#[test]
fn listing_again_keeps_the_first_missing_mark() {
    let mut registry = Registry::empty(30);
    reserve(&mut registry, "/work/a", &["web"], 6006, false, &[], at(0));
    reserve(&mut registry, "/work/b", &["web"], 6006, false, &[], at(0));
    list_registry(&mut registry, at(5), &vec![false, true]);
    let listing = list_registry(&mut registry, at(9), &vec![false, true]);
    assert_eq!(registry.reservations.len(), 2);
    assert_eq!(registry.reservations[0].missing_since, Some(at(5)));
    assert_eq!(registry.reservations[1].missing_since, None);
    assert_eq!(listing.reservations[0].missing_since, Some(at(5)));
}

#[test]
fn list_text_groups_allocations_and_leases() {
    let mut registry = Registry::empty(30);
    reserve(&mut registry, "/work/app", &["web", "api"], 6006, false, &[], at(0));
    lease(&mut registry, 6006, "10m", Some("preview"), &[]);
    let listing = list_registry(&mut registry, at(1), &vec![false]);
    let text = list_text(
        &listing,
        &vec![(6006, true), (6007, false)],
        &vec![String::new()],
        &vec!["later".to_string()],
    );
    assert_eq!(
        text,
        "/work/app  (missing)\n  web  6006  reserved  in use\n  api  6007  reserved\n\n\
         leases\n  preview  6008  leased  expires later\n\n\
         1 reservation directory is missing; run `porta clean` to reap after the grace period"
    );
    assert_eq!(
        render_columns(&Some(vec!["A".to_string(), "BB".to_string()]), &vec![vec!["ccc".to_string(), "d".to_string()]]),
        "A    BB\nccc  d"
    );
}

#[test]
fn new_identifiers_are_version_four_uuids() {
    let mut registry = Registry::empty(30);
    let (_, id) = lease(&mut registry, 6006, "10m", None, &[]);
    assert_eq!((id >> 76) & 0xf, 4);
    assert_eq!((id >> 62) & 0x3, 2);
    let result = reserve(&mut registry, "/work/a", &[], 6006, false, &[], at(0));
    assert_eq!((result.reservation_id >> 76) & 0xf, 4);
}

#[test]
fn two_cleans_reap_an_absent_directory_beside_present_ones() {
    let mut config = Config::default();
    config.missing_for = 0;
    let mut registry = Registry::empty(30);
    reserve(&mut registry, "/work/a", &["web"], 6006, false, &[], at(0));
    reserve(&mut registry, "/work/b", &["web"], 6006, false, &[], at(0));
    let gone = registry.reservations[1].id;
    let first = observe_missing(&mut registry, &config, at(1), &vec![true, false], SweepMode::Reap).unwrap();
    assert_eq!((first.marked_missing, first.reaped), (1, 0));
    assert_eq!(registry.reservations.len(), 2);
    let second = observe_missing(&mut registry, &config, at(1), &vec![true, false], SweepMode::Reap).unwrap();
    assert_eq!(second.reaped, 1);
    assert!(registry.reservations.iter().all(|reservation| reservation.id != gone));
    assert_eq!(registry.reservations.len(), 1);
}

#[test]
fn releasing_allocated_keys_succeeds() {
    let mut registry = Registry::empty(30);
    reserve(&mut registry, "/work/a", &["web", "api"], 6006, false, &[], at(0));
    let released = release_keys(&mut registry, "/work/a", &strings(&["api"])).unwrap();
    assert_eq!(released.ports, vec![6007]);
    let error = release_keys(&mut registry, "/work/a", &strings(&["api"])).unwrap_err();
    assert_eq!(error.message, "No port is reserved for key(s): api");
}
