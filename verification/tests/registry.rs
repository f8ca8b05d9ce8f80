use port_authority::registry::model::{
    Allocation, Maintenance, OpenLease, OpenLeaseV1, Registry, RegistryV1, Reservation,
};
use port_authority::registry::store::{normalize_loaded, schema_format, SchemaFormat};
use port_authority::timestamp::Timestamp;

const NANOS: i128 = 1_000_000_000;

fn now() -> Timestamp {
    Timestamp { unix_nanos: 1_785_585_600 * NANOS, offset_seconds: 0 }
}

fn later(seconds: i128) -> Timestamp {
    Timestamp { unix_nanos: now().unix_nanos + seconds * NANOS, offset_seconds: 0 }
}

fn lease(id: u128, port: u16, key: Option<&str>) -> OpenLease {
    OpenLease {
        id,
        port,
        key: key.map(str::to_owned),
        created_at: now(),
        expires_at: later(120),
    }
}

fn reservation(id: u128, directory: &str, ports: &[(u16, Option<&str>)]) -> Reservation {
    Reservation {
        id,
        directory: directory.to_owned(),
        created_at: now(),
        expires_at: None,
        missing_since: None,
        allocations: ports
            .iter()
            .map(|(port, key)| Allocation {
                port: *port,
                key: key.map(str::to_owned),
                created_at: now(),
            })
            .collect(),
    }
}

#[test]
fn rejects_duplicate_ports() {
    let mut registry = Registry::empty(30);
    registry.open_leases = vec![lease(1, 55_000, None), lease(2, 55_000, None)];
    assert!(registry.validate().is_err());
}

#[test]
fn rejects_duplicate_open_lease_keys() {
    let mut registry = Registry::empty(30);
    registry.open_leases = vec![
        lease(1, 55_000, Some("preview")),
        lease(2, 55_001, Some("preview")),
    ];
    assert!(registry.validate().is_err());
}

#[test]
fn accepts_a_well_formed_registry() {
    let mut registry = Registry::empty(30);
    registry.open_leases = vec![lease(1, 55_000, Some("preview")), lease(2, 55_001, None)];
    registry.reservations = vec![
        reservation(3, "/work/a", &[(6006, Some("web")), (6008, Some("api"))]),
        reservation(4, "/work/b", &[(6010, None)]),
    ];
    assert!(registry.validate().is_ok());
    assert_eq!(registry.used_ports(), vec![55_000, 55_001, 6006, 6008, 6010]);
}

#[test]
fn rejects_each_broken_invariant() {
    let base = || {
        let mut registry = Registry::empty(30);
        registry.open_leases = vec![lease(1, 55_000, None)];
        registry.reservations = vec![reservation(3, "/work/a", &[(6006, Some("web"))])];
        registry
    };
    let mut registry = base();
    registry.schema_version = 3;
    assert_eq!(registry.validate().unwrap_err().code, "invalid_registry");
    let mut registry = base();
    registry.maintenance = Maintenance { cleanup_trigger: 0 };
    assert!(registry.validate().is_err());
    let mut registry = base();
    registry.maintenance = Maintenance { cleanup_trigger: 101 };
    assert!(registry.validate().is_err());
    let mut registry = base();
    registry.reservations[0].id = 1;
    assert!(registry.validate().is_err());
    let mut registry = base();
    registry.reservations[0].allocations[0].port = 55_000;
    assert!(registry.validate().is_err());
    let mut registry = base();
    registry.reservations[0].allocations[0].port = 0;
    assert!(registry.validate().is_err());
    let mut registry = base();
    registry.reservations[0].directory = "work/a".to_owned();
    assert!(registry.validate().is_err());
    let mut registry = base();
    registry.reservations[0].allocations.clear();
    assert!(registry.validate().is_err());
    let mut registry = base();
    registry.reservations.push(reservation(4, "/work//a/", &[(6007, None)]));
    assert!(registry.validate().is_err());
    let mut registry = base();
    registry.reservations[0].allocations.push(Allocation {
        port: 6007,
        key: Some("web".to_owned()),
        created_at: now(),
    });
    assert!(registry.validate().is_err());
    let mut registry = base();
    registry.open_leases[0].expires_at = now();
    assert!(registry.validate().is_err());
    let mut registry = base();
    registry.open_leases[0].key = Some(String::new());
    assert!(registry.validate().is_err());
    let mut registry = base();
    registry.reservations[0].created_at = Timestamp { unix_nanos: now().unix_nanos, offset_seconds: 3_600 };
    assert!(registry.validate().is_err());
}

#[test]
fn version_one_registry_migrates_to_keyed_open_lease_schema() {
    let old = RegistryV1 {
        schema_version: 1,
        maintenance: Maintenance { cleanup_trigger: 30 },
        open_leases: vec![OpenLeaseV1 {
            id: 0x28e5f42bd26d49749db9b895433a94ef,
            port: 62_000,
            created_at: now(),
            expires_at: later(120),
        }],
        reservations: Vec::new(),
    };
    let migrated = Registry::from_v1(old);
    assert_eq!(migrated.schema_version, 2);
    assert_eq!(migrated.open_leases[0].key, None);
    assert_eq!(migrated.open_leases[0].port, 62_000);
    assert!(migrated.validate().is_ok());
}

#[test]
fn schema_versions_select_the_reader() {
    assert!(matches!(schema_format(2), Ok(SchemaFormat::Current)));
    assert!(matches!(schema_format(1), Ok(SchemaFormat::VersionOne)));
    assert_eq!(schema_format(3).err().unwrap().code, "invalid_registry");
}

#[test]
fn loaded_triggers_are_clamped_into_range() {
    let mut registry = Registry::empty(10);
    assert!(normalize_loaded(&mut registry, 30, false));
    assert_eq!(registry.maintenance.cleanup_trigger, 30);
    let mut registry = Registry::empty(45);
    assert!(!normalize_loaded(&mut registry, 30, false));
    assert_eq!(registry.maintenance.cleanup_trigger, 45);
    let mut registry = Registry::empty(45);
    assert!(normalize_loaded(&mut registry, 30, true));
}
