use port_authority::config::{validate_document, Config, ConfigDocument};
use port_authority::duration::parse_duration;
use port_authority::registry::model::{Allocation, OpenLease, Registry, Reservation};
use port_authority::registry::store::schema_format;
use port_authority::service::{
    plan_lease, release_keys, release_ports, validate_keys, validate_release_ports,
};
use port_authority::socket::PortSelector;
use port_authority::ports::PortSet;
use port_authority::state::StatePaths;
use port_authority::timestamp::Timestamp;
use port_authority::views::get_allocation;

fn at(seconds: i128) -> Timestamp {
    Timestamp { unix_nanos: seconds * 1_000_000_000, offset_seconds: 0 }
}

fn strings(items: &[&str]) -> Vec<String> {
    items.iter().map(|item| item.to_string()).collect()
}

fn registry_with(directory: &str, allocations: &[(u16, &str)]) -> Registry {
    let mut registry = Registry::empty(30);
    registry.reservations.push(Reservation {
        id: 7,
        directory: directory.to_string(),
        allocations: allocations
            .iter()
            .map(|(port, key)| Allocation { port: *port, key: Some(key.to_string()), created_at: at(1) })
            .collect(),
        created_at: at(1),
        expires_at: None,
        missing_since: None,
    });
    registry
}

fn empty_document() -> ConfigDocument {
    ConfigDocument {
        default_port: None,
        lease_timeout: None,
        missing_for: None,
        cleanup_trigger_start: None,
        cleanup_trigger_step: None,
    }
}

fn duration_message(input: &str, bare_minutes: bool, allow_zero: bool) -> String {
    parse_duration(input, bare_minutes, allow_zero).unwrap_err().message
}

#[test]
fn duration_errors_name_the_first_problem() {
    assert_eq!(duration_message("", true, false), "duration cannot be empty");
    assert_eq!(duration_message("15", false, false), "duration requires a unit");
    assert_eq!(duration_message("0", true, false), "duration must be positive");
    assert_eq!(duration_message("0s", false, false), "duration must be positive");
    assert_eq!(duration_message("h", false, false), "invalid duration: h");
    assert_eq!(duration_message("5m3", false, false), "invalid duration: 5m3");
    assert_eq!(duration_message("2h3h", false, false), "duration unit 'h' appears more than once");
    assert_eq!(duration_message("3x", false, false), "unsupported duration unit: x");
    assert_eq!(duration_message("5\u{e9}", false, false), "unsupported duration unit: \u{c3}");
    assert_eq!(duration_message("5\u{20ac}", false, false), "unsupported duration unit: \u{e2}");
    assert_eq!(duration_message("99999999999999999999s", false, false), "duration component is too large");
    assert_eq!(duration_message("18446744073709551615m", false, false), "duration is too large");
    assert_eq!(duration_message("307445734561825861", true, false), "duration is too large");
}

#[test]
fn request_errors_carry_their_messages() {
    assert_eq!(validate_keys(&strings(&["a", ""])).unwrap_err().message, "Keys cannot be empty");
    assert_eq!(
        validate_keys(&strings(&["a", "a"])).unwrap_err().message,
        "The same key cannot be requested more than once"
    );
    assert_eq!(validate_release_ports(&vec![]).unwrap_err().message, "At least one port is required");
    assert_eq!(validate_release_ports(&vec![0]).unwrap_err().message, "Port must be between 1 and 65535");
    assert_eq!(
        validate_release_ports(&vec![7, 7]).unwrap_err().message,
        "The same port cannot be requested more than once"
    );
    let error = plan_lease(&Config::default(), Some(6006), Some("2x")).unwrap_err();
    assert_eq!(error.message, "unsupported duration unit: x");
}

#[test]
fn missing_records_are_named_in_the_message() {
    let mut registry = registry_with("/work/a", &[(6006, "web"), (6007, "api")]);
    let error = release_keys(&mut registry, "/work/b", &vec![]).unwrap_err();
    assert_eq!(error.message, "No reservation exists for /work/b");
    let error = release_keys(&mut registry, "/work/a", &strings(&["x", "web", "y"])).unwrap_err();
    assert_eq!(error.message, "No port is reserved for key(s): x, y");
    let error = release_ports(&mut registry, &vec![9000, 6006, 8000]).unwrap_err();
    assert_eq!(error.message, "No reservation or lease exists for port(s): 8000, 9000");
    let error = get_allocation(&registry, "/work/a", Some("db")).unwrap_err();
    assert_eq!(error.message, "No port is reserved for key: db");
    let error = get_allocation(&registry, "/work/a", None).unwrap_err();
    assert_eq!(error.message, "A key is required when a reservation has multiple ports");
}

#[test]
fn selector_and_registry_errors_carry_their_messages() {
    let error = match PortSelector::new(65_535, 2, true, PortSet::new()) {
        Ok(_) => panic!("two ports cannot fit above 65535"),
        Err(error) => error,
    };
    assert_eq!(error.message, "Could not allocate 2 port(s) at or above 65535");
    assert_eq!(schema_format(9).unwrap_err().message, "Unsupported registry schema version: 9");
    let mut registry = Registry::empty(30);
    registry.maintenance.cleanup_trigger = 0;
    assert_eq!(
        registry.validate().unwrap_err().message,
        "maintenance.cleanup_trigger must be between 1 and 100"
    );
    let error = StatePaths::discover(None, None).unwrap_err();
    assert_eq!(error.message, "HOME is not set and PORTA_HOME was not provided");
}

#[test]
fn configuration_errors_carry_their_messages() {
    let mut document = empty_document();
    document.lease_timeout = Some("3y".to_string());
    assert_eq!(validate_document(&document).unwrap_err().message, "unsupported duration unit: y");
    let mut document = empty_document();
    document.cleanup_trigger_step = Some(3);
    assert_eq!(
        validate_document(&document).unwrap_err().message,
        "cleanup_trigger_step must be between 10 and 15"
    );
    let mut config = Config::default();
    assert_eq!(config.set("colour", "red").unwrap_err().message, "Unknown configuration key: colour");
    assert_eq!(
        config.set("default_port", "0").unwrap_err().message,
        "Invalid value for configuration key: default_port"
    );
}

fn lease_on(id: u128, port: u16, key: Option<&str>, created: i128, expires: i128) -> OpenLease {
    OpenLease { id, port, key: key.map(str::to_owned), created_at: at(created), expires_at: at(expires) }
}

fn validation_message(registry: &Registry) -> String {
    registry.validate().unwrap_err().message
}

#[test]
fn registry_checks_name_the_first_broken_rule_item_by_item() {
    let mut registry = Registry::empty(30);
    registry.open_leases.push(lease_on(1, 7000, Some(""), 1, 2));
    assert_eq!(validation_message(&registry), "Open lease keys must be non-empty and unique");

    let mut registry = Registry::empty(30);
    registry.open_leases.push(lease_on(1, 7000, Some("a"), 5, 5));
    registry.open_leases.push(lease_on(1, 7001, Some("b"), 1, 2));
    assert_eq!(validation_message(&registry), "Lease expiration must follow creation");

    let mut registry = Registry::empty(30);
    registry.open_leases.push(lease_on(1, 7000, None, 1, 2));
    registry.open_leases.push(OpenLease { created_at: Timestamp { unix_nanos: 0, offset_seconds: 60 }, ..lease_on(2, 7001, None, 1, 2) });
    assert_eq!(validation_message(&registry), "Registry timestamps must use UTC");

    let mut registry = registry_with("/work/a", &[(6006, "web"), (6007, "web")]);
    assert_eq!(validation_message(&registry), "Reservation keys must be non-empty and unique");
    registry.reservations[0].allocations.clear();
    assert_eq!(validation_message(&registry), "A reservation must contain an allocation");
    registry.reservations[0].directory = "relative".to_string();
    assert_eq!(validation_message(&registry), "Reservation directories must be absolute, UTF-8, and unique");

    let mut registry = registry_with("/work/a", &[(6006, "web")]);
    registry.reservations[0].expires_at = Some(at(0));
    registry.open_leases.push(lease_on(7, 6006, None, 1, 2));
    assert_eq!(validation_message(&registry), "Registry IDs must be unique");
    registry.open_leases[0].id = 8;
    assert_eq!(validation_message(&registry), "Reservation expiration must follow creation");
    registry.reservations[0].expires_at = None;
    assert_eq!(validation_message(&registry), "Registry ports must be valid and unique");
    registry.open_leases[0].port = 6007;
    assert!(registry.validate().is_ok());
}
