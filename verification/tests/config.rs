use port_authority::config::{Config, ConfigDocument, ConfigStore, ConfigValue};
use port_authority::service::PortaService;
use port_authority::state::StatePaths;

fn store() -> ConfigStore {
    ConfigStore::new(StatePaths::from_root("/tmp/porta-test-state".to_string()))
}

#[test]
fn missing_file_uses_defaults() {
    let store = store();
    let document = ConfigDocument::empty();
    let loaded = store.load(&document).expect("defaults");
    let defaults = Config::default();
    assert_eq!(loaded, defaults);
    let entries = store.list(&document).expect("default listing");
    assert_eq!(entries.len(), 5);
    assert!(entries.iter().all(|entry| !entry.is_set));
}

#[test]
fn explicitly_setting_a_default_value_is_still_set() {
    let store = store();
    let mut document = ConfigDocument::empty();
    store
        .set(&mut document, "default_port", "55000")
        .expect("set explicit default");

    let entries = store.list(&document).expect("configured listing");
    assert_eq!(entries[0].value, entries[0].default);
    assert!(entries[0].is_set);
    assert!(entries[1..].iter().all(|entry| !entry.is_set));
}

#[test]
fn set_stores_the_canonical_value_and_get_reads_it_back() {
    let store = store();
    let mut document = ConfigDocument::empty();
    assert_eq!(
        store.set(&mut document, "missing_for", "1w2d").expect("set should work"),
        ConfigValue::Duration("1w2d".to_owned())
    );
    assert_eq!(
        store.get(&document, "missing_for").expect("get should work"),
        ConfigValue::Duration("1w2d".to_owned())
    );
    assert_eq!(document.missing_for.as_deref(), Some("1w2d"));
    assert!(document.default_port.is_none());
    assert!(document.lease_timeout.is_none());
    assert!(document.cleanup_trigger_start.is_none());
    assert!(document.cleanup_trigger_step.is_none());
    let entries = store.list(&document).expect("configured listing");
    assert!(entries[2].is_set);
    assert!(entries.iter().enumerate().all(|(index, entry)| index == 2 || !entry.is_set));
}

#[test]
fn durations_are_stored_in_canonical_spelling() {
    let store = store();
    let mut document = ConfigDocument::empty();
    assert_eq!(
        store.set(&mut document, "lease_timeout", "90").unwrap(),
        ConfigValue::Duration("1h30m".to_owned())
    );
    assert_eq!(document.lease_timeout.as_deref(), Some("1h30m"));
    assert_eq!(store.load(&document).unwrap().lease_timeout, 5_400);
}

#[test]
fn partial_and_full_documents_preserve_presence() {
    let store = store();
    let mut partial = ConfigDocument::empty();
    partial.lease_timeout = Some("5m".to_owned());
    let listed = store.list(&partial).expect("partial listing");
    assert!(listed[1].is_set);
    assert!(listed.iter().enumerate().all(|(index, entry)| index == 1 || !entry.is_set));

    let full = ConfigDocument {
        default_port: Some(55_000),
        lease_timeout: Some("2m".to_owned()),
        missing_for: Some("1w".to_owned()),
        cleanup_trigger_start: Some(30),
        cleanup_trigger_step: Some(15),
    };
    assert!(store.list(&full).expect("full listing").iter().all(|entry| entry.is_set));
}

#[test]
fn invalid_documents_are_rejected() {
    let store = store();
    let mut document = ConfigDocument::empty();
    document.cleanup_trigger_step = Some(9);
    assert_eq!(store.load(&document).unwrap_err().code, "invalid_config");
    let mut document = ConfigDocument::empty();
    document.default_port = Some(0);
    assert_eq!(store.load(&document).unwrap_err().code, "invalid_config");
    let mut document = ConfigDocument::empty();
    document.missing_for = Some("5".to_owned());
    assert_eq!(store.list(&document).unwrap_err().code, "invalid_config");
    let mut document = ConfigDocument::empty();
    document.lease_timeout = Some("0s".to_owned());
    assert_eq!(store.get(&document, "lease_timeout").unwrap_err().code, "invalid_config");
}

#[test]
fn unknown_keys_and_invalid_values_change_nothing() {
    let store = store();
    let mut document = ConfigDocument::empty();
    let error = store.set(&mut document, "mispelled", "1").unwrap_err();
    assert_eq!(error.code, "invalid_config_key");
    assert_eq!(error.exit_code, 2);
    for (key, value) in [
        ("default_port", "0"),
        ("default_port", "65536"),
        ("cleanup_trigger_start", "101"),
        ("cleanup_trigger_step", "16"),
        ("lease_timeout", "0"),
        ("missing_for", "5"),
    ] {
        let error = store.set(&mut document, key, value).unwrap_err();
        assert_eq!(error.code, "invalid_config_value");
    }
    assert!(store.list(&document).unwrap().iter().all(|entry| !entry.is_set));
    assert_eq!(store.get(&document, "nope").unwrap_err().code, "invalid_config_key");
}

#[test]
fn config_values_have_plain_spellings() {
    assert_eq!(ConfigValue::Integer(55_000).plain(), "55000");
    assert_eq!(ConfigValue::Duration("2m".to_owned()).plain(), "2m");
    let defaults = Config::default();
    assert_eq!(defaults.get("default_port").unwrap(), ConfigValue::Integer(55_000));
    assert_eq!(defaults.get("lease_timeout").unwrap(), ConfigValue::Duration("2m".to_owned()));
    assert_eq!(defaults.get("missing_for").unwrap(), ConfigValue::Duration("1w".to_owned()));
    assert_eq!(defaults.get("cleanup_trigger_start").unwrap(), ConfigValue::Integer(30));
    assert_eq!(defaults.get("cleanup_trigger_step").unwrap(), ConfigValue::Integer(15));
}

#[test]
fn service_reads_and_writes_configuration_documents() {
    let service = PortaService::new(StatePaths::from_root("/tmp/porta-test-state".to_string()));
    let mut document = ConfigDocument::empty();
    assert_eq!(
        service.config_set(&mut document, "cleanup_trigger_start", "40").unwrap(),
        ConfigValue::Integer(40)
    );
    assert_eq!(service.config_get(&document, "cleanup_trigger_start").unwrap(), ConfigValue::Integer(40));
    assert!(service.config_list(&document).unwrap()[3].is_set);
}

#[test]
fn state_paths_follow_the_environment() {
    let paths = StatePaths::discover(Some("/srv/porta".to_owned()), Some("/home/me".to_owned())).unwrap();
    assert_eq!(paths.root, "/srv/porta");
    assert_eq!(paths.config, "/srv/porta/config.toml");
    assert_eq!(paths.registry_lock, "/srv/porta/registry.lock");
    let paths = StatePaths::discover(None, Some("/home/me".to_owned())).unwrap();
    assert_eq!(paths.root, "/home/me/.porta");
    assert_eq!(paths.registry, "/home/me/.porta/registry.json");
    let error = StatePaths::discover(None, None).err().unwrap();
    assert_eq!(error.code, "state_directory_failed");
    assert_eq!(error.exit_code, 3);
    assert!(PortaService::discover(None, None).is_err());
}
