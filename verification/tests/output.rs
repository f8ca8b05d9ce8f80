use port_authority::locale::{
    format_localized_datetime, localized_timestamp, parse_locale, resolve_locale, system_locale_name,
};
use port_authority::paths::append_missing_components;
use port_authority::output::{format_ports, indent, port_info_line, released_text, valid_port, ResponseType};
use port_authority::timestamp::Timestamp;
use port_authority::views::PortInfo;
use port_authority::RESPONSE_VERSION;

#[test]
fn resolves_common_system_locale_forms() {
    assert_eq!(resolve_locale(Some("en-US")), "en_US");
    assert_eq!(resolve_locale(Some("de_DE.UTF-8")), "de_DE");
    assert_eq!(resolve_locale(Some("C")), "POSIX");
    assert_eq!(resolve_locale(Some("unsupported")), "en_US");
    assert_eq!(resolve_locale(None), "en_US");
}

#[test]
fn locale_names_are_normalized_before_lookup() {
    assert_eq!(parse_locale("  posix \n").as_deref(), Some("POSIX"));
    assert_eq!(parse_locale("c").as_deref(), Some("POSIX"));
    assert_eq!(parse_locale("fr_BE.UTF-8@euro").as_deref(), Some("fr_BE"));
    assert_eq!(parse_locale("sr_RS@latin").as_deref(), Some("sr_RS"));
    assert_eq!(parse_locale("de_AT_extra").as_deref(), Some("de_AT"));
    assert_eq!(parse_locale("xx"), None);
    assert_eq!(parse_locale(""), None);
    assert_eq!(
        system_locale_name(&vec!["xx".to_owned(), "de-DE".to_owned(), "fr_FR".to_owned()]),
        "de_DE"
    );
    assert_eq!(system_locale_name(&vec!["xx".to_owned()]), "en_US");
}

#[test]
fn response_types_have_stable_names() {
    assert_eq!(RESPONSE_VERSION, 1);
    assert_eq!(ResponseType::Lease.as_str(), "lease");
    assert_eq!(ResponseType::ConfigGet.as_str(), "config_get");
    assert_eq!(ResponseType::ConfigSet.as_str(), "config_set");
    assert_eq!(ResponseType::Error.as_str(), "error");
}

#[test]
fn port_arguments_are_checked() {
    assert_eq!(valid_port(6006).unwrap(), 6006);
    assert_eq!(valid_port(65_535).unwrap(), 65_535);
    assert_eq!(valid_port(0).unwrap_err().code, "invalid_port");
    let error = valid_port(70_000).unwrap_err();
    assert_eq!(error.code, "invalid_port");
    assert_eq!(error.exit_code, 2);
}

#[test]
fn ports_and_releases_are_space_separated() {
    assert_eq!(format_ports(&vec![]), "");
    assert_eq!(format_ports(&vec![6006]), "6006");
    assert_eq!(format_ports(&vec![6006, 6008, 65_535]), "6006 6008 65535");
    assert_eq!(released_text(&vec![6006, 6008]), "Released 6006 6008");
}

#[test]
fn indent_prefixes_every_line() {
    assert_eq!(indent(""), "");
    assert_eq!(indent("a"), "  a");
    assert_eq!(indent("a\nb"), "  a\n  b");
    assert_eq!(indent("a\r\nb\n"), "  a\n  b");
    assert_eq!(indent("a\n\nb"), "  a\n  \n  b");
    assert_eq!(indent("\n"), "  ");
}

#[test]
fn port_information_is_a_tab_separated_record() {
    let info = PortInfo {
        port: 6006,
        state: "reserved".to_owned(),
        in_use: true,
        key: Some("web".to_owned()),
        directory: Some("/work/a".to_owned()),
        lease_id: None,
        expires_at: Some(Timestamp { unix_nanos: 1_785_585_600_000_000_000, offset_seconds: 0 }),
    };
    assert_eq!(
        port_info_line(&info).unwrap(),
        "6006\treserved\ttrue\tweb\t/work/a\t2026-08-01T12:00:00Z"
    );
    let free = PortInfo {
        port: 7000,
        state: "available".to_owned(),
        in_use: false,
        key: None,
        directory: None,
        lease_id: None,
        expires_at: None,
    };
    assert_eq!(port_info_line(&free).unwrap(), "7000\tavailable\tfalse\t-\t-\t-");
    let broken = PortInfo {
        expires_at: Some(Timestamp { unix_nanos: i128::MAX, offset_seconds: 0 }),
        ..free
    };
    assert_eq!(port_info_line(&broken).unwrap_err().code, "timestamp_failed");
}

#[test]
fn formats_date_and_time_for_the_selected_locale() {
    // 2030-01-15T12:30:00-08:00
    let timestamp = Timestamp { unix_nanos: 1_894_739_400 * 1_000_000_000, offset_seconds: -8 * 3_600 };

    assert_eq!(
        format_localized_datetime(timestamp, "en_US").as_deref(),
        Some("01/15/2030 12:30:00 PM -08:00")
    );
    assert_eq!(
        format_localized_datetime(timestamp, "de_DE").as_deref(),
        Some("15.01.2030 12:30:00 -08:00")
    );
}

#[test]
fn localized_times_need_a_known_locale_and_a_fixed_offset() {
    let timestamp = Timestamp { unix_nanos: 1_894_739_400 * 1_000_000_000, offset_seconds: 3_600 };
    assert_eq!(localized_timestamp(timestamp, "de_DE").as_deref(), Some("15.01.2030 21:30:00 +01:00"));
    assert_eq!(localized_timestamp(timestamp, "xx_YY"), None);
    assert_eq!(localized_timestamp(timestamp, "th_TH"), None);
    let too_far = Timestamp { unix_nanos: 0, offset_seconds: 90_000 };
    assert_eq!(localized_timestamp(too_far, "en_US"), None);
    let before_epoch = Timestamp { unix_nanos: -1_500_000_000, offset_seconds: 0 };
    assert_eq!(localized_timestamp(before_epoch, "de_DE").as_deref(), Some("31.12.1969 23:59:58 +00:00"));
}

fn join(base: &str, names: &[&str]) -> String {
    append_missing_components(base, &names.iter().map(|name| name.to_string()).collect())
}

#[test]
fn missing_components_are_normalized_lexically() {
    assert_eq!(join("/w", &["gone", "..", "x"]), "/w/x");
    assert_eq!(join("/w", &[".", "a", "b"]), "/w/a/b");
    assert_eq!(join("/", &["..", "a"]), "/a");
    assert_eq!(join("/w", &["..", ".."]), "/");
    assert_eq!(join("/w", &[]), "/w");
}
