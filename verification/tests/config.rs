//! The plugin's configuration and the address it connects to.

use mikrotik_api::mikrotik_api::ErrorKind;
use mikrotik_api::plugin::{
    check_address, connect_address, parse_address, ConfigValues, MikrotikPluginConfig,
};

fn split(address: &str, ssl: bool) -> (String, u16) {
    assert!(check_address(address));
    parse_address(address, ssl)
}

fn parts(host: &str, port: u16) -> (String, u16) {
    (host.to_string(), port)
}

fn values(
    address: Option<&str>,
    username: Option<&str>,
    password: Option<&str>,
    ssl: Option<&str>,
) -> ConfigValues {
    ConfigValues {
        address: address.map(String::from),
        username: username.map(String::from),
        password: password.map(String::from),
        ssl: ssl.map(String::from),
    }
}

#[test]
fn address_with_port_is_split() {
    assert_eq!(split("192.168.1.96:8728", false), parts("192.168.1.96", 8728));
    assert_eq!(split("192.168.1.96:9", true), parts("192.168.1.96", 9));
    assert_eq!(split("[fe80::1]:8729", false), parts("fe80::1", 8729));
    assert_eq!(split("router:+80", false), parts("router", 80));
    assert_eq!(split(":80", false), parts("", 80));
}

#[test]
fn default_port_depends_on_tls() {
    assert_eq!(split("192.168.1.96", false), parts("192.168.1.96", 8728));
    assert_eq!(split("192.168.1.96", true), parts("192.168.1.96", 8729));
}

#[test]
fn address_without_a_readable_port_is_the_host() {
    assert_eq!(split("", false), parts("", 8728));
    assert_eq!(split("fe80::1", false), parts("fe80::1", 8728));
    assert_eq!(split("[fe80::1]", false), parts("[fe80::1]", 8728));
    assert_eq!(split("host:", false), parts("host:", 8728));
    assert_eq!(split("host:65536", false), parts("host:65536", 8728));
    assert_eq!(split("host:8a", true), parts("host:8a", 8729));
    assert_eq!(split("host:-1", false), parts("host:-1", 8728));
    assert_eq!(split("host:++1", false), parts("host:++1", 8728));
    assert_eq!(split("[::1]:port", false), parts("[::1]:port", 8728));
}

#[test]
fn leading_zeros_of_a_port_are_read() {
    assert_eq!(split("host:00080", false), parts("host", 80));
    assert_eq!(split("host:65535", false), parts("host", 65535));
}

#[test]
fn addresses_that_cannot_be_split_are_noticed() {
    assert!(!check_address("]:80"));
    assert!(!check_address("\u{e9}]:80"));
    assert!(check_address("x]:80"));
    assert_eq!(split("x]:80", false), parts("", 80));
    assert!(check_address("]:port"));
    assert!(check_address("\u{e9}:80"));
    assert_eq!(split("\u{e9}:80", false), parts("\u{e9}", 80));
}

#[test]
fn endpoint_splits_into_host_and_port() {
    for (host, port) in [("192.168.1.1", 8728), ("fe80::1", 8729), ("::", 0), ("10.0.0.1", 65535)] {
        let address = connect_address(host, port).unwrap();
        assert_eq!(split(&address, false), parts(host, port));
        assert_eq!(split(&address, true), parts(host, port));
    }
}

#[test]
fn connect_address_encloses_ipv6_in_brackets() {
    assert_eq!(connect_address("192.168.1.1", 8728).unwrap(), "192.168.1.1:8728");
    assert_eq!(connect_address("fe80::1", 8729).unwrap(), "[fe80::1]:8729");
    assert_eq!(connect_address("fe80::1%3", 8729).unwrap(), "[fe80::1%3]:8729");
}

#[test]
fn hosts_that_are_no_addresses_are_refused() {
    for host in [
        "router", "", "1.2.3", "[fe80::1]", "fe80::1%", "fe80::1%eth0", "fe80::1%4294967296",
        "fe80::1%1%2", "1.2.3.4%1", ":",
    ] {
        let error = connect_address(host, 8728).unwrap_err();
        assert_eq!(error.kind, ErrorKind::InvalidInput);
        assert_eq!(error.message, "invalid socket address syntax");
    }
}

#[test]
fn default_config_is_empty() {
    let config = MikrotikPluginConfig::default();
    assert_eq!(config.address, "");
    assert_eq!(config.username, "");
    assert_eq!(config.password, "");
    assert!(!config.ssl);
}

#[test]
fn missing_settings_are_named() {
    let mut config = MikrotikPluginConfig::default();
    let missing = config.start(values(None, None, None, None)).err();
    assert_eq!(missing.unwrap(), "mikrotik-api.address is not configured");
    let missing = config.start(values(Some("1.2.3.4"), None, None, None)).err();
    assert_eq!(missing.unwrap(), "mikrotik-api.username is not configured");
    let missing = config.start(values(None, Some("admin"), None, None)).err();
    assert_eq!(missing.unwrap(), "mikrotik-api.password is not configured");
    assert_eq!(config.validate_config().unwrap_err(), "mikrotik-api.password is not configured");
    let target = config.start(values(None, None, Some("secret"), None)).ok().unwrap();
    assert_eq!(target.host, "1.2.3.4");
    assert_eq!(target.port, 8728);
    assert!(!target.ssl);
    assert_eq!(target.username, "admin");
    assert_eq!(target.password, "secret");
    assert!(config.validate_config().is_ok());
}

#[test]
fn settings_that_are_not_set_keep_their_value() {
    let mut config = MikrotikPluginConfig::default();
    config.load_config(values(Some("1.2.3.4:1"), Some("a"), Some("b"), Some("yes")));
    config.load_config(values(None, Some("c"), None, None));
    assert_eq!(config.address, "1.2.3.4:1");
    assert_eq!(config.username, "c");
    assert_eq!(config.password, "b");
    assert!(config.ssl);
}

#[test]
fn tls_is_switched_on_by_yes_one_or_true() {
    let mut config = MikrotikPluginConfig::default();
    for on in ["yes", "YES", "Yes", "1", "true", "TRUE", "tRuE"] {
        config.load_config(values(None, None, None, Some("no")));
        assert!(!config.ssl);
        config.load_config(values(None, None, None, Some(on)));
        assert!(config.ssl, "{}", on);
    }
    for off in ["no", "0", "", "on", "y", "yes ", "11", "\u{212a}es"] {
        config.load_config(values(None, None, None, Some("yes")));
        config.load_config(values(None, None, None, Some(off)));
        assert!(!config.ssl, "{}", off);
    }
}

#[test]
fn tls_reaches_the_target() {
    let mut config = MikrotikPluginConfig::default();
    let target = config.start(values(Some("1.2.3.4"), Some("a"), Some("b"), Some("yes"))).ok().unwrap();
    assert!(target.ssl);
    assert_eq!(target.port, 8729);
}

#[test]
fn every_kind_of_address_can_be_connected_to() {
    for host in ["0.0.0.0", "255.255.255.255", "::", "2001:db8::1", "::ffff:1.2.3.4", "1:2:3:4:5:6:7:8"] {
        let address = connect_address(host, 8728).unwrap();
        assert_eq!(split(&address, true), parts(host, 8728));
    }
}
