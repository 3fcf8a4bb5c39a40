use hive_tracker::address::{parse_socket, SocketAddress};
use hive_tracker::config::{
    resolve_protocol, variable_names, AppConfig, ConfigError, FileConfig, Protocol,
};

fn socket(text: &str) -> SocketAddress {
    parse_socket(text.as_bytes()).expect("test address must parse")
}

fn environment(values: &[(&str, &str)]) -> Vec<(String, String)> {
    values
        .iter()
        .map(|(name, value)| ((*name).to_owned(), (*value).to_owned()))
        .collect()
}

#[test]
fn given_mixed_case_protocol_when_parsed_then_expected_variant_is_returned() {
    let protocol = "HtTp".parse::<Protocol>();

    assert_eq!(protocol, Ok(Protocol::Http));
}

#[test]
fn given_environment_values_when_applied_then_they_override_file_configuration() {
    let mut config = FileConfig::default();
    let values = environment(&[
        ("HIVE_PROTOCOL", "http"),
        ("HIVE_ENABLE_HTTP_SCRAPE", "false"),
        ("HIVE_ENABLE_UDP_SCRAPE", "false"),
        ("HIVE_HTTP_ADDR", "127.0.0.1:8080"),
        ("HIVE_UDP_ADDR", "127.0.0.1:6968"),
        ("HIVE_DATABASE_PATH", "/data/custom.db"),
        ("HIVE_ANNOUNCE_INTERVAL", "900"),
        ("HIVE_PEER_TIMEOUT", "1800"),
        ("HIVE_PERSISTENCE_INTERVAL", "60"),
        ("HIVE_RATE_LIMIT_PER_MINUTE", "500"),
        ("HIVE_LOG_FILTER", "hive_tracker=warn"),
    ]);

    config
        .apply_environment(&values)
        .expect("environment values should apply");
    let config = AppConfig::from(config);

    assert_eq!(config.default_protocol, Protocol::Http);
    assert!(!config.enable_http_scrape);
    assert!(!config.enable_udp_scrape);
    assert_eq!(config.http_addr, socket("127.0.0.1:8080"));
    assert_eq!(config.udp_addr, socket("127.0.0.1:6968"));
    assert_eq!(config.database_path, "/data/custom.db");
    assert_eq!(config.announce_interval, 900);
    assert_eq!(config.peer_timeout, 1800);
    assert_eq!(config.persistence_interval, 60);
    assert_eq!(config.rate_limit_per_minute, 500);
    assert_eq!(config.log_filter, "hive_tracker=warn");
}

#[test]
fn given_invalid_environment_value_when_applied_then_error_names_the_variable() {
    let mut config = FileConfig::default();

    let error = config
        .apply_environment(&environment(&[("HIVE_PEER_TIMEOUT", "soon")]))
        .expect_err("invalid environment value should fail");

    assert!(error.message().contains("HIVE_PEER_TIMEOUT"));
}

#[test]
fn given_cli_protocol_when_resolved_then_it_overrides_configuration() {
    let protocol = resolve_protocol(Some(Protocol::Udp), Protocol::Http);

    assert_eq!(protocol, Protocol::Udp);
}

#[test]
fn given_no_cli_protocol_when_resolved_then_configuration_is_used() {
    let protocol = resolve_protocol(None, Protocol::Both);

    assert_eq!(protocol, Protocol::Both);
}

#[test]
fn an_unknown_protocol_is_reported() {
    let error = "tcp".parse::<Protocol>().expect_err("tcp is no protocol");
    assert_eq!(error.message(), "expected http, udp, or both; got tcp");
}

#[test]
fn the_defaults_are_those_documented() {
    let config = AppConfig::from(FileConfig::default());
    assert_eq!(config.default_protocol, Protocol::Both);
    assert!(config.enable_http_scrape);
    assert!(config.enable_udp_scrape);
    assert_eq!(config.http_addr, socket("0.0.0.0:3000"));
    assert_eq!(config.udp_addr, socket("0.0.0.0:6969"));
    assert_eq!(config.database_path, "hive.db");
    assert_eq!(config.announce_interval, 1800);
    assert_eq!(config.peer_timeout, 3600);
    assert_eq!(config.persistence_interval, 30);
    assert_eq!(config.rate_limit_per_minute, 120);
    assert_eq!(config.max_concurrent_http_requests, 128);
    assert_eq!(config.log_filter, "hive_tracker=info");
}

#[test]
fn unset_variables_change_nothing() {
    let mut config = FileConfig::default();
    config
        .apply_environment(&environment(&[("HIVE_UNKNOWN", "1")]))
        .expect("unknown variables are ignored");
    assert_eq!(
        format!("{config:?}"),
        format!("{:?}", FileConfig::default())
    );
    assert_eq!(variable_names().len(), 12);
}

#[test]
fn each_refused_setting_has_its_error() {
    let mut config = FileConfig::default();
    let empty = config
        .apply_environment(&environment(&[("HIVE_DATABASE_PATH", "")]))
        .expect_err("an empty path should be refused");
    assert!(matches!(empty, ConfigError::EmptyDatabasePath));
    assert_eq!(empty.message(), "HIVE_DATABASE_PATH cannot be empty");

    config.max_concurrent_http_requests = 0;
    let none = config
        .validate()
        .expect_err("at least one request must be handled");
    assert!(matches!(none, ConfigError::NoConcurrentRequests));

    let invalid = FileConfig::default()
        .apply_environment(&environment(&[("HIVE_ENABLE_HTTP_SCRAPE", "yes")]))
        .expect_err("only true and false are read");
    assert!(matches!(invalid, ConfigError::Invalid { .. }));
    assert_eq!(
        invalid.message(),
        "invalid HIVE_ENABLE_HTTP_SCRAPE value \"yes\": \
provided string was not `true` or `false`"
    );
    assert!(FileConfig::default().validate().is_ok());
}

#[test]
fn protocols_decide_which_listeners_run() {
    assert!(Protocol::Http.serves_http_announces());
    assert!(!Protocol::Http.runs_udp());
    assert!(!Protocol::Udp.serves_http_announces());
    assert!(Protocol::Udp.runs_udp());
    assert!(Protocol::Both.serves_http_announces() && Protocol::Both.runs_udp());
}

#[test]
fn a_refused_value_is_quoted_with_its_cause() {
    let message = |name: &str, value: &str| {
        FileConfig::default()
            .apply_environment(&environment(&[(name, value)]))
            .expect_err("value should be refused")
            .message()
    };
    for value in [
        "",
        "+",
        "-1",
        "soon",
        "1 ",
        "4294967296",
        "99999999999x",
        "429496729x",
        "+99999999999",
    ] {
        let cause = value.parse::<u32>().expect_err("no number").to_string();
        assert_eq!(
            message("HIVE_ANNOUNCE_INTERVAL", value),
            format!("invalid HIVE_ANNOUNCE_INTERVAL value {value:?}: {cause}")
        );
    }
    let cause = "18446744073709551616"
        .parse::<u64>()
        .expect_err("too large")
        .to_string();
    assert_eq!(
        message("HIVE_PEER_TIMEOUT", "18446744073709551616"),
        format!("invalid HIVE_PEER_TIMEOUT value \"18446744073709551616\": {cause}")
    );
    let cause = "x".parse::<bool>().expect_err("no truth value").to_string();
    assert_eq!(
        message("HIVE_ENABLE_UDP_SCRAPE", "x"),
        format!("invalid HIVE_ENABLE_UDP_SCRAPE value \"x\": {cause}")
    );
    assert_eq!(
        message("HIVE_PROTOCOL", "t\tcp"),
        "invalid HIVE_PROTOCOL value \"t\\tcp\": expected http, udp, or both; got t\tcp"
    );
    assert_eq!(
        message("HIVE_HTTP_ADDR", "localhost"),
        "invalid HIVE_HTTP_ADDR value \"localhost\": invalid socket address syntax"
    );
}
