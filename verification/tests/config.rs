use cardigan::config::{Config, Error, RawConfig, Secret};
use cardigan::contact::Side;

fn raw(vars: &[(&str, &str)]) -> RawConfig {
    let get = |name: &str| vars.iter().find(|(k, _)| *k == name).map(|(_, v)| (*v).to_owned());
    RawConfig {
        icloud_url: get("CARDIGAN_ICLOUD_URL"),
        icloud_username: get("CARDIGAN_ICLOUD_USERNAME"),
        icloud_password: get("CARDIGAN_ICLOUD_PASSWORD"),
        fastmail_url: get("CARDIGAN_FASTMAIL_URL"),
        fastmail_username: get("CARDIGAN_FASTMAIL_USERNAME"),
        fastmail_password: get("CARDIGAN_FASTMAIL_PASSWORD"),
        poll_interval_secs: get("CARDIGAN_POLL_INTERVAL_SECS"),
        database_path: get("CARDIGAN_DATABASE_PATH"),
        conflict_winner: get("CARDIGAN_CONFLICT_WINNER"),
        max_photo_bytes: get("CARDIGAN_MAX_PHOTO_BYTES"),
    }
}

fn load(vars: &[(&str, &str)]) -> Result<Config, Error> {
    Config::try_from(raw(vars))
}

const REQUIRED: &[(&str, &str)] = &[
    ("CARDIGAN_ICLOUD_USERNAME", "jane@icloud.com"),
    ("CARDIGAN_ICLOUD_PASSWORD", "icloud-secret-pw"),
    ("CARDIGAN_FASTMAIL_USERNAME", "jane@fastmail.com"),
    ("CARDIGAN_FASTMAIL_PASSWORD", "fastmail-secret-pw"),
    ("CARDIGAN_DATABASE_PATH", "/var/lib/cardigan"),
];

fn with(overrides: &[(&'static str, &'static str)]) -> Vec<(&'static str, &'static str)> {
    let mut vars: Vec<_> = REQUIRED.iter().filter(|(k, _)| !overrides.iter().any(|(o, _)| o == k)).copied().collect();
    vars.extend_from_slice(overrides);
    vars
}

fn message(result: Result<Config, Error>) -> String {
    match result {
        Ok(_) => panic!("configuration is refused"),
        Err(e) => e.to_string(),
    }
}

#[test]
fn required_only_applies_defaults() {
    let config = load(REQUIRED).unwrap_or_else(|e| panic!("{}", e.to_string()));
    assert_eq!(config.icloud.url, "https://contacts.icloud.com");
    assert_eq!(config.fastmail.url, "https://carddav.fastmail.com");
    assert_eq!(config.icloud.username, "jane@icloud.com");
    assert_eq!(config.fastmail.password.expose(), "fastmail-secret-pw");
    assert_eq!(config.poll_interval_secs, 120);
    assert_eq!(config.database_path, "/var/lib/cardigan");
    assert_eq!(config.conflict_winner, Side::ICloud);
    assert_eq!(config.max_photo_bytes, 1024 * 1024);
}

#[test]
fn all_variables_set() {
    let config = load(&with(&[
        ("CARDIGAN_ICLOUD_URL", "http://localhost:5232/icloud"),
        ("CARDIGAN_FASTMAIL_URL", "http://localhost:5232/fastmail"),
        ("CARDIGAN_POLL_INTERVAL_SECS", "300"),
        ("CARDIGAN_CONFLICT_WINNER", "Fastmail"),
        ("CARDIGAN_MAX_PHOTO_BYTES", "2048"),
    ]))
    .unwrap_or_else(|e| panic!("{}", e.to_string()));
    assert_eq!(config.icloud.url, "http://localhost:5232/icloud");
    assert_eq!(config.fastmail.url, "http://localhost:5232/fastmail");
    assert_eq!(config.poll_interval_secs, 300);
    assert_eq!(config.conflict_winner, Side::Fastmail);
    assert_eq!(config.max_photo_bytes, 2048);
}

#[test]
fn debug_never_shows_passwords() {
    let config = load(REQUIRED).unwrap_or_else(|e| panic!("{}", e.to_string()));
    let debug = format!("{} {}", config.icloud.password.debug_string(), config.fastmail.password.debug_string());
    assert!(!debug.contains("icloud-secret-pw"));
    assert!(!debug.contains("fastmail-secret-pw"));
    assert_eq!(Secret::new("x".to_owned()).debug_string(), "Secret([REDACTED])");
}

#[test]
fn missing_required_variables_are_all_named() {
    assert_eq!(
        message(load(&[])),
        "missing required environment variable(s): CARDIGAN_ICLOUD_USERNAME, CARDIGAN_ICLOUD_PASSWORD, CARDIGAN_FASTMAIL_USERNAME, \
         CARDIGAN_FASTMAIL_PASSWORD, CARDIGAN_DATABASE_PATH"
    );
}

#[test]
fn blank_required_variable_is_missing() {
    assert_eq!(
        message(load(&with(&[("CARDIGAN_ICLOUD_PASSWORD", "  ")]))),
        "missing required environment variable(s): CARDIGAN_ICLOUD_PASSWORD"
    );
}

#[test]
fn numeric_looking_password_is_kept_verbatim() {
    let config = load(&with(&[("CARDIGAN_ICLOUD_PASSWORD", "007")])).unwrap_or_else(|e| panic!("{}", e.to_string()));
    assert_eq!(config.icloud.password.expose(), "007");
}

#[test]
fn poll_interval_at_minimum_is_accepted() {
    let config = load(&with(&[("CARDIGAN_POLL_INTERVAL_SECS", "60")])).unwrap_or_else(|e| panic!("{}", e.to_string()));
    assert_eq!(config.poll_interval_secs, 60);
}

#[test]
fn poll_interval_below_minimum_is_rejected() {
    assert_eq!(
        message(load(&with(&[("CARDIGAN_POLL_INTERVAL_SECS", "59")]))),
        "invalid value for CARDIGAN_POLL_INTERVAL_SECS: must be at least 60 seconds, got 59"
    );
}

#[test]
fn non_numeric_poll_interval_is_rejected() {
    assert_eq!(
        message(load(&with(&[("CARDIGAN_POLL_INTERVAL_SECS", "soon")]))),
        "invalid value for CARDIGAN_POLL_INTERVAL_SECS: invalid digit found in string"
    );
}

#[test]
fn unknown_conflict_winner_is_rejected() {
    assert_eq!(
        message(load(&with(&[("CARDIGAN_CONFLICT_WINNER", "google")]))),
        "invalid value for CARDIGAN_CONFLICT_WINNER: expected `icloud` or `fastmail`, got `google`"
    );
}

#[test]
fn non_numeric_max_photo_bytes_is_rejected() {
    assert_eq!(
        message(load(&with(&[("CARDIGAN_MAX_PHOTO_BYTES", "1MiB")]))),
        "invalid value for CARDIGAN_MAX_PHOTO_BYTES: invalid digit found in string"
    );
}

#[test]
fn values_are_trimmed_before_parsing() {
    let config = load(&with(&[("CARDIGAN_POLL_INTERVAL_SECS", " +90 "), ("CARDIGAN_CONFLICT_WINNER", " FASTMAIL ")]))
        .unwrap_or_else(|e| panic!("{}", e.to_string()));
    assert_eq!(config.poll_interval_secs, 90);
    assert_eq!(config.conflict_winner, Side::Fastmail);
}

#[test]
fn huge_numbers_are_rejected() {
    assert_eq!(
        message(load(&with(&[("CARDIGAN_MAX_PHOTO_BYTES", "18446744073709551616")]))),
        "invalid value for CARDIGAN_MAX_PHOTO_BYTES: number too large to fit in target type"
    );
    let config = load(&with(&[("CARDIGAN_MAX_PHOTO_BYTES", "18446744073709551615")])).unwrap_or_else(|e| panic!("{}", e.to_string()));
    assert_eq!(config.max_photo_bytes, u64::MAX);
    assert_eq!(
        message(load(&with(&[("CARDIGAN_MAX_PHOTO_BYTES", "+")]))),
        "invalid value for CARDIGAN_MAX_PHOTO_BYTES: invalid digit found in string"
    );
}

fn load_with_database_path(path: &'static str) -> Config {
    let mut vars: Vec<(&str, &str)> = REQUIRED.iter().filter(|(k, _)| *k != "CARDIGAN_DATABASE_PATH").copied().collect();
    vars.push(("CARDIGAN_DATABASE_PATH", path));
    load(&vars).unwrap_or_else(|e| panic!("{}", e.to_string()))
}

fn url_error(result: Result<String, Error>) -> String {
    match result {
        Ok(url) => panic!("refused, got {url}"),
        Err(e) => e.to_string(),
    }
}

#[test]
fn database_url_points_at_cardigan_db_in_directory() {
    let config = load_with_database_path("/tmp");
    assert_eq!(config.database_url(true).unwrap_or_else(|e| panic!("{}", e.to_string())), "sqlite:///tmp/cardigan.db?mode=rwc");
    let config = load_with_database_path("/tmp/");
    assert_eq!(config.database_url(true).unwrap_or_else(|e| panic!("{}", e.to_string())), "sqlite:///tmp/cardigan.db?mode=rwc");
}

#[test]
fn database_url_rejects_missing_directory() {
    let config = load_with_database_path("/definitely/not/a/cardigan/dir");
    assert_eq!(
        url_error(config.database_url(false)),
        "invalid value for CARDIGAN_DATABASE_PATH: /definitely/not/a/cardigan/dir is not an existing directory"
    );
}

#[test]
fn database_url_rejects_path_containing_question_mark() {
    let config = load_with_database_path("/var/lib/cardigan?evil=1");
    assert_eq!(
        url_error(config.database_url(true)),
        "invalid value for CARDIGAN_DATABASE_PATH: /var/lib/cardigan?evil=1 contains '?' or '%', which the SQLite URL cannot represent"
    );
}

#[test]
fn database_url_rejects_regular_file() {
    // A path naming a regular file: the caller finds it is not a directory.
    let path = "/tmp/cardigan-test-file";
    let config = load_with_database_path(path);
    assert_eq!(
        url_error(config.database_url(false)),
        format!("invalid value for CARDIGAN_DATABASE_PATH: {} is not an existing directory", path)
    );
}
