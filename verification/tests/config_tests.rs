use domain_searcher::config::{
    parse_duration, parse_tld_list, normalize_tld_names, validate_config, Config, ConfigError,
    GeneratorConfig, HTTPCheckConfig, LimitsConfig, RunConfig, StorageConfig,
};

fn valid_config() -> Config {
    Config {
        version: 1,
        generator: GeneratorConfig {
            tlds: vec![".io".to_string()],
            tlds_file: String::new(),
            min_length: 1,
            max_length: 3,
            alphabet: "ab".to_string(),
            allow_hyphen: false,
            forbid_leading_hyphen: false,
            forbid_trailing_hyphen: false,
            forbid_double_hyphen: false,
        },
        limits: LimitsConfig { concurrency: 4, rate_per_second: 5, max_candidates: 0 },
        http_check: HTTPCheckConfig {
            timeout_ms: 3000,
            retry: 1,
            method: String::new(),
            accept_status_min: 200,
            accept_status_max: 299,
            try_https_first: false,
            body_limit_bytes: 4096,
        },
        run: RunConfig { loop_: false },
        storage: StorageConfig {
            dir: "data".to_string(),
            resume: true,
            state_file: String::new(),
        },
    }
}

#[test]
fn valid_config_passes() {
    assert!(validate_config(&valid_config()).is_ok());
}

#[test]
fn empty_tlds_rejected() {
    let mut c = valid_config();
    c.generator.tlds = vec![];
    assert_eq!(validate_config(&c), Err(ConfigError::EmptyTlds));
}

#[test]
fn tlds_file_satisfies_tld_presence() {
    let mut c = valid_config();
    c.generator.tlds = vec![];
    c.generator.tlds_file = "tlds.txt".to_string();
    assert!(validate_config(&c).is_ok());
}

#[test]
fn bad_lengths_rejected() {
    let mut c = valid_config();
    c.generator.min_length = 0;
    assert_eq!(validate_config(&c), Err(ConfigError::InvalidLengths));
    let mut c2 = valid_config();
    c2.generator.max_length = 0;
    assert_eq!(validate_config(&c2), Err(ConfigError::InvalidLengths));
}

#[test]
fn bad_concurrency_rejected() {
    let mut c = valid_config();
    c.limits.concurrency = 0;
    assert_eq!(validate_config(&c), Err(ConfigError::InvalidConcurrency));
}

#[test]
fn bad_rate_rejected() {
    let mut c = valid_config();
    c.limits.rate_per_second = -1;
    assert_eq!(validate_config(&c), Err(ConfigError::InvalidRate));
}

#[test]
fn bad_status_range_rejected() {
    let mut c = valid_config();
    c.http_check.accept_status_max = 100;
    assert_eq!(validate_config(&c), Err(ConfigError::InvalidStatusRange));
    let mut c2 = valid_config();
    c2.http_check.accept_status_min = 0;
    assert_eq!(validate_config(&c2), Err(ConfigError::InvalidStatusRange));
}

#[test]
fn blank_storage_dir_rejected() {
    let mut c = valid_config();
    c.storage.dir = "  ".to_string();
    assert_eq!(validate_config(&c), Err(ConfigError::EmptyStorageDir));
}

#[test]
fn durations_parse() {
    assert_eq!(parse_duration("500ms"), Ok(500));
    assert_eq!(parse_duration("3s"), Ok(3000));
    assert_eq!(parse_duration("2m"), Ok(120000));
    assert_eq!(parse_duration("1h"), Ok(3600000));
    assert_eq!(parse_duration("1.5s"), Ok(1500));
    assert_eq!(parse_duration("0.25h"), Ok(900000));
    assert_eq!(parse_duration("5"), Ok(5000));
    assert_eq!(parse_duration(" 2S "), Ok(2000));
    assert_eq!(parse_duration(".5s"), Ok(500));
}

#[test]
fn bad_durations_rejected() {
    assert_eq!(parse_duration("abc"), Err(ConfigError::InvalidDuration));
    assert_eq!(parse_duration(""), Err(ConfigError::InvalidDuration));
    assert_eq!(parse_duration("."), Err(ConfigError::InvalidDuration));
    assert_eq!(parse_duration("1.2.3s"), Err(ConfigError::InvalidDuration));
    assert_eq!(parse_duration("99999999999999999999999999s"), Err(ConfigError::InvalidDuration));
}

#[test]
fn tld_list_parses_sorted_unique() {
    let text = "com\n# a comment\n.ORG\n\nio\ncom\n";
    let out = parse_tld_list(text);
    assert_eq!(out, vec![".com", ".io", ".org"]);
}

#[test]
fn tld_list_of_empty_text() {
    assert_eq!(parse_tld_list(""), Vec::<String>::new());
}

#[test]
fn tld_names_for_listing() {
    let tlds = vec![".io".to_string(), ".dev".to_string()];
    assert_eq!(normalize_tld_names(&tlds), vec!["dev", "io"]);
}

#[test]
fn tld_names_dedupe_and_lowercase() {
    let tlds = vec![" .IO".to_string(), "io".to_string(), " ".to_string()];
    assert_eq!(normalize_tld_names(&tlds), vec!["io"]);
}

#[test]
fn error_messages_are_stable() {
    assert_eq!(ConfigError::InvalidConcurrency.message(), "limits.concurrency must be > 0");
}
