use minigrep::{find_matches, Config, ConfigError};

fn args(items: &[&str]) -> Vec<String> {
    items.iter().map(|s| s.to_string()).collect()
}

#[test]
fn config_reads_query_and_filename() {
    let c = Config::new(&args(&["prog", "needle", "poem.txt"]), false).unwrap();
    assert_eq!(c.query, "needle");
    assert_eq!(c.filename, "poem.txt");
    assert!(c.case_sensitive);
}

#[test]
fn config_ignores_extra_arguments() {
    let c = Config::new(&args(&["prog", "q", "f", "extra"]), true).unwrap();
    assert_eq!(c.query, "q");
    assert_eq!(c.filename, "f");
    assert!(!c.case_sensitive);
}

#[test]
fn config_with_one_argument_is_missing_argument() {
    let r = Config::new(&args(&["prog", "needle"]), false);
    assert!(matches!(r, Err(ConfigError::MissingArgument)));
}

#[test]
fn config_with_no_arguments_is_missing_argument() {
    assert!(matches!(Config::new(&args(&["prog"]), false), Err(ConfigError::MissingArgument)));
    assert!(matches!(Config::new(&[], true), Err(ConfigError::MissingArgument)));
}

#[test]
fn missing_argument_message() {
    assert_eq!(ConfigError::MissingArgument.message(), "not enough arguments");
}

#[test]
fn find_matches_follows_case_setting() {
    let contents = "Rust:\nsafe, fast, productive.\nPick three.\nTrust me.";
    let sensitive = Config::new(&args(&["prog", "rUsT", "f"]), false).unwrap();
    assert_eq!(Vec::<&str>::new(), find_matches(&sensitive, contents));
    let insensitive = Config::new(&args(&["prog", "rUsT", "f"]), true).unwrap();
    assert_eq!(vec!["Rust:", "Trust me."], find_matches(&insensitive, contents));
}
