use minigrep::resolve_config;

fn args(tokens: &[&str]) -> Vec<String> {
    tokens.iter().map(|t| t.to_string()).collect()
}

#[test]
fn flag_after_the_positionals() {
    let config = resolve_config(&args(&["prog", "To", "poem.txt", "-i"]), false).unwrap();
    assert_eq!(config.query, "To");
    assert_eq!(config.file, "poem.txt");
    assert!(!config.case_sensitive);
}

#[test]
fn program_name_alone_is_a_usage_error() {
    let err = resolve_config(&args(&["prog"]), false).unwrap_err();
    assert_eq!(err.message, "not enough arguments");
}

#[test]
fn one_positional_is_a_usage_error() {
    assert!(resolve_config(&args(&["prog", "To"]), false).is_err());
    assert!(resolve_config(&args(&["prog", "-i", "To"]), false).is_err());
}

#[test]
fn default_is_case_sensitive() {
    let config = resolve_config(&args(&["prog", "To", "poem.txt"]), false).unwrap();
    assert!(config.case_sensitive);
}

#[test]
fn flag_may_come_before_the_positionals() {
    let config = resolve_config(&args(&["prog", "-i", "To", "poem.txt"]), false).unwrap();
    assert_eq!(config.query, "To");
    assert_eq!(config.file, "poem.txt");
    assert!(!config.case_sensitive);
}

#[test]
fn environment_alone_relaxes_case() {
    let config = resolve_config(&args(&["prog", "To", "poem.txt"]), true).unwrap();
    assert!(!config.case_sensitive);
}

#[test]
fn unrecognized_flags_are_ignored() {
    let config = resolve_config(&args(&["prog", "-v", "To", "poem.txt"]), false).unwrap();
    assert_eq!(config.query, "To");
    assert_eq!(config.file, "poem.txt");
    assert!(config.case_sensitive);
}

#[test]
fn file_is_the_last_positional() {
    let config = resolve_config(&args(&["prog", "To", "extra", "poem.txt"]), false).unwrap();
    assert_eq!(config.query, "To");
    assert_eq!(config.file, "poem.txt");
}
