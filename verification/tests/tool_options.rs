use clikit::cli::Args;

fn argv(items: &[&str]) -> Vec<String> {
    items.iter().map(|s| s.to_string()).collect()
}

#[test]
fn options_are_read() {
    let a = Args::parse(&argv(&["tuc", "-f", "1,2", "-d", ",", "-j", "input.txt"])).unwrap();
    assert_eq!(a.fields, Some("1,2".to_string()));
    assert_eq!(a.delimiter, ",");
    assert!(a.join);
    assert_eq!(a.file, Some("input.txt".to_string()));
}

#[test]
fn defaults() {
    let a = Args::parse(&argv(&["tuc"])).unwrap();
    assert_eq!(a.delimiter, "\t");
    assert_eq!(a.fields_spec_str(), "1:");
    assert!(!a.effective_join());
}

#[test]
fn option_errors() {
    assert_eq!(Args::parse(&argv(&["tuc", "--help"])).unwrap_err(), "__HELP__");
    assert_eq!(Args::parse(&argv(&["tuc", "-V"])).unwrap_err(), "__VERSION__");
    assert_eq!(Args::parse(&argv(&["tuc", "-x"])).unwrap_err(), "unexpected argument '-x' found");
    assert_eq!(Args::parse(&argv(&["tuc", "-f"])).unwrap_err(), "missing value for argument");
    assert_eq!(Args::parse(&argv(&["tuc", "-M", "x"])).unwrap_err(), "invalid fixed-memory");
    assert_eq!(Args::parse(&argv(&["tuc", "-t", ""])).unwrap_err(), "trim requires a value");
}

#[test]
fn valued_options() {
    let a = Args::parse(&argv(&["tuc", "-M", "12", "-t", "lr", "--fallback-oob", "?"])).unwrap();
    assert_eq!(a.fixed_memory, Some(12));
    assert_eq!(a.trim, Some('l'));
    assert_eq!(a.fallback_oob, Some("?".to_string()));
}

#[test]
fn joining_rules() {
    let lines = Args::parse(&argv(&["tuc", "-l", "1:2"])).unwrap();
    assert!(lines.is_lines());
    assert!(lines.effective_join());
    assert_eq!(lines.join_delimiter(), "\n");
    assert_eq!(lines.mode_fields_spec(), Some(&"1:2".to_string()));
    let nojoin = Args::parse(&argv(&["tuc", "-l", "1", "--no-join"])).unwrap();
    assert!(!nojoin.effective_join());
    assert_eq!(nojoin.join_delimiter(), "\t");
    let replaced = Args::parse(&argv(&["tuc", "-b", "1", "-r", "+"])).unwrap();
    assert!(replaced.is_bytes());
    assert!(!replaced.is_characters());
    assert!(replaced.effective_join());
    assert_eq!(replaced.join_delimiter(), "+");
}
