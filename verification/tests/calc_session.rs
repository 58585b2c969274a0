use clikit::cutter::split_normal;
use clikit::engine::json_array;
use clikit::eval::AngleUnit;
use clikit::repl::{history_with_line, Config as ReplConfig};
use clikit::session::{history_entries, history_text, parse_args};

fn args(list: &[&str]) -> Vec<String> {
    list.iter().map(|s| s.to_string()).collect()
}

#[test]
fn default_settings() {
    let c = parse_args(&args(&[])).unwrap();
    assert_eq!(c.fix, 10);
    assert_eq!(c.base, 10);
    assert_eq!(c.angle_unit, "degree");
    assert_eq!(c.input, None);
    assert!(!c.help && !c.version);
}

#[test]
fn options_and_expression() {
    let c = parse_args(&args(&["-f", "5", "--base", "+16", "-a", "radian", "2+2"])).unwrap();
    assert_eq!(c.fix, 5);
    assert_eq!(c.base, 16);
    assert_eq!(c.angle_unit, "radian");
    assert_eq!(c.input.as_deref(), Some("2+2"));
    let c = parse_args(&args(&["-h", "--version"])).unwrap();
    assert!(c.help && c.version);
    let c = parse_args(&args(&["1", "--", "-3", "x"])).unwrap();
    assert_eq!(c.input.as_deref(), Some("-3"));
    let c = parse_args(&args(&["1", "--"])).unwrap();
    assert_eq!(c.input, None);
}

#[test]
fn refused_arguments() {
    assert_eq!(parse_args(&args(&["--fix"])).err().unwrap(), "missing value for --fix");
    assert_eq!(parse_args(&args(&["-f", "x"])).err().unwrap(), "invalid fix");
    assert_eq!(
        parse_args(&args(&["-f", "65"])).err().unwrap(),
        "invalid value '65' for '--fix <FIX>': 65 is not in 1..=64"
    );
    assert_eq!(parse_args(&args(&["-b"])).err().unwrap(), "missing value for --base");
    assert_eq!(parse_args(&args(&["-b", "-1"])).err().unwrap(), "invalid base");
    assert_eq!(
        parse_args(&args(&["-b", "0"])).err().unwrap(),
        "invalid value '0' for '--base <RADIX>': 0 is not in 1..=36"
    );
    assert_eq!(parse_args(&args(&["-a"])).err().unwrap(), "missing value for --angle_unit");
    assert_eq!(parse_args(&args(&["-a", "turn"])).err().unwrap(), "invalid angle unit: turn");
    assert_eq!(
        parse_args(&args(&["-x"])).err().unwrap(),
        "error: unexpected argument '-x' found\n\n  tip: to pass '-x' as a value, use '-- -x'\n\nUsage: executable [OPTIONS] [INPUT]\n\nFor more information, try '--help'."
    );
}

#[test]
fn history_file_contents() {
    let (entries, empty) = history_entries("#V2\nfoo\n\nbar\r\n");
    assert_eq!(entries, vec!["foo".to_string(), "bar".to_string()]);
    assert!(!empty);
    let (entries, empty) = history_entries("#V2\n");
    assert!(entries.is_empty() && empty);
    let (entries, _) = history_entries("#a\n#b\nx\n#c\ny\r");
    assert_eq!(entries, vec!["x".to_string(), "#c".to_string(), "y\r".to_string()]);
    assert_eq!(history_text(&args(&["a", "b"])), "#V2\na\nb\n");
    assert_eq!(history_text(&[]), "#V2\n");
}

#[test]
fn history_reads_back_what_was_written() {
    let entries = args(&["1+1", "sin(30)", "#x"]);
    let (read, empty) = history_entries(&history_text(&entries));
    assert_eq!(read, entries);
    assert!(!empty);
}

#[test]
fn appending_to_history() {
    assert_eq!(history_with_line(None, "1+1"), "#V2\n1+1\n");
    assert_eq!(history_with_line(Some("x"), "1+1"), "#V2\nx\n1+1\n");
    assert_eq!(history_with_line(Some("#V2\nold"), "1+1"), "#V2\nold\n1+1\n");
    assert_eq!(history_with_line(Some(""), "2"), "#V2\n2\n");
    let c = ReplConfig { fix: 3, base: 10, angle_unit: AngleUnit::Radian };
    assert_eq!(c.fix, 3);
}

#[test]
fn json_arrays() {
    assert_eq!(json_array(&args(&["a", "b\"c", "\n"])), "[\"a\",\"b\\\"c\",\"\\n\"]");
    assert_eq!(json_array(&[]), "[]");
}

#[test]
fn split_then_join_gives_the_line_back() {
    for (line, d) in [("a,b,,c", ","), ("a::b:", "::"), ("", ","), ("abc", "")] {
        let fields = split_normal(line, d);
        assert_eq!(fields.join(d), line);
    }
}
