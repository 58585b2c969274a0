use clikit::cut::TrimMode;
use clikit::cutter::{
    apply_trim, compress_delimiters, json_string, process_bytes, process_characters,
    process_fields, process_fields_checked, process_lines, split_greedy, split_normal, to_json,
    Bound, CutConfig, FormatPart, FormatSpec,
};

fn config(delimiter: &str, bounds: Vec<Bound>) -> CutConfig {
    CutConfig {
        delimiter: delimiter.to_string(),
        regex: None,
        join: false,
        line_mode: false,
        complement: false,
        greedy: false,
        compress: false,
        only_delimited: false,
        replace_delimiter: None,
        trim: None,
        json: false,
        fallback_oob: None,
        bounds: Some(bounds),
        format_spec: None,
    }
}

fn single(start: i64) -> Bound {
    Bound { start, end: None, fallback: None }
}

fn range(start: i64, end: i64) -> Bound {
    Bound { start, end: Some(end), fallback: None }
}

#[test]
fn greedy_split() {
    let fields = split_greedy("foo    bar", " ");
    assert_eq!(fields, vec!["foo", "bar"]);
}

#[test]
fn greedy_split_with_empty_delimiter_keeps_line() {
    assert_eq!(split_greedy("a b", ""), vec!["a b"]);
}

#[test]
fn normal_split_keeps_empty_fields() {
    assert_eq!(split_normal("a,b,,c", ","), vec!["a", "b", "", "c"]);
    assert_eq!(split_normal("abc", ""), vec!["abc"]);
}

#[test]
fn compress_squeezes_runs() {
    assert_eq!(compress_delimiters("a,,b,,,c", ","), "a,b,c");
    assert_eq!(compress_delimiters("a--b", ""), "a--b");
}

#[test]
fn trim_removes_delimiters_at_ends() {
    let mut c = config(",", vec![]);
    c.trim = Some(TrimMode::Both);
    assert_eq!(apply_trim(",,a,b,,", &c), "a,b");
    c.trim = Some(TrimMode::Left);
    assert_eq!(apply_trim(",,a,b,,", &c), "a,b,,");
    c.trim = Some(TrimMode::Right);
    assert_eq!(apply_trim(",,a,b,,", &c), ",,a,b");
}

#[test]
fn json_escapes() {
    assert_eq!(json_string("a\"b\n"), "\"a\\\"b\\n\"");
    assert_eq!(json_string("\u{1}"), "\"\\u0001\"");
    assert_eq!(to_json(&vec!["x".to_string(), "y".to_string()]).unwrap(), "[\"x\",\"y\"]\n");
}

#[test]
fn fields_single() {
    let c = config(",", vec![single(2)]);
    assert_eq!(process_fields(b"a,b,c\n1,2,3\n", &c, false).unwrap(), "b\n2\n");
}

#[test]
fn fields_negative_index() {
    let c = config(",", vec![single(-1)]);
    assert_eq!(process_fields(b"a,b,c\n", &c, false).unwrap(), "c\n");
}

#[test]
fn fields_range_is_joined_by_delimiter() {
    let c = config(",", vec![range(1, 2)]);
    assert_eq!(process_fields(b"a,b,c\n1,2,3\n", &c, false).unwrap(), "a,b\n1,2\n");
}

#[test]
fn fields_join_and_replace() {
    let mut c = config(",", vec![single(1), single(3)]);
    c.join = true;
    c.replace_delimiter = Some("|".to_string());
    assert_eq!(process_fields(b"a,b,c\n", &c, false).unwrap(), "a|c\n");
}

#[test]
fn fields_out_of_bounds_is_an_error() {
    let c = config(",", vec![single(5)]);
    assert_eq!(process_fields(b"a,b\n", &c, false).unwrap_err(), "Error: Out of bounds: 5");
}

#[test]
fn fields_fallback_fills_gaps() {
    let mut c = config(",", vec![single(5)]);
    c.fallback_oob = Some("x".to_string());
    assert_eq!(process_fields(b"a,b\nc\n", &c, false).unwrap(), "x\nx\n");
    let mut c2 = config(",", vec![Bound { start: 5, end: None, fallback: Some("y".to_string()) }]);
    c2.fallback_oob = Some("x".to_string());
    assert_eq!(process_fields(b"a,b\n", &c2, false).unwrap(), "y\n");
}

#[test]
fn fields_complement() {
    let mut c = config(",", vec![single(2)]);
    c.complement = true;
    assert_eq!(process_fields(b"a,b,c\n", &c, false).unwrap(), "ac\n");
}

#[test]
fn fields_complement_of_the_only_field_is_empty() {
    let mut c = config(",", vec![single(1)]);
    c.complement = true;
    c.only_delimited = false;
    assert_eq!(process_fields(b"\n", &c, false).unwrap(), "\n");
}

#[test]
fn fields_json() {
    let mut c = config(",", vec![single(1), range(2, 3)]);
    c.json = true;
    assert_eq!(process_fields(b"a,b,c\n", &c, false).unwrap(), "[\"a\",\"b\",\"c\"]\n");
}

#[test]
fn fields_only_delimited_skips_lines() {
    let mut c = config(",", vec![single(1)]);
    c.only_delimited = true;
    assert_eq!(process_fields(b"a,b\nplain\n", &c, false).unwrap(), "a\n");
}

#[test]
fn fields_zero_terminated() {
    let c = config(",", vec![single(2)]);
    assert_eq!(process_fields(b"a,b\0c,d", &c, true).unwrap(), "b\nd\n");
}

#[test]
fn fields_template() {
    let mut c = config(",", vec![]);
    c.bounds = None;
    c.format_spec = Some(FormatSpec {
        parts: vec![
            FormatPart::Field { start: 2, end: None },
            FormatPart::Literal("-".to_string()),
            FormatPart::Field { start: 1, end: None },
        ],
    });
    assert_eq!(process_fields(b"a,b\n", &c, false).unwrap(), "b-a\n");
}

#[test]
fn fields_missing_bounds() {
    let mut c = config(",", vec![]);
    c.bounds = None;
    assert_eq!(process_fields(b"a\n", &c, false).unwrap_err(), "Missing bounds");
}

#[test]
fn fields_checked_matches() {
    let c = config(",", vec![single(1)]);
    assert_eq!(process_fields_checked(b"x,y\n", &c, false), Some(Ok("x\n".to_string())));
}

#[test]
fn fields_with_regex() {
    let mut c = config(",", vec![single(2)]);
    c.regex = Some("[0-9]+".to_string());
    assert_eq!(process_fields(b"a1b22c\n", &c, false).unwrap(), "b\n");
    c.regex = Some("(".to_string());
    assert!(process_fields(b"a1b\n", &c, false).unwrap_err().starts_with("Invalid regex: "));
}

#[test]
fn bytes_range() {
    let c = config(",", vec![range(2, 3)]);
    assert_eq!(process_bytes(b"hello", &c).unwrap(), "el");
}

#[test]
fn bytes_json() {
    let mut c = config(",", vec![single(1)]);
    c.json = true;
    assert_eq!(process_bytes(b"hi", &c).unwrap(), "[\"h\"]\n");
}

#[test]
fn characters_are_unicode_aware() {
    let c = config(",", vec![single(2)]);
    assert_eq!(process_characters("h\u{e9}llo\n".as_bytes(), &c, false).unwrap(), "\u{e9}\n");
}

#[test]
fn lines_range() {
    let mut c = config(",", vec![range(2, 3)]);
    c.line_mode = true;
    assert_eq!(process_lines(b"a\nb\nc\n", &c, false).unwrap(), "b\nc\n");
}

#[test]
fn lines_invalid_bound() {
    let mut c = config(",", vec![range(2, -1)]);
    c.line_mode = true;
    assert_eq!(process_lines(b"a\nb\n", &c, false).unwrap_err(), "Error: Out of bounds: 2");
}

#[test]
fn lines_empty_input() {
    let mut c = config(",", vec![single(1)]);
    c.line_mode = true;
    assert_eq!(process_lines(b"", &c, false).unwrap(), "");
}

#[test]
fn json_strings_hold_no_control_characters() {
    let j = json_string("tab\t\u{7f}\u{1b}/\\");
    assert_eq!(j, "\"tab\\t\\u007f\\u001b/\\\\\"");
    assert!(!j.chars().any(|c| c.is_control()));
    assert_eq!(json_string("tab\t"), "\"tab\\t\"");
}

#[test]
fn greedy_fields_join_to_the_squeezed_line() {
    let line = ",,a,,b,";
    let fields = split_greedy(line, ",");
    assert_eq!(fields, vec!["", "a", "b", ""]);
    assert_eq!(fields.join(","), compress_delimiters(line, ","));
    assert!(fields.iter().all(|f| !f.contains(',')));
}
