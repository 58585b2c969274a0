use clikit::bounds::parse_bounds;
use clikit::cut::{json_string, run, run_checked, CutMode, Options, TrimMode};
use clikit::cutter::CompiledRegex;
use clikit::split::split;

fn options(mode: CutMode, bounds: &str) -> Options {
    Options {
        delimiter: ",".to_string(),
        regex: None,
        greedy: false,
        compress: false,
        trim: None,
        complement: false,
        join: false,
        replace_delimiter: None,
        only_delimited: false,
        zero_terminated: false,
        json: false,
        fallback_oob: None,
        bounds: parse_bounds(bounds).unwrap(),
        bounds_raw: bounds.to_string(),
        mode,
        lines_no_join: false,
    }
}

#[test]
fn lines_are_selected() {
    let o = options(CutMode::Lines, "2");
    assert_eq!(run(b"a\nb\nc\n", &o), (b"b\n".to_vec(), None));
    let all = options(CutMode::Lines, "1:-1");
    assert_eq!(run(b"a\nb\n", &all), (b"a\nb\n".to_vec(), None));
}

#[test]
fn lines_complement_and_no_join() {
    let mut o = options(CutMode::Lines, "2");
    o.complement = true;
    assert_eq!(run(b"a\nb\nc\n", &o), (b"a\nc\n".to_vec(), None));
    let mut m = options(CutMode::Lines, "1:2");
    m.lines_no_join = true;
    assert_eq!(run(b"a\nb\nc\n", &m), (b"ab\n".to_vec(), None));
}

#[test]
fn lines_out_of_bounds() {
    let o = options(CutMode::Lines, "7");
    assert_eq!(run(b"a\n", &o), (Vec::new(), Some("Out of bounds: 7".to_string())));
}

#[test]
fn lines_template() {
    let o = options(CutMode::Lines, "{2}+{1}");
    assert_eq!(run(b"a\nb\n", &o), (b"b+a\n".to_vec(), None));
}

#[test]
fn fields_are_selected() {
    let o = options(CutMode::Fields, "2");
    assert_eq!(run(b"a,b\nc,d\n", &o), (b"b\nd\n".to_vec(), None));
}

#[test]
fn fields_partial_output_before_error() {
    let o = options(CutMode::Fields, "2");
    assert_eq!(run(b"a,b\nc\n", &o), (b"b\n".to_vec(), Some("Out of bounds: 2".to_string())));
}

#[test]
fn fields_ranges_and_complement() {
    let o = options(CutMode::Fields, "1:2");
    assert_eq!(run(b"a,b,c\n", &o), (b"a,b\n".to_vec(), None));
    let mut c = options(CutMode::Fields, "2");
    c.complement = true;
    assert_eq!(run(b"a,b,c\n", &c), (b"ac\n".to_vec(), None));
    let mut j = options(CutMode::Fields, "1,3");
    j.join = true;
    assert_eq!(run(b"a,b,c\n", &j), (b"a,c\n".to_vec(), None));
}

#[test]
fn whole_input_fields_json() {
    let mut o = options(CutMode::Fields, "1");
    o.json = true;
    assert_eq!(run(b"a,b\n", &o), (b"[\"a\",\"b\"]\n".to_vec(), None));
}

#[test]
fn bytes_and_characters() {
    let b = options(CutMode::Bytes, "2:3");
    assert_eq!(run(b"hello\n", &b), (b"el\n".to_vec(), None));
    let c = options(CutMode::Characters, "2");
    assert_eq!(run("h\u{e9}y\n".as_bytes(), &c), ("\u{e9}\n".as_bytes().to_vec(), None));
}

#[test]
fn reversed_byte_range_has_no_result() {
    let b = options(CutMode::Bytes, "3:1");
    assert_eq!(run_checked(b"hello\n", &b), None);
}

#[test]
fn splitting() {
    let mut o = options(CutMode::Fields, "1");
    o.greedy = true;
    assert_eq!(split("a,,b", &o), vec!["a", "b"]);
    let mut t = options(CutMode::Fields, "1");
    t.trim = Some(TrimMode::Both);
    assert_eq!(split(",a,", &t), vec!["a"]);
    let mut c = options(CutMode::Fields, "1");
    c.compress = true;
    assert_eq!(split("a,,,b", &c), vec!["a", "b"]);
    let mut r = options(CutMode::Fields, "1");
    r.regex = Some(CompiledRegex::new("[0-9]").unwrap());
    assert_eq!(split("a1b", &r), vec!["a", "b"]);
    let mut e = options(CutMode::Fields, "1");
    e.delimiter = String::new();
    assert_eq!(split("ab", &e), vec!["", "a", "b", ""]);
}

#[test]
fn quoting() {
    assert_eq!(json_string("q\"\\"), "\"q\\\"\\\\\"");
}
