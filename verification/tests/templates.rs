use clikit::format::format_template;

#[test]
fn placeholders_are_filled() {
    let r = format_template("{1}-{2}", |i, _, _| Ok(format!("v{i}")));
    assert_eq!(r.unwrap(), "v1-v2");
}

#[test]
fn braces_and_escapes() {
    let r = format_template("{{x}} a\\nb \\q", |_, _, _| Ok(String::new()));
    assert_eq!(r.unwrap(), "{x} a\nb q");
    let open = format_template("a{b", |_, _, _| Ok(String::new()));
    assert_eq!(open.unwrap(), "a{b");
}

#[test]
fn ranges_are_asked_for() {
    let r = format_template("{2:}|{1:3}", |i, s, e| Ok(format!("{i}{s:?}{e:?}")));
    assert_eq!(r.unwrap(), "2Some(2)Some(0)|1Some(1)Some(3)");
}

#[test]
fn values_are_unescaped() {
    let r = format_template("{1}", |_, _, _| Ok("a\\tb".to_string()));
    assert_eq!(r.unwrap(), "a\tb");
}

#[test]
fn template_errors() {
    let bad = format_template("{a}", |_, _, _| Ok(String::new()));
    assert_eq!(bad.unwrap_err(), "Invalid index `a`");
    let failing = format_template("x{1}", |_, _, _| Err("nope".to_string()));
    assert_eq!(failing.unwrap_err(), "nope");
}

#[test]
fn plain_template_is_kept_without_asking() {
    let r = format_template("plain text, no fields", |_, _, _| -> Result<String, String> {
        panic!("the resolver is not asked")
    });
    assert_eq!(r, Ok("plain text, no fields".to_string()));
}

#[test]
fn resolver_error_stops_the_filling() {
    let calls = std::cell::Cell::new(0);
    let r = format_template("{1}-{2}-{3}", |_, _, _| -> Result<String, String> {
        calls.set(calls.get() + 1);
        Err("no such field".to_string())
    });
    assert_eq!(r, Err("no such field".to_string()));
    assert_eq!(calls.get(), 1);
}
