//! Command-line settings and history file contents of the calculator.
use vstd::prelude::*;
use crate::num::{decimal, parse_in_range, parse_unsigned, push_radix};
use crate::text::{chars_of, concat, push_char, push_str, split_char, str_eq, to_string, views};

verus! {

/// What the calculator was asked to do: decimal places and radix of the
/// output, the angle unit, the expression of command mode, and whether help
/// or the version was asked for.
pub struct Config {
    pub fix: u32,
    pub base: u32,
    pub angle_unit: String,
    pub input: Option<String>,
    pub help: bool,
    pub version: bool,
}

/// The content of a `Config`.
pub struct ConfigView {
    pub fix: u32,
    pub base: u32,
    pub angle_unit: Seq<char>,
    pub input: Option<Seq<char>>,
    pub help: bool,
    pub version: bool,
}

impl View for Config {
    type V = ConfigView;

    open spec fn view(&self) -> ConfigView {
        ConfigView {
            fix: self.fix,
            base: self.base,
            angle_unit: self.angle_unit@,
            input: match self.input {
                Some(s) => Some(s@),
                None => None,
            },
            help: self.help,
            version: self.version,
        }
    }
}

/// The settings before any argument: ten places, radix ten, degrees.
pub open spec fn default_config() -> ConfigView {
    ConfigView {
        fix: 10,
        base: 10,
        angle_unit: "degree"@,
        input: None,
        help: false,
        version: false,
    }
}

/// The message for a value out of its range.
pub open spec fn range_message(v: int, option: Seq<char>, range: Seq<char>) -> Seq<char> {
    "invalid value '"@ + decimal(v as nat) + "' for '"@ + option + "': "@ + decimal(v as nat)
        + " is not in "@ + range
}

/// The message for an option that is not known.
pub open spec fn unexpected_message(arg: Seq<char>) -> Seq<char> {
    "error: unexpected argument '"@ + arg + "' found\n\n  tip: to pass '"@ + arg
        + "' as a value, use '-- "@ + arg
        + "'\n\nUsage: executable [OPTIONS] [INPUT]\n\nFor more information, try '--help'."@
}

/// Whether `a` is an angle unit the calculator knows.
pub open spec fn known_angle_unit(a: Seq<char>) -> bool {
    a == "degree"@ || a == "radian"@ || a == "gradian"@
}

/// The settings that the arguments from `i` on give, starting from `st`:
/// `--` takes the next argument (if any) as the expression and ends the
/// list; `-h`/`--help` and `-V`/`--version` set their flags; `-f`/`--fix`
/// takes a number in `1..=64`, `-b`/`--base` one in `1..=36`, and
/// `-a`/`--angle_unit` a known unit; any other argument that starts with `-`
/// is refused; the rest set the expression.
pub open spec fn parse_from(args: Seq<Seq<char>>, i: int, st: ConfigView) -> Result<ConfigView, Seq<char>>
    decreases args.len() - i,
{
    if i < 0 || i >= args.len() {
        Ok(st)
    } else {
        let a = args[i];
        if a == "--"@ {
            Ok(ConfigView { input: if i + 1 < args.len() { Some(args[i + 1]) } else { None }, ..st })
        } else if a == "-h"@ || a == "--help"@ {
            parse_from(args, i + 1, ConfigView { help: true, ..st })
        } else if a == "-V"@ || a == "--version"@ {
            parse_from(args, i + 1, ConfigView { version: true, ..st })
        } else if a == "-f"@ || a == "--fix"@ {
            if i + 1 >= args.len() {
                Err("missing value for --fix"@)
            } else {
                match parse_in_range(args[i + 1], 10, false, 0, u32::MAX as int) {
                    None => Err("invalid fix"@),
                    Some(v) => if 1 <= v <= 64 {
                        parse_from(args, i + 2, ConfigView { fix: v as u32, ..st })
                    } else {
                        Err(range_message(v, "--fix <FIX>"@, "1..=64"@))
                    },
                }
            }
        } else if a == "-b"@ || a == "--base"@ {
            if i + 1 >= args.len() {
                Err("missing value for --base"@)
            } else {
                match parse_in_range(args[i + 1], 10, false, 0, u32::MAX as int) {
                    None => Err("invalid base"@),
                    Some(v) => if 1 <= v <= 36 {
                        parse_from(args, i + 2, ConfigView { base: v as u32, ..st })
                    } else {
                        Err(range_message(v, "--base <RADIX>"@, "1..=36"@))
                    },
                }
            }
        } else if a == "-a"@ || a == "--angle_unit"@ {
            if i + 1 >= args.len() {
                Err("missing value for --angle_unit"@)
            } else if known_angle_unit(args[i + 1]) {
                parse_from(args, i + 2, ConfigView { angle_unit: args[i + 1], ..st })
            } else {
                Err("invalid angle unit: "@ + args[i + 1])
            }
        } else if a.len() > 0 && a[0] == '-' {
            Err(unexpected_message(a))
        } else {
            parse_from(args, i + 1, ConfigView { input: Some(a), ..st })
        }
    }
}

/// The settings that the arguments (without the program name) give.
pub open spec fn spec_parse_args(args: Seq<Seq<char>>) -> Result<ConfigView, Seq<char>> {
    parse_from(args, 0, default_config())
}

fn copy_config(c: &Config) -> (r: Config)
    ensures
        r@ == c@,
{
    Config {
        fix: c.fix,
        base: c.base,
        angle_unit: to_string(c.angle_unit.as_str()),
        input: match &c.input {
            Some(s) => Some(to_string(s.as_str())),
            None => None,
        },
        help: c.help,
        version: c.version,
    }
}

fn range_error(v: u32, option: &str, range: &str) -> (r: String)
    ensures
        r@ == range_message(v as int, option@, range@),
{
    let mut m = to_string("invalid value '");
    push_radix(&mut m, v as u64, 10);
    push_str(&mut m, "' for '");
    push_str(&mut m, option);
    push_str(&mut m, "': ");
    push_radix(&mut m, v as u64, 10);
    push_str(&mut m, " is not in ");
    push_str(&mut m, range);
    m
}

fn unexpected_error(arg: &str) -> (r: String)
    ensures
        r@ == unexpected_message(arg@),
{
    let mut m = to_string("error: unexpected argument '");
    push_str(&mut m, arg);
    push_str(&mut m, "' found\n\n  tip: to pass '");
    push_str(&mut m, arg);
    push_str(&mut m, "' as a value, use '-- ");
    push_str(&mut m, arg);
    push_str(&mut m, "'\n\nUsage: executable [OPTIONS] [INPUT]\n\nFor more information, try '--help'.");
    m
}

/// Reads a numeric option's value as `str::parse::<u32>` does.
fn parse_u32(s: &str) -> (r: Option<u32>)
    ensures
        match r {
            Some(v) => parse_in_range(s@, 10, false, 0, u32::MAX as int) == Some(v as int),
            None => parse_in_range(s@, 10, false, 0, u32::MAX as int) is None,
        },
{
    let cs = chars_of(s);
    match parse_unsigned(cs.as_slice(), 10, 0xffff_ffff) {
        Some(v) => Some(v as u32),
        None => None,
    }
}

/// The settings that the arguments (without the program name) give, or the
/// message for the first argument that is refused.
pub fn parse_args(args: &[String]) -> (r: Result<Config, String>)
    ensures
        match r {
            Ok(c) => spec_parse_args(views(args@)) == Ok::<ConfigView, Seq<char>>(c@),
            Err(e) => spec_parse_args(views(args@)) == Err::<ConfigView, Seq<char>>(e@),
        },
{
    let ghost av = views(args@);
    let mut st = Config {
        fix: 10,
        base: 10,
        angle_unit: to_string("degree"),
        input: None,
        help: false,
        version: false,
    };
    let mut i: usize = 0;
    while i < args.len()
        invariant
            i <= args@.len(),
            av == views(args@),
            spec_parse_args(av) == parse_from(av, i as int, st@),
        decreases args.len() - i,
    {
        let a = args[i].as_str();
        assert(av[i as int] == a@);
        if str_eq(a, "--") {
            let input = if i + 1 < args.len() {
                Some(to_string(args[i + 1].as_str()))
            } else {
                None
            };
            let r = Config { input, ..copy_config(&st) };
            assert(r@ =~~= ConfigView {
                input: if i + 1 < av.len() {
                    Some(av[i + 1])
                } else {
                    None
                },
                ..st@
            });
            return Ok(r);
        } else if str_eq(a, "-h") || str_eq(a, "--help") {
            st.help = true;
            i = i + 1;
        } else if str_eq(a, "-V") || str_eq(a, "--version") {
            st.version = true;
            i = i + 1;
        } else if str_eq(a, "-f") || str_eq(a, "--fix") {
            if i + 1 >= args.len() {
                return Err(to_string("missing value for --fix"));
            }
            let v = match parse_u32(args[i + 1].as_str()) {
                Some(v) => v,
                None => {
                    return Err(to_string("invalid fix"));
                },
            };
            if !(1 <= v && v <= 64) {
                return Err(range_error(v, "--fix <FIX>", "1..=64"));
            }
            st.fix = v;
            i = i + 2;
        } else if str_eq(a, "-b") || str_eq(a, "--base") {
            if i + 1 >= args.len() {
                return Err(to_string("missing value for --base"));
            }
            let v = match parse_u32(args[i + 1].as_str()) {
                Some(v) => v,
                None => {
                    return Err(to_string("invalid base"));
                },
            };
            if !(1 <= v && v <= 36) {
                return Err(range_error(v, "--base <RADIX>", "1..=36"));
            }
            st.base = v;
            i = i + 2;
        } else if str_eq(a, "-a") || str_eq(a, "--angle_unit") {
            if i + 1 >= args.len() {
                return Err(to_string("missing value for --angle_unit"));
            }
            let u = args[i + 1].as_str();
            if !(str_eq(u, "degree") || str_eq(u, "radian") || str_eq(u, "gradian")) {
                let mut m = to_string("invalid angle unit: ");
                push_str(&mut m, u);
                return Err(m);
            }
            st.angle_unit = to_string(u);
            i = i + 2;
        } else {
            let cs = chars_of(a);
            if cs.len() > 0 && cs[0] == '-' {
                return Err(unexpected_error(a));
            }
            st.input = Some(to_string(a));
            i = i + 1;
        }
    }
    Ok(st)
}

/// The lines of a text as `str::lines` gives them (a line break is `\n` or
/// `\r\n`), followed by the text after the last break.
pub open spec fn line_texts(content: Seq<char>) -> Seq<Seq<char>> {
    let parts = split_char(content, '\n');
    Seq::new(
        parts.len(),
        |i: int|
            if i + 1 < parts.len() && parts[i].len() > 0 && parts[i].last() == '\r' {
                parts[i].drop_last()
            } else {
                parts[i]
            },
    )
}

/// The lines after the leading ones that start with `#`.
pub open spec fn skip_comments(ls: Seq<Seq<char>>) -> Seq<Seq<char>>
    decreases ls.len(),
{
    if ls.len() > 0 && ls[0].len() > 0 && ls[0][0] == '#' {
        skip_comments(ls.drop_first())
    } else {
        ls
    }
}

/// The lines that are not empty, in order.
pub open spec fn non_empty(ls: Seq<Seq<char>>) -> Seq<Seq<char>>
    decreases ls.len(),
{
    if ls.len() == 0 {
        ls
    } else if ls.last().len() == 0 {
        non_empty(ls.drop_last())
    } else {
        non_empty(ls.drop_last()).push(ls.last())
    }
}

/// The entries of a history file: its lines after the leading comments,
/// without the empty ones.
pub open spec fn spec_history_entries(content: Seq<char>) -> Seq<Seq<char>> {
    non_empty(skip_comments(line_texts(content)))
}

/// The entries of a history file, and whether there are none.
pub fn history_entries(content: &str) -> (r: (Vec<String>, bool))
    ensures
        views(r.0@) == spec_history_entries(content@),
        r.1 == (r.0@.len() == 0),
{
    let cs = chars_of(content);
    let parts = crate::text::split_on_char(cs.as_slice(), '\n');
    let ghost lines = line_texts(content@);
    let mut texts: Vec<Vec<char>> = Vec::new();
    let mut k: usize = 0;
    while k < parts.len()
        invariant
            k <= parts@.len(),
            lines == line_texts(content@),
            parts@.len() == lines.len(),
            forall|j: int| 0 <= j < parts@.len() ==> #[trigger] parts@[j]@ == split_char(content@, '\n')[j],
            texts@.len() == k,
            forall|j: int| 0 <= j < k ==> #[trigger] texts@[j]@ == lines[j],
        decreases parts.len() - k,
    {
        let p = &parts[k];
        let n = p.len();
        let t = if k + 1 < parts.len() && n > 0 && p[n - 1] == '\r' {
            crate::text::slice_range(p.as_slice(), 0, n - 1)
        } else {
            crate::text::slice_range(p.as_slice(), 0, n)
        };
        assert(p@.subrange(0, n as int) =~= p@);
        assert(p@.subrange(0, n - 1) =~= p@.drop_last());
        texts.push(t);
        k = k + 1;
    }
    let mut start: usize = 0;
    assert(lines.skip(0) =~= lines);
    while start < texts.len() && texts[start].len() > 0 && texts[start][0] == '#'
        invariant
            start <= texts@.len(),
            texts@.len() == lines.len(),
            forall|j: int| 0 <= j < texts@.len() ==> #[trigger] texts@[j]@ == lines[j],
            skip_comments(lines) == skip_comments(lines.skip(start as int)),
        decreases texts.len() - start,
    {
        assert(lines.skip(start as int).drop_first() =~= lines.skip(start + 1));
        start = start + 1;
    }
    let ghost rest = lines.skip(start as int);
    assert(skip_comments(rest) == rest);
    let mut out: Vec<String> = Vec::new();
    let mut i = start;
    assert(rest.take(0) =~= Seq::<Seq<char>>::empty());
    while i < texts.len()
        invariant
            start <= i <= texts@.len(),
            texts@.len() == lines.len(),
            forall|j: int| 0 <= j < texts@.len() ==> #[trigger] texts@[j]@ == lines[j],
            rest == lines.skip(start as int),
            views(out@) == non_empty(rest.take(i - start)),
        decreases texts.len() - i,
    {
        assert(rest.take(i - start + 1).drop_last() =~= rest.take(i - start));
        assert(rest[i - start] == lines[i as int]);
        if texts[i].len() > 0 {
            let s = crate::text::string_of(texts[i].as_slice());
            let ghost before = views(out@);
            out.push(s);
            assert(views(out@) =~= before.push(s@));
        }
        i = i + 1;
    }
    assert(rest.take(texts@.len() - start) =~= rest);
    let empty = out.len() == 0;
    (out, empty)
}

/// The content of a history file that holds `entries`: a version line,
/// then each entry on a line of its own.
pub open spec fn spec_history_text(entries: Seq<Seq<char>>) -> Seq<char> {
    "#V2\n"@ + concat(entries.map_values(|e: Seq<char>| e.push('\n')))
}

/// The content of a history file that holds `entries`.
pub fn history_text(entries: &[String]) -> (r: String)
    ensures
        r@ == spec_history_text(views(entries@)),
{
    let ghost items = views(entries@).map_values(|e: Seq<char>| e.push('\n'));
    let mut out = to_string("#V2\n");
    let ghost head = out@;
    let mut i: usize = 0;
    assert(items.take(0) =~= Seq::<Seq<char>>::empty());
    while i < entries.len()
        invariant
            i <= entries@.len(),
            items == views(entries@).map_values(|e: Seq<char>| e.push('\n')),
            head == "#V2\n"@,
            out@ == head + concat(items.take(i as int)),
        decreases entries.len() - i,
    {
        let ghost before = out@;
        push_str(&mut out, entries[i].as_str());
        push_char(&mut out, '\n');
        proof {
            assert(out@ =~= before + items[i as int]);
            assert(items.take(i + 1) =~= items.take(i as int).push(items[i as int]));
            crate::text::lemma_concat_push(items.take(i as int), items[i as int]);
        }
        i = i + 1;
    }
    assert(items.take(entries@.len() as int) =~= items);
    out
}


proof fn lemma_parse_from_ranges(args: Seq<Seq<char>>, i: int, st: ConfigView)
    requires
        1 <= st.fix <= 64,
        1 <= st.base <= 36,
        known_angle_unit(st.angle_unit),
    ensures
        parse_from(args, i, st) matches Ok(c) ==> 1 <= c.fix <= 64 && 1 <= c.base <= 36
            && known_angle_unit(c.angle_unit),
    decreases args.len() - i,
{
    if 0 <= i < args.len() {
        let a = args[i];
        if a == "--"@ {
        } else if a == "-h"@ || a == "--help"@ {
            lemma_parse_from_ranges(args, i + 1, ConfigView { help: true, ..st });
        } else if a == "-V"@ || a == "--version"@ {
            lemma_parse_from_ranges(args, i + 1, ConfigView { version: true, ..st });
        } else if a == "-f"@ || a == "--fix"@ {
            if i + 1 < args.len() {
                match parse_in_range(args[i + 1], 10, false, 0, u32::MAX as int) {
                    Some(v) => if 1 <= v <= 64 {
                        lemma_parse_from_ranges(args, i + 2, ConfigView { fix: v as u32, ..st });
                    },
                    None => {},
                }
            }
        } else if a == "-b"@ || a == "--base"@ {
            if i + 1 < args.len() {
                match parse_in_range(args[i + 1], 10, false, 0, u32::MAX as int) {
                    Some(v) => if 1 <= v <= 36 {
                        lemma_parse_from_ranges(args, i + 2, ConfigView { base: v as u32, ..st });
                    },
                    None => {},
                }
            }
        } else if a == "-a"@ || a == "--angle_unit"@ {
            if i + 1 < args.len() && known_angle_unit(args[i + 1]) {
                lemma_parse_from_ranges(args, i + 2, ConfigView { angle_unit: args[i + 1], ..st });
            }
        } else if a.len() > 0 && a[0] == '-' {
        } else {
            lemma_parse_from_ranges(args, i + 1, ConfigView { input: Some(a), ..st });
        }
    }
}

/// Accepted settings always have between one and sixty-four decimal places,
/// a radix between one and thirty-six and a known angle unit.
pub proof fn accepted_settings_in_range(args: Seq<Seq<char>>)
    ensures
        spec_parse_args(args) matches Ok(c) ==> 1 <= c.fix <= 64 && 1 <= c.base <= 36
            && known_angle_unit(c.angle_unit),
{
    lemma_parse_from_ranges(args, 0, default_config());
}


proof fn lemma_split_append(s: Seq<char>, e: Seq<char>, sep: char)
    requires
        !e.contains(sep),
    ensures
        split_char(s + e, sep) == split_char(s, sep).drop_last() + seq![
            split_char(s, sep).last() + e,
        ],
    decreases e.len(),
{
    crate::text::lemma_split_char_nonempty(s, sep);
    if e.len() == 0 {
        assert(s + e =~= s);
        assert(split_char(s, sep).last() + e =~= split_char(s, sep).last());
        assert(split_char(s, sep).drop_last() + seq![split_char(s, sep).last()] =~= split_char(
            s,
            sep,
        ));
    } else {
        let e0 = e.drop_last();
        assert(!e0.contains(sep)) by {
            if e0.contains(sep) {
                let j = choose|j: int| 0 <= j < e0.len() && e0[j] == sep;
                assert(e[j] == sep);
            }
        }
        assert(e.last() != sep) by {
            assert(e[e.len() - 1] == e.last());
        }
        lemma_split_append(s, e0, sep);
        let t = s + e;
        assert(t.drop_last() =~= s + e0);
        assert(t.last() == e.last());
        let rest = split_char(s + e0, sep);
        crate::text::lemma_split_char_nonempty(s + e0, sep);
        assert(split_char(t, sep) == rest.update(rest.len() - 1, rest.last().push(e.last())));
        assert(split_char(s, sep).last() + e =~= (split_char(s, sep).last() + e0).push(e.last()));
        assert(split_char(t, sep) =~= split_char(s, sep).drop_last() + seq![
            split_char(s, sep).last() + e,
        ]);
    }
}

/// Entries that a history file gives back: none empty, none holding a
/// line break or ending in a carriage return, the first not starting with `#`.
pub open spec fn plain_entries(es: Seq<Seq<char>>) -> bool {
    &&& forall|i: int|
        0 <= i < es.len() ==> (#[trigger] es[i]).len() > 0 && !es[i].contains('\n') && es[i].last()
            != '\r'
    &&& es.len() > 0 ==> es[0][0] != '#'
}

proof fn lemma_history_pieces(es: Seq<Seq<char>>)
    requires
        forall|i: int| 0 <= i < es.len() ==> !(#[trigger] es[i]).contains('\n'),
    ensures
        split_char(spec_history_text(es), '\n') == seq!["#V2"@] + es + seq![Seq::<char>::empty()],
    decreases es.len(),
{
    reveal_strlit("#V2\n");
    reveal_strlit("#V2");
    let items = es.map_values(|e: Seq<char>| e.push('\n'));
    if es.len() == 0 {
        assert(items =~= Seq::<Seq<char>>::empty());
        assert(spec_history_text(es) =~= "#V2"@.push('\n'));
        assert(!"#V2"@.contains('\n')) by {
            if "#V2"@.contains('\n') {
                let j = choose|j: int| 0 <= j < "#V2"@.len() && "#V2"@[j] == '\n';
            }
        }
        lemma_split_append(Seq::empty(), "#V2"@, '\n');
        assert(Seq::<char>::empty() + "#V2"@ =~= "#V2"@);
        assert(Seq::<char>::empty() + "#V2"@ =~= "#V2"@);
        assert(split_char("#V2"@.push('\n'), '\n') == split_char("#V2"@, '\n').push(
            Seq::<char>::empty(),
        )) by {
            assert("#V2"@.push('\n').drop_last() =~= "#V2"@);
        }
        assert(split_char("#V2"@, '\n') =~= seq!["#V2"@]);
        assert(split_char(spec_history_text(es), '\n') =~= seq!["#V2"@] + es + seq![
            Seq::<char>::empty(),
        ]);
    } else {
        let es0 = es.drop_last();
        let e = es.last();
        lemma_history_pieces(es0);
        let items0 = es0.map_values(|e: Seq<char>| e.push('\n'));
        assert(items.drop_last() =~= items0);
        assert(items.last() == e.push('\n'));
        let t0 = spec_history_text(es0);
        assert(spec_history_text(es) =~= t0 + e + seq!['\n']);
        assert(!e.contains('\n'));
        lemma_split_append(t0, e, '\n');
        let t = t0 + e;
        assert((t + seq!['\n']).drop_last() =~= t);
        assert(split_char(t + seq!['\n'], '\n') == split_char(t, '\n').push(Seq::<char>::empty()));
        assert(Seq::<char>::empty() + e =~= e);
        assert(split_char(spec_history_text(es), '\n') =~= seq!["#V2"@] + es + seq![
            Seq::<char>::empty(),
        ]);
    }
}

proof fn lemma_non_empty_keeps(es: Seq<Seq<char>>)
    requires
        forall|i: int| 0 <= i < es.len() ==> (#[trigger] es[i]).len() > 0,
    ensures
        non_empty(es) == es,
    decreases es.len(),
{
    if es.len() > 0 {
        lemma_non_empty_keeps(es.drop_last());
        assert(es.drop_last().push(es.last()) =~= es);
    }
}

/// A history file written with `entries` reads back as those entries.
pub proof fn history_round_trip(es: Seq<Seq<char>>)
    requires
        plain_entries(es),
    ensures
        spec_history_entries(spec_history_text(es)) == es,
{
    reveal_strlit("#V2");
    lemma_history_pieces(es);
    let pieces = seq!["#V2"@] + es + seq![Seq::<char>::empty()];
    let lines = line_texts(spec_history_text(es));
    assert(lines =~= pieces) by {
        assert forall|i: int| 0 <= i < pieces.len() implies lines[i] == pieces[i] by {
            if 1 <= i < pieces.len() - 1 {
                assert(pieces[i] == es[i - 1]);
            }
        }
    }
    assert(pieces.drop_first() =~= es + seq![Seq::<char>::empty()]);
    let rest = es + seq![Seq::<char>::empty()];
    assert(skip_comments(rest) == rest) by {
        if es.len() > 0 {
            assert(rest[0] == es[0]);
        }
    }
    assert(skip_comments(pieces) == rest);
    assert(rest.drop_last() =~= es);
    lemma_non_empty_keeps(es);
}


proof fn lemma_option_words()
    ensures
        "--"@ != "-f"@ && "--"@ != "--fix"@ && "--"@ != "-b"@ && "--"@ != "--base"@ && "--"@ != "-a"@
            && "--"@ != "--angle_unit"@,
        "-h"@ != "-f"@ && "-h"@ != "--fix"@ && "-h"@ != "-b"@ && "-h"@ != "--base"@ && "-h"@ != "-a"@
            && "-h"@ != "--angle_unit"@,
        "--help"@ != "-f"@ && "--help"@ != "--fix"@ && "--help"@ != "-b"@ && "--help"@ != "--base"@
            && "--help"@ != "-a"@ && "--help"@ != "--angle_unit"@,
        "-V"@ != "-f"@ && "-V"@ != "--fix"@ && "-V"@ != "-b"@ && "-V"@ != "--base"@ && "-V"@ != "-a"@
            && "-V"@ != "--angle_unit"@,
        "--version"@ != "-f"@ && "--version"@ != "--fix"@ && "--version"@ != "-b"@ && "--version"@
            != "--base"@ && "--version"@ != "-a"@ && "--version"@ != "--angle_unit"@,
        "-f"@ != "-b"@ && "-f"@ != "--base"@ && "-f"@ != "-a"@ && "-f"@ != "--angle_unit"@,
        "--fix"@ != "-b"@ && "--fix"@ != "--base"@ && "--fix"@ != "-a"@ && "--fix"@ != "--angle_unit"@,
        "-b"@ != "-a"@ && "-b"@ != "--angle_unit"@ && "--base"@ != "-a"@ && "--base"@ != "--angle_unit"@,
{
    reveal_strlit("--");
    reveal_strlit("-h");
    reveal_strlit("--help");
    reveal_strlit("-V");
    reveal_strlit("--version");
    reveal_strlit("-f");
    reveal_strlit("--fix");
    reveal_strlit("-b");
    reveal_strlit("--base");
    reveal_strlit("-a");
    reveal_strlit("--angle_unit");
    assert("--"@.len() == 2);
    assert("--"@[1] == '-');
    assert("--angle_unit"@.len() == 12);
    assert("--base"@.len() == 6);
    assert("--base"@[2] == 'b');
    assert("--fix"@.len() == 5);
    assert("--help"@.len() == 6);
    assert("--help"@[2] == 'h');
    assert("--version"@.len() == 9);
    assert("-V"@.len() == 2);
    assert("-V"@[1] == 'V');
    assert("-a"@.len() == 2);
    assert("-a"@[1] == 'a');
    assert("-b"@.len() == 2);
    assert("-b"@[1] == 'b');
    assert("-f"@.len() == 2);
    assert("-f"@[1] == 'f');
    assert("-h"@.len() == 2);
    assert("-h"@[1] == 'h');
}

/// `--fix n` (or `-f n`) sets the number of decimal places to `n` for every
/// `n` in `1..=64` and refuses a larger one; `--base r` (or `-b r`) sets the
/// radix to `r` for every `r` in `1..=36` and refuses a larger one; `--angle_unit
/// u` (or `-a u`) sets a known unit; every other setting keeps its default.
pub proof fn settings_take_their_values(n: nat, u: Seq<char>)
    ensures
        1 <= n <= 64 ==> spec_parse_args(seq!["--fix"@, decimal(n)]) == Ok::<ConfigView, Seq<char>>(
            ConfigView { fix: n as u32, ..default_config() },
        ),
        1 <= n <= 64 ==> spec_parse_args(seq!["-f"@, decimal(n)]) == Ok::<ConfigView, Seq<char>>(
            ConfigView { fix: n as u32, ..default_config() },
        ),
        64 < n <= u32::MAX ==> spec_parse_args(seq!["--fix"@, decimal(n)]) is Err,
        1 <= n <= 36 ==> spec_parse_args(seq!["--base"@, decimal(n)]) == Ok::<ConfigView, Seq<char>>(
            ConfigView { base: n as u32, ..default_config() },
        ),
        1 <= n <= 36 ==> spec_parse_args(seq!["-b"@, decimal(n)]) == Ok::<ConfigView, Seq<char>>(
            ConfigView { base: n as u32, ..default_config() },
        ),
        36 < n <= u32::MAX ==> spec_parse_args(seq!["--base"@, decimal(n)]) is Err,
        known_angle_unit(u) ==> spec_parse_args(seq!["--angle_unit"@, u]) == Ok::<ConfigView, Seq<char>>(
            ConfigView { angle_unit: u, ..default_config() },
        ),
        known_angle_unit(u) ==> spec_parse_args(seq!["-a"@, u]) == Ok::<ConfigView, Seq<char>>(
            ConfigView { angle_unit: u, ..default_config() },
        ),
        !known_angle_unit(u) ==> spec_parse_args(seq!["--angle_unit"@, u]) is Err,
{
    lemma_option_words();
    crate::num::lemma_parse_decimal(n, u32::MAX as int);
    let d = decimal(n);
    if 1 <= n <= 64 {
        assert(spec_parse_args(seq!["--fix"@, d]) == Ok::<ConfigView, Seq<char>>(
            ConfigView { fix: n as u32, ..default_config() },
        )) by {
            reveal_with_fuel(parse_from, 2);
        }
        assert(spec_parse_args(seq!["-f"@, d]) == Ok::<ConfigView, Seq<char>>(
            ConfigView { fix: n as u32, ..default_config() },
        )) by {
            reveal_with_fuel(parse_from, 2);
        }
    }
    if 64 < n <= u32::MAX {
        assert(spec_parse_args(seq!["--fix"@, d]) is Err) by {
            reveal_with_fuel(parse_from, 2);
        }
    }
    if 1 <= n <= 36 {
        assert(spec_parse_args(seq!["--base"@, d]) == Ok::<ConfigView, Seq<char>>(
            ConfigView { base: n as u32, ..default_config() },
        )) by {
            reveal_with_fuel(parse_from, 2);
        }
        assert(spec_parse_args(seq!["-b"@, d]) == Ok::<ConfigView, Seq<char>>(
            ConfigView { base: n as u32, ..default_config() },
        )) by {
            reveal_with_fuel(parse_from, 2);
        }
    }
    if 36 < n <= u32::MAX {
        assert(spec_parse_args(seq!["--base"@, d]) is Err) by {
            reveal_with_fuel(parse_from, 2);
        }
    }
    if known_angle_unit(u) {
        assert(spec_parse_args(seq!["--angle_unit"@, u]) == Ok::<ConfigView, Seq<char>>(
            ConfigView { angle_unit: u, ..default_config() },
        )) by {
            reveal_with_fuel(parse_from, 2);
        }
        assert(spec_parse_args(seq!["-a"@, u]) == Ok::<ConfigView, Seq<char>>(
            ConfigView { angle_unit: u, ..default_config() },
        )) by {
            reveal_with_fuel(parse_from, 2);
        }
    } else {
        assert(spec_parse_args(seq!["--angle_unit"@, u]) is Err) by {
            reveal_with_fuel(parse_from, 2);
        }
    }
}
} // verus!
