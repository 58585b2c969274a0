//! Command-line options of the cutting tool and what they imply.
use vstd::prelude::*;
use crate::bounds::opt_view;
use crate::num::{parse_in_range, parse_unsigned};
use crate::text::{chars_of, str_eq, to_string};

verus! {

/// The options given on the command line.
#[derive(Debug, Clone)]
pub struct Args {
    pub greedy_delimiter: bool,
    pub compress_delimiter: bool,
    pub only_delimited: bool,
    pub zero_terminated: bool,
    pub complement: bool,
    pub join: bool,
    pub no_join: bool,
    pub json: bool,
    pub no_mmap: bool,
    pub fields: Option<String>,
    pub bytes: Option<String>,
    pub characters: Option<String>,
    pub lines: Option<String>,
    pub delimiter: String,
    pub regex: Option<String>,
    pub replace_delimiter: Option<String>,
    pub trim: Option<char>,
    pub fallback_oob: Option<String>,
    pub fixed_memory: Option<u64>,
    pub file: Option<String>,
}

/// The mathematical form of [`Args`].
pub struct ArgsView {
    pub greedy_delimiter: bool,
    pub compress_delimiter: bool,
    pub only_delimited: bool,
    pub zero_terminated: bool,
    pub complement: bool,
    pub join: bool,
    pub no_join: bool,
    pub json: bool,
    pub no_mmap: bool,
    pub fields: Option<Seq<char>>,
    pub bytes: Option<Seq<char>>,
    pub characters: Option<Seq<char>>,
    pub lines: Option<Seq<char>>,
    pub delimiter: Seq<char>,
    pub regex: Option<Seq<char>>,
    pub replace_delimiter: Option<Seq<char>>,
    pub trim: Option<char>,
    pub fallback_oob: Option<Seq<char>>,
    pub fixed_memory: Option<u64>,
    pub file: Option<Seq<char>>,
}

impl View for Args {
    type V = ArgsView;

    open spec fn view(&self) -> ArgsView {
        ArgsView {
            greedy_delimiter: self.greedy_delimiter,
            compress_delimiter: self.compress_delimiter,
            only_delimited: self.only_delimited,
            zero_terminated: self.zero_terminated,
            complement: self.complement,
            join: self.join,
            no_join: self.no_join,
            json: self.json,
            no_mmap: self.no_mmap,
            fields: opt_view(self.fields),
            bytes: opt_view(self.bytes),
            characters: opt_view(self.characters),
            lines: opt_view(self.lines),
            delimiter: self.delimiter@,
            regex: opt_view(self.regex),
            replace_delimiter: opt_view(self.replace_delimiter),
            trim: self.trim,
            fallback_oob: opt_view(self.fallback_oob),
            fixed_memory: self.fixed_memory,
            file: opt_view(self.file),
        }
    }
}

/// The options before any argument is read: a tab delimiter, nothing else set.
pub open spec fn default_args() -> ArgsView {
    ArgsView {
        greedy_delimiter: false,
        compress_delimiter: false,
        only_delimited: false,
        zero_terminated: false,
        complement: false,
        join: false,
        no_join: false,
        json: false,
        no_mmap: false,
        fields: None,
        bytes: None,
        characters: None,
        lines: None,
        delimiter: seq!['\t'],
        regex: None,
        replace_delimiter: None,
        trim: None,
        fallback_oob: None,
        fixed_memory: None,
        file: None,
    }
}

impl Default for Args {
    fn default() -> (r: Self)
        ensures
            r@ == default_args(),
    {
        let mut delimiter = String::new();
        crate::text::push_char(&mut delimiter, '\t');
        Args {
            greedy_delimiter: false,
            compress_delimiter: false,
            only_delimited: false,
            zero_terminated: false,
            complement: false,
            join: false,
            no_join: false,
            json: false,
            no_mmap: false,
            fields: None,
            bytes: None,
            characters: None,
            lines: None,
            delimiter,
            regex: None,
            replace_delimiter: None,
            trim: None,
            fallback_oob: None,
            fixed_memory: None,
            file: None,
        }
    }
}

/// What an argument asks for: a flag (1 to 9), help (10), version (11),
/// an option with a value (12 to 20), or 0 for anything else.
#[verifier::opaque]
pub open spec fn option_code(a: Seq<char>) -> int {
    if a == "-g"@ || a == "--greedy-delimiter"@ {
        1
    } else if a == "-p"@ || a == "--compress-delimiter"@ {
        2
    } else if a == "-s"@ || a == "--only-delimited"@ {
        3
    } else if a == "-z"@ || a == "--zero-terminated"@ {
        4
    } else if a == "-m"@ || a == "--complement"@ {
        5
    } else if a == "-j"@ || a == "--join"@ {
        6
    } else if a == "--no-join"@ {
        7
    } else if a == "--json"@ {
        8
    } else if a == "--no-mmap"@ {
        9
    } else if a == "-h"@ || a == "--help"@ {
        10
    } else if a == "-V"@ || a == "--version"@ {
        11
    } else if a == "-f"@ || a == "--fields"@ {
        12
    } else if a == "-b"@ || a == "--bytes"@ {
        13
    } else if a == "-c"@ || a == "--characters"@ {
        14
    } else if a == "-l"@ || a == "--lines"@ {
        15
    } else if a == "-d"@ || a == "--delimiter"@ {
        16
    } else if a == "-e"@ || a == "--regex"@ {
        17
    } else if a == "-r"@ || a == "--replace-delimiter"@ {
        18
    } else if a == "-t"@ || a == "--trim"@ {
        19
    } else if a == "--fallback-oob"@ {
        20
    } else if a == "-M"@ || a == "--fixed-memory"@ {
        21
    } else {
        0
    }
}

/// The options after a flag argument with code `code` (1 to 9).
pub open spec fn set_flag(a: ArgsView, code: int) -> ArgsView {
    if code == 1 {
        ArgsView { greedy_delimiter: true, ..a }
    } else if code == 2 {
        ArgsView { compress_delimiter: true, ..a }
    } else if code == 3 {
        ArgsView { only_delimited: true, ..a }
    } else if code == 4 {
        ArgsView { zero_terminated: true, ..a }
    } else if code == 5 {
        ArgsView { complement: true, ..a }
    } else if code == 6 {
        ArgsView { join: true, ..a }
    } else if code == 7 {
        ArgsView { no_join: true, ..a }
    } else if code == 8 {
        ArgsView { json: true, ..a }
    } else {
        ArgsView { no_mmap: true, ..a }
    }
}

/// The options after a valued option with code `code` took value `v`, or the error.
pub open spec fn set_value(a: ArgsView, code: int, v: Seq<char>) -> Result<ArgsView, Seq<char>> {
    if code == 12 {
        Ok(ArgsView { fields: Some(v), ..a })
    } else if code == 13 {
        Ok(ArgsView { bytes: Some(v), ..a })
    } else if code == 14 {
        Ok(ArgsView { characters: Some(v), ..a })
    } else if code == 15 {
        Ok(ArgsView { lines: Some(v), ..a })
    } else if code == 16 {
        Ok(ArgsView { delimiter: v, ..a })
    } else if code == 17 {
        Ok(ArgsView { regex: Some(v), ..a })
    } else if code == 18 {
        Ok(ArgsView { replace_delimiter: Some(v), ..a })
    } else if code == 19 {
        if v.len() == 0 {
            Err("trim requires a value"@)
        } else {
            Ok(ArgsView { trim: Some(v[0]), ..a })
        }
    } else if code == 20 {
        Ok(ArgsView { fallback_oob: Some(v), ..a })
    } else {
        match parse_in_range(v, 10, false, 0, u64::MAX as int) {
            Some(n) => Ok(ArgsView { fixed_memory: Some(n as u64), ..a }),
            None => Err("invalid fixed-memory"@),
        }
    }
}

/// Reads the arguments from position `i` on into the options `a`.
pub open spec fn parse_from(argv: Seq<Seq<char>>, i: int, a: ArgsView) -> Result<ArgsView, Seq<char>>
    decreases argv.len() - i,
{
    if i < 0 || i >= argv.len() {
        Ok(a)
    } else {
        let x = argv[i];
        let code = option_code(x);
        if 1 <= code <= 9 {
            parse_from(argv, i + 1, set_flag(a, code))
        } else if code == 10 {
            Err("__HELP__"@)
        } else if code == 11 {
            Err("__VERSION__"@)
        } else if code >= 12 {
            if i + 1 >= argv.len() {
                Err("missing value for argument"@)
            } else {
                match set_value(a, code, argv[i + 1]) {
                    Ok(b) => parse_from(argv, i + 2, b),
                    Err(e) => Err(e),
                }
            }
        } else if x.len() > 0 && x[0] == '-' {
            Err("unexpected argument '"@ + x + "' found"@)
        } else {
            parse_from(argv, i + 1, ArgsView { file: Some(x), ..a })
        }
    }
}

/// The options that `argv` (whose first entry is the program name) gives.
pub open spec fn spec_parse_args(argv: Seq<Seq<char>>) -> Result<ArgsView, Seq<char>> {
    parse_from(argv, 1, default_args())
}

/// The code of argument `a`.
fn code_of(a: &str) -> (r: u8)
    ensures
        r as int == option_code(a@),
        r <= 21,
{
    reveal(option_code);
    if str_eq(a, "-g") || str_eq(a, "--greedy-delimiter") {
        1
    } else if str_eq(a, "-p") || str_eq(a, "--compress-delimiter") {
        2
    } else if str_eq(a, "-s") || str_eq(a, "--only-delimited") {
        3
    } else if str_eq(a, "-z") || str_eq(a, "--zero-terminated") {
        4
    } else if str_eq(a, "-m") || str_eq(a, "--complement") {
        5
    } else if str_eq(a, "-j") || str_eq(a, "--join") {
        6
    } else if str_eq(a, "--no-join") {
        7
    } else if str_eq(a, "--json") {
        8
    } else if str_eq(a, "--no-mmap") {
        9
    } else if str_eq(a, "-h") || str_eq(a, "--help") {
        10
    } else if str_eq(a, "-V") || str_eq(a, "--version") {
        11
    } else if str_eq(a, "-f") || str_eq(a, "--fields") {
        12
    } else if str_eq(a, "-b") || str_eq(a, "--bytes") {
        13
    } else if str_eq(a, "-c") || str_eq(a, "--characters") {
        14
    } else if str_eq(a, "-l") || str_eq(a, "--lines") {
        15
    } else if str_eq(a, "-d") || str_eq(a, "--delimiter") {
        16
    } else if str_eq(a, "-e") || str_eq(a, "--regex") {
        17
    } else if str_eq(a, "-r") || str_eq(a, "--replace-delimiter") {
        18
    } else if str_eq(a, "-t") || str_eq(a, "--trim") {
        19
    } else if str_eq(a, "--fallback-oob") {
        20
    } else if str_eq(a, "-M") || str_eq(a, "--fixed-memory") {
        21
    } else {
        0
    }
}

/// Sets the flag with code `code` (1 to 9).
fn apply_flag(args: &mut Args, code: u8)
    requires
        1 <= code <= 9,
    ensures
        final(args)@ == set_flag(old(args)@, code as int),
{
    if code == 1 {
        args.greedy_delimiter = true;
    } else if code == 2 {
        args.compress_delimiter = true;
    } else if code == 3 {
        args.only_delimited = true;
    } else if code == 4 {
        args.zero_terminated = true;
    } else if code == 5 {
        args.complement = true;
    } else if code == 6 {
        args.join = true;
    } else if code == 7 {
        args.no_join = true;
    } else if code == 8 {
        args.json = true;
    } else {
        args.no_mmap = true;
    }
}

/// Gives the option with code `code` (12 to 21) the value `v`.
fn apply_value(args: &mut Args, code: u8, v: String) -> (r: Result<(), String>)
    requires
        12 <= code <= 21,
    ensures
        match r {
            Ok(_) => set_value(old(args)@, code as int, v@) == Ok::<ArgsView, Seq<char>>(final(args)@),
            Err(e) => set_value(old(args)@, code as int, v@) == Err::<ArgsView, Seq<char>>(e@),
        },
{
    if code == 12 {
        args.fields = Some(v);
    } else if code == 13 {
        args.bytes = Some(v);
    } else if code == 14 {
        args.characters = Some(v);
    } else if code == 15 {
        args.lines = Some(v);
    } else if code == 16 {
        args.delimiter = v;
    } else if code == 17 {
        args.regex = Some(v);
    } else if code == 18 {
        args.replace_delimiter = Some(v);
    } else if code == 19 {
        let cs = chars_of(v.as_str());
        if cs.len() == 0 {
            return Err(to_string("trim requires a value"));
        }
        args.trim = Some(cs[0]);
    } else if code == 20 {
        args.fallback_oob = Some(v);
    } else {
        let cs = chars_of(v.as_str());
        match parse_unsigned(cs.as_slice(), 10, 0xffff_ffff_ffff_ffffu128) {
            Some(n) => {
                args.fixed_memory = Some(n as u64);
            },
            None => {
                return Err(to_string("invalid fixed-memory"));
            },
        }
    }
    Ok(())
}

/// The error for an unknown option `a`.
fn unexpected(a: &str) -> (m: String)
    ensures
        m@ == "unexpected argument '"@ + a@ + "' found"@,
{
    let mut m = to_string("unexpected argument '");
    crate::text::push_str(&mut m, a);
    crate::text::push_str(&mut m, "' found");
    m
}

impl Args {
    /// Reads the options from `argv`, whose first entry is the program name.
    /// `-h` and `-V` end the reading with the errors `__HELP__` and
    /// `__VERSION__`.
    pub fn parse(argv: &[String]) -> (r: Result<Self, String>)
        ensures
            match r {
                Ok(a) => spec_parse_args(crate::text::views(argv@)) == Ok::<ArgsView, Seq<char>>(a@),
                Err(e) => spec_parse_args(crate::text::views(argv@)) == Err::<ArgsView, Seq<char>>(e@),
            },
    {
        let ghost av = crate::text::views(argv@);
        let mut args = Args::default();
        let mut i: usize = 1;
        while i < argv.len()
            invariant
                1 <= i <= argv@.len() + 1,
                av == crate::text::views(argv@),
                spec_parse_args(av) == parse_from(av, i as int, args@),
            decreases argv.len() - i,
        {
            let a = &argv[i];
            let code = code_of(a.as_str());
            assert(av[i as int] == a@);
            if 1 <= code && code <= 9 {
                apply_flag(&mut args, code);
            } else if code == 10 {
                return Err(to_string("__HELP__"));
            } else if code == 11 {
                return Err(to_string("__VERSION__"));
            } else if code >= 12 {
                if i + 1 >= argv.len() {
                    return Err(to_string("missing value for argument"));
                }
                assert(av[i + 1] == argv@[i + 1]@);
                let v = argv[i + 1].clone();
                match apply_value(&mut args, code, v) {
                    Ok(_) => {},
                    Err(e) => return Err(e),
                }
                i = i + 1;
            } else {
                let cs = chars_of(a.as_str());
                if cs.len() > 0 && cs[0] == '-' {
                    return Err(unexpected(a.as_str()));
                }
                args.file = Some(a.clone());
            }
            i = i + 1;
        }
        Ok(args)
    }
}


/// The selection that the options name: fields, else bytes, else
/// characters, else lines.
pub open spec fn spec_mode_fields_spec(a: ArgsView) -> Option<Seq<char>> {
    if a.fields is Some {
        a.fields
    } else if a.bytes is Some {
        a.bytes
    } else if a.characters is Some {
        a.characters
    } else {
        a.lines
    }
}

/// Whether the output pieces are joined: never with `--no-join`; else with
/// `--join`, a replacement delimiter, or line mode.
pub open spec fn spec_effective_join(a: ArgsView) -> bool {
    !a.no_join && (a.join || a.replace_delimiter is Some || a.lines is Some)
}

/// What joins the output pieces: a newline for joined lines, else the
/// replacement delimiter, else the delimiter.
pub open spec fn spec_args_join_delimiter(a: ArgsView) -> Seq<char> {
    if a.lines is Some && spec_effective_join(a) {
        seq!['\n']
    } else {
        match a.replace_delimiter {
            Some(r) => r,
            None => a.delimiter,
        }
    }
}

/// The selection text, `1:` (everything) when none is given.
pub open spec fn spec_fields_spec_str(a: ArgsView) -> Seq<char> {
    match spec_mode_fields_spec(a) {
        Some(s) => s,
        None => seq!['1', ':'],
    }
}

impl Args {
    /// The selection given with `-f`, `-b`, `-c` or `-l`, in that order of preference.
    pub fn mode_fields_spec(&self) -> (r: Option<&String>)
        ensures
            match r {
                Some(s) => spec_mode_fields_spec(self@) == Some(s@),
                None => spec_mode_fields_spec(self@) is None,
            },
    {
        if let Some(f) = &self.fields {
            Some(f)
        } else if let Some(b) = &self.bytes {
            Some(b)
        } else if let Some(c) = &self.characters {
            Some(c)
        } else if let Some(l) = &self.lines {
            Some(l)
        } else {
            None
        }
    }

    /// Whether lines are selected.
    pub fn is_lines(&self) -> (r: bool)
        ensures
            r == self.lines is Some,
    {
        self.lines.is_some()
    }

    /// Whether bytes are selected.
    pub fn is_bytes(&self) -> (r: bool)
        ensures
            r == self.bytes is Some,
    {
        self.bytes.is_some()
    }

    /// Whether characters are selected.
    pub fn is_characters(&self) -> (r: bool)
        ensures
            r == self.characters is Some,
    {
        self.characters.is_some()
    }

    /// Whether the selected pieces are joined.
    pub fn effective_join(&self) -> (r: bool)
        ensures
            r == spec_effective_join(self@),
    {
        if self.no_join {
            return false;
        }
        if self.join {
            return true;
        }
        if self.replace_delimiter.is_some() {
            return true;
        }
        if self.is_lines() {
            return true;
        }
        false
    }

    /// The text that joins the selected pieces.
    pub fn join_delimiter(&self) -> (r: String)
        ensures
            r@ == spec_args_join_delimiter(self@),
    {
        if self.is_lines() && self.effective_join() {
            let mut nl = String::new();
            crate::text::push_char(&mut nl, '\n');
            return nl;
        }
        if let Some(r) = &self.replace_delimiter {
            return r.clone();
        }
        self.delimiter.clone()
    }

    /// The selection text; `1:` when none was given.
    pub fn fields_spec_str(&self) -> (r: String)
        ensures
            r@ == spec_fields_spec_str(self@),
    {
        if let Some(s) = self.mode_fields_spec() {
            return s.clone();
        }
        let mut all = String::new();
        crate::text::push_char(&mut all, '1');
        crate::text::push_char(&mut all, ':');
        assert(all@ =~= seq!['1', ':']);
        all
    }
}


/// The code of every option spelling.
proof fn lemma_option_codes()
    ensures
        option_code("-g"@) == 1,
        option_code("--greedy-delimiter"@) == 1,
        option_code("-p"@) == 2,
        option_code("--compress-delimiter"@) == 2,
        option_code("-s"@) == 3,
        option_code("--only-delimited"@) == 3,
        option_code("-z"@) == 4,
        option_code("--zero-terminated"@) == 4,
        option_code("-m"@) == 5,
        option_code("--complement"@) == 5,
        option_code("-j"@) == 6,
        option_code("--join"@) == 6,
        option_code("--no-join"@) == 7,
        option_code("--json"@) == 8,
        option_code("--no-mmap"@) == 9,
        option_code("-h"@) == 10,
        option_code("--help"@) == 10,
        option_code("-V"@) == 11,
        option_code("--version"@) == 11,
        option_code("-f"@) == 12,
        option_code("--fields"@) == 12,
        option_code("-b"@) == 13,
        option_code("--bytes"@) == 13,
        option_code("-c"@) == 14,
        option_code("--characters"@) == 14,
        option_code("-l"@) == 15,
        option_code("--lines"@) == 15,
        option_code("-d"@) == 16,
        option_code("--delimiter"@) == 16,
        option_code("-e"@) == 17,
        option_code("--regex"@) == 17,
        option_code("-r"@) == 18,
        option_code("--replace-delimiter"@) == 18,
        option_code("-t"@) == 19,
        option_code("--trim"@) == 19,
        option_code("--fallback-oob"@) == 20,
        option_code("-M"@) == 21,
        option_code("--fixed-memory"@) == 21,
{
    reveal(option_code);
    reveal_strlit("-g");
    reveal_strlit("--greedy-delimiter");
    reveal_strlit("-p");
    reveal_strlit("--compress-delimiter");
    reveal_strlit("-s");
    reveal_strlit("--only-delimited");
    reveal_strlit("-z");
    reveal_strlit("--zero-terminated");
    reveal_strlit("-m");
    reveal_strlit("--complement");
    reveal_strlit("-j");
    reveal_strlit("--join");
    reveal_strlit("--no-join");
    reveal_strlit("--json");
    reveal_strlit("--no-mmap");
    reveal_strlit("-h");
    reveal_strlit("--help");
    reveal_strlit("-V");
    reveal_strlit("--version");
    reveal_strlit("-f");
    reveal_strlit("--fields");
    reveal_strlit("-b");
    reveal_strlit("--bytes");
    reveal_strlit("-c");
    reveal_strlit("--characters");
    reveal_strlit("-l");
    reveal_strlit("--lines");
    reveal_strlit("-d");
    reveal_strlit("--delimiter");
    reveal_strlit("-e");
    reveal_strlit("--regex");
    reveal_strlit("-r");
    reveal_strlit("--replace-delimiter");
    reveal_strlit("-t");
    reveal_strlit("--trim");
    reveal_strlit("--fallback-oob");
    reveal_strlit("-M");
    reveal_strlit("--fixed-memory");
    assert("--bytes"@.len() == 7);
    assert("--bytes"@[2] == 'b');
    assert("--characters"@.len() == 12);
    assert("--characters"@[3] == 'h');
    assert("--complement"@.len() == 12);
    assert("--complement"@[3] == 'o');
    assert("--compress-delimiter"@.len() == 20);
    assert("--delimiter"@.len() == 11);
    assert("--fallback-oob"@.len() == 14);
    assert("--fallback-oob"@[3] == 'a');
    assert("--fields"@.len() == 8);
    assert("--fixed-memory"@.len() == 14);
    assert("--fixed-memory"@[3] == 'i');
    assert("--greedy-delimiter"@.len() == 18);
    assert("--help"@.len() == 6);
    assert("--help"@[2] == 'h');
    assert("--join"@.len() == 6);
    assert("--join"@[2] == 'j');
    assert("--join"@[3] == 'o');
    assert("--json"@.len() == 6);
    assert("--json"@[2] == 'j');
    assert("--json"@[3] == 's');
    assert("--lines"@.len() == 7);
    assert("--lines"@[2] == 'l');
    assert("--no-join"@.len() == 9);
    assert("--no-join"@[2] == 'n');
    assert("--no-join"@[5] == 'j');
    assert("--no-mmap"@.len() == 9);
    assert("--no-mmap"@[2] == 'n');
    assert("--no-mmap"@[5] == 'm');
    assert("--only-delimited"@.len() == 16);
    assert("--regex"@.len() == 7);
    assert("--regex"@[2] == 'r');
    assert("--replace-delimiter"@.len() == 19);
    assert("--trim"@.len() == 6);
    assert("--trim"@[2] == 't');
    assert("--version"@.len() == 9);
    assert("--version"@[2] == 'v');
    assert("--zero-terminated"@.len() == 17);
    assert("-M"@.len() == 2);
    assert("-M"@[1] == 'M');
    assert("-V"@.len() == 2);
    assert("-V"@[1] == 'V');
    assert("-b"@.len() == 2);
    assert("-b"@[1] == 'b');
    assert("-c"@.len() == 2);
    assert("-c"@[1] == 'c');
    assert("-d"@.len() == 2);
    assert("-d"@[1] == 'd');
    assert("-e"@.len() == 2);
    assert("-e"@[1] == 'e');
    assert("-f"@.len() == 2);
    assert("-f"@[1] == 'f');
    assert("-g"@.len() == 2);
    assert("-g"@[1] == 'g');
    assert("-h"@.len() == 2);
    assert("-h"@[1] == 'h');
    assert("-j"@.len() == 2);
    assert("-j"@[1] == 'j');
    assert("-l"@.len() == 2);
    assert("-l"@[1] == 'l');
    assert("-m"@.len() == 2);
    assert("-m"@[1] == 'm');
    assert("-p"@.len() == 2);
    assert("-p"@[1] == 'p');
    assert("-r"@.len() == 2);
    assert("-r"@[1] == 'r');
    assert("-s"@.len() == 2);
    assert("-s"@[1] == 's');
    assert("-t"@.len() == 2);
    assert("-t"@[1] == 't');
    assert("-z"@.len() == 2);
    assert("-z"@[1] == 'z');
}

proof fn lemma_one_flag(prog: Seq<char>, f: Seq<char>)
    requires
        1 <= option_code(f) <= 9,
    ensures
        spec_parse_args(seq![prog, f]) == Ok::<ArgsView, Seq<char>>(set_flag(default_args(), option_code(f))),
{
    reveal_with_fuel(parse_from, 3);
}

proof fn lemma_one_value(prog: Seq<char>, f: Seq<char>, v: Seq<char>)
    requires
        12 <= option_code(f) <= 20,
    ensures
        spec_parse_args(seq![prog, f, v]) == set_value(default_args(), option_code(f), v),
{
    reveal_with_fuel(parse_from, 3);
    let argv = seq![prog, f, v];
    assert(argv[1] == f && argv[2] == v);
}

/// A flag alone sets its own option and leaves every other option at its
/// default: `-g`/`--greedy-delimiter`, `-p`/`--compress-delimiter`,
/// `-s`/`--only-delimited`, `-z`/`--zero-terminated`, `-m`/`--complement`,
/// `-j`/`--join`, `--no-join`, `--json` and `--no-mmap`.
pub proof fn each_flag_sets_its_option(prog: Seq<char>)
    ensures
        spec_parse_args(seq![prog, "-g"@]) == Ok::<ArgsView, Seq<char>>(ArgsView { greedy_delimiter: true, ..default_args() }),
        spec_parse_args(seq![prog, "--greedy-delimiter"@]) == Ok::<ArgsView, Seq<char>>(ArgsView { greedy_delimiter: true, ..default_args() }),
        spec_parse_args(seq![prog, "-p"@]) == Ok::<ArgsView, Seq<char>>(ArgsView { compress_delimiter: true, ..default_args() }),
        spec_parse_args(seq![prog, "--compress-delimiter"@]) == Ok::<ArgsView, Seq<char>>(ArgsView { compress_delimiter: true, ..default_args() }),
        spec_parse_args(seq![prog, "-s"@]) == Ok::<ArgsView, Seq<char>>(ArgsView { only_delimited: true, ..default_args() }),
        spec_parse_args(seq![prog, "--only-delimited"@]) == Ok::<ArgsView, Seq<char>>(ArgsView { only_delimited: true, ..default_args() }),
        spec_parse_args(seq![prog, "-z"@]) == Ok::<ArgsView, Seq<char>>(ArgsView { zero_terminated: true, ..default_args() }),
        spec_parse_args(seq![prog, "--zero-terminated"@]) == Ok::<ArgsView, Seq<char>>(ArgsView { zero_terminated: true, ..default_args() }),
        spec_parse_args(seq![prog, "-m"@]) == Ok::<ArgsView, Seq<char>>(ArgsView { complement: true, ..default_args() }),
        spec_parse_args(seq![prog, "--complement"@]) == Ok::<ArgsView, Seq<char>>(ArgsView { complement: true, ..default_args() }),
        spec_parse_args(seq![prog, "-j"@]) == Ok::<ArgsView, Seq<char>>(ArgsView { join: true, ..default_args() }),
        spec_parse_args(seq![prog, "--join"@]) == Ok::<ArgsView, Seq<char>>(ArgsView { join: true, ..default_args() }),
        spec_parse_args(seq![prog, "--no-join"@]) == Ok::<ArgsView, Seq<char>>(ArgsView { no_join: true, ..default_args() }),
        spec_parse_args(seq![prog, "--json"@]) == Ok::<ArgsView, Seq<char>>(ArgsView { json: true, ..default_args() }),
        spec_parse_args(seq![prog, "--no-mmap"@]) == Ok::<ArgsView, Seq<char>>(ArgsView { no_mmap: true, ..default_args() }),
{
    lemma_option_codes();
    lemma_one_flag(prog, "-g"@);
    lemma_one_flag(prog, "--greedy-delimiter"@);
    lemma_one_flag(prog, "-p"@);
    lemma_one_flag(prog, "--compress-delimiter"@);
    lemma_one_flag(prog, "-s"@);
    lemma_one_flag(prog, "--only-delimited"@);
    lemma_one_flag(prog, "-z"@);
    lemma_one_flag(prog, "--zero-terminated"@);
    lemma_one_flag(prog, "-m"@);
    lemma_one_flag(prog, "--complement"@);
    lemma_one_flag(prog, "-j"@);
    lemma_one_flag(prog, "--join"@);
    lemma_one_flag(prog, "--no-join"@);
    lemma_one_flag(prog, "--json"@);
    lemma_one_flag(prog, "--no-mmap"@);
}

/// An option with a value sets its own option to that value and leaves
/// every other option at its default: `-f`, `-b`, `-c`, `-l`, `-d`, `-e`,
/// `-r` (and their long spellings) and `--fallback-oob`; `-t`/`--trim` takes
/// the first character of its value, and refuses an empty value.
pub proof fn each_valued_option_takes_its_value(prog: Seq<char>, v: Seq<char>)
    ensures
        v.len() > 0 ==> spec_parse_args(seq![prog, "-t"@, v]) == Ok::<ArgsView, Seq<char>>(
            ArgsView { trim: Some(v[0]), ..default_args() },
        ),
        v.len() > 0 ==> spec_parse_args(seq![prog, "--trim"@, v]) == Ok::<ArgsView, Seq<char>>(
            ArgsView { trim: Some(v[0]), ..default_args() },
        ),
        v.len() == 0 ==> spec_parse_args(seq![prog, "-t"@, v]) == Err::<ArgsView, Seq<char>>(
            "trim requires a value"@,
        ),
        spec_parse_args(seq![prog, "-f"@, v]) == Ok::<ArgsView, Seq<char>>(ArgsView { fields: Some(v), ..default_args() }),
        spec_parse_args(seq![prog, "--fields"@, v]) == Ok::<ArgsView, Seq<char>>(ArgsView { fields: Some(v), ..default_args() }),
        spec_parse_args(seq![prog, "-b"@, v]) == Ok::<ArgsView, Seq<char>>(ArgsView { bytes: Some(v), ..default_args() }),
        spec_parse_args(seq![prog, "--bytes"@, v]) == Ok::<ArgsView, Seq<char>>(ArgsView { bytes: Some(v), ..default_args() }),
        spec_parse_args(seq![prog, "-c"@, v]) == Ok::<ArgsView, Seq<char>>(ArgsView { characters: Some(v), ..default_args() }),
        spec_parse_args(seq![prog, "--characters"@, v]) == Ok::<ArgsView, Seq<char>>(ArgsView { characters: Some(v), ..default_args() }),
        spec_parse_args(seq![prog, "-l"@, v]) == Ok::<ArgsView, Seq<char>>(ArgsView { lines: Some(v), ..default_args() }),
        spec_parse_args(seq![prog, "--lines"@, v]) == Ok::<ArgsView, Seq<char>>(ArgsView { lines: Some(v), ..default_args() }),
        spec_parse_args(seq![prog, "-d"@, v]) == Ok::<ArgsView, Seq<char>>(ArgsView { delimiter: v, ..default_args() }),
        spec_parse_args(seq![prog, "--delimiter"@, v]) == Ok::<ArgsView, Seq<char>>(ArgsView { delimiter: v, ..default_args() }),
        spec_parse_args(seq![prog, "-e"@, v]) == Ok::<ArgsView, Seq<char>>(ArgsView { regex: Some(v), ..default_args() }),
        spec_parse_args(seq![prog, "--regex"@, v]) == Ok::<ArgsView, Seq<char>>(ArgsView { regex: Some(v), ..default_args() }),
        spec_parse_args(seq![prog, "-r"@, v]) == Ok::<ArgsView, Seq<char>>(ArgsView { replace_delimiter: Some(v), ..default_args() }),
        spec_parse_args(seq![prog, "--replace-delimiter"@, v]) == Ok::<ArgsView, Seq<char>>(ArgsView { replace_delimiter: Some(v), ..default_args() }),
        spec_parse_args(seq![prog, "--fallback-oob"@, v]) == Ok::<ArgsView, Seq<char>>(ArgsView { fallback_oob: Some(v), ..default_args() }),
{
    lemma_option_codes();
    lemma_one_value(prog, "-f"@, v);
    lemma_one_value(prog, "--fields"@, v);
    lemma_one_value(prog, "-b"@, v);
    lemma_one_value(prog, "--bytes"@, v);
    lemma_one_value(prog, "-c"@, v);
    lemma_one_value(prog, "--characters"@, v);
    lemma_one_value(prog, "-l"@, v);
    lemma_one_value(prog, "--lines"@, v);
    lemma_one_value(prog, "-d"@, v);
    lemma_one_value(prog, "--delimiter"@, v);
    lemma_one_value(prog, "-e"@, v);
    lemma_one_value(prog, "--regex"@, v);
    lemma_one_value(prog, "-r"@, v);
    lemma_one_value(prog, "--replace-delimiter"@, v);
    lemma_one_value(prog, "--fallback-oob"@, v);
    lemma_one_value(prog, "-t"@, v);
    lemma_one_value(prog, "--trim"@, v);
}
} // verus!
