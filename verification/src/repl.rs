//! Settings of the calculator's interactive session and the history file
//! it appends to.
use vstd::prelude::*;
use crate::eval::AngleUnit;
use crate::text::{chars_of, matches_at, push_char, push_str, starts_with_lit, to_string};

verus! {

/// The decimal places and radix of the output and the angle unit.
pub struct Config {
    pub fix: usize,
    pub base: u32,
    pub angle_unit: AngleUnit,
}

/// The history text after appending `line`: an absent file starts as the
/// version line alone, a text without the version line gets it in front, a
/// line break ends the old text, and the new line follows with its own.
pub open spec fn spec_history_with_line(existing: Option<Seq<char>>, line: Seq<char>) -> Seq<char> {
    let c0 = match existing {
        Some(c) => c,
        None => "#V2\n"@,
    };
    let c1 = if matches_at(c0, 0, "#V2"@) {
        c0
    } else {
        "#V2\n"@ + c0
    };
    let c2 = if c1.len() > 0 && c1.last() == '\n' {
        c1
    } else {
        c1.push('\n')
    };
    c2 + line.push('\n')
}

/// The history text after appending `line` to `existing` (`None` when there
/// is no file yet).
pub fn history_with_line(existing: Option<&str>, line: &str) -> (r: String)
    ensures
        r@ == spec_history_with_line(
            match existing {
                Some(c) => Some(c@),
                None => None,
            },
            line@,
        ),
{
    let mut contents = match existing {
        Some(c) => to_string(c),
        None => to_string("#V2\n"),
    };
    let cs = chars_of(contents.as_str());
    if !starts_with_lit(cs.as_slice(), "#V2") {
        let mut fresh = to_string("#V2\n");
        push_str(&mut fresh, contents.as_str());
        contents = fresh;
    }
    let cs = chars_of(contents.as_str());
    if !(cs.len() > 0 && cs[cs.len() - 1] == '\n') {
        push_char(&mut contents, '\n');
    }
    push_str(&mut contents, line);
    push_char(&mut contents, '\n');
    contents
}


/// After an append, the history starts with the version line and ends with
/// the new line and a line break.
pub proof fn appended_history_shape(existing: Option<Seq<char>>, line: Seq<char>)
    ensures
        ({
            let h = spec_history_with_line(existing, line);
            &&& matches_at(h, 0, "#V2"@)
            &&& h.skip(h.len() - line.len() - 1) == line.push('\n')
        }),
{
    reveal_strlit("#V2\n");
    reveal_strlit("#V2");
    let c0 = match existing {
        Some(c) => c,
        None => "#V2\n"@,
    };
    let c1 = if matches_at(c0, 0, "#V2"@) {
        c0
    } else {
        "#V2\n"@ + c0
    };
    assert(matches_at(c1, 0, "#V2"@)) by {
        if !matches_at(c0, 0, "#V2"@) {
            assert(c1.subrange(0, 3) =~= "#V2"@);
        }
    }
    let c2 = if c1.len() > 0 && c1.last() == '\n' {
        c1
    } else {
        c1.push('\n')
    };
    assert(c2.subrange(0, 3) =~= c1.subrange(0, 3));
    let h = c2 + line.push('\n');
    assert(h.subrange(0, 3) =~= c2.subrange(0, 3));
    assert(h.skip(h.len() - line.len() - 1) =~= line.push('\n'));
}

} // verus!
