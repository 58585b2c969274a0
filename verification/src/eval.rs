//! Angle units of the calculator's trigonometric functions.
use vstd::prelude::*;
use crate::text::str_eq;

verus! {

/// The unit in which trigonometric functions read and give angles.
#[derive(Debug, Clone, Copy, PartialEq, Eq, Structural)]
pub enum AngleUnit {
    Degree,
    Radian,
    Gradian,
}

/// The unit that a name selects: `radian`, `gradian`, degrees otherwise.
pub open spec fn spec_angle_unit(s: Seq<char>) -> AngleUnit {
    if s == "radian"@ {
        AngleUnit::Radian
    } else if s == "gradian"@ {
        AngleUnit::Gradian
    } else {
        AngleUnit::Degree
    }
}

impl AngleUnit {
    /// The unit named `s`; any other name means degrees.
    pub fn from_str(s: &str) -> (r: Self)
        ensures
            r == spec_angle_unit(s@),
    {
        if str_eq(s, "radian") {
            AngleUnit::Radian
        } else if str_eq(s, "gradian") {
            AngleUnit::Gradian
        } else {
            AngleUnit::Degree
        }
    }
}


/// `radian` and only `radian` selects radians, `gradian` and only `gradian`
/// selects gradians; every other name selects degrees.
pub proof fn angle_unit_names(s: Seq<char>)
    ensures
        spec_angle_unit(s) == AngleUnit::Radian <==> s == "radian"@,
        spec_angle_unit(s) == AngleUnit::Gradian <==> s == "gradian"@,
        spec_angle_unit(s) == AngleUnit::Degree <==> (s != "radian"@ && s != "gradian"@),
{
    reveal_strlit("radian");
    reveal_strlit("gradian");
    assert("radian"@.len() != "gradian"@.len());
}
} // verus!
