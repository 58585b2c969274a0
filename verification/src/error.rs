//! Errors of the expression calculator.
use vstd::prelude::*;

verus! {

/// Why an expression could not be read or evaluated.
#[derive(Debug, PartialEq, Eq)]
pub enum EvaError {
    Parser(String),
    Syntax(String),
    Domain,
    Math(String),
}

impl EvaError {
    /// A parser error with the given message.
    pub fn parser(msg: &str) -> (r: Self)
        ensures
            r matches EvaError::Parser(s) && s@ == msg@,
            spec_eva_message(r) == "Parser Error: "@ + msg@,
    {
        EvaError::Parser(crate::text::to_string(msg))
    }

    /// A syntax error with the given message.
    pub fn syntax(msg: &str) -> (r: Self)
        ensures
            r matches EvaError::Syntax(s) && s@ == msg@,
            spec_eva_message(r) == "Syntax Error: "@ + msg@,
    {
        EvaError::Syntax(crate::text::to_string(msg))
    }

    /// The text shown for the error.
    pub fn message(&self) -> (m: String)
        ensures
            m@ == spec_eva_message(*self),
    {
        let mut m = String::new();
        match self {
            EvaError::Parser(msg) => {
                crate::text::push_str(&mut m, "Parser Error: ");
                crate::text::push_str(&mut m, msg.as_str());
            },
            EvaError::Syntax(msg) => {
                crate::text::push_str(&mut m, "Syntax Error: ");
                crate::text::push_str(&mut m, msg.as_str());
            },
            EvaError::Domain => {
                crate::text::push_str(&mut m, "Domain Error: Out of bounds!");
            },
            EvaError::Math(msg) => {
                crate::text::push_str(&mut m, "Math Error: ");
                crate::text::push_str(&mut m, msg.as_str());
            },
        }
        m
    }
}

/// The text shown for an error: its kind, then its message.
pub open spec fn spec_eva_message(e: EvaError) -> Seq<char> {
    match e {
        EvaError::Parser(msg) => "Parser Error: "@ + msg@,
        EvaError::Syntax(msg) => "Syntax Error: "@ + msg@,
        EvaError::Domain => "Domain Error: Out of bounds!"@,
        EvaError::Math(msg) => "Math Error: "@ + msg@,
    }
}

} // verus!
