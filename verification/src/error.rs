//! Why a function could not be lowered.
use vstd::prelude::*;

use vstd::string::StringExecFns;

use crate::format::rule_name;
use crate::grammar::Rule;

verus! {

/// Why lowering a function failed.
#[derive(Debug)]
pub enum LowerError {
    /// A statement that lowering does not handle yet; the statement's text.
    UnsupportedStmt(Rule, String),
    /// An expression that lowering does not handle yet; the expression's text.
    UnsupportedExpr(Rule, String),
    /// A type that lowering does not handle yet.
    UnsupportedType(String),
    /// A name with no definition in scope.
    UndefinedVariable(String),
    /// `newlft` of a lifetime that is already open.
    LifetimeAlreadyOpen(String),
    /// A lifetime that is not open.
    UnknownLifetime(String),
    /// `'0` or `'static` where a lifetime variable is needed; the statement's text.
    UnsupportedLifetime(Rule, String),
    /// An error from building the MLIR operations.
    Mlir(String),
}

/// Model of a [`LowerError`].
pub enum SLowerError {
    UnsupportedStmt(Rule, Seq<char>),
    UnsupportedExpr(Rule, Seq<char>),
    UnsupportedType(Seq<char>),
    UndefinedVariable(Seq<char>),
    LifetimeAlreadyOpen(Seq<char>),
    UnknownLifetime(Seq<char>),
    UnsupportedLifetime(Rule, Seq<char>),
    Mlir(Seq<char>),
}

pub open spec fn err_view(e: LowerError) -> SLowerError {
    match e {
        LowerError::UnsupportedStmt(r, t) => SLowerError::UnsupportedStmt(r, t@),
        LowerError::UnsupportedExpr(r, t) => SLowerError::UnsupportedExpr(r, t@),
        LowerError::UnsupportedType(t) => SLowerError::UnsupportedType(t@),
        LowerError::UndefinedVariable(t) => SLowerError::UndefinedVariable(t@),
        LowerError::LifetimeAlreadyOpen(t) => SLowerError::LifetimeAlreadyOpen(t@),
        LowerError::UnknownLifetime(t) => SLowerError::UnknownLifetime(t@),
        LowerError::UnsupportedLifetime(r, t) => SLowerError::UnsupportedLifetime(r, t@),
        LowerError::Mlir(t) => SLowerError::Mlir(t@),
    }
}

/// The message of an error: what went wrong, with the rule and the text or
/// name concerned.
pub open spec fn error_message(e: SLowerError) -> Seq<char> {
    match e {
        SLowerError::UnsupportedStmt(r, t) => "unsupported statement ("@ + rule_name(r) + "): "@
            + t,
        SLowerError::UnsupportedExpr(r, t) => "unsupported expression ("@ + rule_name(r) + "): "@
            + t,
        SLowerError::UnsupportedType(t) => "unsupported type: "@ + t,
        SLowerError::UndefinedVariable(t) => "undefined variable: "@ + t,
        SLowerError::LifetimeAlreadyOpen(t) => "lifetime already open: "@ + t,
        SLowerError::UnknownLifetime(t) => "unknown lifetime: "@ + t,
        SLowerError::UnsupportedLifetime(r, t) => "unsupported lifetime ("@ + rule_name(r)
            + "): "@ + t,
        SLowerError::Mlir(t) => "MLIR error: "@ + t,
    }
}

fn with_rule(prefix: &str, r: Rule, text: &String) -> (m: String)
    ensures
        m@ == prefix@ + rule_name(r) + "): "@ + text@,
{
    let mut m = String::from_str(prefix);
    m.append(r.name());
    m.append("): ");
    m.append(text.as_str());
    m
}

fn with_text(prefix: &str, text: &String) -> (m: String)
    ensures
        m@ == prefix@ + text@,
{
    let mut m = String::from_str(prefix);
    m.append(text.as_str());
    m
}

impl LowerError {
    /// The message of the error.
    pub fn message(&self) -> (m: String)
        ensures
            m@ == error_message(err_view(*self)),
    {
        match self {
            LowerError::UnsupportedStmt(r, t) => with_rule("unsupported statement (", *r, t),
            LowerError::UnsupportedExpr(r, t) => with_rule("unsupported expression (", *r, t),
            LowerError::UnsupportedType(t) => with_text("unsupported type: ", t),
            LowerError::UndefinedVariable(t) => with_text("undefined variable: ", t),
            LowerError::LifetimeAlreadyOpen(t) => with_text("lifetime already open: ", t),
            LowerError::UnknownLifetime(t) => with_text("unknown lifetime: ", t),
            LowerError::UnsupportedLifetime(r, t) => with_rule("unsupported lifetime (", *r, t),
            LowerError::Mlir(t) => with_text("MLIR error: ", t),
        }
    }
}

} // verus!
