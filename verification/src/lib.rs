//! A verified search-query pipeline for chat-log archives: a boolean/phrase
//! query language parsed into an expression tree, normalized (validation,
//! negation-normal form, algebraic reduction, bounded disjunctive expansion),
//! and lowered into parameterised SQL, together with the parser for the
//! daily log files that feed the same store.

pub mod expr;
pub mod parser;
pub mod ingest;
pub mod output;
pub mod sql;

use vstd::prelude::*;
use vstd::string::StringExecFns;

verus! {

/// A single JSON-style error payload returned to clients.
pub struct ErrorMessage {
    pub message: String,
}

/// Marker for a store failure that must not be surfaced verbatim.
#[derive(Debug)]
pub struct DatabaseError;

/// Ghost mirror of `QueryError`, with text as character sequences.
pub enum SpecQueryError {
    Malformed,
    ThenWithFuncs,
    SortInsideOr,
    ControlNotTopLevel(Seq<char>),
    TooComplex,
    UnknownFunction(Seq<char>),
    InvalidDate,
    InvalidTime,
    InvalidDatetime,
    InvalidInteger,
    BadSortArg,
    BadOrderArg,
    BadBotsArg,
    PhraseContext,
    ThenContext,
    FuncContext,
}

/// Everything that can go wrong between a query string and its SQL.
#[derive(Debug, PartialEq, Eq)]
pub enum QueryError {
    /// The query string does not parse.
    Malformed,
    /// A `THEN` operand contains a named predicate.
    ThenWithFuncs,
    /// A `sort` or `order` predicate sits inside an `OR` operand.
    SortInsideOr,
    /// A control predicate (`sort`, `order`, `bots`) sits below the top level.
    ControlNotTopLevel(String),
    /// The disjunctive expansion exceeded its budget.
    TooComplex,
    /// A predicate name that the catalog does not know.
    UnknownFunction(String),
    InvalidDate,
    InvalidTime,
    InvalidDatetime,
    InvalidInteger,
    BadSortArg,
    BadOrderArg,
    BadBotsArg,
    /// Internal: a phrase reached the functional filter builder.
    PhraseContext,
    /// Internal: a `THEN` reached the functional filter builder.
    ThenContext,
    /// Internal: a predicate reached the phrase filter builder.
    FuncContext,
}

impl View for QueryError {
    type V = SpecQueryError;

    open spec fn view(&self) -> SpecQueryError {
        match self {
            QueryError::Malformed => SpecQueryError::Malformed,
            QueryError::ThenWithFuncs => SpecQueryError::ThenWithFuncs,
            QueryError::SortInsideOr => SpecQueryError::SortInsideOr,
            QueryError::ControlNotTopLevel(k) => SpecQueryError::ControlNotTopLevel(k@),
            QueryError::TooComplex => SpecQueryError::TooComplex,
            QueryError::UnknownFunction(k) => SpecQueryError::UnknownFunction(k@),
            QueryError::InvalidDate => SpecQueryError::InvalidDate,
            QueryError::InvalidTime => SpecQueryError::InvalidTime,
            QueryError::InvalidDatetime => SpecQueryError::InvalidDatetime,
            QueryError::InvalidInteger => SpecQueryError::InvalidInteger,
            QueryError::BadSortArg => SpecQueryError::BadSortArg,
            QueryError::BadOrderArg => SpecQueryError::BadOrderArg,
            QueryError::BadBotsArg => SpecQueryError::BadBotsArg,
            QueryError::PhraseContext => SpecQueryError::PhraseContext,
            QueryError::ThenContext => SpecQueryError::ThenContext,
            QueryError::FuncContext => SpecQueryError::FuncContext,
        }
    }
}

/// The user-visible text of each error.
pub open spec fn spec_error_message(e: SpecQueryError) -> Seq<char> {
    match e {
        SpecQueryError::Malformed => "Malformed query"@,
        SpecQueryError::ThenWithFuncs => "THEN operands cannot contain functions"@,
        SpecQueryError::SortInsideOr => "sorting functions inside OR operands are disallowed"@,
        SpecQueryError::ControlNotTopLevel(k) => "`"@ + k
            + "` function should be at the top level"@,
        SpecQueryError::TooComplex => "query is too complex"@,
        SpecQueryError::UnknownFunction(k) => "unknown function '"@ + k + "'"@,
        SpecQueryError::InvalidDate => "Invalid date"@,
        SpecQueryError::InvalidTime => "Invalid time"@,
        SpecQueryError::InvalidDatetime => "Invalid datetime"@,
        SpecQueryError::InvalidInteger => "Invalid integer"@,
        SpecQueryError::BadSortArg =>
        "bad 'sort' function argument: either 'time', 'relevance' or 'random' expected"@,
        SpecQueryError::BadOrderArg =>
        "bad 'order' function argument: either 'desc' (default) or 'asc' expected"@,
        SpecQueryError::BadBotsArg =>
        "bad 'bots' function argument: either 'exclude' (default) or 'include' expected"@,
        SpecQueryError::PhraseContext =>
        "phrase in functional context (this is probably a bug)"@,
        SpecQueryError::ThenContext => "THEN in functional context (this is probably a bug)"@,
        SpecQueryError::FuncContext =>
        "full-message function in phrase context (this is probably a bug)"@,
    }
}

impl QueryError {
    /// The user-visible message.
    pub fn message(&self) -> (r: String)
        ensures
            r@ == spec_error_message(self@),
    {
        match self {
            QueryError::Malformed => String::from_str("Malformed query"),
            QueryError::ThenWithFuncs => String::from_str(
                "THEN operands cannot contain functions",
            ),
            QueryError::SortInsideOr => String::from_str(
                "sorting functions inside OR operands are disallowed",
            ),
            QueryError::ControlNotTopLevel(k) => String::from_str("`").concat(
                k.as_str(),
            ).concat("` function should be at the top level"),
            QueryError::TooComplex => String::from_str("query is too complex"),
            QueryError::UnknownFunction(k) => String::from_str("unknown function '").concat(
                k.as_str(),
            ).concat("'"),
            QueryError::InvalidDate => String::from_str("Invalid date"),
            QueryError::InvalidTime => String::from_str("Invalid time"),
            QueryError::InvalidDatetime => String::from_str("Invalid datetime"),
            QueryError::InvalidInteger => String::from_str("Invalid integer"),
            QueryError::BadSortArg => String::from_str(
                "bad 'sort' function argument: either 'time', 'relevance' or 'random' expected",
            ),
            QueryError::BadOrderArg => String::from_str(
                "bad 'order' function argument: either 'desc' (default) or 'asc' expected",
            ),
            QueryError::BadBotsArg => String::from_str(
                "bad 'bots' function argument: either 'exclude' (default) or 'include' expected",
            ),
            QueryError::PhraseContext => String::from_str(
                "phrase in functional context (this is probably a bug)",
            ),
            QueryError::ThenContext => String::from_str(
                "THEN in functional context (this is probably a bug)",
            ),
            QueryError::FuncContext => String::from_str(
                "full-message function in phrase context (this is probably a bug)",
            ),
        }
    }
}

} // verus!
