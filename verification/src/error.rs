//! The library's error type.

use vstd::prelude::*;

use crate::json::{decimal, decimal_text};
use crate::schema::store::KindRef;
use crate::text::{chars_of, push_all};

verus! {

/// Errors of the index operations; each carries what its message needs.
#[derive(Debug)]
pub enum AppError {
    /// No index has been loaded yet.
    NotReady,
    /// The caller's input was rejected; the text says why.
    InvalidInput(String),
    /// Nothing in the index matches; the text names what was looked for.
    NotFound(String),
    /// A bare kind name matched kinds of several projects or groups.
    Ambiguous { input: String, candidates: Vec<KindRef> },
    /// The operation took longer than the given number of seconds.
    Timeout(u64),
    /// The database reported an error (its message).
    Db(String),
    /// Any other failure (its message).
    Internal(String),
}

/// The stable machine-readable name of each error variant.
pub open spec fn error_kind(e: AppError) -> Seq<char> {
    match e {
        AppError::NotReady => "not_ready"@,
        AppError::InvalidInput(_) => "invalid_input"@,
        AppError::NotFound(_) => "not_found"@,
        AppError::Ambiguous { .. } => "ambiguous"@,
        AppError::Timeout(_) => "timeout"@,
        AppError::Db(_) => "db"@,
        AppError::Internal(_) => "internal"@,
    }
}

impl AppError {
    /// Machine-readable error category, as reported to clients and metrics.
    pub fn kind(&self) -> (r: &'static str)
        ensures
            r@ == error_kind(*self),
    {
        match self {
            AppError::NotReady => "not_ready",
            AppError::InvalidInput(_) => "invalid_input",
            AppError::NotFound(_) => "not_found",
            AppError::Ambiguous { .. } => "ambiguous",
            AppError::Timeout(_) => "timeout",
            AppError::Db(_) => "db",
            AppError::Internal(_) => "internal",
        }
    }
}

/// `e` is an `InvalidInput` error whose message is `m`.
pub open spec fn is_invalid_input(e: AppError, m: Seq<char>) -> bool {
    e matches AppError::InvalidInput(s) && s@ == m
}

/// `e` is a `NotFound` error whose message is `m`.
pub open spec fn is_not_found(e: AppError, m: Seq<char>) -> bool {
    e matches AppError::NotFound(s) && s@ == m
}

/// The human-readable message of an error.
pub open spec fn error_message(e: AppError) -> Seq<char> {
    match e {
        AppError::NotReady => "index not loaded yet"@,
        AppError::InvalidInput(s) => "invalid input: "@ + s@,
        AppError::NotFound(s) => "not found: "@ + s@,
        AppError::Ambiguous { input, candidates } => "ambiguous kind '"@ + input@ + "': "@ + decimal(
            candidates@.len(),
        ) + " candidates; pass `project` or use `group/version/Kind`"@,
        AppError::Timeout(n) => "timed out after "@ + decimal(n as nat) + "s"@,
        AppError::Db(s) => "database error: "@ + s@,
        AppError::Internal(s) => s@,
    }
}

impl AppError {
    /// The human-readable message (see `error_message`).
    pub fn message(&self) -> (r: String)
        ensures
            r@ == error_message(*self),
    {
        match self {
            AppError::NotReady => "index not loaded yet".to_owned(),
            AppError::InvalidInput(s) => {
                let mut m = "invalid input: ".to_owned();
                push_all(&mut m, &chars_of(s.as_str()));
                m
            },
            AppError::NotFound(s) => {
                let mut m = "not found: ".to_owned();
                push_all(&mut m, &chars_of(s.as_str()));
                m
            },
            AppError::Ambiguous { input, candidates } => {
                let mut m = "ambiguous kind '".to_owned();
                push_all(&mut m, &chars_of(input.as_str()));
                push_all(&mut m, &chars_of("': "));
                push_all(&mut m, &decimal_text(candidates.len() as u128));
                push_all(&mut m, &chars_of(" candidates; pass `project` or use `group/version/Kind`"));
                m
            },
            AppError::Timeout(n) => {
                let mut m = "timed out after ".to_owned();
                push_all(&mut m, &decimal_text(*n as u128));
                push_all(&mut m, &chars_of("s"));
                m
            },
            AppError::Db(s) => {
                let mut m = "database error: ".to_owned();
                push_all(&mut m, &chars_of(s.as_str()));
                m
            },
            AppError::Internal(s) => s.clone(),
        }
    }
}

} // verus!
