//! Which items of a stream of parse results a filter lets through.

use vstd::prelude::*;
use crate::error::ParseError;
use crate::filter::builder::{Filter, all_hold, contains_text, text_contains};
use crate::record::Sqllog;

verus! {

/// An item passes a SQL-text filter when it is a record whose SQL contains
/// `pattern`; errors do not pass.
pub fn keep_sql_contains(item: &Result<Sqllog, ParseError>, pattern: &str) -> (r: bool)
    ensures
        r == (match item {
            Ok(s) => contains_text(s@.sql, pattern@),
            Err(_) => false,
        }),
{
    match item {
        Ok(s) => text_contains(s.sql.as_str(), pattern),
        Err(_) => false,
    }
}

/// An item passes `filter` when it is a record that matches it; errors pass
/// only when `keep_errors`.
pub fn keep_filtered(item: &Result<Sqllog, ParseError>, filter: &Filter, keep_errors: bool) -> (r: bool)
    ensures
        r == (match item {
            Ok(s) => all_hold(filter.conditions(), s@),
            Err(_) => keep_errors,
        }),
{
    match item {
        Ok(s) => filter.matches(s),
        Err(_) => keep_errors,
    }
}

} // verus!
