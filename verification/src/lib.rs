//! Line-oriented column extraction: split a line into fields on a literal
//! delimiter or on whitespace, select fields by signed 1-based positions
//! (with an optional complement mode), and rejoin the selection.

pub mod join;
pub mod numparse;
pub mod select;
pub mod split;

use vstd::prelude::*;

verus! {

use crate::join::{join_fields, spec_join};
use crate::numparse::{parse_i64, spec_parse_i64};
use crate::select::{select_columns, spec_select};
use crate::split::{spec_split, split_with};

/// Configuration for one run: how lines are split, which columns are kept,
/// and how the kept fields are joined back together.
pub struct Cli {
    /// Keep empty fields produced by a repeated delimiter.
    /// Ignored when no delimiter is given.
    pub keep_empty: bool,
    /// Select the complement: all fields except the specified columns.
    pub complement: bool,
    /// Separator placed between the selected fields on output.
    pub join_delimiter: String,
    /// Signed, non-zero, 1-based column numbers; negative counts from the end.
    pub column: Vec<i64>,
    /// Literal substring to split on; `None` means split on whitespace runs.
    pub delimiter: Option<String>,
}

/// The output line that one input line yields under a configuration:
/// split, select, then join.
pub open spec fn spec_process(
    line: Seq<char>,
    delim: Option<Seq<char>>,
    keep_empty: bool,
    cols: Seq<i64>,
    complement: bool,
    sep: Seq<char>,
) -> Seq<char> {
    spec_join(spec_select(spec_split(line, delim, keep_empty), cols, complement), sep)
}

impl Cli {
    /// Split one input line into fields under this configuration's
    /// delimiter mode and empty-field policy.
    pub fn split_line(&self, line: &str) -> (r: Vec<String>)
        ensures
            r.deep_view() == spec_split(line@, self.delimiter.deep_view(), self.keep_empty),
    {
        split_with(line, &self.delimiter, self.keep_empty)
    }

    /// Select the configured columns (or their complement) from the fields
    /// of one line.
    pub fn pick_columns(&self, all_splits: &Vec<String>) -> (r: Vec<String>)
        ensures
            r.deep_view() == spec_select(all_splits.deep_view(), self.column@, self.complement),
    {
        select_columns(all_splits, &self.column, self.complement)
    }

    /// Turn one input line into its output line: split into fields, select
    /// the configured columns, and join with the output separator.
    pub fn process_line(&self, line: &str) -> (r: String)
        ensures
            r@ == spec_process(
                line@,
                self.delimiter.deep_view(),
                self.keep_empty,
                self.column@,
                self.complement,
                self.join_delimiter@,
            ),
    {
        let splits = self.split_line(line);
        let picked = self.pick_columns(&splits);
        join_fields(&picked, self.join_delimiter.as_str())
    }
}

/// With no column specification and complement off, selection passes the
/// split of any line through unchanged, whatever the delimiter mode and
/// empty-field policy.
pub proof fn lemma_empty_spec_passes_through(
    line: Seq<char>,
    delim: Option<Seq<char>>,
    keep_empty: bool,
)
    ensures
        spec_select(spec_split(line, delim, keep_empty), Seq::<i64>::empty(), false) == spec_split(
            line,
            delim,
            keep_empty,
        ),
{
}

/// Check one column token: it must be a signed decimal integer other than
/// zero. A bad token is reported back with the offending text.
pub fn validate_columns(v: &str) -> (r: Result<i64, String>)
    ensures
        match r {
            Result::Ok(val) => spec_parse_i64(v@) == Option::Some(val) && val != 0,
            Result::Err(m) => (spec_parse_i64(v@) == Option::<i64>::None || spec_parse_i64(v@)
                == Option::Some(0i64)) && m@ == "The value \""@ + v@ + "\" is not allowed"@,
        },
{
    let parsed = parse_i64(v);
    match parsed {
        Option::Some(val) => {
            if val != 0 {
                return Result::Ok(val);
            }
            let mut m = String::from_str("The value \"");
            m.append(v);
            m.append("\" is not allowed");
            Result::Err(m)
        },
        Option::None => {
            let mut m = String::from_str("The value \"");
            m.append(v);
            m.append("\" is not allowed");
            Result::Err(m)
        },
    }
}

} // verus!
