//! The execution log: one record per run of the tool, opened when the run
//! starts and completed when it ends.

use vstd::prelude::*;
use crate::cfg_ops::{json_of_strings, json_string_list};
use crate::cfg_model::opt_text;

verus! {

/// One run of the tool.
#[derive(Debug, Clone)]
pub struct ExecutionRecord {
    pub id: i64,
    pub execution_id: String,
    pub tool_version: String,
    /// The arguments, as a JSON array.
    pub args: String,
    pub root: Option<String>,
    pub db_path: String,
    pub started_at: i64,
    pub finished_at: Option<i64>,
    pub duration_ms: Option<i64>,
    /// `running`, `success`, `error` or `partial`.
    pub outcome: String,
    pub error_message: Option<String>,
    pub files_indexed: i64,
    pub symbols_indexed: i64,
    pub references_indexed: i64,
}

/// The characters of an optional text.
pub open spec fn opt_str_chars(o: Option<&str>) -> Option<Seq<char>> {
    match o {
        Some(s) => Some(s@),
        None => None,
    }
}

/// An optional text, owned.
fn owned_opt(o: Option<&str>) -> (r: Option<String>)
    ensures
        opt_text(r) == opt_str_chars(o),
{
    match o {
        Some(s) => Some(s.to_owned()),
        None => None,
    }
}

/// Milliseconds between two times given in seconds.
pub fn duration_ms(started_at: i64, finished_at: i64) -> (r: i64)
    requires
        i64::MIN <= (finished_at - started_at) * 1000 <= i64::MAX,
    ensures
        r == (finished_at - started_at) * 1000,
{
    (finished_at - started_at) * 1000
}

impl ExecutionRecord {
    /// The record of a run that started at `started_at` (seconds since the
    /// Unix epoch, also its id) and is still running: the arguments as a
    /// JSON array, no end, no counts. (Strings always have a JSON text, so
    /// the result is never `None`.)
    pub fn running(
        execution_id: &str,
        tool_version: &str,
        args: &Vec<String>,
        root: Option<&str>,
        db_path: &str,
        started_at: i64,
    ) -> (r: Option<Self>)
        ensures
            r is None <==> json_string_list(args@.map_values(|s: String| s@)) is None,
            r matches Some(rec) ==> {
                &&& rec.id == started_at
                &&& rec.execution_id@ == execution_id@
                &&& rec.tool_version@ == tool_version@
                &&& Some(rec.args@) == json_string_list(args@.map_values(|s: String| s@))
                &&& opt_text(rec.root) == opt_str_chars(root)
                &&& rec.db_path@ == db_path@
                &&& rec.started_at == started_at
                &&& rec.finished_at is None && rec.duration_ms is None
                &&& rec.outcome@ == "running"@
                &&& rec.error_message is None
                &&& rec.files_indexed == 0 && rec.symbols_indexed == 0 && rec.references_indexed == 0
            },
    {
        let args_json = match json_of_strings(args) {
            Some(j) => j,
            None => return None,
        };
        Some(ExecutionRecord {
            id: started_at,
            execution_id: execution_id.to_owned(),
            tool_version: tool_version.to_owned(),
            args: args_json,
            root: owned_opt(root),
            db_path: db_path.to_owned(),
            started_at,
            finished_at: None,
            duration_ms: None,
            outcome: "running".to_owned(),
            error_message: None,
            files_indexed: 0,
            symbols_indexed: 0,
            references_indexed: 0,
        })
    }

    /// The record completed at `finished_at`: its end, its duration in
    /// milliseconds from the start, the outcome, the error message and the
    /// counts (as signed numbers); everything else as it was.
    pub fn finished(
        self,
        finished_at: i64,
        outcome: &str,
        error_message: Option<&str>,
        files_indexed: usize,
        symbols_indexed: usize,
        references_indexed: usize,
    ) -> (r: Self)
        requires
            i64::MIN <= (finished_at - self.started_at) * 1000 <= i64::MAX,
        ensures
            r.id == self.id,
            r.execution_id == self.execution_id,
            r.tool_version == self.tool_version,
            r.args == self.args,
            r.root == self.root,
            r.db_path == self.db_path,
            r.started_at == self.started_at,
            r.finished_at == Some(finished_at),
            r.duration_ms == Some(((finished_at - self.started_at) * 1000) as i64),
            r.outcome@ == outcome@,
            opt_text(r.error_message) == opt_str_chars(error_message),
            r.files_indexed == files_indexed as i64,
            r.symbols_indexed == symbols_indexed as i64,
            r.references_indexed == references_indexed as i64,
    {
        let d = duration_ms(self.started_at, finished_at);
        ExecutionRecord {
            finished_at: Some(finished_at),
            duration_ms: Some(d),
            outcome: outcome.to_owned(),
            error_message: owned_opt(error_message),
            files_indexed: files_indexed as i64,
            symbols_indexed: symbols_indexed as i64,
            references_indexed: references_indexed as i64,
            ..self
        }
    }
}

} // verus!
