//! The log reader and clearer: resolving a log kind to its file, parsing
//! a log file's content into entries — newest line first, capped at
//! `LOG_CAP` — and extracting the bracketed timestamp of each line.

use vstd::prelude::*;
use vstd::string::{StrSliceExecFns, StringExecFns};
use crate::errors::NginxError;
use crate::text::{
    find_char, find_char_from, lemma_find_char_is, lines, split_lines, str_chars, str_eq,
    string_of_range, views,
};

verus! {

/// At most this many entries are returned from one log read.
pub const LOG_CAP: usize = 1000;

/// The two log files the panel shows.
#[derive(Clone, Copy, Debug, PartialEq, Eq, Structural)]
pub enum LogKind {
    Access,
    Error,
}

/// The name under which callers select a log kind.
pub open spec fn log_kind_key(k: LogKind) -> Seq<char> {
    match k {
        LogKind::Access => "access"@,
        LogKind::Error => "error"@,
    }
}

/// Which log kind a caller-supplied name selects.
pub open spec fn spec_log_kind_from_name(n: Seq<char>) -> Option<LogKind> {
    if n == log_kind_key(LogKind::Access) {
        Option::Some(LogKind::Access)
    } else if n == log_kind_key(LogKind::Error) {
        Option::Some(LogKind::Error)
    } else {
        Option::None
    }
}

/// Decodes a log kind name.
pub fn log_kind_from_name(name: &str) -> (r: Option<LogKind>)
    ensures
        r == spec_log_kind_from_name(name@),
{
    if str_eq(name, "access") {
        Some(LogKind::Access)
    } else if str_eq(name, "error") {
        Some(LogKind::Error)
    } else {
        None
    }
}

/// The path of a log file under the log directory.
pub open spec fn spec_log_path(dir: Seq<char>, k: LogKind) -> Seq<char> {
    match k {
        LogKind::Access => dir + "/access.log"@,
        LogKind::Error => dir + "/error.log"@,
    }
}

/// Builds the path of the log file of `kind` under `dir`.
pub fn log_path(dir: &str, kind: LogKind) -> (r: String)
    ensures
        r@ == spec_log_path(dir@, kind),
{
    let mut p = String::from_str(dir);
    match kind {
        LogKind::Access => p.append("/access.log"),
        LogKind::Error => p.append("/error.log"),
    }
    p
}

/// Resolves a caller-supplied log kind name to the file to read or
/// clear; an unknown name is rejected without naming any file.
pub fn resolve_log_path(dir: &str, name: &str) -> (r: Result<String, NginxError>)
    ensures
        spec_log_kind_from_name(name@) matches Option::Some(k) ==> (r matches Ok(p) && p@
            == spec_log_path(dir@, k)),
        spec_log_kind_from_name(name@) is None ==> (r matches Err(e) && e matches
            NginxError::InvalidArgument(m) && m@ == "Invalid log type"@),
{
    match log_kind_from_name(name) {
        Some(k) => Ok(log_path(dir, k)),
        None => Err(NginxError::InvalidArgument(String::from_str("Invalid log type"))),
    }
}

/// One displayed log line, with the timestamp found between the first
/// `'['` and the first `']'` of the line, or `"Unknown"`.
#[derive(Debug, Clone)]
pub struct LogEntry {
    pub content: String,
    pub timestamp: String,
}

/// The timestamp of a line: the text between the first `'['` and the
/// first `']'` when both occur in that order, else `"Unknown"`.
pub open spec fn timestamp_of(l: Seq<char>) -> Seq<char> {
    let j = find_char(l, ']');
    let i = find_char(l, '[');
    if j < l.len() && i < l.len() && i < j {
        l.subrange(i as int + 1, j as int)
    } else {
        "Unknown"@
    }
}

/// Extracts the timestamp of one log line.
pub fn extract_timestamp(line: &Vec<char>) -> (r: String)
    ensures
        r@ == timestamp_of(line@),
{
    let n: usize = line.len();
    let j = find_char_from(line, 0, ']');
    let i = find_char_from(line, 0, '[');
    proof {
        lemma_find_char_is(line@, ']', j as int);
        lemma_find_char_is(line@, '[', i as int);
    }
    if j < n && i < n && i < j {
        string_of_range(line, i + 1, j)
    } else {
        String::from_str("Unknown")
    }
}

/// Parses a log file's content: the lines in reverse order — the file's
/// last line first — capped at `LOG_CAP` entries, each with its content
/// and extracted timestamp.
pub fn parse_log(content: &str) -> (r: Vec<LogEntry>)
    ensures
        r@.len() == if lines(content@).len() < LOG_CAP {
            lines(content@).len()
        } else {
            LOG_CAP as nat
        },
        forall|t: int|
            0 <= t < r@.len() ==> (#[trigger] r@[t]).content@ == lines(content@)[lines(
                content@,
            ).len() - 1 - t] && r@[t].timestamp@ == timestamp_of(
                lines(content@)[lines(content@).len() - 1 - t],
            ),
{
    let cs = str_chars(content);
    let ls = split_lines(&cs);
    let n: usize = ls.len();
    let cap: usize = if n < LOG_CAP {
        n
    } else {
        LOG_CAP
    };
    let mut out: Vec<LogEntry> = Vec::new();
    let mut i: usize = 0;
    while i < cap
        invariant
            i <= cap,
            cap <= n,
            n == ls@.len(),
            views(ls@) == lines(content@),
            out@.len() == i,
            forall|t: int|
                0 <= t < i ==> (#[trigger] out@[t]).content@ == ls@[n - 1 - t]@
                    && out@[t].timestamp@ == timestamp_of(ls@[n - 1 - t]@),
        decreases cap - i,
    {
        let idx: usize = n - 1 - i;
        let text = string_of_range(&ls[idx], 0, ls[idx].len());
        proof {
            assert(ls@[idx as int]@.subrange(0, ls@[idx as int]@.len() as int) =~= ls@[
                idx as int
            ]@);
        }
        let ts = extract_timestamp(&ls[idx]);
        out.push(LogEntry { content: text, timestamp: ts });
        i = i + 1;
    }
    proof {
        assert forall|t: int| 0 <= t < out@.len() implies (#[trigger] out@[t]).content@ == lines(
            content@,
        )[lines(content@).len() - 1 - t] && out@[t].timestamp@ == timestamp_of(
            lines(content@)[lines(content@).len() - 1 - t],
        ) by {
            assert(views(ls@)[n - 1 - t] == ls@[n - 1 - t]@);
        }
    }
    out
}

/// Clearing a log then reading it gives no entries: the emptied file's
/// content has no lines, so `parse_log` returns an empty sequence.
pub proof fn lemma_cleared_log_reads_empty()
    ensures
        lines(""@).len() == 0,
{
    reveal_strlit("");
}

} // verus!
