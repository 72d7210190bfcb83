//! Token-savings telemetry.
//!
//! Every tool call is measured twice: the *baseline* (what getting the same
//! information without the index would have cost: whole files, raw command
//! output) and the *actual* text handed to the model. One event per call is
//! appended to a JSON-lines log; `gain` aggregates it. Writing, reading and
//! the clock stay with the caller: this module decides what an event holds,
//! where the log lives and which events a report keeps.

use vstd::prelude::*;
use crate::text::{chars_of, join_path, joined, str_eq, string_of, truncate_chars, truncated};

verus! {

/// Characters per estimated token: conservative, so savings are never inflated.
pub const CHARS_PER_TOKEN: usize = 4;

/// Log size past which it is rotated (one older generation is kept).
pub const MAX_LOG_BYTES: u64 = 8388608;

/// Longest detail label kept in an event, in characters.
pub const DETAIL_MAX_CHARS: usize = 80;

/// One measured tool call.
#[derive(Debug, Clone)]
pub struct Event {
    /// Seconds since the Unix epoch.
    pub ts: u64,
    pub tool: String,
    /// Absolute workspace root the call was served from.
    pub project: String,
    pub ok: bool,
    pub ms: u64,
    pub baseline_tokens: u64,
    pub actual_tokens: u64,
    /// What the baseline was measured against ("leer el archivo completo"...).
    pub vs: String,
    pub detail: Option<String>,
}

/// Tokens saved, `baseline - actual`, each side read as `i64` the way a
/// two's-complement cast reads it.
pub open spec fn saved_of(baseline: u64, actual: u64) -> int {
    (baseline as i64) - (actual as i64)
}

impl Event {
    /// Tokens saved by this call; negative when the answer cost more than its
    /// baseline (the sign is kept, a dearer answer is not passed off as savings).
    pub fn saved(&self) -> (r: i64)
        requires
            i64::MIN <= saved_of(self.baseline_tokens, self.actual_tokens) <= i64::MAX,
        ensures
            r == saved_of(self.baseline_tokens, self.actual_tokens),
            self.baseline_tokens <= i64::MAX && self.actual_tokens <= i64::MAX ==> r
                == self.baseline_tokens - self.actual_tokens,
    {
        (self.baseline_tokens as i64) - (self.actual_tokens as i64)
    }
}

/// Estimated tokens for a text of `chars` bytes: one per started group of four.
pub open spec fn tokens_of(chars: nat) -> nat {
    (chars + 3) / 4
}

/// Estimated tokens for a text of `chars` bytes, rounded up: a non-empty
/// text never counts as zero tokens.
pub fn tokens(chars: usize) -> (r: u64)
    ensures
        r == tokens_of(chars as nat),
        chars > 0 ==> r >= 1,
        4 * r >= chars,
        4 * r < chars + 4,
{
    let q: usize = chars / CHARS_PER_TOKEN;
    let extra: usize = if chars % CHARS_PER_TOKEN != 0 { 1 } else { 0 };
    (q + extra) as u64
}

/// Token estimates never decrease as the text grows.
pub proof fn tokens_monotone(a: nat, b: nat)
    requires
        a <= b,
    ensures
        tokens_of(a) <= tokens_of(b),
{
    assert((a + 3) / 4 <= (b + 3) / 4) by (nonlinear_arith)
        requires a <= b;
}

/// Whether the `RTK_INDEX_TELEMETRY` setting leaves telemetry on: only
/// `0`, `off`, `false` and `no` turn it off; an unset variable leaves it on.
pub open spec fn enabled_by(setting: Option<Seq<char>>) -> bool {
    match setting {
        Some(v) => !(v == "0"@ || v == "off"@ || v == "false"@ || v == "no"@),
        None => true,
    }
}

/// Whether telemetry is on, given the value of `RTK_INDEX_TELEMETRY`.
pub fn enabled(setting: Option<&str>) -> (r: bool)
    ensures
        r == enabled_by(
            match setting {
                Some(v) => Some(v@),
                None => None,
            },
        ),
{
    match setting {
        Some(v) => !(str_eq(v, "0") || str_eq(v, "off") || str_eq(v, "false") || str_eq(v, "no")),
        None => true,
    }
}

/// The view of an optional environment value.
pub open spec fn opt_view(v: Option<&str>) -> Option<Seq<char>> {
    match v {
        Some(s) => Some(s@),
        None => None,
    }
}

/// Data directory: `$RTK_INDEX_DATA_DIR` when set and non-empty, else
/// `$XDG_DATA_HOME/rtk-index` when that is set and non-empty, else
/// `~/.local/share/rtk-index` (with `.` standing in for an unset `$HOME`).
pub open spec fn data_dir_of(
    own: Option<Seq<char>>,
    xdg: Option<Seq<char>>,
    home: Option<Seq<char>>,
) -> Seq<char> {
    if own is Some && own->0.len() > 0 {
        own->0
    } else if xdg is Some && xdg->0.len() > 0 {
        join_path(xdg->0, "rtk-index"@)
    } else {
        join_path(
            match home {
                Some(h) => h,
                None => "."@,
            },
            ".local/share/rtk-index"@,
        )
    }
}

/// The data directory, from the values of `RTK_INDEX_DATA_DIR`,
/// `XDG_DATA_HOME` and `HOME`.
pub fn data_dir(own: Option<&str>, xdg: Option<&str>, home: Option<&str>) -> (r: String)
    ensures
        r@ == data_dir_of(opt_view(own), opt_view(xdg), opt_view(home)),
{
    if let Some(p) = own {
        let v = chars_of(p);
        if v.len() > 0 {
            return string_of(&v);
        }
    }
    if let Some(p) = xdg {
        let v = chars_of(p);
        if v.len() > 0 {
            let rel = chars_of("rtk-index");
            let j = joined(&v, &rel);
            return string_of(&j);
        }
    }
    let base = match home {
        Some(h) => chars_of(h),
        None => chars_of("."),
    };
    let rel = chars_of(".local/share/rtk-index");
    let j = joined(&base, &rel);
    string_of(&j)
}

/// The log file inside the data directory.
pub open spec fn log_path_of(dir: Seq<char>) -> Seq<char> {
    join_path(dir, "telemetry.jsonl"@)
}

/// The rotated generation of the log.
pub open spec fn rotated_path_of(dir: Seq<char>) -> Seq<char> {
    join_path(dir, "telemetry.jsonl.1"@)
}

/// Path of the telemetry log inside `data_dir`.
pub fn log_path(data_dir: &str) -> (r: String)
    ensures
        r@ == log_path_of(data_dir@),
{
    let d = chars_of(data_dir);
    let name = chars_of("telemetry.jsonl");
    string_of(&joined(&d, &name))
}

/// Path of the rotated generation of the log inside `data_dir`.
pub fn rotated_log_path(data_dir: &str) -> (r: String)
    ensures
        r@ == rotated_path_of(data_dir@),
{
    let d = chars_of(data_dir);
    let name = chars_of("telemetry.jsonl.1");
    string_of(&joined(&d, &name))
}

/// Whether a log of `len` bytes is rotated before the next append.
pub fn should_rotate(len: u64) -> (r: bool)
    ensures
        r == (len > MAX_LOG_BYTES),
{
    len > MAX_LOG_BYTES
}

/// A detail label as it is stored: newlines become spaces, then it is cut to
/// `max` characters plus an ellipsis, so the event stays on one line.
pub open spec fn detail_label(s: Seq<char>, max: nat) -> Seq<char> {
    truncate_chars(s.map_values(|c: char| if c == '\n' { ' ' } else { c }), max)
}

/// Shortens a detail label for the log (at most `max` characters and the
/// ellipsis, never a newline).
pub fn truncate(s: &str, max: usize) -> (r: String)
    ensures
        r@ == detail_label(s@, max as nat),
        r@.len() <= max + 1,
        forall|i: int| 0 <= i < r@.len() ==> r@[i] != '\n',
{
    let v = chars_of(s);
    let mut flat: Vec<char> = Vec::new();
    let mut i: usize = 0;
    while i < v.len()
        invariant
            i <= v.len(),
            flat@ == v@.subrange(0, i as int).map_values(|c: char| if c == '\n' { ' ' } else { c }),
        decreases v.len() - i,
    {
        let c = v[i];
        flat.push(if c == '\n' { ' ' } else { c });
        i = i + 1;
        assert(flat@ =~= v@.subrange(0, i as int).map_values(|c: char| if c == '\n' { ' ' } else { c }));
    }
    assert(v@.subrange(0, i as int) =~= v@);
    let t = truncated(&flat, max);
    string_of(&t)
}

/// The view of an optional detail.
pub open spec fn detail_view(d: Option<String>) -> Option<Seq<char>> {
    match d {
        Some(s) => Some(s@),
        None => None,
    }
}

/// The event that records a call, or nothing when telemetry is off.
/// `now` is the clock reading and `project` the resolved workspace root.
pub fn record(
    enabled: bool,
    now: u64,
    project: &str,
    tool: &str,
    ok: bool,
    ms: u64,
    baseline_chars: usize,
    actual_chars: usize,
    vs: &str,
    detail: Option<String>,
) -> (r: Option<Event>)
    ensures
        !enabled ==> r is None,
        enabled ==> r is Some && ({
            let e = r->0;
            &&& e.ts == now
            &&& e.tool@ == tool@
            &&& e.project@ == project@
            &&& e.ok == ok
            &&& e.ms == ms
            &&& e.baseline_tokens == tokens_of(baseline_chars as nat)
            &&& e.actual_tokens == tokens_of(actual_chars as nat)
            &&& e.vs@ == vs@
            &&& detail_view(e.detail) == match detail {
                Some(d) => Some(detail_label(d@, DETAIL_MAX_CHARS as nat)),
                None => None,
            }
        }),
{
    if !enabled {
        return None;
    }
    let d = match detail {
        Some(d) => Some(truncate(d.as_str(), DETAIL_MAX_CHARS)),
        None => None,
    };
    Some(
        Event {
            ts: now,
            tool: string_of(&chars_of(tool)),
            project: string_of(&chars_of(project)),
            ok,
            ms,
            baseline_tokens: tokens(baseline_chars),
            actual_tokens: tokens(actual_chars),
            vs: string_of(&chars_of(vs)),
            detail: d,
        },
    )
}

/// Oldest timestamp a report keeps when it looks back `since` seconds.
pub open spec fn cutoff_of(now: u64, since: Option<u64>) -> Option<u64> {
    match since {
        Some(s) => Some(if now >= s { (now - s) as u64 } else { 0 }),
        None => None,
    }
}

/// The cutoff for a look-back window, saturating at the epoch.
pub fn cutoff(now: u64, since: Option<u64>) -> (r: Option<u64>)
    ensures
        r == cutoff_of(now, since),
{
    match since {
        Some(s) => Some(now.saturating_sub(s)),
        None => None,
    }
}

/// Whether an event passes a report's filters: not older than the cutoff,
/// from the given project and of the given tool (each filter optional).
pub open spec fn keeps(
    e: Event,
    cutoff: Option<u64>,
    project: Option<Seq<char>>,
    tool: Option<Seq<char>>,
) -> bool {
    &&& !(cutoff is Some && e.ts < cutoff->0)
    &&& !(project is Some && e.project@ != project->0)
    &&& !(tool is Some && e.tool@ != tool->0)
}

/// Whether an event passes a report's filters.
pub fn event_matches(
    e: &Event,
    cutoff: Option<u64>,
    project: Option<&str>,
    tool: Option<&str>,
) -> (r: bool)
    ensures
        r == keeps(*e, cutoff, opt_view(project), opt_view(tool)),
{
    if let Some(c) = cutoff {
        if e.ts < c {
            return false;
        }
    }
    if let Some(p) = project {
        if !str_eq(e.project.as_str(), p) {
            return false;
        }
    }
    if let Some(t) = tool {
        if !str_eq(e.tool.as_str(), t) {
            return false;
        }
    }
    true
}

} // verus!
