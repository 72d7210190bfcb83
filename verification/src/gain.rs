//! The `gain` report: what is computed from the telemetry log. Reading the
//! log, the clock and printing stay with the caller; the option parsing,
//! totals, per-tool and per-project rows, orderings and the compact
//! renderings of durations and ages live here.

use vstd::prelude::*;
use crate::telemetry::{Event, saved_of};
use crate::text::{
    all_digits, chars_of, decimal, digit_char, digits_value, is_alphabetic, is_digit, is_lit, lemma_decimal_digits,
    parse_bounded, parse_unsigned, push_decimal, push_str, slice_of, str_eq, string_of,
    unicode_alphabetic, file_name, file_name_of,
};

verus! {

/// Running totals over a set of calls.
#[derive(Debug, Clone, Copy)]
pub struct Agg {
    pub calls: u64,
    pub baseline: u64,
    pub actual: u64,
    pub ms: u64,
    pub errors: u64,
}

impl Agg {
    /// Empty totals.
    pub fn new() -> (r: Agg)
        ensures
            r.calls == 0 && r.baseline == 0 && r.actual == 0 && r.ms == 0 && r.errors == 0,
    {
        Agg { calls: 0, baseline: 0, actual: 0, ms: 0, errors: 0 }
    }

    /// Counts one call: its tokens and time add up, and a failed call is
    /// counted among the errors.
    pub fn add(&mut self, e: &Event)
        requires
            old(self).calls + 1 <= u64::MAX,
            old(self).baseline + e.baseline_tokens <= u64::MAX,
            old(self).actual + e.actual_tokens <= u64::MAX,
            old(self).ms + e.ms <= u64::MAX,
            old(self).errors + 1 <= u64::MAX,
        ensures
            final(self).calls == old(self).calls + 1,
            final(self).baseline == old(self).baseline + e.baseline_tokens,
            final(self).actual == old(self).actual + e.actual_tokens,
            final(self).ms == old(self).ms + e.ms,
            final(self).errors == old(self).errors + if e.ok { 0int } else { 1int },
    {
        self.calls = self.calls + 1;
        self.baseline = self.baseline + e.baseline_tokens;
        self.actual = self.actual + e.actual_tokens;
        self.ms = self.ms + e.ms;
        if !e.ok {
            self.errors = self.errors + 1;
        }
    }

    /// Tokens saved overall; negative when the answers cost more.
    pub fn saved(&self) -> (r: i64)
        requires
            i64::MIN <= saved_of(self.baseline, self.actual) <= i64::MAX,
        ensures
            r == saved_of(self.baseline, self.actual),
            self.baseline <= i64::MAX && self.actual <= i64::MAX ==> r == self.baseline
                - self.actual,
    {
        (self.baseline as i64) - (self.actual as i64)
    }
}

/// Index of the first alphabetic character at or after `from`, or the length.
pub open spec fn first_alpha(s: Seq<char>, from: int) -> int
    decreases s.len() - from,
{
    if from >= s.len() {
        s.len() as int
    } else if unicode_alphabetic(s[from]) {
        from
    } else {
        first_alpha(s, from + 1)
    }
}

proof fn lemma_first_alpha(s: Seq<char>, from: int)
    requires
        0 <= from <= s.len(),
    ensures
        from <= first_alpha(s, from) <= s.len(),
    decreases s.len() - from,
{
    if from < s.len() && !unicode_alphabetic(s[from]) {
        lemma_first_alpha(s, from + 1);
    }
}

/// Seconds per unit of a duration suffix.
pub open spec fn unit_seconds(unit: Seq<char>) -> Option<nat> {
    if unit == "m"@ || unit == "min"@ {
        Some(60)
    } else if unit == "h"@ {
        Some(3600)
    } else if unit == "d"@ {
        Some(86400)
    } else if unit == "w"@ {
        Some(604800)
    } else {
        None
    }
}

/// Whether a duration names the whole history.
pub open spec fn is_everything(s: Seq<char>) -> bool {
    s == "all"@ || s == "todo"@
}

/// Horizon used for "the whole history": far beyond any timestamp.
pub open spec fn everything() -> nat {
    (u64::MAX / 2) as nat
}

/// The number and the unit factor of a relative duration like `7d`: the
/// number is what precedes the first letter, the unit everything from it.
pub open spec fn duration_parts(s: Seq<char>) -> Option<(nat, nat)> {
    let i = first_alpha(s, 0);
    if i >= s.len() {
        None
    } else {
        match (parse_unsigned(s.subrange(0, i), u64::MAX as nat), unit_seconds(s.subrange(i, s.len() as int))) {
            (Some(n), Some(m)) => Some((n, m)),
            _ => None,
        }
    }
}

/// Seconds in a duration (`30m`, `24h`, `7d`, `2w`; `all`/`todo` for the
/// whole history), or nothing when it is not one.
pub open spec fn duration_of(s: Seq<char>) -> Option<nat> {
    if is_everything(s) {
        Some(everything())
    } else {
        match duration_parts(s) {
            Some((n, m)) => Some(n * m),
            None => None,
        }
    }
}

/// Whether computing the seconds overflows `u64` (where a debug build panics).
pub open spec fn duration_overflows(s: Seq<char>) -> bool {
    !is_everything(s) && match duration_parts(s) {
        Some((n, m)) => n * m > u64::MAX,
        None => false,
    }
}

/// The duration of `s`, or `Err` where the multiplication would overflow.
fn duration_value(s: &Vec<char>) -> (r: Result<Option<u64>, ()>)
    ensures
        match r {
            Ok(Some(v)) => !duration_overflows(s@) && duration_of(s@) == Some(v as nat),
            Ok(None) => !duration_overflows(s@) && duration_of(s@) is None,
            Err(_) => duration_overflows(s@),
        },
{
    if is_lit(s, "all") || is_lit(s, "todo") {
        return Ok(Some(u64::MAX / 2));
    }
    let mut i: usize = 0;
    while i < s.len() && !is_alphabetic(s[i])
        invariant
            i <= s.len(),
            first_alpha(s@, 0) == first_alpha(s@, i as int),
        decreases s.len() - i,
    {
        i = i + 1;
    }
    proof {
        lemma_first_alpha(s@, i as int);
    }
    if i >= s.len() {
        return Ok(None);
    }
    let num = slice_of(s, 0, i);
    let unit = slice_of(s, i, s.len());
    let n = match parse_bounded(&num, u64::MAX) {
        Some(n) => n,
        None => {
            return Ok(None);
        },
    };
    let mult: u64 = if is_lit(&unit, "m") || is_lit(&unit, "min") {
        60
    } else if is_lit(&unit, "h") {
        3600
    } else if is_lit(&unit, "d") {
        86400
    } else if is_lit(&unit, "w") {
        604800
    } else {
        return Ok(None);
    };
    match n.checked_mul(mult) {
        Some(v) => Ok(Some(v)),
        None => Err(()),
    }
}

/// Parses a relative duration (`30m`, `24h`, `7d`, `2w`, or `all`/`todo`
/// for the whole history) into seconds.
pub fn parse_duration(s: &str) -> (r: Option<u64>)
    requires
        !duration_overflows(s@),
    ensures
        match r {
            Some(v) => duration_of(s@) == Some(v as nat),
            None => duration_of(s@) is None,
        },
{
    let v = chars_of(s);
    match duration_value(&v) {
        Ok(x) => x,
        Err(_) => None,
    }
}

/// Past a run of non-alphabetic characters, the first alphabetic one is
/// the same.
proof fn lemma_first_alpha_skips(s: Seq<char>, from: int, to: int)
    requires
        0 <= from <= to <= s.len(),
        forall|i: int| from <= i < to ==> !unicode_alphabetic(#[trigger] s[i]),
    ensures
        first_alpha(s, from) == first_alpha(s, to),
    decreases to - from,
{
    if from < to {
        lemma_first_alpha_skips(s, from + 1, to);
    }
}

/// A number in decimal followed by a unit reads as that many units:
/// `<n>m` and `<n>min` are `n * 60` seconds, `<n>h` `n * 3600`, `<n>d`
/// `n * 86400` and `<n>w` `n * 604800`, for every `n` up to `u64::MAX`
/// (so `30m` is 1800 seconds).
pub proof fn number_and_unit_read_back(n: nat, unit: Seq<char>)
    requires
        n <= u64::MAX,
        unit_seconds(unit) is Some,
    ensures
        duration_of(decimal(n) + unit) == Some(n * unit_seconds(unit).unwrap()),
{
    reveal_strlit("m");
    reveal_strlit("min");
    reveal_strlit("h");
    reveal_strlit("d");
    reveal_strlit("w");
    assert(unit.len() > 0 && unicode_alphabetic(unit[0]));
    let d = decimal(n);
    let s = d + unit;
    lemma_decimal_digits(n);
    assert forall|i: int| 0 <= i < d.len() implies !unicode_alphabetic(#[trigger] s[i]) by {
        assert(s[i] == d[i]);
        assert(is_digit(d[i]));
    }
    lemma_first_alpha_skips(s, 0, d.len() as int);
    assert(s[d.len() as int] == unit[0]);
    assert(first_alpha(s, 0) == d.len());
    assert(s.subrange(0, d.len() as int) =~= d);
    assert(s.subrange(d.len() as int, s.len() as int) =~= unit);
    assert(is_digit(d[0]));
    assert(parse_unsigned(d, u64::MAX as nat) == Some(n));
    assert(!is_everything(s)) by {
        reveal_strlit("all");
        reveal_strlit("todo");
        assert(is_digit(s[0]));
    }
}

/// Whether `parse_duration` may be called on `s` (its result fits in `u64`).
pub fn duration_fits(s: &str) -> (r: bool)
    ensures
        r == !duration_overflows(s@),
{
    let v = chars_of(s);
    match duration_value(&v) {
        Ok(_) => true,
        Err(_) => false,
    }
}

/// How a report period reads: the whole history, or a count of the largest
/// unit that divides it exactly.
pub open spec fn human_duration_of(secs: nat) -> Seq<char> {
    if secs >= (u64::MAX / 4) as nat {
        "todo el histórico"@
    } else if secs % 604800 == 0 {
        decimal(secs / 604800) + " semana(s)"@
    } else if secs % 86400 == 0 {
        decimal(secs / 86400) + " día(s)"@
    } else if secs % 3600 == 0 {
        decimal(secs / 3600) + " hora(s)"@
    } else {
        decimal(secs / 60) + " min"@
    }
}

/// Renders a report period.
pub fn human_duration(secs: u64) -> (r: String)
    ensures
        r@ == human_duration_of(secs as nat),
{
    let mut out: Vec<char> = Vec::new();
    if secs >= u64::MAX / 4 {
        push_str(&mut out, "todo el histórico");
    } else if secs % 604800 == 0 {
        push_decimal(&mut out, secs / 604800);
        push_str(&mut out, " semana(s)");
    } else if secs % 86400 == 0 {
        push_decimal(&mut out, secs / 86400);
        push_str(&mut out, " día(s)");
    } else if secs % 3600 == 0 {
        push_decimal(&mut out, secs / 3600);
        push_str(&mut out, " hora(s)");
    } else {
        push_decimal(&mut out, secs / 60);
        push_str(&mut out, " min");
    }
    string_of(&out)
}

/// How long ago `ts` was at `now`, in the largest whole unit (s, m, h, d);
/// a future timestamp reads as `0s`.
pub open spec fn human_ago_of(now: u64, ts: u64) -> Seq<char> {
    let d: nat = if now >= ts { (now - ts) as nat } else { 0 };
    if d < 60 {
        decimal(d) + "s"@
    } else if d < 3600 {
        decimal(d / 60) + "m"@
    } else if d < 86400 {
        decimal(d / 3600) + "h"@
    } else {
        decimal(d / 86400) + "d"@
    }
}

/// Relative age of a timestamp, independent of time zones and calendars.
pub fn human_ago(now: u64, ts: u64) -> (r: String)
    ensures
        r@ == human_ago_of(now, ts),
{
    let d = now.saturating_sub(ts);
    let mut out: Vec<char> = Vec::new();
    if d < 60 {
        push_decimal(&mut out, d);
        push_str(&mut out, "s");
    } else if d < 3600 {
        push_decimal(&mut out, d / 60);
        push_str(&mut out, "m");
    } else if d < 86400 {
        push_decimal(&mut out, d / 3600);
        push_str(&mut out, "h");
    } else {
        push_decimal(&mut out, d / 86400);
        push_str(&mut out, "d");
    }
    string_of(&out)
}

/// `s` when it has at most `max` characters; otherwise an ellipsis followed
/// by its last `max - 1` characters.
pub open spec fn truncate_left_of(s: Seq<char>, max: nat) -> Seq<char> {
    if s.len() <= max {
        s
    } else if max == 0 {
        seq!['…']
    } else {
        seq!['…'] + s.subrange(s.len() - max + 1, s.len() as int)
    }
}

/// Keeps the end of a long name (where a path says the most).
pub fn truncate_left(s: &str, max: usize) -> (r: String)
    ensures
        r@ == truncate_left_of(s@, max as nat),
{
    let v = chars_of(s);
    if v.len() <= max {
        return string_of(&v);
    }
    let mut out: Vec<char> = Vec::new();
    out.push('…');
    if max > 0 {
        let tail = slice_of(&v, v.len() - max + 1, v.len());
        crate::text::push_all(&mut out, &tail);
    }
    assert(out@ =~= truncate_left_of(v@, max as nat));
    string_of(&out)
}

/// Short label for a project: its directory name, or the whole path when it
/// has none.
pub open spec fn short_project_of(p: Seq<char>) -> Seq<char> {
    match file_name_of(p) {
        Some(n) => n,
        None => p,
    }
}

/// Short label for a project path.
pub fn short_project(p: &str) -> (r: String)
    ensures
        r@ == short_project_of(p@),
{
    let v = chars_of(p);
    match file_name(&v) {
        Some(n) => string_of(&n),
        None => string_of(&v),
    }
}


/// Options of a `gain` report.
#[derive(Debug, Clone)]
pub struct GainOptions {
    /// `--history [N]`: the last N calls.
    pub history: Option<usize>,
    /// `--worst [N]`: the N dearest calls.
    pub worst: Option<usize>,
    /// `--json`.
    pub as_json: bool,
    /// `--since <dur>`, in seconds.
    pub since: Option<u64>,
    /// `--project <path>`, as given (the caller resolves it).
    pub project: Option<String>,
    /// `--tool <name>`.
    pub tool: Option<String>,
}

/// What a `gain` command line asks for.
#[derive(Debug, Clone)]
pub enum GainCommand {
    Report(GainOptions),
    Reset,
    Help,
}

/// Why a `gain` command line is refused.
#[derive(Debug, Clone)]
pub enum GainArgError {
    SinceMissing,
    SinceInvalid(String),
    ProjectMissing,
    ToolMissing,
    Unknown(String),
}

/// Options, with texts as character sequences.
pub struct GainOptionsView {
    pub history: Option<usize>,
    pub worst: Option<usize>,
    pub as_json: bool,
    pub since: Option<u64>,
    pub project: Option<Seq<char>>,
    pub tool: Option<Seq<char>>,
}

pub enum GainCommandView {
    Report(GainOptionsView),
    Reset,
    Help,
}

pub enum GainArgErrorView {
    SinceMissing,
    SinceInvalid(Seq<char>),
    ProjectMissing,
    ToolMissing,
    Unknown(Seq<char>),
}

pub open spec fn opt_string_view(s: Option<String>) -> Option<Seq<char>> {
    match s {
        Some(x) => Some(x@),
        None => None,
    }
}

pub open spec fn options_view(o: GainOptions) -> GainOptionsView {
    GainOptionsView {
        history: o.history,
        worst: o.worst,
        as_json: o.as_json,
        since: o.since,
        project: opt_string_view(o.project),
        tool: opt_string_view(o.tool),
    }
}

pub open spec fn command_view(c: GainCommand) -> GainCommandView {
    match c {
        GainCommand::Report(o) => GainCommandView::Report(options_view(o)),
        GainCommand::Reset => GainCommandView::Reset,
        GainCommand::Help => GainCommandView::Help,
    }
}

pub open spec fn arg_error_view(e: GainArgError) -> GainArgErrorView {
    match e {
        GainArgError::SinceMissing => GainArgErrorView::SinceMissing,
        GainArgError::SinceInvalid(v) => GainArgErrorView::SinceInvalid(v@),
        GainArgError::ProjectMissing => GainArgErrorView::ProjectMissing,
        GainArgError::ToolMissing => GainArgErrorView::ToolMissing,
        GainArgError::Unknown(v) => GainArgErrorView::Unknown(v@),
    }
}

pub open spec fn parse_result_view(r: Option<Result<GainCommand, GainArgError>>) -> Option<
    Result<GainCommandView, GainArgErrorView>,
> {
    match r {
        Some(Ok(c)) => Some(Ok(command_view(c))),
        Some(Err(e)) => Some(Err(arg_error_view(e))),
        None => None,
    }
}

/// No option given: the global summary.
pub open spec fn default_options() -> GainOptionsView {
    GainOptionsView {
        history: None,
        worst: None,
        as_json: false,
        since: None,
        project: None,
        tool: None,
    }
}

/// A count following `--history`/`--worst`, when the next argument is one.
pub open spec fn count_after(args: Seq<Seq<char>>, i: int) -> Option<nat> {
    if i + 1 < args.len() {
        parse_unsigned(args[i + 1], usize::MAX as nat)
    } else {
        None
    }
}

/// Reads the options from position `i` on, with `o` gathered so far. `None`
/// stands for a `--since` value whose seconds overflow (a debug build panics).
/// `--reset` and `--help` answer at once, before later options are read.
pub open spec fn gain_args_from(args: Seq<Seq<char>>, i: int, o: GainOptionsView) -> Option<
    Result<GainCommandView, GainArgErrorView>,
>
    decreases args.len() - i,
{
    if i < 0 || i >= args.len() {
        Some(Ok(GainCommandView::Report(o)))
    } else {
        let a = args[i];
        if a == "--history"@ {
            match count_after(args, i) {
                Some(n) => gain_args_from(args, i + 2, GainOptionsView { history: Some(n as usize), ..o }),
                None => gain_args_from(args, i + 1, GainOptionsView { history: Some(20), ..o }),
            }
        } else if a == "--worst"@ {
            match count_after(args, i) {
                Some(n) => gain_args_from(args, i + 2, GainOptionsView { worst: Some(n as usize), ..o }),
                None => gain_args_from(args, i + 1, GainOptionsView { worst: Some(15), ..o }),
            }
        } else if a == "--json"@ {
            gain_args_from(args, i + 1, GainOptionsView { as_json: true, ..o })
        } else if a == "--since"@ {
            if i + 1 >= args.len() {
                Some(Err(GainArgErrorView::SinceMissing))
            } else if duration_overflows(args[i + 1]) {
                None
            } else {
                match duration_of(args[i + 1]) {
                    Some(secs) => gain_args_from(args, i + 2, GainOptionsView { since: Some(secs as u64), ..o }),
                    None => Some(Err(GainArgErrorView::SinceInvalid(args[i + 1]))),
                }
            }
        } else if a == "--project"@ {
            if i + 1 >= args.len() {
                Some(Err(GainArgErrorView::ProjectMissing))
            } else {
                gain_args_from(args, i + 2, GainOptionsView { project: Some(args[i + 1]), ..o })
            }
        } else if a == "--tool"@ {
            if i + 1 >= args.len() {
                Some(Err(GainArgErrorView::ToolMissing))
            } else {
                gain_args_from(args, i + 2, GainOptionsView { tool: Some(args[i + 1]), ..o })
            }
        } else if a == "--reset"@ {
            Some(Ok(GainCommandView::Reset))
        } else if a == "--help"@ || a == "-h"@ {
            Some(Ok(GainCommandView::Help))
        } else {
            Some(Err(GainArgErrorView::Unknown(a)))
        }
    }
}

/// How options read depends only on the arguments from the current one on.
proof fn lemma_args_suffix(a: Seq<Seq<char>>, i: int, b: Seq<Seq<char>>, j: int, o: GainOptionsView)
    requires
        0 <= i <= a.len(),
        0 <= j <= b.len(),
        a.subrange(i, a.len() as int) == b.subrange(j, b.len() as int),
    ensures
        gain_args_from(a, i, o) == gain_args_from(b, j, o),
    decreases a.len() - i,
{
    let n = a.len() - i;
    let sa = a.subrange(i, a.len() as int);
    let sb = b.subrange(j, b.len() as int);
    assert(sa.len() == sb.len());
    assert(b.len() - j == n);
    if n > 0 {
        assert(a[i] == sa[0] && b[j] == sb[0]);
        assert(a.subrange(i + 1, a.len() as int) =~= sa.subrange(1, n));
        assert(b.subrange(j + 1, b.len() as int) =~= sb.subrange(1, n));
        if n > 1 {
            assert(a[i + 1] == sa[1] && b[j + 1] == sb[1]);
        }
        assert(count_after(a, i) == count_after(b, j));
        let o1 = GainOptionsView { history: Some(20), ..o };
        let o2 = GainOptionsView { worst: Some(15), ..o };
        let o3 = GainOptionsView { as_json: true, ..o };
        lemma_args_suffix(a, i + 1, b, j + 1, o1);
        lemma_args_suffix(a, i + 1, b, j + 1, o2);
        lemma_args_suffix(a, i + 1, b, j + 1, o3);
        if n > 1 {
            assert(a.subrange(i + 2, a.len() as int) =~= sa.subrange(2, n));
            assert(b.subrange(j + 2, b.len() as int) =~= sb.subrange(2, n));
            match count_after(a, i) {
                Some(c) => {
                    lemma_args_suffix(a, i + 2, b, j + 2, GainOptionsView { history: Some(c as usize), ..o });
                    lemma_args_suffix(a, i + 2, b, j + 2, GainOptionsView { worst: Some(c as usize), ..o });
                },
                None => {},
            }
            match duration_of(a[i + 1]) {
                Some(secs) => {
                    lemma_args_suffix(a, i + 2, b, j + 2, GainOptionsView { since: Some(secs as u64), ..o });
                },
                None => {},
            }
            lemma_args_suffix(a, i + 2, b, j + 2, GainOptionsView { project: Some(a[i + 1]), ..o });
            lemma_args_suffix(a, i + 2, b, j + 2, GainOptionsView { tool: Some(a[i + 1]), ..o });
        }
    }
}

/// A count option reads as setting its count and nothing else: a bare
/// `--history` (no count after it) is the same as no `--history` there and
/// a history of 20, a bare `--worst` the same with a worst list of 15, so
/// the argument after a bare one is read as an option of its own; and
/// `--history <n>` / `--worst <n>` are the same as neither word there, with
/// a count of `n`.
pub proof fn a_count_option_reads_only_its_count(args: Seq<Seq<char>>, i: int, o: GainOptionsView)
    requires
        0 <= i < args.len(),
        args[i] == "--history"@ || args[i] == "--worst"@,
    ensures
        (i + 1 >= args.len() || parse_unsigned(args[i + 1], usize::MAX as nat) is None) ==> gain_args_from(args, i, o)
            == gain_args_from(
            args.remove(i),
            i,
            if args[i] == "--history"@ {
                GainOptionsView { history: Some(20), ..o }
            } else {
                GainOptionsView { worst: Some(15), ..o }
            },
        ),
        (i + 1 < args.len() && parse_unsigned(args[i + 1], usize::MAX as nat) is Some) ==> gain_args_from(args, i, o)
            == gain_args_from(
            args.remove(i).remove(i),
            i,
            if args[i] == "--history"@ {
                GainOptionsView { history: Some(parse_unsigned(args[i + 1], usize::MAX as nat)->0 as usize), ..o }
            } else {
                GainOptionsView { worst: Some(parse_unsigned(args[i + 1], usize::MAX as nat)->0 as usize), ..o }
            },
        ),
{
    reveal_strlit("--history");
    reveal_strlit("--worst");
    let r1 = args.remove(i);
    assert(r1.subrange(i, r1.len() as int) =~= args.subrange(i + 1, args.len() as int));
    let oh = GainOptionsView { history: Some(20), ..o };
    let ow = GainOptionsView { worst: Some(15), ..o };
    lemma_args_suffix(args, i + 1, r1, i, oh);
    lemma_args_suffix(args, i + 1, r1, i, ow);
    if i + 1 < args.len() {
        let r2 = r1.remove(i);
        assert(r2.subrange(i, r2.len() as int) =~= args.subrange(i + 2, args.len() as int));
        match parse_unsigned(args[i + 1], usize::MAX as nat) {
            Some(c) => {
                lemma_args_suffix(args, i + 2, r2, i, GainOptionsView { history: Some(c as usize), ..o });
                lemma_args_suffix(args, i + 2, r2, i, GainOptionsView { worst: Some(c as usize), ..o });
            },
            None => {},
        }
    }
}

/// The views of a vector of strings.
pub open spec fn string_views(v: Seq<String>) -> Seq<Seq<char>> {
    v.map_values(|s: String| s@)
}

/// Reads the command line of `gain` (the arguments after `gain`). `None`
/// only where a `--since` value's seconds overflow a `u64` (no report can be
/// made for it).
pub fn parse_args(args: &Vec<String>) -> (r: Option<Result<GainCommand, GainArgError>>)
    ensures
        parse_result_view(r) == gain_args_from(string_views(args@), 0, default_options()),
{
    let ghost sargs = string_views(args@);
    let mut o = GainOptions {
        history: None,
        worst: None,
        as_json: false,
        since: None,
        project: None,
        tool: None,
    };
    let mut i: usize = 0;
    assert(options_view(o) == default_options());
    while i < args.len()
        invariant
            sargs == string_views(args@),
            sargs.len() == args.len(),
            i <= args.len() + 1,
            gain_args_from(sargs, i as int, options_view(o)) == gain_args_from(sargs, 0, default_options()),
        decreases args.len() + 1 - i,
    {
        let a = chars_of(args[i].as_str());
        assert(a@ == sargs[i as int]);
        let has_next = i + 1 < args.len();
        if is_lit(&a, "--history") || is_lit(&a, "--worst") {
            let n = if has_next {
                let next = chars_of(args[i + 1].as_str());
                assert(next@ == sargs[i + 1]);
                parse_bounded(&next, usize::MAX as u64)
            } else {
                None
            };
            let step: usize = match n {
                Some(_) => 2,
                None => 1,
            };
            let count: usize = match n {
                Some(v) => v as usize,
                None => if is_lit(&a, "--history") { 20 } else { 15 },
            };
            if is_lit(&a, "--history") {
                o.history = Some(count);
            } else {
                o.worst = Some(count);
            }
            i = i + step;
        } else if is_lit(&a, "--json") {
            o.as_json = true;
            i = i + 1;
        } else if is_lit(&a, "--since") {
            if !has_next {
                return Some(Err(GainArgError::SinceMissing));
            }
            let v = chars_of(args[i + 1].as_str());
            assert(v@ == sargs[i + 1]);
            match duration_value(&v) {
                Err(_) => {
                    return None;
                },
                Ok(None) => {
                    return Some(Err(GainArgError::SinceInvalid(string_of(&v))));
                },
                Ok(Some(secs)) => {
                    o.since = Some(secs);
                    i = i + 2;
                },
            }
        } else if is_lit(&a, "--project") || is_lit(&a, "--tool") {
            if !has_next {
                if is_lit(&a, "--project") {
                    return Some(Err(GainArgError::ProjectMissing));
                } else {
                    return Some(Err(GainArgError::ToolMissing));
                }
            }
            let v = string_of(&chars_of(args[i + 1].as_str()));
            assert(v@ == sargs[i + 1]);
            if is_lit(&a, "--project") {
                o.project = Some(v);
            } else {
                o.tool = Some(v);
            }
            i = i + 2;
        } else if is_lit(&a, "--reset") {
            return Some(Ok(GainCommand::Reset));
        } else if is_lit(&a, "--help") || is_lit(&a, "-h") {
            return Some(Ok(GainCommand::Help));
        } else {
            return Some(Err(GainArgError::Unknown(string_of(&a))));
        }
    }
    Some(Ok(GainCommand::Report(o)))
}


/// Total baseline tokens of a run of events.
pub open spec fn sum_baseline(es: Seq<Event>) -> nat
    decreases es.len(),
{
    if es.len() == 0 {
        0
    } else {
        sum_baseline(es.drop_last()) + (es.last().baseline_tokens as nat)
    }
}

/// Total actual tokens of a run of events.
pub open spec fn sum_actual(es: Seq<Event>) -> nat
    decreases es.len(),
{
    if es.len() == 0 {
        0
    } else {
        sum_actual(es.drop_last()) + (es.last().actual_tokens as nat)
    }
}

/// Total milliseconds of a run of events.
pub open spec fn sum_ms(es: Seq<Event>) -> nat
    decreases es.len(),
{
    if es.len() == 0 {
        0
    } else {
        sum_ms(es.drop_last()) + (es.last().ms as nat)
    }
}

/// Number of failed calls in a run of events.
pub open spec fn count_errors(es: Seq<Event>) -> nat
    decreases es.len(),
{
    if es.len() == 0 {
        0
    } else {
        count_errors(es.drop_last()) + if es.last().ok { 0nat } else { 1nat }
    }
}

/// `a` holds exactly the totals of `es`.
pub open spec fn totals_of(a: Agg, es: Seq<Event>) -> bool {
    &&& a.calls == es.len()
    &&& a.baseline == sum_baseline(es)
    &&& a.actual == sum_actual(es)
    &&& a.ms == sum_ms(es)
    &&& a.errors == count_errors(es)
}

/// The totals of `es` fit the counters, and the savings fit `i64`.
pub open spec fn totals_fit(es: Seq<Event>) -> bool {
    &&& sum_baseline(es) <= i64::MAX
    &&& sum_actual(es) <= i64::MAX
    &&& sum_ms(es) <= u64::MAX
    &&& es.len() <= u64::MAX
}

proof fn lemma_prefix_sums(es: Seq<Event>, k: int)
    requires
        0 <= k <= es.len(),
    ensures
        sum_baseline(es.subrange(0, k)) <= sum_baseline(es),
        sum_actual(es.subrange(0, k)) <= sum_actual(es),
        sum_ms(es.subrange(0, k)) <= sum_ms(es),
        count_errors(es.subrange(0, k)) <= count_errors(es),
        count_errors(es) <= es.len(),
    decreases es.len() - k,
{
    if k < es.len() {
        lemma_prefix_sums(es, k + 1);
        assert(es.subrange(0, k + 1).drop_last() =~= es.subrange(0, k));
    } else {
        assert(es.subrange(0, k) =~= es);
        lemma_errors_bound(es);
    }
}

proof fn lemma_errors_bound(es: Seq<Event>)
    ensures
        count_errors(es) <= es.len(),
    decreases es.len(),
{
    if es.len() > 0 {
        lemma_errors_bound(es.drop_last());
    }
}

/// Whether the log's sums fit the report's counters (`totals_fit`).
pub fn events_fit(events: &Vec<Event>) -> (r: bool)
    ensures
        r == totals_fit(events@),
{
    let mut b: u64 = 0;
    let mut a: u64 = 0;
    let mut ms: u64 = 0;
    let mut i: usize = 0;
    assert(events@.subrange(0, 0) =~= Seq::<Event>::empty());
    while i < events.len()
        invariant
            i <= events.len(),
            b == sum_baseline(events@.subrange(0, i as int)),
            a == sum_actual(events@.subrange(0, i as int)),
            ms == sum_ms(events@.subrange(0, i as int)),
            b <= i64::MAX,
            a <= i64::MAX,
        decreases events.len() - i,
    {
        let e = &events[i];
        proof {
            assert(events@.subrange(0, i + 1).drop_last() =~= events@.subrange(0, i as int));
            lemma_prefix_sums(events@, i + 1);
        }
        if e.baseline_tokens > (i64::MAX as u64) - b || e.actual_tokens > (i64::MAX as u64) - a
            || e.ms > u64::MAX - ms {
            return false;
        }
        b = b + e.baseline_tokens;
        a = a + e.actual_tokens;
        ms = ms + e.ms;
        i = i + 1;
    }
    assert(events@.subrange(0, i as int) =~= events@);
    events.len() as u128 <= u64::MAX as u128
}

/// Totals over all events.
pub fn totals(events: &Vec<Event>) -> (r: Agg)
    requires
        totals_fit(events@),
    ensures
        totals_of(r, events@),
{
    let mut a = Agg::new();
    let mut i: usize = 0;
    assert(events@.subrange(0, 0) =~= Seq::<Event>::empty());
    while i < events.len()
        invariant
            i <= events.len(),
            totals_fit(events@),
            totals_of(a, events@.subrange(0, i as int)),
        decreases events.len() - i,
    {
        proof {
            lemma_prefix_sums(events@, i + 1);
            lemma_errors_bound(events@.subrange(0, i as int));
            assert(events@.subrange(0, i + 1).drop_last() =~= events@.subrange(0, i as int));
        }
        a.add(&events[i]);
        i = i + 1;
    }
    assert(events@.subrange(0, i as int) =~= events@);
    a
}

/// Which field a report row groups by.
#[derive(Debug, Clone, Copy, PartialEq, Eq)]
pub enum GroupBy {
    Tool,
    Project,
}

/// The grouping key of an event.
pub open spec fn key_of(e: Event, by: GroupBy) -> Seq<char> {
    match by {
        GroupBy::Tool => e.tool@,
        GroupBy::Project => e.project@,
    }
}

/// One row of a report: a tool (or project) and its totals.
#[derive(Debug)]
pub struct Group {
    pub key: String,
    pub agg: Agg,
}

/// The events whose key is `k`.
pub open spec fn with_key(es: Seq<Event>, by: GroupBy, k: Seq<char>) -> Seq<Event> {
    es.filter(|e: Event| key_of(e, by) == k)
}

/// Savings of a row, as a mathematical integer.
pub open spec fn row_saved(g: Group) -> int {
    g.agg.baseline - g.agg.actual
}

/// Sums of a field over rows.
pub open spec fn rows_calls(gs: Seq<Group>) -> nat
    decreases gs.len(),
{
    if gs.len() == 0 {
        0
    } else {
        rows_calls(gs.drop_last()) + (gs.last().agg.calls as nat)
    }
}

pub open spec fn rows_baseline(gs: Seq<Group>) -> nat
    decreases gs.len(),
{
    if gs.len() == 0 {
        0
    } else {
        rows_baseline(gs.drop_last()) + (gs.last().agg.baseline as nat)
    }
}

pub open spec fn rows_actual(gs: Seq<Group>) -> nat
    decreases gs.len(),
{
    if gs.len() == 0 {
        0
    } else {
        rows_actual(gs.drop_last()) + (gs.last().agg.actual as nat)
    }
}

pub open spec fn rows_ms(gs: Seq<Group>) -> nat
    decreases gs.len(),
{
    if gs.len() == 0 {
        0
    } else {
        rows_ms(gs.drop_last()) + (gs.last().agg.ms as nat)
    }
}

pub open spec fn rows_errors(gs: Seq<Group>) -> nat
    decreases gs.len(),
{
    if gs.len() == 0 {
        0
    } else {
        rows_errors(gs.drop_last()) + (gs.last().agg.errors as nat)
    }
}

/// The rows of a report over `es`: one per distinct key, each holding the
/// totals of that key's events.
pub open spec fn rows_cover(gs: Seq<Group>, es: Seq<Event>, by: GroupBy) -> bool {
    &&& forall|i: int, j: int| 0 <= i < j < gs.len() ==> gs[i].key@ != gs[j].key@
    &&& forall|i: int| 0 <= i < gs.len() ==> totals_of(#[trigger] gs[i].agg, with_key(es, by, gs[i].key@))
    &&& forall|i: int| 0 <= i < gs.len() ==> with_key(es, by, (#[trigger] gs[i]).key@).len() > 0
    &&& forall|e: Event| es.contains(e) ==> exists|i: int| 0 <= i < gs.len() && (#[trigger] gs[i]).key@ == key_of(e, by)
}


/// Row sums over an updated row.
proof fn lemma_rows_update(gs: Seq<Group>, j: int, g: Group)
    requires
        0 <= j < gs.len(),
    ensures
        rows_calls(gs.update(j, g)) == rows_calls(gs) - gs[j].agg.calls + g.agg.calls,
        rows_baseline(gs.update(j, g)) == rows_baseline(gs) - gs[j].agg.baseline + g.agg.baseline,
        rows_actual(gs.update(j, g)) == rows_actual(gs) - gs[j].agg.actual + g.agg.actual,
        rows_errors(gs.update(j, g)) == rows_errors(gs) - gs[j].agg.errors + g.agg.errors,
        rows_ms(gs.update(j, g)) == rows_ms(gs) - gs[j].agg.ms + g.agg.ms,
    decreases gs.len(),
{
    if j < gs.len() - 1 {
        lemma_rows_update(gs.drop_last(), j, g);
        assert(gs.update(j, g).drop_last() =~= gs.drop_last().update(j, g));
    } else {
        assert(gs.update(j, g).drop_last() =~= gs.drop_last());
    }
}

/// A row never exceeds the row sums.
proof fn lemma_row_le_sums(gs: Seq<Group>, j: int)
    requires
        0 <= j < gs.len(),
    ensures
        gs[j].agg.calls <= rows_calls(gs),
        gs[j].agg.baseline <= rows_baseline(gs),
        gs[j].agg.actual <= rows_actual(gs),
        gs[j].agg.errors <= rows_errors(gs),
        gs[j].agg.ms <= rows_ms(gs),
    decreases gs.len(),
{
    if j < gs.len() - 1 {
        lemma_row_le_sums(gs.drop_last(), j);
    }
}

/// Swapping two neighbouring rows keeps the row sums.
proof fn lemma_rows_swap(gs: Seq<Group>, j: int)
    requires
        0 < j < gs.len(),
    ensures
        rows_calls(gs.update(j - 1, gs[j]).update(j, gs[j - 1])) == rows_calls(gs),
        rows_baseline(gs.update(j - 1, gs[j]).update(j, gs[j - 1])) == rows_baseline(gs),
        rows_actual(gs.update(j - 1, gs[j]).update(j, gs[j - 1])) == rows_actual(gs),
        rows_errors(gs.update(j - 1, gs[j]).update(j, gs[j - 1])) == rows_errors(gs),
        rows_ms(gs.update(j - 1, gs[j]).update(j, gs[j - 1])) == rows_ms(gs),
{
    let t = gs.update(j - 1, gs[j]);
    lemma_rows_update(gs, j - 1, gs[j]);
    lemma_rows_update(t, j, gs[j - 1]);
}

/// The sum laws that tie rows to the events they cover.
pub open spec fn rows_add_up(gs: Seq<Group>, es: Seq<Event>) -> bool {
    &&& rows_calls(gs) == es.len()
    &&& rows_baseline(gs) == sum_baseline(es)
    &&& rows_actual(gs) == sum_actual(es)
    &&& rows_errors(gs) == count_errors(es)
    &&& rows_ms(gs) == sum_ms(es)
}

/// The rows of a report add up to its totals: grouped by tool or by
/// project, the calls, tokens, milliseconds and errors of the rows (as
/// `group_events` makes them) sum to those of the whole log (as `totals`
/// counts them).
pub proof fn rows_add_up_to_totals(gs: Seq<Group>, total: Agg, es: Seq<Event>)
    requires
        rows_add_up(gs, es),
        totals_of(total, es),
    ensures
        rows_calls(gs) == total.calls,
        rows_baseline(gs) == total.baseline,
        rows_actual(gs) == total.actual,
        rows_ms(gs) == total.ms,
        rows_errors(gs) == total.errors,
{
}

/// Rows ordered by savings, largest first.
pub open spec fn by_savings(gs: Seq<Group>) -> bool {
    forall|a: int, b: int| 0 <= a < b < gs.len() ==> row_saved(gs[a]) >= row_saved(gs[b])
}

/// Index of the row with key `k`, if any.
fn find_row(gs: &Vec<Group>, k: &str) -> (r: Option<usize>)
    ensures
        match r {
            Some(j) => j < gs.len() && gs@[j as int].key@ == k@,
            None => forall|j: int| 0 <= j < gs.len() ==> gs@[j].key@ != k@,
        },
{
    let mut j: usize = 0;
    while j < gs.len()
        invariant
            j <= gs.len(),
            forall|i: int| 0 <= i < j ==> gs@[i].key@ != k@,
        decreases gs.len() - j,
    {
        if str_eq(gs[j].key.as_str(), k) {
            return Some(j);
        }
        j = j + 1;
    }
    None
}

/// Groups calls by tool (or project) into report rows, largest savings
/// first; rows with equal savings keep the order in which their key first
/// appears. The rows add up to the totals of all calls.
pub fn group_events(events: &Vec<Event>, by: GroupBy) -> (r: Vec<Group>)
    requires
        totals_fit(events@),
    ensures
        rows_cover(r@, events@, by),
        rows_add_up(r@, events@),
        by_savings(r@),
{
    let mut gs: Vec<Group> = Vec::new();
    let mut i: usize = 0;
    let ghost es = events@;
    assert(es.subrange(0, 0) =~= Seq::<Event>::empty());
    while i < events.len()
        invariant
            es == events@,
            i <= events.len(),
            totals_fit(es),
            rows_cover(gs@, es.subrange(0, i as int), by),
            rows_add_up(gs@, es.subrange(0, i as int)),
        decreases events.len() - i,
    {
        let e = &events[i];
        let ghost pre = es.subrange(0, i as int);
        let ghost post = es.subrange(0, i + 1);
        assert(post =~= pre.push(*e));
        proof {
            lemma_prefix_sums(es, i + 1);
            lemma_errors_bound(pre);
        }
        let k: &str = match by {
            GroupBy::Tool => e.tool.as_str(),
            GroupBy::Project => e.project.as_str(),
        };
        assert(k@ == key_of(*e, by));
        let ghost old_gs = gs@;
        proof {
            assert(post.drop_last() =~= pre);
            assert(sum_baseline(post) == sum_baseline(pre) + e.baseline_tokens);
            assert(sum_actual(post) == sum_actual(pre) + e.actual_tokens);
            assert(sum_ms(post) == sum_ms(pre) + e.ms);
            assert(count_errors(post) == count_errors(pre) + if e.ok { 0nat } else { 1nat });
            let one = seq![*e];
            assert(one.drop_last() =~= Seq::<Event>::empty());
            assert(one.last() == *e);
            assert(sum_baseline(Seq::<Event>::empty()) == 0);
            assert(sum_actual(Seq::<Event>::empty()) == 0);
            assert(sum_ms(Seq::<Event>::empty()) == 0);
            assert(count_errors(Seq::<Event>::empty()) == 0);
            assert(sum_baseline(one) == e.baseline_tokens);
            assert(sum_actual(one) == e.actual_tokens);
            assert(sum_ms(one) == e.ms);
            assert(count_errors(one) == if e.ok { 0nat } else { 1nat });
        }
        match find_row(&gs, k) {
            Some(j) => {
                proof {
                    lemma_row_le_sums(gs@, j as int);
                }
                let mut g = gs.remove(j);
                g.agg.add(e);
                gs.insert(j, g);
                proof {
                    assert(gs@ =~= old_gs.update(j as int, g));
                    lemma_rows_update(old_gs, j as int, g);
                    assert forall|q: Seq<char>| #[trigger] with_key(post, by, q) == if key_of(*e, by) == q {
                        with_key(pre, by, q).push(*e)
                    } else {
                        with_key(pre, by, q)
                    } by {
                        pre.lemma_filter_push(*e, |x: Event| key_of(x, by) == q);
                    }
                    let wk = with_key(pre, by, k@);
                    assert(with_key(post, by, k@).drop_last() =~= wk);
                    assert forall|x: int| 0 <= x < gs@.len() implies totals_of(#[trigger] gs@[x].agg, with_key(post, by, gs@[x].key@)) by {
                        if x != j {
                            assert(gs@[x] == old_gs[x]);
                        }
                    }
                    assert forall|x: int| 0 <= x < gs@.len() implies with_key(post, by, (#[trigger] gs@[x]).key@).len() > 0 by {
                        if x != j {
                            assert(gs@[x] == old_gs[x]);
                        }
                    }
                    assert forall|ev: Event| post.contains(ev) implies exists|x: int| 0 <= x < gs@.len() && (#[trigger] gs@[x]).key@ == key_of(ev, by) by {
                        if ev == *e {
                            assert(gs@[j as int].key@ == key_of(ev, by));
                        } else {
                            let w = choose|w: int| 0 <= w < post.len() && post[w] == ev;
                            assert(pre[w] == ev);
                            assert(pre.contains(ev));
                            let x = choose|x: int| 0 <= x < old_gs.len() && (#[trigger] old_gs[x]).key@ == key_of(ev, by);
                            assert(gs@[x].key@ == key_of(ev, by));
                        }
                    }
                    assert forall|a: int, b: int| 0 <= a < b < gs@.len() implies gs@[a].key@ != gs@[b].key@ by {
                        assert(old_gs[a].key@ != old_gs[b].key@);
                    }
                }
            },
            None => {
                let mut agg = Agg::new();
                agg.add(e);
                let key = string_of(&chars_of(k));
                let g = Group { key, agg };
                gs.push(g);
                proof {
                    assert(gs@ =~= old_gs.push(g));
                    assert(gs@.drop_last() =~= old_gs);
                    assert(rows_calls(gs@) == rows_calls(old_gs) + g.agg.calls);
                    assert(rows_baseline(gs@) == rows_baseline(old_gs) + g.agg.baseline);
                    assert(rows_actual(gs@) == rows_actual(old_gs) + g.agg.actual);
                    assert(rows_ms(gs@) == rows_ms(old_gs) + g.agg.ms);
                    assert(rows_errors(gs@) == rows_errors(old_gs) + g.agg.errors);
                    assert forall|q: Seq<char>| #[trigger] with_key(post, by, q) == if key_of(*e, by) == q {
                        with_key(pre, by, q).push(*e)
                    } else {
                        with_key(pre, by, q)
                    } by {
                        pre.lemma_filter_push(*e, |x: Event| key_of(x, by) == q);
                    }
                    assert(with_key(pre, by, k@).len() == 0) by {
                        if with_key(pre, by, k@).len() > 0 {
                            let ev = with_key(pre, by, k@)[0];
                            assert(with_key(pre, by, k@).contains(ev));
                            pre.lemma_filter_contains_rev(|x: Event| key_of(x, by) == k@, ev);
                            broadcast use vstd::seq_lib::group_filter_ensures;
                            assert(key_of(ev, by) == k@);
                            let x = choose|x: int| 0 <= x < old_gs.len() && (#[trigger] old_gs[x]).key@ == key_of(ev, by);
                        }
                    }
                    assert(with_key(post, by, k@) =~= seq![*e]);
                    assert(seq![*e].drop_last() =~= Seq::<Event>::empty());
                    assert forall|x: int| 0 <= x < gs@.len() implies totals_of(#[trigger] gs@[x].agg, with_key(post, by, gs@[x].key@)) by {
                        if x < old_gs.len() {
                            assert(gs@[x] == old_gs[x]);
                            assert(old_gs[x].key@ != k@);
                            assert(with_key(post, by, old_gs[x].key@) == with_key(pre, by, old_gs[x].key@));
                        } else {
                            assert(gs@[x] == g);
                            assert(with_key(post, by, gs@[x].key@) == seq![*e]);
                        }
                    }
                    assert forall|x: int| 0 <= x < gs@.len() implies with_key(post, by, (#[trigger] gs@[x]).key@).len() > 0 by {
                        if x < old_gs.len() {
                            assert(gs@[x] == old_gs[x]);
                        }
                    }
                    assert forall|ev: Event| post.contains(ev) implies exists|x: int| 0 <= x < gs@.len() && (#[trigger] gs@[x]).key@ == key_of(ev, by) by {
                        if ev == *e {
                            assert(gs@[old_gs.len() as int].key@ == key_of(ev, by));
                        } else {
                            let w = choose|w: int| 0 <= w < post.len() && post[w] == ev;
                            assert(pre[w] == ev);
                            assert(pre.contains(ev));
                            let x = choose|x: int| 0 <= x < old_gs.len() && (#[trigger] old_gs[x]).key@ == key_of(ev, by);
                            assert(gs@[x].key@ == key_of(ev, by));
                        }
                    }
                    assert forall|a: int, b: int| 0 <= a < b < gs@.len() implies gs@[a].key@ != gs@[b].key@ by {
                        if b < old_gs.len() {
                            assert(old_gs[a].key@ != old_gs[b].key@);
                        } else {
                            assert(old_gs[a].key@ != k@);
                        }
                    }
                }
            },
        }
        i = i + 1;
    }
    assert(es.subrange(0, i as int) =~= es);
    sort_by_savings(&mut gs, Ghost(es), by);
    gs
}

/// Whether totals `y` saved strictly more tokens than totals `x`... reversed:
/// whether `a` saved strictly more than `b`.
fn saves_more(a: &Agg, b: &Agg) -> (r: bool)
    requires
        a.baseline <= i64::MAX && a.actual <= i64::MAX,
        b.baseline <= i64::MAX && b.actual <= i64::MAX,
    ensures
        r == (a.baseline - a.actual > b.baseline - b.actual),
{
    a.baseline + b.actual > b.baseline + a.actual
}

/// Orders rows by savings, largest first, keeping the order of ties
/// (insertion sort by neighbouring swaps).
fn sort_by_savings(gs: &mut Vec<Group>, Ghost(es): Ghost<Seq<Event>>, by: GroupBy)
    requires
        totals_fit(es),
        rows_cover(old(gs)@, es, by),
        rows_add_up(old(gs)@, es),
    ensures
        rows_cover(final(gs)@, es, by),
        rows_add_up(final(gs)@, es),
        by_savings(final(gs)@),
{
    let n = gs.len();
    if n == 0 {
        return;
    }
    assert forall|x: int| 0 <= x < gs@.len() implies (#[trigger] gs@[x]).agg.baseline <= i64::MAX && gs@[x].agg.actual <= i64::MAX by {
        lemma_row_le_sums(gs@, x);
    }
    let mut i: usize = 1;
    while i < n
        invariant
            1 <= i <= n,
            n == gs.len(),
            totals_fit(es),
            rows_cover(gs@, es, by),
            rows_add_up(gs@, es),
            forall|a: int, b: int| 0 <= a < b < i ==> row_saved(gs@[a]) >= row_saved(gs@[b]),
            forall|x: int| 0 <= x < gs@.len() ==> (#[trigger] gs@[x]).agg.baseline <= i64::MAX && gs@[x].agg.actual <= i64::MAX,
        decreases n - i,
    {
        let mut j: usize = i;
        while j > 0 && saves_more(&gs[j].agg, &gs[j - 1].agg)
            invariant
                forall|x: int| 0 <= x < gs@.len() ==> (#[trigger] gs@[x]).agg.baseline <= i64::MAX && gs@[x].agg.actual <= i64::MAX,
                1 <= i < n,
                j <= i,
                n == gs.len(),
                totals_fit(es),
                rows_cover(gs@, es, by),
                rows_add_up(gs@, es),
                forall|a: int, b: int| 0 <= a < b <= i && a != j && b != j ==> row_saved(gs@[a]) >= row_saved(gs@[b]),
                forall|b: int| j < b <= i ==> row_saved(gs@[j as int]) > row_saved(gs@[b]),
            decreases j,
        {
            let ghost old_gs = gs@;
            let g = gs.remove(j);
            gs.insert(j - 1, g);
            proof {
                assert(gs@ =~= old_gs.update(j - 1, old_gs[j as int]).update(j as int, old_gs[j - 1]));
                lemma_rows_swap(old_gs, j as int);
                assert forall|a: int, b: int| 0 <= a < b < gs@.len() implies gs@[a].key@ != gs@[b].key@ by {
                    let pa = if a == j - 1 { j as int } else if a == j { j - 1 } else { a };
                    let pb = if b == j - 1 { j as int } else if b == j { j - 1 } else { b };
                    assert(gs@[a] == old_gs[pa]);
                    assert(gs@[b] == old_gs[pb]);
                    if pa < pb {
                        assert(old_gs[pa].key@ != old_gs[pb].key@);
                    } else {
                        assert(old_gs[pb].key@ != old_gs[pa].key@);
                    }
                }
                assert forall|x: int| 0 <= x < gs@.len() implies totals_of(#[trigger] gs@[x].agg, with_key(es, by, gs@[x].key@)) by {
                    let px = if x == j - 1 { j as int } else if x == j { j - 1 } else { x };
                    assert(gs@[x] == old_gs[px]);
                }
                assert forall|x: int| 0 <= x < gs@.len() implies with_key(es, by, (#[trigger] gs@[x]).key@).len() > 0 by {
                    let px = if x == j - 1 { j as int } else if x == j { j - 1 } else { x };
                    assert(gs@[x] == old_gs[px]);
                }
                assert forall|x: int| 0 <= x < gs@.len() implies (#[trigger] gs@[x]).agg.baseline <= i64::MAX && gs@[x].agg.actual <= i64::MAX by {
                    let px = if x == j - 1 { j as int } else if x == j { j - 1 } else { x };
                    assert(gs@[x] == old_gs[px]);
                }
                assert forall|ev: Event| es.contains(ev) implies exists|x: int| 0 <= x < gs@.len() && (#[trigger] gs@[x]).key@ == key_of(ev, by) by {
                    let y = choose|y: int| 0 <= y < old_gs.len() && (#[trigger] old_gs[y]).key@ == key_of(ev, by);
                    let py = if y == j - 1 { j as int } else if y == j { j - 1 } else { y };
                    assert(gs@[py] == old_gs[y]);
                }
            }
            j = j - 1;
        }
        i = i + 1;
    }
}

/// Start of the window of the last `n` calls among `len`.
pub fn history_start(len: usize, n: usize) -> (r: usize)
    ensures
        r == if len >= n { len - n } else { 0 },
{
    len.saturating_sub(n)
}


/// Call `x` ranks before call `y` among the dearest: more actual tokens, or
/// as many and earlier in the log (a stable ordering).
pub open spec fn dearer(es: Seq<Event>, x: int, y: int) -> bool {
    es[x].actual_tokens > es[y].actual_tokens || (es[x].actual_tokens == es[y].actual_tokens
        && x < y)
}

/// The `n` dearest calls, dearest first: their positions in `events`.
pub fn worst(events: &Vec<Event>, n: usize) -> (r: Vec<usize>)
    ensures
        r@.len() == if n <= events@.len() { n as int } else { events@.len() as int },
        forall|i: int| 0 <= i < r@.len() ==> (#[trigger] r@[i]) < events@.len(),
        forall|i: int, j: int| 0 <= i < j < r@.len() ==> dearer(events@, r@[i] as int, r@[j] as int),
        forall|i: int, y: int|
            0 <= i < r@.len() && 0 <= y < events@.len() && !r@.contains(y as usize)
                ==> #[trigger] dearer(events@, r@[i] as int, y),
{
    let mut scores: Vec<u128> = Vec::new();
    let mut i: usize = 0;
    while i < events.len()
        invariant
            i <= events.len(),
            scores@.len() == i,
            forall|q: int| 0 <= q < i ==> scores@[q] == events@[q].actual_tokens,
        decreases events.len() - i,
    {
        scores.push(events[i].actual_tokens as u128);
        i = i + 1;
    }
    let r = crate::select::top_positions(&scores, n);
    assert forall|x: int, y: int| 0 <= x < events@.len() && 0 <= y < events@.len() implies
        (crate::select::outranks(scores@, x, y) == dearer(events@, x, y)) by {}
    r
}

} // verus!
