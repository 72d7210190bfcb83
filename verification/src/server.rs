//! The decisions of the MCP server around each request: which method and
//! tool a request names, the footer that states what an answer cost and
//! what it saved, the message of a failed call, the command line, and the
//! idle warm-up between requests.

use vstd::prelude::*;
use crate::text::{blen, chars_of, decimal, is_lit, push_decimal, push_str, string_of, trim, trimmed};
use crate::telemetry::{tokens, tokens_of};

verus! {

/// Percentage of `baseline` that an answer of `actual` bytes saved, rounded
/// down (only meaningful when the answer is smaller).
pub open spec fn saved_percent(baseline: nat, actual: nat) -> nat {
    (((baseline - actual) * 100) as nat / baseline) as nat
}

/// The footer of an answer: first what this answer costs, then, when it
/// is smaller than its rival, how much it saved and against what.
pub open spec fn footer_text(ms: nat, baseline: nat, actual: nat, vs: Seq<char>) -> Seq<char> {
    if baseline > actual {
        "["@ + decimal(ms) + " ms · ~"@ + decimal(tokens_of(actual)) + " tokens · −"@ + decimal(
            saved_percent(baseline, actual),
        ) + "% vs "@ + vs + "]"@
    } else {
        "["@ + decimal(ms) + " ms · ~"@ + decimal(tokens_of(actual)) + " tokens]"@
    }
}

/// A footer claims savings only for an answer smaller than its rival, and
/// the percentage it claims is between 0 and 100.
pub proof fn footer_savings_are_real(ms: nat, baseline: nat, actual: nat, vs: Seq<char>)
    ensures
        baseline > actual ==> saved_percent(baseline, actual) <= 100,
        baseline <= actual ==> footer_text(ms, baseline, actual, vs) == "["@ + decimal(ms) + " ms · ~"@
            + decimal(tokens_of(actual)) + " tokens]"@,
{
    if baseline > actual {
        let d = (baseline - actual) as nat;
        assert((d * 100) as nat / baseline <= 100) by (nonlinear_arith)
            requires d <= baseline, baseline > 0;
    }
}

/// A failed call is recorded with its message as both baseline and actual
/// answer, so it saves nothing.
pub proof fn failed_calls_save_nothing(e: crate::telemetry::Event, msg_chars: nat)
    requires
        e.baseline_tokens == tokens_of(msg_chars),
        e.actual_tokens == tokens_of(msg_chars),
    ensures
        crate::telemetry::saved_of(e.baseline_tokens, e.actual_tokens) == 0,
{
}

/// The footer of an answer of `actual_chars` bytes that took `ms`, measured
/// against `baseline_chars` bytes of `vs`.
pub fn footer(ms: u64, baseline_chars: usize, actual_chars: usize, vs: &str) -> (r: String)
    ensures
        r@ == footer_text(ms as nat, baseline_chars as nat, actual_chars as nat, vs@),
{
    let cost = tokens(actual_chars);
    let mut t: Vec<char> = Vec::new();
    push_str(&mut t, "[");
    push_decimal(&mut t, ms);
    push_str(&mut t, " ms · ~");
    push_decimal(&mut t, cost);
    if baseline_chars > actual_chars {
        let diff = baseline_chars - actual_chars;
        let num: u128 = (diff as u128) * 100;
        let den: u128 = baseline_chars as u128;
        let pct: u128 = num / den;
        assert(pct <= 100) by (nonlinear_arith)
            requires
                pct == num / den,
                num == diff * 100,
                den == baseline_chars,
                diff <= baseline_chars,
                baseline_chars > 0,
        ;
        push_str(&mut t, " tokens · −");
        push_decimal(&mut t, pct as u64);
        push_str(&mut t, "% vs ");
        push_str(&mut t, vs);
        push_str(&mut t, "]");
    } else {
        push_str(&mut t, " tokens]");
    }
    assert(t@ =~= footer_text(ms as nat, baseline_chars as nat, actual_chars as nat, vs@));
    string_of(&t)
}

/// An answer's text with its footer after a blank line, and its size in
/// bytes (what the call actually cost).
pub open spec fn footed_text(text: Seq<char>, ms: nat, baseline: nat, vs: Seq<char>) -> Seq<char> {
    text + "\n\n"@ + footer_text(ms, baseline, (blen(text) as usize) as nat, vs)
}

/// The text of an answer with its footer, and the size of the whole.
pub fn with_footer(text: &str, ms: u64, baseline_chars: usize, vs: &str) -> (r: (String, usize))
    ensures
        r.0@ == footed_text(text@, ms as nat, baseline_chars as nat, vs@),
        r.1 == blen(r.0@) as usize,
{
    let actual = text.len();
    let f = footer(ms, baseline_chars, actual, vs);
    let mut t = chars_of(text);
    push_str(&mut t, "\n\n");
    push_str(&mut t, f.as_str());
    let s = string_of(&t);
    let n = s.as_str().len();
    (s, n)
}

/// The sizes a call is recorded with, baseline first, for an answer whose
/// footed text is `actual` bytes: a measured answer keeps its baseline; an
/// answer with no measurable savings is recorded against itself, footer
/// included, so it saves nothing.
pub open spec fn recorded_sizes(r: crate::tools::ToolResult, actual: usize) -> (usize, usize) {
    if r.no_gain {
        (actual, actual)
    } else {
        (r.baseline_chars, actual)
    }
}

/// The answer of a call with its footer, and the baseline and actual sizes
/// it is recorded with.
pub fn footed_answer(r: &crate::tools::ToolResult, ms: u64) -> (out: (String, usize, usize))
    ensures
        out.0@ == footed_text(r.text@, ms as nat, r.baseline_chars as nat, r.vs@),
        out.2 == blen(out.0@) as usize,
        (out.1, out.2) == recorded_sizes(*r, out.2),
{
    let (text, actual) = with_footer(r.text.as_str(), ms, r.baseline_chars, r.vs.as_str());
    let baseline = if r.no_gain { actual } else { r.baseline_chars };
    (text, baseline, actual)
}

/// An answer with no measurable savings (a whole-file read, a count, a
/// "nothing found") is recorded as saving nothing: the event the call gives
/// has as many baseline as actual tokens.
pub proof fn no_gain_answers_save_nothing(r: crate::tools::ToolResult, actual: usize, e: crate::telemetry::Event)
    requires
        r.no_gain,
        e.baseline_tokens == tokens_of(recorded_sizes(r, actual).0 as nat),
        e.actual_tokens == tokens_of(recorded_sizes(r, actual).1 as nat),
    ensures
        crate::telemetry::saved_of(e.baseline_tokens, e.actual_tokens) == 0,
{
}

/// The message of a failed call: the error and how long it took.
pub open spec fn failure_text(e: Seq<char>, ms: nat) -> Seq<char> {
    e + " (Execution time: "@ + decimal(ms) + " ms)"@
}

/// The message of a failed call.
pub fn failure_message(e: &str, ms: u64) -> (r: String)
    ensures
        r@ == failure_text(e@, ms as nat),
{
    let mut t = chars_of(e);
    push_str(&mut t, " (Execution time: ");
    push_decimal(&mut t, ms);
    push_str(&mut t, " ms)");
    string_of(&t)
}

/// The label under which a failed call is recorded.
pub open spec fn failed_call_label() -> Seq<char> {
    "llamada fallida"@
}

/// The label under which a failed call is recorded.
pub fn failed_call_text() -> (r: String)
    ensures
        r@ == failed_call_label(),
{
    string_of(&chars_of("llamada fallida"))
}

/// What the server does with a request.
pub enum Reply {
    /// Nothing: a notification, or the `initialized` notice.
    Silence,
    /// The server's name, version and protocol.
    ServerInfo,
    /// The list of tools.
    ToolList,
    /// Run the tool the request names.
    CallTool,
    /// Answer that the method does not exist.
    MethodNotFound,
}

/// What the server does with a request for `method`; a notification (no
/// id) gets no answer.
pub open spec fn reply_of(method: Seq<char>, is_notification: bool) -> Reply {
    if method == "notifications/initialized"@ || is_notification {
        Reply::Silence
    } else if method == "initialize"@ {
        Reply::ServerInfo
    } else if method == "tools/list"@ {
        Reply::ToolList
    } else if method == "tools/call"@ {
        Reply::CallTool
    } else {
        Reply::MethodNotFound
    }
}

/// What the server does with a request.
pub fn reply_for(method: &str, is_notification: bool) -> (r: Reply)
    ensures
        r == reply_of(method@, is_notification),
{
    let m = chars_of(method);
    if is_lit(&m, "notifications/initialized") || is_notification {
        Reply::Silence
    } else if is_lit(&m, "initialize") {
        Reply::ServerInfo
    } else if is_lit(&m, "tools/list") {
        Reply::ToolList
    } else if is_lit(&m, "tools/call") {
        Reply::CallTool
    } else {
        Reply::MethodNotFound
    }
}

/// The message for an unknown method.
pub fn method_not_found(method: &str) -> (r: String)
    ensures
        r@ == "Method not found: "@ + method@,
{
    let mut t = chars_of("Method not found: ");
    push_str(&mut t, method);
    string_of(&t)
}

/// The tools the server offers.
pub enum Tool {
    BulkRead,
    Diff,
    Grep,
    Find,
    Outline,
    Lookup,
    Search,
}

/// The tool a call names, by its published name.
pub open spec fn tool_named(name: Seq<char>) -> Option<Tool> {
    if name == "bulk_read_files"@ {
        Some(Tool::BulkRead)
    } else if name == "get_minified_diff"@ {
        Some(Tool::Diff)
    } else if name == "rtk_grep"@ {
        Some(Tool::Grep)
    } else if name == "rtk_find"@ {
        Some(Tool::Find)
    } else if name == "file_outline"@ {
        Some(Tool::Outline)
    } else if name == "symbol_lookup"@ {
        Some(Tool::Lookup)
    } else if name == "codebase_search"@ {
        Some(Tool::Search)
    } else {
        None
    }
}

/// The tool a call names.
pub fn tool_of(name: &str) -> (r: Option<Tool>)
    ensures
        r == tool_named(name@),
{
    let n = chars_of(name);
    if is_lit(&n, "bulk_read_files") {
        Some(Tool::BulkRead)
    } else if is_lit(&n, "get_minified_diff") {
        Some(Tool::Diff)
    } else if is_lit(&n, "rtk_grep") {
        Some(Tool::Grep)
    } else if is_lit(&n, "rtk_find") {
        Some(Tool::Find)
    } else if is_lit(&n, "file_outline") {
        Some(Tool::Outline)
    } else if is_lit(&n, "symbol_lookup") {
        Some(Tool::Lookup)
    } else if is_lit(&n, "codebase_search") {
        Some(Tool::Search)
    } else {
        None
    }
}

/// The error for a call to a tool that does not exist.
pub fn unknown_tool(name: &str) -> (r: String)
    ensures
        r@ == "Unknown tool: "@ + name@,
{
    let mut t = chars_of("Unknown tool: ");
    push_str(&mut t, name);
    string_of(&t)
}

/// Whether an input line carries nothing (only whitespace).
pub fn is_blank(line: &str) -> (r: bool)
    ensures
        r == (trim(line@).len() == 0),
{
    trimmed(&chars_of(line)).len() == 0
}

/// What the command line asks for.
pub enum Command {
    /// Index the workspace at the root and register the server.
    Init(String),
    /// Check the environment.
    Check,
    /// Savings report; its options follow the command.
    Gain,
    /// Self-update; its options follow the command.
    Update,
    /// Print the version.
    Version,
    /// Serve MCP on stdio, with the default root when given.
    Serve(Option<String>),
    /// Print the usage.
    Help,
    /// An unknown command.
    Unknown(String),
}

/// The first position of `a` in `args`.
pub open spec fn first_index(args: Seq<Seq<char>>, a: Seq<char>) -> Option<int> {
    if exists|i: int| 0 <= i < args.len() && args[i] == a {
        Some(choose|i: int| 0 <= i < args.len() && args[i] == a && forall|j: int| 0 <= j < i ==> args[j] != a)
    } else {
        None
    }
}

/// The root `serve` is given: the argument after the first `--root`.
pub open spec fn serve_root(args: Seq<Seq<char>>) -> Option<Seq<char>> {
    match first_index(args, "--root"@) {
        Some(i) => if i + 1 < args.len() {
            Some(args[i + 1])
        } else {
            None
        },
        None => None,
    }
}

/// The view of a command.
pub enum CommandView {
    Init(Seq<char>),
    Check,
    Gain,
    Update,
    Version,
    Serve(Option<Seq<char>>),
    Help,
    Unknown(Seq<char>),
}

pub open spec fn command_view(c: Command) -> CommandView {
    match c {
        Command::Init(r) => CommandView::Init(r@),
        Command::Check => CommandView::Check,
        Command::Gain => CommandView::Gain,
        Command::Update => CommandView::Update,
        Command::Version => CommandView::Version,
        Command::Serve(r) => CommandView::Serve(crate::gain::opt_string_view(r)),
        Command::Help => CommandView::Help,
        Command::Unknown(a) => CommandView::Unknown(a@),
    }
}

/// What the command line (the program's name first) asks for; with no
/// command the server runs.
pub open spec fn command_from(args: Seq<Seq<char>>) -> CommandView {
    if args.len() < 2 {
        CommandView::Serve(None)
    } else {
        let c = args[1];
        if c == "init"@ {
            CommandView::Init(if args.len() > 2 { args[2] } else { "."@ })
        } else if c == "check"@ {
            CommandView::Check
        } else if c == "gain"@ {
            CommandView::Gain
        } else if c == "update"@ {
            CommandView::Update
        } else if c == "--version"@ || c == "-V"@ || c == "version"@ {
            CommandView::Version
        } else if c == "serve"@ {
            CommandView::Serve(serve_root(args))
        } else if c == "--help"@ || c == "-h"@ || c == "help"@ {
            CommandView::Help
        } else {
            CommandView::Unknown(c)
        }
    }
}

/// Reads the command line.
pub fn command_of(args: &Vec<String>) -> (r: Command)
    ensures
        command_view(r) == command_from(crate::gain::string_views(args@)),
{
    let ghost av = crate::gain::string_views(args@);
    if args.len() < 2 {
        return Command::Serve(None);
    }
    let c = chars_of(args[1].as_str());
    assert(c@ == av[1]);
    if is_lit(&c, "init") {
        if args.len() > 2 {
            let r = string_of(&chars_of(args[2].as_str()));
            assert(r@ == av[2]);
            Command::Init(r)
        } else {
            Command::Init(string_of(&chars_of(".")))
        }
    } else if is_lit(&c, "check") {
        Command::Check
    } else if is_lit(&c, "gain") {
        Command::Gain
    } else if is_lit(&c, "update") {
        Command::Update
    } else if is_lit(&c, "--version") || is_lit(&c, "-V") || is_lit(&c, "version") {
        Command::Version
    } else if is_lit(&c, "serve") {
        let mut i: usize = 0;
        while i < args.len() && !is_lit(&chars_of(args[i].as_str()), "--root")
            invariant
                i <= args.len(),
                av == crate::gain::string_views(args@),
                av.len() == args.len(),
                forall|j: int| 0 <= j < i ==> av[j] != "--root"@,
            decreases args.len() - i,
        {
            assert(av[i as int] == args@[i as int]@);
            i = i + 1;
        }
        proof {
            if i < args.len() {
                assert(av[i as int] == args@[i as int]@);
                assert(av[i as int] == "--root"@);
                let w = choose|w: int| 0 <= w < av.len() && av[w] == "--root"@ && forall|j: int| 0 <= j < w ==> av[j] != "--root"@;
                assert(w == i) by {
                    if w < i {
                    } else if w > i {
                        assert(av[i as int] != "--root"@);
                    }
                }
            } else {
                assert(!(exists|w: int| 0 <= w < av.len() && av[w] == "--root"@));
            }
        }
        if i < args.len() && args.len() - i > 1 {
            let r = string_of(&chars_of(args[i + 1].as_str()));
            assert(r@ == av[i + 1]);
            Command::Serve(Some(r))
        } else {
            Command::Serve(None)
        }
    } else if is_lit(&c, "--help") || is_lit(&c, "-h") || is_lit(&c, "help") {
        Command::Help
    } else {
        Command::Unknown(string_of(&c))
    }
}

/// The message for an unknown command.
pub fn unknown_command(c: &str) -> (r: String)
    ensures
        r@ == "Comando desconocido: '"@ + c@ + "'. Usa: init | check | gain | update | serve | --help"@,
{
    let mut t = chars_of("Comando desconocido: '");
    push_str(&mut t, c);
    push_str(&mut t, "'. Usa: init | check | gain | update | serve | --help");
    string_of(&t)
}

/// Warm-up steps between syncs of the index: walking the tree at every
/// step would repeat the walk with nothing changed.
pub const SYNC_EVERY: usize = 50;

/// Whether the warm-up step numbered `step` syncs the index first.
pub fn sync_due(step: usize) -> (r: bool)
    ensures
        r == (step % SYNC_EVERY == 0),
{
    step % SYNC_EVERY == 0
}

/// What the idle loop does after a warm-up step.
pub enum WarmNext {
    /// Vectors remain: take another step.
    Continue,
    /// Nothing remains: load the model and the vectors once, then sleep.
    Preheat,
    /// Nothing remains and the index is already warm: sleep until a request.
    Sleep,
    /// The index or the model is not available: stop warming up for good.
    Disable,
}

/// What follows a warm-up step that left `remaining` symbols without a
/// vector (`None` when it failed), given whether the index was preheated.
pub open spec fn warm_next_of(remaining: Option<usize>, preheated: bool) -> WarmNext {
    match remaining {
        Some(n) => if n > 0 {
            WarmNext::Continue
        } else if preheated {
            WarmNext::Sleep
        } else {
            WarmNext::Preheat
        },
        None => WarmNext::Disable,
    }
}

/// What follows a warm-up step.
pub fn warm_next(remaining: Option<usize>, preheated: bool) -> (r: WarmNext)
    ensures
        r == warm_next_of(remaining, preheated),
{
    match remaining {
        Some(n) => if n > 0 {
            WarmNext::Continue
        } else if preheated {
            WarmNext::Sleep
        } else {
            WarmNext::Preheat
        },
        None => WarmNext::Disable,
    }
}

} // verus!
