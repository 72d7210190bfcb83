//! `get_minified_diff`: the unstaged changes, compacted by `rtk git diff`
//! when it is available, measured against the native `git diff`.

use vstd::prelude::*;
use crate::text::{blen, chars_of, string_of, trim, trimmed};
use crate::tools::ToolResult;

verus! {

/// The answer when nothing changed.
pub open spec fn no_changes_text() -> Seq<char> {
    "No unstaged changes."@
}

/// The label of a diff answer, both as its detail and as its rival.
pub open spec fn diff_label() -> Seq<char> {
    "git diff"@
}

/// The size of a native diff's output once trimmed, when it is not empty.
pub open spec fn raw_diff_size(out: Seq<char>) -> Option<usize> {
    if trim(out).len() == 0 {
        None
    } else {
        Some(blen(trim(out)) as usize)
    }
}

/// The size of what the native `git diff` printed, once trimmed; `None`
/// when it printed nothing.
pub fn raw_diff_chars(stdout: &str) -> (r: Option<usize>)
    ensures
        r == raw_diff_size(stdout@),
{
    let t = trimmed(&chars_of(stdout));
    if t.len() == 0 {
        return None;
    }
    let s = string_of(&t);
    Some(s.as_str().len())
}

/// The answer of `get_minified_diff` for what the diff command printed:
/// `used_rtk` says whether it was `rtk git diff` (then `raw` is the size of
/// the native diff, when measured); a native diff saves nothing.
pub fn diff_report(used_rtk: bool, stdout: &str, raw: Option<usize>) -> (r: ToolResult)
    ensures
        r.detail matches Some(d) && d@ == diff_label(),
        trim(stdout@).len() == 0 ==> {
            &&& r.text@ == no_changes_text()
            &&& r.baseline_chars == blen(r.text@) as usize
            &&& r.vs@ == crate::tools::no_gain_label()
            &&& r.no_gain
        },
        trim(stdout@).len() > 0 ==> {
            &&& r.text@ == trim(stdout@)
            &&& r.baseline_chars == if used_rtk {
                match raw {
                    Some(n) => n,
                    None => blen(trim(stdout@)) as usize,
                }
            } else {
                blen(trim(stdout@)) as usize
            }
            &&& r.vs@ == diff_label()
            &&& !r.no_gain
        },
{
    let t = trimmed(&chars_of(stdout));
    if t.len() == 0 {
        return ToolResult::text_no_gain(string_of(&chars_of("No unstaged changes.")), "git diff");
    }
    let diff = string_of(&t);
    let own = diff.as_str().len();
    let baseline = if used_rtk {
        match raw {
            Some(n) => n,
            None => own,
        }
    } else {
        own
    };
    ToolResult::text(diff, baseline, "git diff", "git diff")
}

} // verus!
