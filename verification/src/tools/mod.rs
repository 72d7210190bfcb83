//! What each tool answers, computed from what the caller read from disk or
//! from the index: the answer text, the baseline it is measured against and
//! the detail label for the history.

use vstd::prelude::*;
use crate::text::{blen, chars_of, string_of, trim_end, trimmed_end};
use crate::index::{line_range, line_range_of};

pub mod find;
pub mod grep;
pub mod lookup;
pub mod search;
pub mod outline;
pub mod bulk;
pub mod diff;

verus! {

/// A tool's answer plus what measuring its savings needs.
#[derive(Debug)]
pub struct ToolResult {
    /// The text handed to the model.
    pub text: String,
    /// Bytes that getting the same information without the tool would have
    /// cost (whole files, raw command output). When it cannot be measured
    /// the answer's own size is used (no savings), so telemetry never
    /// inflates the result.
    pub baseline_chars: usize,
    /// What the baseline stands for ("leer el archivo completo"...).
    pub vs: String,
    /// Short label for the history (the query, the symbol, the file...).
    pub detail: Option<String>,
    /// Whether the answer has no measurable savings (its rival is itself):
    /// such a call is recorded as saving nothing.
    pub no_gain: bool,
}

/// Label of the baseline of an answer that saves nothing.
pub open spec fn no_gain_label() -> Seq<char> {
    "la propia respuesta"@
}

impl ToolResult {
    /// A text answer with an explicit baseline.
    pub fn text(body: String, baseline_chars: usize, vs: &str, detail: &str) -> (r: ToolResult)
        ensures
            r.text@ == body@,
            r.baseline_chars == baseline_chars,
            r.vs@ == vs@,
            r.detail matches Some(d) && d@ == detail@,
            !r.no_gain,
    {
        ToolResult {
            text: body,
            baseline_chars,
            vs: string_of(&chars_of(vs)),
            detail: Some(string_of(&chars_of(detail))),
            no_gain: false,
        }
    }

    /// A text answer with no measurable savings: its baseline is itself.
    pub fn text_no_gain(body: String, detail: &str) -> (r: ToolResult)
        ensures
            r.text@ == body@,
            r.baseline_chars == blen(body@) as usize,
            r.vs@ == no_gain_label(),
            r.detail matches Some(d) && d@ == detail@,
            r.no_gain,
    {
        let baseline = body.as_str().len();
        let mut r = ToolResult::text(body, baseline, "la propia respuesta", detail);
        r.no_gain = true;
        r
    }
}

/// The view of a file read: its contents, or the message of the failure.
pub open spec fn read_view(r: Result<String, String>) -> Result<Seq<char>, Seq<char>> {
    match r {
        Ok(c) => Ok(c@),
        Err(e) => Err(e@),
    }
}

/// The last line of a body shown: `start + max` when that is before `end`.
pub open spec fn capped_end(start: nat, end: nat, max: nat) -> nat {
    if start + max < end {
        start + max
    } else {
        end
    }
}

/// The body shown for lines `start..=end` of a read file: the numbered
/// lines without trailing whitespace, or why they could not be had.
pub open spec fn body_of(path: Seq<char>, file: Result<Seq<char>, Seq<char>>, start: nat, end: nat) -> Result<Seq<char>, Seq<char>> {
    match file {
        Ok(c) => match line_range_of(path, c, start, end) {
            Ok(code) => Ok(trim_end(code)),
            Err(e) => Err(e),
        },
        Err(e) => Err(e),
    }
}

/// The body of lines `start..=end` of a read file.
pub fn read_body(path: &str, file: &Result<String, String>, start: usize, end: usize) -> (r: Result<Vec<char>, Vec<char>>)
    requires
        start <= end + 1,
    ensures
        match r {
            Ok(b) => body_of(path@, read_view(*file), start as nat, end as nat) == Ok::<Seq<char>, Seq<char>>(b@),
            Err(e) => body_of(path@, read_view(*file), start as nat, end as nat) == Err::<Seq<char>, Seq<char>>(e@),
        },
{
    match file {
        Err(e) => Err(chars_of(e.as_str())),
        Ok(c) => match line_range(path, c.as_str(), start, end) {
            Ok(code) => Ok(trimmed_end(&chars_of(code.as_str()))),
            Err(e) => Err(chars_of(e.as_str())),
        },
    }
}

/// Whether `paths[i]` is the first occurrence of its path.
pub open spec fn first_seen(paths: Seq<Seq<char>>, i: int) -> bool {
    forall|j: int| 0 <= j < i ==> paths[j] != paths[i]
}

/// The sizes of the files at the first occurrence of each path (a file
/// whose size is unknown counts nothing), over the first `n` paths.
pub open spec fn distinct_size(paths: Seq<Seq<char>>, sizes: Seq<Option<u64>>, n: int) -> nat
    decreases n,
{
    if n <= 0 {
        0
    } else {
        distinct_size(paths, sizes, n - 1) + if first_seen(paths, n - 1) {
            match sizes[n - 1] {
                Some(b) => b as nat,
                None => 0,
            }
        } else {
            0
        }
    }
}

proof fn lemma_distinct_size_prefix(paths: Seq<Seq<char>>, sizes: Seq<Option<u64>>, i: int, n: int)
    requires
        0 <= i <= n,
    ensures
        distinct_size(paths, sizes, i) <= distinct_size(paths, sizes, n),
    decreases n - i,
{
    if i < n {
        lemma_distinct_size_prefix(paths, sizes, i, n - 1);
    }
}

/// What opening whole every file with a result would have cost: the sizes
/// on disk of the distinct paths (`sizes[i]` is the size of `paths[i]`,
/// `None` where it could not be had).
pub fn full_files_chars(paths: &Vec<String>, sizes: &Vec<Option<u64>>) -> (r: usize)
    requires
        sizes.len() == paths.len(),
        distinct_size(crate::gain::string_views(paths@), sizes@, paths.len() as int) <= usize::MAX,
    ensures
        r == distinct_size(crate::gain::string_views(paths@), sizes@, paths.len() as int),
{
    let ghost pv = crate::gain::string_views(paths@);
    let mut total: usize = 0;
    let mut i: usize = 0;
    while i < paths.len()
        invariant
            i <= paths.len(),
            sizes.len() == paths.len(),
            pv == crate::gain::string_views(paths@),
            pv.len() == paths.len(),
            distinct_size(pv, sizes@, paths.len() as int) <= usize::MAX,
            total == distinct_size(pv, sizes@, i as int),
        decreases paths.len() - i,
    {
        let p = chars_of(paths[i].as_str());
        let mut j: usize = 0;
        let mut seen = false;
        while j < i
            invariant
                j <= i < paths.len(),
                pv == crate::gain::string_views(paths@),
                p@ == pv[i as int],
                seen == exists|q: int| 0 <= q < j && pv[q] == pv[i as int],
            decreases i - j,
        {
            let pj = chars_of(paths[j].as_str());
            assert(pj@ == pv[j as int]);
            if crate::text::same_chars(&pj, &p) {
                seen = true;
            }
            assert(seen == exists|q: int| 0 <= q < j + 1 && pv[q] == pv[i as int]) by {
                if seen && !(exists|q: int| 0 <= q < j && pv[q] == pv[i as int]) {
                    assert(pv[j as int] == pv[i as int]);
                }
            }
            j = j + 1;
        }
        proof {
            lemma_distinct_size_prefix(pv, sizes@, i + 1, paths.len() as int);
            if seen {
                let q = choose|q: int| 0 <= q < i && pv[q] == pv[i as int];
                assert(!first_seen(pv, i as int));
            }
        }
        if !seen {
            match sizes[i] {
                Some(b) => {
                    total = total + b as usize;
                },
                None => {},
            }
        }
        i = i + 1;
    }
    total
}

/// Whether the sizes of the distinct files fit in a `usize`, so that
/// `full_files_chars` can add them.
pub fn sizes_fit(paths: &Vec<String>, sizes: &Vec<Option<u64>>) -> (r: bool)
    requires
        sizes.len() == paths.len(),
    ensures
        r == (distinct_size(crate::gain::string_views(paths@), sizes@, paths.len() as int) <= usize::MAX),
{
    let ghost pv = crate::gain::string_views(paths@);
    let mut total: usize = 0;
    let mut i: usize = 0;
    while i < paths.len()
        invariant
            i <= paths.len(),
            sizes.len() == paths.len(),
            pv == crate::gain::string_views(paths@),
            pv.len() == paths.len(),
            total == distinct_size(pv, sizes@, i as int),
        decreases paths.len() - i,
    {
        let p = chars_of(paths[i].as_str());
        let mut j: usize = 0;
        let mut seen = false;
        while j < i
            invariant
                j <= i < paths.len(),
                pv == crate::gain::string_views(paths@),
                p@ == pv[i as int],
                seen == exists|q: int| 0 <= q < j && pv[q] == pv[i as int],
            decreases i - j,
        {
            let pj = chars_of(paths[j].as_str());
            assert(pj@ == pv[j as int]);
            if crate::text::same_chars(&pj, &p) {
                seen = true;
            }
            assert(seen == exists|q: int| 0 <= q < j + 1 && pv[q] == pv[i as int]) by {
                if seen && !(exists|q: int| 0 <= q < j && pv[q] == pv[i as int]) {
                    assert(pv[j as int] == pv[i as int]);
                }
            }
            j = j + 1;
        }
        proof {
            lemma_distinct_size_prefix(pv, sizes@, i + 1, paths.len() as int);
            if seen {
                let q = choose|q: int| 0 <= q < i && pv[q] == pv[i as int];
                assert(!first_seen(pv, i as int));
            }
        }
        if !seen {
            match sizes[i] {
                Some(b) => {
                    if b as u128 > (usize::MAX - total) as u128 {
                        return false;
                    }
                    total = total + b as usize;
                },
                None => {},
            }
        }
        i = i + 1;
    }
    true
}

} // verus!
