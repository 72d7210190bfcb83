//! `rtk_grep`: lines matching a regular expression over the same walk as
//! `rtk_find` and the index. Few matches are listed with the path once per
//! file; too many (or when asked) become a per-file count.

use vstd::prelude::*;
use crate::text::{
    blen, byte_len, chars_of, decimal, lines, push_all, push_decimal, push_str, split_lines,
    string_of, strip_dot_slash, stripped_dot_slash, trim_end, trimmed_end, truncate_chars, truncated,
    views,
};
use crate::index::{join, join_chars, walk_skips, walk_skips_path};
use crate::tools::ToolResult;
use crate::tools::find::invalid_pattern_prefix;

verus! {

/// Past this many matches no lines are listed, only counts per file.
pub const MAX_LINES: usize = 60;

/// ...and the same when the lines would take more than this many bytes.
pub const MAX_OUTPUT_CHARS: usize = 4000;

/// Files listed in a count summary.
pub const MAX_FILES_SUMMARY: usize = 30;

/// Characters kept of a very long matching line.
pub const MAX_LINE_CHARS: usize = 200;

/// Whether the regex crate accepts `pattern` (with its default limits).
pub uninterp spec fn regex_valid(pattern: Seq<char>) -> bool;

/// Whether the regular expression `pattern` matches somewhere in `line`.
pub uninterp spec fn regex_matches(pattern: Seq<char>, line: Seq<char>) -> bool;

/// The message of the regex crate's error for an expression it refuses.
pub uninterp spec fn regex_error_of(pattern: Seq<char>) -> Seq<char>;

/// The regex crate's compiled expression, declared so that a line pattern
/// can hold one; its contents are opaque to the proofs.
#[verifier::external_type_specification]
#[verifier::external_body]
pub struct ExRegex(regex::Regex);

/// The regex crate's error for an expression it refuses; its contents are
/// opaque to the proofs.
#[verifier::external_type_specification]
#[verifier::external_body]
pub struct ExRegexError(regex::Error);

/// A compiled regular expression with its source; only `compile_regex`
/// makes one.
pub struct LinePattern {
    source: String,
    re: regex::Regex,
}

/// The regex crate's refusal of an expression, kept with the expression;
/// only `compile_regex` makes one.
pub struct RegexRefusal {
    pattern: String,
    error: regex::Error,
}

/// Trusted: `RegexBuilder::new(pattern).build()`. The claim: it succeeds
/// exactly for the patterns the regex crate accepts, and the compiled
/// expression (or the error) is kept with its source.
#[verifier::external_body]
fn compile_regex(pattern: &str) -> (r: Result<LinePattern, RegexRefusal>)
    ensures
        r is Ok == regex_valid(pattern@),
        r matches Ok(p) ==> p.source@ == pattern@,
        r matches Err(e) ==> e.pattern@ == pattern@,
{
    match regex::RegexBuilder::new(pattern).build() {
        Ok(re) => Ok(LinePattern { source: pattern.to_string(), re }),
        Err(error) => Err(RegexRefusal { pattern: pattern.to_string(), error }),
    }
}

/// Trusted: `Regex::is_match` on one line. The claim: the answer is whether
/// the expression the pattern was compiled from matches in the line.
#[verifier::external_body]
fn regex_is_match(p: &LinePattern, line: &str) -> (r: bool)
    ensures
        r == regex_matches(p.source@, line@),
{
    p.re.is_match(line)
}

/// Trusted: the regex crate's `Display` of a build error. The claim: the
/// message depends on the refused expression alone (with the builder's
/// default settings).
#[verifier::external_body]
fn regex_error_text(e: &RegexRefusal) -> (r: String)
    ensures
        r@ == regex_error_of(e.pattern@),
{
    e.error.to_string()
}

/// A file the walk found and could read as text: its path as walked and
/// its contents.
pub struct WalkedFile {
    pub path: String,
    pub content: String,
}

/// A matching line: its 1-based number and its (trimmed, cut) text.
pub struct Hit {
    pub line: usize,
    pub text: Vec<char>,
}

/// The matching lines of one file.
pub struct FileHits {
    pub path: Vec<char>,
    pub hits: Vec<Hit>,
}

/// What a search found: the files with matches in walk order, the number
/// of matching lines, the size of the same lines as `grep -rn` prints them
/// (`path:line:text`, the path on every line) and the size of the lines
/// with each path written once.
pub struct GrepScan {
    pub files: Vec<FileHits>,
    pub total_hits: usize,
    pub raw_chars: usize,
    pub lines_chars: usize,
}

/// The text kept of a matching line: without trailing whitespace, cut to
/// `MAX_LINE_CHARS` characters plus an ellipsis.
pub open spec fn hit_text(line: Seq<char>) -> Seq<char> {
    truncate_chars(trim_end(line), MAX_LINE_CHARS as nat)
}

/// The matches among lines `ls`, with their 1-based numbers.
pub open spec fn line_hits(pattern: Seq<char>, ls: Seq<Seq<char>>) -> Seq<(int, Seq<char>)>
    decreases ls.len(),
{
    if ls.len() == 0 {
        Seq::empty()
    } else {
        let pre = line_hits(pattern, ls.drop_last());
        if regex_matches(pattern, ls.last()) {
            pre.push((ls.len() as int, hit_text(ls.last())))
        } else {
            pre
        }
    }
}

/// The walked files as (path, contents).
pub open spec fn walked_views(fs: Seq<WalkedFile>) -> Seq<(Seq<char>, Seq<char>)> {
    fs.map_values(|f: WalkedFile| (f.path@, f.content@))
}

/// The files with matches, in walk order, each under its path without a
/// leading `./`; skipped paths (`.git`, `.rtk-index`, the archive) and
/// files without matches are left out.
pub open spec fn files_with_hits(pattern: Seq<char>, fs: Seq<(Seq<char>, Seq<char>)>) -> Seq<(Seq<char>, Seq<(int, Seq<char>)>)>
    decreases fs.len(),
{
    if fs.len() == 0 {
        Seq::empty()
    } else {
        let pre = files_with_hits(pattern, fs.drop_last());
        let f = fs.last();
        let hs = line_hits(pattern, lines(f.1));
        if walk_skips_path(f.0) || hs.len() == 0 {
            pre
        } else {
            pre.push((strip_dot_slash(f.0), hs))
        }
    }
}

/// The view of the hits of a file.
pub open spec fn hits_view(hs: Seq<Hit>) -> Seq<(int, Seq<char>)> {
    hs.map_values(|h: Hit| (h.line as int, h.text@))
}

/// The view of the files of a scan.
pub open spec fn scan_files_view(fs: Seq<FileHits>) -> Seq<(Seq<char>, Seq<(int, Seq<char>)>)> {
    fs.map_values(|f: FileHits| (f.path@, hits_view(f.hits@)))
}

/// Number of matching lines.
pub open spec fn total_hits_of(gs: Seq<(Seq<char>, Seq<(int, Seq<char>)>)>) -> nat
    decreases gs.len(),
{
    if gs.len() == 0 {
        0
    } else {
        total_hits_of(gs.drop_last()) + gs.last().1.len()
    }
}

/// `path:NN:text` plus a newline for each hit, counted as 8 bytes besides
/// the path and the text.
pub open spec fn hits_raw(path: Seq<char>, hs: Seq<(int, Seq<char>)>) -> nat
    decreases hs.len(),
{
    if hs.len() == 0 {
        0
    } else {
        hits_raw(path, hs.drop_last()) + blen(path) + blen(hs.last().1) + 8
    }
}

/// The `grep -rn` size of all hits.
pub open spec fn raw_of(gs: Seq<(Seq<char>, Seq<(int, Seq<char>)>)>) -> nat
    decreases gs.len(),
{
    if gs.len() == 0 {
        0
    } else {
        raw_of(gs.drop_last()) + hits_raw(gs.last().0, gs.last().1)
    }
}

/// The hits' texts, 8 bytes each besides the text.
pub open spec fn hits_chars(hs: Seq<(int, Seq<char>)>) -> nat
    decreases hs.len(),
{
    if hs.len() == 0 {
        0
    } else {
        hits_chars(hs.drop_last()) + blen(hs.last().1) + 8
    }
}

/// The size of the listed lines, each path counted once.
pub open spec fn lines_chars_of(gs: Seq<(Seq<char>, Seq<(int, Seq<char>)>)>) -> nat
    decreases gs.len(),
{
    if gs.len() == 0 {
        0
    } else {
        lines_chars_of(gs.drop_last()) + blen(gs.last().0) + hits_chars(gs.last().1)
    }
}

/// What a scan must hold for the walked files and the pattern.
pub open spec fn scan_of(s: GrepScan, pattern: Seq<char>, fs: Seq<(Seq<char>, Seq<char>)>) -> bool {
    let gs = files_with_hits(pattern, fs);
    &&& scan_files_view(s.files@) == gs
    &&& s.total_hits == total_hits_of(gs)
    &&& s.raw_chars == raw_of(gs)
    &&& s.lines_chars == lines_chars_of(gs)
}

/// The `grep -rn` size if every line of a file matched.
pub open spec fn lines_bound(path: Seq<char>, ls: Seq<Seq<char>>) -> nat
    decreases ls.len(),
{
    if ls.len() == 0 {
        0
    } else {
        lines_bound(path, ls.drop_last()) + blen(path) + blen(hit_text(ls.last())) + 8
    }
}

/// The `grep -rn` size if every line of every walked file matched: a bound
/// on what any pattern can give.
pub open spec fn grep_bound(fs: Seq<(Seq<char>, Seq<char>)>) -> nat
    decreases fs.len(),
{
    if fs.len() == 0 {
        0
    } else {
        grep_bound(fs.drop_last()) + lines_bound(strip_dot_slash(fs.last().0), lines(fs.last().1))
    }
}

proof fn lemma_hits_bound(pattern: Seq<char>, path: Seq<char>, ls: Seq<Seq<char>>)
    ensures
        hits_raw(path, line_hits(pattern, ls)) <= lines_bound(path, ls),
        line_hits(pattern, ls).len() <= ls.len(),
        forall|k: int| 0 <= k < line_hits(pattern, ls).len() ==> 1 <= (#[trigger] line_hits(pattern, ls)[k]).0 <= ls.len(),
    decreases ls.len(),
{
    if ls.len() > 0 {
        lemma_hits_bound(pattern, path, ls.drop_last());
        let pre = line_hits(pattern, ls.drop_last());
        if regex_matches(pattern, ls.last()) {
            let hs = pre.push((ls.len() as int, hit_text(ls.last())));
            assert(hs.drop_last() =~= pre);
            assert forall|k: int| 0 <= k < hs.len() implies 1 <= (#[trigger] hs[k]).0 <= ls.len() by {
                if k < pre.len() {
                    assert(hs[k] == pre[k]);
                }
            }
        }
    }
}

proof fn lemma_lines_bound_prefix(path: Seq<char>, ls: Seq<Seq<char>>, j: int)
    requires
        0 <= j <= ls.len(),
    ensures
        lines_bound(path, ls.take(j)) <= lines_bound(path, ls),
    decreases ls.len() - j,
{
    if j < ls.len() {
        lemma_lines_bound_prefix(path, ls, j + 1);
        assert(ls.take(j + 1).drop_last() =~= ls.take(j));
    } else {
        assert(ls.take(j) =~= ls);
    }
}

proof fn lemma_grep_bound(pattern: Seq<char>, fs: Seq<(Seq<char>, Seq<char>)>)
    ensures
        raw_of(files_with_hits(pattern, fs)) <= grep_bound(fs),
    decreases fs.len(),
{
    if fs.len() > 0 {
        lemma_grep_bound(pattern, fs.drop_last());
        let f = fs.last();
        lemma_hits_bound(pattern, strip_dot_slash(f.0), lines(f.1));
        let pre = files_with_hits(pattern, fs.drop_last());
        let hs = line_hits(pattern, lines(f.1));
        if !(walk_skips_path(f.0) || hs.len() == 0) {
            assert(pre.push((strip_dot_slash(f.0), hs)).drop_last() =~= pre);
        }
    }
}

proof fn lemma_grep_bound_prefix(fs: Seq<(Seq<char>, Seq<char>)>, i: int)
    requires
        0 <= i <= fs.len(),
    ensures
        grep_bound(fs.take(i)) <= grep_bound(fs),
    decreases fs.len() - i,
{
    if i < fs.len() {
        lemma_grep_bound_prefix(fs, i + 1);
        assert(fs.take(i + 1).drop_last() =~= fs.take(i));
    } else {
        assert(fs.take(i) =~= fs);
    }
}

/// Collects the matching lines of every walked file.
fn grep_scan(pattern: &LinePattern, files: &Vec<WalkedFile>) -> (r: GrepScan)
    requires
        grep_bound(walked_views(files@)) <= usize::MAX,
    ensures
        scan_of(r, pattern.source@, walked_views(files@)),
{
    let ghost pat = pattern.source@;
    let ghost fv = walked_views(files@);
    let mut out: Vec<FileHits> = Vec::new();
    let mut total: usize = 0;
    let mut raw: usize = 0;
    let mut lc: usize = 0;
    let mut i: usize = 0;
    assert(fv.take(0) =~= Seq::<(Seq<char>, Seq<char>)>::empty());
    while i < files.len()
        invariant
            i <= files.len(),
            pat == pattern.source@,
            fv == walked_views(files@),
            fv.len() == files.len(),
            grep_bound(fv) <= usize::MAX,
            scan_files_view(out@) == files_with_hits(pat, fv.take(i as int)),
            total == total_hits_of(files_with_hits(pat, fv.take(i as int))),
            raw == raw_of(files_with_hits(pat, fv.take(i as int))),
            lc == lines_chars_of(files_with_hits(pat, fv.take(i as int))),
            lc <= raw,
            total <= raw,
        decreases files.len() - i,
    {
        let ghost pre = files_with_hits(pat, fv.take(i as int));
        let ghost f = fv[i as int];
        proof {
            assert(fv.take(i + 1).drop_last() =~= fv.take(i as int));
            assert(fv.take(i + 1).last() == f);
            lemma_grep_bound(pat, fv.take(i as int));
            lemma_grep_bound_prefix(fv, i + 1);
            lemma_hits_bound(pat, strip_dot_slash(f.0), lines(f.1));
        }
        let path = files[i].path.as_str();
        if walk_skips(path) {
            assert(files_with_hits(pat, fv.take(i + 1)) == pre);
            i = i + 1;
            continue;
        }
        let shown = stripped_dot_slash(&chars_of(path));
        let content = chars_of(files[i].content.as_str());
        let ls = split_lines(&content);
        let ghost lv = views(ls@);
        let mut hits: Vec<Hit> = Vec::new();
        let mut raw_f: usize = 0;
        let mut chars_f: usize = 0;
        let mut j: usize = 0;
        assert(lv.take(0) =~= Seq::<Seq<char>>::empty());
        while j < ls.len()
            invariant
                j <= ls.len(),
                lv == views(ls@),
                lv == lines(f.1),
                pat == pattern.source@,
                shown@ == strip_dot_slash(f.0),
                hits_view(hits@) == line_hits(pat, lv.take(j as int)),
                raw_f == hits_raw(shown@, line_hits(pat, lv.take(j as int))),
                chars_f == hits_chars(line_hits(pat, lv.take(j as int))),
                raw_f >= chars_f + if hits@.len() > 0 { blen(shown@) as int } else { 0 },
                raw_f >= hits@.len(),
                raw + lines_bound(shown@, lv) <= usize::MAX,
            decreases ls.len() - j,
        {
            let ghost hs0 = line_hits(pat, lv.take(j as int));
            proof {
                assert(lv.take(j + 1).drop_last() =~= lv.take(j as int));
                assert(lv.take(j + 1).last() == ls@[j as int]@);
                lemma_hits_bound(pat, shown@, lv.take(j + 1));
                lemma_lines_bound_prefix(shown@, lv, j + 1);
            }
            let line_s = string_of(&ls[j]);
            if regex_is_match(pattern, line_s.as_str()) {
                let text = truncated(&trimmed_end(&ls[j]), MAX_LINE_CHARS);
                assert(text@ == hit_text(lv[j as int]));
                let ghost hs1 = hs0.push(((j + 1) as int, hit_text(lv[j as int])));
                assert(line_hits(pat, lv.take(j + 1)) == hs1);
                assert(hs1.drop_last() =~= hs0);
                assert(hits_raw(shown@, hs1) == raw_f + blen(shown@) + blen(text@) + 8);
                let plen = byte_len(&shown);
                let tlen = byte_len(&text);
                raw_f = raw_f + plen + tlen + 8;
                chars_f = chars_f + tlen + 8;
                let ghost hv0 = hits_view(hits@);
                hits.push(Hit { line: j + 1, text });
                assert(hits_view(hits@) =~= hv0.push(((j + 1) as int, hit_text(lv[j as int]))));
                assert(line_hits(pat, lv.take(j + 1)).drop_last() =~= hs0);
            }
            j = j + 1;
        }
        assert(lv.take(ls.len() as int) =~= lv);
        if hits.len() == 0 {
            assert(files_with_hits(pat, fv.take(i + 1)) == pre);
            i = i + 1;
            continue;
        }
        let n = hits.len();
        let plen = byte_len(&shown);
        total = total + n;
        raw = raw + raw_f;
        lc = lc + plen + chars_f;
        let ghost ov = scan_files_view(out@);
        out.push(FileHits { path: shown, hits });
        proof {
            let hs = line_hits(pat, lines(f.1));
            let now = files_with_hits(pat, fv.take(i + 1));
            assert(now == pre.push((strip_dot_slash(f.0), hs)));
            assert(scan_files_view(out@) =~= ov.push((strip_dot_slash(f.0), hs)));
            assert(now.drop_last() =~= pre);
        }
        i = i + 1;
    }
    assert(fv.take(files.len() as int) =~= fv);
    GrepScan { files: out, total_hits: total, raw_chars: raw, lines_chars: lc }
}


/// The answer when nothing matched.
pub open spec fn no_hits_text(query: Seq<char>, path: Seq<char>) -> Seq<char> {
    "Sin coincidencias para '"@ + query + "' en "@ + path + "."@
}

/// Whether a search answers with counts per file: when asked, or when the
/// lines would be too many or too long.
pub open spec fn counts_only(count_only: bool, s: GrepScan) -> bool {
    count_only || s.total_hits > MAX_LINES || s.lines_chars > MAX_OUTPUT_CHARS
}

/// File `x` comes before file `y` in a count summary: more matches, or as
/// many and earlier in the walk.
pub open spec fn more_hits(fs: Seq<FileHits>, x: int, y: int) -> bool {
    fs[x].hits@.len() > fs[y].hits@.len() || (fs[x].hits@.len() == fs[y].hits@.len() && x < y)
}

/// The files a count summary shows, in the order shown: the
/// `MAX_FILES_SUMMARY` with most matches, most first, ties in walk order.
pub open spec fn summary_order(fs: Seq<FileHits>, order: Seq<usize>) -> bool {
    &&& order.len() == if MAX_FILES_SUMMARY <= fs.len() { MAX_FILES_SUMMARY as int } else { fs.len() as int }
    &&& forall|i: int| 0 <= i < order.len() ==> (#[trigger] order[i]) < fs.len()
    &&& forall|i: int, j: int| 0 <= i < j < order.len() ==> more_hits(fs, order[i] as int, order[j] as int)
    &&& forall|i: int, y: int|
        0 <= i < order.len() && 0 <= y < fs.len() && !order.contains(y as usize) ==> #[trigger] more_hits(fs, order[i] as int, y)
}

/// First line of a count summary.
pub open spec fn summary_header(s: GrepScan, query: Seq<char>, count_only: bool) -> Seq<char> {
    decimal(s.total_hits as nat) + " coincidencias en "@ + decimal(s.files@.len()) + " archivo(s) para '"@ + query + "'"@
        + if count_only {
        " — conteo por archivo:"@
    } else {
        " — demasiadas para listarlas, aquí el conteo:"@
    }
}

/// A file in a count summary.
pub open spec fn count_line(f: FileHits) -> Seq<char> {
    f.path@ + ": "@ + decimal(f.hits@.len())
}

/// The advice that closes a summary the caller did not ask for.
pub open spec fn narrow_hint() -> Seq<char> {
    "Acota con un `path` más específico o un patrón más preciso para ver las líneas."@
}

/// The lines of a count summary showing the files at `order`.
pub open spec fn summary_lines(s: GrepScan, order: Seq<usize>, query: Seq<char>, count_only: bool) -> Seq<Seq<char>> {
    seq![summary_header(s, query, count_only)] + order.map_values(|i: usize| count_line(s.files@[i as int]))
        + (if s.files@.len() > order.len() {
        seq!["[+"@ + decimal((s.files@.len() - order.len()) as nat) + " archivos más]"@]
    } else {
        Seq::empty()
    }) + if !count_only {
        seq![narrow_hint()]
    } else {
        Seq::empty()
    }
}

/// First line of a listing of matches.
pub open spec fn list_header(s: GrepScan, query: Seq<char>) -> Seq<char> {
    decimal(s.total_hits as nat) + " coincidencia(s) en "@ + decimal(s.files@.len()) + " archivo(s) para '"@ + query + "'"@
}

/// A listed match: its line number and text, indented under its file.
pub open spec fn hit_line(h: Hit) -> Seq<char> {
    "  "@ + decimal(h.line as nat) + ": "@ + h.text@
}

/// A file's path, then its matches.
pub open spec fn file_block(f: FileHits) -> Seq<Seq<char>> {
    seq![f.path@] + f.hits@.map_values(|h: Hit| hit_line(h))
}

/// The blocks of the files, in order.
pub open spec fn blocks(fs: Seq<FileHits>) -> Seq<Seq<char>>
    decreases fs.len(),
{
    if fs.len() == 0 {
        Seq::empty()
    } else {
        blocks(fs.drop_last()) + file_block(fs.last())
    }
}

/// The lines of a listing of matches.
pub open spec fn list_lines(s: GrepScan, query: Seq<char>) -> Seq<Seq<char>> {
    seq![list_header(s, query)] + blocks(s.files@)
}

/// Label of the baseline of a listing of matches.
pub open spec fn grep_baseline_label() -> Seq<char> {
    "grep -rn (mismas líneas, ruta repetida)"@
}

/// What `rtk_grep` answers for a scan.
pub open spec fn grep_answer_of(r: ToolResult, query: Seq<char>, path: Seq<char>, count_only: bool, s: GrepScan) -> bool {
    &&& r.detail matches Some(d) && d@ == query
    &&& s.total_hits == 0 ==> {
        &&& r.text@ == no_hits_text(query, path)
        &&& r.baseline_chars == blen(r.text@) as usize
        &&& r.vs@ == crate::tools::no_gain_label()
        &&& r.no_gain
    }
    &&& s.total_hits > 0 && counts_only(count_only, s) ==> {
        &&& exists|order: Seq<usize>| #[trigger] summary_order(s.files@, order)
            && r.text@ == join(summary_lines(s, order, query, count_only), "\n"@)
        &&& r.baseline_chars == blen(r.text@) as usize
        &&& r.vs@ == crate::tools::no_gain_label()
        &&& r.no_gain
    }
    &&& s.total_hits > 0 && !counts_only(count_only, s) ==> {
        &&& r.text@ == join(list_lines(s, query), "\n"@)
        &&& r.baseline_chars == s.raw_chars
        &&& r.vs@ == grep_baseline_label()
        &&& !r.no_gain
    }
}

/// Appends the lines of a file's block.
fn push_block(out: &mut Vec<Vec<char>>, f: &FileHits)
    ensures
        views(final(out)@) == views(old(out)@) + file_block(*f),
{
    let ghost start = views(out@);
    out.push(slice_of_all(&f.path));
    assert(views(out@) =~= start + seq![f.path@]);
    let mut k: usize = 0;
    while k < f.hits.len()
        invariant
            k <= f.hits.len(),
            views(out@) == start + seq![f.path@] + f.hits@.subrange(0, k as int).map_values(|h: Hit| hit_line(h)),
        decreases f.hits.len() - k,
    {
        let h = &f.hits[k];
        let mut line: Vec<char> = Vec::new();
        push_str(&mut line, "  ");
        push_decimal(&mut line, h.line as u64);
        push_str(&mut line, ": ");
        push_all(&mut line, &h.text);
        assert(line@ == hit_line(f.hits@[k as int]));
        let ghost before = views(out@);
        out.push(line);
        assert(views(out@) =~= before.push(line@));
        assert(f.hits@.subrange(0, k + 1).map_values(|h: Hit| hit_line(h)) =~= f.hits@.subrange(0, k as int).map_values(|h: Hit| hit_line(h)).push(hit_line(f.hits@[k as int])));
        k = k + 1;
    }
    assert(f.hits@.subrange(0, k as int) =~= f.hits@);
}

fn slice_of_all(v: &Vec<char>) -> (r: Vec<char>)
    ensures
        r@ == v@,
{
    crate::text::slice_of(v, 0, v.len())
}

/// The answer of `rtk_grep` for what a search of `path` for `query` found:
/// nothing, the lines with each path once, or counts per file.
pub fn grep_report(query: &str, path: &str, count_only: bool, s: &GrepScan) -> (r: ToolResult)
    ensures
        grep_answer_of(r, query@, path@, count_only, *s),
{
    if s.total_hits == 0 {
        let mut t: Vec<char> = Vec::new();
        push_str(&mut t, "Sin coincidencias para '");
        push_str(&mut t, query);
        push_str(&mut t, "' en ");
        push_str(&mut t, path);
        push_str(&mut t, ".");
        assert(t@ =~= no_hits_text(query@, path@));
        return ToolResult::text_no_gain(string_of(&t), query);
    }
    let mut out: Vec<Vec<char>> = Vec::new();
    if count_only || s.total_hits > MAX_LINES || s.lines_chars > MAX_OUTPUT_CHARS {
        let mut scores: Vec<u128> = Vec::new();
        let mut i: usize = 0;
        while i < s.files.len()
            invariant
                i <= s.files.len(),
                scores@.len() == i,
                forall|q: int| 0 <= q < i ==> scores@[q] == s.files@[q].hits@.len(),
            decreases s.files.len() - i,
        {
            scores.push(s.files[i].hits.len() as u128);
            i = i + 1;
        }
        let order = crate::select::top_positions(&scores, MAX_FILES_SUMMARY);
        assert forall|x: int, y: int| 0 <= x < s.files@.len() && 0 <= y < s.files@.len() implies
            #[trigger] crate::select::outranks(scores@, x, y) == more_hits(s.files@, x, y) by {}
        assert forall|i: int, j: int| 0 <= i < j < order@.len() implies more_hits(s.files@, order@[i] as int, order@[j] as int) by {
            assert(crate::select::outranks(scores@, order@[i] as int, order@[j] as int));
        }
        assert forall|i: int, y: int|
            0 <= i < order@.len() && 0 <= y < s.files@.len() && !order@.contains(y as usize) implies #[trigger] more_hits(s.files@, order@[i] as int, y) by {
            assert(crate::select::outranks(scores@, order@[i] as int, y));
        }
        assert(summary_order(s.files@, order@));
        let ghost want = summary_lines(*s, order@, query@, count_only);
        let mut h: Vec<char> = Vec::new();
        push_decimal(&mut h, s.total_hits as u64);
        push_str(&mut h, " coincidencias en ");
        push_decimal(&mut h, s.files.len() as u64);
        push_str(&mut h, " archivo(s) para '");
        push_str(&mut h, query);
        push_str(&mut h, "'");
        if count_only {
            push_str(&mut h, " — conteo por archivo:");
        } else {
            push_str(&mut h, " — demasiadas para listarlas, aquí el conteo:");
        }
        assert(h@ =~= summary_header(*s, query@, count_only));
        out.push(h);
        assert(views(out@) =~= want.subrange(0, 1));
        let mut k: usize = 0;
        while k < order.len()
            invariant
                k <= order.len(),
                want == summary_lines(*s, order@, query@, count_only),
                summary_order(s.files@, order@),
                views(out@) == want.subrange(0, k + 1),
            decreases order.len() - k,
        {
            let f = &s.files[order[k]];
            let mut line = slice_of_all(&f.path);
            push_str(&mut line, ": ");
            push_decimal(&mut line, f.hits.len() as u64);
            assert(line@ == count_line(s.files@[order@[k as int] as int]));
            assert(want[k + 1] == count_line(s.files@[order@[k as int] as int]));
            let ghost before = views(out@);
            out.push(line);
            assert(views(out@) =~= before.push(line@));
            assert(want.subrange(0, k + 2) =~= want.subrange(0, k + 1).push(want[k + 1]));
            k = k + 1;
        }
        let ghost base = (order@.len() + 1) as int;
        if s.files.len() > order.len() {
            let mut more: Vec<char> = Vec::new();
            push_str(&mut more, "[+");
            push_decimal(&mut more, (s.files.len() - order.len()) as u64);
            push_str(&mut more, " archivos más]");
            assert(more@ == want[base]);
            let ghost before = views(out@);
            out.push(more);
            assert(views(out@) =~= before.push(more@));
            assert(want.subrange(0, base + 1) =~= want.subrange(0, base).push(want[base]));
        }
        let ghost at = views(out@).len() as int;
        assert(views(out@) == want.subrange(0, at));
        if !count_only {
            let mut hint: Vec<char> = Vec::new();
            push_str(&mut hint, "Acota con un `path` más específico o un patrón más preciso para ver las líneas.");
            let ghost before = views(out@);
            out.push(hint);
            assert(views(out@) =~= before.push(hint@));
            assert(want.subrange(0, at + 1) =~= want.subrange(0, at).push(want[at]));
        }
        assert(views(out@) =~= want);
        let text = join_chars(&out, 0, out.len(), "\n");
        assert(views(out@).subrange(0, out@.len() as int) =~= views(out@));
        let r = ToolResult::text_no_gain(string_of(&text), query);
        assert(summary_order(s.files@, order@) && r.text@ == join(summary_lines(*s, order@, query@, count_only), "\n"@));
        return r;
    }
    let mut h: Vec<char> = Vec::new();
    push_decimal(&mut h, s.total_hits as u64);
    push_str(&mut h, " coincidencia(s) en ");
    push_decimal(&mut h, s.files.len() as u64);
    push_str(&mut h, " archivo(s) para '");
    push_str(&mut h, query);
    push_str(&mut h, "'");
    assert(h@ =~= list_header(*s, query@));
    out.push(h);
    assert(views(out@) =~= seq![list_header(*s, query@)]);
    let mut k: usize = 0;
    assert(s.files@.subrange(0, 0) =~= Seq::<FileHits>::empty());
    while k < s.files.len()
        invariant
            k <= s.files.len(),
            views(out@) == seq![list_header(*s, query@)] + blocks(s.files@.subrange(0, k as int)),
        decreases s.files.len() - k,
    {
        push_block(&mut out, &s.files[k]);
        assert(s.files@.subrange(0, k + 1).drop_last() =~= s.files@.subrange(0, k as int));
        k = k + 1;
    }
    assert(s.files@.subrange(0, k as int) =~= s.files@);
    let text = join_chars(&out, 0, out.len(), "\n");
    assert(views(out@).subrange(0, out@.len() as int) =~= views(out@));
    ToolResult::text(string_of(&text), s.raw_chars, "grep -rn (mismas líneas, ruta repetida)", query)
}


/// Long results degrade to counts: for what a search of the walked files
/// `fs` for `pattern` finds, the answer lists the matching lines only when
/// counts were not asked for, at most 60 lines match and, written with each
/// path once, they take at most 4000 bytes; otherwise the answer is the
/// per-file count summary, claiming no savings, and never the listing.
pub proof fn long_results_degrade_to_counts(
    r: ToolResult,
    pattern: Seq<char>,
    path: Seq<char>,
    count_only: bool,
    fs: Seq<(Seq<char>, Seq<char>)>,
    s: GrepScan,
)
    requires
        scan_of(s, pattern, fs),
        grep_answer_of(r, pattern, path, count_only, s),
        total_hits_of(files_with_hits(pattern, fs)) > 0,
    ensures
        (count_only || total_hits_of(files_with_hits(pattern, fs)) > 60
            || lines_chars_of(files_with_hits(pattern, fs)) > 4000) ==> {
            &&& r.no_gain
            &&& r.vs@ == crate::tools::no_gain_label()
            &&& exists|order: Seq<usize>| #[trigger] summary_order(s.files@, order)
                && r.text@ == join(summary_lines(s, order, pattern, count_only), "\n"@)
        },
        !(count_only || total_hits_of(files_with_hits(pattern, fs)) > 60
            || lines_chars_of(files_with_hits(pattern, fs)) > 4000) ==> {
            &&& !r.no_gain
            &&& r.text@ == join(list_lines(s, pattern), "\n"@)
        },
{
}

/// `rtk_grep` for `query` over the files walked under `path`: an invalid
/// expression is an error that quotes it; otherwise the answer for what the
/// search found.
pub fn grep_answer(query: &str, path: &str, count_only: bool, files: &Vec<WalkedFile>) -> (r: Result<ToolResult, String>)
    requires
        grep_bound(walked_views(files@)) <= usize::MAX,
    ensures
        r is Ok <==> regex_valid(query@),
        r matches Ok(t) ==> exists|s: GrepScan|
            #[trigger] scan_of(s, query@, walked_views(files@)) && grep_answer_of(t, query@, path@, count_only, s),
        r matches Err(msg) ==> msg@ == invalid_pattern_prefix(query@) + regex_error_of(query@),
{
    match compile_regex(query) {
        Err(e) => {
            let mut msg: Vec<char> = Vec::new();
            push_str(&mut msg, "Patrón inválido '");
            push_str(&mut msg, query);
            push_str(&mut msg, "': ");
            let et = regex_error_text(&e);
            push_str(&mut msg, et.as_str());
            assert(msg@ =~= invalid_pattern_prefix(query@) + regex_error_of(query@));
            Err(string_of(&msg))
        },
        Ok(p) => {
            let scan = grep_scan(&p, files);
            let t = grep_report(query, path, count_only, &scan);
            Ok(t)
        },
    }
}


/// Whether the walked files are few and small enough for a search:
/// `grep_bound` of them fits in a `usize`.
pub fn walk_fits(files: &Vec<WalkedFile>) -> (r: bool)
    ensures
        r == (grep_bound(walked_views(files@)) <= usize::MAX),
{
    let ghost fv = walked_views(files@);
    let mut total: usize = 0;
    let mut i: usize = 0;
    assert(fv.take(0) =~= Seq::<(Seq<char>, Seq<char>)>::empty());
    while i < files.len()
        invariant
            i <= files.len(),
            fv == walked_views(files@),
            fv.len() == files.len(),
            total == grep_bound(fv.take(i as int)),
        decreases files.len() - i,
    {
        let ghost f = fv[i as int];
        proof {
            assert(fv.take(i + 1).drop_last() =~= fv.take(i as int));
            assert(fv.take(i + 1).last() == f);
        }
        let shown = stripped_dot_slash(&chars_of(files[i].path.as_str()));
        let plen = crate::text::byte_len_capped(&shown, usize::MAX);
        let ls = split_lines(&chars_of(files[i].content.as_str()));
        let ghost lv = views(ls@);
        let mut j: usize = 0;
        assert(lv.take(0) =~= Seq::<Seq<char>>::empty());
        while j < ls.len()
            invariant
                j <= ls.len(),
                i < files.len(),
                fv == walked_views(files@),
                fv.len() == files.len(),
                f == fv[i as int],
                lv == views(ls@),
                lv == lines(f.1),
                shown@ == strip_dot_slash(f.0),
                plen == if blen(shown@) < usize::MAX { blen(shown@) } else { usize::MAX as nat },
                total == grep_bound(fv.take(i as int)) + lines_bound(shown@, lv.take(j as int)),
            decreases ls.len() - j,
        {
            proof {
                assert(lv.take(j + 1).drop_last() =~= lv.take(j as int));
                assert(lv.take(j + 1).last() == lv[j as int]);
            }
            let t = truncated(&trimmed_end(&ls[j]), MAX_LINE_CHARS);
            assert(t@ == hit_text(lv[j as int]));
            let tlen = crate::text::byte_len_capped(&t, usize::MAX);
            if plen >= usize::MAX - total || tlen >= usize::MAX - total - plen || 8 > usize::MAX - total - plen - tlen {
                proof {
                    lemma_lines_bound_prefix(shown@, lv, j + 1);
                    lemma_grep_bound_prefix(fv, i + 1);
                    assert(fv.take(i + 1).drop_last() =~= fv.take(i as int));
                    assert(fv.take(i + 1).last() == f);
                    assert(lines_bound(shown@, lv.take(j + 1)) == lines_bound(shown@, lv.take(j as int)) + blen(shown@)
                        + blen(hit_text(lv[j as int])) + 8);
                    assert(grep_bound(fv.take(i + 1)) == grep_bound(fv.take(i as int)) + lines_bound(
                        strip_dot_slash(f.0),
                        lines(f.1),
                    ));
                    assert(total + blen(shown@) + blen(t@) + 8 > usize::MAX);
                }
                return false;
            }
            total = total + plen + tlen + 8;
            j = j + 1;
        }
        assert(lv.take(ls.len() as int) =~= lv);
        i = i + 1;
    }
    assert(fv.take(files.len() as int) =~= fv);
    true
}

} // verus!
