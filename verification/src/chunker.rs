//! Symbol extraction. Code is cut into meaningful units (functions, classes,
//! structs...) rather than fixed line windows, each with its exact line range,
//! so a lookup can feed an edit without rereading the file. Markdown is cut
//! into sections by ATX heading.

use vstd::prelude::*;
use vstd::utf8::encode_utf8;
use crate::text::{
    blen, byte_len, char_width, chars_of, decimal, is_lit, lemma_blen_concat, lemma_blen_push,
    lines, push_all, push_decimal, push_str, slice_of, split_lines, string_of, trim, trim_end,
    trim_start, trimmed, trimmed_end, trimmed_start, views, width_of,
};

verus! {

/// A symbol: its kind, name, one-line signature and 1-based line range.
#[derive(Debug, Clone)]
pub struct Symbol {
    pub kind: String,
    pub name: String,
    pub signature: String,
    /// 1-based, inclusive.
    pub start_line: usize,
    /// 1-based, inclusive.
    pub end_line: usize,
}

/// A symbol with its texts as character sequences.
pub struct SymbolView {
    pub kind: Seq<char>,
    pub name: Seq<char>,
    pub signature: Seq<char>,
    pub start_line: nat,
    pub end_line: nat,
}

pub open spec fn symbol_view(s: Symbol) -> SymbolView {
    SymbolView {
        kind: s.kind@,
        name: s.name@,
        signature: s.signature@,
        start_line: s.start_line as nat,
        end_line: s.end_line as nat,
    }
}

pub open spec fn symbol_views(v: Seq<Symbol>) -> Seq<SymbolView> {
    v.map_values(|s: Symbol| symbol_view(s))
}

/// Longest signature kept, in bytes (an ellipsis marks a cut).
pub const SIGNATURE_MAX_BYTES: usize = 200;

/// How many leading characters of `s` fit in `max` bytes, counting from `k`.
pub open spec fn fit_from(s: Seq<char>, max: nat, k: int) -> int
    decreases s.len() - k,
{
    if 0 <= k < s.len() && blen(s.subrange(0, k + 1)) <= max {
        fit_from(s, max, k + 1)
    } else {
        k
    }
}

/// `s` when its UTF-8 form has at most `max` bytes; otherwise its longest
/// prefix that fits in `max` bytes (never splitting a character) followed by
/// an ellipsis.
pub open spec fn cap_bytes(s: Seq<char>, max: nat) -> Seq<char> {
    if blen(s) <= max {
        s
    } else {
        s.subrange(0, fit_from(s, max, 0)).push('…')
    }
}

proof fn lemma_fit_from(s: Seq<char>, max: nat, k: int)
    requires
        0 <= k <= s.len(),
    ensures
        k <= fit_from(s, max, k) <= s.len(),
    decreases s.len() - k,
{
    if k < s.len() && blen(s.subrange(0, k + 1)) <= max {
        lemma_fit_from(s, max, k + 1);
    }
}

/// A prefix never takes more bytes than the whole.
pub proof fn lemma_blen_prefix(s: Seq<char>, k: int)
    requires
        0 <= k <= s.len(),
    ensures
        blen(s.subrange(0, k)) <= blen(s),
{
    assert(s =~= s.subrange(0, k) + s.subrange(k, s.len() as int));
    lemma_blen_concat(s.subrange(0, k), s.subrange(k, s.len() as int));
}

/// Caps a text at `max` bytes on a character boundary, with an ellipsis.
pub fn cap_chars(s: &Vec<char>, max: usize) -> (r: Vec<char>)
    ensures
        r@ == cap_bytes(s@, max as nat),
{
    let mut k: usize = 0;
    let mut used: usize = 0;
    assert(s@.subrange(0, 0) =~= Seq::<char>::empty());
    assert(encode_utf8(Seq::<char>::empty()) =~= Seq::<u8>::empty());
    while k < s.len() && width_of(s[k]) <= max - used
        invariant
            k <= s.len(),
            used == blen(s@.subrange(0, k as int)),
            used <= max,
            fit_from(s@, max as nat, 0) == fit_from(s@, max as nat, k as int),
        decreases s.len() - k,
    {
        proof {
            assert(s@.subrange(0, k + 1) =~= s@.subrange(0, k as int).push(s@[k as int]));
            lemma_blen_push(s@.subrange(0, k as int), s@[k as int]);
        }
        used = used + width_of(s[k]);
        k = k + 1;
    }
    if k >= s.len() {
        assert(s@.subrange(0, k as int) =~= s@);
        return slice_of(s, 0, s.len());
    }
    proof {
        assert(s@.subrange(0, k + 1) =~= s@.subrange(0, k as int).push(s@[k as int]));
        lemma_blen_push(s@.subrange(0, k as int), s@[k as int]);
        lemma_blen_prefix(s@, k + 1);
    }
    let mut r = slice_of(s, 0, k);
    r.push('…');
    r
}

/// Markdown file extensions.
pub open spec fn is_markdown_ext(ext: Seq<char>) -> bool {
    ext == "md"@ || ext == "markdown"@ || ext == "mdx"@
}

/// Whether an extension is Markdown.
pub fn is_markdown(ext: &str) -> (r: bool)
    ensures
        r == is_markdown_ext(ext@),
{
    let e = chars_of(ext);
    is_lit(&e, "md") || is_lit(&e, "markdown") || is_lit(&e, "mdx")
}

/// A markdown heading: its 0-based line, its level (1 to 6) and its text.
pub struct HeadingView {
    pub line0: nat,
    pub level: nat,
    pub text: Seq<char>,
}

/// Number of leading `#` of `t`.
pub open spec fn hash_run(t: Seq<char>) -> nat
    decreases t.len(),
{
    if t.len() > 0 && t[0] == '#' {
        1 + hash_run(t.drop_first())
    } else {
        0
    }
}

/// Whether a (left-trimmed) line opens or closes a code fence.
pub open spec fn is_fence(t: Seq<char>) -> bool {
    (t.len() >= 3 && t.subrange(0, 3) == "```"@) || (t.len() >= 3 && t.subrange(0, 3) == "~~~"@)
}

/// `t` without its trailing `#` characters.
pub open spec fn strip_trailing_hashes(t: Seq<char>) -> Seq<char>
    decreases t.len(),
{
    if t.len() > 0 && t.last() == '#' {
        strip_trailing_hashes(t.drop_last())
    } else {
        t
    }
}

/// The heading a (left-trimmed) line declares, if any: one to six `#`
/// followed by nothing or a space, with a non-empty title once trimmed and
/// rid of closing `#`s.
pub open spec fn heading_of(t: Seq<char>) -> Option<(nat, Seq<char>)> {
    let h = hash_run(t);
    if 1 <= h <= 6 && h <= t.len() {
        let rest = t.subrange(h as int, t.len() as int);
        if rest.len() == 0 || rest[0] == ' ' {
            let text = trim(strip_trailing_hashes(trim(rest)));
            if text.len() > 0 {
                Some((h, text))
            } else {
                None
            }
        } else {
            None
        }
    } else {
        None
    }
}

/// The headings of `ls` from line `i` on, given whether line `i` starts
/// inside a fenced code block; headings inside fences do not count.
pub open spec fn headings_from(ls: Seq<Seq<char>>, i: int, in_fence: bool) -> Seq<HeadingView>
    decreases ls.len() - i,
{
    if i < 0 || i >= ls.len() {
        Seq::empty()
    } else {
        let t = trim_start(ls[i]);
        if is_fence(t) {
            headings_from(ls, i + 1, !in_fence)
        } else if in_fence {
            headings_from(ls, i + 1, in_fence)
        } else {
            match heading_of(t) {
                Some((h, text)) => seq![HeadingView { line0: i as nat, level: h, text }]
                    + headings_from(ls, i + 1, in_fence),
                None => headings_from(ls, i + 1, in_fence),
            }
        }
    }
}

/// Where the section of heading `idx` ends (1-based, inclusive): just before
/// the next heading of the same or a higher level, or at the last line.
pub open spec fn section_end_from(hs: Seq<HeadingView>, idx: int, k: int, total: nat) -> nat
    decreases hs.len() - k,
{
    if k < 0 || k >= hs.len() {
        total
    } else if hs[k].level <= hs[idx].level {
        hs[k].line0
    } else {
        section_end_from(hs, idx, k + 1, total)
    }
}

/// `n` hash signs.
pub open spec fn hashes(n: nat) -> Seq<char> {
    Seq::new(n, |i: int| '#')
}

/// The symbol of a heading: kind `h<level>`, the title as its name, the
/// heading line as its signature, and its section as the line range.
pub open spec fn heading_symbol(hs: Seq<HeadingView>, idx: int, total: nat) -> SymbolView {
    let h = hs[idx];
    let start = h.line0 + 1;
    let end = section_end_from(hs, idx, idx + 1, total);
    SymbolView {
        kind: "h"@ + decimal(h.level),
        name: h.text,
        signature: cap_bytes(hashes(h.level) + " "@ + h.text, SIGNATURE_MAX_BYTES as nat),
        start_line: start,
        end_line: if end < start { start } else { end },
    }
}

/// The sections of a markdown document, one per heading, in order.
pub open spec fn markdown_symbols(source: Seq<char>) -> Seq<SymbolView> {
    let ls = lines(source);
    let hs = headings_from(ls, 0, false);
    Seq::new(hs.len(), |idx: int| heading_symbol(hs, idx, ls.len()))
}


/// A heading found while scanning a document.
pub struct Heading {
    pub line0: usize,
    pub level: usize,
    pub text: Vec<char>,
}

pub open spec fn heading_view(h: Heading) -> HeadingView {
    HeadingView { line0: h.line0 as nat, level: h.level as nat, text: h.text@ }
}

pub open spec fn heading_views(v: Seq<Heading>) -> Seq<HeadingView> {
    v.map_values(|h: Heading| heading_view(h))
}

proof fn lemma_hash_run(t: Seq<char>, k: int)
    requires
        0 <= k <= t.len(),
        forall|j: int| 0 <= j < k ==> t[j] == '#',
        k == t.len() || t[k] != '#',
    ensures
        hash_run(t) == k,
    decreases k,
{
    if k > 0 {
        assert forall|j: int| 0 <= j < k - 1 implies t.drop_first()[j] == '#' by {
            assert(t.drop_first()[j] == t[j + 1]);
        }
        if k - 1 < t.drop_first().len() {
            assert(t.drop_first()[k - 1] == t[k]);
        }
        lemma_hash_run(t.drop_first(), k - 1);
    }
}

proof fn lemma_strip_hashes(t: Seq<char>, k: int)
    requires
        0 <= k <= t.len(),
        forall|j: int| k <= j < t.len() ==> t[j] == '#',
        k == 0 || t[k - 1] != '#',
    ensures
        strip_trailing_hashes(t) == t.subrange(0, k),
    decreases t.len() - k,
{
    if k < t.len() {
        assert forall|j: int| k <= j < t.drop_last().len() implies t.drop_last()[j] == '#' by {
            assert(t.drop_last()[j] == t[j]);
        }
        if k > 0 {
            assert(t.drop_last()[k - 1] == t[k - 1]);
        }
        lemma_strip_hashes(t.drop_last(), k);
        assert(t.drop_last().subrange(0, k) =~= t.subrange(0, k));
    } else {
        assert(t.subrange(0, k) =~= t);
    }
}

/// `t` without its trailing `#`s.
fn stripped_hashes(t: &Vec<char>) -> (r: Vec<char>)
    ensures
        r@ == strip_trailing_hashes(t@),
{
    let mut k: usize = t.len();
    while k > 0 && t[k - 1] == '#'
        invariant
            k <= t.len(),
            forall|j: int| k <= j < t.len() ==> t@[j] == '#',
        decreases k,
    {
        k = k - 1;
    }
    proof {
        lemma_strip_hashes(t@, k as int);
    }
    slice_of(t, 0, k)
}

/// Whether a left-trimmed line is a fence.
fn fence(t: &Vec<char>) -> (r: bool)
    ensures
        r == is_fence(t@),
{
    if t.len() < 3 {
        return false;
    }
    let head = slice_of(t, 0, 3);
    is_lit(&head, "```") || is_lit(&head, "~~~")
}

/// The heading a left-trimmed line declares, if any.
fn heading_in(t: &Vec<char>) -> (r: Option<(usize, Vec<char>)>)
    ensures
        match r {
            Some((h, text)) => heading_of(t@) == Some((h as nat, text@)),
            None => heading_of(t@) is None,
        },
{
    let mut h: usize = 0;
    while h < t.len() && t[h] == '#'
        invariant
            h <= t.len(),
            forall|j: int| 0 <= j < h ==> t@[j] == '#',
        decreases t.len() - h,
    {
        h = h + 1;
    }
    proof {
        lemma_hash_run(t@, h as int);
    }
    if h < 1 || h > 6 {
        return None;
    }
    let rest = slice_of(t, h, t.len());
    if !(rest.len() == 0 || rest[0] == ' ') {
        return None;
    }
    let a = trimmed(&rest);
    let b = stripped_hashes(&a);
    let text = trimmed(&b);
    if text.len() > 0 {
        Some((h, text))
    } else {
        None
    }
}

/// The headings of a document, skipping fenced code.
fn collect_headings(ls: &Vec<Vec<char>>) -> (r: Vec<Heading>)
    ensures
        heading_views(r@) == headings_from(views(ls@), 0, false),
        forall|k: int| 0 <= k < r@.len() ==> (#[trigger] r@[k]).line0 < ls@.len() && 1 <= r@[k].level <= 6,
        forall|a: int, b: int| 0 <= a < b < r@.len() ==> r@[a].line0 < r@[b].line0,
{
    let ghost lv = views(ls@);
    let mut heads: Vec<Heading> = Vec::new();
    let mut in_fence = false;
    let mut i: usize = 0;
    while i < ls.len()
        invariant
            i <= ls.len(),
            lv == views(ls@),
            heading_views(heads@) + headings_from(lv, i as int, in_fence) == headings_from(lv, 0, false),
            forall|k: int| 0 <= k < heads@.len() ==> (#[trigger] heads@[k]).line0 < i && 1 <= heads@[k].level <= 6,
            forall|a: int, b: int| 0 <= a < b < heads@.len() ==> heads@[a].line0 < heads@[b].line0,
        decreases ls.len() - i,
    {
        let t = trimmed_start(&ls[i]);
        assert(ls@[i as int]@ == lv[i as int]);
        let ghost before = heading_views(heads@);
        if fence(&t) {
            in_fence = !in_fence;
        } else if !in_fence {
            match heading_in(&t) {
                Some((h, text)) => {
                    let hd = Heading { line0: i, level: h, text };
                    proof {
                        assert(heading_view(hd) == HeadingView { line0: i as nat, level: h as nat, text: text@ });
                    }
                    heads.push(hd);
                    proof {
                        assert(heading_views(heads@) =~= before.push(heading_view(hd)));
                        assert(headings_from(lv, i as int, in_fence) == seq![heading_view(hd)] + headings_from(lv, i + 1, in_fence));
                        assert(heading_views(heads@) + headings_from(lv, i + 1, in_fence) =~= before + headings_from(lv, i as int, in_fence));
                    }
                },
                None => {},
            }
        }
        i = i + 1;
    }
    heads
}

/// The sections of a markdown document (OpenSpec/Spec Kit specs, docs,
/// READMEs): one symbol per heading outside fenced code, its section ending
/// right before the next heading of the same or a higher level.
pub fn parse_markdown(source: &str) -> (r: Vec<Symbol>)
    ensures
        symbol_views(r@) == markdown_symbols(source@),
{
    let text = chars_of(source);
    let ls = split_lines(&text);
    let heads = collect_headings(&ls);
    let ghost lv = views(ls@);
    let ghost hv = heading_views(heads@);
    let total = ls.len();
    let mut out: Vec<Symbol> = Vec::new();
    let mut idx: usize = 0;
    while idx < heads.len()
        invariant
            idx <= heads.len(),
            total == ls.len(),
            lv == views(ls@),
            lv == lines(source@),
            hv == heading_views(heads@),
            hv == headings_from(lv, 0, false),
            forall|k: int| 0 <= k < heads@.len() ==> (#[trigger] heads@[k]).line0 < ls@.len() && 1 <= heads@[k].level <= 6,
            out@.len() == idx,
            forall|k: int| 0 <= k < idx ==> symbol_view(#[trigger] out@[k]) == heading_symbol(hv, k, total as nat),
        decreases heads.len() - idx,
    {
        let h = &heads[idx];
        let mut end: usize = total;
        let mut k: usize = idx + 1;
        let mut found = false;
        while k < heads.len() && !found
            invariant
                idx < k <= heads.len(),
                hv == heading_views(heads@),
                !found ==> section_end_from(hv, idx as int, idx + 1, total as nat) == section_end_from(hv, idx as int, k as int, total as nat),
                found ==> section_end_from(hv, idx as int, idx + 1, total as nat) == end,
                !found ==> end == total,
            decreases heads.len() - k + if found { 0int } else { 1int },
        {
            if heads[k].level <= heads[idx].level {
                end = heads[k].line0;
                found = true;
            } else {
                k = k + 1;
            }
        }
        let start: usize = h.line0 + 1;
        if end < start {
            end = start;
        }
        let mut kind: Vec<char> = Vec::new();
        push_str(&mut kind, "h");
        push_decimal(&mut kind, h.level as u64);
        let mut sig: Vec<char> = Vec::new();
        let mut q: usize = 0;
        while q < h.level
            invariant
                q <= h.level,
                sig@ == hashes(q as nat),
            decreases h.level - q,
        {
            sig.push('#');
            q = q + 1;
            assert(sig@ =~= hashes(q as nat));
        }
        push_str(&mut sig, " ");
        push_all(&mut sig, &h.text);
        let signature = cap_chars(&sig, SIGNATURE_MAX_BYTES);
        let sym = Symbol {
            kind: string_of(&kind),
            name: string_of(&h.text),
            signature: string_of(&signature),
            start_line: start,
            end_line: end,
        };
        proof {
            assert(hv[idx as int] == heading_view(heads@[idx as int]));
            assert(kind@ =~= "h"@ + decimal(h.level as nat));
            assert(symbol_view(sym) == heading_symbol(hv, idx as int, total as nat));
        }
        out.push(sym);
        idx = idx + 1;
    }
    assert(symbol_views(out@) =~= markdown_symbols(source@));
    out
}


/// The headings found from line `i` on lie on lines `i..ls.len()`, in
/// strictly increasing order.
proof fn lemma_headings_in_order(ls: Seq<Seq<char>>, i: int, in_fence: bool)
    requires
        0 <= i,
    ensures
        forall|j: int| 0 <= j < headings_from(ls, i, in_fence).len()
            ==> i <= #[trigger] headings_from(ls, i, in_fence)[j].line0 < ls.len(),
        forall|j: int, k: int| 0 <= j < k < headings_from(ls, i, in_fence).len()
            ==> headings_from(ls, i, in_fence)[j].line0 < headings_from(ls, i, in_fence)[k].line0,
    decreases ls.len() - i,
{
    if i < ls.len() {
        let t = trim_start(ls[i]);
        if is_fence(t) {
            lemma_headings_in_order(ls, i + 1, !in_fence);
            assert(headings_from(ls, i, in_fence) == headings_from(ls, i + 1, !in_fence));
        } else {
            lemma_headings_in_order(ls, i + 1, in_fence);
            if in_fence {
                assert(headings_from(ls, i, in_fence) == headings_from(ls, i + 1, in_fence));
            } else {
                match heading_of(t) {
                    Some((h, text)) => {
                        let rest = headings_from(ls, i + 1, in_fence);
                        let hs = headings_from(ls, i, in_fence);
                        assert(hs == seq![HeadingView { line0: i as nat, level: h, text }] + rest);
                        assert forall|j: int| 0 <= j < hs.len() implies i <= #[trigger] hs[j].line0 < ls.len() by {
                            if j > 0 {
                                assert(hs[j] == rest[j - 1]);
                            }
                        }
                        assert forall|j: int, k: int| 0 <= j < k < hs.len() implies hs[j].line0 < hs[k].line0 by {
                            assert(hs[k] == rest[k - 1]);
                            if j > 0 {
                                assert(hs[j] == rest[j - 1]);
                            }
                        }
                    },
                    None => {
                        assert(headings_from(ls, i, in_fence) == headings_from(ls, i + 1, in_fence));
                    },
                }
            }
        }
    }
}

/// What heading orders a section end relies on: lines strictly increasing
/// and all before the end.
pub open spec fn headings_ordered(hs: Seq<HeadingView>, total: nat) -> bool {
    &&& forall|j: int| 0 <= j < hs.len() ==> (#[trigger] hs[j]).line0 < total
    &&& forall|j: int, m: int| 0 <= j < m < hs.len() ==> hs[j].line0 < hs[m].line0
}

/// A section never runs past a later heading of the same or a higher level.
proof fn lemma_end_upper(hs: Seq<HeadingView>, idx: int, k: int, total: nat, m: int)
    requires
        0 <= idx < hs.len(),
        0 <= k <= m < hs.len(),
        hs[m].level <= hs[idx].level,
        headings_ordered(hs, total),
    ensures
        section_end_from(hs, idx, k, total) <= hs[m].line0,
    decreases m - k,
{
    if hs[k].level > hs[idx].level {
        lemma_end_upper(hs, idx, k + 1, total, m);
    } else if k < m {
        assert(hs[k].line0 < hs[m].line0);
    }
}

/// Seen from heading `k`, a section ends after the line of heading `k - 1`.
proof fn lemma_end_after(hs: Seq<HeadingView>, idx: int, k: int, total: nat)
    requires
        0 <= idx < hs.len(),
        1 <= k <= hs.len(),
        headings_ordered(hs, total),
    ensures
        section_end_from(hs, idx, k, total) > hs[k - 1].line0,
    decreases hs.len() - k,
{
    if k < hs.len() {
        assert(hs[k - 1].line0 < hs[k].line0);
        if hs[k].level > hs[idx].level {
            lemma_end_after(hs, idx, k + 1, total);
        }
    }
}

/// A section runs past every deeper heading before the first one of its
/// level or higher.
proof fn lemma_end_lower(hs: Seq<HeadingView>, idx: int, k: int, total: nat, m: int)
    requires
        0 <= idx < hs.len(),
        0 <= k <= m < hs.len(),
        forall|j: int| k <= j <= m ==> (#[trigger] hs[j]).level > hs[idx].level,
        headings_ordered(hs, total),
    ensures
        section_end_from(hs, idx, k, total) > hs[m].line0,
    decreases m - k,
{
    assert(hs[k].level > hs[idx].level);
    if k < m {
        lemma_end_lower(hs, idx, k + 1, total, m);
    } else {
        lemma_end_after(hs, idx, k + 1, total);
    }
}

/// With only deeper headings left, a section runs to the end.
proof fn lemma_end_total(hs: Seq<HeadingView>, idx: int, k: int, total: nat)
    requires
        0 <= idx < hs.len(),
        0 <= k,
        forall|j: int| k <= j < hs.len() ==> (#[trigger] hs[j]).level > hs[idx].level,
    ensures
        section_end_from(hs, idx, k, total) == total,
    decreases hs.len() - k,
{
    if k < hs.len() {
        assert(hs[k].level > hs[idx].level);
        lemma_end_total(hs, idx, k + 1, total);
    }
}

/// Markdown sections as the original draws them: one per heading outside
/// fenced code, in order, starting at the heading's line; a section ends
/// before the first later heading of the same or a higher level (`#` is
/// higher than `##`) and never runs into one, takes in every deeper heading
/// before it, and runs to the last line when no such heading follows.
pub proof fn sections_end_before_the_next_heading_of_their_rank(source: Seq<char>)
    ensures
        ({
            let ls = lines(source);
            let hs = headings_from(ls, 0, false);
            let r = markdown_symbols(source);
            &&& r.len() == hs.len()
            &&& forall|idx: int| 0 <= idx < r.len() ==> (#[trigger] r[idx]).start_line == hs[idx].line0 + 1
                && r[idx].name == hs[idx].text
            &&& forall|idx: int, k: int| 0 <= idx < k < hs.len() && hs[k].level <= hs[idx].level
                ==> (#[trigger] r[idx]).end_line < (#[trigger] hs[k]).line0 + 1
            &&& forall|idx: int, k: int| 0 <= idx < k < hs.len()
                && (forall|j: int| idx < j <= k ==> (#[trigger] hs[j]).level > hs[idx].level)
                ==> (#[trigger] r[idx]).end_line >= (#[trigger] hs[k]).line0 + 1
            &&& forall|idx: int| 0 <= idx < r.len() && (forall|j: int| idx < j < hs.len() ==> (#[trigger] hs[j]).level > hs[idx].level)
                ==> (#[trigger] r[idx]).end_line == ls.len()
        }),
{
    let ls = lines(source);
    let hs = headings_from(ls, 0, false);
    let r = markdown_symbols(source);
    let total = ls.len();
    lemma_headings_in_order(ls, 0, false);
    assert(headings_ordered(hs, total));
    assert forall|idx: int, k: int| 0 <= idx < k < hs.len() && hs[k].level <= hs[idx].level
        implies (#[trigger] r[idx]).end_line < (#[trigger] hs[k]).line0 + 1 by {
        assert(r[idx] == heading_symbol(hs, idx, total));
        lemma_end_upper(hs, idx, idx + 1, total, k);
        assert(hs[idx].line0 < hs[k].line0);
    }
    assert forall|idx: int, k: int| 0 <= idx < k < hs.len()
        && (forall|j: int| idx < j <= k ==> (#[trigger] hs[j]).level > hs[idx].level)
        implies (#[trigger] r[idx]).end_line >= (#[trigger] hs[k]).line0 + 1 by {
        assert(r[idx] == heading_symbol(hs, idx, total));
        assert forall|j: int| idx + 1 <= j <= k implies (#[trigger] hs[j]).level > hs[idx].level by {
            assert(idx < j <= k);
        }
        lemma_end_lower(hs, idx, idx + 1, total, k);
    }
    assert forall|idx: int| 0 <= idx < r.len() && (forall|j: int| idx < j < hs.len() ==> (#[trigger] hs[j]).level > hs[idx].level)
        implies (#[trigger] r[idx]).end_line == ls.len() by {
        assert(r[idx] == heading_symbol(hs, idx, total));
        assert forall|j: int| idx + 1 <= j < hs.len() implies (#[trigger] hs[j]).level > hs[idx].level by {
            assert(idx < j < hs.len());
        }
        lemma_end_total(hs, idx, idx + 1, total);
    }
}

/// Languages with a syntax grammar.
#[derive(Debug, Clone, Copy, PartialEq, Eq)]
pub enum Lang {
    Rust,
    TypeScript,
    /// TSX grammar, also used for JavaScript.
    Tsx,
    Python,
}

/// The grammar for a file extension.
pub open spec fn lang_of(ext: Seq<char>) -> Option<Lang> {
    if ext == "rs"@ {
        Some(Lang::Rust)
    } else if ext == "ts"@ {
        Some(Lang::TypeScript)
    } else if ext == "tsx"@ || ext == "js"@ || ext == "jsx"@ || ext == "mjs"@ || ext == "cjs"@ {
        Some(Lang::Tsx)
    } else if ext == "py"@ || ext == "pyi"@ {
        Some(Lang::Python)
    } else {
        None
    }
}

/// The grammar for a file extension.
pub fn language_for(ext: &str) -> (r: Option<Lang>)
    ensures
        r == lang_of(ext@),
{
    let e = chars_of(ext);
    if is_lit(&e, "rs") {
        Some(Lang::Rust)
    } else if is_lit(&e, "ts") {
        Some(Lang::TypeScript)
    } else if is_lit(&e, "tsx") || is_lit(&e, "js") || is_lit(&e, "jsx") || is_lit(&e, "mjs")
        || is_lit(&e, "cjs") {
        Some(Lang::Tsx)
    } else if is_lit(&e, "py") || is_lit(&e, "pyi") {
        Some(Lang::Python)
    } else {
        None
    }
}

/// Whether files with this extension are indexed (markdown or a grammar).
pub fn is_supported(ext: &str) -> (r: bool)
    ensures
        r == (is_markdown_ext(ext@) || lang_of(ext@) is Some),
{
    is_markdown(ext) || language_for(ext).is_some()
}

/// The syntax node kinds that count as symbols in each language. Nodes
/// without a `name` field (a Rust `impl` block) are skipped, but their
/// children are still visited.
pub open spec fn symbol_kinds(lang: Lang) -> Seq<Seq<char>> {
    match lang {
        Lang::Rust => seq![
            "function_item"@, "struct_item"@, "enum_item"@, "trait_item"@, "mod_item"@,
            "const_item"@, "static_item"@, "type_item"@, "macro_definition"@,
        ],
        Lang::TypeScript | Lang::Tsx => seq![
            "function_declaration"@, "method_definition"@, "class_declaration"@,
            "abstract_class_declaration"@, "interface_declaration"@, "type_alias_declaration"@,
            "enum_declaration"@, "public_field_definition"@,
        ],
        Lang::Python => seq!["function_definition"@, "class_definition"@],
    }
}

/// Whether a node kind counts as a symbol.
pub fn is_symbol_kind(lang: Lang, kind: &Vec<char>) -> (r: bool)
    ensures
        r == symbol_kinds(lang).contains(kind@),
{
    let r = match lang {
        Lang::Rust => is_lit(kind, "function_item") || is_lit(kind, "struct_item") || is_lit(
            kind,
            "enum_item",
        ) || is_lit(kind, "trait_item") || is_lit(kind, "mod_item") || is_lit(kind, "const_item")
            || is_lit(kind, "static_item") || is_lit(kind, "type_item") || is_lit(
            kind,
            "macro_definition",
        ),
        Lang::TypeScript | Lang::Tsx => is_lit(kind, "function_declaration") || is_lit(
            kind,
            "method_definition",
        ) || is_lit(kind, "class_declaration") || is_lit(kind, "abstract_class_declaration")
            || is_lit(kind, "interface_declaration") || is_lit(kind, "type_alias_declaration")
            || is_lit(kind, "enum_declaration") || is_lit(kind, "public_field_definition"),
        Lang::Python => is_lit(kind, "function_definition") || is_lit(kind, "class_definition"),
    };
    proof {
        let ks = symbol_kinds(lang);
        if r {
            assert(ks.contains(kind@)) by {
                let i = choose|i: int| 0 <= i < ks.len() && ks[i] == kind@;
            }
        } else {
            assert(!ks.contains(kind@)) by {
                if ks.contains(kind@) {
                    let i = choose|i: int| 0 <= i < ks.len() && ks[i] == kind@;
                }
            }
        }
    }
    r
}

/// One node of a syntax tree, in plain values: its kind, the text of its
/// `name` field (if it has one and it is valid UTF-8), its own text and its
/// 0-based first and last rows.
#[derive(Debug, Clone)]
pub struct SyntaxNode {
    pub kind: String,
    pub name: Option<String>,
    pub text: Option<String>,
    pub start_row: usize,
    pub end_row: usize,
}

/// A syntax node with texts as character sequences.
pub struct SyntaxNodeView {
    pub kind: Seq<char>,
    pub name: Option<Seq<char>>,
    pub text: Option<Seq<char>>,
    pub start_row: nat,
    pub end_row: nat,
}

pub open spec fn node_view(n: SyntaxNode) -> SyntaxNodeView {
    SyntaxNodeView {
        kind: n.kind@,
        name: crate::gain::opt_string_view(n.name),
        text: crate::gain::opt_string_view(n.text),
        start_row: n.start_row as nat,
        end_row: n.end_row as nat,
    }
}

pub open spec fn node_views(v: Seq<SyntaxNode>) -> Seq<SyntaxNodeView> {
    v.map_values(|n: SyntaxNode| node_view(n))
}

/// Whether tree-sitter yields a tree for `source` with the grammar of `lang`
/// (`Parser::set_language` then `Parser::parse`).
pub uninterp spec fn tree_sitter_parses(lang: Lang, source: Seq<char>) -> bool;

/// The nodes of the tree tree-sitter builds for `source` with the grammar of
/// `lang`, in depth-first pre-order (the order of `TreeCursor` descendant
/// indices, the root first).
pub uninterp spec fn tree_sitter_nodes(lang: Lang, source: Seq<char>) -> Seq<SyntaxNodeView>;

/// tree-sitter's syntax tree, declared so that a parsed source can hold
/// one; its contents are opaque to the proofs.
#[verifier::external_type_specification]
#[verifier::external_body]
pub struct ExTree(tree_sitter::Tree);

/// A source text together with the tree tree-sitter built from it; only
/// `parse_tree` makes one, so the tree always belongs to the text.
pub struct ParsedSource {
    lang: Lang,
    source: String,
    tree: tree_sitter::Tree,
}

/// Trusted: `Parser::new`, `Parser::set_language` with the grammar of `lang`
/// (tree-sitter-rust, -typescript's TypeScript and TSX, -python) and
/// `Parser::parse`. The claim: a tree comes back exactly when tree-sitter
/// parses this text with that grammar, and it is kept with its text.
#[verifier::external_body]
fn parse_tree(lang: Lang, source: &str) -> (r: Option<ParsedSource>)
    ensures
        r is Some == tree_sitter_parses(lang, source@),
        r matches Some(p) ==> p.lang == lang && p.source@ == source@,
{
    let grammar: tree_sitter::Language = match lang {
        Lang::Rust => tree_sitter_rust::LANGUAGE.into(),
        Lang::TypeScript => tree_sitter_typescript::LANGUAGE_TYPESCRIPT.into(),
        Lang::Tsx => tree_sitter_typescript::LANGUAGE_TSX.into(),
        Lang::Python => tree_sitter_python::LANGUAGE.into(),
    };
    let mut parser = tree_sitter::Parser::new();
    parser.set_language(&grammar).ok()?;
    let tree = parser.parse(source, None)?;
    Some(ParsedSource { lang, source: source.to_string(), tree })
}

/// Trusted: `Node::descendant_count` of the tree's root. The claim: the
/// number of nodes of the tree.
#[verifier::external_body]
fn node_count(p: &ParsedSource) -> (r: usize)
    ensures
        r == tree_sitter_nodes(p.lang, p.source@).len(),
{
    p.tree.root_node().descendant_count()
}

/// Trusted: a `TreeCursor` on the root moved with `goto_descendant(i)`, and
/// the node there converted field by field (`kind`,
/// `child_by_field_name("name")` and `utf8_text`, `start_position().row`,
/// `end_position().row`). The claim: it is the `i`-th node in pre-order; a
/// row counts lines of a text held in memory, so it stays below `usize::MAX`.
#[verifier::external_body]
fn node_at(p: &ParsedSource, i: usize) -> (r: SyntaxNode)
    requires
        i < tree_sitter_nodes(p.lang, p.source@).len(),
    ensures
        node_view(r) == tree_sitter_nodes(p.lang, p.source@)[i as int],
        r.start_row < usize::MAX && r.end_row < usize::MAX,
{
    let src = p.source.as_bytes();
    let mut cursor = p.tree.root_node().walk();
    cursor.goto_descendant(i);
    let n = cursor.node();
    let name = match n.child_by_field_name("name") {
        Some(c) => c.utf8_text(src).ok().map(String::from),
        None => None,
    };
    let text = n.utf8_text(src).ok().map(String::from);
    SyntaxNode { kind: n.kind().to_string(), name, text, start_row: n.start_position().row, end_row: n.end_position().row }
}

/// The nodes of a parsed source, in pre-order.
fn syntax_nodes(p: &ParsedSource) -> (r: Vec<SyntaxNode>)
    ensures
        node_views(r@) == tree_sitter_nodes(p.lang, p.source@),
        forall|i: int| 0 <= i < r@.len() ==> (#[trigger] r@[i]).start_row < usize::MAX && r@[i].end_row < usize::MAX,
{
    let ghost all = tree_sitter_nodes(p.lang, p.source@);
    let n = node_count(p);
    let mut out: Vec<SyntaxNode> = Vec::new();
    let mut i: usize = 0;
    while i < n
        invariant
            i <= n,
            n == all.len(),
            all == tree_sitter_nodes(p.lang, p.source@),
            node_views(out@) == all.subrange(0, i as int),
            forall|j: int| 0 <= j < out@.len() ==> (#[trigger] out@[j]).start_row < usize::MAX && out@[j].end_row < usize::MAX,
        decreases n - i,
    {
        let node = node_at(p, i);
        let ghost before = out@;
        out.push(node);
        assert(node_views(out@) =~= node_views(before).push(node_view(node)));
        assert(all.subrange(0, i + 1) =~= all.subrange(0, i as int).push(all[i as int]));
        i = i + 1;
    }
    assert(all.subrange(0, n as int) =~= all);
    out
}

/// The first line of a text (empty for an empty text).
pub open spec fn first_line(t: Seq<char>) -> Seq<char> {
    if lines(t).len() > 0 {
        lines(t)[0]
    } else {
        Seq::empty()
    }
}

/// The symbol a syntax node stands for: it needs a name and a text; the
/// signature is the trimmed first line of the text, capped at 200 bytes;
/// lines are 1-based.
pub open spec fn node_symbol(n: SyntaxNodeView) -> Option<SymbolView> {
    match (n.name, n.text) {
        (Some(name), Some(full)) => Some(
            SymbolView {
                kind: n.kind,
                name,
                signature: cap_bytes(trim(first_line(full)), SIGNATURE_MAX_BYTES as nat),
                start_line: n.start_row + 1,
                end_line: n.end_row + 1,
            },
        ),
        _ => None,
    }
}

/// The symbols among the first `k` nodes, in order.
pub open spec fn code_symbols(lang: Lang, nodes: Seq<SyntaxNodeView>, k: int) -> Seq<SymbolView>
    decreases k,
{
    if k <= 0 || k > nodes.len() {
        Seq::empty()
    } else {
        let prev = code_symbols(lang, nodes, k - 1);
        let n = nodes[k - 1];
        if symbol_kinds(lang).contains(n.kind) && node_symbol(n) is Some {
            prev.push(node_symbol(n)->0)
        } else {
            prev
        }
    }
}

/// Every named node among the first `k` with a symbol kind gives its
/// symbol, and every symbol comes from such a node.
proof fn lemma_code_symbols(lang: Lang, nodes: Seq<SyntaxNodeView>, k: int)
    requires
        0 <= k <= nodes.len(),
    ensures
        forall|i: int| 0 <= i < k && symbol_kinds(lang).contains(nodes[i].kind) && (#[trigger] node_symbol(nodes[i])) is Some
            ==> code_symbols(lang, nodes, k).contains(node_symbol(nodes[i])->0),
        forall|j: int| 0 <= j < code_symbols(lang, nodes, k).len()
            ==> symbol_kinds(lang).contains(#[trigger] code_symbols(lang, nodes, k)[j].kind),
    decreases k,
{
    if k > 0 {
        lemma_code_symbols(lang, nodes, k - 1);
        let prev = code_symbols(lang, nodes, k - 1);
        let cur = code_symbols(lang, nodes, k);
        assert forall|i: int| 0 <= i < k && symbol_kinds(lang).contains(nodes[i].kind) && (#[trigger] node_symbol(nodes[i])) is Some
            implies cur.contains(node_symbol(nodes[i])->0) by {
            if i < k - 1 {
                let q = choose|q: int| 0 <= q < prev.len() && prev[q] == node_symbol(nodes[i])->0;
                assert(cur[q] == prev[q]);
            } else {
                assert(cur[cur.len() - 1] == node_symbol(nodes[i])->0);
            }
        }
        assert forall|j: int| 0 <= j < cur.len() implies symbol_kinds(lang).contains(#[trigger] cur[j].kind) by {
            if j < prev.len() {
                assert(cur[j] == prev[j]);
            }
        }
    }
}

/// The symbols of a syntax tree are exactly the named nodes of the
/// language's symbol kinds, each as its own symbol: for Rust functions,
/// structs, enums, traits, modules, constants, statics, type aliases and
/// macro definitions; for TypeScript and JavaScript functions, methods,
/// classes (abstract too), interfaces, type aliases, enums and class
/// fields; for Python functions and classes. No other node gives one.
pub proof fn named_items_become_symbols(lang: Lang, nodes: Seq<SyntaxNodeView>)
    ensures
        ({
            let listed = |k: Seq<char>| match lang {
                Lang::Rust => k == "function_item"@ || k == "struct_item"@ || k == "enum_item"@
                    || k == "trait_item"@ || k == "mod_item"@ || k == "const_item"@ || k == "static_item"@
                    || k == "type_item"@ || k == "macro_definition"@,
                Lang::TypeScript | Lang::Tsx => k == "function_declaration"@ || k == "method_definition"@
                    || k == "class_declaration"@ || k == "abstract_class_declaration"@
                    || k == "interface_declaration"@ || k == "type_alias_declaration"@
                    || k == "enum_declaration"@ || k == "public_field_definition"@,
                Lang::Python => k == "function_definition"@ || k == "class_definition"@,
            };
            let out = code_symbols(lang, nodes, nodes.len() as int);
            &&& forall|i: int| 0 <= i < nodes.len() && listed(nodes[i].kind) && (#[trigger] node_symbol(nodes[i])) is Some
                ==> out.contains(node_symbol(nodes[i])->0)
            &&& forall|j: int| 0 <= j < out.len() ==> listed(#[trigger] out[j].kind)
        }),
{
    lemma_code_symbols(lang, nodes, nodes.len() as int);
    let ks = symbol_kinds(lang);
    let listed = |k: Seq<char>| match lang {
        Lang::Rust => k == "function_item"@ || k == "struct_item"@ || k == "enum_item"@
            || k == "trait_item"@ || k == "mod_item"@ || k == "const_item"@ || k == "static_item"@
            || k == "type_item"@ || k == "macro_definition"@,
        Lang::TypeScript | Lang::Tsx => k == "function_declaration"@ || k == "method_definition"@
            || k == "class_declaration"@ || k == "abstract_class_declaration"@
            || k == "interface_declaration"@ || k == "type_alias_declaration"@
            || k == "enum_declaration"@ || k == "public_field_definition"@,
        Lang::Python => k == "function_definition"@ || k == "class_definition"@,
    };
    assert forall|k: Seq<char>| #[trigger] ks.contains(k) <==> listed(k) by {
        if listed(k) {
            match lang {
                Lang::Rust => {
                    if k == "function_item"@ { assert(ks[0] == k); }
                    else if k == "struct_item"@ { assert(ks[1] == k); }
                    else if k == "enum_item"@ { assert(ks[2] == k); }
                    else if k == "trait_item"@ { assert(ks[3] == k); }
                    else if k == "mod_item"@ { assert(ks[4] == k); }
                    else if k == "const_item"@ { assert(ks[5] == k); }
                    else if k == "static_item"@ { assert(ks[6] == k); }
                    else if k == "type_item"@ { assert(ks[7] == k); }
                    else { assert(ks[8] == k); }
                },
                Lang::TypeScript | Lang::Tsx => {
                    if k == "function_declaration"@ { assert(ks[0] == k); }
                    else if k == "method_definition"@ { assert(ks[1] == k); }
                    else if k == "class_declaration"@ { assert(ks[2] == k); }
                    else if k == "abstract_class_declaration"@ { assert(ks[3] == k); }
                    else if k == "interface_declaration"@ { assert(ks[4] == k); }
                    else if k == "type_alias_declaration"@ { assert(ks[5] == k); }
                    else if k == "enum_declaration"@ { assert(ks[6] == k); }
                    else { assert(ks[7] == k); }
                },
                Lang::Python => {
                    if k == "function_definition"@ { assert(ks[0] == k); }
                    else { assert(ks[1] == k); }
                },
            }
        }
        if ks.contains(k) {
            let q = choose|q: int| 0 <= q < ks.len() && ks[q] == k;
        }
    }
}

/// The first line of a text.
fn first_line_of(t: &Vec<char>) -> (r: Vec<char>)
    ensures
        r@ == first_line(t@),
{
    if t.len() == 0 {
        assert(lines(t@) =~= Seq::<Seq<char>>::empty());
        return Vec::new();
    }
    let mut j: usize = 0;
    while j < t.len() && t[j] != '\n'
        invariant
            j <= t.len(),
            crate::text::next_newline(t@, 0) == crate::text::next_newline(t@, j as int),
        decreases t.len() - j,
    {
        j = j + 1;
    }
    assert(crate::text::next_newline(t@, j as int) == j);
    let mut end: usize = j;
    if j < t.len() && end > 0 && t[end - 1] == '\r' {
        end = end - 1;
    }
    let r = slice_of(t, 0, end);
    proof {
        if j < t.len() {
            assert(lines(t@)[0] == crate::text::strip_cr(t@.subrange(0, j as int)));
            assert(r@ =~= crate::text::strip_cr(t@.subrange(0, j as int)));
        } else {
            assert(lines(t@)[0] == t@.subrange(0, t@.len() as int));
            assert(r@ =~= t@.subrange(0, t@.len() as int));
        }
    }
    r
}

/// The symbols of a list of syntax nodes, in tree order.
pub fn symbols_from_nodes(lang: Lang, nodes: &Vec<SyntaxNode>) -> (r: Vec<Symbol>)
    requires
        forall|i: int| 0 <= i < nodes@.len() ==> (#[trigger] nodes@[i]).start_row < usize::MAX && nodes@[i].end_row < usize::MAX,
    ensures
        symbol_views(r@) == code_symbols(lang, node_views(nodes@), nodes@.len() as int),
{
    let ghost nv = node_views(nodes@);
    let mut out: Vec<Symbol> = Vec::new();
    let mut i: usize = 0;
    while i < nodes.len()
        invariant
            i <= nodes.len(),
            nv == node_views(nodes@),
            forall|q: int| 0 <= q < nodes@.len() ==> (#[trigger] nodes@[q]).start_row < usize::MAX && nodes@[q].end_row < usize::MAX,
            symbol_views(out@) == code_symbols(lang, nv, i as int),
        decreases nodes.len() - i,
    {
        let n = &nodes[i];
        assert(nv[i as int] == node_view(*n));
        let kind = chars_of(n.kind.as_str());
        let ghost before = symbol_views(out@);
        if is_symbol_kind(lang, &kind) {
            match (&n.name, &n.text) {
                (Some(name), Some(full)) => {
                    let f = chars_of(full.as_str());
                    let line = first_line_of(&f);
                    let t = trimmed(&line);
                    let sig = cap_chars(&t, SIGNATURE_MAX_BYTES);
                    let sym = Symbol {
                        kind: string_of(&kind),
                        name: string_of(&chars_of(name.as_str())),
                        signature: string_of(&sig),
                        start_line: n.start_row + 1,
                        end_line: n.end_row + 1,
                    };
                    proof {
                        assert(symbol_view(sym) == node_symbol(nv[i as int])->0);
                    }
                    out.push(sym);
                    assert(symbol_views(out@) =~= before.push(symbol_view(sym)));
                },
                _ => {},
            }
        }
        i = i + 1;
    }
    out
}

/// The symbols of a source file, by its path's extension: markdown
/// sections, or the named syntax nodes of a supported language; nothing for
/// other files or when no tree is built.
pub open spec fn symbols_of_file(path: Seq<char>, source: Seq<char>) -> Seq<SymbolView> {
    let ext = match crate::text::extension_of(path) {
        Some(e) => e,
        None => Seq::empty(),
    };
    if is_markdown_ext(ext) {
        markdown_symbols(source)
    } else {
        match lang_of(ext) {
            Some(l) => if tree_sitter_parses(l, source) {
                code_symbols(l, tree_sitter_nodes(l, source), tree_sitter_nodes(l, source).len() as int)
            } else {
                Seq::empty()
            },
            None => Seq::empty(),
        }
    }
}

/// Extracts the symbols of a file.
pub fn parse(path: &str, source: &str) -> (r: Vec<Symbol>)
    ensures
        symbol_views(r@) == symbols_of_file(path@, source@),
{
    let p = chars_of(path);
    let ext = match crate::text::extension(&p) {
        Some(e) => string_of(&e),
        None => string_of(&Vec::new()),
    };
    if is_markdown(ext.as_str()) {
        return parse_markdown(source);
    }
    let lang = match language_for(ext.as_str()) {
        Some(l) => l,
        None => {
            let v: Vec<Symbol> = Vec::new();
            assert(symbol_views(v@) =~= Seq::<SymbolView>::empty());
            return v;
        },
    };
    match parse_tree(lang, source) {
        Some(tree) => {
            let nodes = syntax_nodes(&tree);
            symbols_from_nodes(lang, &nodes)
        },
        None => {
            let v: Vec<Symbol> = Vec::new();
            assert(symbol_views(v@) =~= Seq::<SymbolView>::empty());
            v
        },
    }
}

} // verus!
