//! The code index's own logic: the identity of a search candidate, rank
//! fusion, line slicing and numbering, code-aware tokenization, the bounded
//! warm-up of the semantic index and the incremental-sync decisions. The
//! stores themselves (SQLite, tantivy, the embedding model) and the file
//! walk live with the caller.

use vstd::prelude::*;
use crate::chunker::{fit_from, lemma_blen_prefix};
use crate::text::{
    blen, chars_of, decimal, is_alphanumeric, lemma_decimal_digits, is_lowercase, is_uppercase, lemma_blen_push, lines,
    pad_left, push_all, push_decimal, push_padded_left, push_str, slice_of, split_lines,
    string_of, unicode_alphanumeric, unicode_lowercase, unicode_uppercase, views, width_of,
};

verus! {

/// A symbol row of the index (what a lookup by name returns).
#[derive(Debug, Clone)]
pub struct SymbolRow {
    pub path: String,
    pub name: String,
    pub kind: String,
    pub signature: String,
    pub start_line: usize,
    pub end_line: usize,
}

/// Metadata of an embedded chunk, to rebuild its anchor in a search.
#[derive(Debug, Clone)]
pub struct VecRow {
    pub path: String,
    pub name: String,
    pub kind: String,
    pub start_line: usize,
    pub end_line: usize,
}

/// Outcome of one bounded warm-up of the semantic index.
#[derive(Debug, Clone, Copy)]
pub struct VectorStats {
    /// Symbols embedded in this call.
    pub embedded_now: usize,
    /// Symbols still waiting for a vector (the backlog).
    pub remaining: usize,
}

/// Outcome of an incremental sync.
#[derive(Debug, Clone, Copy)]
pub struct SyncStats {
    pub reindexed: usize,
    pub total_files: usize,
    pub removed: usize,
}

/// A search candidate (no score); its identity is `(path, start_line)`.
#[derive(Debug)]
pub struct Candidate {
    pub path: String,
    pub name: String,
    pub kind: String,
    pub start_line: usize,
    pub end_line: usize,
}

/// A candidate with its texts as character sequences.
pub struct CandidateView {
    pub path: Seq<char>,
    pub name: Seq<char>,
    pub kind: Seq<char>,
    pub start_line: usize,
    pub end_line: usize,
}

pub open spec fn candidate_view(c: Candidate) -> CandidateView {
    CandidateView { path: c.path@, name: c.name@, kind: c.kind@, start_line: c.start_line, end_line: c.end_line }
}

pub open spec fn candidate_views(v: Seq<Candidate>) -> Seq<CandidateView> {
    v.map_values(|c: Candidate| candidate_view(c))
}

/// The identity of a candidate: `path:start_line`.
pub open spec fn key_of(c: CandidateView) -> Seq<char> {
    c.path + ":"@ + decimal(c.start_line as nat)
}

impl Candidate {
    /// The candidate's identity, `path:start_line`.
    pub fn key(&self) -> (r: String)
        ensures
            r@ == key_of(candidate_view(*self)),
    {
        let mut k = chars_of(self.path.as_str());
        push_str(&mut k, ":");
        push_decimal(&mut k, self.start_line as u64);
        string_of(&k)
    }

    /// An equal copy.
    pub fn copy(&self) -> (r: Candidate)
        ensures
            candidate_view(r) == candidate_view(*self),
    {
        Candidate {
            path: string_of(&chars_of(self.path.as_str())),
            name: string_of(&chars_of(self.name.as_str())),
            kind: string_of(&chars_of(self.kind.as_str())),
            start_line: self.start_line,
            end_line: self.end_line,
        }
    }
}

/// Two candidates share an identity exactly when they have the same path
/// and the same first line, whatever their name, kind and last line (a path
/// may hold `:` itself; the line's decimal never does).
pub proof fn candidates_are_identified_by_path_and_line(a: CandidateView, b: CandidateView)
    ensures
        key_of(a) == key_of(b) <==> (a.path == b.path && a.start_line == b.start_line),
{
    if key_of(a) == key_of(b) {
        reveal_strlit(":");
        let da = decimal(a.start_line as nat);
        let db = decimal(b.start_line as nat);
        lemma_decimal_digits(a.start_line as nat);
        lemma_decimal_digits(b.start_line as nat);
        let k = key_of(a);
        let pa = a.path.len() as int;
        let pb = b.path.len() as int;
        let prea = a.path + ":"@;
        let preb = b.path + ":"@;
        assert(k == prea + da && key_of(b) == preb + db);
        assert(k.len() == pa + 1 + da.len() && k.len() == pb + 1 + db.len());
        assert(k[pa] == ':');
        assert(key_of(b)[pb] == ':');
        if pa < pb {
            assert(k[pb] == da[pb - pa - 1]);
            assert(crate::text::is_digit(da[pb - pa - 1]));
        } else if pb < pa {
            assert(key_of(b)[pa] == db[pa - pb - 1]);
            assert(crate::text::is_digit(db[pa - pb - 1]));
        }
        assert(pa == pb);
        assert(a.path =~= k.subrange(0, pa));
        assert(b.path =~= key_of(b).subrange(0, pb));
        assert(da =~= k.subrange(pa + 1, k.len() as int));
        assert(db =~= key_of(b).subrange(pb + 1, k.len() as int));
    }
}

/// Pieces joined with a separator.
pub open spec fn join(parts: Seq<Seq<char>>, sep: Seq<char>) -> Seq<char>
    decreases parts.len(),
{
    if parts.len() == 0 {
        Seq::empty()
    } else if parts.len() == 1 {
        parts[0]
    } else {
        join(parts.drop_last(), sep) + sep + parts.last()
    }
}

/// Joins character vectors with a separator.
pub fn join_chars(parts: &Vec<Vec<char>>, from: usize, to: usize, sep: &str) -> (r: Vec<char>)
    requires
        from <= to <= parts.len(),
    ensures
        r@ == join(views(parts@).subrange(from as int, to as int), sep@),
{
    let mut out: Vec<char> = Vec::new();
    let mut i: usize = from;
    let ghost pv = views(parts@);
    assert(pv.subrange(from as int, from as int) =~= Seq::<Seq<char>>::empty());
    while i < to
        invariant
            from <= i <= to <= parts.len(),
            pv == views(parts@),
            out@ == join(pv.subrange(from as int, i as int), sep@),
        decreases to - i,
    {
        let ghost pre = pv.subrange(from as int, i as int);
        let ghost post = pv.subrange(from as int, i + 1);
        assert(post.drop_last() =~= pre);
        assert(post.last() == parts@[i as int]@);
        if i > from {
            push_str(&mut out, sep);
        } else {
            assert(post =~= seq![parts@[i as int]@]);
        }
        push_all(&mut out, &parts[i]);
        i = i + 1;
    }
    out
}

/// Lines `start..=end` (1-based, `end` clamped to the last line) joined
/// with newlines; nothing when `start` is 0 or past the end.
pub open spec fn slice_lines_of(ls: Seq<Seq<char>>, start: int, end: int) -> Seq<char> {
    if start == 0 || start > ls.len() {
        Seq::empty()
    } else {
        let e = if end < ls.len() { end } else { ls.len() as int };
        join(ls.subrange(start - 1, e), "\n"@)
    }
}

/// A valid line range: ending no earlier than the line before it starts.
pub open spec fn range_ok(len: nat, start: int, end: int) -> bool {
    start == 0 || start > len || (if end < len { end } else { len as int }) >= start - 1
}

/// The body of a symbol: its lines, joined.
pub fn slice_lines(ls: &Vec<Vec<char>>, start: usize, end: usize) -> (r: Vec<char>)
    requires
        range_ok(ls@.len(), start as int, end as int),
    ensures
        r@ == slice_lines_of(views(ls@), start as int, end as int),
{
    if start == 0 || start > ls.len() {
        return Vec::new();
    }
    let e: usize = if end < ls.len() { end } else { ls.len() };
    join_chars(ls, start - 1, e, "\n")
}

/// One numbered line as `read_line_range` prints it: the number right-aligned
/// in five columns, a tab, the line and a newline.
pub open spec fn numbered_line(n: nat, line: Seq<char>) -> Seq<char> {
    pad_left(decimal(n), 5) + "\t"@ + line + "\n"@
}

/// Numbered lines `ls[from..to]`, the first numbered `first`.
pub open spec fn numbered_lines(ls: Seq<Seq<char>>, first: nat, from: int, to: int) -> Seq<char>
    decreases to - from,
{
    if from >= to {
        Seq::empty()
    } else {
        numbered_lines(ls, first, from, to - 1) + numbered_line((first + (to - 1 - from)) as nat, ls[to - 1])
    }
}

/// The outcome of reading lines `start..=end` (1-based, `end` clamped) of a
/// file with numbers: an error when `start` is 0 or past the last line.
pub open spec fn line_range_of(path: Seq<char>, content: Seq<char>, start: nat, end: nat) -> Result<Seq<char>, Seq<char>> {
    let ls = lines(content);
    if start == 0 || start > ls.len() {
        Err("rango fuera de límites en "@ + path)
    } else {
        let e = if end < ls.len() { end } else { ls.len() };
        Ok(numbered_lines(ls, start, start - 1, e as int))
    }
}

/// Lines `start..=end` of an already read file, numbered.
pub fn line_range(path: &str, content: &str, start: usize, end: usize) -> (r: Result<String, String>)
    requires
        range_ok(lines(content@).len(), start as int, end as int),
    ensures
        match r {
            Ok(t) => line_range_of(path@, content@, start as nat, end as nat) == Ok::<Seq<char>, Seq<char>>(t@),
            Err(e) => line_range_of(path@, content@, start as nat, end as nat) == Err::<Seq<char>, Seq<char>>(e@),
        },
{
    let text = chars_of(content);
    let ls = split_lines(&text);
    let ghost lv = views(ls@);
    if start == 0 || start > ls.len() {
        let mut m: Vec<char> = Vec::new();
        push_str(&mut m, "rango fuera de límites en ");
        push_str(&mut m, path);
        return Err(string_of(&m));
    }
    let e: usize = if end < ls.len() { end } else { ls.len() };
    let mut out: Vec<char> = Vec::new();
    let mut i: usize = start - 1;
    while i < e
        invariant
            start >= 1,
            start - 1 <= i <= e <= ls.len(),
            lv == views(ls@),
            out@ == numbered_lines(lv, start as nat, start - 1, i as int),
        decreases e - i,
    {
        let n: u64 = (start + (i - (start - 1))) as u64;
        let num = crate::text::decimal_of(n);
        push_padded_left(&mut out, &num, 5);
        push_str(&mut out, "\t");
        push_all(&mut out, &ls[i]);
        push_str(&mut out, "\n");
        assert(ls@[i as int]@ == lv[i as int]);
        i = i + 1;
    }
    Ok(string_of(&out))
}

/// Code-aware splitting at position `i`: every non-alphanumeric character
/// becomes a space, and a space goes before a character that starts a word
/// (a capital after a lowercase letter, or the last capital of an acronym
/// before a lowercase letter).
pub open spec fn split_piece(cs: Seq<char>, i: int) -> Seq<char> {
    let c = cs[i];
    if !unicode_alphanumeric(c) {
        seq![' ']
    } else if i > 0 && ((unicode_lowercase(cs[i - 1]) && unicode_uppercase(c)) || (unicode_uppercase(cs[i - 1])
        && unicode_uppercase(c) && i + 1 < cs.len() && unicode_lowercase(cs[i + 1]))) {
        seq![' ', c]
    } else {
        seq![c]
    }
}

/// The split text of `cs[0..k]`.
pub open spec fn split_prefix(cs: Seq<char>, k: int) -> Seq<char>
    decreases k,
{
    if k <= 0 || k > cs.len() {
        Seq::empty()
    } else {
        split_prefix(cs, k - 1) + split_piece(cs, k - 1)
    }
}

/// Code-aware tokenization: `renewHeartbeat` becomes `renew Heartbeat`,
/// `HTTPServer` becomes `HTTP Server`, `token_hash` becomes `token hash`, so
/// the text index sees the words of identifiers.
pub fn code_split(s: &str) -> (r: String)
    ensures
        r@ == split_prefix(s@, s@.len() as int),
{
    let cs = chars_of(s);
    let mut out: Vec<char> = Vec::new();
    let mut i: usize = 0;
    while i < cs.len()
        invariant
            i <= cs.len(),
            cs@ == s@,
            out@ == split_prefix(cs@, i as int),
        decreases cs.len() - i,
    {
        let c = cs[i];
        let ghost before = out@;
        if !is_alphanumeric(c) {
            out.push(' ');
        } else {
            let mut boundary = false;
            if i > 0 {
                let p = cs[i - 1];
                let camel = is_lowercase(p) && is_uppercase(c);
                let acronym = is_uppercase(p) && is_uppercase(c) && i + 1 < cs.len() && is_lowercase(
                    cs[i + 1],
                );
                boundary = camel || acronym;
            }
            if boundary {
                out.push(' ');
            }
            out.push(c);
        }
        assert(out@ =~= before + split_piece(cs@, i as int));
        i = i + 1;
    }
    string_of(&out)
}

/// Splitting keeps the letters and digits of `s` in order and adds only
/// spaces: the letters and digits of the split text are those of `s`, every
/// character of the split text is a letter, a digit or a space, and the
/// split text is no shorter than `s`.
pub proof fn splitting_keeps_words_and_adds_spaces(s: Seq<char>)
    ensures
        split_prefix(s, s.len() as int).filter(|c: char| unicode_alphanumeric(c))
            == s.filter(|c: char| unicode_alphanumeric(c)),
        forall|i: int| 0 <= i < split_prefix(s, s.len() as int).len()
            ==> unicode_alphanumeric(#[trigger] split_prefix(s, s.len() as int)[i])
                || split_prefix(s, s.len() as int)[i] == ' ',
        split_prefix(s, s.len() as int).len() >= s.len(),
{
    lemma_split_prefix(s, s.len() as int);
    assert(s.take(s.len() as int) =~= s);
}

proof fn lemma_split_prefix(s: Seq<char>, k: int)
    requires
        0 <= k <= s.len(),
    ensures
        split_prefix(s, k).filter(|c: char| unicode_alphanumeric(c)) == s.take(k).filter(|c: char| unicode_alphanumeric(c)),
        forall|i: int| 0 <= i < split_prefix(s, k).len()
            ==> unicode_alphanumeric(#[trigger] split_prefix(s, k)[i]) || split_prefix(s, k)[i] == ' ',
        split_prefix(s, k).len() >= k,
    decreases k,
{
    let f = |c: char| unicode_alphanumeric(c);
    let g = |c: char| unicode_alphanumeric(c);
    if k == 0 {
        assert(split_prefix(s, 0) =~= Seq::<char>::empty());
        assert(s.take(0) =~= Seq::<char>::empty());
        assert(Seq::<char>::empty().filter(f) =~= Seq::<char>::empty()) by {
            Seq::<char>::empty().lemma_filter_len(f);
        }
        assert(Seq::<char>::empty().filter(g) =~= Seq::<char>::empty()) by {
            Seq::<char>::empty().lemma_filter_len(g);
        }
    } else {
        lemma_split_prefix(s, k - 1);
        let a = split_prefix(s, k - 1);
        let piece = split_piece(s, k - 1);
        let c = s[k - 1];
        assert(split_prefix(s, k) == a + piece);
        Seq::filter_distributes_over_add(a, piece, f);
        assert(s.take(k) =~= s.take(k - 1).push(c));
        s.take(k - 1).lemma_filter_push(c, g);
        let e = Seq::<char>::empty();
        assert(e.filter(f) =~= e) by {
            e.lemma_filter_len(f);
        }
        e.lemma_filter_push(' ', f);
        assert(seq![' '] =~= e.push(' '));
        assert(seq![' '].filter(f) =~= e);
        e.lemma_filter_push(c, f);
        assert(seq![c] =~= e.push(c));
        seq![' '].lemma_filter_push(c, f);
        assert(seq![' ', c] =~= seq![' '].push(c));
        assert(piece.filter(f) =~= (if g(c) { seq![c] } else { e }));
        assert forall|i: int| 0 <= i < split_prefix(s, k).len()
            implies unicode_alphanumeric(#[trigger] split_prefix(s, k)[i]) || split_prefix(s, k)[i] == ' ' by {
            if i < a.len() {
                assert(split_prefix(s, k)[i] == a[i]);
            } else {
                assert(split_prefix(s, k)[i] == piece[i - a.len()]);
            }
        }
    }
}

/// Longest text embedded for a symbol, in bytes: name, signature and the
/// first lines carry the meaning, and inference cost grows with length.
pub const EMBED_TEXT_MAX_BYTES: usize = 256;

/// At most `max` bytes of `s`, cut on a character boundary (no ellipsis).
pub open spec fn cut_bytes(s: Seq<char>, max: nat) -> Seq<char> {
    if blen(s) <= max {
        s
    } else {
        s.subrange(0, fit_from(s, max, 0))
    }
}

/// The text embedded for a symbol: its name, a newline and its body, cut to
/// `EMBED_TEXT_MAX_BYTES` bytes on a character boundary.
pub fn embed_text(name: &str, body: &Vec<char>) -> (r: String)
    ensures
        r@ == cut_bytes(name@ + "\n"@ + body@, EMBED_TEXT_MAX_BYTES as nat),
{
    let mut t = chars_of(name);
    push_str(&mut t, "\n");
    push_all(&mut t, body);
    let mut k: usize = 0;
    let mut used: usize = 0;
    assert(t@.subrange(0, 0) =~= Seq::<char>::empty());
    assert(vstd::utf8::encode_utf8(Seq::<char>::empty()) =~= Seq::<u8>::empty());
    while k < t.len() && width_of(t[k]) <= EMBED_TEXT_MAX_BYTES - used
        invariant
            k <= t.len(),
            used == blen(t@.subrange(0, k as int)),
            used <= EMBED_TEXT_MAX_BYTES,
            fit_from(t@, EMBED_TEXT_MAX_BYTES as nat, 0) == fit_from(t@, EMBED_TEXT_MAX_BYTES as nat, k as int),
        decreases t.len() - k,
    {
        proof {
            assert(t@.subrange(0, k + 1) =~= t@.subrange(0, k as int).push(t@[k as int]));
            lemma_blen_push(t@.subrange(0, k as int), t@[k as int]);
        }
        used = used + width_of(t[k]);
        k = k + 1;
    }
    if k >= t.len() {
        assert(t@.subrange(0, k as int) =~= t@);
        return string_of(&t);
    }
    proof {
        assert(t@.subrange(0, k + 1) =~= t@.subrange(0, k as int).push(t@[k as int]));
        lemma_blen_push(t@.subrange(0, k as int), t@[k as int]);
        lemma_blen_prefix(t@, k + 1);
    }
    string_of(&slice_of(&t, 0, k))
}


/// Most symbols embedded by one warm-up call (a few seconds of CPU), so no
/// call on a large repository blocks for minutes; the rest waits for later.
pub const MAX_EMBED_PER_CALL: usize = 800;

/// The budget of one warm-up call, as files with pending symbols come by.
#[derive(Debug, Clone, Copy)]
pub struct EmbedBudget {
    /// Symbol texts gathered so far.
    pub texts: usize,
    /// Files whose symbols were gathered.
    pub files: usize,
    /// Once full, every later file is only counted.
    pub full: bool,
    /// Symbols left for a later call.
    pub remaining: usize,
}

/// The budget's invariant: nothing is gathered without a file, a full budget
/// has gathered something, and the cap is only passed by a lone file.
pub open spec fn budget_ok(b: EmbedBudget) -> bool {
    &&& (b.texts == 0 <==> b.files == 0)
    &&& (b.full ==> b.texts > 0)
    &&& (b.texts <= MAX_EMBED_PER_CALL || b.files == 1)
    &&& (b.texts >= MAX_EMBED_PER_CALL ==> b.full)
}

/// Whether a file with `n` pending symbols is embedded now: unless the budget
/// is full or would overflow and something is already gathered (a single file
/// larger than the budget is still taken, so it never blocks the backlog).
pub open spec fn admits(b: EmbedBudget, n: nat) -> bool {
    !((b.full || b.texts + n > MAX_EMBED_PER_CALL) && b.texts > 0)
}

impl EmbedBudget {
    /// An empty budget.
    pub fn new() -> (r: EmbedBudget)
        ensures
            r.texts == 0 && r.files == 0 && !r.full && r.remaining == 0,
            budget_ok(r),
    {
        EmbedBudget { texts: 0, files: 0, full: false, remaining: 0 }
    }

    /// A file with `n` pending symbols comes by: `true` to embed it now;
    /// `false` defers it, counting its symbols in the backlog and marking
    /// the budget full.
    pub fn take_file(&mut self, n: usize) -> (r: bool)
        requires
            old(self).remaining + n <= usize::MAX,
        ensures
            r == admits(*old(self), n as nat),
            r ==> *final(self) == *old(self),
            !r ==> final(self).full && final(self).remaining == old(self).remaining + n
                && final(self).texts == old(self).texts && final(self).files == old(self).files,
            !r ==> *final(self) == budget_step(*old(self), n as nat),
            budget_ok(*old(self)) ==> budget_ok(*final(self)),
    {
        if (self.full || n > MAX_EMBED_PER_CALL || self.texts > MAX_EMBED_PER_CALL - n) && self.texts > 0 {
            self.full = true;
            self.remaining = self.remaining + n;
            false
        } else {
            true
        }
    }

    /// The `n` symbol texts of an admitted file were gathered.
    pub fn gathered(&mut self, n: usize)
        requires
            n > 0,
            admits(*old(self), n as nat),
            budget_ok(*old(self)),
            old(self).texts + n <= usize::MAX,
            old(self).files + 1 <= usize::MAX,
        ensures
            final(self).texts == old(self).texts + n,
            final(self).files == old(self).files + 1,
            final(self).full == (old(self).full || old(self).texts + n >= MAX_EMBED_PER_CALL),
            final(self).remaining == old(self).remaining,
            *final(self) == budget_step(*old(self), n as nat),
            budget_ok(*final(self)),
    {
        self.texts = self.texts + n;
        self.files = self.files + 1;
        if self.texts >= MAX_EMBED_PER_CALL {
            self.full = true;
        }
    }

    /// What the call reports: how many symbols it embeds and how many wait.
    pub fn stats(&self) -> (r: VectorStats)
        ensures
            r.embedded_now == self.texts,
            r.remaining == self.remaining,
    {
        VectorStats { embedded_now: self.texts, remaining: self.remaining }
    }
}

/// A call never embeds more than the budget, except a lone larger file.
pub proof fn budget_is_bounded(b: EmbedBudget)
    requires
        budget_ok(b),
    ensures
        b.texts <= MAX_EMBED_PER_CALL || b.files == 1,
{
}

/// One file with `n` pending symbols passing through the budget: admitted
/// and gathered (`gathered` after `take_file` said yes), or deferred.
pub open spec fn budget_step(b: EmbedBudget, n: nat) -> EmbedBudget {
    if admits(b, n) {
        EmbedBudget {
            texts: (b.texts + n) as usize,
            files: (b.files + 1) as usize,
            full: b.full || b.texts + n >= MAX_EMBED_PER_CALL,
            remaining: b.remaining,
        }
    } else {
        EmbedBudget { texts: b.texts, files: b.files, full: true, remaining: (b.remaining + n) as usize }
    }
}

/// The budget after the files with pending counts `ns` came by in order.
pub open spec fn budget_run(b: EmbedBudget, ns: Seq<nat>) -> EmbedBudget
    decreases ns.len(),
{
    if ns.len() == 0 {
        b
    } else {
        budget_step(budget_run(b, ns.drop_last()), ns.last())
    }
}

/// All the pending symbols of `ns`.
pub open spec fn pending_total(ns: Seq<nat>) -> nat
    decreases ns.len(),
{
    if ns.len() == 0 {
        0
    } else {
        pending_total(ns.drop_last()) + ns.last()
    }
}

/// The empty budget a warm-up call starts from.
pub open spec fn fresh_budget() -> EmbedBudget {
    EmbedBudget { texts: 0, files: 0, full: false, remaining: 0 }
}

/// One warm-up call over files with pending counts `ns` (each at least one):
/// every pending symbol is either embedded now or counted as remaining; the
/// call embeds at most the budget unless a lone file is larger; and if
/// anything was pending, something is embedded, so the backlog a next call
/// starts from is strictly smaller and repeating the call reaches zero.
pub proof fn warm_up_run_accounts_for_everything(ns: Seq<nat>)
    requires
        forall|i: int| 0 <= i < ns.len() ==> #[trigger] ns[i] > 0,
        pending_total(ns) <= usize::MAX,
    ensures
        budget_run(fresh_budget(), ns).texts + budget_run(fresh_budget(), ns).remaining == pending_total(ns),
        budget_run(fresh_budget(), ns).texts <= MAX_EMBED_PER_CALL || budget_run(fresh_budget(), ns).files == 1,
        pending_total(ns) > 0 ==> budget_run(fresh_budget(), ns).texts > 0,
        pending_total(ns) > 0 ==> budget_run(fresh_budget(), ns).remaining < pending_total(ns),
{
    lemma_budget_run(ns);
}

proof fn lemma_budget_run(ns: Seq<nat>)
    requires
        forall|i: int| 0 <= i < ns.len() ==> #[trigger] ns[i] > 0,
        pending_total(ns) <= usize::MAX,
    ensures
        budget_ok(budget_run(fresh_budget(), ns)),
        budget_run(fresh_budget(), ns).texts + budget_run(fresh_budget(), ns).remaining == pending_total(ns),
        budget_run(fresh_budget(), ns).files <= budget_run(fresh_budget(), ns).texts,
        ns.len() > 0 ==> budget_run(fresh_budget(), ns).texts > 0,
        ns.len() > 0 ==> pending_total(ns) > 0,
    decreases ns.len(),
{
    if ns.len() > 0 {
        let s = ns.drop_last();
        assert forall|i: int| 0 <= i < s.len() implies #[trigger] s[i] > 0 by {
            assert(s[i] == ns[i]);
        }
        assert(ns.last() > 0) by {
            assert(ns[ns.len() - 1] > 0);
        }
        lemma_budget_run(s);
    }
}

/// Whether `sub` occurs in `s`.
pub open spec fn has_substring(s: Seq<char>, sub: Seq<char>) -> bool {
    exists|i: int| 0 <= i && i + sub.len() <= s.len() && #[trigger] s.subrange(i, i + sub.len()) == sub
}

/// Whether `sub` occurs in `s`.
pub fn contains_text(s: &Vec<char>, sub: &Vec<char>) -> (r: bool)
    ensures
        r == has_substring(s@, sub@),
{
    if sub.len() > s.len() {
        return false;
    }
    let last: usize = s.len() - sub.len();
    let mut i: usize = 0;
    loop
        invariant
            sub.len() <= s.len(),
            last == s.len() - sub.len(),
            i <= last,
            forall|j: int| 0 <= j < i ==> #[trigger] s@.subrange(j, j + sub@.len()) != sub@,
        decreases last - i,
    {
        let piece = slice_of(s, i, i + sub.len());
        if crate::text::same_chars(&piece, sub) {
            return true;
        }
        if i == last {
            return false;
        }
        i = i + 1;
    }
}

/// Whether a path has a component with the given name.
pub fn has_component(p: &Vec<char>, name: &str) -> (r: bool)
    ensures
        r == crate::update::components_of(p@).contains(name@),
{
    let cs = crate::update::components(p);
    let target = chars_of(name);
    let mut k: usize = 0;
    while k < cs.len()
        invariant
            k <= cs.len(),
            target@ == name@,
            views(cs@) == crate::update::components_of(p@),
            forall|j: int| 0 <= j < k ==> cs@[j]@ != name@,
        decreases cs.len() - k,
    {
        if crate::text::same_chars(&cs[k], &target) {
            assert(views(cs@)[k as int] == name@);
            return true;
        }
        k = k + 1;
    }
    proof {
        let cv = views(cs@);
        if cv.contains(name@) {
            let j = choose|j: int| 0 <= j < cv.len() && cv[j] == name@;
            assert(cs@[j]@ == cv[j]);
        }
    }
    false
}

/// OpenSpec's archive of finished changes: noise for the index and searches.
pub open spec fn in_archive(p: Seq<char>) -> bool {
    has_substring(p, "openspec/changes/archive/"@)
}

/// Whether the indexer takes a file: a supported extension, not inside the
/// index's own `.rtk-index` directory, not in OpenSpec's archive.
pub open spec fn indexable_path(p: Seq<char>) -> bool {
    let ext = match crate::text::extension_of(p) {
        Some(e) => e,
        None => Seq::empty(),
    };
    &&& crate::chunker::is_markdown_ext(ext) || crate::chunker::lang_of(ext) is Some
    &&& !crate::update::components_of(p).contains(".rtk-index"@)
    &&& !in_archive(p)
}

/// Whether the indexer takes the file at `path`.
pub fn indexable(path: &str) -> (r: bool)
    ensures
        r == indexable_path(path@),
{
    let p = chars_of(path);
    let ext = match crate::text::extension(&p) {
        Some(e) => string_of(&e),
        None => string_of(&Vec::new()),
    };
    if !crate::chunker::is_supported(ext.as_str()) {
        return false;
    }
    if has_component(&p, ".rtk-index") {
        return false;
    }
    !contains_text(&p, &chars_of("openspec/changes/archive/"))
}

/// Whether a file walk for `rtk_find`/`rtk_grep` skips a path: inside
/// `.rtk-index` or `.git`, or in OpenSpec's archive.
pub open spec fn walk_skips_path(p: Seq<char>) -> bool {
    crate::update::components_of(p).contains(".rtk-index"@) || crate::update::components_of(p).contains(
        ".git"@,
    ) || in_archive(p)
}

/// Whether a walk skips `path`.
pub fn walk_skips(path: &str) -> (r: bool)
    ensures
        r == walk_skips_path(path@),
{
    let p = chars_of(path);
    has_component(&p, ".rtk-index") || has_component(&p, ".git") || contains_text(
        &p,
        &chars_of("openspec/changes/archive/"),
    )
}

/// The BLAKE3 digest of a text's UTF-8 bytes, as lowercase hex.
pub uninterp spec fn blake3_hex(content: Seq<char>) -> Seq<char>;

/// Trusted: `blake3::hash` of the text's bytes, then `Hash::to_hex`. The
/// claim: the digest of the text, written as 64 lowercase hex digits (the
/// crate's 32-byte output, two digits per byte).
#[verifier::external_body]
fn content_hash(content: &str) -> (r: String)
    ensures
        r@ == blake3_hex(content@),
        r@.len() == 64,
        forall|i: int| 0 <= i < 64 ==> ('0' <= #[trigger] r@[i] <= '9' || 'a' <= r@[i] <= 'f'),
{
    blake3::hash(content.as_bytes()).to_hex().to_string()
}

/// Whether a file with `content` is re-indexed: always when the whole
/// index is rebuilt, otherwise only when its stored fingerprint is missing
/// or differs from the content's.
pub open spec fn reindex_needed(content: Seq<char>, stored: Option<Seq<char>>, force_all: bool) -> bool {
    force_all || match stored {
        Some(h) => h != blake3_hex(content),
        None => true,
    }
}

/// A file's fingerprint and whether it must be re-indexed.
pub fn file_change(content: &str, stored_hash: Option<&str>, force_all: bool) -> (r: (bool, String))
    ensures
        r.1@ == blake3_hex(content@),
        r.0 == reindex_needed(content@, crate::telemetry::opt_view(stored_hash), force_all),
{
    let hash = content_hash(content);
    let changed = match stored_hash {
        Some(h) => !crate::text::str_eq(h, hash.as_str()),
        None => true,
    };
    (force_all || changed, hash)
}

/// Only what changed is re-indexed: once a file's fingerprint is stored, a
/// later sync (that does not rebuild everything) skips the file while its
/// content stays the same, and takes it again as soon as the content has
/// another fingerprint.
pub proof fn only_changed_files_are_reindexed(before: Seq<char>, after: Seq<char>)
    ensures
        !reindex_needed(after, Some(blake3_hex(before)), false) <==> blake3_hex(after) == blake3_hex(before),
        before == after ==> !reindex_needed(after, Some(blake3_hex(before)), false),
{
}

/// The fingerprint stored for `p`, if any.
pub open spec fn stored_hash_of(stored: Map<Seq<char>, Seq<char>>, p: Seq<char>) -> Option<Seq<char>> {
    if stored.dom().contains(p) {
        Some(stored[p])
    } else {
        None
    }
}

/// How many of the walked files (path, content) a sync re-indexes against
/// the stored fingerprints.
pub open spec fn reindex_count(files: Seq<(Seq<char>, Seq<char>)>, stored: Map<Seq<char>, Seq<char>>, force_all: bool) -> nat
    decreases files.len(),
{
    if files.len() == 0 {
        0
    } else {
        let f = files.last();
        reindex_count(files.drop_last(), stored, force_all) + if indexable_path(f.0)
            && reindex_needed(f.1, stored_hash_of(stored, f.0), force_all) {
            1nat
        } else {
            0nat
        }
    }
}

/// Whether `p` is among the walked paths.
pub open spec fn walked(files: Seq<(Seq<char>, Seq<char>)>, p: Seq<char>) -> bool {
    exists|i: int| 0 <= i < files.len() && (#[trigger] files[i]).0 == p
}

/// What a sync leaves stored after walking `files`: every walked file the
/// index takes, with the fingerprint of its content (`file_change` gives it
/// to a re-indexed file; a skipped one had it already); the rest is purged.
pub open spec fn synced_store(files: Seq<(Seq<char>, Seq<char>)>) -> Map<Seq<char>, Seq<char>> {
    Map::new(
        |p: Seq<char>| indexable_path(p) && walked(files, p),
        |p: Seq<char>| blake3_hex(files[choose|i: int| 0 <= i < files.len() && (#[trigger] files[i]).0 == p].1),
    )
}

/// The paths a walk marks as seen: the walked ones the index takes, in order.
pub open spec fn seen_paths(files: Seq<(Seq<char>, Seq<char>)>) -> Seq<Seq<char>> {
    files.map_values(|f: (Seq<char>, Seq<char>)| f.0).filter(|p: Seq<char>| indexable_path(p))
}

/// Syncing twice over the same files changes nothing the second time: with
/// the fingerprints the first sync stored, a second one (that does not
/// rebuild everything) re-indexes no file and purges no stored path.
pub proof fn a_second_sync_does_nothing(files: Seq<(Seq<char>, Seq<char>)>, stored_paths: Seq<Seq<char>>)
    requires
        forall|i: int, j: int| 0 <= i < j < files.len() ==> files[i].0 != files[j].0,
        forall|j: int| 0 <= j < stored_paths.len() ==> synced_store(files).dom().contains(#[trigger] stored_paths[j]),
    ensures
        reindex_count(files, synced_store(files), false) == 0,
        stale_of(stored_paths, seen_paths(files)) == Seq::<Seq<char>>::empty(),
{
    let s2 = synced_store(files);
    lemma_nothing_to_reindex(files, s2, files.len() as int);
    assert(files.take(files.len() as int) =~= files);
    let names = files.map_values(|f: (Seq<char>, Seq<char>)| f.0);
    let seen = seen_paths(files);
    let pred = |p: Seq<char>| !seen.contains(p);
    assert forall|j: int| 0 <= j < stored_paths.len() implies !pred(#[trigger] stored_paths[j]) by {
        let p = stored_paths[j];
        assert(s2.dom().contains(p));
        let i = choose|i: int| 0 <= i < files.len() && (#[trigger] files[i]).0 == p;
        assert(names[i] == p);
        names.lemma_filter_contains_rev(|q: Seq<char>| indexable_path(q), p);
    }
    stored_paths.lemma_all_neg_filter_empty(pred);
    assert(stale_of(stored_paths, seen) =~= Seq::<Seq<char>>::empty());
}

proof fn lemma_nothing_to_reindex(files: Seq<(Seq<char>, Seq<char>)>, s2: Map<Seq<char>, Seq<char>>, k: int)
    requires
        0 <= k <= files.len(),
        s2 == synced_store(files),
        forall|i: int, j: int| 0 <= i < j < files.len() ==> files[i].0 != files[j].0,
    ensures
        reindex_count(files.take(k), s2, false) == 0,
    decreases k,
{
    if k > 0 {
        lemma_nothing_to_reindex(files, s2, k - 1);
        assert(files.take(k).drop_last() =~= files.take(k - 1));
        let f = files[k - 1];
        assert(files.take(k).last() == f);
        if indexable_path(f.0) {
            assert(walked(files, f.0)) by {
                assert(files[k - 1].0 == f.0);
            }
            let i = choose|i: int| 0 <= i < files.len() && (#[trigger] files[i]).0 == f.0;
            if i != k - 1 {
                if i < k - 1 {
                    assert(files[i].0 != files[k - 1].0);
                } else {
                    assert(files[k - 1].0 != files[i].0);
                }
            }
            assert(stored_hash_of(s2, f.0) == Some(blake3_hex(f.1)));
        }
    } else {
        assert(files.take(0) =~= Seq::<(Seq<char>, Seq<char>)>::empty());
    }
}

/// The stored paths that are no longer present, in stored order.
pub open spec fn stale_of(stored: Seq<Seq<char>>, seen: Seq<Seq<char>>) -> Seq<Seq<char>> {
    stored.filter(|p: Seq<char>| !seen.contains(p))
}

/// Every stored path the walk did not see is purged, and nothing else: a
/// path is purged exactly when it is stored and was not seen; nothing is
/// purged of an empty store; and storing one more path purges, besides what
/// was purged before and in the same order, that path exactly when the walk
/// did not see it (so each unseen path goes as many times as it is stored,
/// in stored order).
pub proof fn every_unseen_stored_path_is_purged(stored: Seq<Seq<char>>, seen: Seq<Seq<char>>, p: Seq<char>)
    ensures
        stale_of(stored, seen).contains(p) <==> (stored.contains(p) && !seen.contains(p)),
        stale_of(Seq::empty(), seen) == Seq::<Seq<char>>::empty(),
        stale_of(stored.push(p), seen) == if seen.contains(p) {
            stale_of(stored, seen)
        } else {
            stale_of(stored, seen).push(p)
        },
{
    let pred = |q: Seq<char>| !seen.contains(q);
    if stale_of(stored, seen).contains(p) {
        stored.lemma_filter_contains_rev(pred, p);
        let j = choose|j: int| 0 <= j < stale_of(stored, seen).len() && stale_of(stored, seen)[j] == p;
        stored.lemma_filter_pred(pred, j);
    }
    if stored.contains(p) && !seen.contains(p) {
        let i = choose|i: int| 0 <= i < stored.len() && stored[i] == p;
        stored.lemma_filter_contains(pred, i);
    }
    Seq::<Seq<char>>::empty().lemma_filter_len(pred);
    assert(stale_of(Seq::empty(), seen) =~= Seq::<Seq<char>>::empty());
    stored.lemma_filter_push(p, pred);
}

/// Paths to purge: stored ones that the latest walk did not see.
pub fn stale_paths(stored: &Vec<String>, seen: &Vec<String>) -> (r: Vec<String>)
    ensures
        crate::gain::string_views(r@) == stale_of(crate::gain::string_views(stored@), crate::gain::string_views(seen@)),
{
    let ghost sv = crate::gain::string_views(stored@);
    let ghost nv = crate::gain::string_views(seen@);
    let ghost pred = |p: Seq<char>| !nv.contains(p);
    let mut out: Vec<String> = Vec::new();
    let mut i: usize = 0;
    assert(sv.subrange(0, 0) =~= Seq::<Seq<char>>::empty());
    while i < stored.len()
        invariant
            i <= stored.len(),
            sv == crate::gain::string_views(stored@),
            nv == crate::gain::string_views(seen@),
            pred == (|p: Seq<char>| !nv.contains(p)),
            crate::gain::string_views(out@) == sv.subrange(0, i as int).filter(pred),
        decreases stored.len() - i,
    {
        let mut found = false;
        let mut j: usize = 0;
        while j < seen.len() && !found
            invariant
                j <= seen.len(),
                i < stored.len(),
                nv == crate::gain::string_views(seen@),
                found ==> nv.contains(stored@[i as int]@),
                !found ==> forall|q: int| 0 <= q < j ==> nv[q] != stored@[i as int]@,
            decreases seen.len() - j,
        {
            if crate::text::str_eq(seen[j].as_str(), stored[i].as_str()) {
                found = true;
                assert(nv[j as int] == seen@[j as int]@);
            }
            j = j + 1;
        }
        proof {
            if !found && nv.contains(stored@[i as int]@) {
                let q = choose|q: int| 0 <= q < nv.len() && nv[q] == stored@[i as int]@;
            }
            assert(sv.subrange(0, i + 1) =~= sv.subrange(0, i as int).push(sv[i as int]));
            sv.subrange(0, i as int).lemma_filter_push(sv[i as int], pred);
        }
        let ghost before = crate::gain::string_views(out@);
        if !found {
            let p = string_of(&chars_of(stored[i].as_str()));
            out.push(p);
            assert(crate::gain::string_views(out@) =~= before.push(sv[i as int]));
        }
        i = i + 1;
    }
    assert(sv.subrange(0, i as int) =~= sv);
    out
}


/// Fixed-point unit of fused scores (2^90): each appearance at 0-based rank
/// `r` adds `1/(60 + r + 1)` of it.
pub open spec fn rrf_unit() -> nat {
    0x400_0000_0000_0000_0000_0000
}

/// What an appearance at rank `rank` adds to a candidate's score.
pub open spec fn contribution(rank: nat) -> nat {
    rrf_unit() / (61 + rank)
}

/// A ranked list as (candidate, rank) pairs.
pub open spec fn ranked(l: Seq<CandidateView>) -> Seq<(CandidateView, nat)> {
    Seq::new(l.len(), |r: int| (l[r], r as nat))
}

/// Every appearance of every list, list after list, in rank order.
pub open spec fn appearances(lists: Seq<Seq<CandidateView>>) -> Seq<(CandidateView, nat)>
    decreases lists.len(),
{
    if lists.len() == 0 {
        Seq::empty()
    } else {
        appearances(lists.drop_last()) + ranked(lists.last())
    }
}

/// Fused score of `key`: the contributions of all its appearances.
pub open spec fn fused_score(o: Seq<(CandidateView, nat)>, key: Seq<char>) -> nat
    decreases o.len(),
{
    if o.len() == 0 {
        0
    } else {
        fused_score(o.drop_last(), key) + if key_of(o.last().0) == key {
            contribution(o.last().1)
        } else {
            0
        }
    }
}

/// The distinct identities, in order of first appearance.
pub open spec fn identities(o: Seq<(CandidateView, nat)>) -> Seq<Seq<char>>
    decreases o.len(),
{
    if o.len() == 0 {
        Seq::empty()
    } else {
        let ks = identities(o.drop_last());
        if ks.contains(key_of(o.last().0)) {
            ks
        } else {
            ks.push(key_of(o.last().0))
        }
    }
}

/// The first appearance of `key` (the one whose name and kind are kept).
pub open spec fn first_of(o: Seq<(CandidateView, nat)>, key: Seq<char>) -> CandidateView
    decreases o.len(),
{
    if o.len() == 0 {
        o[0].0
    } else if identities(o.drop_last()).contains(key) {
        first_of(o.drop_last(), key)
    } else {
        o.last().0
    }
}

proof fn lemma_identities_distinct(o: Seq<(CandidateView, nat)>)
    ensures
        identities(o).no_duplicates(),
    decreases o.len(),
{
    if o.len() > 0 {
        lemma_identities_distinct(o.drop_last());
    }
}

proof fn lemma_score_bound(o: Seq<(CandidateView, nat)>, key: Seq<char>)
    ensures
        fused_score(o, key) <= o.len() * (rrf_unit() / 61),
    decreases o.len(),
{
    if o.len() > 0 {
        lemma_score_bound(o.drop_last(), key);
        let r = o.last().1;
        assert(rrf_unit() / (61 + r) <= rrf_unit() / 61) by (nonlinear_arith)
            requires r >= 0;
        assert((o.len() - 1) * (rrf_unit() / 61) + rrf_unit() / 61 == o.len() * (rrf_unit() / 61)) by (nonlinear_arith);
    }
}

/// An identity with its fused score so far and its first candidate.
struct Fused {
    cand: Candidate,
    key: Vec<char>,
    score: u128,
}

spec fn fused_ok(f: Seq<Fused>, o: Seq<(CandidateView, nat)>) -> bool {
    &&& f.len() == identities(o).len()
    &&& forall|i: int| 0 <= i < f.len() ==> (#[trigger] f[i]).key@ == identities(o)[i]
    &&& forall|i: int| 0 <= i < f.len() ==> (#[trigger] f[i]).score == fused_score(o, identities(o)[i])
    &&& forall|i: int| 0 <= i < f.len() ==> candidate_view((#[trigger] f[i]).cand) == first_of(o, identities(o)[i])
}

/// Index of `key` among the fused identities, if present.
fn find_fused(f: &Vec<Fused>, key: &Vec<char>) -> (r: Option<usize>)
    ensures
        match r {
            Some(j) => j < f@.len() && f@[j as int].key@ == key@,
            None => forall|j: int| 0 <= j < f@.len() ==> f@[j].key@ != key@,
        },
{
    let mut j: usize = 0;
    while j < f.len()
        invariant
            j <= f.len(),
            forall|q: int| 0 <= q < j ==> f@[q].key@ != key@,
        decreases f.len() - j,
    {
        if crate::text::same_chars(&f[j].key, key) {
            return Some(j);
        }
        j = j + 1;
    }
    None
}

/// Folds one more appearance into the fused identities.
fn fuse_one(f: &mut Vec<Fused>, c: &Candidate, rank: usize, Ghost(o): Ghost<Seq<(CandidateView, nat)>>)
    requires
        fused_ok(old(f)@, o),
        (o.len() + 1) * (rrf_unit() / 61) <= u128::MAX,
    ensures
        fused_ok(final(f)@, o.push((candidate_view(*c), rank as nat))),
{
    let ghost o2 = o.push((candidate_view(*c), rank as nat));
    assert(o2.drop_last() =~= o);
    let key = chars_of(c.key().as_str());
    let add: u128 = 0x400_0000_0000_0000_0000_0000u128 / (61 + rank as u128);
    assert(add == contribution(rank as nat));
    let ghost ids = identities(o);
    match find_fused(f, &key) {
        Some(j) => {
            proof {
                lemma_score_bound(o, key@);
                lemma_score_bound(o2, key@);
                assert(ids.contains(key@)) by {
                    assert(ids[j as int] == key@);
                }
                assert(identities(o2) == ids);
            }
            let old_score = f[j].score;
            let mut e = f.remove(j);
            e.score = old_score + add;
            f.insert(j, e);
            proof {
                assert forall|i: int| 0 <= i < f@.len() implies (#[trigger] f@[i]).score == fused_score(o2, identities(o2)[i]) by {
                    if i != j {
                        lemma_identities_distinct(o);
                        assert(ids[i] != ids[j as int]);
                    }
                }
                assert forall|i: int| 0 <= i < f@.len() implies candidate_view((#[trigger] f@[i]).cand) == first_of(o2, identities(o2)[i]) by {
                    assert(ids.contains(ids[i]));
                }
            }
        },
        None => {
            proof {
                assert(!ids.contains(key@)) by {
                    if ids.contains(key@) {
                        let q = choose|q: int| 0 <= q < ids.len() && ids[q] == key@;
                        assert(f@[q].key@ == key@);
                    }
                }
                assert(identities(o2) == ids.push(key@));
                assert(fused_score(o, key@) == 0) by {
                    lemma_absent_score(o, key@);
                }
            }
            let cand = c.copy();
            f.push(Fused { cand, key, score: add });
            proof {
                assert forall|i: int| 0 <= i < f@.len() implies (#[trigger] f@[i]).score == fused_score(o2, identities(o2)[i]) by {
                    if i < ids.len() {
                        assert(ids[i] != key@);
                    }
                }
                assert forall|i: int| 0 <= i < f@.len() implies candidate_view((#[trigger] f@[i]).cand) == first_of(o2, identities(o2)[i]) by {
                    if i < ids.len() {
                        assert(ids.contains(ids[i]));
                    }
                }
            }
        },
    }
}

/// An identity that never appeared has no score.
proof fn lemma_absent_score(o: Seq<(CandidateView, nat)>, key: Seq<char>)
    requires
        !identities(o).contains(key),
    ensures
        fused_score(o, key) == 0,
    decreases o.len(),
{
    if o.len() > 0 {
        let ks = identities(o.drop_last());
        if ks.contains(key) {
            let q = choose|q: int| 0 <= q < ks.len() && ks[q] == key;
            assert(identities(o)[q] == key);
            assert(identities(o).contains(key));
        }
        assert(key_of(o.last().0) != key) by {
            if key_of(o.last().0) == key {
                if !ks.contains(key) {
                    assert(identities(o) == ks.push(key));
                    assert(identities(o)[ks.len() as int] == key);
                }
            }
        }
        lemma_absent_score(o.drop_last(), key);
    }
}

/// What fusing `lists` into at most `k` candidates promises of the result
/// `rv`: `min(k, identities)` candidates, each a known identity carrying the
/// fields of its first appearance, none twice, highest fused score first, and
/// no identity left out scoring higher than one kept.
pub open spec fn fused_top(lists: Seq<Seq<CandidateView>>, k: nat, rv: Seq<CandidateView>) -> bool {
    let o = appearances(lists);
    let ids = identities(o);
    &&& rv.len() == if k <= ids.len() { k as int } else { ids.len() as int }
    &&& forall|i: int| 0 <= i < rv.len() ==> ids.contains(key_of(#[trigger] rv[i]))
    &&& forall|i: int| 0 <= i < rv.len() ==> rv[i] == first_of(o, key_of(#[trigger] rv[i]))
    &&& forall|i: int, j: int| 0 <= i < j < rv.len() ==> key_of(rv[i]) != key_of(rv[j])
    &&& forall|i: int, j: int| 0 <= i < j < rv.len() ==> fused_score(o, key_of(rv[i])) >= fused_score(o, key_of(rv[j]))
    &&& forall|i: int, d: Seq<char>|
        #![trigger rv[i], ids.contains(d)]
        0 <= i < rv.len() && ids.contains(d) && !(exists|j: int| 0 <= j < rv.len() && key_of(#[trigger] rv[j]) == d)
            ==> fused_score(o, d) <= fused_score(o, key_of(rv[i]))
}

/// Reciprocal Rank Fusion of ranked lists into the top `k` candidates.
///
/// Each appearance of a candidate at 0-based rank `r` adds `1/(60 + r + 1)`
/// (in fixed point, `rrf_unit()` being one); candidates are identified by
/// `path:start_line`, keep the fields of their first appearance, come out
/// once, highest fused score first, and no candidate left out scores higher
/// than one kept.
pub fn rrf(lists: &Vec<Vec<Candidate>>, k: usize) -> (r: Vec<Candidate>)
    requires
        appearances(lists@.map_values(|l: Vec<Candidate>| candidate_views(l@))).len() * (rrf_unit() / 61) <= u128::MAX,
    ensures
        fused_top(lists@.map_values(|l: Vec<Candidate>| candidate_views(l@)), k as nat, candidate_views(r@)),
{
    let ghost lv = lists@.map_values(|l: Vec<Candidate>| candidate_views(l@));
    let ghost all = appearances(lv);
    let mut f: Vec<Fused> = Vec::new();
    let mut a: usize = 0;
    proof {
        lemma_appearances_prefix(lv, 0);
        assert(lv.subrange(0, 0) =~= Seq::<Seq<CandidateView>>::empty());
    }
    while a < lists.len()
        invariant
            a <= lists.len(),
            lv == lists@.map_values(|l: Vec<Candidate>| candidate_views(l@)),
            all == appearances(lv),
            all.len() * (rrf_unit() / 61) <= u128::MAX,
            fused_ok(f@, appearances(lv.subrange(0, a as int))),
            appearances(lv.subrange(0, a as int)).len() <= all.len(),
        decreases lists.len() - a,
    {
        let l = &lists[a];
        let ghost base = appearances(lv.subrange(0, a as int));
        let ghost rk = ranked(lv[a as int]);
        proof {
            assert(lv.subrange(0, a + 1).drop_last() =~= lv.subrange(0, a as int));
            assert(appearances(lv.subrange(0, a + 1)) == base + rk);
            lemma_appearances_prefix(lv, a + 1);
            assert(rk.subrange(0, 0) =~= Seq::<(CandidateView, nat)>::empty());
            assert(base + rk.subrange(0, 0) =~= base);
        }
        let mut r: usize = 0;
        while r < l.len()
            invariant
                r <= l.len(),
                l@ == lists@[a as int]@,
                rk == ranked(candidate_views(l@)),
                (base + rk).len() <= all.len(),
                all.len() * (rrf_unit() / 61) <= u128::MAX,
                fused_ok(f@, base + rk.subrange(0, r as int)),
            decreases l.len() - r,
        {
            proof {
                assert((base + rk.subrange(0, r + 1)) =~= (base + rk.subrange(0, r as int)).push((candidate_view(l@[r as int]), r as nat)));
                assert((base + rk.subrange(0, r as int)).len() + 1 <= all.len());
                assert(((base + rk.subrange(0, r as int)).len() + 1) * (rrf_unit() / 61) <= all.len() * (rrf_unit() / 61)) by (nonlinear_arith)
                    requires (base + rk.subrange(0, r as int)).len() + 1 <= all.len();
            }
            fuse_one(&mut f, &l[r], r, Ghost(base + rk.subrange(0, r as int)));
            r = r + 1;
        }
        assert(rk.subrange(0, r as int) =~= rk);
        a = a + 1;
    }
    assert(lv.subrange(0, a as int) =~= lv);
    let mut scores: Vec<u128> = Vec::new();
    let mut q: usize = 0;
    while q < f.len()
        invariant
            q <= f.len(),
            scores@.len() == q,
            forall|x: int| 0 <= x < q ==> scores@[x] == f@[x].score,
        decreases f.len() - q,
    {
        scores.push(f[q].score);
        q = q + 1;
    }
    let sel = crate::select::top_positions(&scores, k);
    let mut out: Vec<Candidate> = Vec::new();
    let mut i: usize = 0;
    proof {
        lemma_identities_distinct(all);
    }
    while i < sel.len()
        invariant
            i <= sel.len(),
            out@.len() == i,
            forall|x: int| 0 <= x < sel@.len() ==> (#[trigger] sel@[x]) < f@.len(),
            forall|x: int| 0 <= x < i ==> candidate_view(#[trigger] out@[x]) == candidate_view(f@[sel@[x] as int].cand),
        decreases sel.len() - i,
    {
        out.push(f[sel[i]].cand.copy());
        i = i + 1;
    }
    proof {
        let ids = identities(all);
        let rv = candidate_views(out@);
        assert forall|x: int| 0 <= x < rv.len() implies key_of(#[trigger] rv[x]) == ids[sel@[x] as int] by {
            assert(rv[x] == candidate_view(out@[x]));
            lemma_first_key(all, ids[sel@[x] as int]);
        }
        assert forall|x: int| 0 <= x < rv.len() implies ids.contains(key_of(#[trigger] rv[x])) by {
            assert(key_of(rv[x]) == ids[sel@[x] as int]);
        }
        assert forall|x: int| 0 <= x < rv.len() implies rv[x] == first_of(all, key_of(#[trigger] rv[x])) by {
            assert(key_of(rv[x]) == ids[sel@[x] as int]);
        }
        assert forall|x: int, y: int| 0 <= x < y < rv.len() implies key_of(rv[x]) != key_of(rv[y]) by {
            assert(key_of(rv[x]) == ids[sel@[x] as int]);
            assert(key_of(rv[y]) == ids[sel@[y] as int]);
            assert(sel@[x] != sel@[y]) by {
                assert(crate::select::outranks(scores@, sel@[x] as int, sel@[y] as int));
            }
        }
        assert forall|x: int, y: int| 0 <= x < y < rv.len() implies fused_score(all, key_of(rv[x])) >= fused_score(all, key_of(rv[y])) by {
            assert(key_of(rv[x]) == ids[sel@[x] as int]);
            assert(key_of(rv[y]) == ids[sel@[y] as int]);
            assert(crate::select::outranks(scores@, sel@[x] as int, sel@[y] as int));
        }
        assert forall|x: int, d: Seq<char>|
            #![trigger rv[x], ids.contains(d)]
            0 <= x < rv.len() && ids.contains(d) && !(exists|j: int| 0 <= j < rv.len() && key_of(#[trigger] rv[j]) == d)
                implies fused_score(all, d) <= fused_score(all, key_of(rv[x])) by {
            let y = choose|y: int| 0 <= y < ids.len() && ids[y] == d;
            assert(key_of(rv[x]) == ids[sel@[x] as int]);
            if sel@.contains(y as usize) {
                let j = choose|j: int| 0 <= j < sel@.len() && sel@[j] == y as usize;
                assert(key_of(rv[j]) == ids[sel@[j] as int]);
                assert(key_of(rv[j]) == d);
            } else {
                assert(crate::select::outranks(scores@, sel@[x] as int, y));
            }
        }
    }
    out
}

proof fn lemma_appearances_prefix(lv: Seq<Seq<CandidateView>>, a: int)
    requires
        0 <= a <= lv.len(),
    ensures
        appearances(lv.subrange(0, a)).len() <= appearances(lv).len(),
    decreases lv.len() - a,
{
    if a < lv.len() {
        lemma_appearances_prefix(lv, a + 1);
        assert(lv.subrange(0, a + 1).drop_last() =~= lv.subrange(0, a));
    } else {
        assert(lv.subrange(0, a) =~= lv);
    }
}

/// The first appearance of an identity carries that identity.
proof fn lemma_first_key(o: Seq<(CandidateView, nat)>, key: Seq<char>)
    requires
        identities(o).contains(key),
    ensures
        key_of(first_of(o, key)) == key,
    decreases o.len(),
{
    if o.len() > 0 {
        let ks = identities(o.drop_last());
        if ks.contains(key) {
            lemma_first_key(o.drop_last(), key);
        } else {
            assert(identities(o) == ks.push(key_of(o.last().0)));
            let q = choose|q: int| 0 <= q < identities(o).len() && identities(o)[q] == key;
            if q < ks.len() {
                assert(ks.contains(key));
            }
        }
    }
}


/// No two candidates of `l` share an identity.
pub open spec fn distinct_keys(l: Seq<CandidateView>) -> bool {
    forall|i: int, j: int| 0 <= i < j < l.len() ==> key_of(l[i]) != key_of(l[j])
}

/// Further down a ranking weighs strictly less, while the rank stays below
/// 2^45 - 61 (beyond, two fixed-point contributions may round alike).
proof fn lemma_contribution_decreases(a: nat, b: nat)
    requires
        a < b,
        61 + b <= 0x2000_0000_0000,
    ensures
        contribution(a) > contribution(b),
{
    let u: int = rrf_unit() as int;
    let x: int = a + 61int;
    let y: int = b + 61int;
    let q: int = u / y;
    vstd::arithmetic::div_mod::lemma_div_is_ordered_by_denominator(u, y, 0x2000_0000_0000);
    assert(u / 0x2000_0000_0000int == 0x2000_0000_0000int);
    vstd::arithmetic::div_mod::lemma_fundamental_div_mod(u, y);
    vstd::arithmetic::div_mod::lemma_fundamental_div_mod(u, x);
    assert(0 <= u % y);
    assert(0 <= u % x < x);
    assert((q + 1) * x <= u) by (nonlinear_arith)
        requires
            1 <= x <= y - 1,
            q >= y,
            y * q + u % y == u,
            0 <= u % y;
    assert(u / x >= q + 1) by (nonlinear_arith)
        requires
            (q + 1) * x <= u,
            x * (u / x) + u % x == u,
            0 <= u % x < x,
            x >= 1;
}

/// A single ranking seen as appearances: its identities in order, each
/// scored by its rank, each carried by its own candidate.
proof fn lemma_single_ranking(l: Seq<CandidateView>)
    requires
        distinct_keys(l),
    ensures
        identities(ranked(l)) == l.map_values(|c: CandidateView| key_of(c)),
        forall|j: int| 0 <= j < l.len() ==> fused_score(ranked(l), key_of(#[trigger] l[j])) == contribution(j as nat),
        forall|j: int| 0 <= j < l.len() ==> first_of(ranked(l), key_of(#[trigger] l[j])) == l[j],
    decreases l.len(),
{
    if l.len() > 0 {
        let s = l.drop_last();
        let n = l.len() - 1;
        assert(ranked(l).drop_last() =~= ranked(s));
        lemma_single_ranking(s);
        let ks = identities(ranked(s));
        assert(!ks.contains(key_of(l[n]))) by {
            if ks.contains(key_of(l[n])) {
                let q = choose|q: int| 0 <= q < ks.len() && ks[q] == key_of(l[n]);
                assert(ks[q] == key_of(s[q]));
            }
        }
        assert(identities(ranked(l)) =~= l.map_values(|c: CandidateView| key_of(c)));
        assert forall|j: int| 0 <= j < l.len() implies fused_score(ranked(l), key_of(#[trigger] l[j])) == contribution(j as nat) by {
            if j == n {
                lemma_absent_score(ranked(s), key_of(l[n]));
            } else {
                assert(s[j] == l[j]);
            }
        }
        assert forall|j: int| 0 <= j < l.len() implies first_of(ranked(l), key_of(#[trigger] l[j])) == l[j] by {
            if j < n {
                assert(s[j] == l[j]);
                assert(ks[j] == key_of(l[j]));
                assert(ks.contains(key_of(l[j])));
            }
        }
    } else {
        assert(identities(ranked(l)) =~= l.map_values(|c: CandidateView| key_of(c)));
    }
}

/// Fusing a single ranking keeps it: for any ranking that `rrf` takes, with
/// no identity twice in it, the fused top `k` is its first `k` candidates,
/// in its order.
pub proof fn fusing_one_ranking_keeps_it(l: Seq<CandidateView>, k: nat, rv: Seq<CandidateView>)
    requires
        distinct_keys(l),
        appearances(seq![l]).len() * (rrf_unit() / 61) <= u128::MAX,
        fused_top(seq![l], k, rv),
    ensures
        rv == l.take(if k <= l.len() { k as int } else { l.len() as int }),
{
    let lists = seq![l];
    assert(lists.drop_last() =~= Seq::<Seq<CandidateView>>::empty());
    assert(appearances(lists.drop_last()) =~= Seq::<(CandidateView, nat)>::empty());
    assert(lists.last() == l);
    assert(appearances(lists) =~= ranked(l));
    let o = ranked(l);
    // What `rrf` takes keeps the ranks below 2^45 - 61, where weights differ.
    vstd::arithmetic::div_mod::lemma_div_is_ordered_by_denominator(rrf_unit() as int, 61, 64);
    vstd::arithmetic::div_mod::lemma_div_multiples_vanish(0x10_0000_0000_0000_0000_0000, 64);
    assert(64 * 0x10_0000_0000_0000_0000_0000int == rrf_unit());
    assert(rrf_unit() / 61 >= 0x10_0000_0000_0000_0000_0000);
    let len = l.len();
    assert(len <= 0x1000_0000_0000) by (nonlinear_arith)
        requires
            len * (rrf_unit() / 61) <= u128::MAX,
            rrf_unit() / 61 >= 0x10_0000_0000_0000_0000_0000;
    lemma_single_ranking(l);
    let ids = identities(o);
    let m: int = rv.len() as int;
    assert(ids.len() == l.len());
    // The position in `l` of each chosen candidate.
    let p = Seq::new(rv.len(), |i: int| choose|t: int| 0 <= t < l.len() && key_of(l[t]) == key_of(rv[i]));
    assert forall|i: int| 0 <= i < m implies 0 <= #[trigger] p[i] < l.len() && key_of(l[p[i]]) == key_of(rv[i]) && rv[i] == l[p[i]] by {
        assert(ids.contains(key_of(rv[i])));
        let t = choose|t: int| 0 <= t < ids.len() && ids[t] == key_of(rv[i]);
        assert(key_of(l[t]) == key_of(rv[i]));
    }
    // Positions strictly increase: scores fall along `rv` and strictly along `l`.
    assert forall|i: int, j: int| 0 <= i < j < m implies #[trigger] p[i] < #[trigger] p[j] by {
        assert(key_of(rv[i]) != key_of(rv[j]));
        if p[i] > p[j] {
            lemma_contribution_decreases(p[j] as nat, p[i] as nat);
            assert(fused_score(o, key_of(l[p[i]])) == contribution(p[i] as nat));
            assert(fused_score(o, key_of(l[p[j]])) == contribution(p[j] as nat));
        }
    }
    // A position left out lies past every chosen one.
    assert forall|i: int, t: int| #![trigger p[i], p.contains(t)] 0 <= i < m && 0 <= t < l.len() && !p.contains(t) implies p[i] < t by {
        let d = key_of(l[t]);
        assert(ids[t] == d);
        assert(ids.contains(d));
        assert(!(exists|j: int| 0 <= j < rv.len() && key_of(#[trigger] rv[j]) == d)) by {
            if exists|j: int| 0 <= j < rv.len() && key_of(#[trigger] rv[j]) == d {
                let j = choose|j: int| 0 <= j < rv.len() && key_of(#[trigger] rv[j]) == d;
                assert(key_of(l[p[j]]) == d);
                if p[j] != t {
                    if p[j] < t {
                        assert(key_of(l[p[j]]) != key_of(l[t]));
                    } else {
                        assert(key_of(l[t]) != key_of(l[p[j]]));
                    }
                }
                assert(p[j] == t);
                assert(p.contains(t));
            }
        }
        assert(fused_score(o, d) <= fused_score(o, key_of(rv[i])));
        assert(fused_score(o, key_of(l[p[i]])) == contribution(p[i] as nat));
        assert(fused_score(o, key_of(l[t])) == contribution(t as nat));
        if t <= p[i] {
            if t == p[i] {
                assert(p.contains(t));
            } else {
                lemma_contribution_decreases(t as nat, p[i] as nat);
            }
        }
    }
    // Hence the positions are 0, 1, 2, ...
    assert forall|i: int| 0 <= i < m implies #[trigger] p[i] == i by {
        lemma_positions_are_prefix(p, l.len() as int, i);
    }
    assert(m == if k <= l.len() { k as int } else { l.len() as int });
    assert forall|i: int| 0 <= i < m implies #[trigger] rv[i] == l[i] by {
        assert(p[i] == i);
    }
    assert(rv =~= l.take(if k <= l.len() { k as int } else { l.len() as int }));
}

/// Strictly increasing positions below `n`, every position left out lying
/// past all of them, are `0, 1, 2, ...`.
proof fn lemma_positions_are_prefix(p: Seq<int>, n: int, i: int)
    requires
        0 <= i < p.len(),
        forall|x: int| 0 <= x < p.len() ==> 0 <= #[trigger] p[x] < n,
        forall|x: int, y: int| 0 <= x < y < p.len() ==> #[trigger] p[x] < #[trigger] p[y],
        forall|x: int, t: int| #![trigger p[x], p.contains(t)] 0 <= x < p.len() && 0 <= t < n && !p.contains(t) ==> p[x] < t,
    ensures
        p[i] == i,
    decreases i,
{
    if i > 0 {
        lemma_positions_are_prefix(p, n, i - 1);
    }
    assert(p[i] >= i);
    if p[i] > i {
        // `i` itself is then no chosen position, yet lies before `p[i]`.
        if p.contains(i) {
            let j = choose|j: int| 0 <= j < p.len() && p[j] == i;
            if j < i {
                lemma_positions_are_prefix(p, n, j);
            } else if j > i {
                assert(p[i] < p[j]);
            }
        } else {
            assert(p[i] < i);
        }
    }
}

/// What the text index holds of a chunk: its name ahead of its body (so
/// that the name weighs more), split code-aware.
pub open spec fn chunk_text_of(name: Seq<char>, body: Seq<char>) -> Seq<char> {
    let t = name + " "@ + body;
    split_prefix(t, t.len() as int)
}

/// The indexed text of a chunk.
pub fn chunk_text(name: &str, body: &Vec<char>) -> (r: String)
    ensures
        r@ == chunk_text_of(name@, body@),
{
    let mut t = chars_of(name);
    push_str(&mut t, " ");
    push_all(&mut t, body);
    code_split(string_of(&t).as_str())
}

/// What a text query searches for: the query split as the chunks were,
/// without surrounding blanks.
pub open spec fn query_text_of(q: Seq<char>) -> Seq<char> {
    crate::text::trim(split_prefix(q, q.len() as int))
}

/// The text a query searches for.
pub fn query_text(q: &str) -> (r: String)
    ensures
        r@ == query_text_of(q@),
{
    let s = code_split(q);
    string_of(&crate::text::trimmed(&chars_of(s.as_str())))
}

/// Whether every symbol's range ends no earlier than the line before it
/// starts (its lines can be sliced out of the file).
pub open spec fn ranges_ok(starts_ends: Seq<(usize, usize)>) -> bool {
    forall|i: int| 0 <= i < starts_ends.len() ==> (#[trigger] starts_ends[i]).0 <= starts_ends[i].1 + 1
}

/// The line ranges of symbols.
pub open spec fn symbol_ranges(s: Seq<crate::chunker::Symbol>) -> Seq<(usize, usize)> {
    s.map_values(|x: crate::chunker::Symbol| (x.start_line, x.end_line))
}

/// The line ranges of index rows.
pub open spec fn row_ranges(s: Seq<SymbolRow>) -> Seq<(usize, usize)> {
    s.map_values(|x: SymbolRow| (x.start_line, x.end_line))
}

/// The indexed texts of a file's symbols: each symbol's name and lines.
pub fn chunk_texts(symbols: &Vec<crate::chunker::Symbol>, content: &str) -> (r: Vec<String>)
    requires
        ranges_ok(symbol_ranges(symbols@)),
    ensures
        r@.len() == symbols@.len(),
        forall|i: int| 0 <= i < r@.len() ==> (#[trigger] r@[i])@ == chunk_text_of(
            symbols@[i].name@,
            slice_lines_of(lines(content@), symbols@[i].start_line as int, symbols@[i].end_line as int),
        ),
{
    let ls = split_lines(&chars_of(content));
    let mut out: Vec<String> = Vec::new();
    let mut i: usize = 0;
    while i < symbols.len()
        invariant
            i <= symbols.len(),
            views(ls@) == lines(content@),
            ranges_ok(symbol_ranges(symbols@)),
            out@.len() == i,
            forall|j: int| 0 <= j < i ==> (#[trigger] out@[j])@ == chunk_text_of(
                symbols@[j].name@,
                slice_lines_of(lines(content@), symbols@[j].start_line as int, symbols@[j].end_line as int),
            ),
        decreases symbols.len() - i,
    {
        let s = &symbols[i];
        assert(symbol_ranges(symbols@)[i as int] == (s.start_line, s.end_line));
        let body = slice_lines(&ls, s.start_line, s.end_line);
        out.push(chunk_text(s.name.as_str(), &body));
        i = i + 1;
    }
    out
}

/// The embedded texts of a file's symbols, from the index rows.
pub fn embed_texts(rows: &Vec<SymbolRow>, content: &str) -> (r: Vec<String>)
    requires
        ranges_ok(row_ranges(rows@)),
    ensures
        r@.len() == rows@.len(),
        forall|i: int| 0 <= i < r@.len() ==> (#[trigger] r@[i])@ == cut_bytes(
            rows@[i].name@ + "\n"@ + slice_lines_of(lines(content@), rows@[i].start_line as int, rows@[i].end_line as int),
            EMBED_TEXT_MAX_BYTES as nat,
        ),
{
    let ls = split_lines(&chars_of(content));
    let mut out: Vec<String> = Vec::new();
    let mut i: usize = 0;
    while i < rows.len()
        invariant
            i <= rows.len(),
            views(ls@) == lines(content@),
            ranges_ok(row_ranges(rows@)),
            out@.len() == i,
            forall|j: int| 0 <= j < i ==> (#[trigger] out@[j])@ == cut_bytes(
                rows@[j].name@ + "\n"@ + slice_lines_of(lines(content@), rows@[j].start_line as int, rows@[j].end_line as int),
                EMBED_TEXT_MAX_BYTES as nat,
            ),
        decreases rows.len() - i,
    {
        let s = &rows[i];
        assert(row_ranges(rows@)[i as int] == (s.start_line, s.end_line));
        let body = slice_lines(&ls, s.start_line, s.end_line);
        out.push(embed_text(s.name.as_str(), &body));
        i = i + 1;
    }
    out
}

/// The running account of a sync: the files walked that the index takes
/// (seen, so that the purge spares them), how many there were, how many
/// were re-indexed, and whether the text index must be committed.
pub struct SyncState {
    pub seen: Vec<String>,
    pub total: usize,
    pub reindexed: usize,
    pub dirty: bool,
}

impl SyncState {
    /// The account of a sync that has not walked anything yet.
    pub fn new() -> (r: SyncState)
        ensures
            r.seen@.len() == 0 && r.total == 0 && r.reindexed == 0 && !r.dirty,
    {
        SyncState { seen: Vec::new(), total: 0, reindexed: 0, dirty: false }
    }

    /// A walked file: whether the index takes it; a taken file is counted
    /// and remembered as seen (even if reading it then fails).
    pub fn visit(&mut self, path: &str) -> (r: bool)
        requires
            old(self).total < usize::MAX,
        ensures
            r == indexable_path(path@),
            r ==> crate::gain::string_views(final(self).seen@) == crate::gain::string_views(old(self).seen@).push(path@)
                && final(self).total == old(self).total + 1,
            !r ==> final(self).seen@ == old(self).seen@ && final(self).total == old(self).total,
            final(self).reindexed == old(self).reindexed,
            final(self).dirty == old(self).dirty,
    {
        if !indexable(path) {
            return false;
        }
        let ghost before = self.seen@;
        self.seen.push(string_of(&chars_of(path)));
        assert(crate::gain::string_views(self.seen@) =~= crate::gain::string_views(before).push(path@));
        self.total = self.total + 1;
        true
    }

    /// A taken file whose content changed was re-indexed.
    pub fn reindexed_file(&mut self)
        requires
            old(self).reindexed < usize::MAX,
        ensures
            final(self).reindexed == old(self).reindexed + 1,
            final(self).dirty,
            final(self).seen@ == old(self).seen@,
            final(self).total == old(self).total,
    {
        self.reindexed = self.reindexed + 1;
        self.dirty = true;
    }

    /// The stored paths to purge (those the walk did not see); purging any
    /// makes the text index dirty.
    pub fn purge(&mut self, stored: &Vec<String>) -> (r: Vec<String>)
        ensures
            crate::gain::string_views(r@) == stale_of(
                crate::gain::string_views(stored@),
                crate::gain::string_views(old(self).seen@),
            ),
            final(self).dirty == (old(self).dirty || r@.len() > 0),
            final(self).seen@ == old(self).seen@,
            final(self).total == old(self).total,
            final(self).reindexed == old(self).reindexed,
    {
        let r = stale_paths(stored, &self.seen);
        if r.len() > 0 {
            self.dirty = true;
        }
        r
    }

    /// The outcome of the sync, with the number of files purged.
    pub fn stats(&self, removed: usize) -> (r: SyncStats)
        ensures
            r.reindexed == self.reindexed && r.total_files == self.total && r.removed == removed,
    {
        SyncStats { reindexed: self.reindexed, total_files: self.total, removed }
    }
}


/// Whether every symbol's lines can be sliced out of its file
/// (`ranges_ok` of their ranges).
pub fn symbols_fit(symbols: &Vec<crate::chunker::Symbol>) -> (r: bool)
    ensures
        r == ranges_ok(symbol_ranges(symbols@)),
{
    let mut i: usize = 0;
    while i < symbols.len()
        invariant
            i <= symbols.len(),
            forall|j: int| 0 <= j < i ==> (#[trigger] symbols@[j]).start_line <= symbols@[j].end_line + 1,
        decreases symbols.len() - i,
    {
        let s = &symbols[i];
        if s.end_line < usize::MAX && s.start_line > s.end_line + 1 {
            assert(symbol_ranges(symbols@)[i as int] == (s.start_line, s.end_line));
            return false;
        }
        i = i + 1;
    }
    assert forall|j: int| 0 <= j < symbols@.len() implies (#[trigger] symbol_ranges(symbols@)[j]).0 <= symbol_ranges(symbols@)[j].1 + 1 by {
        assert(symbol_ranges(symbols@)[j] == (symbols@[j].start_line, symbols@[j].end_line));
    }
    true
}

/// Whether every row's lines can be sliced out of its file (`ranges_ok`
/// of their ranges).
pub fn rows_slice_fit(rows: &Vec<SymbolRow>) -> (r: bool)
    ensures
        r == ranges_ok(row_ranges(rows@)),
{
    let mut i: usize = 0;
    while i < rows.len()
        invariant
            i <= rows.len(),
            forall|j: int| 0 <= j < i ==> (#[trigger] rows@[j]).start_line <= rows@[j].end_line + 1,
        decreases rows.len() - i,
    {
        let s = &rows[i];
        if s.end_line < usize::MAX && s.start_line > s.end_line + 1 {
            assert(row_ranges(rows@)[i as int] == (s.start_line, s.end_line));
            return false;
        }
        i = i + 1;
    }
    assert forall|j: int| 0 <= j < rows@.len() implies (#[trigger] row_ranges(rows@)[j]).0 <= row_ranges(rows@)[j].1 + 1 by {
        assert(row_ranges(rows@)[j] == (rows@[j].start_line, rows@[j].end_line));
    }
    true
}

} // verus!
