//! `codebase_search`: the most relevant fragments of the workspace for a
//! query, fused from the lexical (BM25) and semantic rankings, each with its
//! `path:lines` anchor and its code, under an output budget.

use vstd::prelude::*;
use crate::text::{blen, byte_len_capped, decimal, push_all, push_decimal, push_str, string_of, views};
use crate::index::{join, join_chars, Candidate, SyncStats, VectorStats};
use crate::tools::{body_of, capped_end, read_body, read_view, ToolResult};

verus! {

/// Results when the caller does not say how many.
pub const DEFAULT_K: usize = 8;

/// Fewest and most results a caller may ask for.
pub const MIN_K: usize = 1;
pub const MAX_K: usize = 25;

/// Candidates taken from each ranking before fusing them.
pub const POOL: usize = 30;

/// Lines shown of one fragment.
pub const MAX_LINES_PER_HIT: usize = 60;

/// Output budget in bytes: once spent, the remaining results show their
/// anchor only.
pub const OUTPUT_BUDGET: usize = 8000;

/// How many results a search returns for the requested `k`: the default
/// when absent, clamped to `MIN_K..=MAX_K`.
pub open spec fn k_of(k: Option<u64>) -> usize {
    let n: usize = match k {
        Some(v) => v as usize,
        None => DEFAULT_K,
    };
    if n < MIN_K {
        MIN_K
    } else if n > MAX_K {
        MAX_K
    } else {
        n
    }
}

/// How many results a search returns for the requested `k`.
pub fn search_k(k: Option<u64>) -> (r: usize)
    ensures
        r == k_of(k),
        MIN_K <= r <= MAX_K,
{
    let n: usize = match k {
        Some(v) => v as usize,
        None => DEFAULT_K,
    };
    if n < MIN_K {
        MIN_K
    } else if n > MAX_K {
        MAX_K
    } else {
        n
    }
}

/// The retrieval mode: hybrid when the semantic index answered (saying how
/// many symbols still wait for a vector), lexical only when it failed.
pub open spec fn mode_of(vectors: Option<VectorStats>) -> Seq<char> {
    match vectors {
        Some(v) => if v.remaining > 0 {
            "híbrido · índice semántico calentando ("@ + decimal(v.remaining as nat) + " pendientes)"@
        } else {
            "híbrido (BM25 + semántico)"@
        },
        None => "BM25 (semántico no disponible)"@,
    }
}

/// The note on the index that heads a search answer.
pub open spec fn search_freshness(vectors: Option<VectorStats>, s: SyncStats, vector_count: nat) -> Seq<char> {
    "["@ + mode_of(vectors) + " · "@ + decimal(s.total_files as nat) + " archivos · "@ + decimal(vector_count)
        + " símbolos vectorizados]"@
}

/// The note on the index that heads a search answer: the mode, the files
/// indexed and the symbols with a vector.
pub fn search_note(vectors: &Option<VectorStats>, stats: &SyncStats, vector_count: usize) -> (r: String)
    ensures
        r@ == search_freshness(*vectors, *stats, vector_count as nat),
{
    let mut t: Vec<char> = Vec::new();
    push_str(&mut t, "[");
    match vectors {
        Some(v) => {
            if v.remaining > 0 {
                push_str(&mut t, "híbrido · índice semántico calentando (");
                push_decimal(&mut t, v.remaining as u64);
                push_str(&mut t, " pendientes)");
            } else {
                push_str(&mut t, "híbrido (BM25 + semántico)");
            }
        },
        None => {
            push_str(&mut t, "BM25 (semántico no disponible)");
        },
    }
    push_str(&mut t, " · ");
    push_decimal(&mut t, stats.total_files as u64);
    push_str(&mut t, " archivos · ");
    push_decimal(&mut t, vector_count as u64);
    push_str(&mut t, " símbolos vectorizados]");
    assert(t@ =~= search_freshness(*vectors, *stats, vector_count as nat));
    string_of(&t)
}

/// The answer when nothing was found.
pub open spec fn no_results_text(query: Seq<char>, freshness: Seq<char>) -> Seq<char> {
    "Sin coincidencias para: \""@ + query + "\"\n"@ + freshness
}

/// First line of the answer.
pub open spec fn search_header(n: nat, query: Seq<char>, freshness: Seq<char>) -> Seq<char> {
    decimal(n) + " resultado(s) para \""@ + query + "\"  "@ + freshness
}

/// The anchor of the `i`-th result (0-based).
pub open spec fn hit_anchor(i: nat, h: Candidate) -> Seq<char> {
    "#"@ + decimal(i + 1) + " ── "@ + h.name@ + " · "@ + h.kind@ + " · "@ + h.path@ + ":L"@ + decimal(h.start_line as nat)
        + "-"@ + decimal(h.end_line as nat)
}

/// The note under a fragment cut at line `capped`.
pub open spec fn cut_fragment_note(h: Candidate, capped: nat) -> Seq<char> {
    "   … (+"@ + decimal((h.end_line - capped) as nat) + " líneas; usa symbol_lookup(\""@ + h.name@
        + "\") para el cuerpo completo)"@
}

/// The line in place of a fragment that could not be read.
pub open spec fn unreadable_fragment(e: Seq<char>) -> Seq<char> {
    "[no se pudo leer: "@ + e + "]"@
}

/// The closing note when results were shown by anchor only.
pub open spec fn anchors_only_note(n: nat) -> Seq<char> {
    "["@ + decimal(n)
        + " resultado(s) más, solo con su ancla (presupuesto de salida): pídelos con symbol_lookup o acota la consulta]"@
}

/// The lines for the first `n` results, the bytes of code shown so far and
/// how many results went by anchor only. `files[i]` is the read of the file
/// of result `i`.
pub open spec fn search_fold(hits: Seq<Candidate>, files: Seq<Result<String, String>>, n: nat) -> (Seq<Seq<char>>, nat, nat)
    decreases n,
{
    if n == 0 {
        (Seq::empty(), 0, 0)
    } else {
        let pre = search_fold(hits, files, (n - 1) as nat);
        let i = (n - 1) as nat;
        let h = hits[i as int];
        let head = pre.0 + seq![Seq::<char>::empty(), hit_anchor(i, h)];
        if pre.1 >= OUTPUT_BUDGET {
            (head, pre.1, pre.2 + 1)
        } else {
            let capped = capped_end(h.start_line as nat, h.end_line as nat, MAX_LINES_PER_HIT as nat);
            match body_of(h.path@, read_view(files[i as int]), h.start_line as nat, capped) {
                Ok(code) => (
                    head + seq![code] + if capped < h.end_line {
                        seq![cut_fragment_note(h, capped)]
                    } else {
                        Seq::empty()
                    },
                    pre.1 + blen(code),
                    pre.2,
                ),
                Err(e) => (head + seq![unreadable_fragment(e)], pre.1, pre.2),
            }
        }
    }
}

/// The lines of the answer for the results.
pub open spec fn search_lines(query: Seq<char>, freshness: Seq<char>, hits: Seq<Candidate>, files: Seq<Result<String, String>>) -> Seq<Seq<char>> {
    let f = search_fold(hits, files, hits.len());
    seq![search_header(hits.len(), query, freshness)] + f.0 + if f.2 > 0 {
        seq![Seq::<char>::empty(), anchors_only_note(f.2)]
    } else {
        Seq::empty()
    }
}

/// Label of the baseline of a search.
pub open spec fn search_baseline_label() -> Seq<char> {
    "leer enteros los archivos con resultados"@
}

/// Whether the results can be shown: each ends no earlier than the line
/// before it starts, and its fragment cut fits in a `usize`.
pub open spec fn hits_ok(hits: Seq<Candidate>) -> bool {
    forall|i: int| 0 <= i < hits.len() ==> (#[trigger] hits[i]).start_line <= hits[i].end_line + 1
        && hits[i].start_line + MAX_LINES_PER_HIT <= usize::MAX
}

/// The answer of `codebase_search` for the fused results of `query`
/// (`files[i]` is what reading the file of result `i` gave; `baseline` is
/// the size of the distinct files with results).
pub fn search_report(
    query: &str,
    freshness: &str,
    hits: &Vec<Candidate>,
    files: &Vec<Result<String, String>>,
    baseline: usize,
) -> (r: ToolResult)
    requires
        files.len() >= hits.len(),
        hits_ok(hits@),
    ensures
        r.detail matches Some(d) && d@ == query@,
        hits.len() == 0 ==> {
            &&& r.text@ == no_results_text(query@, freshness@)
            &&& r.baseline_chars == blen(r.text@) as usize
            &&& r.vs@ == crate::tools::no_gain_label()
            &&& r.no_gain
        },
        hits.len() > 0 ==> {
            &&& r.text@ == join(search_lines(query@, freshness@, hits@, files@), "\n"@)
            &&& r.baseline_chars == baseline
            &&& r.vs@ == search_baseline_label()
            &&& !r.no_gain
        },
{
    if hits.len() == 0 {
        let mut t: Vec<char> = Vec::new();
        push_str(&mut t, "Sin coincidencias para: \"");
        push_str(&mut t, query);
        push_str(&mut t, "\"\n");
        push_str(&mut t, freshness);
        assert(t@ =~= no_results_text(query@, freshness@));
        return ToolResult::text_no_gain(string_of(&t), query);
    }
    let mut out: Vec<Vec<char>> = Vec::new();
    let mut h: Vec<char> = Vec::new();
    push_decimal(&mut h, hits.len() as u64);
    push_str(&mut h, " resultado(s) para \"");
    push_str(&mut h, query);
    push_str(&mut h, "\"  ");
    push_str(&mut h, freshness);
    assert(h@ =~= search_header(hits@.len(), query@, freshness@));
    out.push(h);
    let mut used: usize = 0;
    let mut anchors: usize = 0;
    let mut i: usize = 0;
    assert(views(out@) =~= seq![search_header(hits@.len(), query@, freshness@)] + search_fold(hits@, files@, 0).0);
    while i < hits.len()
        invariant
            i <= hits.len(),
            files.len() >= hits.len(),
            hits_ok(hits@),
            views(out@) == seq![search_header(hits@.len(), query@, freshness@)] + search_fold(hits@, files@, i as nat).0,
            used == if search_fold(hits@, files@, i as nat).1 < OUTPUT_BUDGET {
                search_fold(hits@, files@, i as nat).1
            } else {
                OUTPUT_BUDGET as nat
            },
            anchors == search_fold(hits@, files@, i as nat).2,
            anchors <= i,
        decreases hits.len() - i,
    {
        let ghost pre = search_fold(hits@, files@, i as nat);
        let ghost now = search_fold(hits@, files@, (i + 1) as nat);
        let ghost start = views(out@);
        let c = &hits[i];
        out.push(Vec::new());
        let mut anchor: Vec<char> = Vec::new();
        push_str(&mut anchor, "#");
        push_decimal(&mut anchor, (i + 1) as u64);
        push_str(&mut anchor, " ── ");
        push_str(&mut anchor, c.name.as_str());
        push_str(&mut anchor, " · ");
        push_str(&mut anchor, c.kind.as_str());
        push_str(&mut anchor, " · ");
        push_str(&mut anchor, c.path.as_str());
        push_str(&mut anchor, ":L");
        push_decimal(&mut anchor, c.start_line as u64);
        push_str(&mut anchor, "-");
        push_decimal(&mut anchor, c.end_line as u64);
        assert(anchor@ =~= hit_anchor(i as nat, hits@[i as int]));
        out.push(anchor);
        assert(views(out@) =~= start + seq![Seq::<char>::empty(), hit_anchor(i as nat, hits@[i as int])]);
        if used >= OUTPUT_BUDGET {
            anchors = anchors + 1;
        } else {
            let capped: usize = if c.start_line + MAX_LINES_PER_HIT < c.end_line {
                c.start_line + MAX_LINES_PER_HIT
            } else {
                c.end_line
            };
            match read_body(c.path.as_str(), &files[i], c.start_line, capped) {
                Ok(code) => {
                    let n = byte_len_capped(&code, OUTPUT_BUDGET);
                    used = if n >= OUTPUT_BUDGET - used {
                        OUTPUT_BUDGET
                    } else {
                        used + n
                    };
                    let ghost before = views(out@);
                    let ghost cv = code@;
                    out.push(code);
                    assert(views(out@) =~= before.push(cv));
                    if capped < c.end_line {
                        let mut note: Vec<char> = Vec::new();
                        push_str(&mut note, "   … (+");
                        push_decimal(&mut note, (c.end_line - capped) as u64);
                        push_str(&mut note, " líneas; usa symbol_lookup(\"");
                        push_str(&mut note, c.name.as_str());
                        push_str(&mut note, "\") para el cuerpo completo)");
                        assert(note@ =~= cut_fragment_note(hits@[i as int], capped as nat));
                        let ghost b2 = views(out@);
                        out.push(note);
                        assert(views(out@) =~= b2.push(cut_fragment_note(hits@[i as int], capped as nat)));
                    }
                    assert(now.0 =~= pre.0 + seq![Seq::<char>::empty(), hit_anchor(i as nat, hits@[i as int])] + seq![cv]
                        + if capped < c.end_line {
                        seq![cut_fragment_note(hits@[i as int], capped as nat)]
                    } else {
                        Seq::empty()
                    });
                },
                Err(e) => {
                    let mut line: Vec<char> = Vec::new();
                    push_str(&mut line, "[no se pudo leer: ");
                    push_all(&mut line, &e);
                    push_str(&mut line, "]");
                    let ghost before = views(out@);
                    let ghost lv = line@;
                    out.push(line);
                    assert(views(out@) =~= before.push(lv));
                    assert(now.0 =~= pre.0 + seq![Seq::<char>::empty(), hit_anchor(i as nat, hits@[i as int])] + seq![unreadable_fragment(e@)]);
                },
            }
        }
        i = i + 1;
    }
    let ghost fin = search_fold(hits@, files@, hits@.len());
    if anchors > 0 {
        let mut note: Vec<char> = Vec::new();
        push_str(&mut note, "[");
        push_decimal(&mut note, anchors as u64);
        push_str(&mut note, " resultado(s) más, solo con su ancla (presupuesto de salida): pídelos con symbol_lookup o acota la consulta]");
        assert(note@ =~= anchors_only_note(fin.2));
        let ghost before = views(out@);
        out.push(Vec::new());
        out.push(note);
        assert(views(out@) =~= before + seq![Seq::<char>::empty(), anchors_only_note(fin.2)]);
    }
    assert(views(out@) =~= search_lines(query@, freshness@, hits@, files@));
    let text = join_chars(&out, 0, out.len(), "\n");
    assert(views(out@).subrange(0, out@.len() as int) =~= views(out@));
    ToolResult::text(string_of(&text), baseline, "leer enteros los archivos con resultados", query)
}


/// Whether the results can be shown (`hits_ok`).
pub fn hits_fit(hits: &Vec<Candidate>) -> (r: bool)
    ensures
        r == hits_ok(hits@),
{
    let mut i: usize = 0;
    while i < hits.len()
        invariant
            i <= hits.len(),
            forall|j: int| 0 <= j < i ==> (#[trigger] hits@[j]).start_line <= hits@[j].end_line + 1
                && hits@[j].start_line + MAX_LINES_PER_HIT <= usize::MAX,
        decreases hits.len() - i,
    {
        let h = &hits[i];
        if h.end_line < usize::MAX && h.start_line > h.end_line + 1 {
            return false;
        }
        if h.start_line > usize::MAX - MAX_LINES_PER_HIT {
            return false;
        }
        i = i + 1;
    }
    true
}

} // verus!
