//! `symbol_lookup`: the exact definition of a symbol from the index, with
//! its `path:lines` anchor, without opening whole files. Bodies are shown
//! for the first matches while an output budget lasts; the rest as
//! signatures.

use vstd::prelude::*;
use crate::text::{blen, byte_len_capped, decimal, push_all, push_decimal, push_str, string_of, views};
use crate::index::{join, join_chars, SymbolRow, SyncStats};
use crate::tools::{body_of, capped_end, read_body, read_view, ToolResult};

verus! {

/// Most matches shown with their whole body.
pub const MAX_BODIES: usize = 6;

/// Output budget in bytes: once spent, the remaining matches show their
/// signature only (six long bodies alone came to 19 KB).
pub const OUTPUT_BUDGET: usize = 5000;

/// Lines kept of one body, so that a single huge function cannot take the
/// whole budget.
pub const MAX_BODY_LINES: usize = 120;

/// How fresh the index is after the sync that preceded the lookup.
pub open spec fn index_freshness(s: SyncStats) -> Seq<char> {
    "[índice: "@ + decimal(s.total_files as nat) + " archivos, "@ + decimal(s.reindexed as nat)
        + " re-indexados, "@ + decimal(s.removed as nat) + " eliminados]"@
}

/// The answer when no symbol has the name.
pub open spec fn no_symbol_text(name: Seq<char>, s: SyncStats, count: nat) -> Seq<char> {
    "Ningún símbolo llamado '"@ + name + "' encontrado.\n"@ + index_freshness(s) + " ("@ + decimal(count)
        + " símbolos totales)"@
}

/// First line of the answer.
pub open spec fn lookup_header(n: nat, name: Seq<char>, s: SyncStats) -> Seq<char> {
    decimal(n) + " coincidencia(s) para '"@ + name + "'  "@ + index_freshness(s)
}

/// The anchor of a match: name, kind and `path:Lstart-end`.
pub open spec fn row_anchor(r: SymbolRow) -> Seq<char> {
    "── "@ + r.name@ + " · "@ + r.kind@ + " · "@ + r.path@ + ":L"@ + decimal(r.start_line as nat) + "-"@
        + decimal(r.end_line as nat)
}

/// The note under a body cut at line `capped`.
pub open spec fn cut_body_note(r: SymbolRow, capped: nat) -> Seq<char> {
    "   … (+"@ + decimal((r.end_line - capped) as nat) + " líneas; el cuerpo completo está en "@ + r.path@ + ":L"@
        + decimal(r.start_line as nat) + "-"@ + decimal(r.end_line as nat) + ")"@
}

/// The line in place of a body that could not be read.
pub open spec fn unreadable_body(e: Seq<char>) -> Seq<char> {
    "[no se pudo leer el cuerpo: "@ + e + "]"@
}

/// The closing note when matches were shown by signature only.
pub open spec fn signature_only_note(n: nat) -> Seq<char> {
    "[+"@ + decimal(n)
        + " coincidencias solo como firma (presupuesto de salida); refina el nombre o usa el ancla path:líneas para ver un cuerpo concreto]"@
}

/// The lines for the first `n` matches, the bytes of body shown so far and
/// how many matches went by signature only. `files[i]` is the read of the
/// file of match `i`, for the matches that may show a body.
pub open spec fn lookup_fold(rows: Seq<SymbolRow>, files: Seq<Result<String, String>>, n: nat) -> (Seq<Seq<char>>, nat, nat)
    decreases n,
{
    if n == 0 {
        (Seq::empty(), 0, 0)
    } else {
        let pre = lookup_fold(rows, files, (n - 1) as nat);
        let i = n - 1;
        let r = rows[i];
        let head = pre.0 + seq![Seq::<char>::empty(), row_anchor(r)];
        if i < MAX_BODIES && pre.1 < OUTPUT_BUDGET {
            let capped = capped_end(r.start_line as nat, r.end_line as nat, MAX_BODY_LINES as nat);
            match body_of(r.path@, read_view(files[i]), r.start_line as nat, capped) {
                Ok(code) => (
                    head + seq![code] + if capped < r.end_line {
                        seq![cut_body_note(r, capped)]
                    } else {
                        Seq::empty()
                    },
                    pre.1 + blen(code),
                    pre.2,
                ),
                Err(e) => (head + seq![unreadable_body(e)], pre.1, pre.2),
            }
        } else {
            (head + seq!["   "@ + r.signature@], pre.1, pre.2 + 1)
        }
    }
}

/// The lines of the answer for the matches.
pub open spec fn lookup_lines(name: Seq<char>, s: SyncStats, rows: Seq<SymbolRow>, files: Seq<Result<String, String>>) -> Seq<Seq<char>> {
    let f = lookup_fold(rows, files, rows.len());
    seq![lookup_header(rows.len(), name, s)] + f.0 + if f.2 > 0 {
        seq![Seq::<char>::empty(), signature_only_note(f.2)]
    } else {
        Seq::empty()
    }
}

/// Label of the baseline of a lookup.
pub open spec fn lookup_baseline_label() -> Seq<char> {
    "leer enteros los archivos con el símbolo"@
}

/// Whether the rows of matches can be shown: each ends no earlier than the
/// line before it starts, and its body cut fits in a `usize`.
pub open spec fn rows_ok(rows: Seq<SymbolRow>) -> bool {
    forall|i: int| 0 <= i < rows.len() ==> (#[trigger] rows[i]).start_line <= rows[i].end_line + 1
        && rows[i].start_line + MAX_BODY_LINES <= usize::MAX
}

/// Appends the decimal rendering of a count.
fn push_count(out: &mut Vec<char>, n: usize)
    ensures
        final(out)@ == old(out)@ + decimal(n as nat),
{
    push_decimal(out, n as u64);
}

/// The freshness note of the index.
fn freshness_line(out: &mut Vec<char>, s: &SyncStats)
    ensures
        final(out)@ == old(out)@ + index_freshness(*s),
{
    let ghost o = out@;
    push_str(out, "[índice: ");
    push_count(out, s.total_files);
    push_str(out, " archivos, ");
    push_count(out, s.reindexed);
    push_str(out, " re-indexados, ");
    push_count(out, s.removed);
    push_str(out, " eliminados]");
    assert(out@ =~= o + index_freshness(*s));
}

/// The answer of `symbol_lookup` for the matches of `name` in the index
/// after a sync: each with its anchor and, while the budget lasts, its body
/// (`files[i]` is what reading the file of match `i` gave, for the first
/// `MAX_BODIES` matches); `baseline` is the size of the distinct files.
pub fn lookup_report(
    name: &str,
    stats: &SyncStats,
    symbol_count: usize,
    rows: &Vec<SymbolRow>,
    files: &Vec<Result<String, String>>,
    baseline: usize,
) -> (r: ToolResult)
    requires
        files.len() >= if rows.len() < MAX_BODIES { rows.len() } else { MAX_BODIES },
        rows_ok(rows@),
    ensures
        r.detail matches Some(d) && d@ == name@,
        rows.len() == 0 ==> {
            &&& r.text@ == no_symbol_text(name@, *stats, symbol_count as nat)
            &&& r.baseline_chars == blen(r.text@) as usize
            &&& r.vs@ == crate::tools::no_gain_label()
            &&& r.no_gain
        },
        rows.len() > 0 ==> {
            &&& r.text@ == join(lookup_lines(name@, *stats, rows@, files@), "\n"@)
            &&& r.baseline_chars == baseline
            &&& r.vs@ == lookup_baseline_label()
            &&& !r.no_gain
        },
{
    if rows.len() == 0 {
        let mut t: Vec<char> = Vec::new();
        push_str(&mut t, "Ningún símbolo llamado '");
        push_str(&mut t, name);
        push_str(&mut t, "' encontrado.\n");
        freshness_line(&mut t, stats);
        push_str(&mut t, " (");
        push_count(&mut t, symbol_count);
        push_str(&mut t, " símbolos totales)");
        assert(t@ =~= no_symbol_text(name@, *stats, symbol_count as nat));
        return ToolResult::text_no_gain(string_of(&t), name);
    }
    let mut out: Vec<Vec<char>> = Vec::new();
    let mut h: Vec<char> = Vec::new();
    push_count(&mut h, rows.len());
    push_str(&mut h, " coincidencia(s) para '");
    push_str(&mut h, name);
    push_str(&mut h, "'  ");
    freshness_line(&mut h, stats);
    assert(h@ =~= lookup_header(rows@.len(), name@, *stats));
    out.push(h);
    let mut used: usize = 0;
    let mut only: usize = 0;
    let mut i: usize = 0;
    assert(views(out@) =~= seq![lookup_header(rows@.len(), name@, *stats)] + lookup_fold(rows@, files@, 0).0);
    while i < rows.len()
        invariant
            i <= rows.len(),
            files.len() >= if rows.len() < MAX_BODIES { rows.len() } else { MAX_BODIES },
            rows_ok(rows@),
            views(out@) == seq![lookup_header(rows@.len(), name@, *stats)] + lookup_fold(rows@, files@, i as nat).0,
            used == if lookup_fold(rows@, files@, i as nat).1 < OUTPUT_BUDGET {
                lookup_fold(rows@, files@, i as nat).1
            } else {
                OUTPUT_BUDGET as nat
            },
            only == lookup_fold(rows@, files@, i as nat).2,
            only <= i,
        decreases rows.len() - i,
    {
        let ghost pre = lookup_fold(rows@, files@, i as nat);
        let ghost now = lookup_fold(rows@, files@, (i + 1) as nat);
        let ghost start = views(out@);
        let r = &rows[i];
        out.push(Vec::new());
        let mut anchor: Vec<char> = Vec::new();
        push_str(&mut anchor, "── ");
        push_str(&mut anchor, r.name.as_str());
        push_str(&mut anchor, " · ");
        push_str(&mut anchor, r.kind.as_str());
        push_str(&mut anchor, " · ");
        push_str(&mut anchor, r.path.as_str());
        push_str(&mut anchor, ":L");
        push_count(&mut anchor, r.start_line);
        push_str(&mut anchor, "-");
        push_count(&mut anchor, r.end_line);
        assert(anchor@ =~= row_anchor(rows@[i as int]));
        out.push(anchor);
        let ghost head = start + seq![Seq::<char>::empty(), row_anchor(rows@[i as int])];
        assert(views(out@) =~= head);
        if i < MAX_BODIES && used < OUTPUT_BUDGET {
            let capped: usize = if r.start_line + MAX_BODY_LINES < r.end_line {
                r.start_line + MAX_BODY_LINES
            } else {
                r.end_line
            };
            match read_body(r.path.as_str(), &files[i], r.start_line, capped) {
                Ok(code) => {
                    let n = byte_len_capped(&code, OUTPUT_BUDGET);
                    used = if n >= OUTPUT_BUDGET - used {
                        OUTPUT_BUDGET
                    } else {
                        used + n
                    };
                    let ghost before = views(out@);
                    let ghost cv = code@;
                    out.push(code);
                    assert(views(out@) =~= before.push(cv));
                    if capped < r.end_line {
                        let mut note: Vec<char> = Vec::new();
                        push_str(&mut note, "   … (+");
                        push_count(&mut note, r.end_line - capped);
                        push_str(&mut note, " líneas; el cuerpo completo está en ");
                        push_str(&mut note, r.path.as_str());
                        push_str(&mut note, ":L");
                        push_count(&mut note, r.start_line);
                        push_str(&mut note, "-");
                        push_count(&mut note, r.end_line);
                        push_str(&mut note, ")");
                        assert(note@ =~= cut_body_note(rows@[i as int], capped as nat));
                        let ghost b2 = views(out@);
                        out.push(note);
                        assert(views(out@) =~= b2.push(cut_body_note(rows@[i as int], capped as nat)));
                    }
                    assert(now.0 =~= pre.0 + seq![Seq::<char>::empty(), row_anchor(rows@[i as int])] + seq![cv] + if capped < r.end_line {
                        seq![cut_body_note(rows@[i as int], capped as nat)]
                    } else {
                        Seq::empty()
                    });
                },
                Err(e) => {
                    let mut line: Vec<char> = Vec::new();
                    push_str(&mut line, "[no se pudo leer el cuerpo: ");
                    push_all(&mut line, &e);
                    push_str(&mut line, "]");
                    let ghost before = views(out@);
                    let ghost lv = line@;
                    out.push(line);
                    assert(views(out@) =~= before.push(lv));
                    assert(now.0 =~= pre.0 + seq![Seq::<char>::empty(), row_anchor(rows@[i as int])] + seq![unreadable_body(e@)]);
                },
            }
        } else {
            let mut line: Vec<char> = Vec::new();
            push_str(&mut line, "   ");
            push_str(&mut line, r.signature.as_str());
            let ghost before = views(out@);
            let ghost lv = line@;
            out.push(line);
            assert(views(out@) =~= before.push(lv));
            only = only + 1;
        }
        i = i + 1;
    }
    let ghost fin = lookup_fold(rows@, files@, rows@.len());
    if only > 0 {
        let mut note: Vec<char> = Vec::new();
        push_str(&mut note, "[+");
        push_count(&mut note, only);
        push_str(&mut note, " coincidencias solo como firma (presupuesto de salida); refina el nombre o usa el ancla path:líneas para ver un cuerpo concreto]");
        assert(note@ =~= signature_only_note(fin.2));
        let ghost before = views(out@);
        out.push(Vec::new());
        out.push(note);
        assert(views(out@) =~= before + seq![Seq::<char>::empty(), signature_only_note(fin.2)]);
    }
    assert(views(out@) =~= lookup_lines(name@, *stats, rows@, files@));
    let text = join_chars(&out, 0, out.len(), "\n");
    assert(views(out@).subrange(0, out@.len() as int) =~= views(out@));
    ToolResult::text(string_of(&text), baseline, "leer enteros los archivos con el símbolo", name)
}


/// Whether the rows of matches can be shown (`rows_ok`).
pub fn rows_fit(rows: &Vec<SymbolRow>) -> (r: bool)
    ensures
        r == rows_ok(rows@),
{
    let mut i: usize = 0;
    while i < rows.len()
        invariant
            i <= rows.len(),
            forall|j: int| 0 <= j < i ==> (#[trigger] rows@[j]).start_line <= rows@[j].end_line + 1
                && rows@[j].start_line + MAX_BODY_LINES <= usize::MAX,
        decreases rows.len() - i,
    {
        let r = &rows[i];
        if r.end_line < usize::MAX && r.start_line > r.end_line + 1 {
            return false;
        }
        if r.start_line > usize::MAX - MAX_BODY_LINES {
            return false;
        }
        i = i + 1;
    }
    true
}

} // verus!
