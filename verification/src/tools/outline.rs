//! `file_outline`: the signatures of a file without their bodies, to find
//! one's way without paying for reading the whole file.

use vstd::prelude::*;
use crate::text::{blen, chars_of, decimal, pad_right, push_decimal, push_padded_right, push_all, push_str, string_of, truncate_chars, truncated, views};
use crate::index::{join, join_chars};
use crate::chunker::{parse, symbols_of_file, SymbolView};
use crate::tools::ToolResult;

verus! {

/// Characters of a signature shown on its line.
pub const OUTLINE_SIGNATURE_CHARS: usize = 100;

/// The line of a symbol: `L` and its first line in five columns, its kind
/// in twenty-six, then its signature cut to `OUTLINE_SIGNATURE_CHARS`.
pub open spec fn outline_line(s: SymbolView) -> Seq<char> {
    "L"@ + pad_right(decimal(s.start_line), 5) + " "@ + pad_right(s.kind, 26) + " "@
        + truncate_chars(s.signature, OUTLINE_SIGNATURE_CHARS as nat)
}

/// The lines of an outline.
pub open spec fn outline_lines(path: Seq<char>, syms: Seq<SymbolView>) -> Seq<Seq<char>> {
    seq!["Outline: "@ + path + " ("@ + decimal(syms.len()) + " símbolos)"@] + syms.map_values(
        |s: SymbolView| outline_line(s),
    )
}

/// The answer for a file without symbols (or in an unsupported language).
pub open spec fn no_symbols_text(path: Seq<char>) -> Seq<char> {
    "No symbols found in "@ + path + " (lenguaje no soportado o archivo sin símbolos)."@
}

/// Label of the baseline of an outline.
pub open spec fn outline_baseline_label() -> Seq<char> {
    "leer el archivo completo"@
}

/// The answer of `file_outline` for the file at `path` with `content`: its
/// symbols one per line, measured against reading the whole file.
pub fn outline(path: &str, content: &str) -> (r: ToolResult)
    ensures
        r.detail matches Some(d) && d@ == path@,
        r.baseline_chars == blen(content@) as usize,
        r.vs@ == outline_baseline_label(),
        !r.no_gain,
        symbols_of_file(path@, content@).len() == 0 ==> r.text@ == no_symbols_text(path@),
        symbols_of_file(path@, content@).len() > 0 ==> r.text@ == join(
            outline_lines(path@, symbols_of_file(path@, content@)),
            "\n"@,
        ),
{
    let symbols = parse(path, content);
    let ghost sv = symbols_of_file(path@, content@);
    let baseline = content.len();
    if symbols.len() == 0 {
        let mut t: Vec<char> = Vec::new();
        push_str(&mut t, "No symbols found in ");
        push_str(&mut t, path);
        push_str(&mut t, " (lenguaje no soportado o archivo sin símbolos).");
        assert(t@ =~= no_symbols_text(path@));
        return ToolResult::text(string_of(&t), baseline, "leer el archivo completo", path);
    }
    let ghost want = outline_lines(path@, sv);
    let mut out: Vec<Vec<char>> = Vec::new();
    let mut h: Vec<char> = Vec::new();
    push_str(&mut h, "Outline: ");
    push_str(&mut h, path);
    push_str(&mut h, " (");
    push_decimal(&mut h, symbols.len() as u64);
    push_str(&mut h, " símbolos)");
    assert(h@ =~= want[0]);
    out.push(h);
    let mut i: usize = 0;
    assert(views(out@) =~= want.subrange(0, 1));
    while i < symbols.len()
        invariant
            i <= symbols.len(),
            sv == symbols_of_file(path@, content@),
            crate::chunker::symbol_views(symbols@) == sv,
            want == outline_lines(path@, sv),
            views(out@) == want.subrange(0, i + 1),
        decreases symbols.len() - i,
    {
        let s = &symbols[i];
        let mut line: Vec<char> = Vec::new();
        push_str(&mut line, "L");
        let mut n: Vec<char> = Vec::new();
        push_decimal(&mut n, s.start_line as u64);
        push_padded_right(&mut line, &n, 5);
        push_str(&mut line, " ");
        push_padded_right(&mut line, &chars_of(s.kind.as_str()), 26);
        push_str(&mut line, " ");
        let sig = truncated(&chars_of(s.signature.as_str()), OUTLINE_SIGNATURE_CHARS);
        push_all(&mut line, &sig);
        assert(sv[i as int] == crate::chunker::symbol_view(symbols@[i as int]));
        assert(line@ =~= outline_line(sv[i as int]));
        assert(want[i + 1] == outline_line(sv[i as int]));
        let ghost before = views(out@);
        out.push(line);
        assert(views(out@) =~= before.push(want[i + 1]));
        assert(want.subrange(0, i + 2) =~= want.subrange(0, i + 1).push(want[i + 1]));
        i = i + 1;
    }
    assert(want.subrange(0, i + 1) =~= want);
    let text = join_chars(&out, 0, out.len(), "\n");
    assert(views(out@).subrange(0, out@.len() as int) =~= views(out@));
    ToolResult::text(string_of(&text), baseline, "leer el archivo completo", path)
}

} // verus!
