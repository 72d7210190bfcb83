//! `bulk_read_files`: several whole files in one answer, each numbered as
//! `cat -n` does. It saves nothing against reading them one by one.

use vstd::prelude::*;
use crate::text::{decimal, lines, pad_left, push_all, push_decimal, push_padded_left, push_str, split_lines, string_of, chars_of, views};
use crate::index::{join, join_chars};
use crate::tools::{read_view, ToolResult};

verus! {

/// A file asked for, and what reading it gave (its contents or the
/// message of the failure).
pub struct FileRead {
    pub path: String,
    pub content: Result<String, String>,
}

/// A line as `cat -n` numbers it: the number right-aligned in six columns,
/// a tab, the line.
pub open spec fn cat_line(n: nat, line: Seq<char>) -> Seq<char> {
    pad_left(decimal(n), 6) + "\t"@ + line
}

/// The lines of a text, numbered from 1.
pub open spec fn cat_lines(ls: Seq<Seq<char>>) -> Seq<Seq<char>> {
    Seq::new(ls.len(), |i: int| cat_line((i + 1) as nat, ls[i]))
}

/// The section of one file: a header with its path, then its numbered
/// lines, or the reason it could not be read.
pub open spec fn file_section(path: Seq<char>, read: Result<Seq<char>, Seq<char>>) -> Seq<char> {
    "--- FILE: "@ + path + " ---\n"@ + match read {
        Ok(c) => join(cat_lines(lines(c)), "\n"@),
        Err(e) => "[ERROR] Failed to read file: "@ + e,
    }
}

/// The sections of the files, in the order asked.
pub open spec fn sections(reads: Seq<FileRead>) -> Seq<Seq<char>> {
    reads.map_values(|f: FileRead| file_section(f.path@, read_view(f.content)))
}

/// The history label: how many files were read.
pub open spec fn bulk_detail(n: nat) -> Seq<char> {
    decimal(n) + " archivo(s)"@
}

fn section(f: &FileRead) -> (r: Vec<char>)
    ensures
        r@ == file_section(f.path@, read_view(f.content)),
{
    let mut out: Vec<char> = Vec::new();
    push_str(&mut out, "--- FILE: ");
    push_str(&mut out, f.path.as_str());
    push_str(&mut out, " ---\n");
    let ghost head = out@;
    match &f.content {
        Err(e) => {
            push_str(&mut out, "[ERROR] Failed to read file: ");
            push_str(&mut out, e.as_str());
        },
        Ok(c) => {
            let ls = split_lines(&chars_of(c.as_str()));
            let ghost lv = views(ls@);
            let mut numbered: Vec<Vec<char>> = Vec::new();
            let mut i: usize = 0;
            while i < ls.len()
                invariant
                    i <= ls.len(),
                    lv == views(ls@),
                    views(numbered@) == cat_lines(lv).subrange(0, i as int),
                decreases ls.len() - i,
            {
                let mut line: Vec<char> = Vec::new();
                let mut n: Vec<char> = Vec::new();
                push_decimal(&mut n, (i + 1) as u64);
                push_padded_left(&mut line, &n, 6);
                push_str(&mut line, "\t");
                push_all(&mut line, &ls[i]);
                assert(line@ =~= cat_line((i + 1) as nat, lv[i as int]));
                let ghost before = views(numbered@);
                numbered.push(line);
                assert(views(numbered@) =~= before.push(cat_line((i + 1) as nat, lv[i as int])));
                assert(cat_lines(lv).subrange(0, i + 1) =~= cat_lines(lv).subrange(0, i as int).push(cat_lines(lv)[i as int]));
                i = i + 1;
            }
            assert(cat_lines(lv).subrange(0, i as int) =~= cat_lines(lv));
            let body = join_chars(&numbered, 0, numbered.len(), "\n");
            assert(views(numbered@).subrange(0, numbered@.len() as int) =~= views(numbered@));
            push_all(&mut out, &body);
        },
    }
    out
}

/// The answer of `bulk_read_files`: the section of each file, separated by
/// a blank line, measured against itself (nothing is saved).
pub fn bulk_report(reads: &Vec<FileRead>) -> (r: ToolResult)
    ensures
        r.text@ == join(sections(reads@), "\n\n"@),
        r.baseline_chars == crate::text::blen(r.text@) as usize,
        r.vs@ == crate::tools::no_gain_label(),
        r.no_gain,
        r.detail matches Some(d) && d@ == bulk_detail(reads@.len()),
{
    let mut parts: Vec<Vec<char>> = Vec::new();
    let mut i: usize = 0;
    while i < reads.len()
        invariant
            i <= reads.len(),
            views(parts@) == sections(reads@).subrange(0, i as int),
        decreases reads.len() - i,
    {
        let s = section(&reads[i]);
        let ghost before = views(parts@);
        parts.push(s);
        assert(views(parts@) =~= before.push(sections(reads@)[i as int]));
        assert(sections(reads@).subrange(0, i + 1) =~= sections(reads@).subrange(0, i as int).push(sections(reads@)[i as int]));
        i = i + 1;
    }
    assert(sections(reads@).subrange(0, i as int) =~= sections(reads@));
    let text = join_chars(&parts, 0, parts.len(), "\n\n");
    assert(views(parts@).subrange(0, parts@.len() as int) =~= views(parts@));
    let mut detail: Vec<char> = Vec::new();
    push_decimal(&mut detail, reads.len() as u64);
    push_str(&mut detail, " archivo(s)");
    ToolResult::text_no_gain(string_of(&text), string_of(&detail).as_str())
}

} // verus!
