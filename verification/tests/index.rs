use rtk_mcp_server::chunker::{cap_chars, is_markdown, is_supported, language_for, parse, parse_markdown, Lang, Symbol};
use rtk_mcp_server::index::{
    chunk_texts, code_split, embed_text, embed_texts, file_change, indexable, line_range, rows_slice_fit, rrf,
    stale_paths, symbols_fit, walk_skips, Candidate, EmbedBudget, SymbolRow,
};

fn cand(path: &str, start: usize) -> Candidate {
    Candidate { path: path.to_string(), name: format!("s{}", start), kind: "function_item".to_string(), start_line: start, end_line: start + 1 }
}

#[test]
fn fusion_rewards_agreement_between_rankings() {
    let bm25 = vec![cand("a.rs", 1), cand("b.rs", 1), cand("c.rs", 1)];
    let semantic = vec![cand("c.rs", 1), cand("b.rs", 1), cand("d.rs", 9)];
    let out = rrf(&vec![bm25, semantic], 3);
    let keys: Vec<String> = out.iter().map(|c| c.key()).collect();
    assert_eq!(keys.len(), 3);
    assert!(keys[0] == "b.rs:1" || keys[0] == "c.rs:1", "{:?}", keys);
    assert!(keys.contains(&"b.rs:1".to_string()) && keys.contains(&"c.rs:1".to_string()));
    assert!(!keys.contains(&"d.rs:9".to_string()));
    assert_eq!(rrf(&vec![Vec::new()], 5).len(), 0);
}

#[test]
fn fusing_a_single_ranking_keeps_its_order() {
    let one = vec![cand("z.rs", 3), cand("a.rs", 7), cand("m.rs", 1), cand("b.rs", 2)];
    let keys: Vec<String> = rrf(&vec![one], 3).iter().map(|c| c.key()).collect();
    assert_eq!(keys, vec!["z.rs:3", "a.rs:7", "m.rs:1"]);
    let all: Vec<String> = rrf(&vec![vec![cand("q.rs", 1), cand("p.rs", 2)]], 10).iter().map(|c| c.key()).collect();
    assert_eq!(all, vec!["q.rs:1", "p.rs:2"]);
}

#[test]
fn candidates_are_identified_by_path_and_line() {
    assert_eq!(cand("src/x.rs", 12).key(), "src/x.rs:12");
}

#[test]
fn equal_keys_mean_equal_path_and_line() {
    let mut other = cand("src/x.rs", 12);
    other.name = "otro".to_string();
    other.kind = "struct_item".to_string();
    other.end_line = 90;
    assert_eq!(cand("src/x.rs", 12).key(), other.key());
    assert_ne!(cand("a:1", 2).key(), cand("a", 12).key());
    assert_ne!(cand("a:1", 2).key(), cand("a:12", 2).key());
    assert_ne!(cand("src/x.rs", 1).key(), cand("src/x.rs", 12).key());
}

#[test]
fn numbered_line_ranges() {
    let text = "uno\ndos\ntres\n";
    assert_eq!(line_range("/r/a", text, 2, 9).unwrap(), "    2\tdos\n    3\ttres\n");
    assert_eq!(line_range("/r/a", text, 0, 1).unwrap_err(), "rango fuera de límites en /r/a");
    assert_eq!(line_range("/r/a", text, 4, 4).unwrap_err(), "rango fuera de límites en /r/a");
}

#[test]
fn identifiers_are_split_for_the_lexical_index() {
    let s = code_split("getUserName parse_json");
    assert!(s.contains("get") && s.contains("User") && s.contains("Name") && s.contains("json"), "{}", s);
}

#[test]
fn embedding_texts_are_cut_at_a_character_boundary() {
    let body: Vec<char> = "ñ".repeat(300).chars().collect();
    let t = embed_text("f", &body);
    assert!(t.len() <= 256);
    assert!(t.starts_with("f\nñ"));
    let short: Vec<char> = "x".chars().collect();
    assert_eq!(embed_text("f", &short), "f\nx");
}

#[test]
fn the_embedding_budget_defers_what_does_not_fit() {
    let mut b = EmbedBudget::new();
    assert!(b.take_file(700));
    b.gathered(700);
    assert!(!b.take_file(200), "it would pass the cap: deferred");
    assert!(!b.take_file(1), "once full, later files only count");
    let s = b.stats();
    assert_eq!(s.embedded_now, 700);
    assert_eq!(s.remaining, 201);
    let mut big = EmbedBudget::new();
    assert!(big.take_file(5000), "a single file over the cap still goes, so nothing gets stuck");
}

#[test]
fn repeated_warm_ups_drain_the_backlog() {
    let mut pending: Vec<usize> = vec![300, 450, 120, 900, 60, 10];
    let mut calls = 0;
    loop {
        let total: usize = pending.iter().sum();
        let mut b = EmbedBudget::new();
        let mut left = Vec::new();
        for &n in &pending {
            if b.take_file(n) {
                b.gathered(n);
            } else {
                left.push(n);
            }
        }
        let s = b.stats();
        assert_eq!(s.embedded_now + s.remaining, total);
        assert!(s.embedded_now <= 800 || left.len() + 1 == pending.len());
        calls += 1;
        if s.remaining == 0 {
            break;
        }
        assert!(s.embedded_now > 0);
        pending = left;
    }
    assert_eq!(calls, 4);
}

#[test]
fn splitting_only_adds_spaces() {
    for s in ["HTTPServer_x1", "getUserName(parse_json)", "a-b  c", "ÁrbolVerde.rs"] {
        let r = code_split(s);
        let kept: String = r.chars().filter(|c| c.is_alphanumeric()).collect();
        let words: String = s.chars().filter(|c| c.is_alphanumeric()).collect();
        assert_eq!(kept, words);
        assert!(r.chars().all(|c| c.is_alphanumeric() || c == ' '));
        assert!(r.chars().count() >= s.chars().count());
    }
    assert_eq!(code_split("HTTPServer_x1"), "HTTP Server x1");
}

#[test]
fn what_the_index_and_the_walks_take() {
    assert!(indexable("/r/src/a.rs"));
    assert!(indexable("/r/docs/guide.md"));
    assert!(!indexable("/r/a.txt"));
    assert!(!indexable("/r/.rtk-index/x.rs"));
    assert!(!indexable("/r/openspec/changes/archive/v1/notes.md"));
    assert!(walk_skips("/r/.git/config"));
    assert!(!walk_skips("/r/.github/ci.yml"));
}

#[test]
fn only_changed_files_are_reindexed() {
    let (changed, hash) = file_change("", None, false);
    assert!(changed);
    assert_eq!(hash, "af1349b9f5f9a1a6a0404dea36dcc9499bcb25c9adc112b7cc9a93cae41f3262");
    let (again, _) = file_change("", Some(hash.as_str()), false);
    assert!(!again, "same content, same fingerprint: skipped");
    let (edited, h2) = file_change("x", Some(hash.as_str()), false);
    assert!(edited && h2 != hash);
    assert!(file_change("", Some(hash.as_str()), true).0, "a rebuild takes everything");
}

#[test]
fn deleted_files_are_purged() {
    let stored = vec!["/a".to_string(), "/b".to_string(), "/c".to_string()];
    let seen = vec!["/c".to_string(), "/a".to_string()];
    assert_eq!(stale_paths(&stored, &seen), vec!["/b".to_string()]);
}

#[test]
fn languages_by_extension() {
    assert!(matches!(language_for("rs"), Some(Lang::Rust)));
    assert!(matches!(language_for("tsx"), Some(Lang::Tsx)));
    assert!(matches!(language_for("py"), Some(Lang::Python)));
    assert!(language_for("go").is_none());
    assert!(is_markdown("mdx") && !is_markdown("txt"));
    assert!(is_supported("md") && is_supported("ts") && !is_supported("java"));
}

#[test]
fn markdown_sections_end_before_the_next_heading_of_their_level() {
    let src = "# Título\nintro\n## Uno\n```\n# no\n```\ntexto\n## Dos ##\nfin\n";
    let s = parse_markdown(src);
    assert_eq!(s.len(), 3);
    assert_eq!((s[0].kind.as_str(), s[0].name.as_str(), s[0].start_line, s[0].end_line), ("h1", "Título", 1, 9));
    assert_eq!((s[1].name.as_str(), s[1].start_line, s[1].end_line), ("Uno", 3, 7));
    assert_eq!((s[2].name.as_str(), s[2].signature.as_str(), s[2].start_line, s[2].end_line), ("Dos", "## Dos", 8, 9));
}

#[test]
fn code_symbols_with_their_lines() {
    let rs = parse("src/lib.rs", "struct P;\n\nimpl P {\n    fn new() -> P {\n        P\n    }\n}\n");
    let names: Vec<(&str, &str, usize, usize)> =
        rs.iter().map(|s| (s.kind.as_str(), s.name.as_str(), s.start_line, s.end_line)).collect();
    assert_eq!(names, vec![("struct_item", "P", 1, 1), ("function_item", "new", 4, 6)]);
    assert_eq!(rs[1].signature, "fn new() -> P {");
    let py = parse("a.py", "class A:\n    def f(self):\n        pass\n");
    assert_eq!(py.len(), 2);
    assert_eq!((py[0].kind.as_str(), py[1].name.as_str()), ("class_definition", "f"));
    let ts = parse("a.ts", "export function g(): number { return 1 }\n");
    assert_eq!((ts[0].kind.as_str(), ts[0].name.as_str()), ("function_declaration", "g"));
    assert!(parse("a.txt", "fn x() {}").is_empty());
}

#[test]
fn long_signatures_are_capped_by_bytes() {
    let long: Vec<char> = "é".repeat(150).chars().collect();
    let c: String = cap_chars(&long, 200).into_iter().collect();
    assert_eq!(c, format!("{}…", "é".repeat(100)));
}

#[test]
fn symbol_ranges_are_checked_before_slicing() {
    let s = |a: usize, b: usize| Symbol { kind: "k".to_string(), name: "n".to_string(), signature: "s".to_string(), start_line: a, end_line: b };
    assert!(symbols_fit(&vec![s(1, 2), s(3, 2)]));
    assert!(!symbols_fit(&vec![s(4, 2)]));
    let r = SymbolRow { path: "/a".to_string(), name: "n".to_string(), kind: "k".to_string(), signature: "s".to_string(), start_line: 2, end_line: 3 };
    assert!(rows_slice_fit(&vec![r.clone()]));
    assert_eq!(chunk_texts(&vec![s(2, 3)], "a\nparseJson\nb_c\n"), vec!["n parse Json b c".to_string()]);
    assert_eq!(embed_texts(&vec![r], "a\nuno\ndos\n"), vec!["n\nuno\ndos".to_string()]);
}
