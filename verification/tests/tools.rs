use rtk_mcp_server::index::{Candidate, SymbolRow, SyncStats, VectorStats};
use rtk_mcp_server::testutil::{text_of, TmpRepo};
use rtk_mcp_server::tools::bulk::{bulk_report, FileRead};
use rtk_mcp_server::tools::diff::{diff_report, raw_diff_chars};
use rtk_mcp_server::tools::find::{find_listing, find_report, paths_fit, MAX_FILES};
use rtk_mcp_server::tools::grep::{grep_answer, walk_fits, WalkedFile};
use rtk_mcp_server::tools::lookup::{lookup_report, rows_fit, OUTPUT_BUDGET};
use rtk_mcp_server::tools::outline::outline;
use rtk_mcp_server::tools::search::{hits_fit, search_k, search_note, search_report};
use rtk_mcp_server::tools::{full_files_chars, read_body, sizes_fit, ToolResult};

fn find(root: &str, rels: &[&str], pattern: Option<&str>) -> ToolResult {
    let repo = TmpRepo { root: root.to_string() };
    let files: Vec<String> = rels.iter().map(|r| repo.path(r)).collect();
    let listing = find_listing(&files, pattern).unwrap();
    find_report(&repo.root_str(), pattern, &listing)
}

#[test]
fn sin_patron_lista_todo_agrupado_por_directorio() {
    let out = text_of(&find("/tmp/rtk-test-find", &["a.md", "src/b.rs", "src/c.rs"], None));
    assert!(out.contains("3 archivo(s)"));
    assert!(out.contains("b.rs, c.rs"), "agrupa por directorio: {}", out);
    assert_eq!(out.matches("src").count(), 1, "el prefijo no se repite por archivo");
}

#[test]
fn el_glob_filtra_por_nombre() {
    let out = text_of(&find("/tmp/rtk-test-find-glob", &["a.md", "src/b.rs"], Some("*.md")));
    assert!(out.contains("a.md") && !out.contains("b.rs"));
}

#[test]
fn excluye_el_indice_git_y_el_archivo_de_openspec() {
    let out = text_of(&find(
        "/tmp/rtk-test-find-scope",
        &["vivo.md", ".rtk-index/index.db", ".git/config", "openspec/changes/archive/viejo/tasks.md"],
        None,
    ));
    assert!(out.contains("vivo.md"));
    assert!(!out.contains(".rtk-index") && !out.contains(".git") && !out.contains("archive"));
}

#[test]
fn el_tope_se_anuncia() {
    let names: Vec<String> = (0..(MAX_FILES + 10)).map(|i| format!("f{}.rs", i)).collect();
    let rels: Vec<&str> = names.iter().map(|s| s.as_str()).collect();
    let out = text_of(&find("/tmp/rtk-test-find-tope", &rels, None));
    assert!(out.contains(&format!("{} archivo(s)", MAX_FILES + 10)));
    assert!(out.contains("+10 archivos no listados"));
}

#[test]
fn a_listing_names_its_rival_and_an_empty_one_saves_nothing() {
    let r = find("./repo", &["x.rs"], None);
    assert_eq!(text_of(&r), "1 archivo(s) en ./repo\nrepo/: x.rs");
    assert_eq!(r.baseline_chars, "./repo/x.rs".len() + 1);
    assert_eq!(r.vs, "una ruta por línea");
    let empty = find("/r", &["a.rs"], Some("*.md"));
    assert_eq!(text_of(&empty), "Sin archivos en '/r' que coincidan con '*.md'.");
    assert_eq!(empty.baseline_chars, text_of(&empty).len());
    assert_eq!(empty.detail.as_deref(), Some("/r -name *.md"));
}

#[test]
fn an_invalid_glob_is_an_error_that_quotes_it() {
    let e = find_listing(&vec!["/r/a.rs".to_string()], Some("a[")).err().unwrap();
    assert!(e.starts_with("Patrón inválido 'a[': "), "{}", e);
}

fn walked(path: &str, content: &str) -> WalkedFile {
    WalkedFile { path: path.to_string(), content: content.to_string() }
}

#[test]
fn few_matches_are_listed_with_each_path_once() {
    let files = vec![
        walked("./src/a.rs", "fn main() {}\nlet x = 1;   \nfn otra() {}\n"),
        walked("./src/b.rs", "nada\n"),
        walked("./.git/config", "fn escondida\n"),
    ];
    let r = grep_answer("fn ", ".", false, &files).unwrap();
    assert_eq!(text_of(&r), "2 coincidencia(s) en 1 archivo(s) para 'fn '\nsrc/a.rs\n  1: fn main() {}\n  3: fn otra() {}");
    assert_eq!(r.baseline_chars, ("src/a.rs".len() + "fn main() {}".len() + 8) + ("src/a.rs".len() + "fn otra() {}".len() + 8));
    assert_eq!(r.vs, "grep -rn (mismas líneas, ruta repetida)");
    assert_eq!(r.detail.as_deref(), Some("fn "));
}

#[test]
fn many_matches_become_counts_per_file() {
    let many: String = (0..70).map(|i| format!("hit {}\n", i)).collect();
    let files = vec![walked("a.txt", "hit\n"), walked("b.txt", &many)];
    let r = grep_answer("hit", ".", false, &files).unwrap();
    let out = text_of(&r);
    assert!(out.starts_with("71 coincidencias en 2 archivo(s) para 'hit' — demasiadas para listarlas, aquí el conteo:\nb.txt: 70\na.txt: 1\n"), "{}", out);
    assert!(out.ends_with("Acota con un `path` más específico o un patrón más preciso para ver las líneas."));
    assert_eq!(r.baseline_chars, out.len(), "a count does not claim savings");
    let counted = text_of(&grep_answer("hit", ".", true, &files).unwrap());
    assert_eq!(counted, "71 coincidencias en 2 archivo(s) para 'hit' — conteo por archivo:\nb.txt: 70\na.txt: 1");
}

#[test]
fn no_match_and_bad_expression() {
    let files = vec![walked("a.txt", "hola\n")];
    let r = grep_answer("adiós", "/repo", false, &files).unwrap();
    assert_eq!(text_of(&r), "Sin coincidencias para 'adiós' en /repo.");
    assert!(grep_answer("(", ".", false, &files).err().unwrap().starts_with("Patrón inválido '(': "));
}

#[test]
fn long_matching_lines_are_cut() {
    let line = "x".repeat(300);
    let files = vec![walked("a.txt", &line)];
    let out = text_of(&grep_answer("x", ".", false, &files).unwrap());
    assert!(out.ends_with(&format!("  1: {}…", "x".repeat(200))));
}

#[test]
fn devuelve_firmas_sin_cuerpos() {
    let cuerpo: String = (0..60).map(|i| format!("    let secreto_{} = {};\n", i, i)).collect();
    let fuente: String = (0..8).map(|i| format!("pub fn funcion_{}() {{\n{}}}\n\n", i, cuerpo)).collect();
    let r = outline("/tmp/rtk-test-outline/a.rs", &fuente);
    let out = text_of(&r);
    assert!(out.contains("funcion_0") && out.contains("funcion_7"));
    assert!(!out.contains("secreto_"), "el cuerpo no viaja");
    assert_eq!(r.baseline_chars, fuente.len(), "el rival es el archivo entero");
    assert!(out.len() * 10 < r.baseline_chars, "y ahorra de sobra: {} vs {}", out.len(), r.baseline_chars);
}

#[test]
fn en_un_archivo_minusculo_no_hay_ahorro_que_presumir() {
    let r = outline("/tmp/rtk-test-outline-mini/a.rs", "pub fn f() {}\n");
    assert!(r.baseline_chars <= text_of(&r).len(), "leer el archivo entero era más barato: no se reporta ahorro");
}

#[test]
fn archivo_sin_simbolos_o_inexistente() {
    let out = text_of(&outline("/tmp/rtk-test-outline-vacio/datos.rs", "// solo un comentario\n"));
    assert!(out.contains("No symbols found"));
}

#[test]
fn an_outline_line_per_symbol() {
    let out = text_of(&outline("m.rs", "pub fn f() {}\n"));
    assert_eq!(out, "Outline: m.rs (1 símbolos)\nL1     function_item              pub fn f() {}");
}

fn row(path: &str, start: usize, end: usize) -> SymbolRow {
    SymbolRow {
        path: path.to_string(),
        name: "duplicada".to_string(),
        kind: "function_item".to_string(),
        signature: "pub fn duplicada() {".to_string(),
        start_line: start,
        end_line: end,
    }
}

#[test]
fn el_presupuesto_de_salida_acota_la_respuesta() {
    let cuerpo: String = (0..400).map(|i| format!("    let v{} = {};\n", i, i)).collect();
    let fuente = format!("pub fn duplicada() {{\n{}}}\n", cuerpo);
    let rows: Vec<SymbolRow> = (0..6).map(|f| row(&format!("/tmp/rtk-test-symbols/m{}.rs", f), 1, 402)).collect();
    let files: Vec<Result<String, String>> = (0..6).map(|_| Ok(fuente.clone())).collect();
    let stats = SyncStats { reindexed: 6, total_files: 6, removed: 0 };
    let out = text_of(&lookup_report("duplicada", &stats, 6, &rows, &files, 6 * fuente.len()));
    assert!(out.contains("6 coincidencia(s)"), "las encuentra todas");
    assert!(out.contains("presupuesto de salida"), "y avisa de lo que recortó");
    assert!(out.len() < OUTPUT_BUDGET * 2, "la respuesta no se dispara: {} bytes", out.len());
    assert!(out.contains("líneas; el cuerpo completo está en"), "recorta el cuerpo largo");
}

#[test]
fn simbolo_inexistente_no_reporta_ahorro() {
    let stats = SyncStats { reindexed: 1, total_files: 1, removed: 0 };
    let r = lookup_report("no_existe", &stats, 1, &Vec::new(), &Vec::new(), 0);
    assert!(text_of(&r).contains("Ningún símbolo"));
    assert_eq!(r.baseline_chars, text_of(&r).len(), "sin ahorro que reportar");
}

#[test]
fn a_lookup_shows_the_body_with_its_anchor() {
    let stats = SyncStats { reindexed: 0, total_files: 3, removed: 1 };
    let rows = vec![row("/r/a.rs", 2, 3), row("/r/b.rs", 1, 1)];
    let files = vec![Ok("// x\nfn duplicada() {\n}\n".to_string()), Err("read /r/b.rs: gone".to_string())];
    let out = text_of(&lookup_report("duplicada", &stats, 9, &rows, &files, 100));
    assert_eq!(
        out,
        "2 coincidencia(s) para 'duplicada'  [índice: 3 archivos, 0 re-indexados, 1 eliminados]\n\n\
         ── duplicada · function_item · /r/a.rs:L2-3\n    2\tfn duplicada() {\n    3\t}\n\n\
         ── duplicada · function_item · /r/b.rs:L1-1\n[no se pudo leer el cuerpo: read /r/b.rs: gone]"
    );
}

fn cand(path: &str, start: usize, end: usize) -> Candidate {
    Candidate { path: path.to_string(), name: "f".to_string(), kind: "function_item".to_string(), start_line: start, end_line: end }
}

#[test]
fn search_results_with_fragments() {
    let stats = SyncStats { reindexed: 0, total_files: 4, removed: 0 };
    let note = search_note(&Some(VectorStats { embedded_now: 0, remaining: 0 }), &stats, 12);
    assert_eq!(note, "[híbrido (BM25 + semántico) · 4 archivos · 12 símbolos vectorizados]");
    assert_eq!(
        search_note(&Some(VectorStats { embedded_now: 5, remaining: 7 }), &stats, 12),
        "[híbrido · índice semántico calentando (7 pendientes) · 4 archivos · 12 símbolos vectorizados]"
    );
    assert_eq!(search_note(&None, &stats, 0), "[BM25 (semántico no disponible) · 4 archivos · 0 símbolos vectorizados]");
    let hits = vec![cand("/r/a.rs", 1, 1)];
    let files = vec![Ok("fn f() {}\n".to_string())];
    let r = search_report("f", &note, &hits, &files, 10);
    assert_eq!(
        text_of(&r),
        format!("1 resultado(s) para \"f\"  {}\n\n#1 ── f · function_item · /r/a.rs:L1-1\n    1\tfn f() {{}}", note)
    );
    assert_eq!(r.baseline_chars, 10);
    let none = search_report("zzz", &note, &Vec::new(), &Vec::new(), 0);
    assert_eq!(text_of(&none), format!("Sin coincidencias para: \"zzz\"\n{}", note));
}

#[test]
fn search_sizes_are_clamped() {
    assert_eq!(search_k(None), 8);
    assert_eq!(search_k(Some(0)), 1);
    assert_eq!(search_k(Some(100)), 25);
    assert_eq!(search_k(Some(12)), 12);
}

#[test]
fn long_fragments_are_cut_with_a_pointer() {
    let src: String = (0..100).map(|i| format!("l{}\n", i)).collect();
    let out = text_of(&search_report("f", "[n]", &vec![cand("/r/a.rs", 1, 100)], &vec![Ok(src)], 0));
    assert!(out.ends_with("   … (+39 líneas; usa symbol_lookup(\"f\") para el cuerpo completo)"), "{}", out);
}

#[test]
fn bodies_and_baselines() {
    assert_eq!(read_body("/r/a.rs", &Ok("a\nb  \n".to_string()), 2, 2), Ok("    2\tb".chars().collect()));
    assert_eq!(
        read_body("/r/a.rs", &Ok("a\n".to_string()), 5, 6),
        Err("rango fuera de límites en /r/a.rs".chars().collect())
    );
    let paths = vec!["/a".to_string(), "/b".to_string(), "/a".to_string()];
    assert_eq!(full_files_chars(&paths, &vec![Some(10), None, Some(10)]), 10, "a file counts once");
}

#[test]
fn bulk_reads_number_lines_like_cat() {
    let reads = vec![
        FileRead { path: "/r/a.txt".to_string(), content: Ok("uno\ndos\n".to_string()) },
        FileRead { path: "/r/b.txt".to_string(), content: Err("No such file".to_string()) },
    ];
    let r = bulk_report(&reads);
    assert_eq!(
        text_of(&r),
        "--- FILE: /r/a.txt ---\n     1\tuno\n     2\tdos\n\n--- FILE: /r/b.txt ---\n[ERROR] Failed to read file: No such file"
    );
    assert_eq!(r.baseline_chars, text_of(&r).len());
    assert_eq!(r.detail.as_deref(), Some("2 archivo(s)"));
}

#[test]
fn diffs_measured_against_the_native_one() {
    let none = diff_report(true, "  \n", None);
    assert_eq!(text_of(&none), "No unstaged changes.");
    let r = diff_report(true, "\n-a\n+b\n", Some(500));
    assert_eq!(text_of(&r), "-a\n+b");
    assert_eq!(r.baseline_chars, 500);
    let native = diff_report(false, "-a\n+b", Some(500));
    assert_eq!(native.baseline_chars, 5);
    assert_eq!(raw_diff_chars("  x \n"), Some(1));
    assert_eq!(raw_diff_chars(" \n"), None);
}

#[test]
fn inputs_are_checked_before_the_reports() {
    assert!(paths_fit(&vec!["/a".to_string(), "/b".to_string()]));
    assert!(walk_fits(&vec![walked("a.txt", "uno\ndos\n")]));
    assert!(rows_fit(&vec![row("/r/a.rs", 3, 2)]), "a range may end on the line before it starts");
    assert!(!rows_fit(&vec![row("/r/a.rs", 5, 2)]));
    assert!(!rows_fit(&vec![row("/r/a.rs", usize::MAX, usize::MAX)]), "its cut would overflow");
    assert!(hits_fit(&vec![cand("/r/a.rs", 1, 9)]));
    assert!(!hits_fit(&vec![cand("/r/a.rs", 9, 1)]));
    assert!(sizes_fit(&vec!["/a".to_string(), "/a".to_string()], &vec![Some(u64::MAX / 2 + 1), Some(u64::MAX / 2 + 1)]));
    assert!(!sizes_fit(&vec!["/a".to_string(), "/b".to_string()], &vec![Some(u64::MAX / 2 + 1), Some(u64::MAX / 2 + 1)]));
}
