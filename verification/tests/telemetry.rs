use rtk_mcp_server::telemetry::{
    cutoff, data_dir, enabled, event_matches, log_path, record, rotated_log_path, should_rotate, tokens, truncate, Event,
};

fn event(ts: u64, tool: &str, project: &str, b: u64, a: u64) -> Event {
    Event {
        ts,
        tool: tool.to_string(),
        project: project.to_string(),
        ok: true,
        ms: 1,
        baseline_tokens: b,
        actual_tokens: a,
        vs: "grep -rn".to_string(),
        detail: None,
    }
}

#[test]
fn los_tokens_se_estiman_al_alza() {
    assert_eq!(tokens(0), 0);
    assert_eq!(tokens(1), 1, "nunca redondea a cero un texto no vacío");
    assert_eq!(tokens(4), 1);
    assert_eq!(tokens(5), 2);
    assert_eq!(tokens(4000), 1000);
}

#[test]
fn el_ahorro_puede_ser_negativo_y_se_conserva_el_signo() {
    let caro = event(0, "rtk_grep", "/p", 100, 150);
    assert_eq!(caro.saved(), -50, "una respuesta más cara no se disfraza de ahorro");
}

#[test]
fn el_detalle_se_recorta_y_no_rompe_la_linea() {
    let largo = format!("línea uno\nlínea dos {}", "x".repeat(200));
    let t = truncate(&largo, 80);
    assert!(!t.contains('\n'));
    assert!(t.chars().count() <= 81, "80 caracteres más la elipsis");
}

#[test]
fn a_short_detail_is_kept_with_its_newlines_flattened() {
    assert_eq!(truncate("a\nb", 80), "a b");
    assert_eq!(truncate("abcdef", 3), "abc…");
}

#[test]
fn telemetry_is_on_unless_switched_off() {
    assert!(enabled(None));
    assert!(enabled(Some("1")));
    assert!(!enabled(Some("0")));
    assert!(!enabled(Some("off")));
    assert!(!enabled(Some("false")));
    assert!(!enabled(Some("no")));
}

#[test]
fn where_the_log_lives() {
    assert_eq!(data_dir(Some("/datos"), Some("/xdg"), Some("/home/u")), "/datos");
    assert_eq!(data_dir(Some(""), Some("/xdg"), Some("/home/u")), "/xdg/rtk-index");
    assert_eq!(data_dir(None, None, Some("/home/u")), "/home/u/.local/share/rtk-index");
    assert_eq!(log_path("/datos"), "/datos/telemetry.jsonl");
    assert_eq!(rotated_log_path("/datos/"), "/datos/telemetry.jsonl.1");
    assert!(should_rotate(8 * 1024 * 1024 + 1));
    assert!(!should_rotate(100));
}

#[test]
fn a_recorded_call_keeps_its_measures() {
    let e = record(true, 1_700_000_000, "/repo", "codebase_search", true, 42, 3600, 400, "leer el archivo completo", Some("consulta".to_string()))
        .unwrap();
    assert_eq!(e.ts, 1_700_000_000);
    assert_eq!(e.baseline_tokens, 900);
    assert_eq!(e.actual_tokens, 100);
    assert_eq!(e.saved(), 800);
    assert_eq!(e.detail.as_deref(), Some("consulta"));
    assert!(record(false, 0, "/repo", "x", true, 0, 1, 1, "", None).is_none());
}

#[test]
fn a_failed_call_saves_nothing() {
    let e = record(true, 0, "/p", "rtk_find", false, 3, 57, 57, "llamada fallida", None).unwrap();
    assert_eq!(e.saved(), 0);
}

#[test]
fn report_filters() {
    let e = event(1_000, "rtk_find", "/p", 10, 4);
    assert_eq!(cutoff(5_000, Some(1_000)), Some(4_000));
    assert_eq!(cutoff(5_000, None), None);
    assert!(event_matches(&e, Some(500), Some("/p"), Some("rtk_find")));
    assert!(!event_matches(&e, Some(2_000), None, None));
    assert!(!event_matches(&e, None, Some("/q"), None));
    assert!(!event_matches(&e, None, None, Some("rtk_grep")));
}
