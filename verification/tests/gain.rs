use rtk_mcp_server::gain::{
    duration_fits, group_events, history_start, human_ago, human_duration, parse_args, parse_duration, short_project, totals,
    truncate_left, worst, Agg, GainArgError, GainCommand, GroupBy,
};
use rtk_mcp_server::telemetry::Event;

fn ev(tool: &str, project: &str, b: u64, a: u64, ok: bool) -> Event {
    Event {
        ts: 0,
        tool: tool.to_string(),
        project: project.to_string(),
        ok,
        ms: 10,
        baseline_tokens: b,
        actual_tokens: a,
        vs: "x".to_string(),
        detail: None,
    }
}

#[test]
fn duraciones_relativas() {
    assert_eq!(parse_duration("30m"), Some(1_800));
    assert_eq!(parse_duration("24h"), Some(86_400));
    assert_eq!(parse_duration("7d"), Some(604_800));
    assert_eq!(parse_duration("2w"), Some(1_209_600));
    assert_eq!(parse_duration("5x"), None);
    assert_eq!(parse_duration("d"), None);
    assert!(parse_duration("all").is_some());
}

#[test]
fn el_agregado_suma_y_calcula_el_porcentaje() {
    let mut agg = Agg::new();
    agg.add(&ev("t", "/p", 1000, 100, true));
    agg.add(&ev("t", "/p", 1000, 900, false));
    assert_eq!(agg.calls, 2);
    assert_eq!(agg.saved(), 1000);
    let pct = agg.saved() as f64 * 100.0 / agg.baseline as f64;
    assert_eq!(pct.round(), 50.0);
    assert_eq!(agg.errors, 1, "los errores se cuentan y se muestran aparte");
}

#[test]
fn other_units_and_overflow_guard() {
    assert_eq!(parse_duration("5min"), Some(300));
    assert_eq!(parse_duration("todo"), Some(u64::MAX / 2));
    assert_eq!(parse_duration("7"), None);
    assert_eq!(parse_duration("x7d"), None);
    assert!(duration_fits("7d"));
    assert!(!duration_fits("18446744073709551615w"), "the seconds would overflow");
    let args = vec!["--since".to_string(), "18446744073709551615w".to_string()];
    assert!(parse_args(&args).is_none());
}

#[test]
fn human_durations_pick_the_largest_whole_unit() {
    assert_eq!(human_duration(1_209_600), "2 semana(s)");
    assert_eq!(human_duration(172_800), "2 día(s)");
    assert_eq!(human_duration(7_200), "2 hora(s)");
    assert_eq!(human_duration(1_800), "30 min");
    assert_eq!(human_duration(u64::MAX / 2), "todo el histórico");
}

#[test]
fn ages_are_relative_to_now() {
    assert_eq!(human_ago(1_000, 970), "30s");
    assert_eq!(human_ago(10_000, 10_000 - 120), "2m");
    assert_eq!(human_ago(100_000, 100_000 - 7_200), "2h");
    assert_eq!(human_ago(1_000_000, 1_000_000 - 3 * 86_400), "3d");
    assert_eq!(human_ago(5, 10), "0s");
}

#[test]
fn left_truncation_keeps_the_tail() {
    assert_eq!(truncate_left("corto", 18), "corto");
    assert_eq!(truncate_left("abcdefghij", 5), "…ghij");
    assert_eq!(short_project("/home/u/proyecto"), "proyecto");
    assert_eq!(short_project("/"), "/");
}

#[test]
fn command_line_of_gain() {
    let args = |v: &[&str]| v.iter().map(|s| s.to_string()).collect::<Vec<String>>();
    match parse_args(&args(&["--history", "30", "--json"])) {
        Some(Ok(GainCommand::Report(o))) => {
            assert_eq!(o.history, Some(30));
            assert!(o.as_json);
        },
        _ => panic!("a report was expected"),
    }
    match parse_args(&args(&["--worst"])) {
        Some(Ok(GainCommand::Report(o))) => assert_eq!(o.worst, Some(15)),
        _ => panic!("a report was expected"),
    }
    assert!(matches!(parse_args(&args(&["--since"])), Some(Err(GainArgError::SinceMissing))));
    assert!(matches!(parse_args(&args(&["--bogus"])), Some(Err(GainArgError::Unknown(_)))));
    assert!(matches!(parse_args(&args(&["--reset"])), Some(Ok(GainCommand::Reset))));
    assert!(matches!(parse_args(&args(&["--since", "5x"])), Some(Err(GainArgError::SinceInvalid(_)))));
    assert!(matches!(parse_args(&args(&["--project"])), Some(Err(GainArgError::ProjectMissing))));
    assert!(matches!(parse_args(&args(&["--tool"])), Some(Err(GainArgError::ToolMissing))));
    assert!(matches!(parse_args(&args(&["-h"])), Some(Ok(GainCommand::Help))));
    match parse_args(&args(&["--since", "7d", "--project", ".", "--tool", "rtk_grep"])) {
        Some(Ok(GainCommand::Report(o))) => {
            assert_eq!(o.since, Some(604_800));
            assert_eq!(o.project.as_deref(), Some("."));
            assert_eq!(o.tool.as_deref(), Some("rtk_grep"));
        },
        _ => panic!("a report was expected"),
    }
}

#[test]
fn rows_add_up_to_the_totals() {
    let events = vec![
        ev("codebase_search", "/a", 1000, 100, true),
        ev("rtk_grep", "/a", 100, 150, true),
        ev("codebase_search", "/b", 500, 50, false),
    ];
    let t = totals(&events);
    let rows = group_events(&events, GroupBy::Tool);
    assert_eq!(rows.len(), 2);
    assert_eq!(rows[0].key, "codebase_search", "the row that saved most comes first");
    assert_eq!(rows.iter().map(|g| g.agg.baseline).sum::<u64>(), t.baseline);
    assert_eq!(rows.iter().map(|g| g.agg.calls).sum::<u64>(), t.calls);
    assert_eq!(t.errors, 1);
    let by_project = group_events(&events, GroupBy::Project);
    assert_eq!(by_project.len(), 2);
}

#[test]
fn the_dearest_calls_come_first() {
    let events = vec![ev("a", "/p", 0, 5, true), ev("b", "/p", 0, 50, true), ev("c", "/p", 0, 50, true)];
    assert_eq!(worst(&events, 2), vec![1, 2]);
    assert_eq!(history_start(10, 3), 7);
    assert_eq!(history_start(2, 3), 0);
}

#[test]
fn every_number_with_a_unit_reads_back() {
    let units: [(&str, u64); 5] = [("m", 60), ("min", 60), ("h", 3_600), ("d", 86_400), ("w", 604_800)];
    for n in [0u64, 1, 9, 10, 99, 1_000, 123_456_789] {
        for (u, secs) in units {
            assert_eq!(parse_duration(&format!("{}{}", n, u)), Some(n * secs));
        }
    }
    let top = u64::MAX / 604_800;
    assert_eq!(parse_duration(&format!("{}w", top)), Some(top * 604_800));
}
