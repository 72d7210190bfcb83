use rtk_mcp_server::context::default_root;
use rtk_mcp_server::server::{
    command_of, failure_message, footed_answer, footer, is_blank, method_not_found, reply_for, sync_due, tool_of, unknown_command,
    unknown_tool, warm_next, with_footer, Command, Reply, Tool, WarmNext,
};
use rtk_mcp_server::tools::bulk::{bulk_report, FileRead};
use rtk_mcp_server::tools::ToolResult;
use rtk_mcp_server::trace::{enabled_by, span, trace_line};

#[test]
fn the_footer_puts_the_cost_first_and_names_the_rival() {
    assert_eq!(footer(42, 8000, 720, "leer el archivo completo"), "[42 ms · ~180 tokens · −91% vs leer el archivo completo]");
    assert_eq!(footer(3, 100, 100, "x"), "[3 ms · ~25 tokens]");
    assert_eq!(footer(3, 100, 400, "x"), "[3 ms · ~100 tokens]", "a dearer answer claims no savings");
    assert_eq!(footer(1, 10, 0, "x"), "[1 ms · ~0 tokens · −100% vs x]");
}

#[test]
fn an_answer_carries_its_footer() {
    let (t, n) = with_footer("hola", 5, 100, "y");
    assert_eq!(t, "hola\n\n[5 ms · ~1 tokens · −96% vs y]");
    assert_eq!(n, t.len());
    assert_eq!(failure_message("Missing 'query' argument", 7), "Missing 'query' argument (Execution time: 7 ms)");
}

#[test]
fn requests_are_routed_by_method() {
    assert!(matches!(reply_for("initialize", false), Reply::ServerInfo));
    assert!(matches!(reply_for("initialize", true), Reply::Silence));
    assert!(matches!(reply_for("notifications/initialized", false), Reply::Silence));
    assert!(matches!(reply_for("tools/list", false), Reply::ToolList));
    assert!(matches!(reply_for("tools/call", false), Reply::CallTool));
    assert!(matches!(reply_for("resources/list", false), Reply::MethodNotFound));
    assert_eq!(method_not_found("x/y"), "Method not found: x/y");
    assert!(matches!(tool_of("rtk_grep"), Some(Tool::Grep)));
    assert!(matches!(tool_of("codebase_search"), Some(Tool::Search)));
    assert!(tool_of("nope").is_none());
    assert_eq!(unknown_tool("nope"), "Unknown tool: nope");
    assert!(is_blank("  \n"));
    assert!(!is_blank(" {} "));
}

#[test]
fn the_command_line() {
    let args = |v: &[&str]| v.iter().map(|s| s.to_string()).collect::<Vec<String>>();
    assert!(matches!(command_of(&args(&["rtk-index"])), Command::Serve(None)));
    match command_of(&args(&["rtk-index", "serve", "--root", "/w"])) {
        Command::Serve(Some(r)) => assert_eq!(r, "/w"),
        _ => panic!("serve with a root was expected"),
    }
    assert!(matches!(command_of(&args(&["rtk-index", "serve", "--root"])), Command::Serve(None)));
    match command_of(&args(&["rtk-index", "init"])) {
        Command::Init(r) => assert_eq!(r, "."),
        _ => panic!("init was expected"),
    }
    assert!(matches!(command_of(&args(&["rtk-index", "-V"])), Command::Version));
    assert!(matches!(command_of(&args(&["rtk-index", "gain", "--json"])), Command::Gain));
    match command_of(&args(&["rtk-index", "frob"])) {
        Command::Unknown(c) => assert_eq!(unknown_command(&c), "Comando desconocido: 'frob'. Usa: init | check | gain | update | serve | --help"),
        _ => panic!("an unknown command was expected"),
    }
}

#[test]
fn the_idle_warm_up() {
    assert!(sync_due(0) && sync_due(100) && !sync_due(7));
    assert!(matches!(warm_next(Some(3), false), WarmNext::Continue));
    assert!(matches!(warm_next(Some(0), false), WarmNext::Preheat));
    assert!(matches!(warm_next(Some(0), true), WarmNext::Sleep));
    assert!(matches!(warm_next(None, false), WarmNext::Disable));
}

#[test]
fn roots_and_traces() {
    assert_eq!(default_root(None), ".");
    assert_eq!(default_root(Some("/w")), "/w");
    assert!(enabled_by(Some("yes")) && !enabled_by(Some("2")) && !enabled_by(None));
    assert!(span("sync", false).is_none());
    let s = span("sync", true).unwrap();
    assert_eq!(s.label(), "sync");
    assert_eq!(trace_line("sync", 12), format!("[trace] sync{} {:>7} ms", " ".repeat(24), 12));
}

#[test]
fn a_no_gain_answer_is_recorded_as_saving_nothing() {
    let reads = vec![FileRead { path: "/r/a.rs".to_string(), content: Ok("fn a() {}\n".to_string()) }];
    let (text, baseline, actual) = footed_answer(&bulk_report(&reads), 7);
    assert_eq!(baseline, actual);
    assert_eq!(actual, text.len());
    assert!(text.ends_with("]"), "{}", text);
    let measured = ToolResult::text("corto".to_string(), 8000, "leer el archivo completo", "d");
    let (t2, b2, a2) = footed_answer(&measured, 3);
    assert_eq!(b2, 8000);
    assert_eq!(a2, t2.len());
    assert!(a2 < b2);
}
