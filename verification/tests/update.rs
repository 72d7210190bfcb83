use rtk_mcp_server::update::{
    cargo_bin, detect_method, exit_status, is_newer, parse_update_args, parse_version, parts, starts_with, update_plan, Method,
    UpdateCommand, UpdatePlan,
};

#[test]
fn version_del_manifiesto() {
    let m = "[package]\nname = \"rtk-mcp-server\"\nversion = \"1.2.3\"\n";
    assert_eq!(parse_version(m).as_deref(), Some("1.2.3"));
}

#[test]
fn comparacion_semver() {
    assert!(is_newer("1.2.0", "1.1.9"));
    assert!(is_newer("1.1.10", "1.1.9"));
    assert!(is_newer("2.0.0", "1.9.9"));
    assert!(!is_newer("1.1.0", "1.1.0"));
    assert!(!is_newer("1.0.9", "1.1.0"));
}

#[test]
fn version_numbers_are_read_leniently() {
    assert_eq!(parts("1.2.3"), (1, 2, 3));
    assert_eq!(parts("v2.0"), (2, 0, 0));
    assert_eq!(parse_version("name = \"x\"\n"), None);
}

#[test]
fn the_install_method_follows_where_the_binary_lives() {
    assert_eq!(detect_method(true, true, true), Method::Cargo);
    assert_eq!(detect_method(false, true, true), Method::Script);
    assert_eq!(detect_method(false, true, false), Method::Cargo);
    assert_eq!(detect_method(false, false, false), Method::Script);
    assert_eq!(Method::Cargo.label(), "cargo install --force");
    assert_eq!(cargo_bin(None, Some("/home/u")), "/home/u/.cargo/bin");
    assert_eq!(cargo_bin(Some("/opt/cargo"), None), "/opt/cargo/bin");
    assert!(starts_with("/home/u/.cargo/bin/rtk-index", "/home/u/.cargo/bin"));
    assert!(!starts_with("/usr/bin/rtk-index", "/home/u/.cargo/bin"));
}

#[test]
fn update_plans_and_exit_codes() {
    assert_eq!(update_plan(Some("1.3.0"), "1.2.0", true, false), UpdatePlan::Checked { outdated: true });
    assert_eq!(exit_status(update_plan(Some("1.3.0"), "1.2.0", true, false)), 1);
    assert_eq!(exit_status(update_plan(Some("1.2.0"), "1.2.0", true, false)), 0);
    assert_eq!(update_plan(Some("1.2.0"), "1.2.0", false, false), UpdatePlan::UpToDate);
    assert_eq!(update_plan(Some("1.2.0"), "1.2.0", false, true), UpdatePlan::Install);
    assert_eq!(update_plan(None, "1.2.0", false, false), UpdatePlan::NothingToCompare);
    assert_eq!(exit_status(UpdatePlan::NothingToCompare), 1);
}

#[test]
fn update_options() {
    let args = |v: &[&str]| v.iter().map(|s| s.to_string()).collect::<Vec<String>>();
    assert_eq!(
        parse_update_args(&args(&["--check", "--cargo"])),
        Ok(UpdateCommand::Run { check_only: true, force: false, method: Some(Method::Cargo) })
    );
    assert_eq!(parse_update_args(&args(&["-h"])), Ok(UpdateCommand::Help));
    assert_eq!(parse_update_args(&args(&["--nope"])), Err("--nope".to_string()));
}
