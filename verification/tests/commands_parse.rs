use zjide_manager::{CommandKind, CommandRegistry, CommandSpec, CommandTarget, StrMap};

fn feature(spec: &CommandSpec) -> String {
    match &spec.target {
        CommandTarget::Feature(f) => f.clone(),
        CommandTarget::State(s) => panic!("expected a feature, got state {s}"),
    }
}

fn state(spec: &CommandSpec) -> String {
    match &spec.target {
        CommandTarget::State(s) => s.clone(),
        CommandTarget::Feature(f) => panic!("expected a state, got feature {f}"),
    }
}

#[test]
fn parse_toggle() {
    let c = CommandSpec::parse("toggle sidebar").unwrap();
    assert_eq!(c.kind, CommandKind::Toggle);
    assert_eq!(feature(&c), "sidebar");
}

#[test]
fn parse_show_and_on_ignore_case_and_separators() {
    let c = CommandSpec::parse("Show:terminal").unwrap();
    assert_eq!(c.kind, CommandKind::Show);
    assert_eq!(feature(&c), "terminal");
    let c = CommandSpec::parse("  ON = terminal  ").unwrap();
    assert_eq!(c.kind, CommandKind::Show);
    assert_eq!(feature(&c), "terminal");
}

#[test]
fn parse_hide_and_off() {
    let c = CommandSpec::parse("hide sidebar").unwrap();
    assert_eq!(c.kind, CommandKind::Hide);
    assert_eq!(feature(&c), "sidebar");
    let c = CommandSpec::parse("off\tsidebar extra").unwrap();
    assert_eq!(c.kind, CommandKind::Hide);
    assert_eq!(feature(&c), "sidebar");
}

#[test]
fn parse_state_forms() {
    for raw in ["state zen", "set_state zen", "LAYOUT:zen"] {
        let c = CommandSpec::parse(raw).unwrap();
        assert_eq!(c.kind, CommandKind::SetState);
        assert_eq!(state(&c), "zen");
    }
}

#[test]
fn parse_bare_feature_is_toggle_keeping_case() {
    let c = CommandSpec::parse("SideBar").unwrap();
    assert_eq!(c.kind, CommandKind::Toggle);
    assert_eq!(feature(&c), "SideBar");
}

#[test]
fn parse_errors() {
    assert_eq!(CommandSpec::parse("").unwrap_err(), "empty trigger definition");
    assert_eq!(CommandSpec::parse(" : = ").unwrap_err(), "empty trigger definition");
    assert_eq!(CommandSpec::parse("toggle").unwrap_err(), "toggle command missing feature");
    assert_eq!(CommandSpec::parse("on").unwrap_err(), "show command missing feature");
    assert_eq!(CommandSpec::parse("hide:").unwrap_err(), "hide command missing feature");
    assert_eq!(
        CommandSpec::parse("set_state").unwrap_err(),
        "set_state command missing layout name"
    );
}

#[test]
fn registry_get_insert() {
    let mut reg = CommandRegistry::default();
    assert!(reg.get("a").is_none());
    reg.insert("a".to_string(), CommandSpec::parse("toggle x").unwrap());
    assert_eq!(feature(reg.get("a").unwrap()), "x");
    reg.insert("a".to_string(), CommandSpec::parse("hide y").unwrap());
    let c = reg.get("a").unwrap();
    assert_eq!(c.kind, CommandKind::Hide);
    assert_eq!(feature(c), "y");

    let mut m = StrMap::new();
    m.insert("b".to_string(), CommandSpec::parse("state z").unwrap());
    let reg = CommandRegistry::new(m);
    assert_eq!(state(reg.get("b").unwrap()), "z");
    assert!(reg.get("a").is_none());
}

#[test]
fn target_equality() {
    assert_eq!(
        CommandSpec::parse("toggle x").unwrap().target,
        CommandTarget::Feature("x".to_string())
    );
    assert_ne!(CommandTarget::Feature("x".to_string()), CommandTarget::State("x".to_string()));
    assert_ne!(CommandTarget::State("x".to_string()), CommandTarget::State("y".to_string()));
}

#[test]
fn words_after_the_second_do_not_matter() {
    for (long, short) in [
        ("toggle sidebar and more", "toggle sidebar"),
        ("state:zen=x y", "state zen"),
        ("SideBar extra", "SideBar extra"),
    ] {
        let a = CommandSpec::parse(long).unwrap();
        let b = CommandSpec::parse(short).unwrap();
        assert_eq!(a.kind, b.kind);
        assert_eq!(a.target, b.target);
    }
}
