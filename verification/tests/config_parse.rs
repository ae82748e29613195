use zjide_manager::{parse_layout_line, BitResolver, CommandKind, PluginConfig, StateResolver, StrMap};

fn raw(pairs: &[(&str, &str)]) -> StrMap<String> {
    let mut m = StrMap::new();
    for (k, v) in pairs {
        m.insert(k.to_string(), v.to_string());
    }
    m
}

fn demo() -> StrMap<String> {
    raw(&[
        ("default_layout", " BASE "),
        ("default_focus_pane", "Editor"),
        ("pane_name.editor", "Editor"),
        ("pane_name.terminal", "Terminal"),
        ("pane_name.sidebar", "File-Explorer"),
        ("layout.BASE", "sidebar=true, terminal=true"),
        ("layout.no_sidebar", "sidebar=false, terminal=true"),
        ("layout.no_terminal", "sidebar=true, terminal=false"),
        ("layout.zen", "sidebar=false, terminal=false"),
        ("trigger.toggle_sidebar", "toggle sidebar"),
        ("trigger.toggle_terminal", "toggle terminal"),
        ("trigger.zen", "state zen"),
        ("unrelated", "ignored"),
    ])
}

fn parse_err(pairs: &[(&str, &str)]) -> String {
    match PluginConfig::parse(&raw(pairs)) {
        Ok(_) => panic!("expected an error"),
        Err(e) => e,
    }
}

#[test]
fn layout_line_values() {
    let m = parse_layout_line("sidebar=true, terminal=0 ,x = on,y=off,z,w=1,v=false").unwrap();
    assert_eq!(m.get("sidebar"), Some(&true));
    assert_eq!(m.get("terminal"), Some(&false));
    assert_eq!(m.get("x"), Some(&true));
    assert_eq!(m.get("y"), Some(&false));
    assert_eq!(m.get("z"), Some(&true));
    assert_eq!(m.get("w"), Some(&true));
    assert_eq!(m.get("v"), Some(&false));
    assert_eq!(m.len(), 7);
    let m = parse_layout_line("a=true,,a=false,").unwrap();
    assert_eq!(m.get("a"), Some(&false));
    assert_eq!(m.len(), 1);
}

#[test]
fn layout_line_errors() {
    assert_eq!(parse_layout_line("   ").unwrap_err(), "empty layout definition");
    assert_eq!(parse_layout_line("=true").unwrap_err(), "missing feature name");
    assert_eq!(parse_layout_line("a=true, = ").unwrap_err(), "missing feature name");
    assert_eq!(
        parse_layout_line("a=maybe").unwrap_err(),
        "invalid feature value 'maybe' (expected true/false)"
    );
    assert_eq!(
        parse_layout_line("a=").unwrap_err(),
        "invalid feature value '' (expected true/false)"
    );
}

#[test]
fn demo_config_bits() {
    let c = PluginConfig::parse(&demo()).unwrap();
    assert_eq!(c.default_layout().unwrap(), "BASE");
    assert_eq!(c.default_focus_pane().unwrap(), "Editor");
    let f = c.feature_to_bit();
    assert_eq!(f.len(), 2);
    assert_eq!(f.key_at(0), "sidebar");
    assert_eq!(f.key_at(1), "terminal");
    assert_eq!(c.bit_for_feature("sidebar"), Some(1));
    assert_eq!(c.bit_for_feature("terminal"), Some(2));
    assert_eq!(c.bit_for_feature("editor"), None);
    assert_eq!(c.bits_for_state("BASE"), Some(3));
    assert_eq!(c.bits_for_state("no_sidebar"), Some(2));
    assert_eq!(c.bits_for_state("no_terminal"), Some(1));
    assert_eq!(c.bits_for_state("zen"), Some(0));
    assert_eq!(c.bits_for_state("ZEN"), None);
    assert_eq!(c.default_bits(), Some(3));
    assert_eq!(c.bits_to_state().get(&2).unwrap(), "no_sidebar");
    let names: Vec<&str> = (0..c.state_bits().len()).map(|i| c.state_bits().key_at(i).as_str()).collect();
    assert_eq!(names, vec!["BASE", "no_sidebar", "no_terminal", "zen"]);
    assert_eq!(c.feature_to_pane().get("sidebar").unwrap(), "File-Explorer");
    assert_eq!(c.commands().get("zen").unwrap().kind, CommandKind::SetState);
}

#[test]
fn resolve_target_bits_per_kind() {
    let c = PluginConfig::parse(&demo()).unwrap();
    let toggle = zjide_manager::CommandSpec::parse("toggle sidebar").unwrap();
    let show = zjide_manager::CommandSpec::parse("show terminal").unwrap();
    let hide = zjide_manager::CommandSpec::parse("hide terminal").unwrap();
    let state = zjide_manager::CommandSpec::parse("state no_terminal").unwrap();
    let unknown = zjide_manager::CommandSpec::parse("toggle nothing").unwrap();
    assert_eq!(c.resolve_target_bits(3, &toggle), Some(2));
    assert_eq!(c.resolve_target_bits(2, &toggle), Some(3));
    assert_eq!(c.resolve_target_bits(1, &show), Some(3));
    assert_eq!(c.resolve_target_bits(3, &hide), Some(1));
    assert_eq!(c.resolve_target_bits(0, &state), Some(1));
    assert_eq!(c.resolve_target_bits(0, &unknown), None);
}

#[test]
fn closest_state_prefers_fewer_differences_then_name() {
    let c = PluginConfig::parse(&raw(&[
        ("layout.b", "x=true, y=false, z=false"),
        ("layout.a", "x=false, y=true, z=false"),
        ("layout.c", "x=true, y=true, z=true"),
    ]))
    .unwrap();
    // x is bit 0, y bit 1, z bit 2: a = 2, b = 1, c = 7
    assert_eq!(c.closest_state(1), Some(("b".to_string(), 1)));
    // 3 is one away from a (2), b (1) and c (7): the first name wins
    assert_eq!(c.closest_state(3), Some(("a".to_string(), 2)));
    assert_eq!(c.closest_state(6), Some(("a".to_string(), 2)));
    assert_eq!(c.closest_state(5), Some(("b".to_string(), 1)));
    assert_eq!(c.default_layout().unwrap(), "a");
}

#[test]
fn default_focus_falls_back_to_editor_pane() {
    let c = PluginConfig::parse(&raw(&[
        ("layout.a", "x"),
        ("pane_name.editor", " Main "),
    ]))
    .unwrap();
    assert_eq!(c.default_focus_pane().unwrap(), "Main");
    let c = PluginConfig::parse(&raw(&[("layout.a", "x")])).unwrap();
    assert!(c.default_focus_pane().is_none());
}

#[test]
fn config_errors() {
    assert_eq!(parse_err(&[("trigger.a", "toggle x")]), "no layouts configured");
    assert_eq!(parse_err(&[("layout.a", " , ")]), "no features declared in layouts");
    assert_eq!(parse_err(&[("layout.a", "  ")]), "empty layout definition");
    assert_eq!(
        parse_err(&[("layout.a", "x=true, y=false"), ("layout.b", "x=true")]),
        "layout 'b' missing explicit value for feature 'y' - all features must be explicitly set in all layouts"
    );
    assert_eq!(
        parse_err(&[("layout.a", "x=true"), ("layout.b", "x=1")]),
        "duplicate bitmask 1 for layouts 'a' and 'b'"
    );
    assert_eq!(
        parse_err(&[("layout.a", "x=true"), ("trigger.t", "toggle")]),
        "toggle command missing feature"
    );
    assert_eq!(
        parse_err(&[("layout.a", "x=nope"), ("trigger.t", "toggle")]),
        "invalid feature value 'nope' (expected true/false)"
    );
    let many: Vec<String> = (0..65).map(|i| format!("f{i}")).collect();
    assert_eq!(parse_err(&[("layout.a", &many.join(","))]), "supports up to 64 features");
    let enough: Vec<String> = (0..64).map(|i| format!("f{i}")).collect();
    let c = PluginConfig::parse(&raw(&[("layout.a", &enough.join(","))])).unwrap();
    assert_eq!(c.bits_for_state("a"), Some(u64::MAX));
}

#[test]
fn cloned_config_answers_alike() {
    let c = PluginConfig::parse(&demo()).unwrap();
    let d = c.clone();
    drop(c);
    assert_eq!(d.bits_for_state("no_terminal"), Some(1));
    assert_eq!(d.bit_for_feature("terminal"), Some(2));
    assert_eq!(d.default_layout().unwrap(), "BASE");
    assert_eq!(d.feature_to_pane().get("terminal").unwrap(), "Terminal");
    assert_eq!(d.commands().get("zen").unwrap().kind, CommandKind::SetState);
}
