use zjide_manager::{
    Notice, PaneEntry, PaneRef, PluginAction, PluginConfig, State, StateError, StrMap, TabManager,
    TabUpdate,
};

use PluginAction::{FocusPane, NextSwapLayout, PreviousSwapLayout};

fn raw(pairs: &[(&str, &str)]) -> StrMap<String> {
    let mut m = StrMap::new();
    for (k, v) in pairs {
        m.insert(k.to_string(), v.to_string());
    }
    m
}

fn demo_pairs() -> Vec<(&'static str, &'static str)> {
    vec![
        ("default_layout", "BASE"),
        ("default_focus_pane", "Editor"),
        ("pane_name.editor", "Editor"),
        ("pane_name.terminal", "Terminal"),
        ("pane_name.sidebar", "File-Explorer"),
        ("layout.BASE", "sidebar=true, terminal=true"),
        ("layout.no_sidebar", "sidebar=false, terminal=true"),
        ("layout.no_terminal", "sidebar=true, terminal=false"),
        ("layout.zen", "sidebar=false, terminal=false"),
        ("trigger.toggle_sidebar", "toggle sidebar"),
        ("trigger.toggle_terminal", "toggle terminal"),
        ("trigger.zen", "state zen"),
        ("trigger.ghost", "toggle ghost"),
    ]
}

fn tab(position: usize, active: bool, layout: Option<&str>) -> TabUpdate {
    TabUpdate {
        position,
        active,
        active_swap_layout_name: layout.map(|s| s.to_string()),
        is_swap_layout_dirty: false,
    }
}

fn pane(id: u32, is_plugin: bool, title: &str) -> PaneEntry {
    PaneEntry { id, is_plugin, title: title.to_string() }
}

/// A configured state whose active tab (0) shows `layout`, with the demo panes tracked.
fn state_at(layout: &str) -> State {
    let mut s = State::default();
    s.config = Some(PluginConfig::parse(&raw(&demo_pairs())).unwrap());
    s.on_tab_update(vec![tab(1, false, Some("zen")), tab(0, true, Some(layout))]);
    let manifest = vec![
        (1, vec![pane(9, false, "Elsewhere")]),
        (
            0,
            vec![
                pane(1, false, "Editor"),
                pane(2, false, "Terminal"),
                pane(3, false, "File-Explorer"),
                pane(4, true, "zjide-manager"),
            ],
        ),
    ];
    s.on_pane_update(&manifest);
    s
}

#[test]
fn tab_update_tracks_layout_and_bits() {
    let mut s = state_at("no_terminal");
    assert_eq!(s.active_tab, Some(0));
    let t = s.get_active_tab_state().unwrap();
    assert_eq!(t.active_layout.as_deref(), Some("no_terminal"));
    assert_eq!(t.last_bits, Some(1));
    let config = s.config.take().unwrap();
    assert_eq!(s.current_bits(&config), Some(1));
    // an unknown layout name keeps the last known bits
    s.update_tabs(vec![tab(0, true, Some("custom"))]);
    assert_eq!(s.current_bits(&config), Some(1));
    // a tab never seen, without a layout, falls back to the default layout
    s.update_tabs(vec![tab(5, true, None)]);
    assert_eq!(s.active_tab, Some(5));
    assert_eq!(s.current_bits(&config), Some(3));
}

#[test]
fn pane_update_tracks_active_tab_panes() {
    let s = state_at("BASE");
    assert_eq!(s.focus_pane("Terminal"), vec![FocusPane(PaneRef::Terminal(2))]);
    assert_eq!(s.focus_pane("zjide-manager"), vec![FocusPane(PaneRef::Plugin(4))]);
    assert_eq!(s.focus_pane("Elsewhere"), vec![]);
}

#[test]
fn toggle_sidebar_off_goes_forward_and_focuses_default() {
    let mut s = state_at("BASE");
    assert_eq!(
        s.apply_command("toggle_sidebar").unwrap().actions,
        vec![NextSwapLayout, FocusPane(PaneRef::Terminal(1))]
    );
}

#[test]
fn toggle_terminal_on_goes_back_and_focuses_terminal() {
    let mut s = state_at("zen");
    assert_eq!(
        s.apply_command("toggle_terminal").unwrap().actions,
        vec![PreviousSwapLayout, PreviousSwapLayout, FocusPane(PaneRef::Terminal(2))]
    );
}

#[test]
fn state_trigger_takes_shorter_way_round() {
    let mut s = state_at("BASE");
    assert_eq!(
        s.apply_command("zen").unwrap().actions,
        vec![PreviousSwapLayout, FocusPane(PaneRef::Terminal(1))]
    );
    let mut s = state_at("zen");
    assert_eq!(s.apply_command("zen").unwrap().actions, vec![FocusPane(PaneRef::Terminal(1))]);
}

#[test]
fn navigate_forward_on_tie() {
    let s = state_at("BASE");
    assert_eq!(s.navigate_to_layout("no_terminal"), vec![NextSwapLayout, NextSwapLayout]);
    let s = state_at("no_terminal");
    assert_eq!(s.navigate_to_layout("BASE"), vec![PreviousSwapLayout, PreviousSwapLayout]);
    assert_eq!(s.navigate_to_layout("missing"), vec![]);
}

#[test]
fn focus_or_toggle_shows_hidden_sidebar() {
    let mut s = state_at("zen");
    assert_eq!(
        s.focus_or_toggle_pane("File-Explorer").unwrap().actions,
        vec![PreviousSwapLayout, FocusPane(PaneRef::Terminal(3))]
    );
    let mut s = state_at("BASE");
    assert_eq!(
        s.focus_or_toggle_pane("File-Explorer").unwrap().actions,
        vec![FocusPane(PaneRef::Terminal(3))]
    );
    // a pane without a feature is only focused
    assert_eq!(
        s.focus_or_toggle_pane("zjide-manager").unwrap().actions,
        vec![FocusPane(PaneRef::Plugin(4))]
    );
}

#[test]
fn pipe_messages() {
    let mut s = state_at("zen");
    assert_eq!(
        s.handle_pipe("focus-pane", Some("Editor")).unwrap().actions,
        vec![FocusPane(PaneRef::Terminal(1))]
    );
    assert_eq!(s.handle_pipe("focus-pane", None).unwrap().actions, vec![]);
    assert_eq!(
        s.handle_pipe("focus-or-toggle-pane", Some("Terminal")).unwrap().actions,
        vec![PreviousSwapLayout, PreviousSwapLayout, FocusPane(PaneRef::Terminal(2))]
    );
    assert_eq!(
        s.handle_pipe("toggle_terminal", None).unwrap().actions,
        vec![PreviousSwapLayout, PreviousSwapLayout, FocusPane(PaneRef::Terminal(2))]
    );
}

#[test]
fn refusals() {
    let mut s = State::default();
    assert!(matches!(s.apply_command("zen"), Err(StateError::NotConfigured)));
    assert!(matches!(s.focus_or_toggle_pane("Editor"), Err(StateError::NotConfigured)));

    let mut s = state_at("BASE");
    assert!(matches!(s.apply_command("nope"), Err(StateError::UnknownTrigger)));
    assert!(matches!(s.apply_command("ghost"), Err(StateError::UnresolvedTrigger)));

    let mut pairs = demo_pairs();
    pairs[0] = ("default_layout", "missing");
    pairs.push(("pane_name.ghost", "Ghost"));
    let mut s = State::default();
    s.config = Some(PluginConfig::parse(&raw(&pairs)).unwrap());
    assert!(matches!(s.apply_command("zen"), Err(StateError::UnknownCurrentBits)));
    s.on_tab_update(vec![tab(0, true, Some("zen"))]);
    match s.focus_or_toggle_pane("Ghost") {
        Err(StateError::UnknownFeature(f)) => assert_eq!(f, "ghost"),
        other => panic!("unexpected {other:?}"),
    }
}

#[test]
fn notices_tell_how_a_request_went() {
    // exact layout and known current layout: nothing to note
    let mut s = state_at("BASE");
    assert!(s.apply_command("toggle_sidebar").unwrap().notices.is_empty());

    // no layout shows only the feature: the closest layout stands in
    let mut s = State::default();
    s.config = Some(
        PluginConfig::parse(&raw(&[
            ("layout.a", "x=false, y=false"),
            ("layout.b", "x=true, y=true"),
            ("pane_name.x", "X"),
            ("trigger.tx", "toggle x"),
        ]))
        .unwrap(),
    );
    s.on_tab_update(vec![tab(0, true, Some("a"))]);
    let plan = s.apply_command("tx").unwrap();
    assert_eq!(plan.actions, vec![]);
    match plan.notices.as_slice() {
        [Notice::FallbackLayout { target_bits, layout }] => {
            assert_eq!(*target_bits, 1);
            assert_eq!(layout, "a");
        }
        other => panic!("unexpected {other:?}"),
    }
    let plan = s.focus_or_toggle_pane("X").unwrap();
    assert!(matches!(plan.notices.as_slice(), [Notice::FallbackLayout { .. }]));

    // the active tab's layout is not a configured one: no walk, and a note
    s.on_tab_update(vec![tab(0, true, Some("custom"))]);
    let plan = s.apply_command("tx").unwrap();
    assert_eq!(plan.actions, vec![]);
    match plan.notices.as_slice() {
        [Notice::FallbackLayout { layout, .. }, Notice::CurrentLayoutUnknown] => {
            assert_eq!(layout, "a")
        }
        other => panic!("unexpected {other:?}"),
    }
    match s.navigation_notice("nowhere") {
        Some(Notice::TargetLayoutUnknown(l)) => assert_eq!(l, "nowhere"),
        other => panic!("unexpected {other:?}"),
    }
    assert!(matches!(s.navigation_notice("b"), Some(Notice::CurrentLayoutUnknown)));
}
