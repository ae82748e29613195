use zjide_manager::config::count_ones;
use zjide_manager::{
    BitResolver, CommandSpec, PaneEntry, PaneRef, PluginAction, PluginConfig, State, StateResolver,
    StrMap, TabManager, TabUpdate,
};

fn raw(pairs: &[(&str, &str)]) -> StrMap<String> {
    let mut m = StrMap::new();
    for (k, v) in pairs {
        m.insert(k.to_string(), v.to_string());
    }
    m
}

fn five_layouts() -> PluginConfig {
    PluginConfig::parse(&raw(&[
        ("layout.a", "x=false, y=false, z=false"),
        ("layout.b", "x=true, y=false, z=false"),
        ("layout.c", "x=false, y=true, z=false"),
        ("layout.d", "x=true, y=true, z=false"),
        ("layout.e", "x=false, y=false, z=true"),
        ("trigger.tx", "toggle x"),
        ("trigger.sx", "show x"),
        ("trigger.hx", "hide x"),
    ]))
    .unwrap()
}

#[test]
fn toggling_twice_restores_bits() {
    let c = five_layouts();
    let toggle = CommandSpec::parse("toggle y").unwrap();
    for bits in [0u64, 1, 2, 3, 4, 7, u64::MAX] {
        let once = c.resolve_target_bits(bits, &toggle).unwrap();
        assert_ne!(once, bits);
        assert_eq!(c.resolve_target_bits(once, &toggle), Some(bits));
    }
}

#[test]
fn show_sets_and_hide_clears_only_its_bit() {
    let c = five_layouts();
    let bit = c.bit_for_feature("z").unwrap();
    assert_eq!(bit, 4);
    let show = CommandSpec::parse("show z").unwrap();
    let hide = CommandSpec::parse("hide z").unwrap();
    for bits in [0u64, 3, 4, 5, 0b1010] {
        let shown = c.resolve_target_bits(bits, &show).unwrap();
        let hidden = c.resolve_target_bits(bits, &hide).unwrap();
        assert_eq!(shown & bit, bit);
        assert_eq!(hidden & bit, 0);
        assert_eq!(shown & !bit, bits & !bit);
        assert_eq!(hidden & !bit, bits & !bit);
    }
}

#[test]
fn mask_bit_i_is_feature_i() {
    let c = five_layouts();
    // features in order: x, y, z
    assert_eq!(c.bits_for_state("d"), Some(0b011));
    assert_eq!(c.bits_for_state("e"), Some(0b100));
    assert_eq!(c.bits_for_state("c"), Some(0b010));
}

#[test]
fn exact_layout_is_closest() {
    let c = five_layouts();
    for (name, bits) in [("a", 0u64), ("b", 1), ("c", 2), ("d", 3), ("e", 4)] {
        assert_eq!(c.closest_state(bits), Some((name.to_string(), bits)));
    }
    // 7 is one step from d (3), two from others: d wins
    assert_eq!(c.closest_state(7), Some(("d".to_string(), 3)));
}

fn at(layout: &str) -> State {
    let mut s = State::default();
    s.config = Some(five_layouts());
    s.update_tabs(vec![TabUpdate {
        position: 3,
        active: true,
        active_swap_layout_name: Some(layout.to_string()),
        is_swap_layout_dirty: true,
    }]);
    s
}

#[test]
fn walk_is_shortest_and_one_way() {
    let names = ["a", "b", "c", "d", "e"];
    for (ci, cur) in names.iter().enumerate() {
        let s = at(cur);
        for (ti, target) in names.iter().enumerate() {
            let walk = s.navigate_to_layout(target);
            let d = if ti >= ci { ti - ci } else { ci - ti };
            assert_eq!(walk.len(), d.min(5 - d));
            assert!(walk.len() <= 2);
            let forward = walk.iter().all(|a| *a == PluginAction::NextSwapLayout);
            let backward = walk.iter().all(|a| *a == PluginAction::PreviousSwapLayout);
            assert!(forward || backward);
            let end = if forward { (ci + walk.len()) % 5 } else { (ci + 5 - walk.len()) % 5 };
            assert_eq!(end, ti);
        }
    }
}

#[test]
fn reported_layout_sets_current_bits() {
    let mut s = at("e");
    let c = s.config.take().unwrap();
    assert_eq!(s.current_bits(&c), Some(4));
    assert_eq!(s.get_active_tab_state().unwrap().last_bits, Some(4));
    assert!(s.get_active_tab_state().unwrap().is_dirty);
}

#[test]
fn no_gain_focuses_default_pane() {
    let mut s = State::default();
    s.config = Some(
        PluginConfig::parse(&raw(&[
            ("layout.full", "terminal=true, sidebar=true"),
            ("layout.bare", "terminal=false, sidebar=false"),
            ("pane_name.editor", "Editor"),
            ("pane_name.terminal", "Terminal"),
            ("trigger.bare", "state bare"),
            ("trigger.full", "state full"),
        ]))
        .unwrap(),
    );
    s.update_tabs(vec![TabUpdate {
        position: 0,
        active: true,
        active_swap_layout_name: Some("full".to_string()),
        is_swap_layout_dirty: false,
    }]);
    s.on_pane_update(&vec![(
        0,
        vec![
            PaneEntry { id: 7, is_plugin: false, title: "Editor".to_string() },
            PaneEntry { id: 8, is_plugin: false, title: "Terminal".to_string() },
        ],
    )]);
    // nothing newly shown: the editor (default focus pane) is focused
    assert_eq!(
        s.apply_command("bare").unwrap().actions,
        vec![PluginAction::PreviousSwapLayout, PluginAction::FocusPane(PaneRef::Terminal(7))]
    );
    // from bare, showing terminal and sidebar focuses the terminal first
    s.update_tabs(vec![TabUpdate {
        position: 0,
        active: true,
        active_swap_layout_name: Some("bare".to_string()),
        is_swap_layout_dirty: false,
    }]);
    assert_eq!(
        s.apply_command("full").unwrap().actions,
        vec![PluginAction::NextSwapLayout, PluginAction::FocusPane(PaneRef::Terminal(8))]
    );
}

#[test]
fn count_ones_values() {
    assert_eq!(count_ones(0), 0);
    assert_eq!(count_ones(1), 1);
    assert_eq!(count_ones(0b1011), 3);
    assert_eq!(count_ones(u64::MAX), 64);
}
