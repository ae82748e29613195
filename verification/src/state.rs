use vstd::prelude::*;

use crate::config::{
    BitResolver, ConfigView, PluginConfig, StateResolver, is_closest, opt_chars,
    spec_bit_for_feature, spec_default_bits, spec_resolve_target_bits,
};
use crate::name_map::StrMap;
use std::collections::BTreeMap;

verus! {

/// Represents the state of a single tab
#[derive(Debug, Clone)]
pub struct TabState {
    pub active_layout: Option<String>,
    pub last_bits: Option<u64>,
    pub is_dirty: bool,
}

/// What a `TabState` holds.
pub struct TabView {
    pub active_layout: Option<Seq<char>>,
    pub last_bits: Option<u64>,
    pub is_dirty: bool,
}

impl View for TabState {
    type V = TabView;

    open spec fn view(&self) -> TabView {
        TabView {
            active_layout: opt_chars(self.active_layout),
            last_bits: self.last_bits,
            is_dirty: self.is_dirty,
        }
    }
}

impl Default for TabState {
    fn default() -> (r: Self)
        ensures
            r@ == (TabView { active_layout: None, last_bits: None, is_dirty: false }),
    {
        TabState { active_layout: None, last_bits: None, is_dirty: false }
    }
}

/// A pane of the host, by kind and id.
#[derive(Debug, Clone, Copy, PartialEq, Eq, Structural)]
pub enum PaneRef {
    Terminal(u32),
    Plugin(u32),
}

/// What the host reports of one tab.
#[derive(Debug, Clone)]
pub struct TabUpdate {
    pub position: usize,
    pub active: bool,
    pub active_swap_layout_name: Option<String>,
    pub is_swap_layout_dirty: bool,
}

/// What a `TabUpdate` reports.
pub struct TabUpdateView {
    pub position: usize,
    pub active: bool,
    pub active_swap_layout_name: Option<Seq<char>>,
    pub is_swap_layout_dirty: bool,
}

impl View for TabUpdate {
    type V = TabUpdateView;

    open spec fn view(&self) -> TabUpdateView {
        TabUpdateView {
            position: self.position,
            active: self.active,
            active_swap_layout_name: opt_chars(self.active_swap_layout_name),
            is_swap_layout_dirty: self.is_swap_layout_dirty,
        }
    }
}

/// What the host reports of one pane.
#[derive(Debug, Clone)]
pub struct PaneEntry {
    pub id: u32,
    pub is_plugin: bool,
    pub title: String,
}

/// What the host is asked to do, in order.
#[derive(Debug, Clone, Copy, PartialEq, Eq, Structural)]
pub enum PluginAction {
    NextSwapLayout,
    PreviousSwapLayout,
    FocusPane(PaneRef),
}

/// Why a request is refused.
#[derive(Debug)]
pub enum StateError {
    /// No configuration was read.
    NotConfigured,
    /// No trigger has this name.
    UnknownTrigger,
    /// The bitmask of the active tab is unknown.
    UnknownCurrentBits,
    /// The trigger names a feature or layout that the configuration lacks.
    UnresolvedTrigger,
    /// The configuration has no layout to go to for a trigger.
    NoLayouts,
    /// The configuration has no layout to go to that shows this feature.
    NoLayoutsForFeature(String),
    /// A pane's feature has no bit.
    UnknownFeature(String),
}

/// Why a request is refused, with names as characters.
pub enum StateErrorView {
    NotConfigured,
    UnknownTrigger,
    UnknownCurrentBits,
    UnresolvedTrigger,
    NoLayouts,
    NoLayoutsForFeature(Seq<char>),
    UnknownFeature(Seq<char>),
}

impl View for StateError {
    type V = StateErrorView;

    open spec fn view(&self) -> StateErrorView {
        match self {
            StateError::NotConfigured => StateErrorView::NotConfigured,
            StateError::UnknownTrigger => StateErrorView::UnknownTrigger,
            StateError::UnknownCurrentBits => StateErrorView::UnknownCurrentBits,
            StateError::UnresolvedTrigger => StateErrorView::UnresolvedTrigger,
            StateError::NoLayouts => StateErrorView::NoLayouts,
            StateError::NoLayoutsForFeature(f) => StateErrorView::NoLayoutsForFeature(f@),
            StateError::UnknownFeature(f) => StateErrorView::UnknownFeature(f@),
        }
    }
}

/// A note for the log on how a request was carried out.
#[derive(Debug)]
pub enum Notice {
    /// No layout has the requested bitmask; the closest layout is used instead.
    FallbackLayout { target_bits: u64, layout: String },
    /// The layout to go to is not among the configured layouts; no walk is made.
    TargetLayoutUnknown(String),
    /// The active tab's layout is unknown; no walk is made.
    CurrentLayoutUnknown,
}

/// What a `Notice` says, with names as characters.
pub enum NoticeView {
    FallbackLayout { target_bits: u64, layout: Seq<char> },
    TargetLayoutUnknown(Seq<char>),
    CurrentLayoutUnknown,
}

impl View for Notice {
    type V = NoticeView;

    open spec fn view(&self) -> NoticeView {
        match self {
            Notice::FallbackLayout { target_bits, layout } => NoticeView::FallbackLayout {
                target_bits: *target_bits,
                layout: layout@,
            },
            Notice::TargetLayoutUnknown(l) => NoticeView::TargetLayoutUnknown(l@),
            Notice::CurrentLayoutUnknown => NoticeView::CurrentLayoutUnknown,
        }
    }
}

/// What a request asks of the host, in order, with notes for the log.
#[derive(Debug)]
pub struct Plan {
    pub actions: Vec<PluginAction>,
    pub notices: Vec<Notice>,
}

/// The notes, each by its view.
pub open spec fn notices_view(ns: Seq<Notice>) -> Seq<NoticeView> {
    ns.map_values(|n: Notice| n@)
}

/// Manages the overall plugin state and tab tracking
#[derive(Debug)]
pub struct State {
    pub config: Option<PluginConfig>,
    pub tabs: BTreeMap<usize, TabState>,
    pub active_tab: Option<usize>,
    pub tracked_panes: StrMap<PaneRef>,
}

/// The configuration, if any, by its view.
pub open spec fn config_view(c: Option<PluginConfig>) -> Option<ConfigView> {
    match c {
        Some(c) => Some(c@),
        None => None,
    }
}

/// The tabs, each by its view.
pub open spec fn tabs_view(tabs: BTreeMap<usize, TabState>) -> Map<usize, TabView> {
    tabs@.map_values(|t: TabState| t@)
}

/// The state a tab is in once `u` has been reported of it.
pub open spec fn updated_tab(cfg: Option<ConfigView>, old: Option<TabView>, u: TabUpdateView) -> TabView {
    TabView {
        active_layout: u.active_swap_layout_name,
        is_dirty: u.is_swap_layout_dirty,
        last_bits: match (u.active_swap_layout_name, cfg) {
            (Some(name), Some(c)) if c.state_bits.contains_key(name) => Some(c.state_bits[name]),
            _ => match old {
                Some(t) => t.last_bits,
                None => None,
            },
        },
    }
}

/// The tabs once the updates `us` have been applied in order.
pub open spec fn updated_tabs(cfg: Option<ConfigView>, tabs: Map<usize, TabView>, us: Seq<TabUpdateView>) -> Map<
    usize,
    TabView,
>
    decreases us.len(),
{
    if us.len() == 0 {
        tabs
    } else {
        let u = us[0];
        let old = if tabs.contains_key(u.position) {
            Some(tabs[u.position])
        } else {
            None
        };
        updated_tabs(cfg, tabs.insert(u.position, updated_tab(cfg, old, u)), us.drop_first())
    }
}

/// The position of the first active tab of `us`.
pub open spec fn first_active(us: Seq<TabUpdateView>) -> Option<usize>
    decreases us.len(),
{
    if us.len() == 0 {
        None
    } else if us[0].active {
        Some(us[0].position)
    } else {
        first_active(us.drop_first())
    }
}

/// The pane that a pane entry names.
pub open spec fn pane_ref(id: u32, is_plugin: bool) -> PaneRef {
    if is_plugin {
        PaneRef::Plugin(id)
    } else {
        PaneRef::Terminal(id)
    }
}

/// The panes of `ps` by title; a later pane of the same title wins.
pub open spec fn panes_by_title(ps: Seq<PaneEntry>) -> Map<Seq<char>, PaneRef>
    decreases ps.len(),
{
    if ps.len() == 0 {
        Map::empty()
    } else {
        panes_by_title(ps.drop_last()).insert(
            ps.last().title@,
            pane_ref(ps.last().id, ps.last().is_plugin),
        )
    }
}

/// The panes of the tab at `tab` in a manifest (its first entry for that tab).
pub open spec fn manifest_panes(manifest: Seq<(usize, Vec<PaneEntry>)>, tab: usize) -> Option<
    Seq<PaneEntry>,
>
    decreases manifest.len(),
{
    if manifest.len() == 0 {
        None
    } else if manifest[0].0 == tab {
        Some(manifest[0].1@)
    } else {
        manifest_panes(manifest.drop_first(), tab)
    }
}

/// The state of the active tab.
pub open spec fn active_tab_view(s: State) -> Option<TabView> {
    match s.active_tab {
        Some(pos) => if tabs_view(s.tabs).contains_key(pos) {
            Some(tabs_view(s.tabs)[pos])
        } else {
            None
        },
        None => None,
    }
}

/// The bitmask of the active tab: that of its layout, else the last one known
/// for it, else that of the default layout.
pub open spec fn spec_current_bits(tab: Option<TabView>, c: ConfigView) -> Option<u64> {
    match tab {
        Some(t) => match t.active_layout {
            Some(name) if c.state_bits.contains_key(name) => Some(c.state_bits[name]),
            _ => match t.last_bits {
                Some(b) => Some(b),
                None => spec_default_bits(c),
            },
        },
        None => spec_default_bits(c),
    }
}

/// The tab at `pos`.
fn tab_get(tabs: &BTreeMap<usize, TabState>, pos: usize) -> (r: Option<&TabState>)
    ensures
        match r {
            Some(t) => tabs_view(*tabs).contains_key(pos) && tabs_view(*tabs)[pos] == t@,
            None => !tabs_view(*tabs).contains_key(pos),
        },
{
    broadcast use vstd::laws_cmp::group_laws_cmp;
    broadcast use vstd::std_specs::btree::group_btree_axioms;

    tabs.get(&pos)
}

/// Takes the tab at `pos` out of `tabs`.
fn tab_take(tabs: &mut BTreeMap<usize, TabState>, pos: usize) -> (r: Option<TabState>)
    ensures
        match r {
            Some(t) => tabs_view(*old(tabs)).contains_key(pos) && tabs_view(*old(tabs))[pos]
                == t@,
            None => !tabs_view(*old(tabs)).contains_key(pos),
        },
        tabs_view(*final(tabs)) == tabs_view(*old(tabs)).remove(pos),
{
    broadcast use vstd::laws_cmp::group_laws_cmp;
    broadcast use vstd::std_specs::btree::group_btree_axioms;

    let r = tabs.remove(&pos);
    assert(tabs_view(*tabs) =~= tabs_view(*old(tabs)).remove(pos));
    r
}

/// Puts `t` into `tabs` at `pos`.
fn tab_put(tabs: &mut BTreeMap<usize, TabState>, pos: usize, t: TabState)
    ensures
        tabs_view(*final(tabs)) == tabs_view(*old(tabs)).insert(pos, t@),
{
    broadcast use vstd::laws_cmp::group_laws_cmp;
    broadcast use vstd::std_specs::btree::group_btree_axioms;

    let ghost tv = t@;
    tabs.insert(pos, t);
    assert(tabs_view(*tabs) =~= tabs_view(*old(tabs)).insert(pos, tv));
}

/// A copy of an optional string.
fn copy_opt_string(o: &Option<String>) -> (r: Option<String>)
    ensures
        opt_chars(r) == opt_chars(*o),
{
    match o {
        Some(s) => Some(s.clone()),
        None => None,
    }
}

/// Trait for managing tab updates
pub trait TabManager {
    fn update_tabs(&mut self, tabs: Vec<TabUpdate>);

    fn get_active_tab_state(&self) -> Option<&TabState>;
}

impl TabManager for State {
    fn update_tabs(&mut self, tabs: Vec<TabUpdate>)
        ensures
            tabs_view(final(self).tabs) == updated_tabs(
                config_view(old(self).config),
                tabs_view(old(self).tabs),
                tabs@.map_values(|u: TabUpdate| u@),
            ),
            final(self).active_tab == match first_active(tabs@.map_values(|u: TabUpdate| u@)) {
                Some(p) => Some(p),
                None => old(self).active_tab,
            },
            final(self).config == old(self).config,
            final(self).tracked_panes == old(self).tracked_panes,
    {
        let ghost us = tabs@.map_values(|u: TabUpdate| u@);
        let ghost cfg = config_view(self.config);
        let n = tabs.len();
        let mut i: usize = 0;
        assert(us.skip(0) =~= us);
        while i < n && !tabs[i].active
            invariant
                n == tabs@.len(),
                us == tabs@.map_values(|u: TabUpdate| u@),
                i <= n,
                first_active(us.skip(i as int)) == first_active(us),
            decreases n - i,
        {
            assert(us.skip(i as int)[0] == tabs@[i as int]@);
            assert(us.skip(i as int).drop_first() =~= us.skip(i + 1));
            i = i + 1;
        }
        if i < n {
            assert(us.skip(i as int)[0] == tabs@[i as int]@);
            self.active_tab = Some(tabs[i].position);
        } else {
            assert(us.skip(i as int) =~= Seq::<TabUpdateView>::empty());
        }
        let ghost at = self.active_tab;
        let mut k: usize = 0;
        while k < n
            invariant
                self.active_tab == at,
                self.tracked_panes == old(self).tracked_panes,
                n == tabs@.len(),
                us == tabs@.map_values(|u: TabUpdate| u@),
                cfg == config_view(self.config),
                self.config == old(self).config,
                k <= n,
                updated_tabs(cfg, tabs_view(self.tabs), us.skip(k as int)) == updated_tabs(
                    cfg,
                    tabs_view(old(self).tabs),
                    us,
                ),
            decreases n - k,
        {
            let u = &tabs[k];
            assert(us.skip(k as int)[0] == u@);
            assert(us.skip(k as int).drop_first() =~= us.skip(k + 1));
            let ghost before = tabs_view(self.tabs);
            let previous = tab_take(&mut self.tabs, u.position);
            let last_bits = match (&u.active_swap_layout_name, &self.config) {
                (Some(name), Some(config)) => match config.bits_for_state(name.as_str()) {
                    Some(bits) => Some(bits),
                    None => match &previous {
                        Some(t) => t.last_bits,
                        None => None,
                    },
                },
                _ => match &previous {
                    Some(t) => t.last_bits,
                    None => None,
                },
            };
            let t = TabState {
                active_layout: copy_opt_string(&u.active_swap_layout_name),
                last_bits,
                is_dirty: u.is_swap_layout_dirty,
            };
            tab_put(&mut self.tabs, u.position, t);
            assert(tabs_view(self.tabs) =~= before.insert(
                u.position,
                updated_tab(cfg, if before.contains_key(u.position) { Some(before[u.position]) } else { None }, u@),
            ));
            k = k + 1;
        }
        assert(us.skip(n as int) =~= Seq::<TabUpdateView>::empty());
    }

    fn get_active_tab_state(&self) -> (r: Option<&TabState>)
        ensures
            match r {
                Some(t) => active_tab_view(*self) == Some(t@),
                None => active_tab_view(*self) is None,
            },
    {
        match self.active_tab {
            Some(pos) => tab_get(&self.tabs, pos),
            None => None,
        }
    }
}


/// `k` copies of `a`.
pub open spec fn repeat(a: PluginAction, k: int) -> Seq<PluginAction> {
    Seq::new(k as nat, |i: int| a)
}

/// How to walk the swap layouts, in the order of `names`, from `current` to
/// `target` the shorter way round; where both ways are equally long (the target
/// half-way round), forward when the target comes later in `names` and backward
/// when it comes earlier. Nothing where either is not among them.
pub open spec fn spec_navigation(names: Seq<Seq<char>>, current: Option<Seq<char>>, target: Seq<char>) -> Seq<
    PluginAction,
> {
    match (names.index_of_first(target), current) {
        (Some(ti), Some(cur)) => match names.index_of_first(cur) {
            Some(ci) => {
                let n = names.len() as int;
                let d = ti - ci;
                if d == 0 {
                    Seq::empty()
                } else {
                    let use_next = if d > 0 {
                        d <= n / 2
                    } else {
                        -d > n / 2
                    };
                    if use_next {
                        repeat(PluginAction::NextSwapLayout, if d > 0 { d } else { n + d })
                    } else {
                        repeat(PluginAction::PreviousSwapLayout, if d < 0 { -d } else { n - d })
                    }
                }
            },
            None => Seq::empty(),
        },
        _ => Seq::empty(),
    }
}

/// The layout of the active tab.
pub open spec fn active_layout(s: State) -> Option<Seq<char>> {
    match active_tab_view(s) {
        Some(t) => t.active_layout,
        None => None,
    }
}

/// A focus request for `p`, if any.
pub open spec fn focus_seq(p: Option<PaneRef>) -> Seq<PluginAction> {
    match p {
        Some(p) => seq![PluginAction::FocusPane(p)],
        None => Seq::empty(),
    }
}

/// The pane to focus for feature `f` once the bits `gained` have been shown:
/// the tracked pane that `f` names, where `f`'s bit is among them.
pub open spec fn spec_gained_pane(c: ConfigView, panes: StrMap<PaneRef>, gained: u64, f: Seq<char>) -> Option<
    PaneRef,
> {
    match spec_bit_for_feature(c, f) {
        Some(bit) => if gained & bit != 0 && c.feature_to_pane.contains_key(f) {
            panes.lookup(c.feature_to_pane[f])
        } else {
            None
        },
        None => None,
    }
}

/// The pane of the first feature of `fs`, other than "terminal" and "sidebar",
/// that `spec_gained_pane` gives.
pub open spec fn first_gained_pane(c: ConfigView, panes: StrMap<PaneRef>, gained: u64, fs: Seq<Seq<char>>) -> Option<
    PaneRef,
>
    decreases fs.len(),
{
    if fs.len() == 0 {
        None
    } else if fs[0] != "terminal"@ && fs[0] != "sidebar"@ && spec_gained_pane(
        c,
        panes,
        gained,
        fs[0],
    ) is Some {
        spec_gained_pane(c, panes, gained, fs[0])
    } else {
        first_gained_pane(c, panes, gained, fs.drop_first())
    }
}

/// The pane to focus once the bits `gained` have been shown: that of the
/// terminal, else of the sidebar, else of another shown feature, else the default
/// focus pane.
pub open spec fn spec_focus(c: ConfigView, panes: StrMap<PaneRef>, gained: u64) -> Option<PaneRef> {
    match spec_gained_pane(c, panes, gained, "terminal"@) {
        Some(p) => Some(p),
        None => match spec_gained_pane(c, panes, gained, "sidebar"@) {
            Some(p) => Some(p),
            None => match first_gained_pane(c, panes, gained, c.features) {
                Some(p) => Some(p),
                None => match c.default_focus_pane {
                    Some(d) => panes.lookup(d),
                    None => None,
                },
            },
        },
    }
}

/// The layout to go to for bitmask `target`: the layout with that bitmask, else
/// the closest one.
pub open spec fn target_layout(c: ConfigView, target: u64) -> Option<Seq<char>> {
    if c.bits_to_state.contains_key(target) {
        Some(c.bits_to_state[target])
    } else if c.state_bits.dom() != Set::<Seq<char>>::empty() {
        Some(choose|n: Seq<char>| is_closest(c, target, n))
    } else {
        None
    }
}

/// What a trigger asks of the host: the walk to the target layout, then a focus.
pub open spec fn spec_apply_command(s: State, name: Seq<char>) -> Result<Seq<PluginAction>, StateErrorView> {
    match config_view(s.config) {
        None => Err(StateErrorView::NotConfigured),
        Some(c) => if !c.commands.contains_key(name) {
            Err(StateErrorView::UnknownTrigger)
        } else {
            match spec_current_bits(active_tab_view(s), c) {
                None => Err(StateErrorView::UnknownCurrentBits),
                Some(cur) => match spec_resolve_target_bits(c, cur, c.commands[name]) {
                    None => Err(StateErrorView::UnresolvedTrigger),
                    Some(t) => match target_layout(c, t) {
                        None => Err(StateErrorView::NoLayouts),
                        Some(l) => Ok(
                            spec_navigation(c.layout_names, active_layout(s), l) + focus_seq(
                                spec_focus(c, s.tracked_panes, t & !cur),
                            ),
                        ),
                    },
                },
            }
        },
    }
}

/// An optional note by its view.
pub open spec fn opt_notice_view(o: Option<Notice>) -> Option<NoticeView> {
    match o {
        Some(n) => Some(n@),
        None => None,
    }
}

/// The one-element sequence of `o`'s value, or the empty one.
pub open spec fn opt_seq<A>(o: Option<A>) -> Seq<A> {
    match o {
        Some(x) => seq![x],
        None => Seq::empty(),
    }
}

/// Why no walk from `current` to `target` is made, where none is: the target is
/// not among `names`, else the current layout is unknown or not among them.
pub open spec fn spec_navigation_notice(names: Seq<Seq<char>>, current: Option<Seq<char>>, target: Seq<char>) -> Option<
    NoticeView,
> {
    match names.index_of_first(target) {
        None => Some(NoticeView::TargetLayoutUnknown(target)),
        Some(_) => match current {
            None => Some(NoticeView::CurrentLayoutUnknown),
            Some(cur) => match names.index_of_first(cur) {
                None => Some(NoticeView::CurrentLayoutUnknown),
                Some(_) => None,
            },
        },
    }
}

/// The note that the closest layout stands in for bitmask `t`, where no layout
/// has it.
pub open spec fn spec_fallback_notice(c: ConfigView, t: u64) -> Option<NoticeView> {
    if c.bits_to_state.contains_key(t) {
        None
    } else {
        match target_layout(c, t) {
            Some(l) => Some(NoticeView::FallbackLayout { target_bits: t, layout: l }),
            None => None,
        }
    }
}

/// The notes on going to the layout for bitmask `t`.
pub open spec fn spec_layout_notices(s: State, c: ConfigView, t: u64) -> Seq<NoticeView> {
    match target_layout(c, t) {
        Some(l) => opt_seq(spec_fallback_notice(c, t)) + opt_seq(
            spec_navigation_notice(c.layout_names, active_layout(s), l),
        ),
        None => Seq::empty(),
    }
}

/// The notes on carrying out the trigger `name`.
pub open spec fn spec_apply_notices(s: State, name: Seq<char>) -> Seq<NoticeView> {
    match config_view(s.config) {
        Some(c) if c.commands.contains_key(name) => match spec_current_bits(active_tab_view(s), c) {
            Some(cur) => match spec_resolve_target_bits(c, cur, c.commands[name]) {
                Some(t) => spec_layout_notices(s, c, t),
                None => Seq::empty(),
            },
            None => Seq::empty(),
        },
        _ => Seq::empty(),
    }
}

/// The first feature of `fs` whose pane is `pane`.
pub open spec fn first_feature_for_pane(c: ConfigView, pane: Seq<char>, fs: Seq<Seq<char>>) -> Option<
    Seq<char>,
>
    decreases fs.len(),
{
    if fs.len() == 0 {
        None
    } else if c.feature_to_pane[fs[0]] == pane {
        Some(fs[0])
    } else {
        first_feature_for_pane(c, pane, fs.drop_first())
    }
}

/// What a focus-or-toggle request asks of the host: a focus where the pane's
/// feature is shown (or the pane has no feature), else the walk to the layout
/// that also shows it, then the focus.
pub open spec fn spec_focus_or_toggle(s: State, pane: Seq<char>) -> Result<Seq<PluginAction>, StateErrorView> {
    match config_view(s.config) {
        None => Err(StateErrorView::NotConfigured),
        Some(c) => match first_feature_for_pane(c, pane, c.pane_features) {
            None => Ok(focus_seq(s.tracked_panes.lookup(pane))),
            Some(f) => match spec_current_bits(active_tab_view(s), c) {
                None => Err(StateErrorView::UnknownCurrentBits),
                Some(cur) => match spec_bit_for_feature(c, f) {
                    None => Err(StateErrorView::UnknownFeature(f)),
                    Some(bit) => if cur & bit != 0 {
                        Ok(focus_seq(s.tracked_panes.lookup(pane)))
                    } else {
                        match target_layout(c, cur | bit) {
                            None => Err(StateErrorView::NoLayoutsForFeature(f)),
                            Some(l) => Ok(
                                spec_navigation(c.layout_names, active_layout(s), l) + focus_seq(
                                    s.tracked_panes.lookup(pane),
                                ),
                            ),
                        }
                    },
                },
            },
        },
    }
}

/// The notes on a focus-or-toggle request for `pane`.
pub open spec fn spec_focus_or_toggle_notices(s: State, pane: Seq<char>) -> Seq<NoticeView> {
    match config_view(s.config) {
        Some(c) => match first_feature_for_pane(c, pane, c.pane_features) {
            Some(f) => match (spec_current_bits(active_tab_view(s), c), spec_bit_for_feature(c, f)) {
                (Some(cur), Some(bit)) => if cur & bit != 0 {
                    Seq::empty()
                } else {
                    spec_layout_notices(s, c, cur | bit)
                },
                _ => Seq::empty(),
            },
            None => Seq::empty(),
        },
        None => Seq::empty(),
    }
}

/// `k` copies of `a`.
fn repeat_action(a: PluginAction, k: usize) -> (r: Vec<PluginAction>)
    ensures
        r@ == repeat(a, k as int),
{
    let mut v: Vec<PluginAction> = Vec::new();
    let mut i: usize = 0;
    while i < k
        invariant
            i <= k,
            v@ == repeat(a, i as int),
        decreases k - i,
    {
        v.push(a);
        i = i + 1;
        assert(v@ =~= repeat(a, i as int));
    }
    v
}

impl Default for State {
    fn default() -> (r: Self)
        ensures
            r.config is None,
            tabs_view(r.tabs) == Map::<usize, TabView>::empty(),
            r.active_tab is None,
            r.tracked_panes.as_map() == Map::<Seq<char>, PaneRef>::empty(),
    {
        broadcast use vstd::std_specs::btree::group_btree_axioms;

        let tabs: BTreeMap<usize, TabState> = BTreeMap::new();
        assert(tabs_view(tabs) =~= Map::<usize, TabView>::empty());
        State { config: None, tabs, active_tab: None, tracked_panes: StrMap::new() }
    }
}

impl State {
    /// Handle tab update events
    pub fn on_tab_update(&mut self, tabs: Vec<TabUpdate>)
        ensures
            tabs_view(final(self).tabs) == updated_tabs(
                config_view(old(self).config),
                tabs_view(old(self).tabs),
                tabs@.map_values(|u: TabUpdate| u@),
            ),
            final(self).active_tab == match first_active(tabs@.map_values(|u: TabUpdate| u@)) {
                Some(p) => Some(p),
                None => old(self).active_tab,
            },
            final(self).config == old(self).config,
            final(self).tracked_panes == old(self).tracked_panes,
    {
        self.update_tabs(tabs);
    }

    /// Tracks, by title, the panes of the active tab.
    pub fn on_pane_update(&mut self, manifest: &Vec<(usize, Vec<PaneEntry>)>)
        ensures
            final(self).tracked_panes.as_map() == match old(self).active_tab {
                Some(t) => match manifest_panes(manifest@, t) {
                    Some(ps) => panes_by_title(ps),
                    None => Map::empty(),
                },
                None => Map::empty(),
            },
            final(self).config == old(self).config,
            final(self).tabs == old(self).tabs,
            final(self).active_tab == old(self).active_tab,
    {
        self.tracked_panes = StrMap::new();
        let active_tab = match self.active_tab {
            Some(t) => t,
            None => {
                return;
            },
        };
        let ghost ms = manifest@;
        let mut i: usize = 0;
        assert(ms.skip(0) =~= ms);
        while i < manifest.len() && manifest[i].0 != active_tab
            invariant
                ms == manifest@,
                i <= ms.len(),
                manifest_panes(ms.skip(i as int), active_tab) == manifest_panes(ms, active_tab),
            decreases ms.len() - i,
        {
            assert(ms.skip(i as int).drop_first() =~= ms.skip(i + 1));
            i = i + 1;
        }
        if i == manifest.len() {
            assert(ms.skip(i as int) =~= Seq::<(usize, Vec<PaneEntry>)>::empty());
            return;
        }
        assert(ms.skip(i as int)[0] == ms[i as int]);
        let panes = &manifest[i].1;
        let ghost ps = panes@;
        let mut j: usize = 0;
        assert(ps.take(0) =~= Seq::<PaneEntry>::empty());
        while j < panes.len()
            invariant
                ps == panes@,
                j <= ps.len(),
                self.tracked_panes.as_map() == panes_by_title(ps.take(j as int)),
                self.config == old(self).config,
                self.tabs == old(self).tabs,
                self.active_tab == old(self).active_tab,
            decreases ps.len() - j,
        {
            let pane = &panes[j];
            let id = if pane.is_plugin {
                PaneRef::Plugin(pane.id)
            } else {
                PaneRef::Terminal(pane.id)
            };
            self.tracked_panes.insert(pane.title.clone(), id);
            assert(ps.take(j + 1).drop_last() =~= ps.take(j as int));
            j = j + 1;
        }
        assert(ps.take(ps.len() as int) =~= ps);
    }

    /// The request to focus the tracked pane titled `name`, if there is one.
    pub fn focus_pane(&self, name: &str) -> (r: Vec<PluginAction>)
        ensures
            r@ == focus_seq(self.tracked_panes.lookup(name@)),
    {
        let mut v: Vec<PluginAction> = Vec::new();
        match self.tracked_panes.get(name) {
            Some(id) => {
                v.push(PluginAction::FocusPane(*id));
                assert(v@ =~= seq![PluginAction::FocusPane(*id)]);
            },
            None => {
                assert(v@ =~= Seq::<PluginAction>::empty());
            },
        }
        v
    }

    /// Get the current bit pattern for the active tab
    pub fn current_bits(&self, config: &PluginConfig) -> (r: Option<u64>)
        ensures
            r == spec_current_bits(active_tab_view(*self), config@),
    {
        match self.get_active_tab_state() {
            Some(tab_state) => {
                match &tab_state.active_layout {
                    Some(layout_name) => match config.bits_for_state(layout_name.as_str()) {
                        Some(bits) => {
                            return Some(bits);
                        },
                        None => {},
                    },
                    None => {},
                }
                match tab_state.last_bits {
                    Some(bits) => Some(bits),
                    None => config.default_bits(),
                }
            },
            None => config.default_bits(),
        }
    }

    /// The walk from the active tab's layout to `target_layout`.
    pub fn navigate_to_layout(&self, target_layout: &str) -> (r: Vec<PluginAction>)
        ensures
            r@ == match config_view(self.config) {
                Some(c) => spec_navigation(c.layout_names, active_layout(*self), target_layout@),
                None => Seq::empty(),
            },
    {
        let config = match &self.config {
            Some(c) => c,
            None => {
                return Vec::new();
            },
        };
        let layout_order = config.state_bits();
        let ghost names = config@.layout_names;
        proof {
            names.index_of_first_ensures(target_layout@);
        }
        let target_idx = match layout_order.find(target_layout) {
            Some(i) => i,
            None => {
                return Vec::new();
            },
        };
        let current = match self.get_active_tab_state() {
            Some(ts) => match &ts.active_layout {
                Some(l) => l,
                None => {
                    return Vec::new();
                },
            },
            None => {
                return Vec::new();
            },
        };
        proof {
            names.index_of_first_ensures(current@);
        }
        let current_idx = match layout_order.find(current.as_str()) {
            Some(i) => i,
            None => {
                return Vec::new();
            },
        };
        let total_layouts = layout_order.len();
        if target_idx == current_idx {
            return Vec::new();
        }
        if target_idx > current_idx {
            let distance = target_idx - current_idx;
            if distance <= total_layouts / 2 {
                repeat_action(PluginAction::NextSwapLayout, distance)
            } else {
                repeat_action(PluginAction::PreviousSwapLayout, total_layouts - distance)
            }
        } else {
            let back = current_idx - target_idx;
            if back > total_layouts / 2 {
                repeat_action(PluginAction::NextSwapLayout, total_layouts - back)
            } else {
                repeat_action(PluginAction::PreviousSwapLayout, back)
            }
        }
    }

    /// Why no walk to `target_layout` is made under `config`, where none is.
    fn walk_notice(&self, config: &PluginConfig, target_layout: &str) -> (r: Option<Notice>)
        ensures
            opt_notice_view(r) == spec_navigation_notice(
                config@.layout_names,
                active_layout(*self),
                target_layout@,
            ),
    {
        let layout_order = config.state_bits();
        let ghost names = config@.layout_names;
        proof {
            names.index_of_first_ensures(target_layout@);
        }
        if layout_order.find(target_layout).is_none() {
            return Some(Notice::TargetLayoutUnknown(target_layout.to_owned()));
        }
        match self.get_active_tab_state() {
            Some(ts) => match &ts.active_layout {
                Some(l) => {
                    if layout_order.find(l.as_str()).is_none() {
                        Some(Notice::CurrentLayoutUnknown)
                    } else {
                        None
                    }
                },
                None => Some(Notice::CurrentLayoutUnknown),
            },
            None => Some(Notice::CurrentLayoutUnknown),
        }
    }

    /// Why `navigate_to_layout(target_layout)` makes no walk, where it makes none
    /// and a configuration is present.
    pub fn navigation_notice(&self, target_layout: &str) -> (r: Option<Notice>)
        ensures
            opt_notice_view(r) == match config_view(self.config) {
                Some(c) => spec_navigation_notice(c.layout_names, active_layout(*self), target_layout@),
                None => None,
            },
    {
        match &self.config {
            Some(config) => self.walk_notice(config, target_layout),
            None => None,
        }
    }

    /// The notes on going to `layout`, the layout for bitmask `target_bits`.
    fn layout_notices(&self, config: &PluginConfig, target_bits: u64, layout: &String) -> (r: Vec<Notice>)
        requires
            target_layout(config@, target_bits) == Some(layout@),
        ensures
            notices_view(r@) == spec_layout_notices(*self, config@, target_bits),
    {
        let mut notices: Vec<Notice> = Vec::new();
        if config.layout_for_bits(target_bits).is_none() {
            notices.push(Notice::FallbackLayout { target_bits, layout: layout.clone() });
        }
        let ghost first = notices@;
        match self.walk_notice(config, layout.as_str()) {
            Some(n) => notices.push(n),
            None => {},
        }
        assert(notices_view(notices@) =~= notices_view(first) + opt_seq(
            spec_navigation_notice(config@.layout_names, active_layout(*self), layout@),
        ));
        assert(notices_view(first) =~= opt_seq(spec_fallback_notice(config@, target_bits)));
        notices
    }

    /// The tracked pane to focus for feature `feature` once the bits `gained`
    /// have been shown.
    fn gained_pane(&self, config: &PluginConfig, gained: u64, feature: &str) -> (r: Option<PaneRef>)
        ensures
            r == spec_gained_pane(config@, self.tracked_panes, gained, feature@),
    {
        match config.bit_for_feature(feature) {
            None => None,
            Some(bit) => {
                if gained & bit != 0 {
                    match config.feature_to_pane().get(feature) {
                        Some(pane_name) => match self.tracked_panes.get(pane_name.as_str()) {
                            Some(pane_id) => Some(*pane_id),
                            None => None,
                        },
                        None => None,
                    }
                } else {
                    None
                }
            },
        }
    }

    /// The pane to focus once the bits `gained` have been shown.
    fn focus_after(&self, config: &PluginConfig, gained: u64) -> (r: Option<PaneRef>)
        ensures
            r == spec_focus(config@, self.tracked_panes, gained),
    {
        // Priority: terminal > sidebar > others
        match self.gained_pane(config, gained, "terminal") {
            Some(p) => {
                return Some(p);
            },
            None => {},
        }
        match self.gained_pane(config, gained, "sidebar") {
            Some(p) => {
                return Some(p);
            },
            None => {},
        }
        let features = config.feature_to_bit();
        let ghost fs = config@.features;
        let mut j: usize = 0;
        assert(fs.skip(0) =~= fs);
        while j < features.len()
            invariant
                fs == features.key_seq(),
                fs == config@.features,
                j <= fs.len(),
                spec_gained_pane(config@, self.tracked_panes, gained, "terminal"@) is None,
                spec_gained_pane(config@, self.tracked_panes, gained, "sidebar"@) is None,
                first_gained_pane(config@, self.tracked_panes, gained, fs.skip(j as int))
                    == first_gained_pane(config@, self.tracked_panes, gained, fs),
            decreases fs.len() - j,
        {
            let feature_name = features.key_at(j);
            assert(fs.skip(j as int)[0] == feature_name@);
            assert(fs.skip(j as int).drop_first() =~= fs.skip(j + 1));
            if !crate::text::str_eq(feature_name.as_str(), "terminal") && !crate::text::str_eq(
                feature_name.as_str(),
                "sidebar",
            ) {
                match self.gained_pane(config, gained, feature_name.as_str()) {
                    Some(p) => {
                        return Some(p);
                    },
                    None => {},
                }
            }
            j = j + 1;
        }
        assert(fs.skip(j as int) =~= Seq::<Seq<char>>::empty());
        match config.default_focus_pane() {
            Some(default_pane) => match self.tracked_panes.get(default_pane.as_str()) {
                Some(pane_id) => Some(*pane_id),
                None => None,
            },
            None => None,
        }
    }

    /// The layout to go to for bitmask `target`.
    fn resolve_layout(config: &PluginConfig, target: u64) -> (r: Option<String>)
        ensures
            match (r, target_layout(config@, target)) {
                (Some(l), Some(m)) => l@ == m,
                (None, None) => true,
                _ => false,
            },
    {
        match config.layout_for_bits(target) {
            Some(layout) => Some(layout.clone()),
            None => match config.closest_state(target) {
                Some((layout, _)) => {
                    proof {
                        let c = config@;
                        assert(is_closest(c, target, layout@));
                        let other = choose|n: Seq<char>| is_closest(c, target, n);
                        crate::config::lemma_closest_unique(c, target, layout@, other);
                    }
                    Some(layout)
                },
                None => None,
            },
        }
    }

    /// Apply a command by name
    pub fn apply_command(&mut self, command_name: &str) -> (r: Result<Plan, StateError>)
        ensures
            *final(self) == *old(self),
            match (r, spec_apply_command(*old(self), command_name@)) {
                (Ok(plan), Ok(a)) => plan.actions@ == a && notices_view(plan.notices@)
                    == spec_apply_notices(*old(self), command_name@),
                (Err(e), Err(m)) => e@ == m,
                _ => false,
            },
    {
        let config = match &self.config {
            Some(c) => c,
            None => {
                return Err(StateError::NotConfigured);
            },
        };
        let command = match config.commands().get(command_name) {
            Some(c) => c,
            None => {
                return Err(StateError::UnknownTrigger);
            },
        };
        let current_bits = match self.current_bits(config) {
            Some(b) => b,
            None => {
                return Err(StateError::UnknownCurrentBits);
            },
        };
        let target_bits = match config.resolve_target_bits(current_bits, command) {
            Some(b) => b,
            None => {
                return Err(StateError::UnresolvedTrigger);
            },
        };
        let target_layout = match Self::resolve_layout(config, target_bits) {
            Some(l) => l,
            None => {
                return Err(StateError::NoLayouts);
            },
        };
        let mut actions = self.navigate_to_layout(target_layout.as_str());
        let ghost nav = actions@;
        // Intelligent Focus Logic
        let gained_bits = target_bits & !current_bits;
        match self.focus_after(config, gained_bits) {
            Some(p) => {
                actions.push(PluginAction::FocusPane(p));
            },
            None => {},
        }
        assert(actions@ =~= nav + focus_seq(spec_focus(config@, self.tracked_panes, gained_bits)));
        let notices = self.layout_notices(config, target_bits, &target_layout);
        Ok(Plan { actions, notices })
    }

    /// Focus a pane, toggling its feature visibility if not currently enabled
    pub fn focus_or_toggle_pane(&mut self, pane_name: &str) -> (r: Result<Plan, StateError>)
        ensures
            *final(self) == *old(self),
            match (r, spec_focus_or_toggle(*old(self), pane_name@)) {
                (Ok(plan), Ok(a)) => plan.actions@ == a && notices_view(plan.notices@)
                    == spec_focus_or_toggle_notices(*old(self), pane_name@),
                (Err(e), Err(m)) => e@ == m,
                _ => false,
            },
    {
        let config = match &self.config {
            Some(c) => c,
            None => {
                return Err(StateError::NotConfigured);
            },
        };
        // Find feature that maps to this pane
        let panes = config.feature_to_pane();
        let ghost fs = config@.pane_features;
        let ghost c = config@;
        let mut j: usize = 0;
        assert(fs.skip(0) =~= fs);
        while j < panes.len() && !crate::text::str_eq(panes.value_at(j).as_str(), pane_name)
            invariant
                fs == panes.key_seq(),
                fs == c.pane_features,
                c == config@,
                panes.view_map() == c.feature_to_pane,
                j <= fs.len(),
                first_feature_for_pane(c, pane_name@, fs.skip(j as int)) == first_feature_for_pane(
                    c,
                    pane_name@,
                    fs,
                ),
            decreases fs.len() - j,
        {
            proof {
                use_type_invariant(panes);
                panes.lemma_lookup_at(j as int);
            }
            assert(fs.skip(j as int)[0] == fs[j as int]);
            assert(fs.skip(j as int).drop_first() =~= fs.skip(j + 1));
            j = j + 1;
        }
        if j == panes.len() {
            // No feature mapping, just focus the pane
            assert(fs.skip(j as int) =~= Seq::<Seq<char>>::empty());
            let actions = self.focus_pane(pane_name);
            let notices: Vec<Notice> = Vec::new();
            assert(notices_view(notices@) =~= Seq::<NoticeView>::empty());
            return Ok(Plan { actions, notices });
        }
        proof {
            use_type_invariant(panes);
            panes.lemma_lookup_at(j as int);
        }
        assert(fs.skip(j as int)[0] == fs[j as int]);
        let feature_name = panes.key_at(j);
        let current_bits = match self.current_bits(config) {
            Some(b) => b,
            None => {
                return Err(StateError::UnknownCurrentBits);
            },
        };
        let feature_bit = match config.bit_for_feature(feature_name.as_str()) {
            Some(b) => b,
            None => {
                return Err(StateError::UnknownFeature(feature_name.clone()));
            },
        };
        if current_bits & feature_bit != 0 {
            let actions = self.focus_pane(pane_name);
            let notices: Vec<Notice> = Vec::new();
            assert(notices_view(notices@) =~= Seq::<NoticeView>::empty());
            return Ok(Plan { actions, notices });
        }
        let target_bits = current_bits | feature_bit;
        let target_layout = match Self::resolve_layout(config, target_bits) {
            Some(l) => l,
            None => {
                return Err(StateError::NoLayoutsForFeature(feature_name.clone()));
            },
        };
        let mut actions = self.navigate_to_layout(target_layout.as_str());
        let mut focus = self.focus_pane(pane_name);
        let ghost nav = actions@;
        let ghost foc = focus@;
        actions.append(&mut focus);
        assert(actions@ =~= nav + foc);
        let notices = self.layout_notices(config, target_bits, &target_layout);
        Ok(Plan { actions, notices })
    }

    /// What a message piped to the plugin asks of the host: `focus-pane` and
    /// `focus-or-toggle-pane` take a pane title as payload; any other name is a
    /// trigger.
    pub fn handle_pipe(&mut self, name: &str, payload: Option<&str>) -> (r: Result<
        Plan,
        StateError,
    >)
        ensures
            *final(self) == *old(self),
            name@ == "focus-pane"@ ==> match payload {
                Some(p) => r matches Ok(plan) && plan.actions@ == focus_seq(
                    old(self).tracked_panes.lookup(p@),
                ) && plan.notices@.len() == 0,
                None => r matches Ok(plan) && plan.actions@.len() == 0 && plan.notices@.len() == 0,
            },
            name@ == "focus-or-toggle-pane"@ ==> match payload {
                Some(p) => match (r, spec_focus_or_toggle(*old(self), p@)) {
                    (Ok(plan), Ok(a)) => plan.actions@ == a && notices_view(plan.notices@)
                        == spec_focus_or_toggle_notices(*old(self), p@),
                    (Err(e), Err(m)) => e@ == m,
                    _ => false,
                },
                None => r matches Ok(plan) && plan.actions@.len() == 0 && plan.notices@.len() == 0,
            },
            name@ != "focus-pane"@ && name@ != "focus-or-toggle-pane"@ ==> match (
                r,
                spec_apply_command(*old(self), name@),
            ) {
                (Ok(plan), Ok(a)) => plan.actions@ == a && notices_view(plan.notices@)
                    == spec_apply_notices(*old(self), name@),
                (Err(e), Err(m)) => e@ == m,
                _ => false,
            },
    {
        proof {
            reveal_strlit("focus-pane");
            reveal_strlit("focus-or-toggle-pane");
            assert("focus-pane"@.len() != "focus-or-toggle-pane"@.len());
        }
        if crate::text::str_eq(name, "focus-pane") {
            let actions = match payload {
                Some(p) => self.focus_pane(p),
                None => Vec::new(),
            };
            Ok(Plan { actions, notices: Vec::new() })
        } else if crate::text::str_eq(name, "focus-or-toggle-pane") {
            match payload {
                Some(p) => self.focus_or_toggle_pane(p),
                None => Ok(Plan { actions: Vec::new(), notices: Vec::new() }),
            }
        } else {
            self.apply_command(name)
        }
    }
}

} // verus!
