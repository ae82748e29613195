use vstd::prelude::*;

use crate::commands::{
    CommandKind, CommandView, TargetView, ascii_lowercase, is_word_sep, run_len, spec_parse_command,
    words,
};
use crate::config::{
    ConfigView, config_wf, is_closest, lemma_closest_unique, layout_mask, mask_distance, popcount,
    spec_bit_for_feature, spec_resolve_target_bits, closer,
};
use crate::name_map::StrMap;
use crate::state::{
    State, active_layout, active_tab_view, config_view, first_feature_for_pane, focus_seq,
    spec_focus_or_toggle, spec_apply_command, PaneRef, PluginAction, TabUpdateView, TabView, first_gained_pane, spec_current_bits,
    spec_focus, spec_gained_pane, spec_navigation, target_layout, updated_tabs, StateErrorView,
};

verus! {

/// Toggling a feature twice gives back the bitmask one started from.
pub proof fn law_toggle_twice(c: ConfigView, current: u64, f: Seq<char>)
    requires
        spec_bit_for_feature(c, f) is Some,
    ensures
        ({
            let toggle = CommandView { kind: CommandKind::Toggle, target: TargetView::Feature(f) };
            match spec_resolve_target_bits(c, current, toggle) {
                Some(once) => spec_resolve_target_bits(c, once, toggle) == Some(current),
                None => false,
            }
        }),
{
    let bit = spec_bit_for_feature(c, f)->0;
    assert((current ^ bit) ^ bit == current) by (bit_vector);
}

/// Showing a feature sets its bit and hiding it clears the bit; either leaves
/// every other bit as it was.
pub proof fn law_show_hide(c: ConfigView, current: u64, f: Seq<char>)
    requires
        spec_bit_for_feature(c, f) is Some,
    ensures
        ({
            let bit = spec_bit_for_feature(c, f)->0;
            let show = CommandView { kind: CommandKind::Show, target: TargetView::Feature(f) };
            let hide = CommandView { kind: CommandKind::Hide, target: TargetView::Feature(f) };
            &&& spec_resolve_target_bits(c, current, show) matches Some(s) && s & bit == bit && s
                & !bit == current & !bit
            &&& spec_resolve_target_bits(c, current, hide) matches Some(h) && h & bit == 0 && h
                & !bit == current & !bit
        }),
{
    let bit = spec_bit_for_feature(c, f)->0;
    assert((current | bit) & bit == bit) by (bit_vector);
    assert((current | bit) & !bit == current & !bit) by (bit_vector);
    assert((current & !bit) & bit == 0) by (bit_vector);
    assert((current & !bit) & !bit == current & !bit) by (bit_vector);
}

proof fn lemma_or_shift_bit(m: u64, j: u64, i: u64)
    requires
        j < 64,
        i < 64,
    ensures
        (((m | (1u64 << j)) >> i) & 1 == 1) == (((m >> i) & 1 == 1) || i == j),
{
    assert((((m | (1u64 << j)) >> i) & 1 == 1) == (((m >> i) & 1 == 1) || i == j)) by (bit_vector)
        requires
            j < 64,
            i < 64,
    ;
}

/// Bit `i` of a layout's bitmask is set exactly when the layout enables the
/// feature at position `i` of the feature order.
pub proof fn law_layout_mask_bit(order: Seq<Seq<char>>, enabled: Map<Seq<char>, bool>, n: nat, i: nat)
    requires
        n <= 64,
        i < 64,
    ensures
        (((layout_mask(order, enabled, n) >> (i as u64)) & 1) == 1) == (i < n && enabled[order[i as int]]),
    decreases n,
{
    if n == 0 {
        let iu = i as u64;
        assert((0u64 >> iu) & 1 == 0) by (bit_vector);
    } else {
        law_layout_mask_bit(order, enabled, (n - 1) as nat, i);
        let prev = layout_mask(order, enabled, (n - 1) as nat);
        if enabled[order[n - 1]] {
            lemma_or_shift_bit(prev, (n - 1) as u64, i as u64);
        }
    }
}

proof fn lemma_popcount_zero(x: u64)
    ensures
        (popcount(x) == 0) == (x == 0),
    decreases x,
{
    if x != 0 {
        lemma_popcount_zero(x / 2);
    }
}

/// Whether `a` and `b` differ at bit `i`.
pub open spec fn bit_differs(a: u64, b: u64, i: u64) -> bool {
    (a >> i) & 1 != (b >> i) & 1
}

/// How many of the bit positions `i`, `i + 1`, .., 63 `a` and `b` differ at.
pub open spec fn differing_bits_from(a: u64, b: u64, i: nat) -> nat
    decreases 64 - i,
{
    if i >= 64 {
        0
    } else {
        (if bit_differs(a, b, i as u64) {
            1nat
        } else {
            0nat
        }) + differing_bits_from(a, b, i + 1)
    }
}

proof fn lemma_popcount_step(x: u64)
    ensures
        popcount(x) == (x % 2) as nat + popcount(x / 2),
{
    if x == 0 {
        assert(popcount(0) == 0);
    }
}

proof fn lemma_popcount_shifted(a: u64, b: u64, i: nat)
    requires
        i < 64,
    ensures
        popcount((a ^ b) >> (i as u64)) == differing_bits_from(a, b, i),
    decreases 64 - i,
{
    let iu = i as u64;
    let x = (a ^ b) >> iu;
    lemma_popcount_step(x);
    if (a >> iu) & 1 != (b >> iu) & 1 {
        assert(((a ^ b) >> iu) % 2 == 1) by (bit_vector)
            requires
                (a >> iu) & 1 != (b >> iu) & 1,
        ;
    } else {
        assert(((a ^ b) >> iu) % 2 == 0) by (bit_vector)
            requires
                (a >> iu) & 1 == (b >> iu) & 1,
        ;
    }
    if i == 63 {
        assert(((a ^ b) >> 63u64) / 2 == 0) by (bit_vector);
        assert(popcount(0) == 0);
        assert(differing_bits_from(a, b, 64) == 0);
    } else {
        assert(((a ^ b) >> iu) / 2 == (a ^ b) >> ((iu + 1) as u64)) by (bit_vector)
            requires
                iu < 63,
        ;
        lemma_popcount_shifted(a, b, i + 1);
    }
}

/// The distance between two bitmasks is the number of bit positions at which they
/// differ.
pub proof fn law_mask_distance_counts_differing_bits(a: u64, b: u64)
    ensures
        mask_distance(a, b) == differing_bits_from(a, b, 0),
{
    assert((a ^ b) >> 0u64 == a ^ b) by (bit_vector);
    lemma_popcount_shifted(a, b, 0);
}

/// The distance between two bitmasks does not depend on their order, and is zero
/// from a bitmask to itself.
pub proof fn law_mask_distance_symmetric(a: u64, b: u64)
    ensures
        mask_distance(a, b) == mask_distance(b, a),
        mask_distance(a, a) == 0,
{
    assert(a ^ b == b ^ a) by (bit_vector);
    assert(a ^ a == 0) by (bit_vector);
    assert(popcount(0) == 0);
}

/// In a well-formed configuration the layout whose bitmask is `target` is the
/// layout closest to `target`, and it is where a request for `target` goes.
pub proof fn law_exact_layout_is_closest(c: ConfigView, target: u64)
    requires
        config_wf(c),
        c.bits_to_state.contains_key(target),
    ensures
        is_closest(c, target, c.bits_to_state[target]),
        target_layout(c, target) == Some(c.bits_to_state[target]),
{
    let name = c.bits_to_state[target];
    assert(c.state_bits.contains_key(name) && c.state_bits[name] == target);
    assert(target ^ target == 0) by (bit_vector);
    lemma_popcount_zero(0);
    assert forall|other: Seq<char>| #[trigger] c.state_bits.contains_key(other) && other != name
        implies closer(c, target, name, other) by {
        let b = c.state_bits[other];
        assert(c.bits_to_state.contains_key(b) && c.bits_to_state[b] == other);
        assert(b != target);
        assert(b ^ target != 0) by (bit_vector)
            requires
                b != target,
        ;
        lemma_popcount_zero(b ^ target);
    }
}

/// In a well-formed configuration a request for a layout's own bitmask goes to
/// that layout.
pub proof fn law_layout_bits_lead_to_layout(c: ConfigView, name: Seq<char>)
    requires
        config_wf(c),
        c.state_bits.contains_key(name),
    ensures
        target_layout(c, c.state_bits[name]) == Some(name),
{
}

/// The walk between two layouts goes one way round, ends at the target, and takes
/// the fewer of the two ways' steps.
pub proof fn law_navigation_shortest(names: Seq<Seq<char>>, ci: int, ti: int)
    requires
        names.no_duplicates(),
        0 <= ci < names.len(),
        0 <= ti < names.len(),
    ensures
        ({
            let nav = spec_navigation(names, Some(names[ci]), names[ti]);
            let n = names.len() as int;
            let d = if ti >= ci {
                ti - ci
            } else {
                ci - ti
            };
            &&& nav.len() <= n / 2
            &&& nav.len() == if d <= n - d {
                d
            } else {
                n - d
            }
            &&& {
                ||| (forall|i: int| 0 <= i < nav.len() ==> nav[i] == PluginAction::NextSwapLayout)
                    && (ci + nav.len()) % n == ti
                ||| (forall|i: int| 0 <= i < nav.len() ==> nav[i]
                    == PluginAction::PreviousSwapLayout) && (ci - nav.len() + n) % n == ti
            }
        }),
{
    let n = names.len() as int;
    names.index_of_first_ensures(names[ci]);
    names.index_of_first_ensures(names[ti]);
    assert(names.index_of_first(names[ci]) == Some(ci));
    assert(names.index_of_first(names[ti]) == Some(ti));
    vstd::arithmetic::div_mod::lemma_small_mod(ti as nat, n as nat);
    vstd::arithmetic::div_mod::lemma_mod_add_multiples_vanish(ti, n);
}

/// After a tab reports a configured layout as its own, the tab's bitmask is
/// that layout's.
pub proof fn law_reported_layout_sets_bits(c: ConfigView, tabs: Map<usize, TabView>, u: TabUpdateView)
    requires
        u.active_swap_layout_name is Some,
        c.state_bits.contains_key(u.active_swap_layout_name->0),
    ensures
        ({
            let after = updated_tabs(Some(c), tabs, seq![u]);
            &&& after.contains_key(u.position)
            &&& spec_current_bits(Some(after[u.position]), c) == Some(
                c.state_bits[u.active_swap_layout_name->0],
            )
        }),
{
    let old = if tabs.contains_key(u.position) {
        Some(tabs[u.position])
    } else {
        None
    };
    assert(seq![u].drop_first() =~= Seq::<TabUpdateView>::empty());
    let t = crate::state::updated_tab(Some(c), old, u);
    assert(updated_tabs(Some(c), tabs, seq![u]) == updated_tabs(
        Some(c),
        tabs.insert(u.position, t),
        Seq::<TabUpdateView>::empty(),
    ));
    assert(t.active_layout == u.active_swap_layout_name);
}

proof fn lemma_nothing_gained(c: ConfigView, panes: StrMap<PaneRef>, fs: Seq<Seq<char>>)
    ensures
        first_gained_pane(c, panes, 0, fs) is None,
    decreases fs.len(),
{
    if fs.len() > 0 {
        match spec_bit_for_feature(c, fs[0]) {
            Some(bit) => {
                assert(0u64 & bit == 0) by (bit_vector);
            },
            None => {},
        }
        lemma_nothing_gained(c, panes, fs.drop_first());
    }
}

/// With no feature newly shown, the focus falls to the default focus pane.
pub proof fn law_focus_without_gain(c: ConfigView, panes: StrMap<PaneRef>)
    ensures
        spec_focus(c, panes, 0) == match c.default_focus_pane {
            Some(d) => panes.lookup(d),
            None => None,
        },
{
    lemma_nothing_gained(c, panes, c.features);
    match spec_bit_for_feature(c, "terminal"@) {
        Some(bit) => {
            assert(0u64 & bit == 0) by (bit_vector);
        },
        None => {},
    }
    match spec_bit_for_feature(c, "sidebar"@) {
        Some(bit) => {
            assert(0u64 & bit == 0) by (bit_vector);
        },
        None => {},
    }
}

/// A newly shown terminal takes the focus first, then a newly shown sidebar.
pub proof fn law_focus_priority(c: ConfigView, panes: StrMap<PaneRef>, gained: u64)
    ensures
        spec_gained_pane(c, panes, gained, "terminal"@) is Some ==> spec_focus(c, panes, gained)
            == spec_gained_pane(c, panes, gained, "terminal"@),
        spec_gained_pane(c, panes, gained, "terminal"@) is None && spec_gained_pane(
            c,
            panes,
            gained,
            "sidebar"@,
        ) is Some ==> spec_focus(c, panes, gained) == spec_gained_pane(
            c,
            panes,
            gained,
            "sidebar"@,
        ),
{
}


/// Asked to focus a pane whose feature is shown, the plugin only focuses it; where
/// the feature is hidden and some layout shows it besides what is shown now, the
/// plugin walks to that layout, which shows the feature, and then focuses the pane.
pub proof fn law_focus_or_toggle(s: State, pane: Seq<char>)
    requires
        config_view(s.config) matches Some(c) && config_wf(c),
    ensures
        ({
            let c = config_view(s.config)->0;
            match first_feature_for_pane(c, pane, c.pane_features) {
                None => spec_focus_or_toggle(s, pane) == Ok::<Seq<PluginAction>, crate::state::StateErrorView>(focus_seq(s.tracked_panes.lookup(pane))),
                Some(f) => match (spec_current_bits(active_tab_view(s), c), spec_bit_for_feature(c, f)) {
                    (Some(cur), Some(bit)) => {
                        &&& cur & bit != 0 ==> spec_focus_or_toggle(s, pane) == Ok::<Seq<PluginAction>, crate::state::StateErrorView>(
                            focus_seq(s.tracked_panes.lookup(pane)),
                        )
                        &&& (cur & bit == 0 && c.bits_to_state.contains_key(cur | bit)) ==> {
                            let l = c.bits_to_state[cur | bit];
                            &&& c.state_bits[l] & bit != 0
                            &&& spec_focus_or_toggle(s, pane) == Ok::<Seq<PluginAction>, crate::state::StateErrorView>(
                                spec_navigation(c.layout_names, active_layout(s), l) + focus_seq(
                                    s.tracked_panes.lookup(pane),
                                ),
                            )
                        }
                    },
                    _ => true,
                },
            }
        }),
{
    let c = config_view(s.config)->0;
    match first_feature_for_pane(c, pane, c.pane_features) {
        None => {},
        Some(f) => match (spec_current_bits(active_tab_view(s), c), spec_bit_for_feature(c, f)) {
            (Some(cur), Some(bit)) => {
                c.features.index_of_first_ensures(f);
                let i = c.features.index_of_first(f)->0;
                let iu = i as u64;
                assert(iu < 64);
                assert((1u64 << iu) != 0) by (bit_vector)
                    requires
                        iu < 64,
                ;
                assert(bit != 0 ==> (cur | bit) & bit != 0) by (bit_vector);
                if cur & bit == 0 && c.bits_to_state.contains_key(cur | bit) {
                    law_exact_layout_is_closest(c, cur | bit);
                }
            },
            _ => {},
        },
    }
}


/// A trigger whose bitmask belongs to a layout walks from the active tab's layout
/// to that layout (the walk of `law_navigation_shortest`), then asks for the focus.
pub proof fn law_trigger_reaches_layout(s: State, name: Seq<char>)
    requires
        config_view(s.config) matches Some(c) && config_wf(c),
    ensures
        ({
            let c = config_view(s.config)->0;
            c.commands.contains_key(name) ==> match spec_current_bits(active_tab_view(s), c) {
                Some(cur) => match spec_resolve_target_bits(c, cur, c.commands[name]) {
                    Some(t) => c.bits_to_state.contains_key(t) ==> {
                        let layout = c.bits_to_state[t];
                        &&& c.state_bits[layout] == t
                        &&& spec_apply_command(s, name) == Ok::<Seq<PluginAction>, crate::state::StateErrorView>(
                            spec_navigation(c.layout_names, active_layout(s), layout) + focus_seq(
                                spec_focus(c, s.tracked_panes, t & !cur),
                            ),
                        )
                    },
                    None => true,
                },
                None => true,
            }
        }),
{
    let c = config_view(s.config)->0;
    if c.commands.contains_key(name) {
        match spec_current_bits(active_tab_view(s), c) {
            Some(cur) => match spec_resolve_target_bits(c, cur, c.commands[name]) {
                Some(t) => {
                    if c.bits_to_state.contains_key(t) {
                        law_exact_layout_is_closest(c, t);
                    }
                },
                None => {},
            },
            None => {},
        }
    }
}


/// An index of `names` below `k` whose layout is nearest to `target`, the
/// earliest among the nearest.
proof fn lemma_nearest_index(c: ConfigView, target: u64, names: Seq<Seq<char>>, k: int) -> (b: int)
    requires
        1 <= k <= names.len(),
    ensures
        0 <= b < k,
        forall|j: int|
            0 <= j < k && j != b ==> {
                let db = mask_distance(c.state_bits[names[b]], target);
                let dj = mask_distance(c.state_bits[#[trigger] names[j]], target);
                db < dj || (db == dj && b < j)
            },
    decreases k,
{
    if k == 1 {
        0
    } else {
        let b0 = lemma_nearest_index(c, target, names, k - 1);
        let d0 = mask_distance(c.state_bits[names[b0]], target);
        let dk = mask_distance(c.state_bits[names[k - 1]], target);
        if dk < d0 {
            k - 1
        } else {
            b0
        }
    }
}

/// Where some layout exists, some layout is the closest to any bitmask.
pub proof fn law_closest_layout_exists(c: ConfigView, target: u64)
    requires
        config_wf(c),
        c.state_bits.dom() != Set::<Seq<char>>::empty(),
    ensures
        exists|n: Seq<char>| is_closest(c, target, n),
{
    let names = c.layout_names;
    if forall|k: Seq<char>| !c.state_bits.dom().contains(k) {
        assert(c.state_bits.dom() =~= Set::<Seq<char>>::empty());
    }
    let some = choose|k: Seq<char>| c.state_bits.dom().contains(k);
    assert(names.to_set().contains(some));
    let b = lemma_nearest_index(c, target, names, names.len() as int);
    let n = names[b];
    assert(names.to_set().contains(n));
    assert forall|other: Seq<char>| #[trigger] c.state_bits.contains_key(other) && other != n
        implies closer(c, target, n, other) by {
        assert(names.to_set().contains(other));
        let j = choose|j: int| 0 <= j < names.len() && names[j] == other;
        assert(j != b);
        if b < j {
            assert(crate::text::str_lt(names[b], names[j]));
        }
    }
    assert(is_closest(c, target, n));
}

/// Where `l` is the layout closest to `target`, a request for `target` goes to `l`.
proof fn lemma_target_layout_is_closest(c: ConfigView, target: u64, l: Seq<char>)
    requires
        config_wf(c),
        is_closest(c, target, l),
    ensures
        target_layout(c, target) == Some(l),
        c.bits_to_state.contains_key(target) ==> l == c.bits_to_state[target],
{
    if c.bits_to_state.contains_key(target) {
        law_exact_layout_is_closest(c, target);
        lemma_closest_unique(c, target, l, c.bits_to_state[target]);
    } else {
        assert(c.state_bits.dom().contains(l));
        let n = choose|n: Seq<char>| is_closest(c, target, n);
        lemma_closest_unique(c, target, l, n);
    }
}

/// A trigger walks from the active tab's layout to the layout closest to the
/// bitmask it asks for (the layout with that very bitmask, where one has it), then
/// asks for the focus on what it newly shows.
pub proof fn law_trigger_walks_to_closest(s: State, name: Seq<char>, cur: u64, target: u64, l: Seq<char>)
    requires
        config_view(s.config) matches Some(c) && config_wf(c) && c.commands.contains_key(name)
            && spec_current_bits(active_tab_view(s), c) == Some(cur) && spec_resolve_target_bits(
            c,
            cur,
            c.commands[name],
        ) == Some(target) && is_closest(c, target, l),
    ensures
        ({
            let c = config_view(s.config)->0;
            &&& c.bits_to_state.contains_key(target) ==> l == c.bits_to_state[target]
            &&& spec_apply_command(s, name) == Ok::<Seq<PluginAction>, StateErrorView>(
                spec_navigation(c.layout_names, active_layout(s), l) + focus_seq(
                    spec_focus(c, s.tracked_panes, target & !cur),
                ),
            )
        }),
{
    let c = config_view(s.config)->0;
    lemma_target_layout_is_closest(c, target, l);
}

/// Asked to focus a pane whose feature is hidden, the plugin walks from the active
/// tab's layout to the layout closest to what is shown now together with that
/// feature (the layout with that very bitmask, where one has it), then focuses the
/// pane.
pub proof fn law_focus_or_toggle_walks_to_closest(
    s: State,
    pane: Seq<char>,
    f: Seq<char>,
    cur: u64,
    bit: u64,
    l: Seq<char>,
)
    requires
        config_view(s.config) matches Some(c) && config_wf(c) && first_feature_for_pane(
            c,
            pane,
            c.pane_features,
        ) == Some(f) && spec_current_bits(active_tab_view(s), c) == Some(cur)
            && spec_bit_for_feature(c, f) == Some(bit) && cur & bit == 0 && is_closest(
            c,
            cur | bit,
            l,
        ),
    ensures
        ({
            let c = config_view(s.config)->0;
            &&& c.bits_to_state.contains_key(cur | bit) ==> l == c.bits_to_state[cur | bit]
            &&& spec_focus_or_toggle(s, pane) == Ok::<Seq<PluginAction>, StateErrorView>(
                spec_navigation(c.layout_names, active_layout(s), l) + focus_seq(
                    s.tracked_panes.lookup(pane),
                ),
            )
        }),
{
    let c = config_view(s.config)->0;
    lemma_target_layout_is_closest(c, cur | bit, l);
}

/// A feature's pane is taken for the focus only when that feature's own bit is
/// among the newly shown bits and the feature names a pane, and it is then the
/// tracked pane of that name; where all that holds, it is taken.
pub proof fn law_gained_pane_needs_own_bit(c: ConfigView, panes: StrMap<PaneRef>, gained: u64, f: Seq<char>)
    ensures
        spec_gained_pane(c, panes, gained, f) is Some ==> (c.features.index_of_first(f) matches Some(
            i,
        ) && gained & (1u64 << (i as u64)) != 0 && c.feature_to_pane.contains_key(f)
            && spec_gained_pane(c, panes, gained, f) == panes.lookup(c.feature_to_pane[f])),
        (c.features.index_of_first(f) matches Some(i) && gained & (1u64 << (i as u64)) != 0
            && c.feature_to_pane.contains_key(f)) ==> spec_gained_pane(c, panes, gained, f)
            == panes.lookup(c.feature_to_pane[f]),
{
}

/// Two distinct features have disjoint bits.
proof fn lemma_distinct_feature_bits(c: ConfigView, f: Seq<char>, x: Seq<char>, fb: u64, xb: u64)
    requires
        c.features.len() <= 64,
        f != x,
        spec_bit_for_feature(c, f) == Some(fb),
        spec_bit_for_feature(c, x) == Some(xb),
    ensures
        fb & xb == 0,
{
    c.features.index_of_first_ensures(f);
    c.features.index_of_first_ensures(x);
    let i = c.features.index_of_first(f)->0 as u64;
    let j = c.features.index_of_first(x)->0 as u64;
    assert(i != j);
    assert((1u64 << i) & (1u64 << j) == 0) by (bit_vector)
        requires
            i < 64,
            j < 64,
            i != j,
    ;
}

/// With only the bit of `f` newly shown, no other feature's pane is taken.
proof fn lemma_only_own_pane(c: ConfigView, panes: StrMap<PaneRef>, f: Seq<char>, fb: u64, x: Seq<char>)
    requires
        c.features.len() <= 64,
        spec_bit_for_feature(c, f) == Some(fb),
        x != f,
    ensures
        spec_gained_pane(c, panes, fb, x) is None,
{
    match spec_bit_for_feature(c, x) {
        Some(xb) => {
            lemma_distinct_feature_bits(c, f, x, fb, xb);
        },
        None => {},
    }
}

proof fn lemma_first_gained_single(c: ConfigView, panes: StrMap<PaneRef>, f: Seq<char>, fb: u64, fs: Seq<Seq<char>>)
    requires
        c.features.len() <= 64,
        spec_bit_for_feature(c, f) == Some(fb),
        f != "terminal"@,
        f != "sidebar"@,
        fs.contains(f),
        spec_gained_pane(c, panes, fb, f) is Some,
    ensures
        first_gained_pane(c, panes, fb, fs) == spec_gained_pane(c, panes, fb, f),
    decreases fs.len(),
{
    if fs[0] != f {
        lemma_only_own_pane(c, panes, f, fb, fs[0]);
        let k = choose|k: int| 0 <= k < fs.len() && fs[k] == f;
        assert(fs.drop_first()[k - 1] == f);
        lemma_first_gained_single(c, panes, f, fb, fs.drop_first());
    }
}

/// Where a single feature is newly shown and its pane is tracked, that pane takes
/// the focus, whatever the other features and the default focus pane are.
pub proof fn law_single_gain_focuses_its_pane(c: ConfigView, panes: StrMap<PaneRef>, f: Seq<char>, fb: u64)
    requires
        config_wf(c),
        spec_bit_for_feature(c, f) == Some(fb),
        c.feature_to_pane.contains_key(f),
        panes.lookup(c.feature_to_pane[f]) is Some,
    ensures
        spec_focus(c, panes, fb) == panes.lookup(c.feature_to_pane[f]),
{
    c.features.index_of_first_ensures(f);
    let i = c.features.index_of_first(f)->0 as u64;
    assert((1u64 << i) & (1u64 << i) != 0) by (bit_vector)
        requires
            i < 64,
    ;
    assert(spec_gained_pane(c, panes, fb, f) == panes.lookup(c.feature_to_pane[f]));
    if f != "terminal"@ {
        lemma_only_own_pane(c, panes, f, fb, "terminal"@);
        if f != "sidebar"@ {
            lemma_only_own_pane(c, panes, f, fb, "sidebar"@);
            assert(c.features[i as int] == f);
            lemma_first_gained_single(c, panes, f, fb, c.features);
        }
    }
}

/// A trigger that toggles or shows a hidden feature whose pane is tracked walks to
/// the layout closest to what is shown now together with that feature, then
/// focuses that feature's pane.
pub proof fn law_trigger_focuses_shown_feature(
    s: State,
    name: Seq<char>,
    f: Seq<char>,
    cur: u64,
    bit: u64,
    l: Seq<char>,
    p: PaneRef,
)
    requires
        config_view(s.config) matches Some(c) && config_wf(c) && c.commands.contains_key(name)
            && (c.commands[name].kind == CommandKind::Toggle || c.commands[name].kind
            == CommandKind::Show) && c.commands[name].target == TargetView::Feature(f)
            && spec_current_bits(active_tab_view(s), c) == Some(cur) && spec_bit_for_feature(c, f)
            == Some(bit) && cur & bit == 0 && c.feature_to_pane.contains_key(f)
            && s.tracked_panes.lookup(c.feature_to_pane[f]) == Some(p) && is_closest(
            c,
            cur | bit,
            l,
        ),
    ensures
        ({
            let c = config_view(s.config)->0;
            spec_apply_command(s, name) == Ok::<Seq<PluginAction>, StateErrorView>(
                spec_navigation(c.layout_names, active_layout(s), l) + seq![PluginAction::FocusPane(p)],
            )
        }),
{
    let c = config_view(s.config)->0;
    assert((cur ^ bit) == (cur | bit) && (cur | bit) & !cur == bit) by (bit_vector)
        requires
            cur & bit == 0,
    ;
    assert(spec_resolve_target_bits(c, cur, c.commands[name]) == Some(cur | bit));
    law_trigger_walks_to_closest(s, name, cur, cur | bit, l);
    law_single_gain_focuses_its_pane(c, s.tracked_panes, f, bit);
}

/// The first two words of `ws` (all of them, where there are fewer).
pub open spec fn first_two(ws: Seq<Seq<char>>) -> Seq<Seq<char>> {
    if ws.len() < 2 {
        ws
    } else {
        ws.take(2)
    }
}

/// A trigger definition is read from its first two words only: definitions whose
/// first two words agree read alike.
pub proof fn law_trigger_reads_two_words(a: Seq<char>, b: Seq<char>)
    requires
        first_two(words(a)) == first_two(words(b)),
    ensures
        spec_parse_command(a) == spec_parse_command(b),
{
    let wa = words(a);
    let wb = words(b);
    let fa = first_two(wa);
    let fb = first_two(wb);
    assert(fa.len() == if wa.len() < 2 { wa.len() } else { 2 });
    assert(fb.len() == if wb.len() < 2 { wb.len() } else { 2 });
    if wa.len() > 0 {
        assert(fa[0] == wa[0]);
        assert(fb[0] == wb[0]);
    }
    if wa.len() >= 2 {
        assert(fa[1] == wa[1]);
        assert(fb[1] == wb[1]);
    }
}

proof fn lemma_run_len_chars(s: Seq<char>)
    ensures
        run_len(s) <= s.len(),
        forall|j: int| 0 <= j < run_len(s) ==> !is_word_sep(#[trigger] s[j]),
        run_len(s) < s.len() ==> is_word_sep(s[run_len(s) as int]),
    decreases s.len(),
{
    if s.len() > 0 && !is_word_sep(s[0]) {
        lemma_run_len_chars(s.drop_first());
        assert forall|j: int| 0 <= j < run_len(s) implies !is_word_sep(#[trigger] s[j]) by {
            if j > 0 {
                assert(s[j] == s.drop_first()[j - 1]);
            }
        }
    }
}

/// Every word is a non-empty run of characters that separate nothing.
proof fn lemma_words_are_words(s: Seq<char>)
    ensures
        forall|i: int| 0 <= i < words(s).len() ==> (#[trigger] words(s)[i]).len() > 0 && forall|j: int|
            0 <= j < words(s)[i].len() ==> !is_word_sep(words(s)[i][j]),
    decreases s.len(),
{
    if s.len() > 0 {
        if is_word_sep(s[0]) {
            lemma_words_are_words(s.drop_first());
            assert(words(s) == words(s.drop_first()));
        } else {
            crate::commands::lemma_run_len_bound(s);
            lemma_run_len_chars(s);
            let n = run_len(s) as int;
            lemma_words_are_words(s.skip(n));
            let ws = words(s);
            assert(ws == seq![s.take(n)] + words(s.skip(n)));
            assert forall|i: int| 0 <= i < ws.len() implies (#[trigger] ws[i]).len() > 0 && forall|j: int|
                0 <= j < ws[i].len() ==> !is_word_sep(ws[i][j]) by {
                if i == 0 {
                    assert forall|j: int| 0 <= j < ws[0].len() implies !is_word_sep(ws[0][j]) by {
                        assert(ws[0][j] == s[j]);
                    }
                } else {
                    assert(ws[i] == words(s.skip(n))[i - 1]);
                }
            }
        }
    }
}

/// The run at the start of `t + rest` is `t`, where `t` is a word and `rest` is
/// empty or starts with a separator.
proof fn lemma_run_len_word(t: Seq<char>, rest: Seq<char>)
    requires
        forall|j: int| 0 <= j < t.len() ==> !is_word_sep(t[j]),
        rest.len() == 0 || is_word_sep(rest[0]),
    ensures
        run_len(t + rest) == t.len(),
    decreases t.len(),
{
    if t.len() == 0 {
        assert(t + rest =~= rest);
    } else {
        assert((t + rest).drop_first() =~= t.drop_first() + rest);
        lemma_run_len_word(t.drop_first(), rest);
    }
}

/// The words of `t0 + " " + t1` are `t0` and `t1`, where both are words.
proof fn lemma_two_words(t0: Seq<char>, t1: Seq<char>)
    requires
        t0.len() > 0,
        t1.len() > 0,
        forall|j: int| 0 <= j < t0.len() ==> !is_word_sep(t0[j]),
        forall|j: int| 0 <= j < t1.len() ==> !is_word_sep(t1[j]),
    ensures
        words(t0 + seq![' '] + t1) == seq![t0, t1],
{
    let s = t0 + seq![' '] + t1;
    let rest = seq![' '] + t1;
    assert(s =~= t0 + rest);
    assert(is_word_sep(' '));
    lemma_run_len_word(t0, rest);
    assert(s[0] == t0[0]);
    assert(s.take(t0.len() as int) =~= t0);
    assert(s.skip(t0.len() as int) =~= rest);
    assert(rest.drop_first() =~= t1);
    lemma_run_len_word(t1, Seq::<char>::empty());
    assert(t1 + Seq::<char>::empty() =~= t1);
    assert(t1.take(t1.len() as int) =~= t1);
    assert(t1.skip(t1.len() as int) =~= Seq::<char>::empty());
    assert(words(t1) == seq![t1] + words(Seq::<char>::empty()));
    assert(words(rest) == words(t1));
    assert(words(s) == seq![t0] + words(rest));
    assert(words(s) =~= seq![t0, t1]);
}

/// The text that a command target names.
pub open spec fn target_text(t: TargetView) -> Seq<char> {
    match t {
        TargetView::Feature(f) => f,
        TargetView::State(n) => n,
    }
}

/// The words that open a trigger definition with a verb: what follows them is the
/// target.
pub open spec fn trigger_keyword(w: Seq<char>) -> bool {
    ||| w == "toggle"@
    ||| w == "show"@
    ||| w == "on"@
    ||| w == "hide"@
    ||| w == "off"@
    ||| w == "state"@
    ||| w == "set_state"@
    ||| w == "layout"@
}

/// Every word of `s` stands in `s` as written.
proof fn lemma_words_stand_in_text(s: Seq<char>)
    ensures
        forall|k: int|
            0 <= k < words(s).len() ==> exists|i: int, j: int|
                0 <= i <= j <= s.len() && s.subrange(i, j) == #[trigger] words(s)[k],
    decreases s.len(),
{
    if s.len() > 0 {
        if is_word_sep(s[0]) {
            let t = s.drop_first();
            lemma_words_stand_in_text(t);
            assert forall|k: int| 0 <= k < words(s).len() implies exists|i: int, j: int|
                0 <= i <= j <= s.len() && s.subrange(i, j) == #[trigger] words(s)[k] by {
                let (i, j) = choose|i: int, j: int|
                    0 <= i <= j <= t.len() && t.subrange(i, j) == words(t)[k];
                assert(s.subrange(i + 1, j + 1) =~= t.subrange(i, j));
            }
        } else {
            crate::commands::lemma_run_len_bound(s);
            let n = run_len(s) as int;
            let t = s.skip(n);
            lemma_words_stand_in_text(t);
            let ws = words(s);
            assert(ws == seq![s.take(n)] + words(t));
            assert forall|k: int| 0 <= k < ws.len() implies exists|i: int, j: int|
                0 <= i <= j <= s.len() && s.subrange(i, j) == #[trigger] ws[k] by {
                if k == 0 {
                    assert(s.subrange(0, n) =~= ws[0]);
                } else {
                    assert(ws[k] == words(t)[k - 1]);
                    let (i, j) = choose|i: int, j: int|
                        0 <= i <= j <= t.len() && t.subrange(i, j) == words(t)[k - 1];
                    assert(s.subrange(i + n, j + n) =~= t.subrange(i, j));
                }
            }
        }
    }
}

/// A parsed trigger names its target by one of the definition's words exactly as
/// written, case included: the second word after a keyword, else the first; so the
/// target stands in the definition as written.
pub proof fn law_trigger_target_as_written(raw: Seq<char>)
    ensures
        spec_parse_command(raw) matches Ok(v) ==> {
            let ws = words(raw);
            let text = target_text(v.target);
            &&& text == ws[0] || (ws.len() >= 2 && text == ws[1])
            &&& exists|i: int, j: int| 0 <= i <= j <= raw.len() && raw.subrange(i, j) == text
        },
        words(raw).len() >= 2 && trigger_keyword(ascii_lowercase(words(raw)[0])) ==> (spec_parse_command(
            raw,
        ) matches Ok(v) && target_text(v.target) == words(raw)[1]),
{
    lemma_words_stand_in_text(raw);
    match spec_parse_command(raw) {
        Ok(v) => {
            let ws = words(raw);
            if target_text(v.target) == ws[0] {
                assert(ws.len() > 0);
                assert(exists|i: int, j: int| 0 <= i <= j <= raw.len() && raw.subrange(i, j) == ws[0]);
            } else {
                assert(exists|i: int, j: int| 0 <= i <= j <= raw.len() && raw.subrange(i, j) == ws[1]);
            }
        },
        Err(_) => {},
    }
}

/// A layout trigger `state <name>` names the layout exactly as written, for every
/// layout name that is one word.
pub proof fn law_state_trigger_keeps_layout_name(name: Seq<char>)
    requires
        name.len() > 0,
        forall|j: int| 0 <= j < name.len() ==> !is_word_sep(name[j]),
    ensures
        spec_parse_command("state"@ + seq![' '] + name) == Ok::<CommandView, Seq<char>>(
            CommandView { kind: CommandKind::SetState, target: TargetView::State(name) },
        ),
{
    reveal_strlit("state");
    let kw = "state"@;
    assert(forall|j: int| 0 <= j < kw.len() ==> !is_word_sep(kw[j]));
    lemma_two_words(kw, name);
    assert(ascii_lowercase(kw) =~= kw);
    reveal_strlit("toggle");
    reveal_strlit("show");
    reveal_strlit("on");
    reveal_strlit("hide");
    reveal_strlit("off");
    assert(kw != "toggle"@ && kw != "show"@ && kw != "on"@ && kw != "hide"@ && kw != "off"@) by {
        assert(kw[0] != "toggle"@[0] && kw.len() != "on"@.len() && kw[0] != "hide"@[0] && kw.len()
            != "off"@.len());
        assert(kw[1] != "show"@[1]);
    }
    let s = kw + seq![' '] + name;
    assert(words(s)[0] == kw && words(s)[1] == name);
}

/// Words after the second never change what a trigger definition says: it reads
/// as its first two words with one space between them.
pub proof fn law_trigger_first_two_words(raw: Seq<char>)
    requires
        words(raw).len() >= 2,
    ensures
        spec_parse_command(raw) == spec_parse_command(words(raw)[0] + seq![' '] + words(raw)[1]),
{
    let ws = words(raw);
    lemma_words_are_words(raw);
    assert(ws[0].len() > 0 && forall|j: int| 0 <= j < ws[0].len() ==> !is_word_sep(ws[0][j]));
    assert(ws[1].len() > 0 && forall|j: int| 0 <= j < ws[1].len() ==> !is_word_sep(ws[1][j]));
    lemma_two_words(ws[0], ws[1]);
    let short = ws[0] + seq![' '] + ws[1];
    assert(first_two(words(short)) =~= first_two(ws));
    law_trigger_reads_two_words(raw, short);
}

} // verus!
