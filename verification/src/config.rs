use vstd::prelude::*;

use crate::commands::{CommandKind, CommandRegistry, CommandSpec, CommandTarget, CommandView, TargetView, spec_parse_command};
use crate::name_map::{StrMap, sorted_keys, sorted_of};
use crate::text::{decimal, push_decimal, range_eq, str_lt, to_chars, trim, trim_range};
use std::collections::BTreeMap;

verus! {

/// The position of the first `c` in `s`, or `s.len()` where there is none.
pub open spec fn find_char(s: Seq<char>, c: char) -> nat
    decreases s.len(),
{
    if s.len() == 0 {
        0
    } else if s[0] == c {
        0
    } else {
        1 + find_char(s.drop_first(), c)
    }
}

pub proof fn lemma_find_char(s: Seq<char>, c: char, i: int)
    requires
        0 <= i <= s.len(),
        forall|k: int| 0 <= k < i ==> s[k] != c,
        i == s.len() || s[i] == c,
    ensures
        find_char(s, c) == i,
    decreases s.len(),
{
    if s.len() > 0 && i > 0 {
        lemma_find_char(s.drop_first(), c, i - 1);
    }
}

pub proof fn lemma_find_char_bound(s: Seq<char>, c: char)
    ensures
        find_char(s, c) <= s.len(),
    decreases s.len(),
{
    if s.len() > 0 && s[0] != c {
        lemma_find_char_bound(s.drop_first(), c);
    }
}

/// The pieces of `s` between the occurrences of `sep`, as `str::split` yields them.
pub open spec fn split_on(s: Seq<char>, sep: char) -> Seq<Seq<char>>
    decreases s.len(),
{
    let i = find_char(s, sep);
    if i >= s.len() {
        seq![s]
    } else {
        seq![s.take(i as int)] + split_on(s.skip(i as int + 1), sep)
    }
}

/// What one comma-separated piece of a layout definition says: nothing (a blank
/// piece), a feature with its value, or the message it is refused with.
pub open spec fn parse_feature_piece(chunk: Seq<char>) -> Result<
    Option<(Seq<char>, bool)>,
    Seq<char>,
> {
    let part = trim(chunk);
    if part.len() == 0 {
        Ok(None)
    } else {
        let i = find_char(part, '=');
        let feature = trim(part.take(i as int));
        if feature.len() == 0 {
            Err("missing feature name"@)
        } else {
            let value = if i < part.len() {
                trim(part.skip(i as int + 1))
            } else {
                "true"@
            };
            if value == "true"@ || value == "1"@ || value == "on"@ {
                Ok(Some((feature, true)))
            } else if value == "false"@ || value == "0"@ || value == "off"@ {
                Ok(Some((feature, false)))
            } else {
                Err("invalid feature value '"@ + value + "' (expected true/false)"@)
            }
        }
    }
}

/// The features of `chunks`, read in order into `acc`; a later value for a
/// feature replaces an earlier one.
pub open spec fn parse_feature_pieces(chunks: Seq<Seq<char>>, acc: Map<Seq<char>, bool>) -> Result<
    Map<Seq<char>, bool>,
    Seq<char>,
>
    decreases chunks.len(),
{
    if chunks.len() == 0 {
        Ok(acc)
    } else {
        match parse_feature_piece(chunks[0]) {
            Err(e) => Err(e),
            Ok(None) => parse_feature_pieces(chunks.drop_first(), acc),
            Ok(Some((f, b))) => parse_feature_pieces(chunks.drop_first(), acc.insert(f, b)),
        }
    }
}

/// The features that a layout definition line sets, or the message it is refused with.
pub open spec fn spec_parse_layout_line(raw: Seq<char>) -> Result<Map<Seq<char>, bool>, Seq<char>> {
    if trim(raw).len() == 0 {
        Err("empty layout definition"@)
    } else {
        parse_feature_pieces(split_on(raw, ','), Map::empty())
    }
}

/// The first position of `c` in `v[lo..hi]`, or `hi`.
fn find_in_range(v: &Vec<char>, lo: usize, hi: usize, c: char) -> (r: usize)
    requires
        lo <= hi <= v@.len(),
    ensures
        lo <= r <= hi,
        find_char(v@.subrange(lo as int, hi as int), c) == r - lo,
{
    let mut i = lo;
    while i < hi && v[i] != c
        invariant
            lo <= i <= hi <= v@.len(),
            forall|k: int| lo <= k < i ==> v@[k] != c,
        decreases hi - i,
    {
        i = i + 1;
    }
    proof {
        lemma_find_char(v@.subrange(lo as int, hi as int), c, i - lo);
    }
    i
}

/// Reads the piece `v[lo..hi]` of a layout definition into `features`.
fn parse_piece(raw: &str, v: &Vec<char>, lo: usize, hi: usize, features: &mut StrMap<bool>) -> (r:
    Result<(), String>)
    requires
        raw@ == v@,
        lo <= hi <= v@.len(),
    ensures
        match parse_feature_piece(v@.subrange(lo as int, hi as int)) {
            Err(e) => r matches Err(m) && m@ == e,
            Ok(None) => r is Ok && final(features).as_map() == old(features).as_map(),
            Ok(Some((f, b))) => r is Ok && final(features).as_map() == old(features).as_map().insert(
                f,
                b,
            ),
        },
        old(features).sorted() ==> final(features).sorted(),
{
    let ghost chunk = v@.subrange(lo as int, hi as int);
    let (a, b) = trim_range(v, lo, hi);
    if a == b {
        return Ok(());
    }
    let ghost part = v@.subrange(a as int, b as int);
    let j = find_in_range(v, a, b, '=');
    assert(part.take(j - a) =~= v@.subrange(a as int, j as int));
    let (f0, f1) = trim_range(v, a, j);
    if f0 == f1 {
        return Err("missing feature name".to_owned());
    }
    let feature = raw.substring_char(f0, f1).to_owned();
    let enabled: bool;
    if j < b {
        assert(part.skip(j - a + 1) =~= v@.subrange(j + 1, b as int));
        let (v0, v1) = trim_range(v, j + 1, b);
        if range_eq(v, v0, v1, &to_chars("true")) || range_eq(v, v0, v1, &to_chars("1"))
            || range_eq(v, v0, v1, &to_chars("on")) {
            enabled = true;
        } else if range_eq(v, v0, v1, &to_chars("false")) || range_eq(v, v0, v1, &to_chars("0"))
            || range_eq(v, v0, v1, &to_chars("off")) {
            enabled = false;
        } else {
            let mut msg = "invalid feature value '".to_owned();
            msg.append(raw.substring_char(v0, v1));
            msg.append("' (expected true/false)");
            return Err(msg);
        }
    } else {
        enabled = true;
    }
    features.insert(feature, enabled);
    Ok(())
}

/// Parse a layout definition line into a feature map
pub fn parse_layout_line(raw: &str) -> (r: Result<StrMap<bool>, String>)
    ensures
        match (r, spec_parse_layout_line(raw@)) {
            (Ok(m), Ok(f)) => m.as_map() == f && m.sorted(),
            (Err(e), Err(msg)) => e@ == msg,
            _ => false,
        },
{
    let v = to_chars(raw);
    let n = v.len();
    let (t0, t1) = trim_range(&v, 0, n);
    assert(v@.subrange(0, n as int) =~= v@);
    if t0 == t1 {
        return Err("empty layout definition".to_owned());
    }
    let mut features: StrMap<bool> = StrMap::new();
    let mut p: usize = 0;
    assert(v@.skip(0) =~= v@);
    loop
        invariant
            raw@ == v@,
            n == v@.len(),
            p <= n,
            features.sorted(),
            parse_feature_pieces(split_on(v@.skip(p as int), ','), features.as_map())
                == spec_parse_layout_line(raw@),
        decreases n - p,
    {
        let i = find_in_range(&v, p, n, ',');
        assert(v@.subrange(p as int, n as int) =~= v@.skip(p as int));
        let ghost pieces = split_on(v@.skip(p as int), ',');
        if i < n {
            assert(v@.skip(p as int).take(i - p) =~= v@.subrange(p as int, i as int));
            assert(v@.skip(p as int).skip(i - p + 1) =~= v@.skip(i + 1));
            assert(pieces[0] == v@.subrange(p as int, i as int));
            assert(pieces.drop_first() == split_on(v@.skip(i + 1), ','));
        } else {
            assert(pieces[0] == v@.subrange(p as int, n as int));
            assert(pieces.drop_first() =~= Seq::<Seq<char>>::empty());
        }
        match parse_piece(raw, &v, p, i, &mut features) {
            Err(e) => {
                return Err(e);
            },
            Ok(()) => {},
        }
        if i == n {
            assert(parse_feature_pieces(pieces.drop_first(), features.as_map()) == Ok::<Map<Seq<char>, bool>, Seq<char>>(features.as_map()));
            return Ok(features);
        }
        p = i + 1;
    }
}


/// Whether `s` begins with `p`.
pub open spec fn has_prefix(s: Seq<char>, p: Seq<char>) -> bool {
    p.len() <= s.len() && s.take(p.len() as int) == p
}

/// What the configuration entries read so far have set.
pub struct ScanView {
    pub default_layout: Option<Seq<char>>,
    pub default_focus_pane: Option<Seq<char>>,
    /// Each `layout.<name>` entry with the features it sets, in key order.
    pub layouts: Seq<(Seq<char>, Map<Seq<char>, bool>)>,
    pub commands: Map<Seq<char>, CommandView>,
    pub panes: Map<Seq<char>, Seq<char>>,
}

pub open spec fn empty_scan() -> ScanView {
    ScanView {
        default_layout: None,
        default_focus_pane: None,
        layouts: Seq::empty(),
        commands: Map::empty(),
        panes: Map::empty(),
    }
}

/// One configuration entry read into `acc`: `default_layout`, `default_focus_pane`,
/// `layout.<name>`, `trigger.<name>` and `pane_name.<feature>` are read; other
/// keys are ignored.
pub open spec fn scan_entry(acc: ScanView, key: Seq<char>, value: Seq<char>) -> Result<
    ScanView,
    Seq<char>,
> {
    if key == "default_layout"@ {
        Ok(ScanView { default_layout: Some(trim(value)), ..acc })
    } else if key == "default_focus_pane"@ {
        Ok(ScanView { default_focus_pane: Some(trim(value)), ..acc })
    } else if has_prefix(key, "layout."@) {
        match spec_parse_layout_line(value) {
            Err(e) => Err(e),
            Ok(m) => Ok(
                ScanView { layouts: acc.layouts.push((key.skip("layout."@.len() as int), m)), ..acc },
            ),
        }
    } else if has_prefix(key, "trigger."@) {
        match spec_parse_command(value) {
            Err(e) => Err(e),
            Ok(c) => Ok(
                ScanView {
                    commands: acc.commands.insert(key.skip("trigger."@.len() as int), c),
                    ..acc
                },
            ),
        }
    } else if has_prefix(key, "pane_name."@) {
        Ok(
            ScanView {
                panes: acc.panes.insert(key.skip("pane_name."@.len() as int), trim(value)),
                ..acc
            },
        )
    } else {
        Ok(acc)
    }
}

/// The entries read in order into `acc`; the first refused entry ends the reading.
pub open spec fn scan_entries(keys: Seq<Seq<char>>, values: Seq<Seq<char>>, acc: ScanView) -> Result<
    ScanView,
    Seq<char>,
>
    decreases keys.len(),
{
    if keys.len() == 0 || values.len() == 0 {
        Ok(acc)
    } else {
        match scan_entry(acc, keys[0], values[0]) {
            Err(e) => Err(e),
            Ok(a) => scan_entries(keys.drop_first(), values.drop_first(), a),
        }
    }
}

/// The names of `layouts`, in order.
pub open spec fn layout_names_of(layouts: Seq<(Seq<char>, Map<Seq<char>, bool>)>) -> Seq<Seq<char>> {
    layouts.map_values(|d: (Seq<char>, Map<Seq<char>, bool>)| d.0)
}

/// Every feature that some layout sets.
pub open spec fn features_of(layouts: Seq<(Seq<char>, Map<Seq<char>, bool>)>) -> Set<Seq<char>>
    decreases layouts.len(),
{
    if layouts.len() == 0 {
        Set::empty()
    } else {
        features_of(layouts.drop_last()).union(layouts.last().1.dom())
    }
}

/// The first feature of `order` that `enabled` leaves unset.
pub open spec fn first_missing(order: Seq<Seq<char>>, enabled: Map<Seq<char>, bool>) -> Option<
    Seq<char>,
>
    decreases order.len(),
{
    if order.len() == 0 {
        None
    } else if !enabled.contains_key(order[0]) {
        Some(order[0])
    } else {
        first_missing(order.drop_first(), enabled)
    }
}

/// The bitmask of the first `n` features of `order`: feature `i` is bit `i`.
pub open spec fn layout_mask(order: Seq<Seq<char>>, enabled: Map<Seq<char>, bool>, n: nat) -> u64
    decreases n,
{
    if n == 0 {
        0
    } else {
        let prev = layout_mask(order, enabled, (n - 1) as nat);
        if enabled[order[n - 1]] {
            prev | (1u64 << ((n - 1) as u64))
        } else {
            prev
        }
    }
}

pub open spec fn missing_feature_message(layout: Seq<char>, feature: Seq<char>) -> Seq<char> {
    "layout '"@ + layout + "' missing explicit value for feature '"@ + feature
        + "' - all features must be explicitly set in all layouts"@
}

pub open spec fn duplicate_mask_message(bits: u64, existing: Seq<char>, layout: Seq<char>) -> Seq<
    char,
> {
    "duplicate bitmask "@ + decimal(bits as nat) + " for layouts '"@ + existing + "' and '"@
        + layout + "'"@
}

/// The bitmask of each layout and the layout of each bitmask, the layouts taken
/// in order; the first layout that leaves a feature unset, or whose bitmask an
/// earlier layout has, is refused.
pub open spec fn build_layouts(
    order: Seq<Seq<char>>,
    layouts: Seq<(Seq<char>, Map<Seq<char>, bool>)>,
    state_bits: Map<Seq<char>, u64>,
    bits_to_state: Map<u64, Seq<char>>,
) -> Result<(Map<Seq<char>, u64>, Map<u64, Seq<char>>), Seq<char>>
    decreases layouts.len(),
{
    if layouts.len() == 0 {
        Ok((state_bits, bits_to_state))
    } else {
        let name = layouts[0].0;
        let enabled = layouts[0].1;
        match first_missing(order, enabled) {
            Some(f) => Err(missing_feature_message(name, f)),
            None => {
                let bits = layout_mask(order, enabled, order.len());
                if bits_to_state.contains_key(bits) {
                    Err(duplicate_mask_message(bits, bits_to_state[bits], name))
                } else {
                    build_layouts(
                        order,
                        layouts.drop_first(),
                        state_bits.insert(name, bits),
                        bits_to_state.insert(bits, name),
                    )
                }
            },
        }
    }
}

/// The `layout.<name>` entries of `keys`/`values`, in order, each with the
/// features its line sets.
pub open spec fn layout_entries(keys: Seq<Seq<char>>, values: Seq<Seq<char>>) -> Seq<
    (Seq<char>, Map<Seq<char>, bool>),
>
    decreases keys.len(),
{
    if keys.len() == 0 || values.len() == 0 {
        Seq::empty()
    } else {
        let rest = layout_entries(keys.drop_first(), values.drop_first());
        if has_prefix(keys[0], "layout."@) {
            let features = match spec_parse_layout_line(values[0]) {
                Ok(m) => m,
                Err(_) => Map::empty(),
            };
            seq![(keys[0].skip("layout."@.len() as int), features)] + rest
        } else {
            rest
        }
    }
}

/// How many features of `fs` order before `f`: the index of `f`'s bit.
pub open spec fn rank(fs: Set<Seq<char>>, f: Seq<char>) -> nat {
    fs.filter(|g: Seq<char>| str_lt(g, f)).len()
}

/// What a parsed configuration says of the raw layout entries: its features are
/// every feature some layout line sets, at most 64, each with the bit of its rank
/// among them; its layouts are the `layout.<name>` entries, each enabling exactly
/// the features its line enables; and each bitmask names one layout.
pub open spec fn layout_facts(keys: Seq<Seq<char>>, values: Seq<Seq<char>>, c: ConfigView) -> bool {
    let lay = layout_entries(keys, values);
    let fs = features_of(lay);
    &&& c.features.to_set() == fs
    &&& fs.len() <= 64
    &&& forall|f: Seq<char>| #[trigger] fs.contains(f) ==> rank(fs, f) < 64
        && spec_bit_for_feature(c, f) == Some(1u64 << (rank(fs, f) as u64))
    &&& forall|f: Seq<char>| !fs.contains(f) ==> #[trigger] spec_bit_for_feature(c, f) is None
    &&& c.state_bits.dom() == layout_names_of(lay).to_set()
    &&& forall|i: int, f: Seq<char>|
        #![trigger lay[i], fs.contains(f)]
        0 <= i < lay.len() && fs.contains(f) ==> lay[i].1.contains_key(f) && (((c.state_bits[lay[i].0]
            >> (rank(fs, f) as u64)) & 1) == 1) == lay[i].1[f]
    &&& layouts_bijective(c.state_bits, c.bits_to_state)
}

/// What a plugin configuration holds.
pub struct ConfigView {
    pub default_layout: Option<Seq<char>>,
    pub default_focus_pane: Option<Seq<char>>,
    /// The features in ascending order; feature `i` is bit `i` of a layout's bitmask.
    pub features: Seq<Seq<char>>,
    /// The bit index that each feature of `features` is stored with.
    pub feature_bits: Seq<u8>,
    /// The layout names in ascending order.
    pub layout_names: Seq<Seq<char>>,
    pub state_bits: Map<Seq<char>, u64>,
    pub bits_to_state: Map<u64, Seq<char>>,
    pub commands: Map<Seq<char>, CommandView>,
    /// The features that name a pane, in ascending order.
    pub pane_features: Seq<Seq<char>>,
    pub feature_to_pane: Map<Seq<char>, Seq<char>>,
}

/// The configuration that the entries `keys`/`values` (in key order) describe, or
/// the message they are refused with.
pub open spec fn spec_parse_config(keys: Seq<Seq<char>>, values: Seq<Seq<char>>) -> Result<
    ConfigView,
    Seq<char>,
> {
    match scan_entries(keys, values, empty_scan()) {
        Err(e) => Err(e),
        Ok(sc) => if sc.layouts.len() == 0 {
            Err("no layouts configured"@)
        } else {
            let fs = features_of(sc.layouts);
            if fs.len() == 0 {
                Err("no features declared in layouts"@)
            } else if fs.len() > 64 {
                Err("supports up to 64 features"@)
            } else {
                let order = sorted_of(fs);
                match build_layouts(order, sc.layouts, Map::empty(), Map::empty()) {
                    Err(e) => Err(e),
                    Ok((state_bits, bits_to_state)) => Ok(
                        ConfigView {
                            default_layout: match sc.default_layout {
                                Some(d) => Some(d),
                                None => Some(sc.layouts[0].0),
                            },
                            default_focus_pane: match sc.default_focus_pane {
                                Some(d) => Some(d),
                                None => if sc.panes.contains_key("editor"@) {
                                    Some(sc.panes["editor"@])
                                } else {
                                    None
                                },
                            },
                            features: order,
                            feature_bits: Seq::new(order.len(), |i: int| i as u8),
                            layout_names: sorted_of(state_bits.dom()),
                            state_bits,
                            bits_to_state,
                            commands: sc.commands,
                            pane_features: sorted_of(sc.panes.dom()),
                            feature_to_pane: sc.panes,
                        },
                    ),
                }
            }
        },
    }
}


/// The characters of an optional string.
pub open spec fn opt_chars(o: Option<String>) -> Option<Seq<char>> {
    match o {
        Some(s) => Some(s@),
        None => None,
    }
}

/// What the configuration entries read so far have set.
struct Scan {
    default_layout: Option<String>,
    default_focus_pane: Option<String>,
    layouts: Vec<(String, StrMap<bool>)>,
    commands: StrMap<CommandSpec>,
    panes: StrMap<String>,
}

impl Scan {
    spec fn view(&self) -> ScanView {
        ScanView {
            default_layout: opt_chars(self.default_layout),
            default_focus_pane: opt_chars(self.default_focus_pane),
            layouts: self.layouts@.map_values(|d: (String, StrMap<bool>)| (d.0@, d.1.as_map())),
            commands: self.commands.view_map(),
            panes: self.panes.view_map(),
        }
    }

    spec fn layouts_sorted(&self) -> bool {
        forall|i: int| 0 <= i < self.layouts@.len() ==> (#[trigger] self.layouts@[i]).1.sorted()
    }
}

/// `s` without leading and trailing whitespace.
fn trimmed(s: &str) -> (r: String)
    ensures
        r@ == trim(s@),
{
    let v = to_chars(s);
    let (a, b) = trim_range(&v, 0, v.len());
    assert(v@.subrange(0, v@.len() as int) =~= v@);
    s.substring_char(a, b).to_owned()
}

/// What follows the prefix `p` in `s`, where `s` begins with it.
fn strip_prefix(s: &str, p: &str) -> (r: Option<String>)
    ensures
        match r {
            Some(rest) => has_prefix(s@, p@) && rest@ == s@.skip(p@.len() as int),
            None => !has_prefix(s@, p@),
        },
{
    let v = to_chars(s);
    let w = to_chars(p);
    if w.len() > v.len() {
        return None;
    }
    if range_eq(&v, 0, w.len(), &w) {
        assert(v@.subrange(0, w@.len() as int) =~= v@.take(w@.len() as int));
        let rest = s.substring_char(w.len(), v.len()).to_owned();
        assert(v@.subrange(w@.len() as int, v@.len() as int) =~= v@.skip(w@.len() as int));
        Some(rest)
    } else {
        assert(v@.subrange(0, w@.len() as int) =~= v@.take(w@.len() as int));
        None
    }
}

/// Reads one configuration entry into `scan`.
fn scan_one(scan: &mut Scan, key: &String, value: &String) -> (r: Result<(), String>)
    requires
        old(scan).layouts_sorted(),
    ensures
        final(scan).layouts_sorted(),
        match scan_entry(old(scan).view(), key@, value@) {
            Err(e) => r matches Err(m) && m@ == e,
            Ok(a) => r is Ok && final(scan).view() == a,
        },
        final(scan).layouts@ == old(scan).layouts@ || (final(scan).layouts@.len() == old(
            scan,
        ).layouts@.len() + 1 && final(scan).layouts@.drop_last() == old(scan).layouts@ && key@
            == "layout."@ + final(scan).layouts@.last().0@),
{
    let ghost acc = scan.view();
    if crate::text::str_eq(key.as_str(), "default_layout") {
        scan.default_layout = Some(trimmed(value.as_str()));
        return Ok(());
    }
    if crate::text::str_eq(key.as_str(), "default_focus_pane") {
        scan.default_focus_pane = Some(trimmed(value.as_str()));
        return Ok(());
    }
    match strip_prefix(key.as_str(), "layout.") {
        Some(name) => {
            let features = parse_layout_line(value.as_str())?;
            let ghost entry = (name@, features.as_map());
            let ghost old_layouts = scan.layouts@;
            assert(key@ =~= "layout."@ + name@);
            scan.layouts.push((name, features));
            assert(scan.view().layouts =~= acc.layouts.push(entry));
            assert(scan.layouts@.drop_last() =~= old_layouts);
            return Ok(());
        },
        None => {},
    }
    match strip_prefix(key.as_str(), "trigger.") {
        Some(name) => {
            let command = CommandSpec::parse(value.as_str())?;
            let ghost nv = name@;
            let ghost cv = command@;
            scan.commands.insert(name, command);
            assert(scan.view().commands =~= acc.commands.insert(nv, cv));
            return Ok(());
        },
        None => {},
    }
    match strip_prefix(key.as_str(), "pane_name.") {
        Some(name) => {
            let pane = trimmed(value.as_str());
            let ghost nv = name@;
            let ghost pv = pane@;
            scan.panes.insert(name, pane);
            assert(scan.view().panes =~= acc.panes.insert(nv, pv));
            return Ok(());
        },
        None => {},
    }
    Ok(())
}

/// Reads every configuration entry, in key order.
fn scan_config(raw: &StrMap<String>) -> (r: Result<Scan, String>)
    ensures
        match scan_entries(
            raw.key_seq(),
            raw.value_seq().map_values(|s: String| s@),
            empty_scan(),
        ) {
            Err(e) => r matches Err(m) && m@ == e,
            Ok(a) => r matches Ok(sc) && sc.view() == a && sc.layouts_sorted() && sorted_keys(
                layout_names_of(a.layouts),
            ),
        },
{
    let ghost keys = raw.key_seq();
    let ghost values = raw.value_seq().map_values(|s: String| s@);
    let mut scan = Scan {
        default_layout: None,
        default_focus_pane: None,
        layouts: Vec::new(),
        commands: StrMap::new(),
        panes: StrMap::new(),
    };
    proof {
        raw.lemma_lengths();
    }
    assert(scan.view().layouts =~= Seq::<(Seq<char>, Map<Seq<char>, bool>)>::empty());
    assert(scan.view().commands =~= Map::<Seq<char>, CommandView>::empty());
    assert(scan.view().panes =~= Map::<Seq<char>, Seq<char>>::empty());
    assert(keys.skip(0) =~= keys);
    assert(values.skip(0) =~= values);
    let n = raw.len();
    proof {
        use_type_invariant(raw);
    }
    assert(layout_names_of(scan.view().layouts) =~= Seq::<Seq<char>>::empty());
    let mut i: usize = 0;
    while i < n
        invariant
            n == keys.len(),
            n == values.len(),
            keys == raw.key_seq(),
            values == raw.value_seq().map_values(|s: String| s@),
            i <= n,
            scan.layouts_sorted(),
            scan_entries(keys.skip(i as int), values.skip(i as int), scan.view()) == scan_entries(
                keys,
                values,
                empty_scan(),
            ),
            sorted_keys(keys),
            sorted_keys(layout_names_of(scan.view().layouts)),
            scan.layouts@.len() > 0 ==> exists|m: int|
                0 <= m < i && keys[m] == "layout."@ + scan.layouts@.last().0@,
        decreases n - i,
    {
        let key = raw.key_at(i);
        let value = raw.value_at(i);
        assert(keys.skip(i as int)[0] == key@);
        assert(values.skip(i as int)[0] == value@);
        assert(keys.skip(i as int).drop_first() =~= keys.skip(i + 1));
        assert(values.skip(i as int).drop_first() =~= values.skip(i + 1));
        let ghost before = scan.layouts@;
        let ghost names_before = layout_names_of(scan.view().layouts);
        scan_one(&mut scan, key, value)?;
        proof {
            if scan.layouts@ != before {
                let names = layout_names_of(scan.view().layouts);
                assert(names.drop_last() =~= names_before);
                if before.len() > 0 {
                    let m = choose|m: int|
                        0 <= m < i && keys[m] == "layout."@ + before.last().0@;
                    crate::text::lemma_str_lt_prefix("layout."@, before.last().0@, scan.layouts@.last().0@);
                    assert(str_lt(before.last().0@, scan.layouts@.last().0@));
                    assert(names_before.last() == before.last().0@);
                    assert forall|x: int, y: int| 0 <= x < y < names.len() implies str_lt(
                        names[x],
                        names[y],
                    ) by {
                        assert(names[x] == names.drop_last()[x] || x == names.len() - 1);
                        if y < names.len() - 1 {
                            assert(names[y] == names.drop_last()[y]);
                        }
                        if y == names.len() - 1 && x < names.len() - 2 {
                            assert(names[x] == names_before[x]);
                            crate::text::lemma_str_lt_transitive(
                                names[x],
                                names_before.last(),
                                names[y],
                            );
                        }
                    }
                }
                assert(keys[i as int] == "layout."@ + scan.layouts@.last().0@);
            }
        }
        i = i + 1;
    }
    assert(keys.skip(n as int) =~= Seq::<Seq<char>>::empty());
    Ok(scan)
}


/// The layouts of a scan, as the spec reads them.
spec fn layouts_view(layouts: Seq<(String, StrMap<bool>)>) -> Seq<(Seq<char>, Map<Seq<char>, bool>)> {
    layouts.map_values(|d: (String, StrMap<bool>)| (d.0@, d.1.as_map()))
}

/// Every feature that some layout sets, in ascending order.
fn collect_features(layouts: &Vec<(String, StrMap<bool>)>) -> (r: StrMap<bool>)
    ensures
        r.sorted(),
        r.key_seq().to_set() == features_of(layouts_view(layouts@)),
{
    let ghost lay = layouts_view(layouts@);
    let mut set: StrMap<bool> = StrMap::new();
    assert(lay.take(0) =~= Seq::<(Seq<char>, Map<Seq<char>, bool>)>::empty());
    assert(set.key_seq().to_set() =~= Set::<Seq<char>>::empty());
    let mut k: usize = 0;
    while k < layouts.len()
        invariant
            lay == layouts_view(layouts@),
            k <= layouts@.len(),
            set.sorted(),
            set.key_seq().to_set() == features_of(lay.take(k as int)),
        decreases layouts@.len() - k,
    {
        let m = &layouts[k].1;
        let ghost ks = m.key_seq();
        let ghost before = features_of(lay.take(k as int));
        assert(ks.take(0).to_set() =~= Set::<Seq<char>>::empty());
        assert(set.key_seq().to_set() =~= before.union(ks.take(0).to_set()));
        let mut j: usize = 0;
        while j < m.len()
            invariant
                ks == m.key_seq(),
                j <= ks.len(),
                set.sorted(),
                set.key_seq().to_set() == before.union(ks.take(j as int).to_set()),
            decreases ks.len() - j,
        {
            let f = m.key_at(j).clone();
            let ghost fv = f@;
            assert(fv == ks[j as int]);
            set.insert(f, true);
            assert(ks.take(j + 1) =~= ks.take(j as int).push(fv));
            proof {
                ks.take(j as int).lemma_push_to_set_commute(fv);
            }
            assert(ks.take(j + 1).to_set() =~= ks.take(j as int).to_set().insert(fv));
            assert(set.key_seq().to_set() =~= before.union(ks.take(j + 1).to_set()));
            j = j + 1;
        }
        proof {
            m.lemma_dom();
            assert(ks.take(ks.len() as int) =~= ks);
            assert(lay.take(k + 1).drop_last() =~= lay.take(k as int));
            assert(lay.take(k + 1).last().1 == m.as_map());
        }
        k = k + 1;
    }
    assert(lay.take(layouts@.len() as int) =~= lay);
    set
}


/// The layout named by each bitmask, by characters.
pub open spec fn names_by_bits(m: BTreeMap<u64, String>) -> Map<u64, Seq<char>> {
    m@.map_values(|s: String| s@)
}

/// The layout that has bitmask `bits`.
fn name_of_bits(m: &BTreeMap<u64, String>, bits: u64) -> (r: Option<&String>)
    ensures
        match r {
            Some(s) => names_by_bits(*m).contains_key(bits) && names_by_bits(*m)[bits] == s@,
            None => !names_by_bits(*m).contains_key(bits),
        },
{
    broadcast use vstd::laws_cmp::group_laws_cmp;
    broadcast use vstd::std_specs::btree::group_btree_axioms;

    m.get(&bits)
}

/// Records that layout `name` has bitmask `bits`.
fn record_bits(m: &mut BTreeMap<u64, String>, bits: u64, name: String)
    ensures
        names_by_bits(*final(m)) == names_by_bits(*old(m)).insert(bits, name@),
{
    broadcast use vstd::laws_cmp::group_laws_cmp;
    broadcast use vstd::std_specs::btree::group_btree_axioms;

    let ghost nv = name@;
    m.insert(bits, name);
    assert(names_by_bits(*m) =~= names_by_bits(*old(m)).insert(bits, nv));
}

/// The bitmask that `enabled` gives the features of `order`, or the position of
/// the first feature it leaves unset.
fn layout_bits(order: &StrMap<bool>, enabled: &StrMap<bool>) -> (r: Result<u64, usize>)
    requires
        order.key_seq().len() <= 64,
    ensures
        match first_missing(order.key_seq(), enabled.as_map()) {
            Some(f) => r matches Err(j) && j < order.key_seq().len() && order.key_seq()[j as int]
                == f,
            None => r == Ok::<u64, usize>(
                layout_mask(order.key_seq(), enabled.as_map(), order.key_seq().len()),
            ),
        },
{
    let ghost ks = order.key_seq();
    let ghost en = enabled.as_map();
    let n = order.len();
    let mut bits: u64 = 0;
    let mut j: usize = 0;
    assert(ks.skip(0) =~= ks);
    while j < n
        invariant
            ks == order.key_seq(),
            en == enabled.as_map(),
            n == ks.len(),
            n <= 64,
            j <= n,
            first_missing(ks, en) == first_missing(ks.skip(j as int), en),
            bits == layout_mask(ks, en, j as nat),
        decreases n - j,
    {
        let f = order.key_at(j);
        assert(ks.skip(j as int)[0] == ks[j as int]);
        assert(ks.skip(j as int).drop_first() =~= ks.skip(j + 1));
        match enabled.get(f.as_str()) {
            None => {
                return Err(j);
            },
            Some(b) => {
                assert(en.contains_key(ks[j as int]));
                assert(en[ks[j as int]] == *b);
                if *b {
                    bits = bits | (1u64 << (j as u64));
                }
            },
        }
        j = j + 1;
    }
    assert(ks.skip(n as int) =~= Seq::<Seq<char>>::empty());
    Ok(bits)
}

/// The bitmask of each layout, and the layout of each bitmask.
fn build_layout_bits(order: &StrMap<bool>, layouts: &Vec<(String, StrMap<bool>)>) -> (r: Result<
    (StrMap<u64>, BTreeMap<u64, String>),
    String,
>)
    requires
        order.key_seq().len() <= 64,
    ensures
        match build_layouts(order.key_seq(), layouts_view(layouts@), Map::empty(), Map::empty()) {
            Err(e) => r matches Err(m) && m@ == e,
            Ok((sb, bs)) => r matches Ok((s, b)) && s.as_map() == sb && names_by_bits(b) == bs
                && s.sorted(),
        },
{
    let ghost ks = order.key_seq();
    let ghost lay = layouts_view(layouts@);
    let mut state_bits: StrMap<u64> = StrMap::new();
    let mut bits_to_state: BTreeMap<u64, String> = BTreeMap::new();
    assert(names_by_bits(bits_to_state) =~= Map::<u64, Seq<char>>::empty());
    assert(lay.skip(0) =~= lay);
    let mut k: usize = 0;
    while k < layouts.len()
        invariant
            ks == order.key_seq(),
            ks.len() <= 64,
            lay == layouts_view(layouts@),
            k <= layouts@.len(),
            state_bits.sorted(),
            build_layouts(ks, lay.skip(k as int), state_bits.as_map(), names_by_bits(bits_to_state))
                == build_layouts(ks, lay, Map::empty(), Map::empty()),
        decreases layouts@.len() - k,
    {
        let name = &layouts[k].0;
        let enabled = &layouts[k].1;
        assert(lay.skip(k as int)[0] == (name@, enabled.as_map()));
        assert(lay.skip(k as int).drop_first() =~= lay.skip(k + 1));
        match layout_bits(order, enabled) {
            Err(j) => {
                let mut msg = "layout '".to_owned();
                msg.append(name.as_str());
                msg.append("' missing explicit value for feature '");
                msg.append(order.key_at(j).as_str());
                msg.append("' - all features must be explicitly set in all layouts");
                return Err(msg);
            },
            Ok(bits) => {
                match name_of_bits(&bits_to_state, bits) {
                    Some(existing) => {
                        assert(names_by_bits(bits_to_state).contains_key(bits));
                        let mut msg = "duplicate bitmask ".to_owned();
                        push_decimal(&mut msg, bits);
                        msg.append(" for layouts '");
                        msg.append(existing.as_str());
                        msg.append("' and '");
                        msg.append(name.as_str());
                        msg.append("'");
                        return Err(msg);
                    },
                    None => {
                        let ghost nv = name@;
                        let ghost before = names_by_bits(bits_to_state);
                        assert(!before.contains_key(bits));
                        record_bits(&mut bits_to_state, bits, name.clone());
                        state_bits.insert(name.clone(), bits);
                        assert(names_by_bits(bits_to_state) =~= before.insert(bits, nv));
                    },
                }
            },
        }
        k = k + 1;
    }
    assert(lay.skip(layouts@.len() as int) =~= Seq::<(Seq<char>, Map<Seq<char>, bool>)>::empty());
    Ok((state_bits, bits_to_state))
}


/// Each layout has one bitmask and each bitmask belongs to one layout.
pub open spec fn layouts_bijective(state_bits: Map<Seq<char>, u64>, bits_to_state: Map<u64, Seq<char>>) -> bool {
    &&& forall|n: Seq<char>| #[trigger] state_bits.contains_key(n) ==> bits_to_state.contains_key(
        state_bits[n],
    ) && bits_to_state[state_bits[n]] == n
    &&& forall|b: u64| #[trigger] bits_to_state.contains_key(b) ==> state_bits.contains_key(
        bits_to_state[b],
    ) && state_bits[bits_to_state[b]] == b
}

/// What every configuration keeps: the features in ascending order, at most 64 of
/// them; the layouts in ascending order, each with its own bitmask; the features
/// that name panes in ascending order.
pub open spec fn config_wf(c: ConfigView) -> bool {
    &&& sorted_keys(c.features)
    &&& c.features.len() <= 64
    &&& c.feature_bits == Seq::new(c.features.len(), |i: int| i as u8)
    &&& sorted_keys(c.layout_names)
    &&& c.layout_names.to_set() == c.state_bits.dom()
    &&& layouts_bijective(c.state_bits, c.bits_to_state)
    &&& sorted_keys(c.pane_features)
    &&& c.pane_features.to_set() == c.feature_to_pane.dom()
}

proof fn lemma_build_layouts_wf(
    order: Seq<Seq<char>>,
    lay: Seq<(Seq<char>, Map<Seq<char>, bool>)>,
    sb: Map<Seq<char>, u64>,
    bs: Map<u64, Seq<char>>,
)
    requires
        layouts_bijective(sb, bs),
        sorted_keys(layout_names_of(lay)),
        forall|i: int| 0 <= i < lay.len() ==> !sb.contains_key(#[trigger] lay[i].0),
    ensures
        build_layouts(order, lay, sb, bs) matches Ok((sb2, bs2)) ==> layouts_bijective(sb2, bs2),
    decreases lay.len(),
{
    if lay.len() > 0 {
        let name = lay[0].0;
        let enabled = lay[0].1;
        if first_missing(order, enabled) is None {
            let bits = layout_mask(order, enabled, order.len());
            if !bs.contains_key(bits) {
                let sb1 = sb.insert(name, bits);
                let bs1 = bs.insert(bits, name);
                assert(!sb.contains_key(lay[0].0));
                assert(layouts_bijective(sb1, bs1));
                let rest = lay.drop_first();
                assert(layout_names_of(rest) =~= layout_names_of(lay).drop_first());
                assert forall|i: int| 0 <= i < rest.len() implies !sb1.contains_key(
                    #[trigger] rest[i].0,
                ) by {
                    assert(rest[i] == lay[i + 1]);
                    assert(layout_names_of(lay)[i + 1] == lay[i + 1].0);
                    assert(layout_names_of(lay)[0] == name);
                    assert(str_lt(name, lay[i + 1].0));
                    if lay[i + 1].0 == name {
                        crate::text::lemma_str_lt_irreflexive(name);
                    }
                }
                lemma_build_layouts_wf(order, rest, sb1, bs1);
            }
        }
    }
}

/// Plugin configuration containing all settings and mappings
#[derive(Debug)]
pub struct PluginConfig {
    pub(crate) default_layout: Option<String>,
    pub(crate) default_focus_pane: Option<String>,
    pub(crate) feature_to_bit: StrMap<u8>,
    pub(crate) feature_to_pane: StrMap<String>,
    pub(crate) state_bits: StrMap<u64>,
    pub(crate) bits_to_state: BTreeMap<u64, String>,
    pub(crate) commands: CommandRegistry,
}

impl View for PluginConfig {
    type V = ConfigView;

    closed spec fn view(&self) -> ConfigView {
        ConfigView {
            default_layout: opt_chars(self.default_layout),
            default_focus_pane: opt_chars(self.default_focus_pane),
            features: self.feature_to_bit.key_seq(),
            feature_bits: self.feature_to_bit.value_seq(),
            layout_names: self.state_bits.key_seq(),
            state_bits: self.state_bits.as_map(),
            bits_to_state: names_by_bits(self.bits_to_state),
            commands: Map::new(
                |k: Seq<char>| self.commands.entry(k) is Some,
                |k: Seq<char>| self.commands.entry(k)->0@,
            ),
            pane_features: self.feature_to_pane.key_seq(),
            feature_to_pane: self.feature_to_pane.view_map(),
        }
    }
}

impl PluginConfig {
    /// Feature `i` has bit `i`, and the view is well formed.
    #[verifier::type_invariant]
    pub closed spec fn inv(&self) -> bool {
        &&& config_wf(self@)
        &&& self.feature_to_bit.value_seq().len() == self.feature_to_bit.key_seq().len()
        &&& forall|i: int| 0 <= i < self.feature_to_bit.value_seq().len() ==> #[trigger] self.feature_to_bit.value_seq()[i] == i
    }

    /// Parse configuration from raw key-value pairs
    pub fn parse(raw: &StrMap<String>) -> (r: Result<Self, String>)
        ensures
            match (r, spec_parse_config(raw.key_seq(), raw.value_seq().map_values(|s: String| s@))) {
                (Ok(c), Ok(m)) => c@ == m,
                (Err(e), Err(m)) => e@ == m,
                _ => false,
            },
            r matches Ok(c) ==> config_wf(c@),
            r matches Ok(c) ==> layout_facts(raw.key_seq(), raw.value_seq().map_values(|s: String| s@), c@),
    {
        let scan = scan_config(raw)?;
        let ghost sc = scan.view();
        if scan.layouts.len() == 0 {
            return Err("no layouts configured".to_owned());
        }
        let fset = collect_features(&scan.layouts);
        let ghost order = fset.key_seq();
        proof {
            crate::name_map::lemma_sorted_no_duplicates(order);
            order.unique_seq_to_set();
            crate::name_map::lemma_sorted_of(order);
        }
        let n = fset.len();
        if n == 0 {
            return Err("no features declared in layouts".to_owned());
        }
        if n > 64 {
            return Err("supports up to 64 features".to_owned());
        }
        let (state_bits, bits_to_state) = build_layout_bits(&fset, &scan.layouts)?;
        proof {
            assert forall|i: int| 0 <= i < sc.layouts.len() implies !Map::<Seq<char>, u64>::empty().contains_key(
                #[trigger] sc.layouts[i].0,
            ) by {}
            assert(layouts_bijective(Map::empty(), Map::empty()));
            lemma_build_layouts_wf(order, sc.layouts, Map::empty(), Map::empty());
        }
        let mut feature_to_bit: StrMap<u8> = StrMap::new();
        let mut i: usize = 0;
        while i < n
            invariant
                n == order.len(),
                n <= 64,
                order == fset.key_seq(),
                sorted_keys(order),
                i <= n,
                feature_to_bit.key_seq() == order.take(i as int),
                feature_to_bit.value_seq().len() == i,
                forall|j: int| 0 <= j < i ==> #[trigger] feature_to_bit.value_seq()[j] == j,
            decreases n - i,
        {
            let f = fset.key_at(i).clone();
            assert(order.take(i + 1) =~= order.take(i as int).push(order[i as int]));
            feature_to_bit.push_back(f, i as u8);
            i = i + 1;
        }
        assert(order.take(n as int) =~= order);
        let Scan { default_layout, default_focus_pane, layouts, commands, panes } = scan;
        let default_layout = match default_layout {
            Some(d) => Some(d),
            None => Some(layouts[0].0.clone()),
        };
        let default_focus_pane = match default_focus_pane {
            Some(d) => Some(d),
            None => match panes.get("editor") {
                Some(p) => Some(p.clone()),
                None => None,
            },
        };
        let ghost cmds = commands.view_map();
        let commands = CommandRegistry::new(commands);
        proof {
            state_bits.lemma_dom();
            panes.lemma_dom();
            use_type_invariant(&state_bits);
            use_type_invariant(&panes);
            use_type_invariant(&feature_to_bit);
            assert(feature_to_bit.value_seq() =~= Seq::new(order.len(), |i: int| i as u8));
            assert(layouts_bijective(state_bits.as_map(), names_by_bits(bits_to_state)));
            assert(panes.view_map().dom() =~= panes.as_map().dom());
        }
        let config = PluginConfig {
            default_layout,
            default_focus_pane,
            feature_to_bit,
            feature_to_pane: panes,
            state_bits,
            bits_to_state,
            commands,
        };
        proof {
            config.state_bits.lemma_dom();
            config.feature_to_pane.lemma_dom();
            crate::name_map::lemma_sorted_of(config.state_bits.key_seq());
            crate::name_map::lemma_sorted_of(config.feature_to_pane.key_seq());
            assert(config@.commands =~= cmds);
            assert(config@.feature_to_pane.dom() =~= config.feature_to_pane.as_map().dom());
        }
        proof {
            use_type_invariant(&config);
            let keys = raw.key_seq();
            let vals = raw.value_seq().map_values(|s: String| s@);
            lemma_scan_layouts(keys, vals, empty_scan());
            let lay = layout_entries(keys, vals);
            assert(sc.layouts =~= lay);
            let fs = features_of(lay);
            let c = config@;
            assert(c.features == order);
            assert forall|f: Seq<char>| #[trigger] fs.contains(f) implies rank(fs, f) < 64
                && spec_bit_for_feature(c, f) == Some(1u64 << (rank(fs, f) as u64)) by {
                assert(order.to_set().contains(f));
                let i = choose|i: int| 0 <= i < order.len() && order[i] == f;
                lemma_rank_is_index(order, i);
                order.index_of_first_ensures(f);
                let j = order.index_of_first(f)->0;
                if j != i {
                    crate::name_map::lemma_sorted_no_duplicates(order);
                }
            }
            assert forall|f: Seq<char>| !fs.contains(f) implies #[trigger] spec_bit_for_feature(c, f) is None by {
                order.index_of_first_ensures(f);
                if order.index_of_first(f) is Some {
                    let j = order.index_of_first(f)->0;
                    assert(order.to_set().contains(order[j]));
                }
            }
            lemma_build_layouts_masks(order, lay, Map::empty(), Map::empty());
            let sb2 = build_layouts(order, lay, Map::empty(), Map::empty())->Ok_0.0;
            assert(c.state_bits == sb2);
            assert(c.state_bits.dom() =~= layout_names_of(lay).to_set());
            assert forall|i: int, f: Seq<char>|
                #![trigger lay[i], fs.contains(f)]
                0 <= i < lay.len() && fs.contains(f) implies lay[i].1.contains_key(f) && (((c.state_bits[lay[i].0]
                    >> (rank(fs, f) as u64)) & 1) == 1) == lay[i].1[f] by {
                lemma_first_missing_none(order, lay[i].1);
                assert(order.to_set().contains(f));
                let k = choose|k: int| 0 <= k < order.len() && order[k] == f;
                assert(lay[i].1.contains_key(order[k]));
                lemma_rank_is_index(order, k);
                crate::laws::law_layout_mask_bit(order, lay[i].1, order.len(), k as nat);
            }
        }
        Ok(config)
    }
}


/// The number of set bits of `x`.
pub open spec fn popcount(x: u64) -> nat
    decreases x,
{
    if x == 0 {
        0
    } else {
        (x % 2) as nat + popcount(x / 2)
    }
}

/// How many features two bitmasks disagree on.
pub open spec fn mask_distance(a: u64, b: u64) -> nat {
    popcount(a ^ b)
}

pub proof fn lemma_popcount_bound(x: u64)
    ensures
        popcount(x) <= x,
    decreases x,
{
    if x != 0 {
        lemma_popcount_bound(x / 2);
    }
}

/// The number of set bits of `x`, as `u64::count_ones` counts them.
pub fn count_ones(x: u64) -> (r: u64)
    ensures
        r == popcount(x),
{
    let mut y = x;
    let mut c: u64 = 0;
    proof {
        lemma_popcount_bound(x);
    }
    while y != 0
        invariant
            c + popcount(y) == popcount(x),
            popcount(x) <= x,
        decreases y,
    {
        proof {
            lemma_popcount_bound(y / 2);
        }
        c = c + y % 2;
        y = y / 2;
    }
    c
}

/// The bit of `f` in a layout's bitmask.
pub open spec fn spec_bit_for_feature(c: ConfigView, f: Seq<char>) -> Option<u64> {
    match c.features.index_of_first(f) {
        Some(i) => Some(1u64 << (i as u64)),
        None => None,
    }
}

/// The bitmask of layout `name`.
pub open spec fn spec_bits_for_state(c: ConfigView, name: Seq<char>) -> Option<u64> {
    if c.state_bits.contains_key(name) {
        Some(c.state_bits[name])
    } else {
        None
    }
}

/// The bitmask of the default layout.
pub open spec fn spec_default_bits(c: ConfigView) -> Option<u64> {
    match c.default_layout {
        Some(name) => spec_bits_for_state(c, name),
        None => None,
    }
}

/// The bitmask that `command` asks for when the current one is `current`.
pub open spec fn spec_resolve_target_bits(c: ConfigView, current: u64, command: CommandView) -> Option<
    u64,
> {
    match (command.kind, command.target) {
        (CommandKind::Toggle, TargetView::Feature(f)) => match spec_bit_for_feature(c, f) {
            Some(bit) => Some(current ^ bit),
            None => None,
        },
        (CommandKind::Show, TargetView::Feature(f)) => match spec_bit_for_feature(c, f) {
            Some(bit) => Some(current | bit),
            None => None,
        },
        (CommandKind::Hide, TargetView::Feature(f)) => match spec_bit_for_feature(c, f) {
            Some(bit) => Some(current & !bit),
            None => None,
        },
        (CommandKind::SetState, TargetView::Feature(name)) => spec_bits_for_state(c, name),
        (_, TargetView::State(name)) => spec_bits_for_state(c, name),
    }
}

/// Layout `a` is closer to `target` than layout `b`: it differs in fewer
/// features, or in as many and its name orders first.
pub open spec fn closer(c: ConfigView, target: u64, a: Seq<char>, b: Seq<char>) -> bool {
    let da = mask_distance(c.state_bits[a], target);
    let db = mask_distance(c.state_bits[b], target);
    da < db || (da == db && str_lt(a, b))
}

/// `name` is the layout closest to `target`.
pub open spec fn is_closest(c: ConfigView, target: u64, name: Seq<char>) -> bool {
    &&& c.state_bits.contains_key(name)
    &&& forall|other: Seq<char>| #[trigger] c.state_bits.contains_key(other) && other != name
        ==> closer(c, target, name, other)
}

/// Trait for resolving features and states to bit patterns
pub trait BitResolver {
    fn bit_for_feature(&self, feature: &str) -> Option<u64>;

    fn bits_for_state(&self, state: &str) -> Option<u64>;

    fn default_bits(&self) -> Option<u64>;
}

/// Trait for state resolution
pub trait StateResolver {
    fn resolve_target_bits(&self, current_bits: u64, command: &CommandSpec) -> Option<u64>;

    fn closest_state(&self, target_bits: u64) -> Option<(String, u64)>;
}

impl BitResolver for PluginConfig {
    fn bit_for_feature(&self, feature: &str) -> (r: Option<u64>)
        ensures
            r == spec_bit_for_feature(self@, feature@),
    {
        proof {
            use_type_invariant(self);
            self.feature_to_bit.key_seq().index_of_first_ensures(feature@);
        }
        match self.feature_to_bit.get(feature) {
            Some(idx) => {
                let i = *idx;
                Some(1u64 << (i as u64))
            },
            None => None,
        }
    }

    fn bits_for_state(&self, state: &str) -> (r: Option<u64>)
        ensures
            r == spec_bits_for_state(self@, state@),
    {
        match self.state_bits.get(state) {
            Some(b) => Some(*b),
            None => None,
        }
    }

    fn default_bits(&self) -> (r: Option<u64>)
        ensures
            r == spec_default_bits(self@),
    {
        match &self.default_layout {
            Some(name) => self.bits_for_state(name.as_str()),
            None => None,
        }
    }
}

impl StateResolver for PluginConfig {
    fn resolve_target_bits(&self, current_bits: u64, command: &CommandSpec) -> (r: Option<u64>)
        ensures
            r == spec_resolve_target_bits(self@, current_bits, command@),
    {
        match (&command.kind, &command.target) {
            (CommandKind::Toggle, CommandTarget::Feature(feature)) => {
                match self.bit_for_feature(feature.as_str()) {
                    Some(bit) => Some(current_bits ^ bit),
                    None => None,
                }
            },
            (CommandKind::Show, CommandTarget::Feature(feature)) => {
                match self.bit_for_feature(feature.as_str()) {
                    Some(bit) => Some(current_bits | bit),
                    None => None,
                }
            },
            (CommandKind::Hide, CommandTarget::Feature(feature)) => {
                match self.bit_for_feature(feature.as_str()) {
                    Some(bit) => Some(current_bits & !bit),
                    None => None,
                }
            },
            (CommandKind::SetState, CommandTarget::State(state)) => self.bits_for_state(
                state.as_str(),
            ),
            (CommandKind::SetState, CommandTarget::Feature(state)) => self.bits_for_state(
                state.as_str(),
            ),
            (_, CommandTarget::State(state)) => self.bits_for_state(state.as_str()),
        }
    }

    fn closest_state(&self, target_bits: u64) -> (r: Option<(String, u64)>)
        ensures
            match r {
                None => self@.state_bits.dom() == Set::<Seq<char>>::empty(),
                Some((name, bits)) => is_closest(self@, target_bits, name@) && bits
                    == self@.state_bits[name@],
            },
    {
        proof {
            use_type_invariant(self);
            self.state_bits.lemma_dom();
        }
        let ghost ks = self.state_bits.key_seq();
        let ghost vs = self.state_bits.value_seq();
        let ghost c = self@;
        let n = self.state_bits.len();
        if n == 0 {
            assert(c.state_bits.dom() =~= Set::<Seq<char>>::empty());
            return None;
        }
        let mut best: usize = 0;
        let mut best_d: u64 = count_ones(*self.state_bits.value_at(0) ^ target_bits);
        let mut i: usize = 1;
        while i < n
            invariant
                ks == self.state_bits.key_seq(),
                vs == self.state_bits.value_seq(),
                n == ks.len(),
                n == vs.len(),
                1 <= i <= n,
                best < i,
                best_d == mask_distance(vs[best as int], target_bits),
                forall|j: int|
                    0 <= j < i && j != best ==> {
                        let dj = mask_distance(#[trigger] vs[j], target_bits);
                        best_d < dj || (best_d == dj && best < j)
                    },
            decreases n - i,
        {
            let d = count_ones(*self.state_bits.value_at(i) ^ target_bits);
            if d < best_d {
                best = i;
                best_d = d;
            }
            i = i + 1;
        }
        let name = self.state_bits.key_at(best).clone();
        let bits = *self.state_bits.value_at(best);
        proof {
            self.state_bits.lemma_lookup_at(best as int);
            assert forall|other: Seq<char>| #[trigger] c.state_bits.contains_key(other) && other
                != name@ implies closer(c, target_bits, name@, other) by {
                assert(ks.to_set().contains(other));
                let j = choose|j: int| 0 <= j < ks.len() && ks[j] == other;
                self.state_bits.lemma_lookup_at(j);
                assert(j != best);
                if best < j {
                    assert(str_lt(ks[best as int], ks[j]));
                }
            }
        }
        Some((name, bits))
    }
}

impl PluginConfig {
    /// The layout used while a tab reports none of its own.
    pub fn default_layout(&self) -> (r: Option<&String>)
        ensures
            opt_chars_ref(r) == self@.default_layout,
    {
        match &self.default_layout {
            Some(s) => Some(s),
            None => None,
        }
    }

    /// The pane focused when no newly shown feature takes the focus.
    pub fn default_focus_pane(&self) -> (r: Option<&String>)
        ensures
            opt_chars_ref(r) == self@.default_focus_pane,
    {
        match &self.default_focus_pane {
            Some(s) => Some(s),
            None => None,
        }
    }

    /// Each feature with the index of its bit.
    pub fn feature_to_bit(&self) -> (r: &StrMap<u8>)
        ensures
            r.key_seq() == self@.features,
            r.value_seq().len() == self@.features.len(),
            forall|i: int| 0 <= i < r.value_seq().len() ==> #[trigger] r.value_seq()[i] == i,
    {
        proof {
            use_type_invariant(self);
        }
        &self.feature_to_bit
    }

    /// Each layout with its bitmask.
    pub fn state_bits(&self) -> (r: &StrMap<u64>)
        ensures
            r.key_seq() == self@.layout_names,
            r.as_map() == self@.state_bits,
    {
        &self.state_bits
    }

    /// Each bitmask with its layout.
    pub fn bits_to_state(&self) -> (r: &BTreeMap<u64, String>)
        ensures
            names_by_bits(*r) == self@.bits_to_state,
    {
        &self.bits_to_state
    }

    /// Each feature with the title of its pane.
    pub fn feature_to_pane(&self) -> (r: &StrMap<String>)
        ensures
            r.key_seq() == self@.pane_features,
            r.view_map() == self@.feature_to_pane,
    {
        &self.feature_to_pane
    }

    /// The layout whose bitmask is `bits`.
    pub fn layout_for_bits(&self, bits: u64) -> (r: Option<&String>)
        ensures
            match r {
                Some(name) => self@.bits_to_state.contains_key(bits) && self@.bits_to_state[bits]
                    == name@,
                None => !self@.bits_to_state.contains_key(bits),
            },
    {
        name_of_bits(&self.bits_to_state, bits)
    }

    /// Every configuration is well formed: callers learn here what the
    /// configuration's invariant keeps.
    pub fn lemma_wf(&self)
        ensures
            config_wf(self@),
    {
        proof {
            use_type_invariant(self);
        }
    }

    /// The triggers.
    pub fn commands(&self) -> (r: &CommandRegistry)
        ensures
            forall|k: Seq<char>| #[trigger] r.entry(k) is Some == self@.commands.contains_key(k),
            forall|k: Seq<char>| #[trigger] r.entry(k) is Some ==> r.entry(k)->0@ == self@.commands[k],
    {
        &self.commands
    }
}

/// Only one layout is closest to a bitmask.
pub proof fn lemma_closest_unique(c: ConfigView, target: u64, a: Seq<char>, b: Seq<char>)
    requires
        is_closest(c, target, a),
        is_closest(c, target, b),
    ensures
        a == b,
{
    if a != b {
        assert(closer(c, target, a, b));
        assert(closer(c, target, b, a));
        if mask_distance(c.state_bits[a], target) == mask_distance(c.state_bits[b], target) {
            crate::text::lemma_str_lt_asymmetric(a, b);
        }
    }
}

impl Clone for PluginConfig {
    /// The same configuration.
    fn clone(&self) -> (r: Self)
        ensures
            r@ == self@,
    {
        proof {
            use_type_invariant(self);
        }
        let feature_to_bit = self.feature_to_bit.clone();
        let state_bits = self.state_bits.clone();
        let feature_to_pane = self.feature_to_pane.clone();
        let bits_to_state = self.bits_to_state.clone();
        proof {
            assert(feature_to_bit.value_seq() =~= self.feature_to_bit.value_seq()) by {
                assert forall|i: int| 0 <= i < feature_to_bit.value_seq().len() implies feature_to_bit.value_seq()[i] == self.feature_to_bit.value_seq()[i] by {
                    assert(cloned(self.feature_to_bit.value_seq()[i], feature_to_bit.value_seq()[i]));
                }
            }
            assert(state_bits.value_seq() =~= self.state_bits.value_seq()) by {
                assert forall|i: int| 0 <= i < state_bits.value_seq().len() implies state_bits.value_seq()[i] == self.state_bits.value_seq()[i] by {
                    assert(cloned(self.state_bits.value_seq()[i], state_bits.value_seq()[i]));
                }
            }
            assert(state_bits.as_map() =~= self.state_bits.as_map());
            assert(names_by_bits(bits_to_state) =~= names_by_bits(self.bits_to_state));
            assert(feature_to_pane.view_map() =~= self.feature_to_pane.view_map()) by {
                assert forall|k: Seq<char>| #[trigger] feature_to_pane.lookup(k) is Some ==> feature_to_pane.lookup(k)->0@ == self.feature_to_pane.lookup(k)->0@ by {
                    feature_to_pane.key_seq().index_of_first_ensures(k);
                    feature_to_pane.lemma_lengths();
                    self.feature_to_pane.lemma_lengths();
                    if feature_to_pane.lookup(k) is Some {
                        let i = feature_to_pane.key_seq().index_of_first(k)->0;
                        assert(cloned(self.feature_to_pane.value_seq()[i], feature_to_pane.value_seq()[i]));
                    }
                }
            }
        }
        let commands = self.commands.clone();
        let r = PluginConfig {
            default_layout: match &self.default_layout {
                Some(s) => Some(s.clone()),
                None => None,
            },
            default_focus_pane: match &self.default_focus_pane {
                Some(s) => Some(s.clone()),
                None => None,
            },
            feature_to_bit,
            feature_to_pane,
            state_bits,
            bits_to_state,
            commands,
        };
        assert(r@.commands =~= self@.commands);
        r
    }
}

/// The characters of an optional borrowed string.
pub open spec fn opt_chars_ref(o: Option<&String>) -> Option<Seq<char>> {
    match o {
        Some(s) => Some(s@),
        None => None,
    }
}


proof fn lemma_scan_layouts(keys: Seq<Seq<char>>, values: Seq<Seq<char>>, acc: ScanView)
    requires
        scan_entries(keys, values, acc) is Ok,
    ensures
        scan_entries(keys, values, acc)->Ok_0.layouts == acc.layouts + layout_entries(keys, values),
    decreases keys.len(),
{
    reveal_strlit("default_layout");
    reveal_strlit("default_focus_pane");
    reveal_strlit("layout.");
    if keys.len() == 0 || values.len() == 0 {
        assert(acc.layouts + Seq::<(Seq<char>, Map<Seq<char>, bool>)>::empty() =~= acc.layouts);
    } else {
        let a = scan_entry(acc, keys[0], values[0])->Ok_0;
        lemma_scan_layouts(keys.drop_first(), values.drop_first(), a);
        let rest = layout_entries(keys.drop_first(), values.drop_first());
        if keys[0] == "default_layout"@ || keys[0] == "default_focus_pane"@ {
            assert(keys[0][0] != "layout."@[0]);
            assert(keys[0].take(7)[0] == keys[0][0]);
            assert(!has_prefix(keys[0], "layout."@));
        }
        if has_prefix(keys[0], "layout."@) {
            assert(a.layouts + rest =~= acc.layouts + layout_entries(keys, values));
        }
    }
}

proof fn lemma_first_missing_none(order: Seq<Seq<char>>, en: Map<Seq<char>, bool>)
    requires
        first_missing(order, en) is None,
    ensures
        forall|i: int| 0 <= i < order.len() ==> en.contains_key(#[trigger] order[i]),
    decreases order.len(),
{
    if order.len() > 0 {
        lemma_first_missing_none(order.drop_first(), en);
        assert forall|i: int| 0 <= i < order.len() implies en.contains_key(#[trigger] order[i]) by {
            if i > 0 {
                assert(order[i] == order.drop_first()[i - 1]);
            }
        }
    }
}

proof fn lemma_build_layouts_masks(
    order: Seq<Seq<char>>,
    lay: Seq<(Seq<char>, Map<Seq<char>, bool>)>,
    sb: Map<Seq<char>, u64>,
    bs: Map<u64, Seq<char>>,
)
    requires
        build_layouts(order, lay, sb, bs) is Ok,
        sorted_keys(layout_names_of(lay)),
    ensures
        ({
            let sb2 = build_layouts(order, lay, sb, bs)->Ok_0.0;
            &&& sb2.dom() == sb.dom().union(layout_names_of(lay).to_set())
            &&& forall|k: Seq<char>| #[trigger] sb.contains_key(k) && !layout_names_of(lay).contains(k) ==> sb2[k] == sb[k]
            &&& forall|i: int| #![trigger lay[i]] 0 <= i < lay.len() ==> first_missing(order, lay[i].1) is None
                && sb2[lay[i].0] == layout_mask(order, lay[i].1, order.len())
        }),
    decreases lay.len(),
{
    let names = layout_names_of(lay);
    if lay.len() == 0 {
        assert(names.to_set() =~= Set::<Seq<char>>::empty());
        assert(sb.dom().union(names.to_set()) =~= sb.dom());
    } else {
        let name = lay[0].0;
        let enabled = lay[0].1;
        let bits = layout_mask(order, enabled, order.len());
        let rest = lay.drop_first();
        let sb1 = sb.insert(name, bits);
        let bs1 = bs.insert(bits, name);
        assert(first_missing(order, enabled) is None && !bs.contains_key(bits));
        assert(layout_names_of(rest) =~= names.drop_first());
        lemma_build_layouts_masks(order, rest, sb1, bs1);
        let sb2 = build_layouts(order, lay, sb, bs)->Ok_0.0;
        assert(sb2 == build_layouts(order, rest, sb1, bs1)->Ok_0.0);
        assert(names[0] == name);
        assert(!layout_names_of(rest).contains(name)) by {
            if layout_names_of(rest).contains(name) {
                let j = choose|j: int| 0 <= j < layout_names_of(rest).len() && layout_names_of(rest)[j] == name;
                assert(names[j + 1] == name);
                assert(str_lt(names[0], names[j + 1]));
                crate::text::lemma_str_lt_irreflexive(name);
            }
        }
        assert(names.to_set() =~= layout_names_of(rest).to_set().insert(name)) by {
            assert(names =~= seq![name] + layout_names_of(rest));
            assert forall|x: Seq<char>| names.to_set().contains(x) <==> layout_names_of(rest).to_set().insert(name).contains(x) by {
                if names.to_set().contains(x) {
                    let j = choose|j: int| 0 <= j < names.len() && names[j] == x;
                    if j > 0 {
                        assert(layout_names_of(rest)[j - 1] == x);
                    }
                }
                if layout_names_of(rest).to_set().contains(x) {
                    let j = choose|j: int| 0 <= j < layout_names_of(rest).len() && layout_names_of(rest)[j] == x;
                    assert(names[j + 1] == x);
                }
            }
        }
        assert(sb2.dom() =~= sb.dom().union(names.to_set()));
        assert forall|k: Seq<char>| #[trigger] sb.contains_key(k) && !names.contains(k) implies sb2[k] == sb[k] by {
            assert(names[0] == name);
            assert(k != name);
            if layout_names_of(rest).contains(k) {
                let j = choose|j: int| 0 <= j < layout_names_of(rest).len() && layout_names_of(rest)[j] == k;
                assert(names[j + 1] == k);
            }
            assert(sb1.contains_key(k));
            assert(sb1[k] == sb[k]);
        }
        assert(sb1.contains_key(name));
        assert forall|i: int| #![trigger lay[i]] 0 <= i < lay.len() implies first_missing(order, lay[i].1) is None
            && sb2[lay[i].0] == layout_mask(order, lay[i].1, order.len()) by {
            if i > 0 {
                assert(lay[i] == rest[i - 1]);
            } else {
                assert(sb2[name] == sb1[name]);
            }
        }
    }
}

/// In an ascending sequence, the keys before position `i` are exactly those that
/// order before its key.
proof fn lemma_rank_is_index(q: Seq<Seq<char>>, i: int)
    requires
        sorted_keys(q),
        0 <= i < q.len(),
    ensures
        rank(q.to_set(), q[i]) == i,
{
    let f = q[i];
    let lower = q.to_set().filter(|g: Seq<char>| str_lt(g, f));
    assert(lower =~= q.take(i).to_set()) by {
        assert forall|g: Seq<char>| lower.contains(g) <==> q.take(i).to_set().contains(g) by {
            if lower.contains(g) {
                let j = choose|j: int| 0 <= j < q.len() && q[j] == g;
                if j >= i {
                    if j == i {
                        crate::text::lemma_str_lt_irreflexive(f);
                    } else {
                        crate::text::lemma_str_lt_asymmetric(q[i], q[j]);
                    }
                }
                assert(q.take(i)[j] == g);
            }
            if q.take(i).to_set().contains(g) {
                let j = choose|j: int| 0 <= j < q.take(i).len() && q.take(i)[j] == g;
                assert(q[j] == g);
            }
        }
    }
    crate::name_map::lemma_sorted_no_duplicates(q);
    assert(q.take(i).no_duplicates());
    q.take(i).unique_seq_to_set();
}

} // verus!
