use vstd::prelude::*;

use crate::name_map::StrMap;
use crate::text::{is_ws, range_eq, to_chars};

verus! {

/// Represents the type of command to execute
#[derive(Debug, Clone, Copy, PartialEq, Eq, Structural)]
pub enum CommandKind {
    Toggle,
    Show,
    Hide,
    SetState,
}

/// Represents the target of a command
#[derive(Debug)]
pub enum CommandTarget {
    Feature(String),
    State(String),
}

impl PartialEq for CommandTarget {
    fn eq(&self, other: &Self) -> (r: bool) {
        match (self, other) {
            (CommandTarget::Feature(a), CommandTarget::Feature(b)) => crate::text::str_eq(a.as_str(), b.as_str()),
            (CommandTarget::State(a), CommandTarget::State(b)) => crate::text::str_eq(a.as_str(), b.as_str()),
            _ => false,
        }
    }
}

impl vstd::std_specs::cmp::PartialEqSpecImpl for CommandTarget {
    open spec fn obeys_eq_spec() -> bool {
        true
    }

    open spec fn eq_spec(&self, other: &CommandTarget) -> bool {
        self@ == other@
    }
}

impl Eq for CommandTarget {
}

impl Clone for CommandTarget {
    fn clone(&self) -> (r: Self)
        ensures
            r@ == self@,
    {
        match self {
            CommandTarget::Feature(f) => CommandTarget::Feature(f.clone()),
            CommandTarget::State(s) => CommandTarget::State(s.clone()),
        }
    }
}

/// What a `CommandTarget` names, as characters.
pub enum TargetView {
    Feature(Seq<char>),
    State(Seq<char>),
}

impl View for CommandTarget {
    type V = TargetView;

    open spec fn view(&self) -> TargetView {
        match self {
            CommandTarget::Feature(s) => TargetView::Feature(s@),
            CommandTarget::State(s) => TargetView::State(s@),
        }
    }
}

/// Represents a parsed command specification
#[derive(Debug)]
pub struct CommandSpec {
    pub kind: CommandKind,
    pub target: CommandTarget,
}

impl Clone for CommandSpec {
    fn clone(&self) -> (r: Self)
        ensures
            r@ == self@,
    {
        CommandSpec { kind: self.kind, target: self.target.clone() }
    }
}

/// What a `CommandSpec` says.
pub struct CommandView {
    pub kind: CommandKind,
    pub target: TargetView,
}

impl View for CommandSpec {
    type V = CommandView;

    open spec fn view(&self) -> CommandView {
        CommandView { kind: self.kind, target: self.target@ }
    }
}

/// The characters that separate the words of a trigger definition: whitespace,
/// and ':' and '=', which read as spaces.
pub open spec fn is_word_sep(c: char) -> bool {
    is_ws(c) || c == ':' || c == '='
}

/// How many characters at the start of `s` belong to a word.
pub open spec fn run_len(s: Seq<char>) -> nat
    decreases s.len(),
{
    if s.len() == 0 || is_word_sep(s[0]) {
        0
    } else {
        1 + run_len(s.drop_first())
    }
}

pub proof fn lemma_run_len_bound(s: Seq<char>)
    ensures
        run_len(s) <= s.len(),
        s.len() > 0 && !is_word_sep(s[0]) ==> run_len(s) >= 1,
    decreases s.len(),
{
    if s.len() > 0 && !is_word_sep(s[0]) {
        lemma_run_len_bound(s.drop_first());
    }
}

/// The words of `s`, in order: the maximal runs of characters that are neither
/// whitespace nor ':' nor '=' (what `split_whitespace` yields after ':' and '=' are
/// replaced by spaces).
pub open spec fn words(s: Seq<char>) -> Seq<Seq<char>>
    decreases s.len(),
{
    if s.len() == 0 {
        seq![]
    } else if is_word_sep(s[0]) {
        words(s.drop_first())
    } else {
        proof {
            lemma_run_len_bound(s);
        }
        seq![s.take(run_len(s) as int)] + words(s.skip(run_len(s) as int))
    }
}

/// `c` with 'A'..='Z' mapped to 'a'..='z', as `char::to_ascii_lowercase` does.
pub open spec fn ascii_lower(c: char) -> char {
    if 'A' <= c <= 'Z' {
        "abcdefghijklmnopqrstuvwxyz"@[(c as int) - ('A' as int)]
    } else {
        c
    }
}

/// `s` with every ASCII capital letter lowered, as `str::to_ascii_lowercase` does.
pub open spec fn ascii_lowercase(s: Seq<char>) -> Seq<char> {
    s.map_values(|c: char| ascii_lower(c))
}

/// The command that a trigger definition holds, or the message it is refused with.
pub open spec fn spec_parse_command(raw: Seq<char>) -> Result<CommandView, Seq<char>> {
    let ws = words(raw);
    if ws.len() == 0 {
        Err("empty trigger definition"@)
    } else {
        let head = ascii_lowercase(ws[0]);
        if head == "toggle"@ {
            if ws.len() >= 2 {
                Ok(CommandView { kind: CommandKind::Toggle, target: TargetView::Feature(ws[1]) })
            } else {
                Err("toggle command missing feature"@)
            }
        } else if head == "show"@ || head == "on"@ {
            if ws.len() >= 2 {
                Ok(CommandView { kind: CommandKind::Show, target: TargetView::Feature(ws[1]) })
            } else {
                Err("show command missing feature"@)
            }
        } else if head == "hide"@ || head == "off"@ {
            if ws.len() >= 2 {
                Ok(CommandView { kind: CommandKind::Hide, target: TargetView::Feature(ws[1]) })
            } else {
                Err("hide command missing feature"@)
            }
        } else if head == "state"@ || head == "set_state"@ || head == "layout"@ {
            if ws.len() >= 2 {
                Ok(CommandView { kind: CommandKind::SetState, target: TargetView::State(ws[1]) })
            } else {
                Err("set_state command missing layout name"@)
            }
        } else {
            Ok(CommandView { kind: CommandKind::Toggle, target: TargetView::Feature(ws[0]) })
        }
    }
}

/// Whether `c` separates words.
fn is_word_separator(c: char) -> (r: bool)
    ensures
        r == is_word_sep(c),
{
    crate::text::is_whitespace(c) || c == ':' || c == '='
}

/// The bounds of the first word of `v[from..]`, if it has one.
pub fn next_word(v: &Vec<char>, from: usize) -> (r: Option<(usize, usize)>)
    requires
        from <= v@.len(),
    ensures
        match r {
            None => words(v@.skip(from as int)).len() == 0,
            Some((a, b)) => {
                &&& from <= a < b <= v@.len()
                &&& words(v@.skip(from as int)) == seq![v@.subrange(a as int, b as int)] + words(
                    v@.skip(b as int),
                )
            },
        },
{
    let mut a = from;
    while a < v.len() && is_word_separator(v[a])
        invariant
            from <= a <= v@.len(),
            words(v@.skip(from as int)) == words(v@.skip(a as int)),
        decreases v@.len() - a,
    {
        assert(v@.skip(a as int).drop_first() =~= v@.skip(a + 1));
        a = a + 1;
    }
    if a == v.len() {
        assert(v@.skip(a as int) =~= Seq::<char>::empty());
        return None;
    }
    let mut b = a + 1;
    assert(v@.skip(a as int).drop_first() =~= v@.skip(a + 1));
    while b < v.len() && !is_word_separator(v[b])
        invariant
            a < b <= v@.len(),
            !is_word_sep(v@[a as int]),
            run_len(v@.skip(a as int)) == (b - a) + run_len(v@.skip(b as int)),
        decreases v@.len() - b,
    {
        assert(v@.skip(b as int).drop_first() =~= v@.skip(b + 1));
        b = b + 1;
    }
    assert(run_len(v@.skip(b as int)) == 0);
    assert(v@.skip(a as int).take((b - a) as int) =~= v@.subrange(a as int, b as int));
    assert(v@.skip(a as int).skip((b - a) as int) =~= v@.skip(b as int));
    Some((a, b))
}

/// `c` lowered as `ascii_lower` says.
fn lower_char(c: char, table: &Vec<char>) -> (r: char)
    requires
        table@ == "abcdefghijklmnopqrstuvwxyz"@,
    ensures
        r == ascii_lower(c),
{
    proof {
        reveal_strlit("abcdefghijklmnopqrstuvwxyz");
    }
    if 'A' <= c && c <= 'Z' {
        let i = (c as u32 - 'A' as u32) as usize;
        table[i]
    } else {
        c
    }
}

/// `v[a..b]` with its ASCII capitals lowered.
fn lowercase_range(v: &Vec<char>, a: usize, b: usize) -> (r: Vec<char>)
    requires
        a <= b <= v@.len(),
    ensures
        r@ == ascii_lowercase(v@.subrange(a as int, b as int)),
{
    let table = to_chars("abcdefghijklmnopqrstuvwxyz");
    let mut out: Vec<char> = Vec::new();
    let mut i = a;
    while i < b
        invariant
            a <= i <= b <= v@.len(),
            table@ == "abcdefghijklmnopqrstuvwxyz"@,
            out@ =~= ascii_lowercase(v@.subrange(a as int, i as int)),
        decreases b - i,
    {
        let c = lower_char(v[i], &table);
        out.push(c);
        i = i + 1;
    }
    out
}

/// Whether `w` equals `kw`.
fn is_keyword(w: &Vec<char>, kw: &str) -> (r: bool)
    ensures
        r == (w@ == kw@),
{
    let k = to_chars(kw);
    assert(w@.subrange(0, w@.len() as int) =~= w@);
    range_eq(w, 0, w.len(), &k)
}

impl CommandSpec {
    /// Parse a command specification from a raw string
    pub fn parse(raw: &str) -> (r: Result<Self, String>)
        ensures
            match (r, spec_parse_command(raw@)) {
                (Ok(c), Ok(m)) => c@ == m,
                (Err(e), Err(m)) => e@ == m,
                _ => false,
            },
    {
        let v = to_chars(raw);
        assert(v@.skip(0) =~= v@);
        let first = next_word(&v, 0);
        let (a, b) = match first {
            None => {
                return Err("empty trigger definition".to_owned());
            },
            Some(w) => w,
        };
        let ghost ws = words(v@);
        assert(ws[0] == v@.subrange(a as int, b as int));
        let second = next_word(&v, b);
        let tail: Option<String> = match second {
            None => {
                assert(ws.len() == 1);
                None
            },
            Some((c, d)) => {
                assert(ws[1] == v@.subrange(c as int, d as int));
                Some(raw.substring_char(c, d).to_owned())
            },
        };
        let head = lowercase_range(&v, a, b);
        if is_keyword(&head, "toggle") {
            match tail {
                Some(t) => Ok(CommandSpec { kind: CommandKind::Toggle, target: CommandTarget::Feature(t) }),
                None => Err("toggle command missing feature".to_owned()),
            }
        } else if is_keyword(&head, "show") || is_keyword(&head, "on") {
            match tail {
                Some(t) => Ok(CommandSpec { kind: CommandKind::Show, target: CommandTarget::Feature(t) }),
                None => Err("show command missing feature".to_owned()),
            }
        } else if is_keyword(&head, "hide") || is_keyword(&head, "off") {
            match tail {
                Some(t) => Ok(CommandSpec { kind: CommandKind::Hide, target: CommandTarget::Feature(t) }),
                None => Err("hide command missing feature".to_owned()),
            }
        } else if is_keyword(&head, "state") || is_keyword(&head, "set_state") || is_keyword(
            &head,
            "layout",
        ) {
            match tail {
                Some(t) => Ok(CommandSpec { kind: CommandKind::SetState, target: CommandTarget::State(t) }),
                None => Err("set_state command missing layout name".to_owned()),
            }
        } else {
            let name = raw.substring_char(a, b).to_owned();
            Ok(CommandSpec { kind: CommandKind::Toggle, target: CommandTarget::Feature(name) })
        }
    }
}


/// Manages all available commands
#[derive(Debug)]
pub struct CommandRegistry {
    commands: StrMap<CommandSpec>,
}

impl CommandRegistry {
    /// The command registered under `name`.
    pub closed spec fn entry(&self, name: Seq<char>) -> Option<CommandSpec> {
        self.commands.lookup(name)
    }

    pub fn new(commands: StrMap<CommandSpec>) -> (r: Self)
        ensures
            forall|name: Seq<char>| #[trigger] r.entry(name) == commands.lookup(name),
    {
        CommandRegistry { commands }
    }

    pub fn get(&self, name: &str) -> (r: Option<&CommandSpec>)
        ensures
            match r {
                Some(c) => self.entry(name@) == Some(*c),
                None => self.entry(name@) is None,
            },
    {
        self.commands.get(name)
    }

    pub fn insert(&mut self, name: String, command: CommandSpec)
        ensures
            forall|q: Seq<char>| #[trigger] final(self).entry(q) == if q == name@ {
                Some(command)
            } else {
                old(self).entry(q)
            },
    {
        self.commands.insert(name, command);
    }
}

impl Clone for CommandRegistry {
    /// The same triggers, each cloned.
    fn clone(&self) -> (r: Self)
        ensures
            forall|name: Seq<char>| (#[trigger] r.entry(name) is Some) == (self.entry(name) is Some),
            forall|name: Seq<char>| #[trigger] r.entry(name) is Some ==> r.entry(name)->0@ == self.entry(name)->0@,
    {
        let commands = self.commands.clone();
        proof {
            assert forall|name: Seq<char>| #[trigger] commands.lookup(name) is Some ==> commands.lookup(name)->0@ == self.commands.lookup(name)->0@ by {
                commands.key_seq().index_of_first_ensures(name);
                commands.lemma_lengths();
                self.commands.lemma_lengths();
                if commands.lookup(name) is Some {
                    let i = commands.key_seq().index_of_first(name)->0;
                    assert(cloned(self.commands.value_seq()[i], commands.value_seq()[i]));
                }
            }
        }
        CommandRegistry { commands }
    }
}

impl Default for CommandRegistry {
    fn default() -> (r: Self)
        ensures
            forall|name: Seq<char>| #[trigger] r.entry(name) is None,
    {
        CommandRegistry { commands: StrMap::new() }
    }
}

} // verus!
