# zjide-manager

A Zellij plugin that manages IDE-like layouts through feature toggles. Each
configured layout (`layout.<name> "sidebar=true, terminal=false"`) is a bitmask
over the features; triggers (`trigger.<name> "toggle sidebar"`, `show`, `hide`,
`state <layout>`) change the active tab's bitmask, and the plugin walks to the
matching swap layout (or the closest one) the shorter way round with
`next_swap_layout` / `previous_swap_layout`, then moves the focus to a newly shown
pane (terminal first, then sidebar, then other features) or to the default focus
pane (`default_focus_pane`, else `pane_name.editor`). Pipe messages `focus-pane`
and `focus-or-toggle-pane` take a pane title as payload.

Layout:

- `src/` — the library, verified with Verus:
  - `text.rs`: whitespace, trimming, string order, decimal digits;
  - `name_map.rs`: `StrMap`, a string-keyed map kept in key order;
  - `commands.rs`: trigger definitions and the trigger registry;
  - `config.rs`: layout lines, the configuration parser, bit and layout resolution;
  - `state.rs`: tab and pane tracking, and what each request asks of the host
    (a `Plan`: `PluginAction`s, with `Notice`s for the log);
  - `laws.rs`: properties that span several functions.
- `app/` — the plugin itself: it reads events from Zellij, hands them to the
  library, and performs the returned actions.
- `tests/` — tests of the library on concrete values.
