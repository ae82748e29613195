pub mod text;
pub mod name_map;
pub mod commands;
pub mod config;
pub mod state;
pub mod laws;

pub use commands::{CommandKind, CommandRegistry, CommandSpec, CommandTarget};
pub use config::{parse_layout_line, BitResolver, PluginConfig, StateResolver};
pub use name_map::StrMap;
pub use state::{
    Notice, PaneEntry, PaneRef, Plan, PluginAction, State, StateError, TabManager, TabState,
    TabUpdate,
};
