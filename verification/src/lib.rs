//! The logic of warden, a config-driven terminal multiplexer: resolving and
//! reconciling its configuration, planning windows and tabs, and keeping the
//! state of the terminals behind them.

pub mod birth;
pub mod change_laws;
pub mod cli;
pub mod colour;
pub mod command_laws;
pub mod commands;
pub mod config_laws;
pub mod ffi;
pub mod fmt;
pub mod input;
pub mod lifecycle;
pub mod load;
pub mod login;
pub mod manager;
pub mod manager_laws;
pub mod menu;
pub mod model;
pub mod nesting;
pub mod notify;
pub mod pane_laws;
pub mod path_laws;
pub mod paths;
pub mod plan;
pub mod plan_laws;
pub mod popout;
pub mod presence;
pub mod probe;
pub mod probe_laws;
pub mod raw;
pub mod reconcile;
pub mod reconcile_laws;
pub mod registry;
pub mod registry_laws;
pub mod reload_laws;
pub mod resolve;
pub mod resolve_laws;
pub mod scanner;
pub mod scanner_laws;
pub mod screen_laws;
pub mod session;
pub mod sound_laws;
pub mod surface;
pub mod text;
pub mod watch;
pub mod window_laws;

pub use colour::{Colour, ColourError};
pub use fmt::format_str;
pub use load::{load, load_with, LoadError, Loaded};
pub use login::config_path;
pub use model::{Config, Density, Root, Tab, TabDigitKeys, Warning, Window};
pub use reconcile::{reconcile, Reconciliation, TabMeta, WindowUpdate};
pub use resolve::ResolveError;
pub use watch::Watcher;
