pub mod config;
pub mod plugin;
pub mod registry;
mod text;
pub mod version;

pub use config::{is_confirmation, Config, ConfigError, Step};
pub use plugin::{EntryKind, Plugin, PluginError, TagPattern};
pub use registry::PluginSet;
pub use version::{Version, VersionError};
