//! Reading, editing and writing the OpenCode configuration file, a JSON file
//! with comments.
//!
//! The functions here take the content of the file and give the content to
//! write. Reading and writing the file itself is left to the caller.

pub mod comments;
pub mod config;
pub mod error;
pub mod json;
pub mod merge;
pub mod paths;
pub mod plugins;
pub mod sections;
pub mod text;
pub mod typed;

pub use comments::strip_jsonc_comments;
pub use config::read_opencode_config;
pub use config::write_opencode_config;
pub use error::AppError;
pub use merge::merge_json_objects;
pub use merge::preserve_comments_in_json;
pub use merge::replace_json_value;
pub use merge::replace_member_text;
pub use merge::smart_json_merge;
pub use paths::get_opencode_config_path;
pub use paths::get_opencode_dir;
pub use paths::get_opencode_env_path;
pub use plugins::add_plugin;
pub use plugins::remove_plugin_by_prefix;
pub use sections::get_mcp_servers;
pub use sections::get_providers;
pub use sections::remove_mcp_server;
pub use sections::remove_provider;
pub use sections::set_mcp_server;
pub use sections::set_provider;
pub use sections::set_typed_provider;
pub use typed::get_typed_providers;
