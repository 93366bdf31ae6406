//! What can go wrong.

use vstd::prelude::*;

verus! {

/// Why the configuration could not be read or written.
#[derive(Debug)]
pub enum AppError {
    /// The configuration file is not JSON, even without its comments.
    Json { source: serde_json::Error },
    /// A value could not be turned into JSON.
    JsonSerialize { source: serde_json::Error },
    /// The configuration is not what it should be.
    Config(String),
}

} // verus!
