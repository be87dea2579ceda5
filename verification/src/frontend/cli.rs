//! The arguments of the program and the translation services it can use.

use std::path::PathBuf;
use vstd::prelude::*;

verus! {

/// A path of the file system, as `std` holds it. Nothing is known of what
/// is inside.
#[verifier::external_type_specification]
#[verifier::external_body]
pub struct ExPathBuf(PathBuf);

/// The version of the Google Cloud Translate interface.
#[derive(Debug)]
pub enum ApiVersion {
    V2,
    V3 { project_id: String },
}

/// A translation service and what is needed to reach it.
#[derive(Debug)]
pub enum Provider {
    GoogleTranslate { version: ApiVersion, credentials: String },
    Llm { endpoint: String, api_key: String },
}

/// The arguments of the program.
#[derive(Debug)]
pub struct Args {
    /// The key for the Google interface.
    pub api_key: Option<String>,
    /// The path of the configuration file.
    pub config: Option<PathBuf>,
    /// The file to convert.
    pub input: String,
    /// The file to write.
    pub output: String,
    /// The language to translate into.
    pub to: String,
    /// Whether to report every step.
    pub verbose: bool,
}

} // verus!
