//! The configuration of the program, as its file holds it.

use vstd::prelude::*;
use vstd::string::*;
use crate::text::{trim, trimmed};

verus! {

/// What the configuration file holds where none was there before.
pub open spec fn default_config() -> Seq<char> {
    "default_ziggurat_config\n"@
}

/// The configuration of the program.
#[derive(Debug)]
pub struct Config {
    pub app_config: String,
}

impl Config {
    /// The configuration that a file is begun with.
    pub fn with_default() -> (config: Self)
        ensures
            config.app_config@ == default_config(),
    {
        Config { app_config: "default_ziggurat_config\n".to_owned() }
    }

    /// The configuration that a file holds.
    pub fn from_contents(contents: String) -> (config: Self)
        ensures
            config.app_config@ == contents@,
    {
        Config { app_config: contents }
    }

    /// Takes a line of input as the configuration, without the white space
    /// around it.
    pub fn take_line(&mut self, line: &str)
        ensures
            final(self).app_config@ == trimmed(line@),
    {
        self.app_config = trim(line);
    }
}

} // verus!
