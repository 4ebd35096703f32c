use vstd::prelude::*;
use std::path::PathBuf;

verus! {

#[verifier::external_type_specification]
#[verifier::external_body]
pub struct ExPathBuf(std::path::PathBuf);

/// Options of one run: where to read, where to write, and how much to report.
/// A missing path stands for the standard stream.
pub struct Config {
    pub input: Option<PathBuf>,
    pub output: Option<PathBuf>,
    pub verbose: bool,
    pub debug: bool,
}

impl Config {
    pub fn debug(&self) -> (r: bool)
        ensures
            r == self.debug,
    {
        self.debug
    }

    pub fn verbose(&self) -> (r: bool)
        ensures
            r == self.verbose,
    {
        self.verbose
    }
}

/// What to do with the input.
pub enum Commands {
    Encrypt(Config),
    Decrypt(Config),
}

impl Commands {
    /// Whether this is a decrypt operation.
    pub fn is_decrypt(&self) -> (r: bool)
        ensures
            r == (self is Decrypt),
    {
        match self {
            Commands::Encrypt(_) => false,
            Commands::Decrypt(_) => true,
        }
    }
}

/// The whole command line.
pub struct BinlockArgs {
    pub verbose: bool,
    pub debug: bool,
    pub command: Commands,
}

} // verus!
