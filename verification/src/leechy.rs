//! The search-engine directory's configuration shapes. Parsing the
//! embedded configuration file is the surrounding program's job; these
//! types carry what it parses.

use vstd::prelude::*;

verus! {

/// One engine: its name, its search-URL template, and the result
/// selector to run on its pages.
#[derive(Debug, Clone)]
pub struct EngineConf {
    pub name: String,
    pub search: String,
    pub xpath: String,
}

/// The configured engines, in the order the configuration lists them.
#[derive(Debug, Clone)]
pub struct Config {
    pub engines: Vec<EngineConf>,
}

impl Config {
    /// A configuration holding the given engines.
    pub fn new(engines: Vec<EngineConf>) -> (r: Self)
        ensures
            r.engines@ == engines@,
    {
        Config { engines }
    }
}

/// A result link handed back by an engine.
#[derive(Debug, Clone)]
pub struct Url(pub String);

impl Url {
    /// The link as text.
    pub fn as_str(&self) -> (r: &str)
        ensures
            r@ == self.0@,
    {
        self.0.as_str()
    }
}

} // verus!
