//! The engine's configuration values, as plain data. Loading them from a
//! project metadata file is the surrounding program's business; the engine
//! only reads the fields.

use vstd::prelude::*;

use crate::text::clone_strings;

verus! {

/// Settings handed to the engine by the orchestrating layer.
pub struct Config {
    pub ignored_attributes: Option<Vec<String>>,
    pub check_private: Option<bool>,
    pub src_dir: Option<String>,
    pub spec_dir: Option<String>,
    pub log_file: Option<String>,
}

impl Config {
    /// The attribute names to ignore while comparing: the configured list,
    /// or `doc` alone when none was configured.
    pub fn get_ignored_attributes(&self) -> (r: Vec<String>)
        ensures
            match self.ignored_attributes {
                Some(v) => r.deep_view() == v.deep_view(),
                None => r.deep_view() =~= seq!["doc"@],
            },
    {
        match &self.ignored_attributes {
            Some(v) => clone_strings(v),
            None => {
                let mut r: Vec<String> = Vec::new();
                r.push(String::from_str("doc"));
                r
            },
        }
    }
}

} // verus!
