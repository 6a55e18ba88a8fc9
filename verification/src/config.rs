//! Configuration records. Parsing of JSON or TOML documents and the
//! compilation of glob patterns stay outside the engine; the engine receives
//! plain values.

use vstd::prelude::*;
use vstd::string::StringExecFns;

verus! {

/// Scan constraints as read from a configuration document.
#[derive(Debug)]
pub struct Config {
    pub root_paths: Vec<String>,
    pub min_file_size: Option<u64>,
    pub max_file_size: Option<u64>,
    pub follow_symlinks: bool,
    pub exclude_patterns: Vec<String>,
    pub max_depth: Option<usize>,
    pub skip_hidden: bool,
}

/// Whether a file of the given size passes the configured size bounds.
pub open spec fn size_within_bounds_spec(size: u64, min: Option<u64>, max: Option<u64>) -> bool {
    &&& (min matches Some(m) ==> size >= m)
    &&& (max matches Some(m) ==> size <= m)
}

impl Config {
    /// Whether a file of the given size passes the configured minimum and
    /// maximum size, each checked only when set.
    pub fn size_within_bounds(&self, size: u64) -> (r: bool)
        ensures
            r == size_within_bounds_spec(size, self.min_file_size, self.max_file_size),
    {
        let min_ok = match self.min_file_size {
            Some(m) => size >= m,
            None => true,
        };
        let max_ok = match self.max_file_size {
            Some(m) => size <= m,
            None => true,
        };
        min_ok && max_ok
    }
}

/// Settings of the duplicate finder.
#[derive(Debug)]
pub struct DuplicateConfig {
    pub enabled_plugins: Vec<String>,
    pub case_sensitive: bool,
    pub min_length: usize,
}

impl Clone for DuplicateConfig {
    fn clone(&self) -> (r: Self)
        ensures
            r.enabled_plugins@ == self.enabled_plugins@,
            r.case_sensitive == self.case_sensitive,
            r.min_length == self.min_length,
    {
        let mut plugins: Vec<String> = Vec::new();
        let mut i: usize = 0;
        while i < self.enabled_plugins.len()
            invariant
                i <= self.enabled_plugins@.len(),
                plugins@ =~= self.enabled_plugins@.take(i as int),
            decreases self.enabled_plugins@.len() - i,
        {
            plugins.push(self.enabled_plugins[i].clone());
            proof {
                assert(plugins@ =~= self.enabled_plugins@.take(i + 1));
            }
            i = i + 1;
        }
        proof {
            assert(self.enabled_plugins@.take(self.enabled_plugins@.len() as int)
                =~= self.enabled_plugins@);
        }
        DuplicateConfig {
            enabled_plugins: plugins,
            case_sensitive: self.case_sensitive,
            min_length: self.min_length,
        }
    }
}

impl Default for DuplicateConfig {
    /// The stock configuration: the `uppercase` and `reverse` plugins,
    /// case-sensitive matching, minimum length one.
    fn default() -> (r: Self)
        ensures
            r.enabled_plugins@.len() == 2,
            r.enabled_plugins@[0]@ == "uppercase"@,
            r.enabled_plugins@[1]@ == "reverse"@,
            r.case_sensitive == true,
            r.min_length == 1,
    {
        let mut plugins: Vec<String> = Vec::new();
        plugins.push(String::from_str("uppercase"));
        plugins.push(String::from_str("reverse"));
        DuplicateConfig { enabled_plugins: plugins, case_sensitive: true, min_length: 1 }
    }
}

} // verus!
