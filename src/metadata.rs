//! Per-package settings read from the package manifest.
use vstd::prelude::*;
use crate::names::strictly_sorted;

verus! {

/// The `cargo2buck2` section of a package manifest, e.g.
///
/// ```toml
/// [package.metadata.cargo2buck2]
/// read_env_vars_from_build_script = ["MY_VAR"]
/// ```
///
/// It is read but not yet used when rules are made.
pub struct CustomMetadata {
    /// Environment variables to read from the output of the build script,
    /// sorted and distinct (see `wf`).
    pub read_env_vars_from_build_script: Vec<String>,
}

impl CustomMetadata {
    /// The variable names are sorted and distinct, as in a set.
    pub open spec fn wf(&self) -> bool {
        strictly_sorted(self.read_env_vars_from_build_script.deep_view())
    }
}

impl Default for CustomMetadata {
    fn default() -> (r: CustomMetadata)
        ensures
            r.read_env_vars_from_build_script@.len() == 0,
            r.wf(),
    {
        let r = CustomMetadata { read_env_vars_from_build_script: Vec::new() };
        assert(r.read_env_vars_from_build_script.deep_view().len() == 0);
        r
    }
}

} // verus!
