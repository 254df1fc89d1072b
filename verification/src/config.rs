//! Settings read from `~/.config/glare/config.toml` (the reading happens
//! outside the library).
use vstd::prelude::*;
use vstd::string::StringExecFns;

verus! {

broadcast use vstd::string::group_string_axioms;

/// The program's settings.
#[derive(Debug, Clone)]
pub struct Config {
    pub aur_helper: String,
    pub default_filter: String,
    pub default_sort: String,
}

/// The AUR helper used when none is configured.
pub fn default_aur_helper() -> (s: String)
    ensures
        s@ == "paru"@,
{
    String::from_str("paru")
}

/// The filter shown when none is configured.
pub fn default_filter() -> (s: String)
    ensures
        s@ == "all"@,
{
    String::from_str("all")
}

/// The sort order used when none is configured.
pub fn default_sort() -> (s: String)
    ensures
        s@ == "name"@,
{
    String::from_str("name")
}

impl Default for Config {
    fn default() -> (c: Self)
        ensures
            c.aur_helper@ == "paru"@,
            c.default_filter@ == "all"@,
            c.default_sort@ == "name"@,
    {
        Config {
            aur_helper: default_aur_helper(),
            default_filter: default_filter(),
            default_sort: default_sort(),
        }
    }
}

} // verus!
