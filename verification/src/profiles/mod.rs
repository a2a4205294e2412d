//! Mapping profiles: which RomM platform goes into which directory.
pub mod builtins;

pub use builtins::get_builtin;

use vstd::prelude::*;

verus! {

/// A mapping profile: its name, an optional directory every platform
/// directory goes under, and the directory name of each platform slug.
pub struct Profile {
    pub name: String,
    pub prefix: Option<String>,
    pub platforms: Vec<(String, String)>,
}

} // verus!
