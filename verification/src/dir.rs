//! The directory layout a fresh project is given.

use vstd::prelude::*;

verus! {

use vstd::string::StringExecFns;

/// The four directories a project starts with, in the order they are
/// created.
pub fn directories() -> (r: Vec<String>)
    ensures
        r@.len() == 4,
        r@[0]@ == "templates/"@,
        r@[1]@ == "modules/"@,
        r@[2]@ == "content/"@,
        r@[3]@ == "static/"@,
{
    let mut dirs: Vec<String> = Vec::new();
    dirs.push(String::from_str("templates/"));
    dirs.push(String::from_str("modules/"));
    dirs.push(String::from_str("content/"));
    dirs.push(String::from_str("static/"));
    dirs
}

} // verus!
