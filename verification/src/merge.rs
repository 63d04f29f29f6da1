use vstd::prelude::*;

verus! {

/// The staging directory of a merge: the database directory's own name
/// with a merge suffix, beside it. The path is taken as given, without a
/// trailing separator.
pub fn get_merge_path(dir_path: &str) -> (r: String)
    ensures
        r@ == dir_path@ + "-merge"@,
{
    let mut s = dir_path.to_owned();
    s.append("-merge");
    s
}

} // verus!
