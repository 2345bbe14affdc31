use vstd::prelude::*;
use vstd::string::StringExecFns;

verus! {

/// Joins two path fragments with a single `/` between them.
pub fn join_path(p1: &str, p2: &str) -> (r: String)
    ensures
        r@ == p1@ + "/"@ + p2@,
{
    let mut r = p1.to_owned();
    r.append("/");
    r.append(p2);
    r
}

} // verus!
