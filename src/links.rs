//! Where a listed file is served from.

use vstd::prelude::*;

verus! {

/// The path under which the media file `name` is served: `/assets/` followed
/// by the name.
pub fn asset_href(name: &str) -> (r: String)
    ensures
        r@ == "/assets/"@ + name@,
{
    let mut r = String::from_str("/assets/");
    r.append(name);
    r
}

} // verus!
