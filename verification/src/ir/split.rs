//! Split maps: for each variable that an instruction touches, the dimension
//! along which it is split (`-1` stands for replication).
use vstd::prelude::*;
use crate::ir::strmap::{StrMap, pairs_view, smap};

verus! {

/// A split map: each variable name has one dimension.
pub type SplitMap = StrMap<i8>;

/// The views of a list of split maps.
pub open spec fn views(v: Seq<SplitMap>) -> Seq<Map<Seq<char>, i8>> {
    v.map_values(|m: SplitMap| m@)
}

/// Appends to `r` the split map that inserting the pairs of `kv` in order
/// builds.
pub fn add_keys(r: &mut Vec<SplitMap>, kv: Vec<(String, i8)>)
    ensures
        views(final(r)@) == views(old(r)@).push(smap(pairs_view(kv@))),
{
    let m = SplitMap::from_pairs(kv);
    let ghost before = r@;
    r.push(m);
    assert(views(r@) =~= views(before).push(smap(pairs_view(kv@))));
}

} // verus!
