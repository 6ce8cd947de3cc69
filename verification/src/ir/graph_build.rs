//! Building a split graph from the derivations of a module: the cache of
//! links per instruction, and the state that each visited instruction
//! leaves behind.
use vstd::prelude::*;
use crate::ir::derive::table_has;
use crate::ir::graph::{
    EdgeEntry, GView, Link, NodeType, SplitGraph, add_links, edge_entries, entries_view, fits, gview, gwf,
    ids_view, le, lemma_link_all_mono, link_all, map_pairs, maps_links,
};
use crate::ir::hlo_ast::{HLOFunction, InstPos};
use crate::ir::split::SplitMap;

verus! {

/// The links of one instruction, kept under its position.
pub type CacheEntry = (InstPos, Vec<EdgeEntry>);

/// The links that the cache `c` keeps for `p`: those of its last entry
/// for `p`, if any.
pub open spec fn cache_get(c: Seq<CacheEntry>, p: InstPos) -> Option<Seq<Link>>
    decreases c.len(),
{
    if c.len() == 0 {
        None
    } else if c.last().0 == p {
        Some(entries_view(c.last().1@))
    } else {
        cache_get(c.drop_last(), p)
    }
}

/// The cache as a map from positions to links.
pub open spec fn cache_view(c: Seq<CacheEntry>) -> Map<InstPos, Seq<Link>> {
    Map::new(|p: InstPos| cache_get(c, p) is Some, |p: InstPos| cache_get(c, p)->Some_0)
}

/// The links of the instruction at `(f, j)` that its derivation in the
/// table `t` gives.
pub open spec fn derived_links(t: Seq<Vec<Vec<SplitMap>>>, f: int, j: int) -> Seq<Link> {
    maps_links(map_pairs(t[f]@[j]@), (f as usize, j as usize), t[f]@[j]@.len() as int)
}

/// What building a graph keeps: the graph, the links cached per
/// instruction, and the fusion instructions met.
pub struct BuildState {
    pub g: GView,
    pub c: Map<InstPos, Seq<Link>>,
    pub fu: Seq<InstPos>,
}

/// The links that visiting `(f, j)` adds: the cached ones, or else those
/// of its derivation.
pub open spec fn inst_links(c: Map<InstPos, Seq<Link>>, t: Seq<Vec<Vec<SplitMap>>>, f: int, j: int) -> Seq<Link> {
    let p = (f as usize, j as usize);
    if c.contains_key(p) {
        c[p]
    } else {
        derived_links(t, f, j)
    }
}

/// The graph after visiting `(f, j)`.
pub open spec fn visit_g(g: GView, c: Map<InstPos, Seq<Link>>, t: Seq<Vec<Vec<SplitMap>>>, f: int, j: int) -> GView {
    let ls = inst_links(c, t, f, j);
    link_all(g, ls, ls.len() as int)
}

/// The cache after visiting `(f, j)`: the derived links are kept when the
/// cache had none.
pub open spec fn visit_c(c: Map<InstPos, Seq<Link>>, t: Seq<Vec<Vec<SplitMap>>>, f: int, j: int) -> Map<InstPos, Seq<Link>> {
    let p = (f as usize, j as usize);
    if c.contains_key(p) {
        c
    } else {
        c.insert(p, derived_links(t, f, j))
    }
}

/// The fusion instructions after visiting `(f, j)`: a fusion that the cache
/// did not hold yet is recorded.
pub open spec fn visit_fu(fu: Seq<InstPos>, c: Map<InstPos, Seq<Link>>, fs: Seq<HLOFunction>, f: int, j: int) -> Seq<InstPos> {
    let p = (f as usize, j as usize);
    if !c.contains_key(p) && fs[f].body@[j].function.name@ == "fusion"@ {
        fu.push(p)
    } else {
        fu
    }
}

/// The state after visiting the instruction at `(f, j)`.
pub open spec fn visit(s: BuildState, fs: Seq<HLOFunction>, t: Seq<Vec<Vec<SplitMap>>>, f: int, j: int) -> BuildState {
    BuildState { g: visit_g(s.g, s.c, t, f, j), c: visit_c(s.c, t, f, j), fu: visit_fu(s.fu, s.c, fs, f, j) }
}

/// The state after visiting the first `n` instructions of function `f`.
pub open spec fn fn_visit(s: BuildState, fs: Seq<HLOFunction>, t: Seq<Vec<Vec<SplitMap>>>, f: int, n: int) -> BuildState
    decreases n,
{
    if n <= 0 {
        s
    } else {
        visit(fn_visit(s, fs, t, f, n - 1), fs, t, f, n - 1)
    }
}

/// The state after visiting every instruction of the first `m` functions.
pub open spec fn all_visit(s: BuildState, fs: Seq<HLOFunction>, t: Seq<Vec<Vec<SplitMap>>>, m: int) -> BuildState
    decreases m,
{
    if m <= 0 {
        s
    } else {
        let h = all_visit(s, fs, t, m - 1);
        fn_visit(h, fs, t, m - 1, fs[m - 1].body@.len() as int)
    }
}

/// The state after visiting every instruction of those of the first `m`
/// functions that are named `name`.
pub open spec fn named_visit(s: BuildState, fs: Seq<HLOFunction>, t: Seq<Vec<Vec<SplitMap>>>, name: Seq<char>, m: int) -> BuildState
    decreases m,
{
    if m <= 0 {
        s
    } else {
        let h = named_visit(s, fs, t, name, m - 1);
        if fs[m - 1].name@ == name {
            fn_visit(h, fs, t, m - 1, fs[m - 1].body@.len() as int)
        } else {
            h
        }
    }
}

/// The instruction at `(f, j)` can be visited: the cache holds it, or the
/// table holds its derivation.
pub open spec fn ready(c: Map<InstPos, Seq<Link>>, t: Seq<Vec<Vec<SplitMap>>>, f: int, j: int) -> bool {
    c.contains_key((f as usize, j as usize)) || table_has(t, f, j)
}

/// Every instruction of function `f` can be visited.
pub open spec fn fn_ready(c: Map<InstPos, Seq<Link>>, fs: Seq<HLOFunction>, t: Seq<Vec<Vec<SplitMap>>>, f: int) -> bool {
    forall|j: int| 0 <= j < fs[f].body@.len() ==> ready(c, t, f, j)
}

/// `b` has every position of `a` and a graph at least as large.
pub open spec fn grows(a: BuildState, b: BuildState) -> bool {
    &&& le(a.g, b.g)
    &&& forall|p: InstPos| a.c.contains_key(p) ==> #[trigger] b.c.contains_key(p)
}

impl BuildState {
    /// The same state with the fusion instructions `fu`.
    pub open spec fn with_fu(self, fu: Seq<InstPos>) -> BuildState {
        BuildState { fu, ..self }
    }
}

/// The graph and the cache that visiting a function leaves do not depend on
/// the fusion instructions recorded before.
pub proof fn lemma_fn_visit_fu(s: BuildState, fu: Seq<InstPos>, fs: Seq<HLOFunction>, t: Seq<Vec<Vec<SplitMap>>>, f: int, n: int)
    ensures
        fn_visit(s.with_fu(fu), fs, t, f, n).g == fn_visit(s, fs, t, f, n).g,
        fn_visit(s.with_fu(fu), fs, t, f, n).c == fn_visit(s, fs, t, f, n).c,
    decreases n,
{
    if n > 0 {
        lemma_fn_visit_fu(s, fu, fs, t, f, n - 1);
    }
}

/// A visit only adds.
pub proof fn lemma_visit_grows(s: BuildState, fs: Seq<HLOFunction>, t: Seq<Vec<Vec<SplitMap>>>, f: int, j: int)
    ensures
        grows(s, visit(s, fs, t, f, j)),
{
    let ls = inst_links(s.c, t, f, j);
    lemma_link_all_mono(s.g, ls, 0, ls.len() as int);
}

/// Visiting more instructions of a function only adds.
pub proof fn lemma_fn_visit_mono(s: BuildState, fs: Seq<HLOFunction>, t: Seq<Vec<Vec<SplitMap>>>, f: int, a: int, b: int)
    requires
        0 <= a <= b,
    ensures
        grows(fn_visit(s, fs, t, f, a), fn_visit(s, fs, t, f, b)),
    decreases b,
{
    if a < b {
        lemma_fn_visit_mono(s, fs, t, f, a, b - 1);
        lemma_visit_grows(fn_visit(s, fs, t, f, b - 1), fs, t, f, b - 1);
    }
}

/// Visiting more functions only adds.
pub proof fn lemma_all_visit_mono(s: BuildState, fs: Seq<HLOFunction>, t: Seq<Vec<Vec<SplitMap>>>, a: int, b: int)
    requires
        0 <= a <= b,
    ensures
        grows(all_visit(s, fs, t, a), all_visit(s, fs, t, b)),
    decreases b,
{
    if a < b {
        lemma_all_visit_mono(s, fs, t, a, b - 1);
        let h = all_visit(s, fs, t, b - 1);
        lemma_fn_visit_mono(h, fs, t, b - 1, 0, fs[b - 1].body@.len() as int);
    }
}

/// Visiting more named functions only adds.
pub proof fn lemma_named_visit_mono(s: BuildState, fs: Seq<HLOFunction>, t: Seq<Vec<Vec<SplitMap>>>, name: Seq<char>, a: int, b: int)
    requires
        0 <= a <= b,
    ensures
        grows(named_visit(s, fs, t, name, a), named_visit(s, fs, t, name, b)),
    decreases b,
{
    if a < b {
        lemma_named_visit_mono(s, fs, t, name, a, b - 1);
        let h = named_visit(s, fs, t, name, b - 1);
        lemma_fn_visit_mono(h, fs, t, b - 1, 0, fs[b - 1].body@.len() as int);
    }
}

/// The index of the last entry of `c` for `p`, if any.
pub fn cache_find(c: &Vec<CacheEntry>, p: InstPos) -> (r: Option<usize>)
    ensures
        match r {
            Some(k) => k < c@.len() && cache_get(c@, p) == Some(entries_view(c@[k as int].1@)),
            None => cache_get(c@, p) is None,
        },
{
    let mut i: usize = c.len();
    assert(c@.take(i as int) =~= c@);
    while i > 0
        invariant
            i <= c@.len(),
            cache_get(c@, p) == cache_get(c@.take(i as int), p),
        decreases i,
    {
        assert(c@.take(i as int).drop_last() =~= c@.take(i - 1));
        if c[i - 1].0.0 == p.0 && c[i - 1].0.1 == p.1 {
            return Some(i - 1);
        }
        i = i - 1;
    }
    assert(c@.take(0) =~= Seq::<CacheEntry>::empty());
    None
}

/// Keeping an entry for `e.0` sets its links.
pub proof fn lemma_cache_push(c: Seq<CacheEntry>, e: CacheEntry)
    ensures
        cache_view(c.push(e)) == cache_view(c).insert(e.0, entries_view(e.1@)),
{
    assert(c.push(e).drop_last() =~= c);
    assert(cache_view(c.push(e)) =~= cache_view(c).insert(e.0, entries_view(e.1@)));
}

/// Keeps the links of the derivation `res` under `inst`.
pub fn cache_insert(c: &mut Vec<CacheEntry>, inst: InstPos, res: &Vec<SplitMap>)
    ensures
        cache_view(final(c)@) == cache_view(old(c)@).insert(inst, maps_links(map_pairs(res@), inst, res@.len() as int)),
{
    let es = edge_entries(inst, res);
    let ghost before = c@;
    c.push((inst, es));
    proof {
        assert(c@ == before.push((inst, es)));
        lemma_cache_push(before, (inst, es));
    }
}

/// Adds to the graph the links that the cache keeps for `p`.
pub fn add_cached_links(g: &mut SplitGraph, ids: &mut Vec<(NodeType, usize)>, c: &Vec<CacheEntry>, p: InstPos)
    requires
        gwf(gview(*old(g)), ids_view(old(ids)@)),
        cache_view(c@).contains_key(p),
        fits(link_all(gview(*old(g)), cache_view(c@)[p], cache_view(c@)[p].len() as int)),
    ensures
        gview(*final(g)) == link_all(gview(*old(g)), cache_view(c@)[p], cache_view(c@)[p].len() as int),
        gwf(gview(*final(g)), ids_view(final(ids)@)),
{
    match cache_find(c, p) {
        Some(k) => {
            add_links(g, ids, &c[k].1);
        },
        None => {
            assert(false);
        },
    }
}

} // verus!
