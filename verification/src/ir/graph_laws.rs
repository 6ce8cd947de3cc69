//! What every graph build guarantees: edges only join splits that a
//! derivation relates, every related pair is joined, and a second build
//! gives the same graph.
use vstd::prelude::*;
use crate::ir::derive::table_has;
use crate::ir::graph::{
    GView, Link, connects, comb_from, edge_at, fits, lemma_comb_from, lemma_edge_at, lemma_link_all_mono,
    lemma_node_at, link, link_all, map_pairs, maps_links, node_at, pair_links, with_node,
};
use crate::ir::graph_build::{
    BuildState, all_visit, derived_links, fn_ready, fn_visit, inst_links, lemma_fn_visit_mono, lemma_visit_grows,
    named_visit, ready, visit,
};
use crate::ir::hlo_ast::{HLOFunction, InstPos};
use crate::ir::split::SplitMap;

verus! {

/// Every function.
pub open spec fn every_fn() -> spec_fn(HLOFunction) -> bool {
    |f: HLOFunction| true
}

/// The functions named `name`.
pub open spec fn fn_named(name: Seq<char>) -> spec_fn(HLOFunction) -> bool {
    |f: HLOFunction| f.name@ == name
}

/// The state after visiting every instruction of those of the first `m`
/// functions that `sel` selects.
pub open spec fn sel_visit(s: BuildState, fs: Seq<HLOFunction>, t: Seq<Vec<Vec<SplitMap>>>, sel: spec_fn(HLOFunction) -> bool, m: int) -> BuildState
    decreases m,
{
    if m <= 0 {
        s
    } else {
        let h = sel_visit(s, fs, t, sel, m - 1);
        if sel(fs[m - 1]) {
            fn_visit(h, fs, t, m - 1, fs[m - 1].body@.len() as int)
        } else {
            h
        }
    }
}

/// Building every function is building the functions that `every_fn`
/// selects.
proof fn lemma_all_is_sel(s: BuildState, fs: Seq<HLOFunction>, t: Seq<Vec<Vec<SplitMap>>>, m: int)
    ensures
        all_visit(s, fs, t, m) == sel_visit(s, fs, t, every_fn(), m),
    decreases m,
{
    if m > 0 {
        lemma_all_is_sel(s, fs, t, m - 1);
        assert(every_fn()(fs[m - 1]));
    }
}

/// Building the functions named `name` is building the functions that
/// `fn_named(name)` selects.
proof fn lemma_named_is_sel(s: BuildState, fs: Seq<HLOFunction>, t: Seq<Vec<Vec<SplitMap>>>, name: Seq<char>, m: int)
    ensures
        named_visit(s, fs, t, name, m) == sel_visit(s, fs, t, fn_named(name), m),
    decreases m,
{
    if m > 0 {
        lemma_named_is_sel(s, fs, t, name, m - 1);
        assert(fn_named(name)(fs[m - 1]) == (fs[m - 1].name@ == name));
    }
}

/// Visiting more selected functions only adds.
proof fn lemma_sel_visit_mono(s: BuildState, fs: Seq<HLOFunction>, t: Seq<Vec<Vec<SplitMap>>>, sel: spec_fn(HLOFunction) -> bool, a: int, b: int)
    requires
        0 <= a <= b,
    ensures
        crate::ir::graph_build::grows(sel_visit(s, fs, t, sel, a), sel_visit(s, fs, t, sel, b)),
    decreases b,
{
    if a < b {
        lemma_sel_visit_mono(s, fs, t, sel, a, b - 1);
        let h = sel_visit(s, fs, t, sel, b - 1);
        lemma_fn_visit_mono(h, fs, t, b - 1, 0, fs[b - 1].body@.len() as int);
    }
}

} // verus!

verus! {

/// The cache `c` keeps what a build from the cache `c0` would: every
/// position of `c0` with its links there, and any other position with the
/// links of its derivation.
pub open spec fn agrees(c: Map<InstPos, Seq<Link>>, c0: Map<InstPos, Seq<Link>>, t: Seq<Vec<Vec<SplitMap>>>) -> bool {
    &&& forall|p: InstPos| c0.contains_key(p) ==> #[trigger] c.contains_key(p)
    &&& forall|p: InstPos| #[trigger] c.contains_key(p) ==> c[p] == inst_links(c0, t, p.0 as int, p.1 as int)
}

/// Every function of `fs`, and every instruction of each, has a `usize`
/// index.
pub open spec fn indexable(fs: Seq<HLOFunction>) -> bool {
    &&& fs.len() <= usize::MAX
    &&& forall|f: int| 0 <= f < fs.len() ==> #[trigger] fs[f].body@.len() <= usize::MAX
}

/// Two states with the same graph and caches that agree with `c0` add the
/// same links on a visit, and keep agreeing.
proof fn lemma_visit_agrees(a: BuildState, b: BuildState, c0: Map<InstPos, Seq<Link>>, fs: Seq<HLOFunction>, t: Seq<Vec<Vec<SplitMap>>>, f: int, j: int)
    requires
        0 <= f <= usize::MAX,
        0 <= j <= usize::MAX,
        a.g == b.g,
        agrees(a.c, c0, t),
        agrees(b.c, c0, t),
    ensures
        visit(a, fs, t, f, j).g == visit(b, fs, t, f, j).g,
        agrees(visit(a, fs, t, f, j).c, c0, t),
        agrees(visit(b, fs, t, f, j).c, c0, t),
{
    let p = (f as usize, j as usize);
    assert(p.0 as int == f && p.1 as int == j);
    if a.c.contains_key(p) {
        assert(a.c[p] == inst_links(c0, t, f, j));
    } else {
        assert(!c0.contains_key(p));
    }
    if b.c.contains_key(p) {
        assert(b.c[p] == inst_links(c0, t, f, j));
    } else {
        assert(!c0.contains_key(p));
    }
    assert(inst_links(a.c, t, f, j) == inst_links(b.c, t, f, j));
}

/// Agreement over the first `n` instructions of function `f`.
proof fn lemma_fn_visit_agrees(a: BuildState, b: BuildState, c0: Map<InstPos, Seq<Link>>, fs: Seq<HLOFunction>, t: Seq<Vec<Vec<SplitMap>>>, f: int, n: int)
    requires
        0 <= f <= usize::MAX,
        n <= usize::MAX,
        a.g == b.g,
        agrees(a.c, c0, t),
        agrees(b.c, c0, t),
    ensures
        fn_visit(a, fs, t, f, n).g == fn_visit(b, fs, t, f, n).g,
        agrees(fn_visit(a, fs, t, f, n).c, c0, t),
        agrees(fn_visit(b, fs, t, f, n).c, c0, t),
    decreases n,
{
    if n > 0 {
        lemma_fn_visit_agrees(a, b, c0, fs, t, f, n - 1);
        lemma_visit_agrees(fn_visit(a, fs, t, f, n - 1), fn_visit(b, fs, t, f, n - 1), c0, fs, t, f, n - 1);
    }
}

/// Agreement over every instruction of the selected ones of the first `m`
/// functions.
proof fn lemma_sel_visit_agrees(a: BuildState, b: BuildState, c0: Map<InstPos, Seq<Link>>, fs: Seq<HLOFunction>, t: Seq<Vec<Vec<SplitMap>>>, sel: spec_fn(HLOFunction) -> bool, m: int)
    requires
        indexable(fs),
        m <= fs.len(),
        a.g == b.g,
        agrees(a.c, c0, t),
        agrees(b.c, c0, t),
    ensures
        sel_visit(a, fs, t, sel, m).g == sel_visit(b, fs, t, sel, m).g,
        agrees(sel_visit(a, fs, t, sel, m).c, c0, t),
        agrees(sel_visit(b, fs, t, sel, m).c, c0, t),
    decreases m,
{
    if m > 0 {
        lemma_sel_visit_agrees(a, b, c0, fs, t, sel, m - 1);
        assert(fs[m - 1].body@.len() <= usize::MAX);
        if sel(fs[m - 1]) {
            lemma_fn_visit_agrees(
                sel_visit(a, fs, t, sel, m - 1),
                sel_visit(b, fs, t, sel, m - 1),
                c0,
                fs,
                t,
                m - 1,
                fs[m - 1].body@.len() as int,
            );
        }
    }
}

/// After visiting the first `n` instructions of function `f`, the cache
/// holds each of them.
proof fn lemma_fn_visit_holds(s: BuildState, fs: Seq<HLOFunction>, t: Seq<Vec<Vec<SplitMap>>>, f: int, n: int)
    ensures
        forall|j: int| 0 <= j < n ==> #[trigger] fn_visit(s, fs, t, f, n).c.contains_key((f as usize, j as usize)),
    decreases n,
{
    if n > 0 {
        lemma_fn_visit_holds(s, fs, t, f, n - 1);
        lemma_visit_grows(fn_visit(s, fs, t, f, n - 1), fs, t, f, n - 1);
        assert forall|j: int| 0 <= j < n implies #[trigger] fn_visit(s, fs, t, f, n).c.contains_key((f as usize, j as usize)) by {
            if j < n - 1 {
                assert(fn_visit(s, fs, t, f, n - 1).c.contains_key((f as usize, j as usize)));
            }
        }
    }
}

/// After visiting the selected ones of the first `m` functions, the cache
/// holds each of their instructions.
proof fn lemma_sel_visit_holds(s: BuildState, fs: Seq<HLOFunction>, t: Seq<Vec<Vec<SplitMap>>>, sel: spec_fn(HLOFunction) -> bool, m: int)
    ensures
        forall|f: int, j: int|
            0 <= f < m && sel(fs[f]) && 0 <= j < fs[f].body@.len() ==> #[trigger] sel_visit(s, fs, t, sel, m).c.contains_key((f as usize, j as usize)),
    decreases m,
{
    if m > 0 {
        let h = sel_visit(s, fs, t, sel, m - 1);
        let n = fs[m - 1].body@.len() as int;
        lemma_sel_visit_holds(s, fs, t, sel, m - 1);
        lemma_fn_visit_mono(h, fs, t, m - 1, 0, n);
        lemma_fn_visit_holds(h, fs, t, m - 1, n);
        assert forall|f: int, j: int| 0 <= f < m && sel(fs[f]) && 0 <= j < fs[f].body@.len() implies #[trigger] sel_visit(s, fs, t, sel, m).c.contains_key((f as usize, j as usize)) by {
            if f < m - 1 {
                assert(h.c.contains_key((f as usize, j as usize)));
            }
        }
    }
}

/// Visiting instructions that the cache holds leaves the cache and the
/// fusion instructions as they are.
proof fn lemma_fn_visit_cached(s: BuildState, fs: Seq<HLOFunction>, t: Seq<Vec<Vec<SplitMap>>>, f: int, n: int)
    requires
        forall|j: int| 0 <= j < n ==> #[trigger] s.c.contains_key((f as usize, j as usize)),
    ensures
        fn_visit(s, fs, t, f, n).c == s.c,
        fn_visit(s, fs, t, f, n).fu == s.fu,
    decreases n,
{
    if n > 0 {
        lemma_fn_visit_cached(s, fs, t, f, n - 1);
        assert(s.c.contains_key((f as usize, (n - 1) as usize)));
    }
}

/// Visiting selected functions whose instructions the cache holds leaves
/// the cache and the fusion instructions as they are.
proof fn lemma_sel_visit_cached(s: BuildState, fs: Seq<HLOFunction>, t: Seq<Vec<Vec<SplitMap>>>, sel: spec_fn(HLOFunction) -> bool, m: int)
    requires
        forall|f: int, j: int| 0 <= f < m && sel(fs[f]) && 0 <= j < fs[f].body@.len() ==> #[trigger] s.c.contains_key((f as usize, j as usize)),
    ensures
        sel_visit(s, fs, t, sel, m).c == s.c,
        sel_visit(s, fs, t, sel, m).fu == s.fu,
    decreases m,
{
    if m > 0 {
        lemma_sel_visit_cached(s, fs, t, sel, m - 1);
        let h = sel_visit(s, fs, t, sel, m - 1);
        if sel(fs[m - 1]) {
            assert forall|j: int| 0 <= j < fs[m - 1].body@.len() implies #[trigger] h.c.contains_key(((m - 1) as usize, j as usize)) by {
                assert(s.c.contains_key(((m - 1) as usize, j as usize)));
            }
            lemma_fn_visit_cached(h, fs, t, m - 1, fs[m - 1].body@.len() as int);
        }
    }
}

/// Building the selected functions twice gives the same graph, the same
/// cache and the same fusion instructions.
proof fn lemma_sel_rebuild(c0: Map<InstPos, Seq<Link>>, fu: Seq<InstPos>, fs: Seq<HLOFunction>, t: Seq<Vec<Vec<SplitMap>>>, sel: spec_fn(HLOFunction) -> bool)
    requires
        indexable(fs),
    ensures
        ({
            let e = GView { nodes: Seq::empty(), edges: Seq::empty() };
            let s1 = sel_visit(BuildState { g: e, c: c0, fu }, fs, t, sel, fs.len() as int);
            let s2 = sel_visit(BuildState { g: e, c: s1.c, fu: s1.fu }, fs, t, sel, fs.len() as int);
            s2.g == s1.g && s2.c == s1.c && s2.fu == s1.fu
        }),
{
    let e = GView { nodes: Seq::empty(), edges: Seq::empty() };
    let s0 = BuildState { g: e, c: c0, fu };
    let m = fs.len() as int;
    let s1 = sel_visit(s0, fs, t, sel, m);
    let r = BuildState { g: e, c: s1.c, fu: s1.fu };
    lemma_agrees_self(c0, t);
    lemma_sel_visit_agrees(s0, s0, c0, fs, t, sel, m);
    lemma_sel_visit_agrees(s0, r, c0, fs, t, sel, m);
    lemma_sel_visit_holds(s0, fs, t, sel, m);
    lemma_sel_visit_cached(r, fs, t, sel, m);
}

/// A cache agrees with itself.
proof fn lemma_agrees_self(c0: Map<InstPos, Seq<Link>>, t: Seq<Vec<Vec<SplitMap>>>)
    ensures
        agrees(c0, c0, t),
{
    assert forall|p: InstPos| #[trigger] c0.contains_key(p) implies c0[p] == inst_links(c0, t, p.0 as int, p.1 as int) by {
        assert(p == (p.0 as int as usize, p.1 as int as usize));
    }
}

/// Building the graph of a module twice gives the same graph: the second
/// build finds every instruction in the cache that the first one left,
/// adds the same links in the same order, and changes neither the cache
/// nor the fusion instructions.
pub proof fn law_rebuild_same_graph(c0: Map<InstPos, Seq<Link>>, fu: Seq<InstPos>, fs: Seq<HLOFunction>, t: Seq<Vec<Vec<SplitMap>>>)
    requires
        indexable(fs),
    ensures
        ({
            let e = GView { nodes: Seq::empty(), edges: Seq::empty() };
            let s1 = all_visit(BuildState { g: e, c: c0, fu }, fs, t, fs.len() as int);
            let s2 = all_visit(BuildState { g: e, c: s1.c, fu: s1.fu }, fs, t, fs.len() as int);
            s2.g == s1.g && s2.c == s1.c && s2.fu == s1.fu
        }),
{
    let e = GView { nodes: Seq::empty(), edges: Seq::empty() };
    let s1 = all_visit(BuildState { g: e, c: c0, fu }, fs, t, fs.len() as int);
    lemma_all_is_sel(BuildState { g: e, c: c0, fu }, fs, t, fs.len() as int);
    lemma_all_is_sel(BuildState { g: e, c: s1.c, fu: s1.fu }, fs, t, fs.len() as int);
    lemma_sel_rebuild(c0, fu, fs, t, every_fn());
}

/// Building the graph of the functions named `name` twice gives the same
/// graph: the second build finds every instruction in the cache, adds the
/// same links in the same order, and changes neither the cache nor the
/// fusion instructions.
pub proof fn law_rebuild_same_function_graph(c0: Map<InstPos, Seq<Link>>, fu: Seq<InstPos>, fs: Seq<HLOFunction>, t: Seq<Vec<Vec<SplitMap>>>, name: Seq<char>)
    requires
        indexable(fs),
    ensures
        ({
            let e = GView { nodes: Seq::empty(), edges: Seq::empty() };
            let s1 = named_visit(BuildState { g: e, c: c0, fu }, fs, t, name, fs.len() as int);
            let s2 = named_visit(BuildState { g: e, c: s1.c, fu: s1.fu }, fs, t, name, fs.len() as int);
            s2.g == s1.g && s2.c == s1.c && s2.fu == s1.fu
        }),
{
    let e = GView { nodes: Seq::empty(), edges: Seq::empty() };
    let s1 = named_visit(BuildState { g: e, c: c0, fu }, fs, t, name, fs.len() as int);
    lemma_named_is_sel(BuildState { g: e, c: c0, fu }, fs, t, name, fs.len() as int);
    lemma_named_is_sel(BuildState { g: e, c: s1.c, fu: s1.fu }, fs, t, name, fs.len() as int);
    lemma_sel_rebuild(c0, fu, fs, t, fn_named(name));
}

} // verus!

verus! {

/// The label `w` names an instruction with a derivation in `t` and one of
/// its split maps, and that map holds both `a` and `b`.
pub open spec fn label_sound(t: Seq<Vec<Vec<SplitMap>>>, a: (Seq<char>, i8), b: (Seq<char>, i8), w: (InstPos, usize)) -> bool {
    let ms = map_pairs(t[w.0.0 as int]@[w.0.1 as int]@);
    &&& table_has(t, w.0.0 as int, w.0.1 as int)
    &&& w.1 < ms.len()
    &&& ms[w.1 as int].contains(a)
    &&& ms[w.1 as int].contains(b)
}

/// Every edge joins existing nodes, and each of its labels names a split
/// map that holds both of its ends.
pub open spec fn sound_graph(g: GView, t: Seq<Vec<Vec<SplitMap>>>) -> bool {
    forall|i: int|
        0 <= i < g.edges.len() ==> {
            &&& #[trigger] g.edges[i].0 < g.nodes.len()
            &&& g.edges[i].1 < g.nodes.len()
            &&& forall|q: int|
                0 <= q < g.edges[i].2.len() ==> label_sound(
                    t,
                    g.nodes[g.edges[i].0 as int],
                    g.nodes[g.edges[i].1 as int],
                    #[trigger] g.edges[i].2[q],
                )
        }
}

/// Each link of `ls` relates two pairs of the split map that its label
/// names.
pub open spec fn links_sound(ls: Seq<Link>, t: Seq<Vec<Vec<SplitMap>>>) -> bool {
    forall|i: int| 0 <= i < ls.len() ==> label_sound(t, #[trigger] ls[i].0, ls[i].1, (ls[i].2, ls[i].3))
}

/// Every derivation of the table has a `usize` number of split maps.
pub open spec fn table_indexable(t: Seq<Vec<Vec<SplitMap>>>) -> bool {
    forall|f: int, j: int| #[trigger] table_has(t, f, j) ==> t[f]@[j]@.len() <= usize::MAX
}

/// Every link that the cache keeps is sound.
pub open spec fn cache_sound(c: Map<InstPos, Seq<Link>>, t: Seq<Vec<Vec<SplitMap>>>) -> bool {
    forall|p: InstPos| #[trigger] c.contains_key(p) ==> links_sound(c[p], t)
}

/// A node that a graph holds is still held once another node is added.
proof fn lemma_with_node_has(g: GView, t: (Seq<char>, i8), u: (Seq<char>, i8))
    ensures
        node_at(with_node(g, u).nodes, u, 0) >= 0,
        node_at(g.nodes, t, 0) >= 0 ==> node_at(with_node(g, u).nodes, t, 0) >= 0,
        with_node(g, u).nodes.len() >= g.nodes.len(),
        forall|i: int| 0 <= i < g.nodes.len() ==> #[trigger] with_node(g, u).nodes[i] == g.nodes[i],
        with_node(g, u).edges == g.edges,
{
    lemma_node_at(g.nodes, t, 0);
    lemma_node_at(g.nodes, u, 0);
    let h = with_node(g, u);
    if node_at(g.nodes, u, 0) < 0 {
        assert(h.nodes[g.nodes.len() as int] == u);
    }
    lemma_node_at(h.nodes, u, 0);
    if node_at(g.nodes, t, 0) >= 0 {
        let i = node_at(g.nodes, t, 0);
        assert(h.nodes[i] == t);
    }
    lemma_node_at(h.nodes, t, 0);
}

/// Adding a sound link keeps a graph sound.
proof fn lemma_link_sound(g: GView, t: Seq<Vec<Vec<SplitMap>>>, ta: (Seq<char>, i8), tb: (Seq<char>, i8), w: (InstPos, usize))
    requires
        sound_graph(g, t),
        label_sound(t, ta, tb, w),
        g.nodes.len() + 2 <= usize::MAX,
    ensures
        sound_graph(link(g, ta, tb, w), t),
{
    let g1 = with_node(g, ta);
    let g2 = with_node(g1, tb);
    lemma_with_node_has(g, ta, ta);
    lemma_with_node_has(g1, ta, tb);
    let a = node_at(g2.nodes, ta, 0);
    let b = node_at(g2.nodes, tb, 0);
    lemma_node_at(g2.nodes, ta, 0);
    lemma_node_at(g2.nodes, tb, 0);
    assert(g2.nodes[a] == ta && g2.nodes[b] == tb);
    assert(sound_graph(g2, t)) by {
        assert forall|i: int| 0 <= i < g2.edges.len() implies {
            &&& #[trigger] g2.edges[i].0 < g2.nodes.len()
            &&& g2.edges[i].1 < g2.nodes.len()
            &&& forall|q: int|
                0 <= q < g2.edges[i].2.len() ==> label_sound(
                    t,
                    g2.nodes[g2.edges[i].0 as int],
                    g2.nodes[g2.edges[i].1 as int],
                    #[trigger] g2.edges[i].2[q],
                )
        } by {
            assert(g2.edges[i] == g.edges[i]);
            assert(g.edges[i].0 < g.nodes.len());
            assert(g2.nodes[g.edges[i].0 as int] == g1.nodes[g.edges[i].0 as int]);
            assert(g2.nodes[g.edges[i].1 as int] == g1.nodes[g.edges[i].1 as int]);
        }
    }
    let k = edge_at(g2.edges, a, b, 0);
    lemma_edge_at(g2.edges, a, b, 0);
    let r = link(g, ta, tb, w);
    assert forall|i: int| 0 <= i < r.edges.len() implies {
        &&& #[trigger] r.edges[i].0 < r.nodes.len()
        &&& r.edges[i].1 < r.nodes.len()
        &&& forall|q: int|
            0 <= q < r.edges[i].2.len() ==> label_sound(
                t,
                r.nodes[r.edges[i].0 as int],
                r.nodes[r.edges[i].1 as int],
                #[trigger] r.edges[i].2[q],
            )
    } by {
        assert(g2.nodes.len() <= g.nodes.len() + 2);
        assert(r.nodes == g2.nodes);
        if k < 0 {
            if i < g2.edges.len() {
                assert(r.edges[i] == g2.edges[i]);
            } else {
                assert(r.edges[i] == (a as usize, b as usize, seq![w]));
                assert(a as usize as int == a && b as usize as int == b);
                assert(r.nodes[r.edges[i].0 as int] == ta);
                assert(r.nodes[r.edges[i].1 as int] == tb);
                assert(r.edges[i].2.len() == 1 && r.edges[i].2[0] == w);
            }
        } else if i == k {
            assert(connects(g2.edges[k], a, b));
            assert(g2.edges[k].0 < g2.nodes.len());
            assert(r.edges[i] == (g2.edges[k].0, g2.edges[k].1, g2.edges[k].2.push(w)));
            assert forall|q: int| 0 <= q < r.edges[i].2.len() implies label_sound(
                t,
                r.nodes[r.edges[i].0 as int],
                r.nodes[r.edges[i].1 as int],
                #[trigger] r.edges[i].2[q],
            ) by {
                if q < g2.edges[k].2.len() {
                    assert(r.edges[i].2[q] == g2.edges[k].2[q]);
                }
            }
        } else {
            assert(r.edges[i] == g2.edges[i]);
        }
    }
}

/// Adding sound links keeps a graph sound.
proof fn lemma_link_all_sound(g: GView, t: Seq<Vec<Vec<SplitMap>>>, ls: Seq<Link>, n: int)
    requires
        sound_graph(g, t),
        links_sound(ls, t),
        0 <= n <= ls.len(),
        fits(link_all(g, ls, n)),
    ensures
        sound_graph(link_all(g, ls, n), t),
    decreases n,
{
    if n > 0 {
        lemma_link_all_mono(g, ls, n - 1, n);
        lemma_link_all_sound(g, t, ls, n - 1);
        assert(label_sound(t, ls[n - 1].0, ls[n - 1].1, (ls[n - 1].2, ls[n - 1].3)));
        lemma_link_sound(link_all(g, ls, n - 1), t, ls[n - 1].0, ls[n - 1].1, (ls[n - 1].2, ls[n - 1].3));
    }
}

/// The links of the first `n` split maps of `ms` each relate two pairs of
/// the map that their label names.
proof fn lemma_maps_links_in(ms: Seq<Seq<(Seq<char>, i8)>>, pos: InstPos, n: int)
    requires
        n <= ms.len(),
        n <= usize::MAX + 1,
    ensures
        forall|i: int|
            0 <= i < maps_links(ms, pos, n).len() ==> {
                let l = #[trigger] maps_links(ms, pos, n)[i];
                &&& l.2 == pos
                &&& 0 <= l.3 < n
                &&& ms[l.3 as int].contains(l.0)
                &&& ms[l.3 as int].contains(l.1)
            },
    decreases n,
{
    if n > 0 {
        lemma_maps_links_in(ms, pos, n - 1);
        let ps = ms[n - 1];
        let h = maps_links(ms, pos, n - 1);
        let pl = pair_links(ps, pos, (n - 1) as usize);
        lemma_comb_from(0, ps.len() as int);
        assert forall|i: int| 0 <= i < maps_links(ms, pos, n).len() implies {
            let l = #[trigger] maps_links(ms, pos, n)[i];
            &&& l.2 == pos
            &&& 0 <= l.3 < n
            &&& ms[l.3 as int].contains(l.0)
            &&& ms[l.3 as int].contains(l.1)
        } by {
            if i < h.len() {
                assert(maps_links(ms, pos, n)[i] == h[i]);
            } else {
                let q = comb_from(0, ps.len() as int)[i - h.len()];
                assert(maps_links(ms, pos, n)[i] == pl[i - h.len()]);
                assert(pl[i - h.len()] == (ps[q.0], ps[q.1], pos, (n - 1) as usize));
                assert(ps.contains(ps[q.0]));
                assert(ps.contains(ps[q.1]));
            }
        }
    }
}

/// The links derived for an instruction with a derivation are sound.
proof fn lemma_derived_sound(t: Seq<Vec<Vec<SplitMap>>>, f: int, j: int)
    requires
        table_has(t, f, j),
        table_indexable(t),
        f <= usize::MAX,
        j <= usize::MAX,
    ensures
        links_sound(derived_links(t, f, j), t),
{
    let ms = map_pairs(t[f]@[j]@);
    let pos = (f as usize, j as usize);
    assert(ms.len() == t[f]@[j]@.len());
    assert(table_has(t, f, j));
    lemma_maps_links_in(ms, pos, ms.len() as int);
    let ls = derived_links(t, f, j);
    assert forall|i: int| 0 <= i < ls.len() implies label_sound(t, #[trigger] ls[i].0, ls[i].1, (ls[i].2, ls[i].3)) by {
        assert(ls[i] == maps_links(ms, pos, ms.len() as int)[i]);
        assert(pos.0 as int == f && pos.1 as int == j);
    }
}

/// A visit of an instruction that can be visited keeps the graph and the
/// cache sound.
proof fn lemma_visit_sound(s: BuildState, fs: Seq<HLOFunction>, t: Seq<Vec<Vec<SplitMap>>>, f: int, j: int)
    requires
        0 <= f <= usize::MAX,
        0 <= j <= usize::MAX,
        ready(s.c, t, f, j),
        table_indexable(t),
        sound_graph(s.g, t),
        cache_sound(s.c, t),
        fits(visit(s, fs, t, f, j).g),
    ensures
        sound_graph(visit(s, fs, t, f, j).g, t),
        cache_sound(visit(s, fs, t, f, j).c, t),
{
    let p = (f as usize, j as usize);
    if s.c.contains_key(p) {
        assert(links_sound(s.c[p], t));
    } else {
        lemma_derived_sound(t, f, j);
        let c2 = visit(s, fs, t, f, j).c;
        assert forall|q: InstPos| #[trigger] c2.contains_key(q) implies links_sound(c2[q], t) by {
            if q != p {
                assert(s.c.contains_key(q));
            }
        }
    }
    let ls = inst_links(s.c, t, f, j);
    lemma_link_all_sound(s.g, t, ls, ls.len() as int);
}

/// Visits of the first `n` instructions of a function that can be visited
/// keep the graph and the cache sound.
proof fn lemma_fn_visit_sound(s: BuildState, fs: Seq<HLOFunction>, t: Seq<Vec<Vec<SplitMap>>>, f: int, n: int)
    requires
        0 <= f <= usize::MAX,
        n <= usize::MAX,
        n <= fs[f].body@.len(),
        fn_ready(s.c, fs, t, f),
        table_indexable(t),
        sound_graph(s.g, t),
        cache_sound(s.c, t),
        fits(fn_visit(s, fs, t, f, n).g),
    ensures
        sound_graph(fn_visit(s, fs, t, f, n).g, t),
        cache_sound(fn_visit(s, fs, t, f, n).c, t),
    decreases n,
{
    if n > 0 {
        lemma_fn_visit_mono(s, fs, t, f, n - 1, n);
        lemma_fn_visit_sound(s, fs, t, f, n - 1);
        let h = fn_visit(s, fs, t, f, n - 1);
        lemma_fn_visit_mono(s, fs, t, f, 0, n - 1);
        assert(ready(s.c, t, f, n - 1));
        if s.c.contains_key((f as usize, (n - 1) as usize)) {
            assert(h.c.contains_key((f as usize, (n - 1) as usize)));
        }
        lemma_visit_sound(h, fs, t, f, n - 1);
    }
}

/// Building over the selected ones of the first `m` functions keeps the
/// graph and the cache sound.
proof fn lemma_sel_visit_sound(s: BuildState, fs: Seq<HLOFunction>, t: Seq<Vec<Vec<SplitMap>>>, sel: spec_fn(HLOFunction) -> bool, m: int)
    requires
        indexable(fs),
        m <= fs.len(),
        forall|f: int| 0 <= f < fs.len() && sel(fs[f]) ==> #[trigger] fn_ready(s.c, fs, t, f),
        table_indexable(t),
        sound_graph(s.g, t),
        cache_sound(s.c, t),
        fits(sel_visit(s, fs, t, sel, m).g),
    ensures
        sound_graph(sel_visit(s, fs, t, sel, m).g, t),
        cache_sound(sel_visit(s, fs, t, sel, m).c, t),
    decreases m,
{
    if m > 0 {
        lemma_sel_visit_mono(s, fs, t, sel, m - 1, m);
        lemma_sel_visit_sound(s, fs, t, sel, m - 1);
        let h = sel_visit(s, fs, t, sel, m - 1);
        if sel(fs[m - 1]) {
            lemma_sel_visit_mono(s, fs, t, sel, 0, m - 1);
            assert(fn_ready(s.c, fs, t, m - 1));
            assert forall|j: int| 0 <= j < fs[m - 1].body@.len() implies #[trigger] ready(h.c, t, m - 1, j) by {
                assert(ready(s.c, t, m - 1, j));
                if s.c.contains_key(((m - 1) as usize, j as usize)) {
                    assert(h.c.contains_key(((m - 1) as usize, j as usize)));
                }
            }
            assert(fs[m - 1].body@.len() <= usize::MAX);
            lemma_fn_visit_sound(h, fs, t, m - 1, fs[m - 1].body@.len() as int);
        }
    }
}

/// The start of a build: an empty graph, the cache `c0` and the fusion
/// instructions `fu`.
pub open spec fn start(c0: Map<InstPos, Seq<Link>>, fu: Seq<InstPos>) -> BuildState {
    BuildState { g: GView { nodes: Seq::empty(), edges: Seq::empty() }, c: c0, fu }
}

/// Every label on an edge of a graph built from a sound cache names an
/// instruction and one of its split maps, and that map holds both ends of
/// the edge: the graph only joins variable splits that some derivation
/// relates.
pub proof fn law_edges_sound(c0: Map<InstPos, Seq<Link>>, fu: Seq<InstPos>, fs: Seq<HLOFunction>, t: Seq<Vec<Vec<SplitMap>>>)
    requires
        indexable(fs),
        forall|f: int| 0 <= f < fs.len() ==> #[trigger] fn_ready(c0, fs, t, f),
        table_indexable(t),
        cache_sound(c0, t),
        fits(all_visit(start(c0, fu), fs, t, fs.len() as int).g),
    ensures
        sound_graph(all_visit(start(c0, fu), fs, t, fs.len() as int).g, t),
        cache_sound(all_visit(start(c0, fu), fs, t, fs.len() as int).c, t),
{
    lemma_all_is_sel(start(c0, fu), fs, t, fs.len() as int);
    lemma_sel_visit_sound(start(c0, fu), fs, t, every_fn(), fs.len() as int);
}

/// Every label on an edge of the graph built from the functions named
/// `name` names an instruction and one of its split maps, and that map
/// holds both ends of the edge.
pub proof fn law_function_edges_sound(c0: Map<InstPos, Seq<Link>>, fu: Seq<InstPos>, fs: Seq<HLOFunction>, t: Seq<Vec<Vec<SplitMap>>>, name: Seq<char>)
    requires
        indexable(fs),
        forall|f: int| 0 <= f < fs.len() && fs[f].name@ == name ==> #[trigger] fn_ready(c0, fs, t, f),
        table_indexable(t),
        cache_sound(c0, t),
        fits(named_visit(start(c0, fu), fs, t, name, fs.len() as int).g),
    ensures
        sound_graph(named_visit(start(c0, fu), fs, t, name, fs.len() as int).g, t),
        cache_sound(named_visit(start(c0, fu), fs, t, name, fs.len() as int).c, t),
{
    lemma_named_is_sel(start(c0, fu), fs, t, name, fs.len() as int);
    assert forall|f: int| 0 <= f < fs.len() && fn_named(name)(fs[f]) implies #[trigger] fn_ready(c0, fs, t, f) by {
        assert(fs[f].name@ == name);
    }
    lemma_sel_visit_sound(start(c0, fu), fs, t, fn_named(name), fs.len() as int);
}

} // verus!

verus! {

/// Every edge joins existing nodes.
pub open spec fn ends_ok(g: GView) -> bool {
    forall|i: int| 0 <= i < g.edges.len() ==> #[trigger] g.edges[i].0 < g.nodes.len() && g.edges[i].1 < g.nodes.len()
}

/// The edge `i` joins the nodes `x` and `y`, in either direction.
pub open spec fn joins(g: GView, i: int, x: (Seq<char>, i8), y: (Seq<char>, i8)) -> bool {
    let e = g.edges[i];
    (g.nodes[e.0 as int] == x && g.nodes[e.1 as int] == y) || (g.nodes[e.0 as int] == y && g.nodes[e.1 as int] == x)
}

/// Some edge joins `x` and `y` and carries the label `v`.
pub open spec fn has_link(g: GView, x: (Seq<char>, i8), y: (Seq<char>, i8), v: (InstPos, usize)) -> bool {
    exists|i: int| 0 <= i < g.edges.len() && #[trigger] joins(g, i, x, y) && g.edges[i].2.contains(v)
}

/// Every link of `ls` is carried by an edge between its two nodes.
pub open spec fn holds_links(g: GView, ls: Seq<Link>) -> bool {
    forall|i: int| 0 <= i < ls.len() ==> has_link(g, #[trigger] ls[i].0, ls[i].1, (ls[i].2, ls[i].3))
}

/// Adding a link keeps the edges, their labels and the nodes they join,
/// and carries the new link.
proof fn lemma_link_keeps(g: GView, ta: (Seq<char>, i8), tb: (Seq<char>, i8), w: (InstPos, usize))
    requires
        ends_ok(g),
        g.nodes.len() + 2 <= usize::MAX,
    ensures
        ends_ok(link(g, ta, tb, w)),
        has_link(link(g, ta, tb, w), ta, tb, w),
        forall|x: (Seq<char>, i8), y: (Seq<char>, i8), v: (InstPos, usize)|
            #[trigger] has_link(g, x, y, v) ==> has_link(link(g, ta, tb, w), x, y, v),
{
    let g1 = with_node(g, ta);
    let g2 = with_node(g1, tb);
    lemma_with_node_has(g, ta, ta);
    lemma_with_node_has(g1, ta, tb);
    let a = node_at(g2.nodes, ta, 0);
    let b = node_at(g2.nodes, tb, 0);
    lemma_node_at(g2.nodes, ta, 0);
    lemma_node_at(g2.nodes, tb, 0);
    let k = edge_at(g2.edges, a, b, 0);
    lemma_edge_at(g2.edges, a, b, 0);
    let r = link(g, ta, tb, w);
    assert(g2.nodes.len() <= g.nodes.len() + 2);
    assert(r.nodes == g2.nodes);
    assert(g2.edges == g.edges);
    assert(r.edges.len() >= g.edges.len());
    assert forall|i: int| 0 <= i < g.edges.len() implies r.edges[i].0 == g.edges[i].0 && r.edges[i].1 == g.edges[i].1
        && forall|q: int| 0 <= q < g.edges[i].2.len() ==> r.edges[i].2[q] == #[trigger] g.edges[i].2[q] by {
        if k >= 0 && i == k {
            assert(r.edges[i].2 == g2.edges[k].2.push(w));
        } else {
            assert(r.edges[i] == g2.edges[i]);
        }
    }
    assert forall|i: int| 0 <= i < r.edges.len() implies #[trigger] r.edges[i].0 < r.nodes.len() && r.edges[i].1 < r.nodes.len() by {
        if i >= g.edges.len() {
            assert(r.edges[i] == (a as usize, b as usize, seq![w]));
        }
    }
    if k < 0 {
        let i = g.edges.len() as int;
        assert(r.edges[i] == (a as usize, b as usize, seq![w]));
        assert(a as usize as int == a && b as usize as int == b);
        assert(joins(r, i, ta, tb));
        assert(r.edges[i].2[0] == w);
        assert(r.edges[i].2.contains(w));
    } else {
        assert(connects(g2.edges[k], a, b));
        assert(joins(r, k, ta, tb));
        assert(r.edges[k].2 == g2.edges[k].2.push(w));
        assert(r.edges[k].2[g2.edges[k].2.len() as int] == w);
        assert(r.edges[k].2.contains(w));
    }
    assert forall|x: (Seq<char>, i8), y: (Seq<char>, i8), v: (InstPos, usize)| #[trigger] has_link(g, x, y, v) implies has_link(r, x, y, v) by {
        let i = choose|i: int| 0 <= i < g.edges.len() && #[trigger] joins(g, i, x, y) && g.edges[i].2.contains(v);
        let q = choose|q: int| 0 <= q < g.edges[i].2.len() && g.edges[i].2[q] == v;
        assert(r.edges[i].2[q] == g.edges[i].2[q]);
        assert(g.edges[i].0 < g.nodes.len() && g.edges[i].1 < g.nodes.len());
        assert(r.nodes[g.edges[i].0 as int] == g.nodes[g.edges[i].0 as int]);
        assert(r.nodes[g.edges[i].1 as int] == g.nodes[g.edges[i].1 as int]);
        assert(joins(r, i, x, y));
        assert(r.edges[i].2.contains(v));
    }
}

/// Adding links keeps every link already carried, and carries the new
/// ones.
proof fn lemma_link_all_holds(g: GView, ls: Seq<Link>, n: int)
    requires
        ends_ok(g),
        0 <= n <= ls.len(),
        fits(link_all(g, ls, n)),
    ensures
        ends_ok(link_all(g, ls, n)),
        holds_links(link_all(g, ls, n), ls.take(n)),
        forall|x: (Seq<char>, i8), y: (Seq<char>, i8), v: (InstPos, usize)|
            #[trigger] has_link(g, x, y, v) ==> has_link(link_all(g, ls, n), x, y, v),
    decreases n,
{
    if n > 0 {
        lemma_link_all_mono(g, ls, n - 1, n);
        lemma_link_all_holds(g, ls, n - 1);
        let h = link_all(g, ls, n - 1);
        lemma_link_keeps(h, ls[n - 1].0, ls[n - 1].1, (ls[n - 1].2, ls[n - 1].3));
        let r = link_all(g, ls, n);
        assert forall|i: int| 0 <= i < ls.take(n).len() implies has_link(r, #[trigger] ls.take(n)[i].0, ls.take(n)[i].1, (ls.take(n)[i].2, ls.take(n)[i].3)) by {
            if i < n - 1 {
                assert(ls.take(n)[i] == ls.take(n - 1)[i]);
                assert(has_link(h, ls.take(n - 1)[i].0, ls.take(n - 1)[i].1, (ls.take(n - 1)[i].2, ls.take(n - 1)[i].3)));
            }
        }
    }
}

/// A visit carries every link of the visited instruction, and keeps every
/// link already carried.
proof fn lemma_visit_holds(s: BuildState, fs: Seq<HLOFunction>, t: Seq<Vec<Vec<SplitMap>>>, f: int, j: int)
    requires
        ends_ok(s.g),
        fits(visit(s, fs, t, f, j).g),
    ensures
        ends_ok(visit(s, fs, t, f, j).g),
        holds_links(visit(s, fs, t, f, j).g, inst_links(s.c, t, f, j)),
        forall|x: (Seq<char>, i8), y: (Seq<char>, i8), v: (InstPos, usize)|
            #[trigger] has_link(s.g, x, y, v) ==> has_link(visit(s, fs, t, f, j).g, x, y, v),
{
    let ls = inst_links(s.c, t, f, j);
    lemma_link_all_holds(s.g, ls, ls.len() as int);
    assert(ls.take(ls.len() as int) =~= ls);
}

/// Every link of the first `n` instructions of function `f`, as a build
/// from `c0` takes them, is carried.
pub open spec fn fn_covered(g: GView, c0: Map<InstPos, Seq<Link>>, t: Seq<Vec<Vec<SplitMap>>>, f: int, n: int) -> bool {
    forall|j: int| 0 <= j < n ==> holds_links(g, #[trigger] inst_links(c0, t, f, j))
}

/// Keeping carried links keeps a function covered.
proof fn lemma_covered_keep(g: GView, h: GView, c0: Map<InstPos, Seq<Link>>, t: Seq<Vec<Vec<SplitMap>>>, f: int, n: int)
    requires
        fn_covered(g, c0, t, f, n),
        forall|x: (Seq<char>, i8), y: (Seq<char>, i8), v: (InstPos, usize)| #[trigger] has_link(g, x, y, v) ==> has_link(h, x, y, v),
    ensures
        fn_covered(h, c0, t, f, n),
{
    assert forall|j: int| 0 <= j < n implies holds_links(h, #[trigger] inst_links(c0, t, f, j)) by {
        let ls = inst_links(c0, t, f, j);
        assert forall|i: int| 0 <= i < ls.len() implies has_link(h, #[trigger] ls[i].0, ls[i].1, (ls[i].2, ls[i].3)) by {
            assert(holds_links(g, ls));
            assert(has_link(g, ls[i].0, ls[i].1, (ls[i].2, ls[i].3)));
        }
    }
}

/// Visiting the first `n` instructions of function `f` carries all their
/// links, and keeps every link already carried.
proof fn lemma_fn_visit_holds_links(s: BuildState, c0: Map<InstPos, Seq<Link>>, fs: Seq<HLOFunction>, t: Seq<Vec<Vec<SplitMap>>>, f: int, n: int)
    requires
        0 <= f <= usize::MAX,
        n <= usize::MAX,
        ends_ok(s.g),
        agrees(s.c, c0, t),
        fits(fn_visit(s, fs, t, f, n).g),
    ensures
        ends_ok(fn_visit(s, fs, t, f, n).g),
        fn_covered(fn_visit(s, fs, t, f, n).g, c0, t, f, n),
        forall|x: (Seq<char>, i8), y: (Seq<char>, i8), v: (InstPos, usize)|
            #[trigger] has_link(s.g, x, y, v) ==> has_link(fn_visit(s, fs, t, f, n).g, x, y, v),
    decreases n,
{
    if n > 0 {
        lemma_fn_visit_mono(s, fs, t, f, n - 1, n);
        lemma_fn_visit_holds_links(s, c0, fs, t, f, n - 1);
        let h = fn_visit(s, fs, t, f, n - 1);
        lemma_fn_visit_agrees(s, s, c0, fs, t, f, n - 1);
        lemma_visit_holds(h, fs, t, f, n - 1);
        let r = fn_visit(s, fs, t, f, n);
        lemma_covered_keep(h.g, r.g, c0, t, f, n - 1);
        let p = (f as usize, (n - 1) as usize);
        assert(p.0 as int == f && p.1 as int == n - 1);
        if h.c.contains_key(p) {
            assert(h.c[p] == inst_links(c0, t, f, n - 1));
        } else {
            assert(!c0.contains_key(p));
        }
        assert(inst_links(h.c, t, f, n - 1) == inst_links(c0, t, f, n - 1));
        assert forall|j: int| 0 <= j < n implies holds_links(r.g, #[trigger] inst_links(c0, t, f, j)) by {
            if j < n - 1 {
                assert(fn_covered(r.g, c0, t, f, n - 1));
            }
        }
    }
}

/// Every link of every instruction of the selected ones of the first `m`
/// functions, as a build from `c0` takes them, is carried.
pub open spec fn sel_covered(g: GView, c0: Map<InstPos, Seq<Link>>, fs: Seq<HLOFunction>, t: Seq<Vec<Vec<SplitMap>>>, sel: spec_fn(HLOFunction) -> bool, m: int) -> bool {
    forall|f: int| 0 <= f < m && sel(fs[f]) ==> #[trigger] fn_covered(g, c0, t, f, fs[f].body@.len() as int)
}

/// Visiting the selected ones of the first `m` functions carries all their
/// links.
proof fn lemma_sel_visit_holds_links(s: BuildState, c0: Map<InstPos, Seq<Link>>, fs: Seq<HLOFunction>, t: Seq<Vec<Vec<SplitMap>>>, sel: spec_fn(HLOFunction) -> bool, m: int)
    requires
        indexable(fs),
        m <= fs.len(),
        ends_ok(s.g),
        agrees(s.c, c0, t),
        fits(sel_visit(s, fs, t, sel, m).g),
    ensures
        ends_ok(sel_visit(s, fs, t, sel, m).g),
        sel_covered(sel_visit(s, fs, t, sel, m).g, c0, fs, t, sel, m),
    decreases m,
{
    if m > 0 {
        lemma_sel_visit_mono(s, fs, t, sel, m - 1, m);
        lemma_sel_visit_holds_links(s, c0, fs, t, sel, m - 1);
        lemma_sel_visit_agrees(s, s, c0, fs, t, sel, m - 1);
        let h = sel_visit(s, fs, t, sel, m - 1);
        let r = sel_visit(s, fs, t, sel, m);
        if sel(fs[m - 1]) {
            assert(fs[m - 1].body@.len() <= usize::MAX);
            lemma_fn_visit_holds_links(h, c0, fs, t, m - 1, fs[m - 1].body@.len() as int);
            assert forall|f: int| 0 <= f < m && sel(fs[f]) implies #[trigger] fn_covered(r.g, c0, t, f, fs[f].body@.len() as int) by {
                if f < m - 1 {
                    assert(fn_covered(h.g, c0, t, f, fs[f].body@.len() as int));
                    lemma_covered_keep(h.g, r.g, c0, t, f, fs[f].body@.len() as int);
                }
            }
        } else {
            assert forall|f: int| 0 <= f < m && sel(fs[f]) implies #[trigger] fn_covered(r.g, c0, t, f, fs[f].body@.len() as int) by {
                assert(f < m - 1);
            }
        }
    }
}

/// A built graph carries every link of every instruction: each two pairs
/// of each split map of an instruction's derivation (or the links the
/// cache already kept for it) are joined by an edge labelled with that
/// instruction and map.
pub proof fn law_edges_complete(c0: Map<InstPos, Seq<Link>>, fu: Seq<InstPos>, fs: Seq<HLOFunction>, t: Seq<Vec<Vec<SplitMap>>>)
    requires
        indexable(fs),
        fits(all_visit(start(c0, fu), fs, t, fs.len() as int).g),
    ensures
        forall|f: int, j: int, i: int|
            0 <= f < fs.len() && 0 <= j < fs[f].body@.len() && 0 <= i < inst_links(c0, t, f, j).len() ==> {
                let l = #[trigger] inst_links(c0, t, f, j)[i];
                has_link(all_visit(start(c0, fu), fs, t, fs.len() as int).g, l.0, l.1, (l.2, l.3))
            },
{
    let s0 = start(c0, fu);
    lemma_agrees_self(c0, t);
    lemma_all_is_sel(s0, fs, t, fs.len() as int);
    lemma_sel_visit_holds_links(s0, c0, fs, t, every_fn(), fs.len() as int);
    let g = all_visit(s0, fs, t, fs.len() as int).g;
    assert forall|f: int, j: int, i: int|
        0 <= f < fs.len() && 0 <= j < fs[f].body@.len() && 0 <= i < inst_links(c0, t, f, j).len() implies {
            let l = #[trigger] inst_links(c0, t, f, j)[i];
            has_link(g, l.0, l.1, (l.2, l.3))
        } by {
        assert(every_fn()(fs[f]));
        assert(fn_covered(g, c0, t, f, fs[f].body@.len() as int));
        assert(holds_links(g, inst_links(c0, t, f, j)));
    }
}

/// The graph built from the functions named `name` carries every link of
/// every instruction of those functions.
pub proof fn law_function_edges_complete(c0: Map<InstPos, Seq<Link>>, fu: Seq<InstPos>, fs: Seq<HLOFunction>, t: Seq<Vec<Vec<SplitMap>>>, name: Seq<char>)
    requires
        indexable(fs),
        fits(named_visit(start(c0, fu), fs, t, name, fs.len() as int).g),
    ensures
        forall|f: int, j: int, i: int|
            0 <= f < fs.len() && fs[f].name@ == name && 0 <= j < fs[f].body@.len() && 0 <= i < inst_links(c0, t, f, j).len() ==> {
                let l = #[trigger] inst_links(c0, t, f, j)[i];
                has_link(named_visit(start(c0, fu), fs, t, name, fs.len() as int).g, l.0, l.1, (l.2, l.3))
            },
{
    let s0 = start(c0, fu);
    lemma_agrees_self(c0, t);
    lemma_named_is_sel(s0, fs, t, name, fs.len() as int);
    lemma_sel_visit_holds_links(s0, c0, fs, t, fn_named(name), fs.len() as int);
    let g = named_visit(s0, fs, t, name, fs.len() as int).g;
    assert forall|f: int, j: int, i: int|
        0 <= f < fs.len() && fs[f].name@ == name && 0 <= j < fs[f].body@.len() && 0 <= i < inst_links(c0, t, f, j).len() implies {
            let l = #[trigger] inst_links(c0, t, f, j)[i];
            has_link(g, l.0, l.1, (l.2, l.3))
        } by {
        assert(fn_named(name)(fs[f]));
        assert(fn_covered(g, c0, t, f, fs[f].body@.len() as int));
        assert(holds_links(g, inst_links(c0, t, f, j)));
    }
}

} // verus!
