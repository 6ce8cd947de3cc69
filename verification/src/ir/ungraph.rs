//! The two-dimensional variable graph of a module: its split graph alone.
use vstd::prelude::*;
use crate::ir::derive::{Derivation, table_has};
use crate::ir::error::DeriveError;
use crate::ir::graph::{GView, NodeType, SplitGraph, dot_text, fits, graph_clear, graph_dot, graph_edges, graph_nodes, gview, gwf, ids_view, node_index};
use crate::ir::graph_build::{
    lemma_fn_visit_fu,
    BuildState, CacheEntry, add_cached_links, all_visit, cache_find, cache_insert, cache_view, derived_links,
    fn_ready, fn_visit, lemma_all_visit_mono, lemma_fn_visit_mono, lemma_named_visit_mono, named_visit, ready,
    visit_c, visit_g,
};
use crate::ir::hlo_ast::{HLORoot, InstPos};
use crate::ir::text::str_eq;

verus! {

/// The split graph of a module, over variables and their dimensions.
pub struct VarGraph2D<'a> {
    pub g: SplitGraph,
    /// Each node with its index in `g`.
    pub node_id: Vec<(NodeType, usize)>,
    /// The links of each visited instruction.
    pub node_edge_cache: Vec<CacheEntry>,
    pub ast: &'a HLORoot,
    pub d: &'a Derivation<'a>,
}

/// A build that starts from an empty graph and the cache `c`.
pub open spec fn fresh_state(c: Map<InstPos, Seq<crate::ir::graph::Link>>) -> BuildState {
    BuildState { g: GView { nodes: Seq::empty(), edges: Seq::empty() }, c, fu: Seq::empty() }
}

impl<'a> VarGraph2D<'a> {
    /// The graph and the node index agree.
    pub open spec fn wf(&self) -> bool {
        gwf(gview(self.g), ids_view(self.node_id@))
    }

    /// A graph over the module of `d`, with nothing built yet.
    pub fn new(d: &'a Derivation<'a>) -> (r: Self)
        requires
            d.ast is Some,
        ensures
            r.wf(),
            gview(r.g) == (GView { nodes: Seq::empty(), edges: Seq::empty() }),
            r.node_id@.len() == 0,
            r.node_edge_cache@.len() == 0,
            r.ast == d.ast->Some_0,
            r.d == d,
    {
        let ast = d.ast.unwrap();
        let g = crate::ir::graph::graph_new();
        let r = VarGraph2D { g, node_id: Vec::new(), node_edge_cache: Vec::new(), ast, d };
        assert(gview(r.g) =~= (GView { nodes: Seq::empty(), edges: Seq::empty() }));
        assert(ids_view(r.node_id@) =~= Seq::empty());
        r
    }

    /// The index of node `(name, dim)`, adding the node when the graph has
    /// none.
    fn node_id(&mut self, name: &str, dim: i8) -> (r: usize)
        requires
            old(self).wf(),
            graph_nodes(old(self).g).len() < u32::MAX,
        ensures
            gview(final(self).g) == crate::ir::graph::with_node(gview(old(self).g), (name@, dim)),
            r as int == crate::ir::graph::node_at(graph_nodes(final(self).g), (name@, dim), 0),
            final(self).wf(),
            final(self).node_edge_cache == old(self).node_edge_cache,
            final(self).ast == old(self).ast,
            final(self).d == old(self).d,
    {
        node_index(&mut self.g, &mut self.node_id, name, dim)
    }

    /// Derives the links of the instruction at `inst` into the cache.
    fn inst_to_edges(&mut self, inst: InstPos) -> (r: Result<(), DeriveError>)
        ensures
            table_has(old(self).d.derive_cache@, inst.0 as int, inst.1 as int) ==> r is Ok && cache_view(
                final(self).node_edge_cache@,
            ) == cache_view(old(self).node_edge_cache@).insert(
                inst,
                derived_links(old(self).d.derive_cache@, inst.0 as int, inst.1 as int),
            ),
            !table_has(old(self).d.derive_cache@, inst.0 as int, inst.1 as int) ==> (r matches Err(
                DeriveError::InstNotInCache(_),
            ) && final(self).node_edge_cache == old(self).node_edge_cache),
            final(self).g == old(self).g,
            final(self).node_id == old(self).node_id,
            final(self).ast == old(self).ast,
            final(self).d == old(self).d,
    {
        let d = self.d;
        let res = d.derive_infer(inst.0, inst.1)?;
        cache_insert(&mut self.node_edge_cache, inst, res);
        Ok(())
    }

    /// Adds to the graph the links of the instruction at `i`, deriving and
    /// caching them first when the cache lacks them.
    fn update_graph_from_inst(&mut self, index: usize, i: InstPos) -> (r: bool)
        requires
            old(self).wf(),
            ready(cache_view(old(self).node_edge_cache@), old(self).d.derive_cache@, i.0 as int, i.1 as int),
            fits(visit_g(gview(old(self).g), cache_view(old(self).node_edge_cache@), old(self).d.derive_cache@, i.0 as int, i.1 as int)),
        ensures
            r,
            gview(final(self).g) == visit_g(gview(old(self).g), cache_view(old(self).node_edge_cache@), old(self).d.derive_cache@, i.0 as int, i.1 as int),
            cache_view(final(self).node_edge_cache@) == visit_c(cache_view(old(self).node_edge_cache@), old(self).d.derive_cache@, i.0 as int, i.1 as int),
            final(self).wf(),
            final(self).ast == old(self).ast,
            final(self).d == old(self).d,
    {
        assert(i == (i.0 as int as usize, i.1 as int as usize));
        if cache_find(&self.node_edge_cache, i).is_none() {
            match self.inst_to_edges(i) {
                Ok(()) => {},
                Err(_) => {
                    assert(false);
                },
            }
        }
        add_cached_links(&mut self.g, &mut self.node_id, &self.node_edge_cache, i);
        true
    }

    /// The graph and the cache, as a build state.
    pub open spec fn state(&self) -> BuildState {
        BuildState { g: gview(self.g), c: cache_view(self.node_edge_cache@), fu: Seq::empty() }
    }

    /// Adds the links of every instruction of function `f`.
    fn func_to_edges(&mut self, f: usize) -> (r: bool)
        requires
            old(self).wf(),
            f < old(self).ast.functions@.len(),
            fn_ready(cache_view(old(self).node_edge_cache@), old(self).ast.functions@, old(self).d.derive_cache@, f as int),
            fits(
                fn_visit(
                    old(self).state(),
                    old(self).ast.functions@,
                    old(self).d.derive_cache@,
                    f as int,
                    old(self).ast.functions@[f as int].body@.len() as int,
                ).g,
            ),
        ensures
            r,
            gview(final(self).g) == fn_visit(
                old(self).state(),
                old(self).ast.functions@,
                old(self).d.derive_cache@,
                f as int,
                old(self).ast.functions@[f as int].body@.len() as int,
            ).g,
            cache_view(final(self).node_edge_cache@) == fn_visit(
                old(self).state(),
                old(self).ast.functions@,
                old(self).d.derive_cache@,
                f as int,
                old(self).ast.functions@[f as int].body@.len() as int,
            ).c,
            final(self).wf(),
            final(self).ast == old(self).ast,
            final(self).d == old(self).d,
    {
        let ghost s0 = self.state();
        let ghost fs = self.ast.functions@;
        let ghost t = self.d.derive_cache@;
        let n = self.ast.functions[f].body.len();
        let mut j: usize = 0;
        while j < n
            invariant
                fs == self.ast.functions@,
                t == self.d.derive_cache@,
                f < fs.len(),
                n == fs[f as int].body@.len(),
                j <= n,
                self.wf(),
                gview(self.g) == fn_visit(s0, fs, t, f as int, j as int).g,
                cache_view(self.node_edge_cache@) == fn_visit(s0, fs, t, f as int, j as int).c,
                fn_ready(s0.c, fs, t, f as int),
                fits(fn_visit(s0, fs, t, f as int, n as int).g),
                self.ast == old(self).ast,
                self.d == old(self).d,
            decreases n - j,
        {
            proof {
                lemma_fn_visit_mono(s0, fs, t, f as int, 0, j as int);
                lemma_fn_visit_mono(s0, fs, t, f as int, j as int + 1, n as int);
                assert(ready(s0.c, t, f as int, j as int));
                let p = (f as usize, j as usize);
                if s0.c.contains_key(p) {
                    assert(fn_visit(s0, fs, t, f as int, j as int).c.contains_key(p));
                }
            }
            self.update_graph_from_inst(j, (f, j));
            j = j + 1;
        }
        true
    }

    /// Builds the graph of the whole module, from an empty graph and node
    /// index.
    pub fn build_from_hlo(&mut self) -> (r: Result<&SplitGraph, String>)
        requires
            forall|f: int|
                0 <= f < old(self).ast.functions@.len() ==> #[trigger] fn_ready(
                    cache_view(old(self).node_edge_cache@),
                    old(self).ast.functions@,
                    old(self).d.derive_cache@,
                    f,
                ),
            fits(
                all_visit(
                    fresh_state(cache_view(old(self).node_edge_cache@)),
                    old(self).ast.functions@,
                    old(self).d.derive_cache@,
                    old(self).ast.functions@.len() as int,
                ).g,
            ),
        ensures
            final(self).state() == all_visit(
                fresh_state(cache_view(old(self).node_edge_cache@)),
                old(self).ast.functions@,
                old(self).d.derive_cache@,
                old(self).ast.functions@.len() as int,
            ).with_fu(Seq::empty()),
            final(self).wf(),
            r matches Ok(g) && *g == final(self).g,
            final(self).ast == old(self).ast,
            final(self).d == old(self).d,
    {
        graph_clear(&mut self.g);
        self.node_id = Vec::new();
        let ghost fs = self.ast.functions@;
        let ghost t = self.d.derive_cache@;
        let ghost s0 = self.state();
        assert(s0 =~= fresh_state(cache_view(old(self).node_edge_cache@)));
        assert(ids_view(self.node_id@) =~= Seq::empty());
        let m = self.ast.functions.len();
        let mut f: usize = 0;
        while f < m
            invariant
                fs == self.ast.functions@,
                t == self.d.derive_cache@,
                m == fs.len(),
                f <= m,
                self.wf(),
                self.state() == all_visit(s0, fs, t, f as int).with_fu(Seq::empty()),
                forall|g: int| 0 <= g < fs.len() ==> #[trigger] fn_ready(s0.c, fs, t, g),
                fits(all_visit(s0, fs, t, m as int).g),
                self.ast == old(self).ast,
                self.d == old(self).d,
            decreases m - f,
        {
            proof {
                lemma_all_visit_mono(s0, fs, t, 0, f as int);
                lemma_all_visit_mono(s0, fs, t, f as int + 1, m as int);
                assert(fn_ready(s0.c, fs, t, f as int));
                assert forall|j: int| 0 <= j < fs[f as int].body@.len() implies ready(cache_view(self.node_edge_cache@), t, f as int, j) by {
                    assert(ready(s0.c, t, f as int, j));
                    let p = (f as usize, j as usize);
                    if s0.c.contains_key(p) {
                        assert(all_visit(s0, fs, t, f as int).c.contains_key(p));
                    }
                }
                assert(fn_ready(cache_view(self.node_edge_cache@), fs, t, f as int));
                lemma_fn_visit_fu(all_visit(s0, fs, t, f as int), Seq::empty(), fs, t, f as int, fs[f as int].body@.len() as int);
            }
            self.func_to_edges(f);
            f = f + 1;
        }
        Ok(&self.g)
    }

    /// Builds the graph of the functions named `fn_name`, from an empty
    /// graph and node index.
    pub fn build_from_function(&mut self, fn_name: &str) -> (r: Result<&SplitGraph, String>)
        requires
            forall|f: int|
                0 <= f < old(self).ast.functions@.len() && old(self).ast.functions@[f].name@ == fn_name@
                    ==> #[trigger] fn_ready(
                    cache_view(old(self).node_edge_cache@),
                    old(self).ast.functions@,
                    old(self).d.derive_cache@,
                    f,
                ),
            fits(
                named_visit(
                    fresh_state(cache_view(old(self).node_edge_cache@)),
                    old(self).ast.functions@,
                    old(self).d.derive_cache@,
                    fn_name@,
                    old(self).ast.functions@.len() as int,
                ).g,
            ),
        ensures
            final(self).state() == named_visit(
                fresh_state(cache_view(old(self).node_edge_cache@)),
                old(self).ast.functions@,
                old(self).d.derive_cache@,
                fn_name@,
                old(self).ast.functions@.len() as int,
            ).with_fu(Seq::empty()),
            final(self).wf(),
            r matches Ok(g) && *g == final(self).g,
            final(self).ast == old(self).ast,
            final(self).d == old(self).d,
    {
        graph_clear(&mut self.g);
        self.node_id = Vec::new();
        let ghost fs = self.ast.functions@;
        let ghost t = self.d.derive_cache@;
        let ghost s0 = self.state();
        assert(s0 =~= fresh_state(cache_view(old(self).node_edge_cache@)));
        assert(ids_view(self.node_id@) =~= Seq::empty());
        let m = self.ast.functions.len();
        let mut f: usize = 0;
        while f < m
            invariant
                fs == self.ast.functions@,
                t == self.d.derive_cache@,
                m == fs.len(),
                f <= m,
                self.wf(),
                self.state() == named_visit(s0, fs, t, fn_name@, f as int).with_fu(Seq::empty()),
                forall|g: int| 0 <= g < fs.len() && fs[g].name@ == fn_name@ ==> #[trigger] fn_ready(s0.c, fs, t, g),
                fits(named_visit(s0, fs, t, fn_name@, m as int).g),
                self.ast == old(self).ast,
                self.d == old(self).d,
            decreases m - f,
        {
            if str_eq(self.ast.functions[f].name.as_str(), fn_name) {
                proof {
                    lemma_named_visit_mono(s0, fs, t, fn_name@, 0, f as int);
                    lemma_named_visit_mono(s0, fs, t, fn_name@, f as int + 1, m as int);
                    assert(fn_ready(s0.c, fs, t, f as int));
                    assert forall|j: int| 0 <= j < fs[f as int].body@.len() implies ready(cache_view(self.node_edge_cache@), t, f as int, j) by {
                        assert(ready(s0.c, t, f as int, j));
                        let p = (f as usize, j as usize);
                        if s0.c.contains_key(p) {
                            assert(named_visit(s0, fs, t, fn_name@, f as int).c.contains_key(p));
                        }
                    }
                    assert(fn_ready(cache_view(self.node_edge_cache@), fs, t, f as int));
                    lemma_fn_visit_fu(named_visit(s0, fs, t, fn_name@, f as int), Seq::empty(), fs, t, f as int, fs[f as int].body@.len() as int);
                }
                self.func_to_edges(f);
            }
            f = f + 1;
        }
        Ok(&self.g)
    }

    /// The graph in DOT, edges labelled by their index.
    pub fn export_to_dot(&self) -> (r: Result<String, String>)
        ensures
            r matches Ok(s) && s@ == dot_text(graph_nodes(self.g), graph_edges(self.g)),
    {
        Ok(graph_dot(&self.g))
    }
}

} // verus!
