//! The variable graph of a module: its split graph, with the fusion
//! instructions met while building it.
use vstd::prelude::*;
use crate::ir::derive::{Derivation, table_has};
use crate::ir::error::DeriveError;
use crate::ir::graph::{
    GView, NodeType, SplitGraph, dot_text, fits, graph_clear, graph_dot, graph_nodes, graph_edges, gview, gwf,
    ids_view, node_at, node_index, with_node, map_pairs, maps_links,
};
use crate::ir::graph_build::{
    BuildState, CacheEntry, add_cached_links, all_visit, cache_find, cache_insert, cache_view, derived_links,
    fn_ready, fn_visit, lemma_all_visit_mono, lemma_fn_visit_mono, lemma_named_visit_mono, named_visit,
    ready, visit, visit_c, visit_fu,
};
use crate::ir::hlo_ast::{HLORoot, InstPos};
use crate::ir::split::SplitMap;
use crate::ir::propagate::context::{ConstraintMap, cview, join, meet, meet_ok};
use crate::ir::strmap::smap;
use crate::ir::text::{has_char, owned, str_eq};

verus! {

/// The index of node `t` among `nodes`, if it is there.
pub open spec fn find_node(nodes: Seq<(Seq<char>, i8)>, t: (Seq<char>, i8)) -> Option<usize> {
    if node_at(nodes, t, 0) >= 0 {
        Some(node_at(nodes, t, 0) as usize)
    } else {
        None
    }
}

/// The index of the node `(name, dim)`; a name without `%` is also tried
/// with `%` in front.
pub open spec fn lookup_node(nodes: Seq<(Seq<char>, i8)>, name: Seq<char>, dim: i8) -> Option<usize> {
    match find_node(nodes, (name, dim)) {
        Some(k) => Some(k),
        None => if name.contains('%') {
            None
        } else {
            find_node(nodes, ("%"@ + name, dim))
        },
    }
}

/// The index of node `(name, dim)` in a graph that agrees with `ids`.
pub fn lookup_id(g: &SplitGraph, ids: &Vec<(NodeType, usize)>, name: &str, dim: i8) -> (r: Option<usize>)
    requires
        gwf(gview(*g), ids_view(ids@)),
    ensures
        r == find_node(graph_nodes(*g), (name@, dim)),
{
    let ghost t = (name@, dim);
    let ghost nodes = graph_nodes(*g);
    proof {
        crate::ir::graph::lemma_node_at(nodes, t, 0);
    }
    let n = ids.len();
    let mut i: usize = 0;
    while i < n
        invariant
            n == ids@.len(),
            ids_view(ids@).len() == nodes.len(),
            nodes == graph_nodes(*g),
            t == (name@, dim),
            gwf(gview(*g), ids_view(ids@)),
            i <= n,
            forall|j: int| 0 <= j < i ==> nodes[j] != t,
        decreases n - i,
    {
        assert(ids_view(ids@)[i as int] == (nodes[i as int], i as usize));
        assert(ids_view(ids@)[i as int] == ((ids@[i as int].0.0@, ids@[i as int].0.1), ids@[i as int].1));
        let same = ids[i].0.1 == dim && str_eq(ids[i].0.0.as_str(), name);
        if same {
            assert(nodes[i as int] == t);
            proof {
                crate::ir::graph::lemma_node_at(nodes, t, 0);
            }
            return Some(ids[i].1);
        }
        i = i + 1;
    }
    proof {
        crate::ir::graph::lemma_node_at(nodes, t, 0);
    }
    None
}

/// The split graph of a module: nodes are variables with a dimension,
/// edges are labelled by the instructions and split maps that relate them;
/// the fusion instructions met while building are recorded.
pub struct VarGraph3D<'a> {
    pub graph: SplitGraph,
    /// Each node with its index in `graph`.
    pub node_id: Vec<(NodeType, usize)>,
    /// The links of each visited instruction.
    pub node_edge_cache: Vec<CacheEntry>,
    pub ast: &'a HLORoot,
    pub d: &'a Derivation<'a>,
    /// The fusion instructions met while building.
    pub fusion_inst: Vec<InstPos>,
}

impl<'a> VarGraph3D<'a> {
    /// The graph and the node index agree.
    pub open spec fn wf(&self) -> bool {
        gwf(gview(self.graph), ids_view(self.node_id@))
    }

    /// The graph, the cache and the fusion instructions.
    pub open spec fn state(&self) -> BuildState {
        BuildState { g: gview(self.graph), c: cache_view(self.node_edge_cache@), fu: self.fusion_inst@ }
    }

    /// A graph over the module of `d`, with nothing built yet.
    pub fn new(d: &'a Derivation<'a>) -> (r: Self)
        requires
            d.ast is Some,
        ensures
            r.wf(),
            gview(r.graph) == (GView { nodes: Seq::empty(), edges: Seq::empty() }),
            r.node_id@.len() == 0,
            r.node_edge_cache@.len() == 0,
            r.fusion_inst@.len() == 0,
            r.ast == d.ast->Some_0,
            r.d == d,
    {
        let ast = d.ast.unwrap();
        let graph = crate::ir::graph::graph_new();
        let r = VarGraph3D {
            graph,
            node_id: Vec::new(),
            node_edge_cache: Vec::new(),
            ast,
            d,
            fusion_inst: Vec::new(),
        };
        assert(gview(r.graph) =~= (GView { nodes: Seq::empty(), edges: Seq::empty() }));
        assert(ids_view(r.node_id@) =~= Seq::empty());
        r
    }

    /// The index of node `(name, dim)`, adding the node when the graph has
    /// none.
    pub fn node_id(&mut self, name: &str, dim: i8) -> (r: usize)
        requires
            old(self).wf(),
            graph_nodes(old(self).graph).len() < u32::MAX,
        ensures
            gview(final(self).graph) == with_node(gview(old(self).graph), (name@, dim)),
            r as int == node_at(graph_nodes(final(self).graph), (name@, dim), 0),
            final(self).wf(),
            final(self).node_edge_cache == old(self).node_edge_cache,
            final(self).fusion_inst == old(self).fusion_inst,
            final(self).ast == old(self).ast,
            final(self).d == old(self).d,
    {
        node_index(&mut self.graph, &mut self.node_id, name, dim)
    }

    /// The index of node `(name, dim)`, if the graph has it; a name without
    /// `%` is also tried with `%` in front.
    pub fn get_node_id(&self, name: &str, dim: i8) -> (r: Option<usize>)
        requires
            self.wf(),
        ensures
            r == lookup_node(graph_nodes(self.graph), name@, dim),
    {
        match lookup_id(&self.graph, &self.node_id, name, dim) {
            Some(k) => Some(k),
            None => {
                if has_char(name, '%') {
                    None
                } else {
                    let full = owned("%").concat(name);
                    lookup_id(&self.graph, &self.node_id, full.as_str(), dim)
                }
            },
        }
    }

    /// Keeps the links of the derivation `res` under the instruction `inst`.
    pub fn update_node_edge_cache(&mut self, inst: InstPos, res: &Vec<SplitMap>)
        ensures
            cache_view(final(self).node_edge_cache@) == cache_view(old(self).node_edge_cache@).insert(
                inst,
                maps_links(map_pairs(res@), inst, res@.len() as int),
            ),
            final(self).graph == old(self).graph,
            final(self).node_id == old(self).node_id,
            final(self).fusion_inst == old(self).fusion_inst,
            final(self).ast == old(self).ast,
            final(self).d == old(self).d,
    {
        cache_insert(&mut self.node_edge_cache, inst, res);
    }

    /// Derives the links of the instruction at `inst` into the cache,
    /// recording it first when it is a fusion.
    fn inst_to_edges(&mut self, inst: InstPos) -> (r: Result<(), DeriveError>)
        requires
            inst.0 < old(self).ast.functions@.len(),
            inst.1 < old(self).ast.functions@[inst.0 as int].body@.len(),
        ensures
            final(self).fusion_inst@ == (if old(self).ast.functions@[inst.0 as int].body@[inst.1 as int].function.name@
                == "fusion"@ {
                old(self).fusion_inst@.push(inst)
            } else {
                old(self).fusion_inst@
            }),
            table_has(old(self).d.derive_cache@, inst.0 as int, inst.1 as int) ==> r is Ok && cache_view(
                final(self).node_edge_cache@,
            ) == cache_view(old(self).node_edge_cache@).insert(
                inst,
                derived_links(old(self).d.derive_cache@, inst.0 as int, inst.1 as int),
            ),
            !table_has(old(self).d.derive_cache@, inst.0 as int, inst.1 as int) ==> (r matches Err(
                DeriveError::InstNotInCache(_),
            ) && final(self).node_edge_cache == old(self).node_edge_cache),
            final(self).graph == old(self).graph,
            final(self).node_id == old(self).node_id,
            final(self).ast == old(self).ast,
            final(self).d == old(self).d,
    {
        if str_eq(self.ast.functions[inst.0].body[inst.1].function.name.as_str(), "fusion") {
            self.fusion_inst.push(inst);
        }
        let d = self.d;
        let res = d.derive_infer(inst.0, inst.1)?;
        self.update_node_edge_cache(inst, res);
        Ok(())
    }

    /// Adds to the graph the links of the instruction at `i`, deriving and
    /// caching them first when the cache lacks them.
    pub fn update_graph_from_inst(&mut self, index: usize, i: InstPos) -> (r: bool)
        requires
            old(self).wf(),
            ready(cache_view(old(self).node_edge_cache@), old(self).d.derive_cache@, i.0 as int, i.1 as int),
            !cache_view(old(self).node_edge_cache@).contains_key(i) ==> i.0 < old(self).ast.functions@.len()
                && i.1 < old(self).ast.functions@[i.0 as int].body@.len(),
            fits(visit(old(self).state(), old(self).ast.functions@, old(self).d.derive_cache@, i.0 as int, i.1 as int).g),
        ensures
            r,
            final(self).state() == visit(old(self).state(), old(self).ast.functions@, old(self).d.derive_cache@, i.0 as int, i.1 as int),
            final(self).wf(),
            final(self).ast == old(self).ast,
            final(self).d == old(self).d,
    {
        let ghost s0 = self.state();
        let ghost fs = self.ast.functions@;
        let ghost t = self.d.derive_cache@;
        assert(i == (i.0 as int as usize, i.1 as int as usize));
        if cache_find(&self.node_edge_cache, i).is_none() {
            match self.inst_to_edges(i) {
                Ok(()) => {},
                Err(_) => {
                    assert(false);
                },
            }
        }
        assert(cache_view(self.node_edge_cache@) == visit_c(s0.c, t, i.0 as int, i.1 as int));
        assert(self.fusion_inst@ == visit_fu(s0.fu, s0.c, fs, i.0 as int, i.1 as int));
        add_cached_links(&mut self.graph, &mut self.node_id, &self.node_edge_cache, i);
        assert(self.state() =~= visit(s0, fs, t, i.0 as int, i.1 as int));
        true
    }

    /// Adds the links of every instruction of function `f`.
    fn func_to_edges(&mut self, f: usize) -> (r: bool)
        requires
            old(self).wf(),
            f < old(self).ast.functions@.len(),
            fn_ready(cache_view(old(self).node_edge_cache@), old(self).ast.functions@, old(self).d.derive_cache@, f as int),
            fits(
                fn_visit(
                    old(self).state(),
                    old(self).ast.functions@,
                    old(self).d.derive_cache@,
                    f as int,
                    old(self).ast.functions@[f as int].body@.len() as int,
                ).g,
            ),
        ensures
            r,
            final(self).state() == fn_visit(
                old(self).state(),
                old(self).ast.functions@,
                old(self).d.derive_cache@,
                f as int,
                old(self).ast.functions@[f as int].body@.len() as int,
            ),
            final(self).wf(),
            final(self).ast == old(self).ast,
            final(self).d == old(self).d,
    {
        let ghost s0 = self.state();
        let ghost fs = self.ast.functions@;
        let ghost t = self.d.derive_cache@;
        let n = self.ast.functions[f].body.len();
        let mut j: usize = 0;
        while j < n
            invariant
                fs == self.ast.functions@,
                t == self.d.derive_cache@,
                f < fs.len(),
                n == fs[f as int].body@.len(),
                j <= n,
                self.wf(),
                self.state() == fn_visit(s0, fs, t, f as int, j as int),
                fn_ready(s0.c, fs, t, f as int),
                fits(fn_visit(s0, fs, t, f as int, n as int).g),
                self.ast == old(self).ast,
                self.d == old(self).d,
            decreases n - j,
        {
            proof {
                lemma_fn_visit_mono(s0, fs, t, f as int, 0, j as int);
                lemma_fn_visit_mono(s0, fs, t, f as int, j as int + 1, n as int);
                assert(ready(s0.c, t, f as int, j as int));
                assert(ready(self.state().c, t, f as int, j as int));
            }
            self.update_graph_from_inst(j, (f, j));
            j = j + 1;
        }
        true
    }

    /// Builds the graph of the whole module, from an empty graph and node
    /// index.
    pub fn build_from_hlo(&mut self) -> (r: Result<&SplitGraph, String>)
        requires
            forall|f: int|
                0 <= f < old(self).ast.functions@.len() ==> #[trigger] fn_ready(
                    cache_view(old(self).node_edge_cache@),
                    old(self).ast.functions@,
                    old(self).d.derive_cache@,
                    f,
                ),
            fits(
                all_visit(
                    BuildState {
                        g: GView { nodes: Seq::empty(), edges: Seq::empty() },
                        c: cache_view(old(self).node_edge_cache@),
                        fu: old(self).fusion_inst@,
                    },
                    old(self).ast.functions@,
                    old(self).d.derive_cache@,
                    old(self).ast.functions@.len() as int,
                ).g,
            ),
        ensures
            final(self).state() == all_visit(
                BuildState {
                    g: GView { nodes: Seq::empty(), edges: Seq::empty() },
                    c: cache_view(old(self).node_edge_cache@),
                    fu: old(self).fusion_inst@,
                },
                old(self).ast.functions@,
                old(self).d.derive_cache@,
                old(self).ast.functions@.len() as int,
            ),
            final(self).wf(),
            r matches Ok(g) && *g == final(self).graph,
            final(self).ast == old(self).ast,
            final(self).d == old(self).d,
    {
        graph_clear(&mut self.graph);
        self.node_id = Vec::new();
        let ghost fs = self.ast.functions@;
        let ghost t = self.d.derive_cache@;
        let ghost s0 = self.state();
        assert(s0 =~= BuildState {
            g: GView { nodes: Seq::empty(), edges: Seq::empty() },
            c: cache_view(old(self).node_edge_cache@),
            fu: old(self).fusion_inst@,
        });
        assert(ids_view(self.node_id@) =~= Seq::empty());
        let m = self.ast.functions.len();
        let mut f: usize = 0;
        while f < m
            invariant
                fs == self.ast.functions@,
                t == self.d.derive_cache@,
                m == fs.len(),
                f <= m,
                self.wf(),
                self.state() == all_visit(s0, fs, t, f as int),
                forall|g: int| 0 <= g < fs.len() ==> #[trigger] fn_ready(s0.c, fs, t, g),
                fits(all_visit(s0, fs, t, m as int).g),
                self.ast == old(self).ast,
                self.d == old(self).d,
            decreases m - f,
        {
            proof {
                lemma_all_visit_mono(s0, fs, t, 0, f as int);
                lemma_all_visit_mono(s0, fs, t, f as int + 1, m as int);
                assert(fn_ready(s0.c, fs, t, f as int));
                assert forall|j: int| 0 <= j < fs[f as int].body@.len() implies ready(cache_view(self.node_edge_cache@), t, f as int, j) by {
                    assert(ready(s0.c, t, f as int, j));
                    let p = (f as usize, j as usize);
                    if s0.c.contains_key(p) {
                        assert(all_visit(s0, fs, t, f as int).c.contains_key(p));
                    }
                }
                assert(fn_ready(cache_view(self.node_edge_cache@), fs, t, f as int));
            }
            self.func_to_edges(f);
            f = f + 1;
        }
        Ok(&self.graph)
    }

    /// Builds the graph of the functions named `fn_name`, from an empty
    /// graph and node index.
    pub fn build_from_function(&mut self, fn_name: &str) -> (r: Result<&SplitGraph, String>)
        requires
            forall|f: int|
                0 <= f < old(self).ast.functions@.len() && old(self).ast.functions@[f].name@ == fn_name@
                    ==> #[trigger] fn_ready(
                    cache_view(old(self).node_edge_cache@),
                    old(self).ast.functions@,
                    old(self).d.derive_cache@,
                    f,
                ),
            fits(
                named_visit(
                    BuildState {
                        g: GView { nodes: Seq::empty(), edges: Seq::empty() },
                        c: cache_view(old(self).node_edge_cache@),
                        fu: old(self).fusion_inst@,
                    },
                    old(self).ast.functions@,
                    old(self).d.derive_cache@,
                    fn_name@,
                    old(self).ast.functions@.len() as int,
                ).g,
            ),
        ensures
            final(self).state() == named_visit(
                BuildState {
                    g: GView { nodes: Seq::empty(), edges: Seq::empty() },
                    c: cache_view(old(self).node_edge_cache@),
                    fu: old(self).fusion_inst@,
                },
                old(self).ast.functions@,
                old(self).d.derive_cache@,
                fn_name@,
                old(self).ast.functions@.len() as int,
            ),
            final(self).wf(),
            r matches Ok(g) && *g == final(self).graph,
            final(self).ast == old(self).ast,
            final(self).d == old(self).d,
    {
        graph_clear(&mut self.graph);
        self.node_id = Vec::new();
        let ghost fs = self.ast.functions@;
        let ghost t = self.d.derive_cache@;
        let ghost s0 = self.state();
        assert(s0 =~= BuildState {
            g: GView { nodes: Seq::empty(), edges: Seq::empty() },
            c: cache_view(old(self).node_edge_cache@),
            fu: old(self).fusion_inst@,
        });
        assert(ids_view(self.node_id@) =~= Seq::empty());
        let m = self.ast.functions.len();
        let mut f: usize = 0;
        while f < m
            invariant
                fs == self.ast.functions@,
                t == self.d.derive_cache@,
                m == fs.len(),
                f <= m,
                self.wf(),
                self.state() == named_visit(s0, fs, t, fn_name@, f as int),
                forall|g: int| 0 <= g < fs.len() && fs[g].name@ == fn_name@ ==> #[trigger] fn_ready(s0.c, fs, t, g),
                fits(named_visit(s0, fs, t, fn_name@, m as int).g),
                self.ast == old(self).ast,
                self.d == old(self).d,
            decreases m - f,
        {
            if str_eq(self.ast.functions[f].name.as_str(), fn_name) {
                proof {
                    lemma_named_visit_mono(s0, fs, t, fn_name@, 0, f as int);
                    lemma_named_visit_mono(s0, fs, t, fn_name@, f as int + 1, m as int);
                    assert(fn_ready(s0.c, fs, t, f as int));
                    assert forall|j: int| 0 <= j < fs[f as int].body@.len() implies ready(cache_view(self.node_edge_cache@), t, f as int, j) by {
                        assert(ready(s0.c, t, f as int, j));
                        let p = (f as usize, j as usize);
                        if s0.c.contains_key(p) {
                            assert(named_visit(s0, fs, t, fn_name@, f as int).c.contains_key(p));
                        }
                    }
                    assert(fn_ready(cache_view(self.node_edge_cache@), fs, t, f as int));
                }
                self.func_to_edges(f);
            }
            f = f + 1;
        }
        Ok(&self.graph)
    }

    /// The graph in DOT, edges labelled by their index.
    pub fn export_to_dot(&self) -> (r: Result<String, String>)
        ensures
            r matches Ok(s) && s@ == dot_text(graph_nodes(self.graph), graph_edges(self.graph)),
    {
        Ok(graph_dot(&self.graph))
    }

    /// Joins `b` into `a`: each variable of `b` gains the dimensions that
    /// `b` allows it.
    pub fn merge_with(a: &mut ConstraintMap, b: &ConstraintMap)
        ensures
            cview(final(a)@) == join(cview(old(a)@), cview(b@)),
    {
        crate::ir::propagate::context::merge_with(a, b)
    }

    /// Meets `a` with `b` in place, variable by variable in the order of
    /// `b`; `false` when some shared variable is left without a dimension,
    /// and then `a` holds the meet with the variables of `b` before that one.
    pub fn intersect_with(a: &mut ConstraintMap, b: &ConstraintMap) -> (r: bool)
        ensures
            r == meet_ok(cview(old(a)@), cview(b@)),
            r ==> cview(final(a)@) == meet(cview(old(a)@), cview(b@)),
            !r ==> exists|i: int|
                0 <= i < b.pairs().len() && meet_ok(cview(old(a)@), cview(smap(b.pairs().take(i)))) && !meet_ok(
                    cview(old(a)@),
                    cview(smap(#[trigger] b.pairs().take(i + 1))),
                ) && cview(final(a)@) == meet(cview(old(a)@), cview(smap(b.pairs().take(i)))),
    {
        crate::ir::propagate::context::intersect_with(a, b)
    }
}

} // verus!
