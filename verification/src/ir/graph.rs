//! The split graph: one node per `(variable, dimension)` pair, and an edge
//! between two pairs that some derived split map holds together, labelled
//! with every such map. The graph is a petgraph `Graph`.
use vstd::prelude::*;
use crate::ir::hlo_ast::InstPos;
use crate::ir::text::str_eq;
use petgraph::dot::{Config, Dot};
use petgraph::graph::{EdgeIndex, Graph, NodeIndex};
use petgraph::Undirected;
use itertools::Itertools;
use crate::ir::split::SplitMap;

verus! {

#[verifier::external_type_specification]
#[verifier::external_body]
#[verifier::reject_recursive_types(N)]
#[verifier::reject_recursive_types(E)]
#[verifier::reject_recursive_types(Ty)]
#[verifier::reject_recursive_types(Ix)]
pub struct ExGraph<N, E, Ty, Ix>(Graph<N, E, Ty, Ix>);

#[verifier::external_type_specification]
#[verifier::external_body]
pub struct ExUndirected(Undirected);

/// A node: a variable and the dimension it is split along.
pub type NodeType = (String, i8);

/// An edge label: each split map that holds both ends, by the position of
/// its instruction and its index among that instruction's maps.
pub type EdgeType = Vec<(InstPos, usize)>;

/// The split graph.
pub type SplitGraph = Graph<NodeType, EdgeType, Undirected, u32>;

/// The nodes of `g`, by index.
pub uninterp spec fn graph_nodes(g: SplitGraph) -> Seq<(Seq<char>, i8)>;

/// The edges of `g`, by index: the two end nodes and the label.
pub uninterp spec fn graph_edges(g: SplitGraph) -> Seq<(usize, usize, Seq<(InstPos, usize)>)>;

/// The DOT text that petgraph writes for a graph with these nodes and
/// edges, edges labelled by their index.
pub uninterp spec fn dot_text(nodes: Seq<(Seq<char>, i8)>, edges: Seq<(usize, usize, Seq<(InstPos, usize)>)>) -> Seq<char>;

/// `Graph::new_undirected`: a graph without nodes or edges.
#[verifier::external_body]
pub(crate) fn graph_new() -> (g: SplitGraph)
    ensures
        graph_nodes(g) == Seq::<(Seq<char>, i8)>::empty(),
        graph_edges(g) == Seq::<(usize, usize, Seq<(InstPos, usize)>)>::empty(),
{
    Graph::new_undirected()
}

/// `Graph::add_node`: appends a node and gives its index; it panics at
/// the largest index, which the precondition keeps clear of.
#[verifier::external_body]
pub(crate) fn graph_add_node(g: &mut SplitGraph, w: NodeType) -> (r: usize)
    requires
        graph_nodes(*old(g)).len() < u32::MAX,
    ensures
        r == graph_nodes(*old(g)).len(),
        graph_nodes(*final(g)) == graph_nodes(*old(g)).push((w.0@, w.1)),
        graph_edges(*final(g)) == graph_edges(*old(g)),
{
    g.add_node(w).index()
}

/// `Graph::add_edge`: appends an edge between two existing nodes and gives
/// its index; it panics on a missing node or at the largest index, which
/// the precondition rules out.
#[verifier::external_body]
pub(crate) fn graph_add_edge(g: &mut SplitGraph, a: usize, b: usize, w: EdgeType) -> (r: usize)
    requires
        a < graph_nodes(*old(g)).len(),
        b < graph_nodes(*old(g)).len(),
        graph_nodes(*old(g)).len() <= u32::MAX,
        graph_edges(*old(g)).len() < u32::MAX,
    ensures
        r == graph_edges(*old(g)).len(),
        graph_nodes(*final(g)) == graph_nodes(*old(g)),
        graph_edges(*final(g)) == graph_edges(*old(g)).push((a, b, w@)),
{
    g.add_edge(NodeIndex::new(a), NodeIndex::new(b), w).index()
}

/// `Graph::find_edge` on an undirected graph: an edge between `a` and `b`
/// in either direction, or none when no edge joins them.
#[verifier::external_body]
pub(crate) fn graph_find_edge(g: &SplitGraph, a: usize, b: usize) -> (r: Option<usize>)
    requires
        a <= u32::MAX,
        b <= u32::MAX,
    ensures
        match r {
            Some(e) => e < graph_edges(*g).len() && connects(graph_edges(*g)[e as int], a as int, b as int),
            None => forall|k: int| 0 <= k < graph_edges(*g).len() ==> !connects(#[trigger] graph_edges(*g)[k], a as int, b as int),
        },
{
    match g.find_edge(NodeIndex::new(a), NodeIndex::new(b)) {
        Some(e) => Some(e.index()),
        None => None,
    }
}

/// `Graph::edge_weight`: a copy of the label of an existing edge.
#[verifier::external_body]
pub(crate) fn graph_edge_weight(g: &SplitGraph, e: usize) -> (r: EdgeType)
    requires
        e < graph_edges(*g).len(),
        e <= u32::MAX,
    ensures
        r@ == graph_edges(*g)[e as int].2,
{
    g.edge_weight(EdgeIndex::new(e)).unwrap().clone()
}

/// `Graph::edge_weight_mut`: replaces the label of an existing edge.
#[verifier::external_body]
pub(crate) fn graph_set_edge_weight(g: &mut SplitGraph, e: usize, w: EdgeType)
    requires
        e < graph_edges(*old(g)).len(),
        e <= u32::MAX,
    ensures
        graph_nodes(*final(g)) == graph_nodes(*old(g)),
        graph_edges(*final(g)) == graph_edges(*old(g)).update(
            e as int,
            (graph_edges(*old(g))[e as int].0, graph_edges(*old(g))[e as int].1, w@),
        ),
{
    *g.edge_weight_mut(EdgeIndex::new(e)).unwrap() = w;
}

/// `Graph::clear`: removes every node and edge.
#[verifier::external_body]
pub(crate) fn graph_clear(g: &mut SplitGraph)
    ensures
        graph_nodes(*final(g)) == Seq::<(Seq<char>, i8)>::empty(),
        graph_edges(*final(g)) == Seq::<(usize, usize, Seq<(InstPos, usize)>)>::empty(),
{
    g.clear()
}

/// The DOT text of `g` that `Dot::with_config` writes, edges labelled by
/// their index.
#[verifier::external_body]
pub(crate) fn graph_dot(g: &SplitGraph) -> (r: String)
    ensures
        r@ == dot_text(graph_nodes(*g), graph_edges(*g)),
{
    format!("{:?}", Dot::with_config(g, &[Config::EdgeIndexLabel]))
}

/// Whether the edge `e` joins `a` and `b`, in either direction.
pub open spec fn connects(e: (usize, usize, Seq<(InstPos, usize)>), a: int, b: int) -> bool {
    (e.0 == a && e.1 == b) || (e.0 == b && e.1 == a)
}

/// The plain contents of a split graph.
pub struct GView {
    pub nodes: Seq<(Seq<char>, i8)>,
    pub edges: Seq<(usize, usize, Seq<(InstPos, usize)>)>,
}

/// The contents of `g`.
pub open spec fn gview(g: SplitGraph) -> GView {
    GView { nodes: graph_nodes(g), edges: graph_edges(g) }
}

/// The first index from `i` of the node `t`, or `-1`.
pub open spec fn node_at(nodes: Seq<(Seq<char>, i8)>, t: (Seq<char>, i8), i: int) -> int
    decreases nodes.len() - i,
{
    if i < 0 || i >= nodes.len() {
        -1
    } else if nodes[i] == t {
        i
    } else {
        node_at(nodes, t, i + 1)
    }
}

/// The first index from `i` of an edge joining `a` and `b`, or `-1`.
pub open spec fn edge_at(edges: Seq<(usize, usize, Seq<(InstPos, usize)>)>, a: int, b: int, i: int) -> int
    decreases edges.len() - i,
{
    if i < 0 || i >= edges.len() {
        -1
    } else if connects(edges[i], a, b) {
        i
    } else {
        edge_at(edges, a, b, i + 1)
    }
}

/// `g` with the node `t` added when it has none.
pub open spec fn with_node(g: GView, t: (Seq<char>, i8)) -> GView {
    if node_at(g.nodes, t, 0) >= 0 {
        g
    } else {
        GView { nodes: g.nodes.push(t), ..g }
    }
}

/// `g` with `w` added to the label of the edge between the nodes `ta` and
/// `tb`, adding the nodes and the edge as needed.
pub open spec fn link(g: GView, ta: (Seq<char>, i8), tb: (Seq<char>, i8), w: (InstPos, usize)) -> GView {
    let g1 = with_node(g, ta);
    let g2 = with_node(g1, tb);
    let a = node_at(g2.nodes, ta, 0);
    let b = node_at(g2.nodes, tb, 0);
    let k = edge_at(g2.edges, a, b, 0);
    if k < 0 {
        GView { edges: g2.edges.push((a as usize, b as usize, seq![w])), ..g2 }
    } else {
        GView { edges: g2.edges.update(k, (g2.edges[k].0, g2.edges[k].1, g2.edges[k].2.push(w))), ..g2 }
    }
}

/// A link to add: two nodes and the label entry of their edge.
pub type Link = ((Seq<char>, i8), (Seq<char>, i8), InstPos, usize);

/// `g` with the first `n` links of `ls` added in order.
pub open spec fn link_all(g: GView, ls: Seq<Link>, n: int) -> GView
    decreases n,
{
    if n <= 0 {
        g
    } else {
        let h = link_all(g, ls, n - 1);
        link(h, ls[n - 1].0, ls[n - 1].1, (ls[n - 1].2, ls[n - 1].3))
    }
}

/// The graph and the node index `ids` agree: `ids` lists each node with
/// its index, no node occurs twice, every edge joins existing nodes, and no
/// two edges join the same nodes.
pub open spec fn gwf(g: GView, ids: Seq<((Seq<char>, i8), usize)>) -> bool {
    &&& ids.len() == g.nodes.len()
    &&& forall|i: int| 0 <= i < ids.len() ==> #[trigger] ids[i] == (g.nodes[i], i as usize)
    &&& forall|i: int, j: int| 0 <= i < j < g.nodes.len() ==> g.nodes[i] != g.nodes[j]
    &&& forall|k: int| 0 <= k < g.edges.len() ==> #[trigger] g.edges[k].0 < g.nodes.len() && g.edges[k].1 < g.nodes.len()
    &&& forall|k: int, l: int|
        #![trigger g.edges[k], g.edges[l]]
        0 <= k < l < g.edges.len() ==> !connects(g.edges[l], g.edges[k].0 as int, g.edges[k].1 as int)
}

/// The plain view of a node index.
pub open spec fn ids_view(ids: Seq<(NodeType, usize)>) -> Seq<((Seq<char>, i8), usize)> {
    ids.map_values(|e: (NodeType, usize)| ((e.0.0@, e.0.1), e.1))
}

/// The graph's size stays below what its `u32` indices count.
pub open spec fn fits(g: GView) -> bool {
    g.nodes.len() + 2 < u32::MAX && g.edges.len() + 1 < u32::MAX
}

/// `node_at` finds the node where it says, and nowhere earlier.
pub proof fn lemma_node_at(nodes: Seq<(Seq<char>, i8)>, t: (Seq<char>, i8), i: int)
    requires
        0 <= i,
    ensures
        node_at(nodes, t, i) >= 0 ==> i <= node_at(nodes, t, i) < nodes.len() && nodes[node_at(nodes, t, i)] == t,
        node_at(nodes, t, i) < 0 ==> forall|j: int| i <= j < nodes.len() ==> nodes[j] != t,
        forall|j: int| i <= j < nodes.len() && nodes[j] == t ==> node_at(nodes, t, i) >= 0 && node_at(nodes, t, i) <= j,
    decreases nodes.len() - i,
{
    if i < nodes.len() && nodes[i] != t {
        lemma_node_at(nodes, t, i + 1);
    }
}

/// `edge_at` finds an edge where it says, and nowhere earlier.
pub proof fn lemma_edge_at(edges: Seq<(usize, usize, Seq<(InstPos, usize)>)>, a: int, b: int, i: int)
    requires
        0 <= i,
    ensures
        edge_at(edges, a, b, i) >= 0 ==> i <= edge_at(edges, a, b, i) < edges.len() && connects(edges[edge_at(edges, a, b, i)], a, b),
        edge_at(edges, a, b, i) < 0 ==> forall|j: int| i <= j < edges.len() ==> !connects(edges[j], a, b),
        forall|j: int| i <= j < edges.len() && connects(edges[j], a, b) ==> 0 <= edge_at(edges, a, b, i) <= j,
    decreases edges.len() - i,
{
    if i < edges.len() && !connects(edges[i], a, b) {
        lemma_edge_at(edges, a, b, i + 1);
    }
}

/// The index of the node `t`, adding it when the graph has none.
pub fn node_index(g: &mut SplitGraph, ids: &mut Vec<(NodeType, usize)>, name: &str, dim: i8) -> (r: usize)
    requires
        gwf(gview(*old(g)), ids_view(old(ids)@)),
        graph_nodes(*old(g)).len() < u32::MAX,
    ensures
        gview(*final(g)) == with_node(gview(*old(g)), (name@, dim)),
        r as int == node_at(graph_nodes(*final(g)), (name@, dim), 0),
        gwf(gview(*final(g)), ids_view(final(ids)@)),
{
    let ghost t = (name@, dim);
    let ghost nodes = graph_nodes(*g);
    proof {
        lemma_node_at(nodes, t, 0);
    }
    let n = ids.len();
    let mut i: usize = 0;
    while i < n
        invariant
            n == ids@.len(),
            ids_view(ids@).len() == nodes.len(),
            nodes == graph_nodes(*g),
            t == (name@, dim),
            gwf(gview(*g), ids_view(ids@)),
            i <= n,
            forall|j: int| 0 <= j < i ==> nodes[j] != t,
        decreases n - i,
    {
        assert(ids_view(ids@)[i as int] == (nodes[i as int], i as usize));
        assert(ids_view(ids@)[i as int] == ((ids@[i as int].0.0@, ids@[i as int].0.1), ids@[i as int].1));
        let same = ids[i].0.1 == dim && str_eq(ids[i].0.0.as_str(), name);
        assert(same == (ids@[i as int].0.0@ == name@ && ids@[i as int].0.1 == dim));
        if same {
            assert(ids@[i as int].0.0@ == name@);
            assert(nodes[i as int] == t);
            proof {
                lemma_node_at(nodes, t, 0);
            }
            return ids[i].1;
        }
        i = i + 1;
    }
    let ghost g0 = gview(*g);
    let k = graph_add_node(g, (crate::ir::text::owned(name), dim));
    let ghost before = ids@;
    ids.push(((crate::ir::text::owned(name), dim), k));
    proof {
        assert(ids_view(ids@) =~= ids_view(before).push((t, k)));
        let g1 = gview(*g);
        assert(g1.nodes == nodes.push(t));
        assert(g1.nodes[nodes.len() as int] == t);
        lemma_node_at(g1.nodes, t, 0);
        assert forall|j: int| 0 <= j < g1.nodes.len() - 1 implies g1.nodes[j] != t by {
            assert(g1.nodes[j] == nodes[j]);
        }
        assert(node_at(g1.nodes, t, 0) == nodes.len());
        assert(g1 == with_node(g0, t));
        assert forall|i: int, j: int| 0 <= i < j < g1.nodes.len() implies g1.nodes[i] != g1.nodes[j] by {
            if j == g1.nodes.len() - 1 {
                assert(g1.nodes[i] == nodes[i]);
            } else {
                assert(g1.nodes[i] == nodes[i] && g1.nodes[j] == nodes[j]);
            }
        }
    }
    k
}

/// Adds `w` to the label of the edge between `ta` and `tb`, adding the
/// nodes and the edge as needed.
pub fn add_link(g: &mut SplitGraph, ids: &mut Vec<(NodeType, usize)>, ta: &NodeType, tb: &NodeType, w: (InstPos, usize))
    requires
        gwf(gview(*old(g)), ids_view(old(ids)@)),
        fits(gview(*old(g))),
    ensures
        gview(*final(g)) == link(gview(*old(g)), (ta.0@, ta.1), (tb.0@, tb.1), w),
        gwf(gview(*final(g)), ids_view(final(ids)@)),
{
    let ghost g0 = gview(*g);
    let a = node_index(g, ids, ta.0.as_str(), ta.1);
    let b = node_index(g, ids, tb.0.as_str(), tb.1);
    let ghost g2 = gview(*g);
    proof {
        lemma_node_at(g2.nodes, (ta.0@, ta.1), 0);
        lemma_node_at(g2.nodes, (tb.0@, tb.1), 0);
        lemma_node_at(with_node(g0, (ta.0@, ta.1)).nodes, (ta.0@, ta.1), 0);
        assert(g2 == with_node(with_node(g0, (ta.0@, ta.1)), (tb.0@, tb.1)));
        if node_at(with_node(g0, (ta.0@, ta.1)).nodes, (tb.0@, tb.1), 0) < 0 {
            assert(g2.nodes[a as int] == (ta.0@, ta.1));
            lemma_node_at(with_node(g0, (ta.0@, ta.1)).nodes, (ta.0@, ta.1), 0);
        }
        assert(node_at(g2.nodes, (ta.0@, ta.1), 0) == a) by {
            lemma_node_at(with_node(g0, (ta.0@, ta.1)).nodes, (ta.0@, ta.1), 0);
            assert(g2.nodes[a as int] == (ta.0@, ta.1));
        }
        lemma_edge_at(g2.edges, a as int, b as int, 0);
    }
    match graph_find_edge(g, a, b) {
        Some(e) => {
            proof {
                let k = edge_at(g2.edges, a as int, b as int, 0);
                assert(k >= 0 && k <= e);
                if k < e {
                    assert(!connects(g2.edges[e as int], g2.edges[k].0 as int, g2.edges[k].1 as int));
                    assert(false);
                }
            }
            let mut lab = graph_edge_weight(g, e);
            lab.push(w);
            graph_set_edge_weight(g, e, lab);
            proof {
                let g3 = gview(*g);
                assert(g3 =~= link(g0, (ta.0@, ta.1), (tb.0@, tb.1), w));
            }
        },
        None => {
            let mut lab: EdgeType = Vec::new();
            lab.push(w);
            graph_add_edge(g, a, b, lab);
            proof {
                let g3 = gview(*g);
                assert(lab@ =~= seq![w]);
                assert(g3 =~= link(g0, (ta.0@, ta.1), (tb.0@, tb.1), w));
                assert forall|k: int, l: int| #![trigger g3.edges[k], g3.edges[l]] 0 <= k < l < g3.edges.len() implies !connects(
                    g3.edges[l],
                    g3.edges[k].0 as int,
                    g3.edges[k].1 as int,
                ) by {
                    if l == g3.edges.len() - 1 {
                        assert(!connects(g2.edges[k], a as int, b as int));
                    } else {
                        assert(g3.edges[l] == g2.edges[l] && g3.edges[k] == g2.edges[k]);
                    }
                }
            }
        },
    }
}


/// The pairs `(a, b)` with `i <= a < b < n`, in lexicographic order.
pub open spec fn comb_from(i: int, n: int) -> Seq<(int, int)>
    decreases n - i,
{
    if i >= n {
        Seq::empty()
    } else {
        Seq::new((n - i - 1) as nat, |k: int| (i, i + 1 + k)) + comb_from(i + 1, n)
    }
}

/// Every pair of `comb_from(i, n)` is ordered and lies in `[i, n)`.
pub proof fn lemma_comb_from(i: int, n: int)
    ensures
        forall|k: int| 0 <= k < comb_from(i, n).len() ==> i <= #[trigger] comb_from(i, n)[k].0 < comb_from(i, n)[k].1 < n,
    decreases n - i,
{
    if i < n {
        lemma_comb_from(i + 1, n);
        let h = Seq::new((n - i - 1) as nat, |k: int| (i, i + 1 + k));
        assert forall|k: int| 0 <= k < comb_from(i, n).len() implies i <= #[trigger] comb_from(i, n)[k].0 < comb_from(i, n)[k].1 < n by {
            if k >= h.len() {
                assert(comb_from(i, n)[k] == comb_from(i + 1, n)[k - h.len()]);
            }
        }
    }
}

/// `Itertools::tuple_combinations` over the indices `0..n`: each pair of
/// indices `a < b` below `n`, in lexicographic order, as its documentation
/// guarantees for a deterministic iterator.
#[verifier::external_body]
#[allow(deprecated)]
fn index_pairs(n: usize) -> (r: Vec<(usize, usize)>)
    ensures
        r@.len() == comb_from(0, n as int).len(),
        forall|k: int| 0 <= k < r@.len() ==> (r@[k].0 as int, r@[k].1 as int) == comb_from(0, n as int)[k],
{
    (0..n).tuple_combinations::<(usize, usize)>().collect()
}

/// A link to add, in executable form: two nodes and the label entry.
pub type EdgeEntry = (NodeType, NodeType, InstPos, usize);

/// The plain view of a list of links.
pub open spec fn entries_view(es: Seq<EdgeEntry>) -> Seq<Link> {
    es.map_values(|e: EdgeEntry| ((e.0.0@, e.0.1), (e.1.0@, e.1.1), e.2, e.3))
}

/// The pairs of each split map, in order.
pub open spec fn map_pairs(ms: Seq<SplitMap>) -> Seq<Seq<(Seq<char>, i8)>> {
    ms.map_values(|m: SplitMap| m.pairs())
}

/// The links of one split map: each two of its pairs, in the order of
/// `comb_from`, labelled by the instruction and the map's index.
pub open spec fn pair_links(ps: Seq<(Seq<char>, i8)>, pos: InstPos, k: usize) -> Seq<Link> {
    comb_from(0, ps.len() as int).map_values(|q: (int, int)| (ps[q.0], ps[q.1], pos, k))
}

/// The links of the first `n` split maps of a derivation, map after map.
pub open spec fn maps_links(ms: Seq<Seq<(Seq<char>, i8)>>, pos: InstPos, n: int) -> Seq<Link>
    decreases n,
{
    if n <= 0 {
        Seq::empty()
    } else {
        maps_links(ms, pos, n - 1) + pair_links(ms[n - 1], pos, (n - 1) as usize)
    }
}

/// The links that the derivation `res` of the instruction at `pos` gives:
/// for each split map, each two of its variables.
pub fn edge_entries(pos: InstPos, res: &Vec<SplitMap>) -> (r: Vec<EdgeEntry>)
    ensures
        entries_view(r@) == maps_links(map_pairs(res@), pos, res@.len() as int),
{
    let ghost ms = map_pairs(res@);
    let mut r: Vec<EdgeEntry> = Vec::new();
    let m = res.len();
    let mut k: usize = 0;
    while k < m
        invariant
            m == res@.len(),
            ms == map_pairs(res@),
            k <= m,
            entries_view(r@) == maps_links(ms, pos, k as int),
        decreases m - k,
    {
        let ps = res[k].entries();
        let n = ps.len();
        let pairs = index_pairs(n);
        let ghost base = entries_view(r@);
        let ghost pl = pair_links(ms[k as int], pos, k);
        proof {
            lemma_comb_from(0, n as int);
            assert(ms[k as int] == res@[k as int].pairs());
        }
        let np = pairs.len();
        let mut t: usize = 0;
        while t < np
            invariant
                np == pairs@.len(),
                n == ps@.len(),
                crate::ir::strmap::pairs_view(ps@) == ms[k as int],
                pl == pair_links(ms[k as int], pos, k),
                np == comb_from(0, n as int).len(),
                forall|q: int| 0 <= q < np ==> (pairs@[q].0 as int, pairs@[q].1 as int) == comb_from(0, n as int)[q],
                forall|q: int| 0 <= q < comb_from(0, n as int).len() ==> 0 <= #[trigger] comb_from(0, n as int)[q].0 < comb_from(0, n as int)[q].1 < n,
                t <= np,
                entries_view(r@) == base + pl.take(t as int),
            decreases np - t,
        {
            let (a, b) = pairs[t];
            assert(comb_from(0, n as int)[t as int] == (a as int, b as int));
            let ea = (ps[a].0.clone(), ps[a].1);
            let eb = (ps[b].0.clone(), ps[b].1);
            let ghost before = r@;
            r.push((ea, eb, pos, k));
            proof {
                assert(crate::ir::strmap::pairs_view(ps@)[a as int] == (ps@[a as int].0@, ps@[a as int].1));
                assert(crate::ir::strmap::pairs_view(ps@)[b as int] == (ps@[b as int].0@, ps@[b as int].1));
                assert(pl[t as int] == (ms[k as int][a as int], ms[k as int][b as int], pos, k));
                assert(entries_view(r@) =~= entries_view(before).push(pl[t as int]));
                assert(pl.take(t as int + 1) =~= pl.take(t as int).push(pl[t as int]));
            }
            t = t + 1;
        }
        proof {
            assert(pl.take(np as int) =~= pl);
        }
        k = k + 1;
    }
    r
}

/// `a` has no more nodes and no more edges than `b`.
pub open spec fn le(a: GView, b: GView) -> bool {
    a.nodes.len() <= b.nodes.len() && a.edges.len() <= b.edges.len()
}

/// Adding a link never removes a node or an edge.
pub proof fn lemma_link_grows(g: GView, ta: (Seq<char>, i8), tb: (Seq<char>, i8), w: (InstPos, usize))
    ensures
        le(g, link(g, ta, tb, w)),
{
    let g1 = with_node(g, ta);
    let g2 = with_node(g1, tb);
    assert(le(g, g1));
    assert(le(g1, g2));
    let a = node_at(g2.nodes, ta, 0);
    let b = node_at(g2.nodes, tb, 0);
    let k = edge_at(g2.edges, a, b, 0);
    if k >= 0 {
        lemma_edge_at(g2.edges, a, b, 0);
    }
}

/// Adding more links of a list gives a graph at least as large.
pub proof fn lemma_link_all_mono(g: GView, ls: Seq<Link>, a: int, b: int)
    requires
        0 <= a <= b,
    ensures
        le(link_all(g, ls, a), link_all(g, ls, b)),
    decreases b,
{
    if a < b {
        lemma_link_all_mono(g, ls, a, b - 1);
        let h = link_all(g, ls, b - 1);
        lemma_link_grows(h, ls[b - 1].0, ls[b - 1].1, (ls[b - 1].2, ls[b - 1].3));
    }
}

/// Adds the links of `es` in order.
pub fn add_links(g: &mut SplitGraph, ids: &mut Vec<(NodeType, usize)>, es: &Vec<EdgeEntry>)
    requires
        gwf(gview(*old(g)), ids_view(old(ids)@)),
        fits(link_all(gview(*old(g)), entries_view(es@), es@.len() as int)),
    ensures
        gview(*final(g)) == link_all(gview(*old(g)), entries_view(es@), es@.len() as int),
        gwf(gview(*final(g)), ids_view(final(ids)@)),
{
    let ghost g0 = gview(*g);
    let ghost ls = entries_view(es@);
    let n = es.len();
    let mut i: usize = 0;
    while i < n
        invariant
            n == es@.len(),
            ls == entries_view(es@),
            i <= n,
            gview(*g) == link_all(g0, ls, i as int),
            gwf(gview(*g), ids_view(ids@)),
            fits(link_all(g0, ls, n as int)),
        decreases n - i,
    {
        proof {
            lemma_link_all_mono(g0, ls, i as int, n as int);
        }
        let e = &es[i];
        add_link(g, ids, &e.0, &e.1, (e.2, e.3));
        i = i + 1;
    }
}

} // verus!
