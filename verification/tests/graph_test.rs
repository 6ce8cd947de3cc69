use hpgo::ir::derive::Derivation;
use hpgo::ir::hlo_ast::{FunctionCall, HLOFunction, HLORoot, Instruction, Meta, Param, RichParam, RichType, Type};
use hpgo::ir::propagate::context::ConstraintMap;
use hpgo::ir::propagate::vargraph::VarGraph3D;
use hpgo::ir::ungraph::VarGraph2D;
use petgraph::graph::{EdgeIndex, NodeIndex};

fn rt(dims: &[i32]) -> RichType {
    RichType { data_type: "f32".to_string(), dimensions: Some(dims.to_vec()), layout: None }
}

fn rp(name: &str, dims: &[i32]) -> RichParam {
    RichParam { param_type: rt(dims), name: name.to_string() }
}

fn text(key: &str, v: &str) -> Meta {
    Meta { key: key.to_string(), str_value: Some(v.to_string()), dict_value: None, num_list: None, slice_list: None }
}

fn inst(var: &str, op: &str, ret: &[i32], params: Option<Vec<RichParam>>, meta: Option<Vec<Meta>>) -> Instruction {
    Instruction {
        var_name: var.to_string(),
        function: FunctionCall { return_types: vec![rt(ret)], name: op.to_string(), params },
        meta,
    }
}

fn param(name: &str, dims: &[i32]) -> Param {
    Param { name: name.to_string(), param_type: Type { data_type: "f32".to_string(), dimensions: Some(dims.to_vec()) } }
}

fn func(name: &str, params: Vec<Param>, body: Vec<Instruction>) -> HLOFunction {
    HLOFunction { name: name.to_string(), params, return_types: vec![], body }
}

/// `%c = add(%a, %b)` over `[4, 8]`, and a fusion of `%c` with `%a`.
fn module() -> HLORoot {
    let main = func(
        "%main",
        vec![param("%a", &[4, 8]), param("%b", &[4, 8])],
        vec![
            inst("%a", "parameter", &[4, 8], None, None),
            inst("%b", "parameter", &[4, 8], None, None),
            inst("%c", "add", &[4, 8], Some(vec![rp("%a", &[4, 8]), rp("%b", &[4, 8])]), None),
        ],
    );
    let other = func(
        "%other",
        vec![],
        vec![inst("%f", "fusion", &[4, 8], Some(vec![rp("%c", &[4, 8]), rp("%a", &[4, 8])]), Some(vec![text("calls", "%main")]))],
    );
    HLORoot::new(vec![main, other])
}

fn node(name: &str, dim: i8) -> (String, i8) {
    (name.to_string(), dim)
}

#[test]
fn test_vargraph3d_build_from_hlo() {
    let ast = module();
    let d = Derivation::new_with_ast(&ast);
    let mut g = VarGraph3D::new(&d);
    let built = g.build_from_hlo().unwrap();
    // the add gives three maps over three variables: three edges each; the
    // fusion replicates its result and operands: two more edges and one
    // more label
    assert_eq!(built.node_count(), 10);
    assert_eq!(built.edge_count(), 11);
    // nodes in order of first use: the pairs of the add's first map
    assert_eq!(g.graph[NodeIndex::new(0)], node("%c", 0));
    assert_eq!(g.graph[NodeIndex::new(1)], node("%a", 0));
    assert_eq!(g.graph[NodeIndex::new(2)], node("%b", 0));
    assert_eq!(g.graph[NodeIndex::new(6)], node("%c", -1));
    assert_eq!(g.graph[NodeIndex::new(9)], node("%f", -1));
    // each edge is labelled by the instruction and the map that relate its ends
    assert_eq!(g.graph.edge_weight(EdgeIndex::new(0)).unwrap(), &vec![((0, 2), 0)]);
    assert_eq!(g.graph.edge_weight(EdgeIndex::new(5)).unwrap(), &vec![((0, 2), 1)]);
    // the fusion relates (%c, -1) and (%a, -1) again: that edge gets a second label
    let e = g.graph.find_edge(NodeIndex::new(6), NodeIndex::new(7)).unwrap();
    assert_eq!(g.graph.edge_weight(e).unwrap(), &vec![((0, 2), 2), ((1, 0), 0)]);
    // the fusion is recorded, and every instruction is cached
    assert_eq!(g.fusion_inst, vec![(1, 0)]);
    assert_eq!(g.node_edge_cache.len(), 4);
}

#[test]
fn test_vargraph3d_get_node_id() {
    let ast = module();
    let d = Derivation::new_with_ast(&ast);
    let mut g = VarGraph3D::new(&d);
    g.build_from_hlo().unwrap();
    assert_eq!(g.get_node_id("%a", 1), Some(4));
    // a name without `%` is tried with it
    assert_eq!(g.get_node_id("a", 1), Some(4));
    assert_eq!(g.get_node_id("%z", 0), None);
    assert_eq!(g.get_node_id("z", 0), None);
    // node_id adds a node only when it is missing
    assert_eq!(g.node_id("%a", 1), 4);
    assert_eq!(g.node_id("%z", 0), 10);
    assert_eq!(g.graph.node_count(), 11);
}

#[test]
fn test_vargraph3d_build_from_function() {
    let ast = module();
    let d = Derivation::new_with_ast(&ast);
    let mut g = VarGraph3D::new(&d);
    let built = g.build_from_function("%other").unwrap();
    assert_eq!(built.node_count(), 3);
    assert_eq!(built.edge_count(), 3);
    assert_eq!(g.graph[NodeIndex::new(0)], node("%f", -1));
    assert_eq!(g.fusion_inst, vec![(1, 0)]);
    // no function of that name: an empty graph
    let empty = g.build_from_function("%none").unwrap();
    assert_eq!(empty.node_count(), 0);
    assert_eq!(empty.edge_count(), 0);
}

#[test]
fn test_vargraph3d_rebuild_same_graph() {
    let ast = module();
    let d = Derivation::new_with_ast(&ast);
    let mut g = VarGraph3D::new(&d);
    let first = format!("{:?}", g.build_from_hlo().unwrap());
    let dot1 = g.export_to_dot().unwrap();
    // the second build reads every instruction from the cache
    let second = format!("{:?}", g.build_from_hlo().unwrap());
    assert_eq!(first, second);
    assert_eq!(dot1, g.export_to_dot().unwrap());
    // cached instructions are not recorded as fusions again
    assert_eq!(g.fusion_inst, vec![(1, 0)]);
    assert_eq!(g.node_edge_cache.len(), 4);
}

#[test]
fn test_vargraph3d_update_from_inst() {
    let ast = module();
    let d = Derivation::new_with_ast(&ast);
    let mut g = VarGraph3D::new(&d);
    assert!(g.update_graph_from_inst(0, (0, 2)));
    assert_eq!(g.graph.node_count(), 9);
    assert_eq!(g.graph.edge_count(), 9);
    // visiting it again adds its labels again
    assert!(g.update_graph_from_inst(0, (0, 2)));
    assert_eq!(g.graph.edge_count(), 9);
    assert_eq!(g.graph.edge_weight(EdgeIndex::new(0)).unwrap(), &vec![((0, 2), 0), ((0, 2), 0)]);
    // a parameter splits only itself: no edge
    assert!(g.update_graph_from_inst(1, (0, 0)));
    assert_eq!(g.graph.edge_count(), 9);
    assert_eq!(g.node_edge_cache.len(), 2);
}

#[test]
fn test_vargraph3d_update_node_edge_cache() {
    let ast = module();
    let d = Derivation::new_with_ast(&ast);
    let mut g = VarGraph3D::new(&d);
    let maps = d.derive_infer(0, 2).unwrap();
    g.update_node_edge_cache((0, 2), maps);
    assert_eq!(g.node_edge_cache.len(), 1);
    let (pos, links) = &g.node_edge_cache[0];
    assert_eq!(*pos, (0, 2));
    assert_eq!(links.len(), 9);
    assert_eq!(links[0], (node("%c", 0), node("%a", 0), (0, 2), 0));
    assert_eq!(links[1], (node("%c", 0), node("%b", 0), (0, 2), 0));
    assert_eq!(links[2], (node("%a", 0), node("%b", 0), (0, 2), 0));
    assert_eq!(links[8], (node("%a", -1), node("%b", -1), (0, 2), 2));
    // the cached links are used as they are
    assert!(g.update_graph_from_inst(0, (0, 2)));
    assert_eq!(g.graph.edge_count(), 9);
}

#[test]
fn test_hlo_export_dot_3d() {
    let ast = module();
    let d = Derivation::new_with_ast(&ast);
    let mut g = VarGraph3D::new(&d);
    g.build_from_function("%other").unwrap();
    let dot = g.export_to_dot().unwrap();
    assert!(dot.starts_with("graph {"));
    assert!(dot.contains("0 -- 1"));
    assert!(dot.contains("%f"));
}

#[test]
fn test_vargraph2d_build() {
    let ast = module();
    let d = Derivation::new_with_ast(&ast);
    let mut g = VarGraph2D::new(&d);
    let built = g.build_from_hlo().unwrap();
    assert_eq!(built.node_count(), 10);
    assert_eq!(built.edge_count(), 11);
    assert_eq!(g.g[NodeIndex::new(3)], node("%c", 1));
    let main_only = g.build_from_function("%main").unwrap();
    assert_eq!(main_only.node_count(), 9);
    assert_eq!(main_only.edge_count(), 9);
    let dot = g.export_to_dot().unwrap();
    assert!(dot.starts_with("graph {"));
}

#[test]
fn test_vargraph3d_merge_with() {
    let mut a = ConstraintMap::new();
    a.insert("%x".to_string(), vec![0, 1]);
    a.insert("%y".to_string(), vec![-1]);
    let mut b = ConstraintMap::new();
    b.insert("%x".to_string(), vec![1, 2, -1]);
    b.insert("%z".to_string(), vec![0]);
    VarGraph3D::merge_with(&mut a, &b);
    // a shared variable gains what it lacked, in the order of `b`
    assert_eq!(a.get("%x"), Some(&vec![0, 1, 2, -1]));
    assert_eq!(a.get("%y"), Some(&vec![-1]));
    assert_eq!(a.get("%z"), Some(&vec![0]));
    // joining again changes nothing
    VarGraph3D::merge_with(&mut a, &b);
    assert_eq!(a.get("%x"), Some(&vec![0, 1, 2, -1]));
    assert_eq!(a.len(), 3);
}

#[test]
fn test_vargraph3d_intersect_with() {
    let mut a = ConstraintMap::new();
    a.insert("%x".to_string(), vec![0, 1, -1]);
    let mut b = ConstraintMap::new();
    b.insert("%x".to_string(), vec![-1, 1]);
    b.insert("%w".to_string(), vec![2]);
    assert!(VarGraph3D::intersect_with(&mut a, &b));
    assert_eq!(a.get("%x"), Some(&vec![1, -1]));
    assert_eq!(a.get("%w"), Some(&vec![2]));
    let mut c = ConstraintMap::new();
    c.insert("%x".to_string(), vec![0]);
    assert!(!VarGraph3D::intersect_with(&mut a, &c));
}

#[test]
fn test_hlo_export_dot_2d() {
    let ast = module();
    let d = Derivation::new_with_ast(&ast);
    let mut g = VarGraph2D::new(&d);
    g.build_from_function("%main").unwrap();
    let dot = g.export_to_dot().unwrap();
    assert!(dot.starts_with("graph {"));
    assert!(dot.contains("0 -- 1"));
    assert!(dot.contains("%c"));
}
