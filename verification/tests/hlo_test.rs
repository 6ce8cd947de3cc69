use hpgo::ir::conductor::Conductor;
use hpgo::ir::derive::Derivation;
use hpgo::ir::error::{ASTError, DeriveError, PropagationError};
use hpgo::ir::hlo_ast::{
    FunctionCall, HLOFunction, HLORoot, Instruction, Meta, Param, RichParam, RichType, Type,
};
use hpgo::ir::propagate::context::{intersect_with, ConstraintMap, Context};
use hpgo::ir::split::SplitMap;

fn rt(dims: &[i32]) -> RichType {
    RichType { data_type: "f32".to_string(), dimensions: Some(dims.to_vec()), layout: None }
}

fn rp(name: &str, dims: &[i32]) -> RichParam {
    RichParam { param_type: rt(dims), name: name.to_string() }
}

fn nums(key: &str, v: &[i32]) -> Meta {
    Meta {
        key: key.to_string(),
        str_value: None,
        dict_value: None,
        num_list: Some(v.to_vec()),
        slice_list: None,
    }
}

fn text(key: &str, v: &str) -> Meta {
    Meta {
        key: key.to_string(),
        str_value: Some(v.to_string()),
        dict_value: None,
        num_list: None,
        slice_list: None,
    }
}

fn inst(var: &str, op: &str, ret: &[i32], params: Option<Vec<RichParam>>, meta: Option<Vec<Meta>>) -> Instruction {
    Instruction {
        var_name: var.to_string(),
        function: FunctionCall { return_types: vec![rt(ret)], name: op.to_string(), params },
        meta,
    }
}

fn param(name: &str, dims: &[i32]) -> Param {
    Param {
        name: name.to_string(),
        param_type: Type { data_type: "f32".to_string(), dimensions: Some(dims.to_vec()) },
    }
}

fn func(name: &str, params: Vec<Param>, body: Vec<Instruction>) -> HLOFunction {
    HLOFunction { name: name.to_string(), params, return_types: vec![], body }
}

/// `%c = add(%a, %b)` over two parameters of shape `[4, 8]`.
fn add_fn() -> HLOFunction {
    func(
        "%add_fn",
        vec![param("%a", &[4, 8]), param("%b", &[4, 8])],
        vec![
            inst("%a", "parameter", &[4, 8], None, None),
            inst("%b", "parameter", &[4, 8], None, None),
            inst("%c", "add", &[4, 8], Some(vec![rp("%a", &[4, 8]), rp("%b", &[4, 8])]), None),
        ],
    )
}

fn cached(functions: Vec<HLOFunction>) -> HLORoot {
    let mut ast = HLORoot::new(functions);
    ast.cache_all_positional().unwrap();
    ast
}

fn split_of(m: &SplitMap, k: &str) -> Option<i8> {
    m.get(k).copied()
}

fn dims_of(m: &ConstraintMap, k: &str) -> Option<Vec<i8>> {
    m.get(k).cloned()
}

fn matmul_inst() -> Instruction {
    inst(
        "%x",
        "dot",
        &[2, 3, 4, 6],
        Some(vec![rp("%a", &[2, 3, 4, 5]), rp("%b", &[2, 3, 5, 6])]),
        Some(vec![
            nums("lhs_batch_dims", &[0, 1]),
            nums("rhs_batch_dims", &[0, 1]),
            nums("lhs_contracting_dims", &[3]),
            nums("rhs_contracting_dims", &[2]),
        ]),
    )
}

#[test]
fn test_hlo_derive_matmul() {
    let result = Derivation::d(&matmul_inst()).unwrap();
    for x in &result {
        println!("a: {:?}, b: {:?}, x: {:?}", split_of(x, "%a"), split_of(x, "%b"), split_of(x, "%x"));
    }
    assert_eq!(result.len(), 6);
    let expect: [(i8, i8, i8); 6] = [(-1, -1, -1), (3, 2, -1), (2, -1, 2), (-1, 3, 3), (0, 0, 0), (1, 1, 1)];
    for (m, e) in result.iter().zip(expect.iter()) {
        assert_eq!(split_of(m, "%a"), Some(e.0));
        assert_eq!(split_of(m, "%b"), Some(e.1));
        assert_eq!(split_of(m, "%x"), Some(e.2));
    }
}

#[test]
fn test_hlo_derive_elem() {
    let f = add_fn();
    let result = Derivation::d(&f.body[2]).unwrap();
    assert_eq!(result.len(), 3);
    for (m, d) in result.iter().zip([0i8, 1, -1].iter()) {
        assert_eq!(split_of(m, "%a"), Some(*d));
        assert_eq!(split_of(m, "%b"), Some(*d));
        assert_eq!(split_of(m, "%c"), Some(*d));
    }
    let id = Derivation::d(&f.body[0]).unwrap();
    assert_eq!(id.len(), 3);
    assert_eq!(split_of(&id[2], "%a"), Some(-1));
}

#[test]
fn test_hlo_derive_reshape() {
    let i = inst("%y", "reshape", &[6, 4], Some(vec![rp("%x", &[2, 3, 4])]), None);
    let result = Derivation::d(&i).unwrap();
    for x in &result {
        println!("{:?} {:?}", split_of(x, "%x"), split_of(x, "%y"));
    }
    let last = &result[result.len() - 1];
    assert_eq!(split_of(last, "%x"), Some(-1));
    assert_eq!(split_of(last, "%y"), Some(-1));
    assert!(result.iter().any(|m| split_of(m, "%x") == Some(2) && split_of(m, "%y") == Some(1)));
}

#[test]
fn test_hlo_derive_transpose() {
    let i = inst(
        "%t",
        "transpose",
        &[8, 4],
        Some(vec![rp("%m", &[4, 8])]),
        Some(vec![nums("dimensions", &[1, 0])]),
    );
    let result = Derivation::d(&i).unwrap();
    for x in &result {
        println!("{:?} {:?}", split_of(x, "%m"), split_of(x, "%t"));
    }
    assert!(result.iter().any(|m| split_of(m, "%m") == Some(1) && split_of(m, "%t") == Some(0)));
    assert!(result.iter().any(|m| split_of(m, "%m") == Some(-1) && split_of(m, "%t") == Some(-1)));
}

#[test]
fn test_hlo_derive_broadcast() {
    let i = inst(
        "%y",
        "broadcast",
        &[4, 8],
        Some(vec![rp("%x", &[8])]),
        Some(vec![nums("dimensions", &[1])]),
    );
    let result = Derivation::d(&i).unwrap();
    for x in &result {
        println!("{:?} {:?}", split_of(x, "%x"), split_of(x, "%y"));
    }
    assert!(result.iter().any(|m| split_of(m, "%x") == Some(0) && split_of(m, "%y") == Some(1)));
    assert!(result.iter().any(|m| split_of(m, "%x") == Some(-1) && split_of(m, "%y") == Some(-1)));
}

#[test]
fn test_hlo_derive_concat() {
    let i = inst(
        "%y",
        "concatenate",
        &[4, 16],
        Some(vec![rp("%p", &[4, 8]), rp("%q", &[4, 8])]),
        Some(vec![nums("dimensions", &[1])]),
    );
    let result = Derivation::d(&i).unwrap();
    for x in &result {
        println!("{:?} {:?} {:?}", split_of(x, "%p"), split_of(x, "%q"), split_of(x, "%y"));
    }
    assert!(result.iter().any(|m| split_of(m, "%p") == Some(0) && split_of(m, "%y") == Some(0)));
    assert!(!result.iter().any(|m| split_of(m, "%y") == Some(1)));
}

#[test]
fn test_hlo_derive_unknown_op_replicates() {
    let i = inst("%y", "custom-call", &[4], Some(vec![rp("%p", &[4])]), None);
    let result = Derivation::d(&i).unwrap();
    assert_eq!(result.len(), 1);
    assert_eq!(split_of(&result[0], "%p"), Some(-1));
    assert_eq!(split_of(&result[0], "%y"), Some(-1));
}

#[test]
fn test_hlo_derive_errors() {
    let mut m = matmul_inst();
    m.meta = Some(vec![nums("lhs_contracting_dims", &[3]), nums("rhs_contracting_dims", &[2])]);
    m.function.return_types[0].dimensions = None;
    match Derivation::d(&m) {
        Err(DeriveError::OptionNone(s)) => assert_eq!(s, "inst.fn.return_type.dimensions"),
        other => panic!("unexpected {:?}", other),
    }
    let e = inst("%c", "add", &[4], None, None);
    match Derivation::d(&e) {
        Err(DeriveError::OptionNone(s)) => assert_eq!(s, "inst.fn.params"),
        other => panic!("unexpected {:?}", other),
    }
    let cache: Vec<Vec<Vec<SplitMap>>> = Vec::new();
    match Derivation::lookup(&cache, 0, 0) {
        Err(DeriveError::InstNotInCache(s)) => assert_eq!(s, "(0, 0)"),
        other => panic!("unexpected {:?}", other),
    }
}

#[test]
fn test_ast_positional_cache() {
    let mut ast = HLORoot::new(vec![add_fn(), func("%other", vec![], vec![inst("%z", "constant", &[], None, None)])]);
    ast.cache_all_positional().unwrap();
    for i in 0..ast.functions.len() {
        assert_eq!(Some(&i), ast.func_id.get(&ast.functions[i].name));
        for j in 0..ast.functions[i].body.len() {
            assert_eq!(j, ast.inst_local_id[i][j]);
            assert_eq!((i, j), ast.inst_pos[i][j]);
        }
    }
    assert_eq!(ast.inst_id[1][0], 3);
    let c = ast.var_pos.get("%c").unwrap();
    assert_eq!(c.0, 0);
    assert_eq!(c.1, vec![2]);
    let a = ast.var_pos.get("%a").unwrap();
    assert_eq!(a.1, vec![0, 2]);
    assert_eq!(ast.var_pos.len(), 4);
    assert_eq!(ast.cache_all_positional(), Err(ASTError::CacheFuncTwice));
}

#[test]
fn test_derive_cache() {
    let ast = cached(vec![add_fn()]);
    let d = Derivation::new_with_ast(&ast);
    let cache_result = d.cache_export().unwrap();
    assert_eq!(cache_result.len() > 0, true);
    assert_eq!(cache_result[0].len(), 3);
    assert_eq!(cache_result[0][2].len(), 3);
}

#[test]
fn test_hlo_derive_cache() {
    let mut d = Derivation::new();
    assert!(matches!(d.cache_export(), Err(DeriveError::CacheNotAvailable())));
    let ast = cached(vec![add_fn()]);
    d.cache_all_derive(&ast).unwrap();
    println!("cache has {} entries", d.derive_cache.len());
    assert_eq!(d.derive_cache.len(), 1);
    assert_eq!(d.derive_infer(0, 1).unwrap().len(), 3);
    assert!(matches!(d.derive_infer(0, 3), Err(DeriveError::InstNotInCache(_))));
}

#[test]
fn test_tree_bfs() {
    let ast = cached(vec![add_fn()]);
    let pc = Context::new(ast);
    let result = pc.propagate_bfs(0, "%a", 0, &ConstraintMap::new(), false).unwrap().unwrap();
    assert_eq!(result.len(), 3);
    assert_eq!(dims_of(&result, "%a"), Some(vec![0]));
    assert_eq!(dims_of(&result, "%b"), Some(vec![0]));
    assert_eq!(dims_of(&result, "%c"), Some(vec![0]));
}

#[test]
fn test_bfs_conflict() {
    let pc = Context::new(cached(vec![add_fn()]));
    let mut c = ConstraintMap::new();
    c.insert("%b".to_string(), vec![1]);
    assert!(pc.propagate_bfs(0, "%a", 0, &c, false).unwrap().is_none());
    // a variable the constraints already fix is given back unchanged
    let mut d = ConstraintMap::new();
    d.insert("%a".to_string(), vec![1]);
    let same = pc.propagate_bfs(0, "%a", 1, &d, false).unwrap().unwrap();
    assert_eq!(same.len(), 1);
    // a split the constraints exclude is a conflict
    assert!(pc.propagate_bfs(0, "%a", 0, &d, false).unwrap().is_none());
}

#[test]
fn test_bfs_narrows_multi() {
    let pc = Context::new(cached(vec![add_fn()]));
    let mut c = ConstraintMap::new();
    c.insert("%b".to_string(), vec![1, -1, 0]);
    let r = pc.propagate_bfs(0, "%a", -1, &c, false).unwrap().unwrap();
    assert_eq!(dims_of(&r, "%b"), Some(vec![-1]));
    assert_eq!(dims_of(&r, "%c"), Some(vec![-1]));
}

#[test]
fn test_tree_propagation() {
    let ast = cached(vec![add_fn()]);
    let params = ast.functions[0].params.clone();
    let pc = Context::new(ast);
    let mut best = 0usize;
    let remt_result = pc.propagate_remt(0, &params, 0, &ConstraintMap::new(), vec![], false, &mut best).unwrap();
    println!("remt returns {} solutions", remt_result.len());
    assert_eq!(remt_result.len(), 3);
    for (r, d) in remt_result.iter().zip([0i8, 1, -1].iter()) {
        assert_eq!(dims_of(r, "%a"), Some(vec![*d]));
        assert_eq!(dims_of(r, "%b"), Some(vec![*d]));
        assert_eq!(dims_of(r, "%c"), Some(vec![*d]));
    }
    let by_fn = pc.propagate_fn(0).unwrap();
    assert_eq!(by_fn.len(), 3);
}

#[test]
fn test_remt_main_task_progress() {
    let ast = cached(vec![add_fn()]);
    let params = ast.functions[0].params.clone();
    let pc = Context::new(ast);
    let mut best = 0usize;
    let r = pc.propagate_remt(0, &params, 0, &ConstraintMap::new(), vec![], true, &mut best).unwrap();
    // replicating `%a` leaves at most one split parameter, below the best of two
    assert_eq!(r.len(), 2);
    assert_eq!(best, 2);
    // a branch that cannot reach the best progress is abandoned
    let mut best2 = 2usize;
    let pruned = pc.propagate_remt(0, &params, 1, &ConstraintMap::new(), vec![-1, -1], true, &mut best2).unwrap();
    assert!(pruned.is_empty());
    // the main task tries `%a` only along 0 and `%b` only replicated, which conflict
    let mut best3 = 0usize;
    pc.propagate_remtp(0, &params, 0, &ConstraintMap::new(), vec![], true, &mut best3).unwrap();
    assert_eq!(best3, 0);
    let mut best4 = 1usize;
    pc.propagate_remtp(0, &params, 0, &ConstraintMap::new(), vec![], false, &mut best4).unwrap();
    assert_eq!(best4, 1);
}

#[test]
fn test_intersect_with() {
    let mut a = ConstraintMap::new();
    a.insert("%x".to_string(), vec![0, 1, -1]);
    a.insert("%y".to_string(), vec![1]);
    let mut b = ConstraintMap::new();
    b.insert("%x".to_string(), vec![-1, 0]);
    b.insert("%z".to_string(), vec![2]);
    assert!(intersect_with(&mut a, &b));
    assert_eq!(dims_of(&a, "%x"), Some(vec![0, -1]));
    assert_eq!(dims_of(&a, "%y"), Some(vec![1]));
    assert_eq!(dims_of(&a, "%z"), Some(vec![2]));
    let mut c = ConstraintMap::new();
    c.insert("%y".to_string(), vec![0]);
    assert!(!intersect_with(&mut a, &c));
}

#[test]
fn test_context_derive_filter() {
    let pc = Context::new(cached(vec![add_fn()]));
    let hits = pc.derive(0, 2, "%a", 1).unwrap();
    assert_eq!(hits.len(), 1);
    assert_eq!(hits[0].1, 1);
    assert_eq!(split_of(&hits[0].0, "%c"), Some(1));
    assert!(matches!(pc.derive(0, 9, "%a", 1), Err(DeriveError::InstNotInCache(_))));
}

/// A caller `%main` with a fusion of `%fused`, which adds its parameters.
fn fusion_module() -> Vec<HLOFunction> {
    let fused = func(
        "%fused",
        vec![param("%p0", &[4]), param("%p1", &[4])],
        vec![
            inst("%p0", "parameter", &[4], None, None),
            inst("%p1", "parameter", &[4], None, None),
            inst("%r", "add", &[4], Some(vec![rp("%p0", &[4]), rp("%p1", &[4])]), None),
        ],
    );
    let main = func(
        "%main",
        vec![param("%x", &[4]), param("%y", &[4])],
        vec![
            inst("%x", "parameter", &[4], None, None),
            inst("%y", "parameter", &[4], None, None),
            inst(
                "%f",
                "fusion",
                &[4],
                Some(vec![rp("%x", &[4]), rp("%y", &[4])]),
                Some(vec![text("calls", "%fused")]),
            ),
        ],
    );
    vec![main, fused]
}

#[test]
fn test_fusion_derive() {
    let mut pc = Context::new(cached(fusion_module()));
    let list = pc.get_fusion_list(0).unwrap();
    assert_eq!(list, vec![((0, 2), 1)]);
    let fusion_result = pc.update_fusion_derive_cache(0).unwrap();
    for x in &fusion_result {
        println!("fn {:?} -> {} maps", x.0, x.1.len());
    }
    assert_eq!(fusion_result.len(), 1);
    let maps = &pc.derive[0][2];
    assert_eq!(maps.len(), 2);
    assert_eq!(split_of(&maps[0], "%x"), Some(0));
    assert_eq!(split_of(&maps[0], "%y"), Some(0));
    assert_eq!(split_of(&maps[0], "%f"), Some(0));
    assert_eq!(split_of(&maps[1], "%f"), Some(-1));
}

#[test]
fn test_conductor_queries() {
    let mut c = Conductor::new();
    assert!(c.ast.functions.is_empty());
    c.propagate = Context::new(cached(fusion_module()));
    assert_eq!(c.derive_enum(1, 2).len(), 2);
    assert_eq!(c.derive_infer(1, 2, "%p0".to_string(), 0).len(), 1);
    c.update_fusion_for(0).unwrap();
    assert_eq!(c.derive_enum(0, 2).len(), 2);
}

#[test]
fn test_augment_name() {
    let mut p = param("arg0", &[1]);
    p.augment_name();
    assert_eq!(p.name, "%arg0");
    p.augment_name();
    assert_eq!(p.name, "%arg0");
}

#[test]
fn test_hlo_derive_reshape_by_products() {
    let i = inst("%y", "reshape", &[6, 4], Some(vec![rp("%x", &[2, 3, 4])]), None);
    let result = Derivation::d_reshape(&i).unwrap();
    assert_eq!(result.len(), 4);
    let expect: [(i8, i8); 4] = [(0, 0), (1, 0), (2, 1), (-1, -1)];
    for (m, e) in result.iter().zip(expect.iter()) {
        assert_eq!(split_of(m, "%x"), Some(e.0));
        assert_eq!(split_of(m, "%y"), Some(e.1));
    }
    let widen = inst("%y", "reshape", &[2, 3, 4], Some(vec![rp("%x", &[6, 4])]), None);
    let w = Derivation::d_reshape(&widen).unwrap();
    assert_eq!(w.len(), 3);
    assert_eq!(split_of(&w[1], "%x"), Some(1));
    assert_eq!(split_of(&w[1], "%y"), Some(2));
    let bad = inst("%y", "reshape", &[2, 3], Some(vec![rp("%x", &[5])]), None);
    match Derivation::d_reshape(&bad) {
        Err(DeriveError::NoProductMatch(v)) => assert_eq!(v, "%y"),
        other => panic!("unexpected {:?}", other),
    }
}

#[test]
fn test_hlo_derive_gather() {
    let g = inst(
        "%g",
        "gather",
        &[3, 8],
        Some(vec![rp("%table", &[100, 8]), rp("%idx", &[3])]),
        Some(vec![nums("offset_dims", &[1])]),
    );
    let r = Derivation::d(&g).unwrap();
    assert_eq!(r.len(), 5);
    let expect: [(i8, i8, i8); 5] = [(1, -1, 1), (0, -1, -1), (0, 0, 0), (1, -1, 1), (-1, -1, -1)];
    for (m, e) in r.iter().zip(expect.iter()) {
        assert_eq!(split_of(m, "%table"), Some(e.0));
        assert_eq!(split_of(m, "%idx"), Some(e.1));
        assert_eq!(split_of(m, "%g"), Some(e.2));
    }
}

#[test]
fn test_hlo_derive_scatter() {
    let s = inst(
        "%s",
        "scatter",
        &[100, 8],
        Some(vec![rp("%table", &[100, 8]), rp("%idx", &[3]), rp("%upd", &[3, 8])]),
        None,
    );
    let r = Derivation::d(&s).unwrap();
    assert_eq!(r.len(), 6);
    let expect: [(i8, i8, i8, i8); 6] =
        [(0, -1, -1, 0), (1, -1, 1, 1), (0, -1, 0, 0), (1, -1, 1, 1), (0, -1, -1, 0), (-1, -1, -1, -1)];
    for (m, e) in r.iter().zip(expect.iter()) {
        assert_eq!(split_of(m, "%table"), Some(e.0));
        assert_eq!(split_of(m, "%idx"), Some(e.1));
        assert_eq!(split_of(m, "%upd"), Some(e.2));
        assert_eq!(split_of(m, "%s"), Some(e.3));
    }
}

#[test]
fn test_lookup_miss_names_position() {
    let empty: Vec<Vec<Vec<SplitMap>>> = vec![vec![]];
    match Derivation::lookup(&empty, 12, 305) {
        Err(DeriveError::InstNotInCache(s)) => assert_eq!(s, "(12, 305)"),
        _ => panic!("a missing position is refused"),
    }
    match Derivation::lookup(&empty, 0, 0) {
        Err(DeriveError::InstNotInCache(s)) => assert_eq!(s, "(0, 0)"),
        _ => panic!("a missing position is refused"),
    }
    assert_eq!(hpgo::ir::text::decimal(1090), "1090");
    assert_eq!(hpgo::ir::text::decimal(usize::MAX), usize::MAX.to_string());
}

fn empty_context() -> Context {
    Context { ast: HLORoot::new(vec![]), derive: vec![] }
}

#[test]
fn test_bfs_early_returns_without_module() {
    let ctx = empty_context();
    let mut c = ConstraintMap::new();
    c.insert("%a".to_string(), vec![0]);
    // a split outside the constraint is a conflict, with no lookup
    assert!(ctx.propagate_bfs(0, "%a", 1, &c, false).unwrap().is_none());
    // a constraint already fixed to the split comes back unchanged
    let m = ctx.propagate_bfs(0, "%a", 0, &c, false).unwrap().unwrap();
    assert_eq!(m.len(), 1);
    assert_eq!(dims_of(&m, "%a"), Some(vec![0]));
}

#[test]
fn test_remt_pruned_without_module() {
    let ctx = empty_context();
    let params = vec![param("%a", &[4]), param("%b", &[4])];
    let mut best: usize = 1;
    // two replicated parameters out of two cannot beat a progress of one
    let r = ctx.propagate_remt(0, &params, 5, &ConstraintMap::new(), vec![-1, -1], true, &mut best).unwrap();
    assert!(r.is_empty());
    assert_eq!(best, 1);
    ctx.propagate_remtp(0, &params, 5, &ConstraintMap::new(), vec![-1, -1], true, &mut best).unwrap();
    assert_eq!(best, 1);
}

#[test]
fn test_bfs_fusion_without_calls() {
    let f = func(
        "%main",
        vec![param("%x", &[4])],
        vec![
            inst("%x", "parameter", &[4], None, None),
            inst("%f", "fusion", &[4], Some(vec![rp("%x", &[4])]), None),
        ],
    );
    let ctx = Context::new(cached(vec![f]));
    match ctx.propagate_bfs(0, "%x", -1, &ConstraintMap::new(), false) {
        Err(PropagationError::Derive(DeriveError::OptionNone(_))) => {},
        other => panic!("a fusion without its callee is refused, got {:?}", other),
    }
    // a split that the fusion does not allow is a conflict before that
    assert!(ctx.propagate_bfs(0, "%x", 0, &ConstraintMap::new(), false).unwrap().is_none());
}

#[test]
fn test_cacheable_and_augment() {
    let mut ast = HLORoot::new(vec![add_fn()]);
    assert!(ast.cacheable());
    assert!(!HLORoot::new(vec![]).cacheable());
    assert!(!HLORoot::new(vec![func("%e", vec![], vec![])]).cacheable());
    // %a is read in two functions
    let other = func("%g", vec![], vec![inst("%d", "negate", &[4, 8], Some(vec![rp("%a", &[4, 8])]), None)]);
    assert!(!HLORoot::new(vec![add_fn(), other]).cacheable());
    // an operand without `%` is not a variable of its function
    let plain = func("%g", vec![], vec![inst("%d", "negate", &[4, 8], Some(vec![rp("a", &[4, 8])]), None)]);
    assert!(HLORoot::new(vec![add_fn(), plain]).cacheable());
    ast.functions[0].params = vec![param("a", &[4, 8]), param("%b", &[4, 8])];
    ast.augment_param_names();
    assert_eq!(ast.functions[0].params[0].name, "%a");
    assert_eq!(ast.functions[0].params[1].name, "%b");
    assert_eq!(ast.functions[0].body.len(), 3);
}

#[test]
fn test_conductor_target_params() {
    let mut c = Conductor::new();
    c.ast = HLORoot::new(vec![add_fn()]);
    let picked = c.target_params(0, &vec!["%b".to_string(), "%z".to_string()]);
    assert_eq!(picked.len(), 1);
    assert_eq!(picked[0].name, "%b");
    let both = c.target_params(0, &vec!["%b".to_string(), "%a".to_string()]);
    // in the function's order
    assert_eq!(both.iter().map(|p| p.name.clone()).collect::<Vec<_>>(), vec!["%a".to_string(), "%b".to_string()]);
    assert!(c.target_params(0, &vec![]).is_empty());
}

#[test]
fn test_remt_distinct_and_best() {
    let ast = cached(vec![add_fn()]);
    let params = ast.functions[0].params.clone();
    let pc = Context::new(ast);
    // off the main task the best progress is left as it was
    let mut best = 1usize;
    let sols = pc.propagate_remt(0, &params, 0, &ConstraintMap::new(), vec![], false, &mut best).unwrap();
    assert_eq!(best, 1);
    // no solution twice: each pair splits some parameter differently
    for x in 0..sols.len() {
        for y in (x + 1)..sols.len() {
            assert!(dims_of(&sols[x], "%a") != dims_of(&sols[y], "%a") || dims_of(&sols[x], "%b") != dims_of(&sols[y], "%b"));
        }
    }
    // on the main task it only grows
    let mut best = 0usize;
    pc.propagate_remt(0, &params, 0, &ConstraintMap::new(), vec![], true, &mut best).unwrap();
    assert_eq!(best, 2);
    let mut best2 = 0usize;
    // the main search tries `%b` only replicated, which the split of `%a`
    // along 0 rules out: nothing is found and the best stays
    pc.propagate_remtp(0, &params, 0, &ConstraintMap::new(), vec![], true, &mut best2).unwrap();
    assert_eq!(best2, 0);
}
