use hpgo::ir::hlo_ast::{FunctionCall, HLOFunction, HLORoot, Instruction, Param, RichParam, RichType, Type};
use hpgo::ir::propagate::context::Context;
use hpgo::ir::prune::param_priority::prioritized_params;
use hpgo::parallelism::gradient_accumulation::{current_ga_iter_size, optimal_ga_iter_size};

#[test]
fn test_current_ga_iter_size() {
    // the share fits
    assert_eq!(current_ga_iter_size(4, 32, 8), 8);
    // 32 per device at most 10 each: 4 iterations of 8
    assert_eq!(current_ga_iter_size(4, 128, 10), 8);
    // 30 at most 7: 5 iterations of 6
    assert_eq!(current_ga_iter_size(1, 30, 7), 6);
    // 13 has no divisor to try: 7 iterations of 1
    assert_eq!(current_ga_iter_size(1, 13, 4), 1);
}

#[test]
fn test_optimal_ga_iter_size() {
    assert_eq!(optimal_ga_iter_size(4, 32, 8), 8);
    assert_eq!(optimal_ga_iter_size(4, 32, 5), 4);
    assert_eq!(optimal_ga_iter_size(4, 128, 10), 10);
}

fn rt(dims: &[i32]) -> RichType {
    RichType { data_type: "f32".to_string(), dimensions: Some(dims.to_vec()), layout: None }
}

fn inst(var: &str, op: &str, ret: &[i32], params: Option<Vec<RichParam>>) -> Instruction {
    Instruction {
        var_name: var.to_string(),
        function: FunctionCall { return_types: vec![rt(ret)], name: op.to_string(), params },
        meta: None,
    }
}

fn param(name: &str, dims: &[i32]) -> Param {
    Param { name: name.to_string(), param_type: Type { data_type: "f32".to_string(), dimensions: Some(dims.to_vec()) } }
}

#[test]
fn test_prioritized_params() {
    // `%a` reaches `%c` and `%b`; `%d` only defines itself
    let f = HLOFunction {
        name: "%f".to_string(),
        params: vec![param("%d", &[2]), param("%a", &[2]), param("%b", &[2])],
        return_types: vec![],
        body: vec![
            inst("%d", "parameter", &[2], None),
            inst("%a", "parameter", &[2], None),
            inst("%b", "parameter", &[2], None),
            inst(
                "%c",
                "add",
                &[2],
                Some(vec![
                    RichParam { param_type: rt(&[2]), name: "%a".to_string() },
                    RichParam { param_type: rt(&[2]), name: "%b".to_string() },
                ]),
            ),
        ],
    };
    let mut ast = HLORoot::new(vec![f]);
    ast.cache_all_positional().unwrap();
    let params = ast.functions[0].params.clone();
    let ctx = Context::new(ast);
    let order = prioritized_params(&ctx, 0, &params);
    let names: Vec<&str> = order.iter().map(|p| p.name.as_str()).collect();
    assert_eq!(names, vec!["%b", "%a", "%d"]);
}

use hpgo::orchestration::orchestrate::SyncConductor;
use hpgo::orchestration::orchestrate_sync::{analyse_plan_sync, PlanCell, PlanMatrix};

fn cell(split: Option<(u32, u32)>, avail: Vec<bool>, gpus: Vec<u32>) -> PlanCell {
    PlanCell { optimal_split: split, num_gpus_used: Some(1), availability_bitset: avail, gpu_ids: gpus }
}

fn matrix() -> PlanMatrix {
    vec![
        vec![vec![(vec![false, false], cell(None, vec![false, false], vec![2]))]],
        vec![vec![(vec![true, false], cell(Some((0, 0)), vec![false, false], vec![1]))]],
        vec![vec![(vec![true, true], cell(Some((1, 0)), vec![true, false], vec![0]))]],
    ]
}

#[test]
fn test_orchestrate_analyse_plan() {
    let plan = analyse_plan_sync(&matrix(), 3, 1, 1);
    assert_eq!(plan, vec![(0, 1, 1, vec![2]), (1, 2, 1, vec![1]), (2, 2, 1, vec![0])]);
    let c = SyncConductor { A: matrix() };
    assert_eq!(c.analyse_plan_sync(3, 1, 1), plan);
}
