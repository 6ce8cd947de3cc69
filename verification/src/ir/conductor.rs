//! The conductor: a module together with its propagation context, and the
//! queries that planning makes of them.
use vstd::prelude::*;
use crate::ir::derive::{Derivation, copy_maps, table_has, tview};
use crate::ir::error::PropagationError;
use crate::ir::hlo_ast::{HLORoot, Param, empty_root};
use crate::ir::prune::param_priority::{copy_param, param_eq};
use crate::ir::text::str_eq;
use crate::ir::propagate::context::{Context, hits_view, match_hits, pview};
use crate::ir::propagate::fusion::{patch_table, patch_view};
use crate::ir::split::{SplitMap, views};

verus! {

/// A module and the propagation context built from it.
pub struct Conductor {
    pub ast: HLORoot,
    pub propagate: Context,
}

impl Conductor {
    /// A conductor with an empty module and an empty context.
    pub fn new() -> (r: Conductor)
        ensures
            empty_root(r.ast),
            empty_root(r.propagate.ast),
            r.propagate.derive@.len() == 0,
    {
        Conductor {
            ast: HLORoot::new(Vec::new()),
            propagate: Context { ast: HLORoot::new(Vec::new()), derive: Vec::new() },
        }
    }

    /// Derives the fusion calls of function `func_id` into the context's
    /// table.
    pub fn update_fusion_for(&mut self, func_id: usize) -> (r: Result<(), PropagationError>)
        requires
            old(self).propagate.fusion_ok(func_id as int),
            forall|t: int|
                0 <= t < old(self).propagate.fusion_list(
                    func_id as int,
                    old(self).propagate.ast.functions@[func_id as int].body@.len() as int,
                ).len() ==> old(self).propagate.fusion_entry_ok(
                    #[trigger] old(self).propagate.fusion_list(
                        func_id as int,
                        old(self).propagate.ast.functions@[func_id as int].body@.len() as int,
                    )[t],
                ),
        ensures
            r is Ok,
            final(self).ast == old(self).ast,
            final(self).propagate.ast == old(self).propagate.ast,
            exists|patch: Seq<(crate::ir::hlo_ast::InstPos, Vec<SplitMap>)>| #![trigger patch_view(patch)] {
                let fl = old(self).propagate.fusion_list(
                    func_id as int,
                    old(self).propagate.ast.functions@[func_id as int].body@.len() as int,
                );
                &&& patch.len() == fl.len()
                &&& forall|t: int|
                    0 <= t < fl.len() ==> #[trigger] patch[t].0 == fl[t].0 && old(self).propagate.fusion_patch_ok(
                        fl[t],
                        views(patch[t].1@),
                    )
                &&& tview(final(self).propagate.derive@) == patch_table(
                    tview(old(self).propagate.derive@),
                    patch_view(patch),
                    patch.len() as int,
                )
            },
    {
        let r = self.propagate.update_fusion_derive_cache(func_id);
        match r {
            Ok(p) => {
                assert(p@.len() == p@.len());
                Ok(())
            },
            Err(e) => {
                assert(false);
                Err(e)
            },
        }
    }

    /// The derived split maps of the instruction at `(func_id, inst_id)`.
    pub fn derive_enum(&self, func_id: usize, inst_id: usize) -> (r: Vec<SplitMap>)
        requires
            table_has(self.propagate.derive@, func_id as int, inst_id as int),
        ensures
            views(r@) == tview(self.propagate.derive@)[func_id as int][inst_id as int],
    {
        match Derivation::lookup(&self.propagate.derive, func_id, inst_id) {
            Ok(v) => copy_maps(v),
            Err(_) => {
                assert(false);
                Vec::new()
            },
        }
    }

    /// The derived split maps of the instruction at `(func_id, inst_id)`
    /// that split `var_name` along `split`, each with its index.
    pub fn derive_infer(&self, func_id: usize, inst_id: usize, var_name: String, split: i8) -> (r: Vec<(SplitMap, usize)>)
        requires
            table_has(self.propagate.derive@, func_id as int, inst_id as int),
        ensures
            hits_view(r@) == match_hits(
                pview(self.propagate.derive@)[func_id as int][inst_id as int],
                var_name@,
                split,
                pview(self.propagate.derive@)[func_id as int][inst_id as int].len() as int,
            ),
    {
        match self.propagate.derive(func_id, inst_id, var_name.as_str(), split) {
            Ok(v) => v,
            Err(_) => {
                assert(false);
                Vec::new()
            },
        }
    }
}

} // verus!

verus! {

/// The parameters among the first `n` of `ps` whose name `names` lists, in
/// order.
pub open spec fn targets(ps: Seq<Param>, names: Seq<Seq<char>>, n: int) -> Seq<Param>
    decreases n,
{
    if n <= 0 {
        Seq::empty()
    } else if names.contains(ps[n - 1].name@) {
        targets(ps, names, n - 1).push(ps[n - 1])
    } else {
        targets(ps, names, n - 1)
    }
}

/// Whether the names `names` list `name`.
fn lists_name(names: &Vec<String>, name: &str) -> (r: bool)
    ensures
        r == names@.map_values(|s: String| s@).contains(name@),
{
    let ghost ns = names@.map_values(|s: String| s@);
    let n = names.len();
    let mut i: usize = 0;
    while i < n
        invariant
            n == names@.len(),
            ns == names@.map_values(|s: String| s@),
            i <= n,
            forall|k: int| 0 <= k < i ==> ns[k] != name@,
        decreases n - i,
    {
        if str_eq(names[i].as_str(), name) {
            assert(ns[i as int] == name@);
            return true;
        }
        i = i + 1;
    }
    false
}

impl Conductor {
    /// The parameters of function `func_id` whose names `params` lists, in
    /// the function's order: the parameters that a search for the best
    /// split is asked for.
    pub fn target_params(&self, func_id: usize, params: &Vec<String>) -> (r: Vec<Param>)
        requires
            func_id < self.ast.functions@.len(),
        ensures
            ({
                let ps = self.ast.functions@[func_id as int].params@;
                let want = targets(ps, params@.map_values(|s: String| s@), ps.len() as int);
                &&& r@.len() == want.len()
                &&& forall|k: int| 0 <= k < r@.len() ==> param_eq(#[trigger] r@[k], want[k])
            }),
    {
        let ps = &self.ast.functions[func_id].params;
        let ghost names = params@.map_values(|s: String| s@);
        let mut r: Vec<Param> = Vec::new();
        let n = ps.len();
        let mut i: usize = 0;
        while i < n
            invariant
                n == ps@.len(),
                *ps == self.ast.functions@[func_id as int].params,
                names == params@.map_values(|s: String| s@),
                i <= n,
                r@.len() == targets(ps@, names, i as int).len(),
                forall|k: int| 0 <= k < r@.len() ==> param_eq(#[trigger] r@[k], targets(ps@, names, i as int)[k]),
            decreases n - i,
        {
            if lists_name(params, ps[i].name.as_str()) {
                let ghost before = r@;
                r.push(copy_param(&ps[i]));
                assert forall|k: int| 0 <= k < r@.len() implies param_eq(#[trigger] r@[k], targets(ps@, names, i + 1)[k]) by {
                    if k < before.len() {
                        assert(r@[k] == before[k]);
                    }
                }
            }
            i = i + 1;
        }
        r
    }
}

} // verus!
