//! Enumeration of the consistent splits of a function's parameters: each
//! parameter in turn is fixed to each dimension it may still take, the
//! choice is propagated, and the solutions of the remaining parameters are
//! met with it.
//!
//! A search on the main task also keeps the best progress found so far,
//! the number of parameters a complete solution splits rather than
//! replicates, and abandons a branch that can no longer reach it.
use vstd::prelude::*;
use crate::ir::error::PropagationError;
use crate::ir::hlo_ast::Param;
use crate::ir::propagate::bfs::{cm_nonempty, oview};
use crate::ir::propagate::context::{
    CMap, ConstraintMap, Context, copy_cmap, copy_i8s, cview, intersect_with, meet, meet_ok,
};

verus! {

/// The number of dimensions of the parameter `p`.
pub open spec fn ndims(p: Param) -> int {
    match p.param_type.dimensions {
        Some(d) => d@.len() as int,
        None => 0,
    }
}

/// The dimensions `0, 1, ..` up to `n` taken as an `i8`, then `-1` for
/// replication.
pub open spec fn dim_range(n: int) -> Seq<i8> {
    let t = (n as i8) as int;
    Seq::new(if t > 0 { t as nat } else { 0 }, |i: int| i as i8).push(-1i8)
}

/// The dimensions that `p` is tried along under `m`: those `m` leaves it,
/// or every dimension and replication when `m` does not constrain it.
pub open spec fn dim_list(m: CMap, p: Param) -> Seq<i8> {
    if m.contains_key(p.name@) {
        m[p.name@]
    } else {
        dim_range(ndims(p))
    }
}

/// The number of replications among the choices `c`.
pub open spec fn count_rep(c: Seq<i8>) -> int
    decreases c.len(),
{
    if c.len() == 0 {
        0
    } else {
        count_rep(c.drop_last()) + if c.last() == -1 {
            1int
        } else {
            0int
        }
    }
}

/// The progress of the solution `r` over the first `n` parameters: how
/// many of them it splits rather than replicates.
pub open spec fn progress(ps: Seq<Param>, r: CMap, n: int) -> int
    decreases n,
{
    if n <= 0 {
        0
    } else {
        progress(ps, r, n - 1) + if r.contains_key(ps[n - 1].name@) && r[ps[n - 1].name@][0] != -1 {
            1int
        } else {
            0int
        }
    }
}

/// The meets of `r` with the first `n` solutions of `sub`, dropping those
/// that leave a variable without a dimension.
pub open spec fn meets(r: CMap, sub: Seq<CMap>, n: int) -> Seq<CMap>
    decreases n,
{
    if n <= 0 {
        Seq::empty()
    } else {
        let a = meets(r, sub, n - 1);
        if meet_ok(r, sub[n - 1]) {
            a.push(meet(r, sub[n - 1]))
        } else {
            a
        }
    }
}

/// The plain view of a list of constraint maps.
pub open spec fn vview(v: Seq<ConstraintMap>) -> Seq<CMap> {
    v.map_values(|m: ConstraintMap| cview(m@))
}

impl Context {
    /// The solutions for the parameters of `ps` from `index` on under `m`,
    /// with the best progress after the search. `chain` holds the choices
    /// made for the earlier parameters.
    pub open spec fn remt(
        &self,
        f: int,
        ps: Seq<Param>,
        index: int,
        m: CMap,
        chain: Seq<i8>,
        main: bool,
        best: int,
    ) -> (Seq<CMap>, int)
        decreases ps.len() - index, 1int, 0int,
    {
        if index < 0 || index >= ps.len() {
            (Seq::empty(), best)
        } else if main && ps.len() - count_rep(chain) < best {
            (Seq::empty(), best)
        } else {
            let dims = dim_list(m, ps[index]);
            self.remt_dims(f, ps, index, m, chain, main, dims, dims.len() as int, best)
        }
    }

    /// The solutions from trying parameter `index` along the first `n` of
    /// `dims`, with the best progress after them.
    pub open spec fn remt_dims(
        &self,
        f: int,
        ps: Seq<Param>,
        index: int,
        m: CMap,
        chain: Seq<i8>,
        main: bool,
        dims: Seq<i8>,
        n: int,
        best: int,
    ) -> (Seq<CMap>, int)
        decreases ps.len() - index, 0int, n,
    {
        if n <= 0 || index < 0 || index >= ps.len() {
            (Seq::empty(), best)
        } else {
            let prev = self.remt_dims(f, ps, index, m, chain, main, dims, n - 1, best);
            let d = dims[n - 1];
            match self.spec_bfs(f, m, ps[index].name@, d) {
                None => prev,
                Some(r) => {
                    if index + 1 >= ps.len() {
                        let pr = progress(ps, r, ps.len() as int);
                        (prev.0.push(r), if main && pr > prev.1 {
                            pr
                        } else {
                            prev.1
                        })
                    } else {
                        let sub = self.remt(f, ps, index + 1, r, chain.push(d), main, prev.1);
                        (prev.0 + meets(r, sub.0, sub.0.len() as int), sub.1)
                    }
                },
            }
        }
    }

    /// The best progress after searching the parameters of `ps` from
    /// `index` on under `m`, without keeping the solutions; a search on the
    /// main task tries the first three parameters only along `0`, `-1` and
    /// `1`.
    pub open spec fn remtp(
        &self,
        f: int,
        ps: Seq<Param>,
        index: int,
        m: CMap,
        chain: Seq<i8>,
        main: bool,
        best: int,
    ) -> int
        decreases ps.len() - index, 1int, 0int,
    {
        if index < 0 || index >= ps.len() {
            best
        } else if main && ps.len() - count_rep(chain) < best {
            best
        } else {
            let dims = if main && index == 0 {
                seq![0i8]
            } else if main && index == 1 {
                seq![-1i8]
            } else if main && index == 2 {
                seq![1i8]
            } else {
                dim_list(m, ps[index])
            };
            self.remtp_dims(f, ps, index, m, chain, main, dims, dims.len() as int, best)
        }
    }

    /// The best progress after trying parameter `index` along the first
    /// `n` of `dims`.
    pub open spec fn remtp_dims(
        &self,
        f: int,
        ps: Seq<Param>,
        index: int,
        m: CMap,
        chain: Seq<i8>,
        main: bool,
        dims: Seq<i8>,
        n: int,
        best: int,
    ) -> int
        decreases ps.len() - index, 0int, n,
    {
        if n <= 0 || index < 0 || index >= ps.len() {
            best
        } else {
            let prev = self.remtp_dims(f, ps, index, m, chain, main, dims, n - 1, best);
            let d = dims[n - 1];
            match self.spec_bfs(f, m, ps[index].name@, d) {
                None => prev,
                Some(r) => {
                    if index + 1 >= ps.len() {
                        let pr = progress(ps, r, ps.len() as int);
                        if main && pr > prev {
                            pr
                        } else {
                            prev
                        }
                    } else {
                        self.remtp(f, ps, index + 1, r, chain.push(d), main, prev)
                    }
                },
            }
        }
    }

    /// Every parameter of `ps` is placed in function `f`.
    pub open spec fn params_placed(&self, f: int, ps: Seq<Param>) -> bool {
        forall|i: int| 0 <= i < ps.len() ==> self.var_at(f, #[trigger] ps[i].name@)
    }
}

/// The number of replications among the choices `c`.
pub fn count_neg(c: &Vec<i8>) -> (r: usize)
    ensures
        r == count_rep(c@),
{
    let n = c.len();
    let mut r: usize = 0;
    let mut i: usize = 0;
    while i < n
        invariant
            n == c@.len(),
            i <= n,
            r == count_rep(c@.take(i as int)),
            r <= i,
        decreases n - i,
    {
        assert(c@.take(i + 1).drop_last() =~= c@.take(i as int));
        if c[i] == -1 {
            r = r + 1;
        }
        i = i + 1;
    }
    assert(c@.take(n as int) =~= c@);
    r
}

/// The dimensions `0, 1, ..` up to `n` taken as an `i8`, then `-1`.
pub fn dim_range_exec(n: usize) -> (r: Vec<i8>)
    ensures
        r@ == dim_range(n as int),
{
    let t = n as i8;
    let ghost tt = (n as int as i8) as int;
    assert(t as int == tt);
    let mut r: Vec<i8> = Vec::new();
    let mut d: i8 = 0;
    while d < t
        invariant
            t as int == tt,
            0 <= d,
            d <= t || d == 0,
            r@ == Seq::new(d as nat, |i: int| i as i8),
        decreases t - d,
    {
        let ghost before = r@;
        r.push(d);
        d = d + 1;
        assert(r@ =~= Seq::new(d as nat, |i: int| i as i8));
    }
    assert(Seq::new(d as nat, |i: int| i as i8) =~= Seq::new(if tt > 0 { tt as nat } else { 0 }, |i: int| i as i8));
    r.push(-1i8);
    r
}

/// The number of parameters of `ps` that the solution `r` splits rather
/// than replicates.
pub fn progress_exec(ps: &Vec<Param>, r: &ConstraintMap) -> (k: usize)
    requires
        cm_nonempty(cview(r@)),
    ensures
        k == progress(ps@, cview(r@), ps@.len() as int),
        k <= ps@.len(),
{
    let n = ps.len();
    let mut k: usize = 0;
    let mut i: usize = 0;
    while i < n
        invariant
            n == ps@.len(),
            i <= n,
            cm_nonempty(cview(r@)),
            k == progress(ps@, cview(r@), i as int),
            k <= i,
        decreases n - i,
    {
        match r.get(ps[i].name.as_str()) {
            Some(vals) => {
                assert(cview(r@).contains_key(ps@[i as int].name@));
                assert(cview(r@)[ps@[i as int].name@] == vals@);
                if vals[0] != -1 {
                    k = k + 1;
                }
            },
            None => {},
        }
        i = i + 1;
    }
    k
}

impl Context {
    /// The dimensions that `p` is tried along under `m`.
    fn dims_for(m: &ConstraintMap, p: &Param) -> (r: Vec<i8>)
        ensures
            r@ == dim_list(cview(m@), *p),
    {
        match m.get(p.name.as_str()) {
            Some(v) => copy_i8s(v),
            None => {
                let n = match &p.param_type.dimensions {
                    Some(d) => d.len(),
                    None => 0,
                };
                dim_range_exec(n)
            },
        }
    }

    /// Enumerates the solutions for the parameters of `params` from `index`
    /// on under `m_constraints`: each dimension the parameter may take is
    /// propagated, and each solution of the later parameters under the
    /// result is met with it. On the main task, `best` is the best progress
    /// found so far; a branch that cannot reach it is abandoned, and a
    /// complete solution with more progress raises it.
    pub fn propagate_remt(
        &self,
        func_id: usize,
        params: &Vec<Param>,
        index: usize,
        m_constraints: &ConstraintMap,
        debug_chain: Vec<i8>,
        main_task: bool,
        best: &mut usize,
    ) -> (r: Result<Vec<ConstraintMap>, PropagationError>)
        requires
            main_task ==> count_rep(debug_chain@) <= params@.len(),
            !(main_task && params@.len() - count_rep(debug_chain@) < *old(best)) ==> {
                &&& self.placed(func_id as int)
                &&& self.fusion_calls_ok(func_id as int)
                &&& self.params_placed(func_id as int, params@)
                &&& index < params@.len()
                &&& (main_task ==> count_rep(debug_chain@) <= index + 1)
                &&& (main_task ==> cm_nonempty(cview(m_constraints@)))
                &&& *old(best) <= params@.len()
            },
        ensures
            r matches Ok(v) && vview(v@) == self.remt(
                func_id as int,
                params@,
                index as int,
                cview(m_constraints@),
                debug_chain@,
                main_task,
                *old(best) as int,
            ).0,
            *final(best) as int == self.remt(
                func_id as int,
                params@,
                index as int,
                cview(m_constraints@),
                debug_chain@,
                main_task,
                *old(best) as int,
            ).1,
            *old(best) <= params@.len() ==> *final(best) <= params@.len(),
        decreases params@.len() - index,
    {
        let ghost mc = cview(m_constraints@);
        let ghost f = func_id as int;
        if main_task {
            let cur_rep = count_neg(&debug_chain);
            let max_possible_split = params.len() - cur_rep;
            if max_possible_split < *best {
                return Ok(Vec::new());
            }
        }
        let p = &params[index];
        assert(self.var_at(f, params@[index as int].name@));
        let dims = Self::dims_for(m_constraints, p);
        let ghost best0 = *best as int;
        let mut ret: Vec<ConstraintMap> = Vec::new();
        let nd = dims.len();
        let mut i: usize = 0;
        while i < nd
            invariant
                nd == dims@.len(),
                dims@ == dim_list(mc, params@[index as int]),
                mc == cview(m_constraints@),
                f == func_id as int,
                i <= nd,
                index < params@.len(),
                *p == params@[index as int],
                self.placed(f),
                self.fusion_calls_ok(f),
                self.params_placed(f, params@),
                main_task ==> count_rep(debug_chain@) <= index + 1,
                main_task ==> cm_nonempty(mc),
                *best <= params@.len(),
                (vview(ret@), *best as int) == self.remt_dims(f, params@, index as int, mc, debug_chain@, main_task, dims@, i as int, best0),
            decreases nd - i,
        {
            let d = dims[i];
            let ghost prev_best = *best as int;
            let ghost prev = vview(ret@);
            let br = self.propagate_bfs(func_id, p.name.as_str(), d, m_constraints, false);
            let bo = match br {
                Ok(o) => o,
                Err(e) => {
                    assert(false);
                    return Err(e);
                },
            };
            match bo {
                None => {},
                Some(res) => {
                    proof {
                        if main_task {
                            self.lemma_bfs_nonempty(f, mc, params@[index as int].name@, d);
                        }
                    }
                    if index == params.len() - 1 {
                        if main_task {
                            let pr = progress_exec(params, &res);
                            if pr > *best {
                                *best = pr;
                            }
                        }
                        ret.push(res);
                        assert(vview(ret@) =~= prev.push(oview(bo)->Some_0));
                    } else {
                        let mut chain = copy_i8s(&debug_chain);
                        chain.push(d);
                        proof {
                            assert(chain@.drop_last() =~= debug_chain@);
                        }
                        let sub = self.propagate_remt(func_id, params, index + 1, &res, chain, main_task, best)?;
                        let ghost rv = cview(res@);
                        let ghost sv = vview(sub@);
                        let ns = sub.len();
                        let mut q: usize = 0;
                        while q < ns
                            invariant
                                ns == sub@.len(),
                                sv == vview(sub@),
                                rv == cview(res@),
                                q <= ns,
                                vview(ret@) == prev + meets(rv, sv, q as int),
                            decreases ns - q,
                        {
                            let mut mcopy = copy_cmap(&res);
                            let ok = intersect_with(&mut mcopy, &sub[q]);
                            if ok {
                                let ghost before = vview(ret@);
                                ret.push(mcopy);
                                assert(vview(ret@) =~= before.push(meet(rv, sv[q as int])));
                            }
                            q = q + 1;
                        }
                    }
                },
            }
            i = i + 1;
        }
        Ok(ret)
    }
}


impl Context {
    /// Searches the parameters of `params` from `index` on under
    /// `m_constraints` as `propagate_remt` does, keeping only the best
    /// progress in `best`; on the main task the first three parameters are
    /// tried only along `0`, `-1` and `1`.
    pub fn propagate_remtp(
        &self,
        func_id: usize,
        params: &Vec<Param>,
        index: usize,
        m_constraints: &ConstraintMap,
        debug_chain: Vec<i8>,
        main_task: bool,
        best: &mut usize,
    ) -> (r: Result<(), PropagationError>)
        requires
            main_task ==> count_rep(debug_chain@) <= params@.len(),
            !(main_task && params@.len() - count_rep(debug_chain@) < *old(best)) ==> {
                &&& self.placed(func_id as int)
                &&& self.fusion_calls_ok(func_id as int)
                &&& self.params_placed(func_id as int, params@)
                &&& index < params@.len()
                &&& (main_task ==> count_rep(debug_chain@) <= index + 1)
                &&& (main_task ==> cm_nonempty(cview(m_constraints@)))
                &&& *old(best) <= params@.len()
            },
        ensures
            r is Ok,
            *final(best) as int == self.remtp(
                func_id as int,
                params@,
                index as int,
                cview(m_constraints@),
                debug_chain@,
                main_task,
                *old(best) as int,
            ),
            *old(best) <= params@.len() ==> *final(best) <= params@.len(),
        decreases params@.len() - index,
    {
        let ghost mc = cview(m_constraints@);
        let ghost f = func_id as int;
        if main_task {
            let cur_rep = count_neg(&debug_chain);
            let max_possible_split = params.len() - cur_rep;
            if max_possible_split < *best {
                return Ok(());
            }
        }
        let p = &params[index];
        assert(self.var_at(f, params@[index as int].name@));
        let dims = if main_task && index == 0 {
            vec![0i8]
        } else if main_task && index == 1 {
            vec![-1i8]
        } else if main_task && index == 2 {
            vec![1i8]
        } else {
            Self::dims_for(m_constraints, p)
        };
        let ghost dv = if main_task && index == 0 {
            seq![0i8]
        } else if main_task && index == 1 {
            seq![-1i8]
        } else if main_task && index == 2 {
            seq![1i8]
        } else {
            dim_list(mc, params@[index as int])
        };
        assert(dims@ =~= dv);
        let ghost best0 = *best as int;
        let nd = dims.len();
        let mut i: usize = 0;
        while i < nd
            invariant
                nd == dims@.len(),
                dims@ == dv,
                mc == cview(m_constraints@),
                f == func_id as int,
                i <= nd,
                index < params@.len(),
                *p == params@[index as int],
                self.placed(f),
                self.fusion_calls_ok(f),
                self.params_placed(f, params@),
                main_task ==> count_rep(debug_chain@) <= index + 1,
                main_task ==> cm_nonempty(mc),
                *best <= params@.len(),
                *best as int == self.remtp_dims(f, params@, index as int, mc, debug_chain@, main_task, dv, i as int, best0),
            decreases nd - i,
        {
            let d = dims[i];
            let br = self.propagate_bfs(func_id, p.name.as_str(), d, m_constraints, false);
            let bo = match br {
                Ok(o) => o,
                Err(e) => {
                    assert(false);
                    return Err(e);
                },
            };
            match bo {
                None => {},
                Some(res) => {
                    proof {
                        if main_task {
                            self.lemma_bfs_nonempty(f, mc, params@[index as int].name@, d);
                        }
                    }
                    if index == params.len() - 1 {
                        if main_task {
                            let pr = progress_exec(params, &res);
                            if pr > *best {
                                *best = pr;
                            }
                        }
                    } else {
                        let mut chain = copy_i8s(&debug_chain);
                        chain.push(d);
                        proof {
                            assert(chain@.drop_last() =~= debug_chain@);
                        }
                        self.propagate_remtp(func_id, params, index + 1, &res, chain, main_task, best)?;
                    }
                },
            }
            i = i + 1;
        }
        Ok(())
    }

    /// Every solution for the parameters of function `func_id`, from no
    /// constraint.
    pub fn propagate_fn(&self, func_id: usize) -> (r: Result<Vec<ConstraintMap>, PropagationError>)
        requires
            self.placed(func_id as int),
            self.fusion_calls_ok(func_id as int),
            self.params_placed(func_id as int, self.ast.functions@[func_id as int].params@),
            self.ast.functions@[func_id as int].params@.len() > 0,
        ensures
            r matches Ok(v) && vview(v@) == self.remt(
                func_id as int,
                self.ast.functions@[func_id as int].params@,
                0,
                Map::empty(),
                Seq::empty(),
                false,
                0,
            ).0,
    {
        let params = &self.ast.functions[func_id].params;
        let empty: ConstraintMap = ConstraintMap::new();
        let mut best: usize = 0;
        assert(cview(empty@) =~= Map::<Seq<char>, Seq<i8>>::empty());
        let chain: Vec<i8> = Vec::new();
        assert(chain@ =~= Seq::<i8>::empty());
        self.propagate_remt(func_id, params, 0, &empty, chain, false, &mut best)
    }
}

} // verus!
