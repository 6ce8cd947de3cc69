//! What propagation and enumeration guarantee of their results.
use vstd::prelude::*;
use crate::ir::hlo_ast::Param;
use crate::ir::propagate::bfs::{
    Prop, BfsState, apply_all, apply_entry, agg_maps, agg_vals_ok, bfs_done, bfs_init, bfs_inv,
    cm_nonempty, lemma_agg_maps_vals, lemma_apply_entry, lemma_keep_in,
};
use crate::ir::propagate::context::{CMap, Context, join, keep_in, keep_out, match_hits, meet, meet_ok, pview};
use crate::ir::propagate::enumerate::meets;

verus! {

/// No variable of `m` lists a dimension twice.
pub open spec fn cm_nodup(m: CMap) -> bool {
    forall|k: Seq<char>| m.contains_key(k) ==> #[trigger] m[k].no_duplicates()
}

/// `r` is at least as narrow as `c`: it constrains every variable that `c`
/// does, to dimensions that `c` allows.
pub open spec fn narrower(r: CMap, c: CMap) -> bool {
    forall|k: Seq<char>|
        #[trigger] c.contains_key(k) ==> r.contains_key(k) && forall|x: i8|
            #[trigger] r[k].contains(x) ==> c[k].contains(x)
}

/// The state of a propagation of `v0` along `s0` under `c` is sound: the
/// invariant holds, every variable keeps some dimension, none repeated,
/// the constraints only narrowed `c`, and `(v0, s0)` was queued first.
pub open spec fn prop_good(p: Prop, c: CMap, v0: Seq<char>, s0: i8) -> bool {
    &&& bfs_inv(p)
    &&& cm_nonempty(p.m)
    &&& cm_nodup(p.m)
    &&& narrower(p.m, c)
    &&& p.seen.len() > 0
    &&& p.seen[0] == (v0, s0)
}

/// Narrowing by one entry keeps the state sound.
pub proof fn lemma_apply_entry_good(p: Prop, c: CMap, v0: Seq<char>, s0: i8, v: Seq<char>, k: Seq<char>, vals: Seq<i8>)
    requires
        prop_good(p, c, v0, s0),
        !p.conflict,
        vals.len() > 0,
        vals.no_duplicates(),
    ensures
        !apply_entry(p, v, k, vals).conflict ==> prop_good(apply_entry(p, v, k, vals), c, v0, s0),
{
    lemma_apply_entry(p, v, k, vals);
    let r = apply_entry(p, v, k, vals);
    if !r.conflict {
        assert(r.seen[0] == p.seen[0]) by {
            if r.seen != p.seen {
                assert(r.seen.drop_last()[0] == r.seen[0]);
            }
        }
        if r.m != p.m {
            assert(!(k == v));
            let nv = r.m[k];
            lemma_keep_in(vals, if p.m.contains_key(k) { p.m[k] } else { vals });
            assert(r.m == p.m.insert(k, nv));
            assert(nv.len() > 0);
            assert(nv.no_duplicates()) by {
                if vals.len() == 1 {
                    assert(nv == vals);
                }
            }
            assert(p.m.contains_key(k) ==> forall|x: i8| #[trigger] nv.contains(x) ==> p.m[k].contains(x)) by {
                if p.m.contains_key(k) {
                    if vals.len() == 1 {
                        assert forall|x: i8| #[trigger] nv.contains(x) implies p.m[k].contains(x) by {
                            assert(nv == vals);
                            assert(x == vals[0]);
                        }
                    }
                }
            }
            assert(cm_nonempty(r.m)) by {
                assert forall|key: Seq<char>| r.m.contains_key(key) implies #[trigger] r.m[key].len() > 0 by {
                    if key != k {
                        assert(p.m.contains_key(key));
                    }
                }
            }
            assert(cm_nodup(r.m)) by {
                assert forall|key: Seq<char>| r.m.contains_key(key) implies #[trigger] r.m[key].no_duplicates() by {
                    if key != k {
                        assert(p.m.contains_key(key));
                    }
                }
            }
            assert(narrower(r.m, c)) by {
                assert forall|key: Seq<char>| #[trigger] c.contains_key(key) implies r.m.contains_key(key) && forall|x: i8|
                    #[trigger] r.m[key].contains(x) ==> c[key].contains(x) by {
                    assert(p.m.contains_key(key));
                    if key == k {
                        assert forall|x: i8| #[trigger] r.m[key].contains(x) implies c[key].contains(x) by {
                            assert(p.m[k].contains(x));
                        }
                    }
                }
            }
        }
    }
}

/// Narrowing by a well formed aggregate keeps the state sound.
pub proof fn lemma_apply_all_good(p: Prop, c: CMap, v0: Seq<char>, s0: i8, v: Seq<char>, agg: Seq<(Seq<char>, Seq<i8>)>, n: int)
    requires
        prop_good(p, c, v0, s0),
        !p.conflict,
        agg_vals_ok(agg),
        n <= agg.len(),
    ensures
        !apply_all(p, v, agg, n).conflict ==> prop_good(apply_all(p, v, agg, n), c, v0, s0),
    decreases n,
{
    if n > 0 {
        lemma_apply_all_good(p, c, v0, s0, v, agg, n - 1);
        let q = apply_all(p, v, agg, n - 1);
        if !q.conflict {
            assert(agg[n - 1].1.len() > 0 && agg[n - 1].1.no_duplicates());
            lemma_apply_entry_good(q, c, v0, s0, v, agg[n - 1].0, agg[n - 1].1);
        }
    }
}

impl Context {
    /// Visiting keeps the state sound.
    pub proof fn lemma_visit_all_good(&self, f: int, p: Prop, c: CMap, v0: Seq<char>, s0: i8, v: Seq<char>, s: i8, ps: Seq<usize>, n: int)
        requires
            prop_good(p, c, v0, s0),
            !p.conflict,
        ensures
            !self.visit_all(f, p, v, s, ps, n).conflict ==> prop_good(self.visit_all(f, p, v, s, ps, n), c, v0, s0),
        decreases n,
    {
        if n > 0 {
            self.lemma_visit_all_good(f, p, c, v0, s0, v, s, ps, n - 1);
            let q = self.visit_all(f, p, v, s, ps, n - 1);
            if !q.conflict {
                let j = ps[n - 1] as int;
                let ds = pview(self.derive@)[f][j];
                let hs = match_hits(ds, v, s, ds.len() as int);
                let agg = agg_maps(hs, hs.len() as int);
                lemma_agg_maps_vals(hs, hs.len() as int);
                lemma_apply_all_good(q, c, v0, s0, v, agg, agg.len() as int);
            }
        }
    }

    /// Every round keeps the state sound.
    pub proof fn lemma_run_good(&self, f: int, st: BfsState, c: CMap, v0: Seq<char>, s0: i8, n: nat)
        requires
            prop_good(st.p, c, v0, s0),
            !st.p.conflict,
        ensures
            !self.bfs_run(f, st, n).p.conflict ==> prop_good(self.bfs_run(f, st, n).p, c, v0, s0),
        decreases n,
    {
        if n > 0 {
            self.lemma_run_good(f, st, c, v0, s0, (n - 1) as nat);
            let q = self.bfs_run(f, st, (n - 1) as nat);
            if !bfs_done(q) {
                let v = q.p.seen[q.head].0;
                let ps = self.ast.var_pos@[v].1@;
                self.lemma_visit_all_good(f, q.p, c, v0, s0, v, q.p.seen[q.head].1, ps, ps.len() as int);
            }
        }
    }

    /// Propagation only narrows: when fixing `p` to `split` under `c` gives
    /// no conflict, the result fixes `p` to exactly `split` and constrains
    /// every variable of `c` to dimensions that `c` allows; when every
    /// variable of `c` has dimensions, none repeated, so has the result.
    pub proof fn law_bfs_narrows(&self, f: int, c: CMap, p: Seq<char>, split: i8)
        ensures
            self.spec_bfs(f, c, p, split) matches Some(r) ==> {
                &&& narrower(r, c)
                &&& r.contains_key(p)
                &&& r[p] == seq![split]
                &&& (cm_nonempty(c) && cm_nodup(c) ==> cm_nonempty(r) && cm_nodup(r))
            },
    {
        assert(narrower(c, c)) by {
            assert forall|k: Seq<char>| #[trigger] c.contains_key(k) implies c.contains_key(k) && forall|x: i8|
                #[trigger] c[k].contains(x) ==> c[k].contains(x) by {}
        }
        if c.contains_key(p) && !c[p].contains(split) {
        } else if c.contains_key(p) && c[p].len() == 1 {
            assert(c[p].contains(split));
            assert(c[p] =~= seq![split]) by {
                let i = choose|i: int| 0 <= i < c[p].len() && c[p][i] == split;
            }
        } else {
            let st0 = bfs_init(c, p, split);
            let n = choose|n: nat| bfs_done(self.bfs_run(f, st0, n));
            let fin = self.bfs_run(f, st0, n);
            // Soundness relative to the starting map, then to `c`.
            let m0 = st0.p.m;
            assert(m0 == c.insert(p, seq![split]));
            assert(narrower(m0, c)) by {
                assert forall|k: Seq<char>| #[trigger] c.contains_key(k) implies m0.contains_key(k) && forall|x: i8|
                    #[trigger] m0[k].contains(x) ==> c[k].contains(x) by {
                    if k == p {
                        assert forall|x: i8| #[trigger] m0[k].contains(x) implies c[k].contains(x) by {
                            assert(m0[k] == seq![split]);
                            assert(x == split);
                        }
                    }
                }
            }
            let cn = cm_nonempty(c) && cm_nodup(c);
            assert(bfs_inv(st0.p)) by {
                assert(st0.p.seen =~= seq![(p, split)]);
            }
            if cn {
                assert(cm_nonempty(m0));
                assert(cm_nodup(m0)) by {
                    assert forall|k: Seq<char>| m0.contains_key(k) implies #[trigger] m0[k].no_duplicates() by {
                        if k != p {
                            assert(c.contains_key(k));
                        }
                    }
                }
                assert(prop_good(st0.p, c, p, split));
                self.lemma_run_good(f, st0, c, p, split, n);
            } else {
                self.lemma_run_weak(f, st0, c, p, split, n);
            }
            if !fin.p.conflict {
                assert(bfs_inv(fin.p));
                assert(fin.p.seen[0] == (p, split));
                assert(fin.p.m.contains_key(fin.p.seen[0].0));
                assert(fin.p.m[fin.p.seen[0].0] == seq![fin.p.seen[0].1]);
            }
        }
    }

    /// Without assuming anything of `c`, every round keeps the invariant,
    /// the first queued pair, and the narrowing of `c`.
    pub proof fn lemma_run_weak(&self, f: int, st: BfsState, c: CMap, v0: Seq<char>, s0: i8, n: nat)
        requires
            bfs_inv(st.p),
            narrower(st.p.m, c),
            !st.p.conflict,
            st.p.seen.len() > 0,
            st.p.seen[0] == (v0, s0),
        ensures
            !self.bfs_run(f, st, n).p.conflict ==> {
                let q = self.bfs_run(f, st, n).p;
                &&& bfs_inv(q)
                &&& narrower(q.m, c)
                &&& q.seen.len() > 0
                &&& q.seen[0] == (v0, s0)
            },
        decreases n,
    {
        if n > 0 {
            self.lemma_run_weak(f, st, c, v0, s0, (n - 1) as nat);
            let q = self.bfs_run(f, st, (n - 1) as nat);
            if !bfs_done(q) {
                let v = q.p.seen[q.head].0;
                let ps = self.ast.var_pos@[v].1@;
                self.lemma_visit_all_weak(f, q.p, c, v0, s0, v, q.p.seen[q.head].1, ps, ps.len() as int);
            }
        }
    }

    /// Without assuming anything of `c`, visiting keeps the invariant, the
    /// first queued pair, and the narrowing of `c`.
    pub proof fn lemma_visit_all_weak(&self, f: int, p: Prop, c: CMap, v0: Seq<char>, s0: i8, v: Seq<char>, s: i8, ps: Seq<usize>, n: int)
        requires
            bfs_inv(p),
            narrower(p.m, c),
            !p.conflict,
            p.seen.len() > 0,
            p.seen[0] == (v0, s0),
        ensures
            !self.visit_all(f, p, v, s, ps, n).conflict ==> {
                let q = self.visit_all(f, p, v, s, ps, n);
                &&& bfs_inv(q)
                &&& narrower(q.m, c)
                &&& q.seen.len() > 0
                &&& q.seen[0] == (v0, s0)
            },
        decreases n,
    {
        if n > 0 {
            self.lemma_visit_all_weak(f, p, c, v0, s0, v, s, ps, n - 1);
            let q = self.visit_all(f, p, v, s, ps, n - 1);
            if !q.conflict {
                let j = ps[n - 1] as int;
                let ds = pview(self.derive@)[f][j];
                let hs = match_hits(ds, v, s, ds.len() as int);
                let agg = agg_maps(hs, hs.len() as int);
                lemma_agg_maps_vals(hs, hs.len() as int);
                lemma_apply_all_weak(q, c, v0, s0, v, agg, agg.len() as int);
            }
        }
    }
}

/// Without assuming anything of `c`, narrowing by a well formed aggregate
/// keeps the invariant, the first queued pair, and the narrowing of `c`.
pub proof fn lemma_apply_all_weak(p: Prop, c: CMap, v0: Seq<char>, s0: i8, v: Seq<char>, agg: Seq<(Seq<char>, Seq<i8>)>, n: int)
    requires
        bfs_inv(p),
        narrower(p.m, c),
        !p.conflict,
        p.seen.len() > 0,
        p.seen[0] == (v0, s0),
        agg_vals_ok(agg),
        n <= agg.len(),
    ensures
        !apply_all(p, v, agg, n).conflict ==> {
            let q = apply_all(p, v, agg, n);
            &&& bfs_inv(q)
            &&& narrower(q.m, c)
            &&& q.seen.len() > 0
            &&& q.seen[0] == (v0, s0)
        },
    decreases n,
{
    if n > 0 {
        lemma_apply_all_weak(p, c, v0, s0, v, agg, n - 1);
        let q = apply_all(p, v, agg, n - 1);
        if !q.conflict {
            let k = agg[n - 1].0;
            let vals = agg[n - 1].1;
            assert(vals.len() > 0 && vals.no_duplicates());
            lemma_apply_entry(q, v, k, vals);
            let r = apply_entry(q, v, k, vals);
            if !r.conflict {
                assert(r.seen[0] == q.seen[0]) by {
                    if r.seen != q.seen {
                        assert(r.seen.drop_last()[0] == r.seen[0]);
                    }
                }
                lemma_keep_in(vals, if q.m.contains_key(k) { q.m[k] } else { vals });
                assert(narrower(r.m, c)) by {
                    assert forall|key: Seq<char>| #[trigger] c.contains_key(key) implies r.m.contains_key(key) && forall|x: i8|
                        #[trigger] r.m[key].contains(x) ==> c[key].contains(x) by {
                        assert(q.m.contains_key(key));
                        if key == k && r.m != q.m {
                            assert forall|x: i8| #[trigger] r.m[key].contains(x) implies c[key].contains(x) by {
                                if vals.len() == 1 {
                                    assert(x == vals[0]);
                                }
                                assert(q.m[k].contains(x));
                            }
                        }
                    }
                }
            }
        }
    }
}


/// The solution `s` fixes every parameter of `ps` from `index` on to
/// exactly one dimension.
pub open spec fn fixes_from(s: CMap, ps: Seq<Param>, index: int) -> bool {
    forall|i: int|
        index <= i < ps.len() ==> s.contains_key(#[trigger] ps[i].name@) && s[ps[i].name@].len() == 1
}

/// The solution `s` is sound for the search from `index` on under `m`: it
/// fixes those parameters, only narrows `m`, and gives every variable some
/// dimension, none repeated.
pub open spec fn solution_good(s: CMap, ps: Seq<Param>, index: int, m: CMap) -> bool {
    &&& fixes_from(s, ps, index)
    &&& narrower(s, m)
    &&& cm_nonempty(s)
    &&& cm_nodup(s)
}

/// A list without repetition whose elements all equal `y` has at most one.
pub proof fn lemma_len_le_one(s: Seq<i8>, y: i8)
    requires
        s.no_duplicates(),
        forall|e: i8| #[trigger] s.contains(e) ==> e == y,
    ensures
        s.len() <= 1,
{
    if s.len() > 1 {
        assert(s.contains(s[0]) && s.contains(s[1]));
        assert(s[0] == s[1]);
    }
}

/// When every meet of `r` with one of the first `n` of `sub` that leaves
/// each variable a dimension has the property `pred`, so has every solution
/// that `meets` gives.
pub proof fn lemma_meets(r: CMap, sub: Seq<CMap>, n: int, pred: spec_fn(CMap) -> bool)
    requires
        n <= sub.len(),
        forall|u: int| 0 <= u < n && meet_ok(r, sub[u]) ==> pred(#[trigger] meet(r, sub[u])),
    ensures
        forall|t: int| 0 <= t < meets(r, sub, n).len() ==> pred(#[trigger] meets(r, sub, n)[t]),
    decreases n,
{
    if n > 0 {
        lemma_meets(r, sub, n - 1, pred);
        let a = meets(r, sub, n - 1);
        let b = meets(r, sub, n);
        assert forall|t: int| 0 <= t < b.len() implies pred(#[trigger] b[t]) by {
            if t < a.len() {
                assert(b[t] == a[t]);
            } else {
                assert(b[t] == meet(r, sub[n - 1]));
            }
        }
    }
}

/// Meeting a propagation result that fixes parameter `index` with a sound
/// solution for the later parameters gives a sound solution from `index`.
pub proof fn lemma_meet_good(r: CMap, x: CMap, ps: Seq<Param>, index: int, m: CMap)
    requires
        0 <= index < ps.len(),
        cm_nonempty(r),
        cm_nodup(r),
        narrower(r, m),
        r.contains_key(ps[index].name@),
        r[ps[index].name@].len() == 1,
        solution_good(x, ps, index + 1, r),
        meet_ok(r, x),
    ensures
        solution_good(meet(r, x), ps, index, m),
{
    let z = meet(r, x);
    assert forall|k: Seq<char>| z.contains_key(k) implies #[trigger] z[k].len() > 0 && z[k].no_duplicates() by {
        if r.contains_key(k) && x.contains_key(k) {
            lemma_keep_in(r[k], x[k]);
        } else if r.contains_key(k) {
        } else {
            assert(x.contains_key(k));
        }
    }
    assert(cm_nonempty(z));
    assert(cm_nodup(z));
    assert forall|i: int| index <= i < ps.len() implies z.contains_key(#[trigger] ps[i].name@) && z[ps[i].name@].len() == 1 by {
        let k = ps[i].name@;
        if i == index {
            if x.contains_key(k) {
                lemma_keep_in(r[k], x[k]);
                assert forall|e: i8| #[trigger] z[k].contains(e) implies e == r[k][0] by {
                    assert(r[k].contains(e));
                    let w = choose|w: int| 0 <= w < r[k].len() && r[k][w] == e;
                }
                lemma_len_le_one(z[k], r[k][0]);
            }
        } else {
            assert(x.contains_key(k) && x[k].len() == 1);
            if r.contains_key(k) {
                lemma_keep_in(r[k], x[k]);
                assert forall|e: i8| #[trigger] z[k].contains(e) implies e == x[k][0] by {
                    assert(x[k].contains(e));
                    let w = choose|w: int| 0 <= w < x[k].len() && x[k][w] == e;
                }
                lemma_len_le_one(z[k], x[k][0]);
            }
        }
    }
    assert(narrower(z, m)) by {
        assert forall|k: Seq<char>| #[trigger] m.contains_key(k) implies z.contains_key(k) && forall|e: i8|
            #[trigger] z[k].contains(e) ==> m[k].contains(e) by {
            assert(r.contains_key(k));
            assert forall|e: i8| #[trigger] z[k].contains(e) implies m[k].contains(e) by {
                if x.contains_key(k) {
                    lemma_keep_in(r[k], x[k]);
                }
                assert(r[k].contains(e));
            }
        }
    }
}

impl Context {
    /// Enumeration only narrows: every solution that the search from
    /// `index` on under `m` gives fixes each of those parameters to exactly
    /// one dimension and constrains every variable of `m` to dimensions
    /// that `m` allows, provided every variable of `m` has dimensions, none
    /// repeated.
    pub proof fn law_remt(&self, f: int, ps: Seq<Param>, index: int, m: CMap, chain: Seq<i8>, main: bool, best: int)
        requires
            cm_nonempty(m),
            cm_nodup(m),
        ensures
            forall|t: int|
                0 <= t < self.remt(f, ps, index, m, chain, main, best).0.len() ==> solution_good(
                    #[trigger] self.remt(f, ps, index, m, chain, main, best).0[t],
                    ps,
                    index,
                    m,
                ),
        decreases ps.len() - index, 1int, 0int,
    {
        if 0 <= index < ps.len() && !(main && ps.len() - crate::ir::propagate::enumerate::count_rep(chain) < best) {
            let dims = crate::ir::propagate::enumerate::dim_list(m, ps[index]);
            self.law_remt_dims(f, ps, index, m, chain, main, dims, dims.len() as int, best);
            assert(self.remt(f, ps, index, m, chain, main, best) == self.remt_dims(f, ps, index, m, chain, main, dims, dims.len() as int, best));
        }
    }

    /// The solutions from trying the first `n` of `dims` for parameter
    /// `index` are sound.
    pub proof fn law_remt_dims(
        &self,
        f: int,
        ps: Seq<Param>,
        index: int,
        m: CMap,
        chain: Seq<i8>,
        main: bool,
        dims: Seq<i8>,
        n: int,
        best: int,
    )
        requires
            cm_nonempty(m),
            cm_nodup(m),
        ensures
            forall|t: int|
                0 <= t < self.remt_dims(f, ps, index, m, chain, main, dims, n, best).0.len() ==> solution_good(
                    #[trigger] self.remt_dims(f, ps, index, m, chain, main, dims, n, best).0[t],
                    ps,
                    index,
                    m,
                ),
        decreases ps.len() - index, 0int, n,
    {
        if n > 0 && 0 <= index < ps.len() {
            self.law_remt_dims(f, ps, index, m, chain, main, dims, n - 1, best);
            let prev = self.remt_dims(f, ps, index, m, chain, main, dims, n - 1, best);
            let d = dims[n - 1];
            let name = ps[index].name@;
            self.law_bfs_narrows(f, m, name, d);
            let res = self.remt_dims(f, ps, index, m, chain, main, dims, n, best);
            match self.spec_bfs(f, m, name, d) {
                None => {},
                Some(r) => {
                    if index + 1 >= ps.len() {
                        assert forall|t: int| 0 <= t < res.0.len() implies solution_good(#[trigger] res.0[t], ps, index, m) by {
                            if t < prev.0.len() {
                                assert(res.0[t] == prev.0[t]);
                            } else {
                                assert(res.0[t] == r);
                                assert forall|i: int| index <= i < ps.len() implies r.contains_key(#[trigger] ps[i].name@)
                                    && r[ps[i].name@].len() == 1 by {
                                    assert(i == index);
                                }
                            }
                        }
                    } else {
                        let sub = self.remt(f, ps, index + 1, r, chain.push(d), main, prev.1);
                        self.law_remt(f, ps, index + 1, r, chain.push(d), main, prev.1);
                        let pred = |z: CMap| solution_good(z, ps, index, m);
                        assert forall|u: int| 0 <= u < sub.0.len() && meet_ok(r, sub.0[u]) implies pred(#[trigger] meet(r, sub.0[u])) by {
                            assert(solution_good(sub.0[u], ps, index + 1, r));
                            lemma_meet_good(r, sub.0[u], ps, index, m);
                        }
                        lemma_meets(r, sub.0, sub.0.len() as int, pred);
                        let ms = meets(r, sub.0, sub.0.len() as int);
                        assert forall|t: int| 0 <= t < res.0.len() implies solution_good(#[trigger] res.0[t], ps, index, m) by {
                            if t < prev.0.len() {
                                assert(res.0[t] == prev.0[t]);
                            } else {
                                let w = t - prev.0.len();
                                assert(res.0[t] == ms[w]);
                                assert(pred(ms[w]));
                            }
                        }
                    }
                },
            }
        }
    }
}


/// `keep_in` keeps all of a list whose elements the other list holds.
pub proof fn lemma_keep_all(s: Seq<i8>, t: Seq<i8>)
    requires
        forall|e: i8| #[trigger] s.contains(e) ==> t.contains(e),
    ensures
        keep_in(s, t) == s,
    decreases s.len(),
{
    if s.len() > 0 {
        assert forall|e: i8| #[trigger] s.drop_last().contains(e) implies t.contains(e) by {
            let i = choose|i: int| 0 <= i < s.drop_last().len() && s.drop_last()[i] == e;
            assert(s[i] == e);
            assert(s.contains(e));
        }
        lemma_keep_all(s.drop_last(), t);
        assert(s.contains(s.last())) by {
            assert(s[s.len() - 1] == s.last());
        }
        assert(s.drop_last().push(s.last()) =~= s);
    }
}

/// Meeting constraints with themselves changes nothing, as long as every
/// variable has some dimension.
pub proof fn law_meet_self(a: CMap)
    requires
        cm_nonempty(a),
    ensures
        meet_ok(a, a),
        meet(a, a) == a,
{
    assert forall|k: Seq<char>| a.contains_key(k) && a.contains_key(k) implies #[trigger] keep_in(a[k], a[k]).len() > 0 by {
        lemma_keep_all(a[k], a[k]);
    }
    assert forall|k: Seq<char>| a.contains_key(k) implies meet(a, a)[k] == a[k] by {
        lemma_keep_all(a[k], a[k]);
    }
    assert(meet(a, a) =~= a);
}

/// Meeting with no constraint changes nothing, on either side.
pub proof fn law_meet_empty(a: CMap)
    ensures
        meet_ok(a, Map::empty()),
        meet(a, Map::empty()) == a,
        meet_ok(Map::empty(), a),
        meet(Map::empty(), a) == a,
{
    assert(meet(a, Map::empty()) =~= a);
    assert(meet(Map::empty(), a) =~= a);
}

/// The meet does not depend on the order of its sides, up to the order in
/// which the dimensions of a shared variable are listed.
pub proof fn law_meet_comm(a: CMap, b: CMap)
    ensures
        meet_ok(a, b) == meet_ok(b, a),
        meet(a, b).dom() == meet(b, a).dom(),
        forall|k: Seq<char>, x: i8|
            meet(a, b).contains_key(k) ==> (#[trigger] meet(a, b)[k].contains(x) <==> meet(b, a)[k].contains(x)),
{
    assert forall|k: Seq<char>, x: i8| a.contains_key(k) && b.contains_key(k) implies (#[trigger] keep_in(a[k], b[k]).contains(x)
        <==> keep_in(b[k], a[k]).contains(x)) by {
        lemma_keep_in(a[k], b[k]);
        lemma_keep_in(b[k], a[k]);
        lemma_keep_has(a[k], b[k], x);
        lemma_keep_has(b[k], a[k], x);
    }
    assert forall|k: Seq<char>| a.contains_key(k) && b.contains_key(k) implies (#[trigger] keep_in(a[k], b[k]).len() > 0
        <==> keep_in(b[k], a[k]).len() > 0) by {
        if keep_in(a[k], b[k]).len() > 0 {
            let x = keep_in(a[k], b[k])[0];
            assert(keep_in(a[k], b[k]).contains(x));
            lemma_keep_in(a[k], b[k]);
            lemma_keep_has(b[k], a[k], x);
        }
        if keep_in(b[k], a[k]).len() > 0 {
            let x = keep_in(b[k], a[k])[0];
            assert(keep_in(b[k], a[k]).contains(x));
            lemma_keep_in(b[k], a[k]);
            lemma_keep_has(a[k], b[k], x);
        }
    }
    if meet_ok(a, b) {
        assert forall|k: Seq<char>| b.contains_key(k) && a.contains_key(k) implies #[trigger] keep_in(b[k], a[k]).len() > 0 by {
            assert(keep_in(a[k], b[k]).len() > 0);
        }
    }
    if meet_ok(b, a) {
        assert forall|k: Seq<char>| a.contains_key(k) && b.contains_key(k) implies #[trigger] keep_in(a[k], b[k]).len() > 0 by {
            assert(keep_in(b[k], a[k]).len() > 0);
        }
    }
    assert(meet(a, b).dom() =~= meet(b, a).dom());
}

/// An element of both lists is kept.
pub proof fn lemma_keep_has(s: Seq<i8>, t: Seq<i8>, x: i8)
    ensures
        s.contains(x) && t.contains(x) ==> keep_in(s, t).contains(x),
    decreases s.len(),
{
    if s.len() > 0 && s.contains(x) && t.contains(x) {
        if s.last() == x {
            assert(keep_in(s, t).last() == x);
            assert(keep_in(s, t)[keep_in(s, t).len() - 1] == x);
        } else {
            let i = choose|i: int| 0 <= i < s.len() && s[i] == x;
            assert(s.drop_last()[i] == x);
            lemma_keep_has(s.drop_last(), t, x);
            let r = keep_in(s.drop_last(), t);
            let j = choose|j: int| 0 <= j < r.len() && r[j] == x;
            if t.contains(s.last()) {
                assert(keep_in(s, t)[j] == x);
            }
        }
    }
}


/// The empty constraint map gives every variable it holds dimensions,
/// none repeated.
pub proof fn lemma_empty_good()
    ensures
        cm_nonempty(Map::<Seq<char>, Seq<i8>>::empty()),
        cm_nodup(Map::<Seq<char>, Seq<i8>>::empty()),
{
}

/// What `keep_out` keeps: the elements of `s` that `t` lacks, none twice
/// when `s` has none twice.
pub proof fn lemma_keep_out(s: Seq<i8>, t: Seq<i8>)
    ensures
        forall|x: i8| #[trigger] keep_out(s, t).contains(x) <==> s.contains(x) && !t.contains(x),
        s.no_duplicates() ==> keep_out(s, t).no_duplicates(),
    decreases s.len(),
{
    if s.len() > 0 {
        let d = s.drop_last();
        lemma_keep_out(d, t);
        let r = keep_out(d, t);
        assert forall|x: i8| #[trigger] keep_out(s, t).contains(x) <==> s.contains(x) && !t.contains(x) by {
            if s.contains(x) && !t.contains(x) {
                let i = choose|i: int| 0 <= i < s.len() && s[i] == x;
                if i < s.len() - 1 {
                    assert(d[i] == x);
                    assert(r.contains(x));
                    let j = choose|j: int| 0 <= j < r.len() && r[j] == x;
                    assert(keep_out(s, t)[j] == x);
                } else {
                    assert(keep_out(s, t)[r.len() as int] == x);
                }
            }
            if keep_out(s, t).contains(x) {
                let j = choose|j: int| 0 <= j < keep_out(s, t).len() && keep_out(s, t)[j] == x;
                if j < r.len() {
                    assert(r[j] == x);
                    assert(r.contains(x));
                    let i = choose|i: int| 0 <= i < d.len() && d[i] == x;
                    assert(s[i] == x);
                } else {
                    assert(s[s.len() - 1] == x);
                }
            }
        }
        if s.no_duplicates() {
            assert(d.no_duplicates()) by {
                assert forall|i: int, j: int| 0 <= i < d.len() && 0 <= j < d.len() && i != j implies d[i] != d[j] by {
                    assert(s[i] == d[i] && s[j] == d[j]);
                }
            }
            if !t.contains(s.last()) {
                assert(!r.contains(s.last())) by {
                    if r.contains(s.last()) {
                        assert(d.contains(s.last()));
                        let i = choose|i: int| 0 <= i < d.len() && d[i] == s.last();
                        assert(s[i] == s[s.len() - 1]);
                    }
                }
                assert forall|i: int, j: int| 0 <= i < keep_out(s, t).len() && 0 <= j < keep_out(s, t).len() && i != j implies keep_out(s, t)[i] != keep_out(s, t)[j] by {
                    if i < r.len() && j < r.len() {
                        assert(keep_out(s, t)[i] == r[i] && keep_out(s, t)[j] == r[j]);
                    } else if i < r.len() {
                        assert(keep_out(s, t)[i] == r[i]);
                        assert(r.contains(r[i]));
                    } else {
                        assert(keep_out(s, t)[j] == r[j]);
                        assert(r.contains(r[j]));
                    }
                }
            }
        }
    }
}

/// Joining constraints gives each variable of either side the dimensions
/// that either side allows it, and lists none twice when neither side
/// does.
pub proof fn law_join_union(a: CMap, b: CMap)
    ensures
        join(a, b).dom() == a.dom().union(b.dom()),
        forall|k: Seq<char>, x: i8|
            join(a, b).contains_key(k) ==> (#[trigger] join(a, b)[k].contains(x) <==> (a.contains_key(k) && a[k].contains(x))
                || (b.contains_key(k) && b[k].contains(x))),
        cm_nodup(a) && cm_nodup(b) ==> cm_nodup(join(a, b)),
{
    assert(join(a, b).dom() =~= a.dom().union(b.dom()));
    assert forall|k: Seq<char>, x: i8| join(a, b).contains_key(k) implies (#[trigger] join(a, b)[k].contains(x) <==> (a.contains_key(k)
        && a[k].contains(x)) || (b.contains_key(k) && b[k].contains(x))) by {
        if a.contains_key(k) && b.contains_key(k) {
            lemma_keep_out(b[k], a[k]);
            let o = keep_out(b[k], a[k]);
            let u = a[k] + o;
            if a[k].contains(x) {
                let i = choose|i: int| 0 <= i < a[k].len() && a[k][i] == x;
                assert(u[i] == x);
            } else if b[k].contains(x) {
                assert(o.contains(x));
                let j = choose|j: int| 0 <= j < o.len() && o[j] == x;
                assert(u[a[k].len() + j] == x);
            }
            if u.contains(x) {
                let i = choose|i: int| 0 <= i < u.len() && u[i] == x;
                if i < a[k].len() {
                    assert(a[k][i] == x);
                } else {
                    assert(o[i - a[k].len()] == x);
                    assert(o.contains(x));
                }
            }
        }
    }
    if cm_nodup(a) && cm_nodup(b) {
        assert forall|k: Seq<char>| join(a, b).contains_key(k) implies #[trigger] join(a, b)[k].no_duplicates() by {
            if a.contains_key(k) {
                assert(a[k].no_duplicates());
            }
            if b.contains_key(k) {
                assert(b[k].no_duplicates());
            }
            if a.contains_key(k) && b.contains_key(k) {
                lemma_keep_out(b[k], a[k]);
                let o = keep_out(b[k], a[k]);
                let u = a[k] + o;
                assert(a[k].no_duplicates());
                assert(b[k].no_duplicates());
                assert(o.no_duplicates());
                assert forall|i: int, j: int| 0 <= i < u.len() && 0 <= j < u.len() && i != j implies u[i] != u[j] by {
                    let n = a[k].len() as int;
                    if i < n && j >= n {
                        assert(u[j] == o[j - n]);
                        assert(o.contains(u[j]));
                        assert(u[i] == a[k][i]);
                        assert(a[k].contains(u[i]));
                    } else if j < n && i >= n {
                        assert(u[i] == o[i - n]);
                        assert(o.contains(u[i]));
                        assert(u[j] == a[k][j]);
                        assert(a[k].contains(u[j]));
                    } else if i >= n {
                        assert(u[i] == o[i - n] && u[j] == o[j - n]);
                    } else {
                        assert(u[i] == a[k][i] && u[j] == a[k][j]);
                    }
                }
            }
        }
    }
}

} // verus!

verus! {

impl Context {
    /// The best progress never decreases during an enumeration, and off the
    /// main task it is left as it was.
    pub proof fn law_remt_best(&self, f: int, ps: Seq<Param>, index: int, m: CMap, chain: Seq<i8>, main: bool, best: int)
        ensures
            self.remt(f, ps, index, m, chain, main, best).1 >= best,
            !main ==> self.remt(f, ps, index, m, chain, main, best).1 == best,
        decreases ps.len() - index, 1int, 0int,
    {
        if 0 <= index < ps.len() && !(main && ps.len() - crate::ir::propagate::enumerate::count_rep(chain) < best) {
            let dims = crate::ir::propagate::enumerate::dim_list(m, ps[index]);
            self.law_remt_dims_best(f, ps, index, m, chain, main, dims, dims.len() as int, best);
        }
    }

    /// The best progress after trying the first `n` of `dims` for
    /// parameter `index` is at least `best`, and equals it off the main
    /// task.
    pub proof fn law_remt_dims_best(
        &self,
        f: int,
        ps: Seq<Param>,
        index: int,
        m: CMap,
        chain: Seq<i8>,
        main: bool,
        dims: Seq<i8>,
        n: int,
        best: int,
    )
        ensures
            self.remt_dims(f, ps, index, m, chain, main, dims, n, best).1 >= best,
            !main ==> self.remt_dims(f, ps, index, m, chain, main, dims, n, best).1 == best,
        decreases ps.len() - index, 0int, n,
    {
        if n > 0 && 0 <= index < ps.len() {
            self.law_remt_dims_best(f, ps, index, m, chain, main, dims, n - 1, best);
            let prev = self.remt_dims(f, ps, index, m, chain, main, dims, n - 1, best);
            let d = dims[n - 1];
            match self.spec_bfs(f, m, ps[index].name@, d) {
                None => {},
                Some(r) => {
                    if index + 1 < ps.len() {
                        self.law_remt_best(f, ps, index + 1, r, chain.push(d), main, prev.1);
                    }
                },
            }
        }
    }

    /// The best progress that the search without solutions keeps never
    /// decreases, and off the main task it is left as it was.
    pub proof fn law_remtp_best(&self, f: int, ps: Seq<Param>, index: int, m: CMap, chain: Seq<i8>, main: bool, best: int)
        ensures
            self.remtp(f, ps, index, m, chain, main, best) >= best,
            !main ==> self.remtp(f, ps, index, m, chain, main, best) == best,
        decreases ps.len() - index, 1int, 0int,
    {
        if 0 <= index < ps.len() && !(main && ps.len() - crate::ir::propagate::enumerate::count_rep(chain) < best) {
            let dims = if main && index == 0 {
                seq![0i8]
            } else if main && index == 1 {
                seq![-1i8]
            } else if main && index == 2 {
                seq![1i8]
            } else {
                crate::ir::propagate::enumerate::dim_list(m, ps[index])
            };
            self.law_remtp_dims_best(f, ps, index, m, chain, main, dims, dims.len() as int, best);
        }
    }

    /// The best progress after trying the first `n` of `dims` for
    /// parameter `index` in the search without solutions is at least
    /// `best`, and equals it off the main task.
    pub proof fn law_remtp_dims_best(
        &self,
        f: int,
        ps: Seq<Param>,
        index: int,
        m: CMap,
        chain: Seq<i8>,
        main: bool,
        dims: Seq<i8>,
        n: int,
        best: int,
    )
        ensures
            self.remtp_dims(f, ps, index, m, chain, main, dims, n, best) >= best,
            !main ==> self.remtp_dims(f, ps, index, m, chain, main, dims, n, best) == best,
        decreases ps.len() - index, 0int, n,
    {
        if n > 0 && 0 <= index < ps.len() {
            self.law_remtp_dims_best(f, ps, index, m, chain, main, dims, n - 1, best);
            let prev = self.remtp_dims(f, ps, index, m, chain, main, dims, n - 1, best);
            let d = dims[n - 1];
            match self.spec_bfs(f, m, ps[index].name@, d) {
                None => {},
                Some(r) => {
                    if index + 1 < ps.len() {
                        self.law_remtp_best(f, ps, index + 1, r, chain.push(d), main, prev);
                    }
                },
            }
        }
    }
}

} // verus!

verus! {

/// The solutions `x` and `y` split some parameter from `index` on
/// differently.
pub open spec fn differ(x: CMap, y: CMap, ps: Seq<Param>, index: int) -> bool {
    exists|k: int| index <= k < ps.len() && #[trigger] x[ps[k].name@] != y[ps[k].name@]
}

/// No two of the solutions `sols` split the parameters from `index` on
/// alike.
pub open spec fn sols_distinct(sols: Seq<CMap>, ps: Seq<Param>, index: int) -> bool {
    forall|a: int, b: int| 0 <= a < b < sols.len() ==> differ(#[trigger] sols[a], #[trigger] sols[b], ps, index)
}

/// Keeping the elements of a list without repetition that a single
/// element list holds gives that element when the list has it.
pub proof fn lemma_keep_single(s: Seq<i8>, x: i8)
    requires
        s.no_duplicates(),
    ensures
        s.contains(x) ==> keep_in(s, seq![x]) == seq![x],
        !s.contains(x) ==> keep_in(s, seq![x]).len() == 0,
    decreases s.len(),
{
    if s.len() > 0 {
        let d = s.drop_last();
        assert(d.no_duplicates()) by {
            assert forall|i: int, j: int| 0 <= i < d.len() && 0 <= j < d.len() && i != j implies d[i] != d[j] by {
                assert(s[i] == d[i] && s[j] == d[j]);
            }
        }
        lemma_keep_single(d, x);
        assert(seq![x].contains(s.last()) <==> s.last() == x) by {
            if seq![x].contains(s.last()) {
                let i = choose|i: int| 0 <= i < 1 && seq![x][i] == s.last();
            }
            if s.last() == x {
                assert(seq![x][0] == x);
            }
        }
        if s.last() == x {
            assert(!d.contains(x)) by {
                if d.contains(x) {
                    let i = choose|i: int| 0 <= i < d.len() && d[i] == x;
                    assert(s[i] == s[s.len() - 1]);
                }
            }
            assert(keep_in(s, seq![x]) =~= seq![x]);
        } else {
            if s.contains(x) {
                let i = choose|i: int| 0 <= i < s.len() && s[i] == x;
                assert(d[i] == x);
            }
            if d.contains(x) {
                let i = choose|i: int| 0 <= i < d.len() && d[i] == x;
                assert(s[i] == x);
            }
        }
    }
}

/// Meeting `r` with a solution `s` that fixes `key` within what `r`
/// allows keeps the split of `key` that `s` fixes.
pub proof fn lemma_meet_keeps(r: CMap, s: CMap, key: Seq<char>)
    requires
        s.contains_key(key),
        s[key].len() == 1,
        r.contains_key(key) ==> r[key].contains(s[key][0]) && r[key].no_duplicates(),
    ensures
        meet(r, s).contains_key(key),
        meet(r, s)[key] == s[key],
{
    if r.contains_key(key) {
        lemma_keep_single(r[key], s[key][0]);
        assert(s[key] =~= seq![s[key][0]]);
    }
}

/// A solution of the later parameters met with the constraint map it was
/// found under keeps the splits of those parameters.
proof fn lemma_meet_keeps_from(r: CMap, s: CMap, ps: Seq<Param>, index: int)
    requires
        solution_good(s, ps, index + 1, r),
        cm_nodup(r),
    ensures
        forall|k: int| index + 1 <= k < ps.len() ==> meet(r, s)[#[trigger] ps[k].name@] == s[ps[k].name@],
{
    assert forall|k: int| index + 1 <= k < ps.len() implies meet(r, s)[#[trigger] ps[k].name@] == s[ps[k].name@] by {
        let key = ps[k].name@;
        assert(s.contains_key(key) && s[key].len() == 1);
        if r.contains_key(key) {
            assert(r[key].no_duplicates());
            assert(s[key].contains(s[key][0]));
            assert(r[key].contains(s[key][0]));
        }
        lemma_meet_keeps(r, s, key);
    }
}

/// The meets of `r` with solutions of the later parameters that differ
/// pairwise differ pairwise too, and each is the meet with one of them.
proof fn lemma_meets_distinct(r: CMap, sub: Seq<CMap>, n: int, ps: Seq<Param>, index: int)
    requires
        0 <= n <= sub.len(),
        cm_nodup(r),
        forall|u: int| 0 <= u < sub.len() ==> solution_good(#[trigger] sub[u], ps, index + 1, r),
        sols_distinct(sub, ps, index + 1),
    ensures
        sols_distinct(meets(r, sub, n), ps, index),
        forall|t: int| 0 <= t < meets(r, sub, n).len() ==> exists|u: int| 0 <= u < n && #[trigger] meets(r, sub, n)[t] == meet(r, sub[u]),
    decreases n,
{
    if n > 0 {
        lemma_meets_distinct(r, sub, n - 1, ps, index);
        let a = meets(r, sub, n - 1);
        let b = meets(r, sub, n);
        assert forall|t: int| 0 <= t < b.len() implies exists|u: int| 0 <= u < n && #[trigger] b[t] == meet(r, sub[u]) by {
            if t < a.len() {
                assert(b[t] == a[t]);
                let u = choose|u: int| 0 <= u < n - 1 && #[trigger] a[t] == meet(r, sub[u]);
                assert(b[t] == meet(r, sub[u]));
            } else {
                assert(b[t] == meet(r, sub[n - 1]));
            }
        }
        if meet_ok(r, sub[n - 1]) {
            let z = meet(r, sub[n - 1]);
            lemma_meet_keeps_from(r, sub[n - 1], ps, index);
            assert forall|x: int, y: int| 0 <= x < y < b.len() implies differ(#[trigger] b[x], #[trigger] b[y], ps, index) by {
                if y < a.len() {
                    assert(b[x] == a[x] && b[y] == a[y]);
                } else {
                    assert(b[y] == z);
                    assert(b[x] == a[x]);
                    let u = choose|u: int| 0 <= u < n - 1 && #[trigger] a[x] == meet(r, sub[u]);
                    lemma_meet_keeps_from(r, sub[u], ps, index);
                    assert(differ(sub[u], sub[n - 1], ps, index + 1));
                    let k = choose|k: int| index + 1 <= k < ps.len() && #[trigger] sub[u][ps[k].name@] != sub[n - 1][ps[k].name@];
                    assert(b[x][ps[k].name@] == sub[u][ps[k].name@]);
                    assert(b[y][ps[k].name@] == sub[n - 1][ps[k].name@]);
                }
            }
        } else {
            assert(b == a);
        }
    }
}

impl Context {
    /// Enumeration returns no solution twice: any two solutions split some
    /// of the parameters from `index` on differently.
    pub proof fn law_remt_distinct(&self, f: int, ps: Seq<Param>, index: int, m: CMap, chain: Seq<i8>, main: bool, best: int)
        requires
            cm_nonempty(m),
            cm_nodup(m),
        ensures
            sols_distinct(self.remt(f, ps, index, m, chain, main, best).0, ps, index),
        decreases ps.len() - index, 1int, 0int,
    {
        if 0 <= index < ps.len() && !(main && ps.len() - crate::ir::propagate::enumerate::count_rep(chain) < best) {
            let dims = crate::ir::propagate::enumerate::dim_list(m, ps[index]);
            self.lemma_dims_nodup(m, ps[index]);
            self.law_remt_dims_distinct(f, ps, index, m, chain, main, dims, dims.len() as int, best);
        }
    }

    /// The dimensions a parameter is tried along are listed once each.
    pub proof fn lemma_dims_nodup(&self, m: CMap, p: Param)
        requires
            cm_nodup(m),
        ensures
            crate::ir::propagate::enumerate::dim_list(m, p).no_duplicates(),
    {
        if !m.contains_key(p.name@) {
            let s = crate::ir::propagate::enumerate::dim_list(m, p);
            let t = ((crate::ir::propagate::enumerate::ndims(p) as i8) as int);
            let base = Seq::new(if t > 0 { t as nat } else { 0 }, |i: int| i as i8);
            assert(s == base.push(-1i8));
            assert forall|i: int, j: int| 0 <= i < s.len() && 0 <= j < s.len() && i != j implies s[i] != s[j] by {
                if i < base.len() && j < base.len() {
                    assert(s[i] == i as i8 && s[j] == j as i8);
                    assert(0 <= i < 128 && 0 <= j < 128);
                } else if i < base.len() {
                    assert(s[i] == i as i8 && s[j] == -1i8);
                    assert(0 <= i < 128);
                } else if j < base.len() {
                    assert(s[j] == j as i8 && s[i] == -1i8);
                    assert(0 <= j < 128);
                }
            }
        }
    }

    /// The solutions from the first `n` of `dims` differ pairwise, and each
    /// fixes parameter `index` to one of those dimensions.
    pub proof fn law_remt_dims_distinct(
        &self,
        f: int,
        ps: Seq<Param>,
        index: int,
        m: CMap,
        chain: Seq<i8>,
        main: bool,
        dims: Seq<i8>,
        n: int,
        best: int,
    )
        requires
            cm_nonempty(m),
            cm_nodup(m),
            dims.no_duplicates(),
            n <= dims.len(),
        ensures
            sols_distinct(self.remt_dims(f, ps, index, m, chain, main, dims, n, best).0, ps, index),
            0 <= index < ps.len() ==> forall|t: int|
                0 <= t < self.remt_dims(f, ps, index, m, chain, main, dims, n, best).0.len() ==> exists|u: int|
                    0 <= u < n && #[trigger] self.remt_dims(f, ps, index, m, chain, main, dims, n, best).0[t][ps[index].name@]
                        == seq![dims[u]],
        decreases ps.len() - index, 0int, n,
    {
        if n > 0 && 0 <= index < ps.len() {
            self.law_remt_dims_distinct(f, ps, index, m, chain, main, dims, n - 1, best);
            let prev = self.remt_dims(f, ps, index, m, chain, main, dims, n - 1, best);
            let d = dims[n - 1];
            let name = ps[index].name@;
            self.law_bfs_narrows(f, m, name, d);
            let res = self.remt_dims(f, ps, index, m, chain, main, dims, n, best);
            match self.spec_bfs(f, m, name, d) {
                None => {
                    assert(res == prev);
                    assert forall|t: int| 0 <= t < res.0.len() implies exists|u: int|
                        0 <= u < n && #[trigger] res.0[t][name] == seq![dims[u]] by {
                        let u = choose|u: int| 0 <= u < n - 1 && #[trigger] prev.0[t][name] == seq![dims[u]];
                    }
                },
                Some(r) => {
                    let news: Seq<CMap> = if index + 1 >= ps.len() {
                        seq![r]
                    } else {
                        let sub = self.remt(f, ps, index + 1, r, chain.push(d), main, prev.1);
                        meets(r, sub.0, sub.0.len() as int)
                    };
                    assert(res.0 == prev.0 + news);
                    // every new solution fixes the parameter to `d`
                    if index + 1 < ps.len() {
                        let sub = self.remt(f, ps, index + 1, r, chain.push(d), main, prev.1);
                        self.law_remt(f, ps, index + 1, r, chain.push(d), main, prev.1);
                        self.law_remt_distinct(f, ps, index + 1, r, chain.push(d), main, prev.1);
                        lemma_meets_distinct(r, sub.0, sub.0.len() as int, ps, index);
                        assert forall|t: int| 0 <= t < news.len() implies #[trigger] news[t][name] == seq![d] by {
                            let u = choose|u: int| 0 <= u < sub.0.len() && #[trigger] news[t] == meet(r, sub.0[u]);
                            let s = sub.0[u];
                            assert(solution_good(s, ps, index + 1, r));
                            assert(r.contains_key(name) && r[name] == seq![d]);
                            if s.contains_key(name) {
                                assert(s[name].len() > 0);
                                assert(s[name].contains(s[name][0]));
                                assert(seq![d].contains(s[name][0]));
                                assert(s[name][0] == d);
                                assert(s[name].contains(d));
                                assert(keep_in(seq![d], s[name]) =~= seq![d]) by {
                                    assert(seq![d].drop_last() =~= Seq::<i8>::empty());
                                    assert(keep_in(seq![d].drop_last(), s[name]).len() == 0);
                                    assert(seq![d].last() == d);
                                }
                            }
                        }
                    } else {
                        assert(news[0][name] == seq![d]);
                    }
                    assert forall|t: int| 0 <= t < res.0.len() implies exists|u: int|
                        0 <= u < n && #[trigger] res.0[t][name] == seq![dims[u]] by {
                        if t < prev.0.len() {
                            assert(res.0[t] == prev.0[t]);
                            let u = choose|u: int| 0 <= u < n - 1 && #[trigger] prev.0[t][name] == seq![dims[u]];
                        } else {
                            assert(res.0[t] == news[t - prev.0.len()]);
                            assert(res.0[t][name] == seq![dims[n - 1]]);
                        }
                    }
                    assert forall|x: int, y: int| 0 <= x < y < res.0.len() implies differ(#[trigger] res.0[x], #[trigger] res.0[y], ps, index) by {
                        if y < prev.0.len() {
                            assert(res.0[x] == prev.0[x] && res.0[y] == prev.0[y]);
                        } else if x < prev.0.len() {
                            assert(res.0[x] == prev.0[x]);
                            let u = choose|u: int| 0 <= u < n - 1 && #[trigger] prev.0[x][name] == seq![dims[u]];
                            assert(res.0[y] == news[y - prev.0.len()]);
                            assert(res.0[y][name] == seq![d]);
                            assert(dims[u] != d);
                            assert(seq![dims[u]][0] != seq![d][0]);
                            assert(res.0[x][ps[index].name@] != res.0[y][ps[index].name@]);
                        } else {
                            assert(res.0[x] == news[x - prev.0.len()] && res.0[y] == news[y - prev.0.len()]);
                            assert(index + 1 < ps.len());
                        }
                    }
                },
            }
        }
    }
}

} // verus!
