//! Breadth-first propagation of one fixed split through a function.
//!
//! Fixing a variable to a split leaves, at each instruction that touches
//! it, only the derived split maps that agree; the splits those maps give
//! the other variables narrow the constraint map, and each variable whose
//! dimension becomes fixed is propagated in turn, until nothing is left to
//! visit or a variable is left without a dimension.
use vstd::prelude::*;
use crate::ir::derive::{identity_op, is_identity_op};
use crate::ir::error::{DeriveError, PropagationError};
use crate::ir::hlo_ast::{Instruction, find_meta};
use crate::ir::propagate::context::{
    CMap, ConstraintMap, Context, Pairs, contains_i8, copy_cmap, copy_i8s, cview, keep_in,
    keep_in_exec, match_hits, pview,
};
use crate::ir::strmap::pairs_view;
use crate::ir::text::{owned, str_eq};

verus! {

/// Index of the first entry of `a` from `i` on whose name is `k`, or `-1`.
pub open spec fn key_at(a: Seq<(Seq<char>, Seq<i8>)>, k: Seq<char>, i: int) -> int
    decreases a.len() - i,
{
    if i < 0 || i >= a.len() {
        -1
    } else if a[i].0 == k {
        i
    } else {
        key_at(a, k, i + 1)
    }
}

/// Adds the dimension `x` to the entry of `k` in the aggregate `a`, making
/// a new entry at the end when `k` has none.
pub open spec fn agg_add(a: Seq<(Seq<char>, Seq<i8>)>, k: Seq<char>, x: i8) -> Seq<(Seq<char>, Seq<i8>)> {
    let i = key_at(a, k, 0);
    if i < 0 {
        a.push((k, seq![x]))
    } else if a[i].1.contains(x) {
        a
    } else {
        a.update(i, (k, a[i].1.push(x)))
    }
}

/// The aggregate `a` with the first `n` pairs of `p` added.
pub open spec fn agg_pairs(a: Seq<(Seq<char>, Seq<i8>)>, p: Pairs, n: int) -> Seq<(Seq<char>, Seq<i8>)>
    decreases n,
{
    if n <= 0 {
        a
    } else {
        let b = agg_pairs(a, p, n - 1);
        agg_add(b, p[n - 1].0, p[n - 1].1)
    }
}

/// For each variable, in the order first met, the dimensions that the first
/// `n` split maps of `hs` give it.
pub open spec fn agg_maps(hs: Seq<(Pairs, int)>, n: int) -> Seq<(Seq<char>, Seq<i8>)>
    decreases n,
{
    if n <= 0 {
        Seq::empty()
    } else {
        let b = agg_maps(hs, n - 1);
        agg_pairs(b, hs[n - 1].0, hs[n - 1].0.len() as int)
    }
}

/// The part of the propagation state that visiting changes: the constraint
/// map, every `(variable, split)` pair queued so far in queueing order, and
/// whether a conflict was found.
pub struct Prop {
    pub m: CMap,
    pub seen: Seq<(Seq<char>, i8)>,
    pub conflict: bool,
}

/// The propagation state: `p` and how many queued pairs were taken.
pub struct BfsState {
    pub p: Prop,
    pub head: int,
}

/// Queues `(k, x)` unless it was queued before.
pub open spec fn enqueue(seen: Seq<(Seq<char>, i8)>, k: Seq<char>, x: i8) -> Seq<(Seq<char>, i8)> {
    if seen.contains((k, x)) {
        seen
    } else {
        seen.push((k, x))
    }
}

/// Narrows the constraint of `k` by the dimensions `vals` that one
/// instruction allows it while `v` is fixed: a conflict when none is left,
/// and `k` is queued when exactly one is.
pub open spec fn apply_entry(p: Prop, v: Seq<char>, k: Seq<char>, vals: Seq<i8>) -> Prop {
    if p.conflict || k == v {
        p
    } else if vals.len() == 1 {
        let x = vals[0];
        if p.m.contains_key(k) && !p.m[k].contains(x) {
            Prop { conflict: true, ..p }
        } else if p.m.contains_key(k) && p.m[k].len() == 1 {
            p
        } else {
            Prop { m: p.m.insert(k, vals), seen: enqueue(p.seen, k, x), conflict: false }
        }
    } else if !p.m.contains_key(k) {
        Prop { m: p.m.insert(k, vals), ..p }
    } else {
        let i = keep_in(vals, p.m[k]);
        if i.len() == 1 {
            Prop { m: p.m.insert(k, i), seen: enqueue(p.seen, k, i[0]), conflict: false }
        } else if i.len() > 1 {
            Prop { m: p.m.insert(k, i), ..p }
        } else {
            Prop { conflict: true, ..p }
        }
    }
}

/// `p` narrowed by the first `n` entries of the aggregate `agg`.
pub open spec fn apply_all(p: Prop, v: Seq<char>, agg: Seq<(Seq<char>, Seq<i8>)>, n: int) -> Prop
    decreases n,
{
    if n <= 0 {
        p
    } else {
        let q = apply_all(p, v, agg, n - 1);
        apply_entry(q, v, agg[n - 1].0, agg[n - 1].1)
    }
}

/// The start of the propagation of `p` along `split` under `c`.
pub open spec fn bfs_init(c: CMap, p: Seq<char>, split: i8) -> BfsState {
    BfsState {
        p: Prop { m: c.insert(p, seq![split]), seen: seq![(p, split)], conflict: false },
        head: 0,
    }
}

/// The propagation has ended: a conflict, or nothing left to visit.
pub open spec fn bfs_done(st: BfsState) -> bool {
    st.p.conflict || st.head >= st.p.seen.len()
}

/// The propagation invariant: each queued variable is constrained to
/// exactly its queued split, and no variable is queued twice.
pub open spec fn bfs_inv(p: Prop) -> bool {
    &&& forall|t: int|
        0 <= t < p.seen.len() ==> p.m.contains_key(#[trigger] p.seen[t].0) && p.m[p.seen[t].0]
            == seq![p.seen[t].1]
    &&& forall|a: int, b: int| 0 <= a < b < p.seen.len() ==> p.seen[a].0 != p.seen[b].0
}

/// The names of the pairs of `p`.
pub open spec fn map_keys(p: Pairs) -> Seq<Seq<char>> {
    p.map_values(|e: (Seq<char>, i8)| e.0)
}

/// The names of the pairs of every split map of `ds`.
pub open spec fn list_keys(ds: Seq<Pairs>) -> Seq<Seq<char>>
    decreases ds.len(),
{
    if ds.len() == 0 {
        Seq::empty()
    } else {
        list_keys(ds.drop_last()) + map_keys(ds.last())
    }
}

/// The names of the pairs of every split map of every instruction of `row`.
pub open spec fn row_keys(row: Seq<Seq<Pairs>>) -> Seq<Seq<char>>
    decreases row.len(),
{
    if row.len() == 0 {
        Seq::empty()
    } else {
        row_keys(row.drop_last()) + list_keys(row.last())
    }
}

impl Context {
    /// The variable `v` is placed in function `f`: the module records it
    /// there, at instructions that the derivation table of `f` holds.
    pub open spec fn var_at(&self, f: int, v: Seq<char>) -> bool {
        &&& self.ast.var_pos@.contains_key(v)
        &&& self.ast.var_pos@[v].0 == f
        &&& forall|t: int|
            0 <= t < self.ast.var_pos@[v].1@.len() ==> #[trigger] self.ast.var_pos@[v].1@[t]
                < self.derive@[f]@.len()
    }

    /// Every fusion call of function `f` names the function it calls.
    pub open spec fn fusion_calls_ok(&self, f: int) -> bool {
        forall|j: int|
            0 <= j < self.ast.functions@[f].body@.len() && #[trigger] self.ast.functions@[f].body@[j].function.name@
                == "fusion"@ ==> calls_ok(self.ast.functions@[f].body@[j])
    }

    /// Function `f` can be propagated through: its derivations are in the
    /// table, one per instruction, and every variable they name is placed
    /// in `f`.
    pub open spec fn placed(&self, f: int) -> bool {
        &&& 0 <= f < self.ast.functions@.len()
        &&& f < self.derive@.len()
        &&& self.derive@[f]@.len() == self.ast.functions@[f].body@.len()
        &&& forall|name: Seq<char>|
            #[trigger] row_keys(pview(self.derive@)[f]).contains(name) ==> self.var_at(f, name)
    }

    /// Visiting the instruction `j` of `f` while `v` is fixed to `s`: a
    /// conflict when no derived split map agrees, unless the instruction
    /// only defines its result; otherwise the constraints narrowed by what
    /// the agreeing maps allow.
    pub open spec fn visit_pos(&self, f: int, p: Prop, v: Seq<char>, s: i8, j: int) -> Prop {
        if p.conflict {
            p
        } else {
            let ds = pview(self.derive@)[f][j];
            let hs = match_hits(ds, v, s, ds.len() as int);
            if hs.len() == 0 && !is_identity_op(self.ast.functions@[f].body@[j].function.name@) {
                Prop { conflict: true, ..p }
            } else {
                let agg = agg_maps(hs, hs.len() as int);
                apply_all(p, v, agg, agg.len() as int)
            }
        }
    }

    /// Visiting the first `n` of the instructions `ps`.
    pub open spec fn visit_all(&self, f: int, p: Prop, v: Seq<char>, s: i8, ps: Seq<usize>, n: int) -> Prop
        decreases n,
    {
        if n <= 0 {
            p
        } else {
            let q = self.visit_all(f, p, v, s, ps, n - 1);
            self.visit_pos(f, q, v, s, ps[n - 1] as int)
        }
    }

    /// One round: the next queued pair is taken and every instruction that
    /// touches its variable is visited.
    pub open spec fn bfs_step(&self, f: int, st: BfsState) -> BfsState {
        if bfs_done(st) {
            st
        } else {
            let v = st.p.seen[st.head].0;
            let s = st.p.seen[st.head].1;
            let ps = self.ast.var_pos@[v].1@;
            BfsState { p: self.visit_all(f, st.p, v, s, ps, ps.len() as int), head: st.head + 1 }
        }
    }

    /// The state after `n` rounds.
    pub open spec fn bfs_run(&self, f: int, st: BfsState, n: nat) -> BfsState
        decreases n,
    {
        if n == 0 {
            st
        } else {
            self.bfs_step(f, self.bfs_run(f, st, (n - 1) as nat))
        }
    }

    /// The result of propagating `p` along `split` under `c`: nothing on a
    /// conflict, and otherwise the narrowed constraint map. A `p` already
    /// fixed to `split` leaves `c` as it is.
    pub open spec fn spec_bfs(&self, f: int, c: CMap, p: Seq<char>, split: i8) -> Option<CMap> {
        if c.contains_key(p) && !c[p].contains(split) {
            None
        } else if c.contains_key(p) && c[p].len() == 1 {
            Some(c)
        } else {
            let st0 = bfs_init(c, p, split);
            let n = choose|n: nat| bfs_done(self.bfs_run(f, st0, n));
            let fin = self.bfs_run(f, st0, n);
            if fin.p.conflict {
                None
            } else {
                Some(fin.p.m)
            }
        }
    }

    /// Whether the propagation of `p` along `split` under `c` ends.
    pub open spec fn bfs_ends(&self, f: int, c: CMap, p: Seq<char>, split: i8) -> bool {
        exists|n: nat| bfs_done(self.bfs_run(f, bfs_init(c, p, split), n))
    }
}

/// The plain view of an optional constraint map.
pub open spec fn oview(o: Option<ConstraintMap>) -> Option<CMap> {
    match o {
        Some(m) => Some(cview(m@)),
        None => None,
    }
}

/// The elements that `keep_in` keeps are in both lists, and it keeps no
/// repetition that `s` did not have.
pub proof fn lemma_keep_in(s: Seq<i8>, t: Seq<i8>)
    ensures
        forall|e: i8| #[trigger] keep_in(s, t).contains(e) ==> s.contains(e) && t.contains(e),
        s.no_duplicates() ==> keep_in(s, t).no_duplicates(),
    decreases s.len(),
{
    if s.len() > 0 {
        lemma_keep_in(s.drop_last(), t);
        let r = keep_in(s.drop_last(), t);
        assert forall|e: i8| #[trigger] keep_in(s, t).contains(e) implies s.contains(e) && t.contains(e) by {
            if r.contains(e) {
                let i = choose|i: int| 0 <= i < r.len() && r[i] == e;
                assert(s.drop_last().contains(e));
                let k = choose|k: int| 0 <= k < s.drop_last().len() && s.drop_last()[k] == e;
                assert(s[k] == e);
            } else {
                assert(e == s.last());
                assert(s[s.len() - 1] == e);
            }
        }
        if s.no_duplicates() {
            assert(s.drop_last().no_duplicates());
            if t.contains(s.last()) {
                assert(!r.contains(s.last())) by {
                    if r.contains(s.last()) {
                        assert(s.drop_last().contains(s.last()));
                        let k = choose|k: int| 0 <= k < s.drop_last().len() && s.drop_last()[k] == s.last();
                        assert(s[k] == s[s.len() - 1]);
                    }
                }
            }
        }
    }
}

/// Where `key_at` points, the name is `k`; where it finds none, no entry
/// from `i` on has name `k`.
pub proof fn lemma_key_at(a: Seq<(Seq<char>, Seq<i8>)>, k: Seq<char>, i: int)
    requires
        0 <= i,
    ensures
        key_at(a, k, i) >= 0 ==> i <= key_at(a, k, i) < a.len() && a[key_at(a, k, i)].0 == k,
        key_at(a, k, i) < 0 ==> forall|t: int| i <= t < a.len() ==> a[t].0 != k,
    decreases a.len() - i,
{
    if i < a.len() && a[i].0 != k {
        lemma_key_at(a, k, i + 1);
    }
}

/// Every entry of the aggregate is named in `u` and has dimensions, none
/// repeated.
pub open spec fn agg_ok(a: Seq<(Seq<char>, Seq<i8>)>, u: Seq<Seq<char>>) -> bool {
    forall|t: int|
        0 <= t < a.len() ==> u.contains(#[trigger] a[t].0) && a[t].1.len() > 0
            && a[t].1.no_duplicates()
}

/// Adding a dimension for a name of `u` keeps the aggregate well formed.
pub proof fn lemma_agg_add(a: Seq<(Seq<char>, Seq<i8>)>, k: Seq<char>, x: i8, u: Seq<Seq<char>>)
    requires
        agg_ok(a, u),
        u.contains(k),
    ensures
        agg_ok(agg_add(a, k, x), u),
{
    lemma_key_at(a, k, 0);
    let i = key_at(a, k, 0);
    let r = agg_add(a, k, x);
    if i >= 0 && !a[i].1.contains(x) {
        assert forall|t: int| 0 <= t < r.len() implies u.contains(#[trigger] r[t].0) && r[t].1.len() > 0
            && r[t].1.no_duplicates() by {
            if t == i {
                let w = a[i].1.push(x);
                assert forall|p: int, q: int| 0 <= p < w.len() && 0 <= q < w.len() && p != q implies w[p]
                    != w[q] by {
                    if p == w.len() - 1 {
                        assert(a[i].1[q] == w[q]);
                    } else if q == w.len() - 1 {
                        assert(a[i].1[p] == w[p]);
                    }
                }
            }
        }
    }
}

/// Narrowing by one entry keeps the propagation invariant, and queues at
/// most the entry's name.
pub proof fn lemma_apply_entry(p: Prop, v: Seq<char>, k: Seq<char>, vals: Seq<i8>)
    requires
        bfs_inv(p),
        !p.conflict,
        vals.len() > 0,
        vals.no_duplicates(),
    ensures
        bfs_inv(apply_entry(p, v, k, vals)),
        apply_entry(p, v, k, vals).seen == p.seen || (apply_entry(p, v, k, vals).seen.len() == p.seen.len() + 1
            && apply_entry(p, v, k, vals).seen.drop_last() == p.seen
            && apply_entry(p, v, k, vals).seen.last().0 == k),
{
    let r = apply_entry(p, v, k, vals);
    if !(p.conflict || k == v) {
        if vals.len() == 1 {
            let x = vals[0];
            if !(p.m.contains_key(k) && !p.m[k].contains(x)) && !(p.m.contains_key(k) && p.m[k].len() == 1) {
                assert(vals =~= seq![x]);
                assert forall|t: int| 0 <= t < p.seen.len() implies p.seen[t].0 != k by {
                    assert(p.m.contains_key(p.seen[t].0));
                }
                if !p.seen.contains((k, x)) {
                    assert(r.seen.drop_last() =~= p.seen);
                }
            }
        } else if !p.m.contains_key(k) {
            assert forall|t: int| 0 <= t < p.seen.len() implies p.seen[t].0 != k by {
                assert(p.m.contains_key(p.seen[t].0));
            }
        } else {
            let i = keep_in(vals, p.m[k]);
            lemma_keep_in(vals, p.m[k]);
            if exists|t: int| 0 <= t < p.seen.len() && p.seen[t].0 == k {
                let t = choose|t: int| 0 <= t < p.seen.len() && p.seen[t].0 == k;
                let y = p.seen[t].1;
                assert(p.m[k] == seq![y]);
                assert forall|e: i8| i.contains(e) implies e == y by {
                    assert(p.m[k].contains(e));
                }
                if i.len() > 1 {
                    assert(i.contains(i[0]) && i.contains(i[1]));
                    assert(false);
                }
                if i.len() == 1 {
                    assert(i.contains(i[0]));
                    assert(i =~= seq![y]);
                    assert(p.seen.contains((k, y))) by {
                        assert(p.seen[t] == (k, y));
                    }
                    assert(p.m.insert(k, i) =~= p.m);
                }
            } else {
                if i.len() == 1 {
                    assert(i =~= seq![i[0]]);
                    if !p.seen.contains((k, i[0])) {
                        assert(r.seen.drop_last() =~= p.seen);
                    }
                }
            }
        }
    }
}

/// Narrowing by the first `n` entries of a well formed aggregate keeps the
/// invariant, and queues only names of `u`.
pub proof fn lemma_apply_all(p: Prop, v: Seq<char>, agg: Seq<(Seq<char>, Seq<i8>)>, n: int, u: Seq<Seq<char>>)
    requires
        bfs_inv(p),
        !p.conflict,
        agg_ok(agg, u),
        0 <= n <= agg.len(),
        forall|t: int| 0 <= t < p.seen.len() ==> u.contains(#[trigger] p.seen[t].0),
    ensures
        !apply_all(p, v, agg, n).conflict ==> bfs_inv(apply_all(p, v, agg, n)),
        forall|t: int|
            0 <= t < apply_all(p, v, agg, n).seen.len() ==> u.contains(
                #[trigger] apply_all(p, v, agg, n).seen[t].0,
            ),
    decreases n,
{
    if n > 0 {
        lemma_apply_all(p, v, agg, n - 1, u);
        let q = apply_all(p, v, agg, n - 1);
        if !q.conflict {
            assert(u.contains(agg[n - 1].0));
            lemma_apply_entry(q, v, agg[n - 1].0, agg[n - 1].1);
            let r = apply_all(p, v, agg, n);
            assert forall|t: int| 0 <= t < r.seen.len() implies u.contains(#[trigger] r.seen[t].0) by {
                if r.seen != q.seen && t == r.seen.len() - 1 {
                } else if r.seen != q.seen {
                    assert(r.seen[t] == r.seen.drop_last()[t]);
                }
            }
        }
    }
}

/// Once a conflict is found, narrowing keeps it.
pub proof fn lemma_apply_all_conflict(p: Prop, v: Seq<char>, agg: Seq<(Seq<char>, Seq<i8>)>, a: int, b: int)
    requires
        0 <= a <= b,
        apply_all(p, v, agg, a).conflict,
    ensures
        apply_all(p, v, agg, b).conflict,
    decreases b,
{
    if b > a {
        lemma_apply_all_conflict(p, v, agg, a, b - 1);
    }
}

impl Context {
    /// Once a conflict is found, visiting keeps it.
    pub proof fn lemma_visit_all_conflict(&self, f: int, p: Prop, v: Seq<char>, s: i8, ps: Seq<usize>, a: int, b: int)
        requires
            0 <= a <= b,
            self.visit_all(f, p, v, s, ps, a).conflict,
        ensures
            self.visit_all(f, p, v, s, ps, b).conflict,
        decreases b,
    {
        if b > a {
            self.lemma_visit_all_conflict(f, p, v, s, ps, a, b - 1);
        }
    }

    /// After an ended propagation every later state is the same.
    pub proof fn lemma_run_done(&self, f: int, st: BfsState, a: nat, b: nat)
        requires
            a <= b,
            bfs_done(self.bfs_run(f, st, a)),
        ensures
            self.bfs_run(f, st, b) == self.bfs_run(f, st, a),
        decreases b,
    {
        if b > a {
            self.lemma_run_done(f, st, a, (b - 1) as nat);
        }
    }

    /// Any ended state of the propagation is the one `spec_bfs` reads.
    pub proof fn lemma_run_final(&self, f: int, st: BfsState, n: nat)
        requires
            bfs_done(self.bfs_run(f, st, n)),
        ensures
            ({
                let m = choose|m: nat| bfs_done(self.bfs_run(f, st, m));
                self.bfs_run(f, st, m) == self.bfs_run(f, st, n)
            }),
    {
        let m = choose|m: nat| bfs_done(self.bfs_run(f, st, m));
        if m <= n {
            self.lemma_run_done(f, st, m, n);
        } else {
            self.lemma_run_done(f, st, n, m);
        }
    }
}

/// A key of a split map of instruction `j` is among the keys of the row.
pub proof fn lemma_row_keys(row: Seq<Seq<Pairs>>, j: int, k: int, i: int)
    requires
        0 <= j < row.len(),
        0 <= k < row[j].len(),
        0 <= i < row[j][k].len(),
    ensures
        row_keys(row).contains(row[j][k][i].0),
    decreases row.len(),
{
    if j < row.len() - 1 {
        lemma_row_keys(row.drop_last(), j, k, i);
        let w = choose|w: int| 0 <= w < row_keys(row.drop_last()).len() && row_keys(row.drop_last())[w]
            == row[j][k][i].0;
        assert(row_keys(row)[w] == row[j][k][i].0);
    } else {
        lemma_list_keys(row[j], k, i);
        let pre = row_keys(row.drop_last());
        let w = choose|w: int| 0 <= w < list_keys(row[j]).len() && list_keys(row[j])[w] == row[j][k][i].0;
        assert(row_keys(row)[pre.len() + w] == row[j][k][i].0);
    }
}

/// A key of split map `k` of `ds` is among the keys of `ds`.
pub proof fn lemma_list_keys(ds: Seq<Pairs>, k: int, i: int)
    requires
        0 <= k < ds.len(),
        0 <= i < ds[k].len(),
    ensures
        list_keys(ds).contains(ds[k][i].0),
    decreases ds.len(),
{
    if k < ds.len() - 1 {
        lemma_list_keys(ds.drop_last(), k, i);
        let w = choose|w: int| 0 <= w < list_keys(ds.drop_last()).len() && list_keys(ds.drop_last())[w]
            == ds[k][i].0;
        assert(list_keys(ds)[w] == ds[k][i].0);
    } else {
        let pre = list_keys(ds.drop_last());
        assert(list_keys(ds)[pre.len() + i] == ds[k][i].0);
    }
}

/// Each hit of `match_hits` is a split map of `ds` at its index.
pub proof fn lemma_match_hits(ds: Seq<Pairs>, v: Seq<char>, s: i8, n: int)
    requires
        n <= ds.len(),
    ensures
        forall|t: int|
            0 <= t < match_hits(ds, v, s, n).len() ==> 0 <= #[trigger] match_hits(ds, v, s, n)[t].1 < n
                && match_hits(ds, v, s, n)[t].0 == ds[match_hits(ds, v, s, n)[t].1],
    decreases n,
{
    if n > 0 {
        lemma_match_hits(ds, v, s, n - 1);
        let r = match_hits(ds, v, s, n - 1);
        let h = match_hits(ds, v, s, n);
        assert forall|t: int| 0 <= t < h.len() implies 0 <= #[trigger] h[t].1 < n && h[t].0 == ds[h[t].1] by {
            if t < r.len() {
                assert(h[t] == r[t]);
            }
        }
    }
}

/// A list of pairs with distinct names, all from `u`, is no longer than `u`.
pub proof fn lemma_seen_len(p: Prop, u: Seq<Seq<char>>)
    requires
        bfs_inv(p),
        forall|t: int| 0 <= t < p.seen.len() ==> u.contains(#[trigger] p.seen[t].0),
    ensures
        p.seen.len() <= u.len(),
{
    let seen = p.seen;
    let names = seen.map_values(|e: (Seq<char>, i8)| e.0);
    assert(names.no_duplicates()) by {
        assert forall|a: int, b: int| 0 <= a < names.len() && 0 <= b < names.len() && a != b implies names[a]
            != names[b] by {
            if a < b {
                assert(seen[a].0 != seen[b].0);
            } else {
                assert(seen[b].0 != seen[a].0);
            }
        }
    }
    names.unique_seq_to_set();
    assert(names.to_set().subset_of(u.to_set())) by {
        assert forall|x: Seq<char>| names.to_set().contains(x) implies u.to_set().contains(x) by {
            let t = choose|t: int| 0 <= t < names.len() && names[t] == x;
            assert(u.contains(seen[t].0));
        }
    }
    vstd::seq_lib::seq_to_set_is_finite(u);
    vstd::set_lib::lemma_len_subset(names.to_set(), u.to_set());
    u.lemma_cardinality_of_set();
}


/// Every variable of `m` keeps some dimension.
pub open spec fn cm_nonempty(m: CMap) -> bool {
    forall|k: Seq<char>| m.contains_key(k) ==> #[trigger] m[k].len() > 0
}

/// Every entry of the aggregate has dimensions, none repeated.
pub open spec fn agg_vals_ok(a: Seq<(Seq<char>, Seq<i8>)>) -> bool {
    forall|t: int| 0 <= t < a.len() ==> #[trigger] a[t].1.len() > 0 && a[t].1.no_duplicates()
}

/// Adding a dimension keeps every entry with dimensions, none repeated.
pub proof fn lemma_agg_add_vals(a: Seq<(Seq<char>, Seq<i8>)>, k: Seq<char>, x: i8)
    requires
        agg_vals_ok(a),
    ensures
        agg_vals_ok(agg_add(a, k, x)),
{
    let u = a.map_values(|e: (Seq<char>, Seq<i8>)| e.0).push(k);
    assert(agg_ok(a, u)) by {
        assert forall|t: int| 0 <= t < a.len() implies u.contains(#[trigger] a[t].0) by {
            assert(u[t] == a[t].0);
        }
    }
    assert(u[u.len() - 1] == k);
    lemma_agg_add(a, k, x, u);
    let r = agg_add(a, k, x);
    assert forall|t: int| 0 <= t < r.len() implies #[trigger] r[t].1.len() > 0 && r[t].1.no_duplicates() by {
        assert(u.contains(r[t].0));
    }
}

/// The aggregate of any split maps has dimensions in every entry, none
/// repeated.
pub proof fn lemma_agg_maps_vals(hs: Seq<(Pairs, int)>, n: int)
    ensures
        agg_vals_ok(agg_maps(hs, n)),
    decreases n,
{
    if n > 0 {
        lemma_agg_maps_vals(hs, n - 1);
        lemma_agg_pairs_vals(agg_maps(hs, n - 1), hs[n - 1].0, hs[n - 1].0.len() as int);
    }
}

/// Adding pairs keeps every entry with dimensions, none repeated.
pub proof fn lemma_agg_pairs_vals(a: Seq<(Seq<char>, Seq<i8>)>, p: Pairs, n: int)
    requires
        agg_vals_ok(a),
    ensures
        agg_vals_ok(agg_pairs(a, p, n)),
    decreases n,
{
    if n > 0 {
        lemma_agg_pairs_vals(a, p, n - 1);
        lemma_agg_add_vals(agg_pairs(a, p, n - 1), p[n - 1].0, p[n - 1].1);
    }
}

/// Narrowing by dimensions leaves every variable some dimension.
pub proof fn lemma_apply_all_nonempty(p: Prop, v: Seq<char>, agg: Seq<(Seq<char>, Seq<i8>)>, n: int)
    requires
        cm_nonempty(p.m),
        agg_vals_ok(agg),
        n <= agg.len(),
    ensures
        cm_nonempty(apply_all(p, v, agg, n).m),
    decreases n,
{
    if n > 0 {
        lemma_apply_all_nonempty(p, v, agg, n - 1);
        let q = apply_all(p, v, agg, n - 1);
        let k = agg[n - 1].0;
        let vals = agg[n - 1].1;
        assert(vals.len() > 0);
        let r = apply_entry(q, v, k, vals);
        assert forall|key: Seq<char>| r.m.contains_key(key) implies #[trigger] r.m[key].len() > 0 by {
            if key != k {
                assert(q.m.contains_key(key));
            }
        }
    }
}

impl Context {
    /// Visiting leaves every variable some dimension.
    pub proof fn lemma_visit_all_nonempty(&self, f: int, p: Prop, v: Seq<char>, s: i8, ps: Seq<usize>, n: int)
        requires
            cm_nonempty(p.m),
        ensures
            cm_nonempty(self.visit_all(f, p, v, s, ps, n).m),
        decreases n,
    {
        if n > 0 {
            self.lemma_visit_all_nonempty(f, p, v, s, ps, n - 1);
            let q = self.visit_all(f, p, v, s, ps, n - 1);
            if !q.conflict {
                let j = ps[n - 1] as int;
                let ds = pview(self.derive@)[f][j];
                let hs = match_hits(ds, v, s, ds.len() as int);
                let agg = agg_maps(hs, hs.len() as int);
                lemma_agg_maps_vals(hs, hs.len() as int);
                lemma_apply_all_nonempty(q, v, agg, agg.len() as int);
            }
        }
    }

    /// Every round leaves every variable some dimension.
    pub proof fn lemma_run_nonempty(&self, f: int, st: BfsState, n: nat)
        requires
            cm_nonempty(st.p.m),
        ensures
            cm_nonempty(self.bfs_run(f, st, n).p.m),
        decreases n,
    {
        if n > 0 {
            self.lemma_run_nonempty(f, st, (n - 1) as nat);
            let q = self.bfs_run(f, st, (n - 1) as nat);
            if !bfs_done(q) {
                let v = q.p.seen[q.head].0;
                let ps = self.ast.var_pos@[v].1@;
                self.lemma_visit_all_nonempty(f, q.p, v, q.p.seen[q.head].1, ps, ps.len() as int);
            }
        }
    }

    /// Propagation from constraints that leave every variable some
    /// dimension gives such constraints.
    pub proof fn lemma_bfs_nonempty(&self, f: int, c: CMap, p: Seq<char>, split: i8)
        requires
            cm_nonempty(c),
        ensures
            self.spec_bfs(f, c, p, split) matches Some(r) ==> cm_nonempty(r),
    {
        if !(c.contains_key(p) && !c[p].contains(split)) && !(c.contains_key(p) && c[p].len() == 1) {
            let st0 = bfs_init(c, p, split);
            assert(cm_nonempty(st0.p.m));
            let n = choose|n: nat| bfs_done(self.bfs_run(f, st0, n));
            self.lemma_run_nonempty(f, st0, n);
        }
    }
}

/// The plain view of an aggregate.
pub open spec fn aview(a: Seq<(String, Vec<i8>)>) -> Seq<(Seq<char>, Seq<i8>)> {
    a.map_values(|e: (String, Vec<i8>)| (e.0@, e.1@))
}

/// The visiting part of the state held by `m` and `seen`.
pub open spec fn prop_of(m: Map<Seq<char>, Vec<i8>>, seen: Seq<(String, i8)>) -> Prop {
    Prop { m: cview(m), seen: pairs_view(seen), conflict: false }
}

/// Adds the dimension `x` to the entry of `k` in the aggregate `a`.
fn agg_add_exec(a: &mut Vec<(String, Vec<i8>)>, k: &str, x: i8)
    ensures
        aview(final(a)@) == agg_add(aview(old(a)@), k@, x),
{
    let ghost av = aview(a@);
    let n = a.len();
    let mut i: usize = 0;
    while i < n && !str_eq(a[i].0.as_str(), k)
        invariant
            n == a@.len(),
            av == aview(a@),
            i <= n,
            key_at(av, k@, 0) == key_at(av, k@, i as int),
        decreases n - i,
    {
        assert(av[i as int].0 != k@);
        i = i + 1;
    }
    if i < n {
        assert(av[i as int].0 == k@);
        assert(key_at(av, k@, 0) == i);
        if contains_i8(&a[i].1, x) {
            return;
        }
        let mut nv = copy_i8s(&a[i].1);
        nv.push(x);
        let key = a[i].0.clone();
        assert(key@ == k@);
        assert(nv@ == av[i as int].1.push(x));
        a.set(i, (key, nv));
        assert(aview(a@) =~= av.update(i as int, (k@, av[i as int].1.push(x))));
    } else {
        let mut nv: Vec<i8> = Vec::new();
        nv.push(x);
        a.push((owned(k), nv));
        assert(aview(a@) =~= av.push((k@, seq![x])));
    }
}

/// Whether `(k, x)` was queued.
fn seen_has(seen: &Vec<(String, i8)>, k: &str, x: i8) -> (r: bool)
    ensures
        r == pairs_view(seen@).contains((k@, x)),
{
    let n = seen.len();
    let mut i: usize = 0;
    while i < n
        invariant
            n == seen@.len(),
            i <= n,
            forall|t: int| 0 <= t < i ==> pairs_view(seen@)[t] != (k@, x),
        decreases n - i,
    {
        if seen[i].1 == x && str_eq(seen[i].0.as_str(), k) {
            assert(pairs_view(seen@)[i as int] == (k@, x));
            return true;
        }
        i = i + 1;
    }
    false
}

/// Narrows the constraint of `k` by `vals` while `v` is fixed; `true` on
/// a conflict, and then nothing is changed.
fn apply_entry_exec(m: &mut ConstraintMap, seen: &mut Vec<(String, i8)>, v: &str, k: &str, vals: &Vec<i8>) -> (c: bool)
    ensures
        c == apply_entry(prop_of(old(m)@, old(seen)@), v@, k@, vals@).conflict,
        !c ==> apply_entry(prop_of(old(m)@, old(seen)@), v@, k@, vals@) == prop_of(final(m)@, final(seen)@),
{
    let ghost p0 = prop_of(m@, seen@);
    if str_eq(k, v) {
        return false;
    }
    if vals.len() == 1 {
        let x = vals[0];
        let (present, hasx, single) = match m.get(k) {
            Some(cur) => (true, contains_i8(cur, x), cur.len() == 1),
            None => (false, false, false),
        };
        if present && !hasx {
            return true;
        }
        if present && single {
            return false;
        }
        let ghost m0 = m@;
        m.insert(owned(k), copy_i8s(vals));
        assert(cview(m@) =~= cview(m0).insert(k@, vals@));
        if !seen_has(seen, k, x) {
            let ghost s0 = seen@;
            seen.push((owned(k), x));
            assert(pairs_view(seen@) =~= pairs_view(s0).push((k@, x)));
        }
        return false;
    }
    let inter = match m.get(k) {
        Some(cur) => Some(keep_in_exec(vals, cur)),
        None => None,
    };
    let ghost m0 = m@;
    match inter {
        None => {
            m.insert(owned(k), copy_i8s(vals));
            assert(cview(m@) =~= cview(m0).insert(k@, vals@));
            false
        },
        Some(it) => {
            if it.len() == 1 {
                let y = it[0];
                let ghost iv = it@;
                m.insert(owned(k), it);
                assert(cview(m@) =~= cview(m0).insert(k@, iv));
                if !seen_has(seen, k, y) {
                    let ghost s0 = seen@;
                    seen.push((owned(k), y));
                    assert(pairs_view(seen@) =~= pairs_view(s0).push((k@, y)));
                }
                false
            } else if it.len() > 1 {
                let ghost iv = it@;
                m.insert(owned(k), it);
                assert(cview(m@) =~= cview(m0).insert(k@, iv));
                false
            } else {
                true
            }
        },
    }
}

impl Context {
    /// Visits the instruction `j` of `f` while `v` is fixed to `s`; `true`
    /// on a conflict.
    fn visit_one(
        &self,
        f: usize,
        m: &mut ConstraintMap,
        seen: &mut Vec<(String, i8)>,
        v: &str,
        s: i8,
        j: usize,
        Ghost(univ): Ghost<Seq<Seq<char>>>,
    ) -> (r: Result<bool, DeriveError>)
        requires
            self.placed(f as int),
            j < self.derive@[f as int]@.len(),
            bfs_inv(prop_of(old(m)@, old(seen)@)),
            forall|t: int| 0 <= t < old(seen)@.len() ==> univ.contains(#[trigger] pairs_view(old(seen)@)[t].0),
            forall|name: Seq<char>| #[trigger] row_keys(pview(self.derive@)[f as int]).contains(name) ==> univ.contains(name),
        ensures
            r is Ok || !self.fusion_calls_ok(f as int),
            r matches Ok(c) ==> {
                &&& c == self.visit_pos(f as int, prop_of(old(m)@, old(seen)@), v@, s, j as int).conflict
                &&& !c ==> self.visit_pos(f as int, prop_of(old(m)@, old(seen)@), v@, s, j as int) == prop_of(
                    final(m)@,
                    final(seen)@,
                )
                &&& !c ==> bfs_inv(prop_of(final(m)@, final(seen)@))
                &&& !c ==> forall|t: int|
                    0 <= t < final(seen)@.len() ==> univ.contains(#[trigger] pairs_view(final(seen)@)[t].0)
                &&& !c ==> final(seen)@.len() >= old(seen)@.len()
            },
    {
        let ghost p0 = prop_of(m@, seen@);
        let ghost row = pview(self.derive@)[f as int];
        let ghost ds = row[j as int];
        let ghost hs = match_hits(ds, v@, s, ds.len() as int);
        proof {
            lemma_match_hits(ds, v@, s, ds.len() as int);
        }
        let hits = match self.derive(f, j, v, s) {
            Ok(h) => h,
            Err(_) => {
                assert(false);
                return Ok(true);
            },
        };
        assert(crate::ir::propagate::context::hits_view(hits@) == hs);
        assert(hs.len() == hits@.len());
        assert(self.ast.functions[f as int].body@[j as int].function.name@ == self.ast.functions@[f as int].body@[j as int].function.name@);
        if hits.len() == 0 && !identity_op(self.ast.functions[f].body[j].function.name.as_str()) {
            return Ok(true);
        }
        if str_eq(self.ast.functions[f].body[j].function.name.as_str(), "fusion") {
            match self.ast.functions[f].body[j].get_meta_str("calls") {
                Ok(_) => {},
                Err(e) => {
                    assert(!calls_ok(self.ast.functions@[f as int].body@[j as int]));
                    return Err(e);
                },
            }
        }
        let mut agg: Vec<(String, Vec<i8>)> = Vec::new();
        let nh = hits.len();
        let mut t: usize = 0;
        while t < nh
            invariant
                nh == hits@.len(),
                crate::ir::propagate::context::hits_view(hits@) == hs,
                t <= nh,
                aview(agg@) == agg_maps(hs, t as int),
                agg_ok(aview(agg@), univ),
                forall|t: int| 0 <= t < hs.len() ==> 0 <= #[trigger] hs[t].1 < ds.len() && hs[t].0 == ds[hs[t].1],
                row == pview(self.derive@)[f as int],
                ds == row[j as int],
                j < row.len(),
                forall|name: Seq<char>| #[trigger] row_keys(row).contains(name) ==> univ.contains(name),
            decreases nh - t,
        {
            let es = hits[t].0.entries();
            let ghost hp = hs[t as int].0;
            assert(pairs_view(es@) == hp);
            let ne = es.len();
            let mut q: usize = 0;
            while q < ne
                invariant
                    ne == es@.len(),
                    pairs_view(es@) == hp,
                    hp == hs[t as int].0,
                    t < nh,
                    nh == hs.len(),
                    q <= ne,
                    aview(agg@) == agg_pairs(agg_maps(hs, t as int), hp, q as int),
                    agg_ok(aview(agg@), univ),
                    0 <= hs[t as int].1 < ds.len(),
                    hp == ds[hs[t as int].1],
                    ds == row[j as int],
                    j < row.len(),
                    forall|name: Seq<char>| #[trigger] row_keys(row).contains(name) ==> univ.contains(name),
                decreases ne - q,
            {
                proof {
                    lemma_row_keys(row, j as int, hs[t as int].1, q as int);
                    assert(hp[q as int].0 == es@[q as int].0@);
                    lemma_agg_add(aview(agg@), es@[q as int].0@, es@[q as int].1, univ);
                }
                agg_add_exec(&mut agg, es[q].0.as_str(), es[q].1);
                q = q + 1;
            }
            t = t + 1;
        }
        let na = agg.len();
        let mut e: usize = 0;
        let ghost av = aview(agg@);
        assert(self.visit_pos(f as int, p0, v@, s, j as int) == apply_all(p0, v@, av, av.len() as int));
        while e < na
            invariant
                na == agg@.len(),
                av == aview(agg@),
                av == agg_maps(hs, hs.len() as int),
                p0 == prop_of(old(m)@, old(seen)@),
                self.visit_pos(f as int, p0, v@, s, j as int) == apply_all(p0, v@, av, av.len() as int),
                agg_ok(av, univ),
                e <= na,
                !p0.conflict,
                prop_of(m@, seen@) == apply_all(p0, v@, av, e as int),
                bfs_inv(prop_of(m@, seen@)),
                forall|t: int| 0 <= t < seen@.len() ==> univ.contains(#[trigger] pairs_view(seen@)[t].0),
                seen@.len() >= old(seen)@.len(),
            decreases na - e,
        {
            let ghost pe = prop_of(m@, seen@);
            proof {
                lemma_apply_entry(pe, v@, av[e as int].0, av[e as int].1);
            }
            let c = apply_entry_exec(m, seen, v, agg[e].0.as_str(), &agg[e].1);
            if c {
                proof {
                    lemma_apply_all_conflict(p0, v@, av, e + 1, na as int);
                }
                return Ok(true);
            }
            proof {
                let pn = prop_of(m@, seen@);
                assert forall|t: int| 0 <= t < seen@.len() implies univ.contains(#[trigger] pairs_view(seen@)[t].0) by {
                    if pn.seen != pe.seen && t == pn.seen.len() - 1 {
                    } else if pn.seen != pe.seen {
                        assert(pn.seen[t] == pn.seen.drop_last()[t]);
                    }
                }
            }
            e = e + 1;
        }
        Ok(false)
    }
}


impl Context {
    /// Fixes `p_name` to `split` under `constraints` and propagates the
    /// consequences through function `func_id`: nothing on a conflict,
    /// otherwise the narrowed constraint map. A `p_name` that the
    /// constraints already fix to `split` gives them back unchanged; one
    /// they keep from `split` is a conflict.
    pub fn propagate_bfs(
        &self,
        func_id: usize,
        p_name: &str,
        split: i8,
        constraints: &ConstraintMap,
        debug: bool,
    ) -> (r: Result<Option<ConstraintMap>, PropagationError>)
        requires
            (cview(constraints@).contains_key(p_name@) && (!cview(constraints@)[p_name@].contains(split)
                || cview(constraints@)[p_name@].len() == 1)) || (self.placed(func_id as int) && self.var_at(
                func_id as int,
                p_name@,
            )),
        ensures
            r matches Ok(o) ==> oview(o) == self.spec_bfs(func_id as int, cview(constraints@), p_name@, split),
            (cview(constraints@).contains_key(p_name@) && (!cview(constraints@)[p_name@].contains(split)
                || cview(constraints@)[p_name@].len() == 1)) || self.fusion_calls_ok(func_id as int) ==> r is Ok,
            r is Err ==> (r matches Err(PropagationError::Derive(_)) && !self.fusion_calls_ok(func_id as int)),
            !(cview(constraints@).contains_key(p_name@) && (!cview(constraints@)[p_name@].contains(split)
                || cview(constraints@)[p_name@].len() == 1)) && r is Ok ==> self.bfs_ends(
                func_id as int,
                cview(constraints@),
                p_name@,
                split,
            ),
    {
        let f = func_id;
        let ghost c = cview(constraints@);
        let mut m = copy_cmap(constraints);
        let early: u8 = match m.get(p_name) {
            Some(cur) => {
                if !contains_i8(cur, split) {
                    1
                } else if cur.len() == 1 {
                    2
                } else {
                    0
                }
            },
            None => 0,
        };
        if early == 1 {
            return Ok(None);
        }
        if early == 2 {
            return Ok(Some(m));
        }
        let mut sv: Vec<i8> = Vec::new();
        sv.push(split);
        let ghost m0 = m@;
        m.insert(owned(p_name), sv);
        let mut seen: Vec<(String, i8)> = Vec::new();
        seen.push((owned(p_name), split));
        let mut head: usize = 0;
        let ghost st0 = bfs_init(c, p_name@, split);
        let ghost row = pview(self.derive@)[f as int];
        let ghost univ = row_keys(row).push(p_name@);
        let ghost mut n: nat = 0;
        assert(cview(m@) =~= c.insert(p_name@, seq![split]));
        assert(pairs_view(seen@) =~= seq![(p_name@, split)]);
        assert(univ[univ.len() - 1] == p_name@);
        assert forall|name: Seq<char>| #[trigger] row_keys(row).contains(name) implies univ.contains(name) by {
            let w = choose|w: int| 0 <= w < row_keys(row).len() && row_keys(row)[w] == name;
            assert(univ[w] == name);
        }
        while head < seen.len()
            invariant
                self.placed(f as int),
                self.var_at(f as int, p_name@),
                row == pview(self.derive@)[f as int],
                univ == row_keys(row).push(p_name@),
                forall|name: Seq<char>| #[trigger] row_keys(row).contains(name) ==> univ.contains(name),
                head <= seen@.len(),
                bfs_inv(prop_of(m@, seen@)),
                forall|t: int| 0 <= t < seen@.len() ==> univ.contains(#[trigger] pairs_view(seen@)[t].0),
                self.bfs_run(f as int, st0, n) == (BfsState { p: prop_of(m@, seen@), head: head as int }),
                !(c.contains_key(p_name@) && (!c[p_name@].contains(split) || c[p_name@].len() == 1)),
                st0 == bfs_init(c, p_name@, split),
                c == cview(constraints@),
                f == func_id,
            decreases 2 * univ.len() - seen@.len() - head,
        {
            proof {
                lemma_seen_len(prop_of(m@, seen@), univ);
            }
            let ghost stn = self.bfs_run(f as int, st0, n);
            let ghost len0 = seen@.len();
            let v = seen[head].0.clone();
            let s = seen[head].1;
            assert(stn.p.seen[stn.head] == (v@, s));
            proof {
                assert(univ.contains(pairs_view(seen@)[head as int].0));
                if v@ != p_name@ {
                    let w = choose|w: int| 0 <= w < univ.len() && univ[w] == v@;
                    assert(w < univ.len() - 1);
                    assert(row_keys(row)[w] == v@);
                    assert(row_keys(row).contains(v@));
                }
            }
            head = head + 1;
            let ps = match self.ast.var_pos.get(v.as_str()) {
                Some(e) => &e.1,
                None => {
                    assert(false);
                    return Ok(None);
                },
            };
            let ghost p1 = prop_of(m@, seen@);
            let np = ps.len();
            let mut i: usize = 0;
            while i < np
                invariant
                    np == ps@.len(),
                    ps@ == self.ast.var_pos@[v@].1@,
                    i <= np,
                    self.placed(f as int),
                    self.var_at(f as int, v@),
                    row == pview(self.derive@)[f as int],
                    forall|name: Seq<char>| #[trigger] row_keys(row).contains(name) ==> univ.contains(name),
                    !p1.conflict,
                    prop_of(m@, seen@) == self.visit_all(f as int, p1, v@, s, ps@, i as int),
                    bfs_inv(prop_of(m@, seen@)),
                    forall|t: int| 0 <= t < seen@.len() ==> univ.contains(#[trigger] pairs_view(seen@)[t].0),
                    seen@.len() >= len0,
                    len0 >= head,
                    stn == self.bfs_run(f as int, st0, n),
                    stn.p == p1,
                    stn.head + 1 == head,
                    !bfs_done(stn),
                    stn.p.seen[stn.head] == (v@, s),
                    c == cview(constraints@),
                    f == func_id,
                    !(c.contains_key(p_name@) && (!c[p_name@].contains(split) || c[p_name@].len() == 1)),
                    st0 == bfs_init(c, p_name@, split),
                decreases np - i,
            {
                let hit = match self.visit_one(f, &mut m, &mut seen, v.as_str(), s, ps[i], Ghost(univ)) {
                    Ok(h) => h,
                    Err(e) => {
                        return Err(PropagationError::Derive(e));
                    },
                };
                if hit {
                    proof {
                        self.lemma_visit_all_conflict(f as int, p1, v@, s, ps@, i + 1, np as int);
                        assert(self.bfs_run(f as int, st0, n + 1).p.conflict);
                        assert(bfs_done(self.bfs_run(f as int, st0, n + 1)));
                        self.lemma_run_final(f as int, st0, n + 1);
                        assert(self.bfs_ends(f as int, c, p_name@, split));
                    }
                    return Ok(None);
                }
                i = i + 1;
            }
            proof {
                assert(self.bfs_run(f as int, st0, n + 1) == self.bfs_step(f as int, stn));
                n = n + 1;
                lemma_seen_len(prop_of(m@, seen@), univ);
            }
        }
        proof {
            assert(bfs_done(self.bfs_run(f as int, st0, n)));
            self.lemma_run_final(f as int, st0, n);
        }
        Ok(Some(m))
    }
}

} // verus!

verus! {

/// The instruction names the function it calls: its first meta entry
/// `calls` holds a text.
pub open spec fn calls_ok(inst: Instruction) -> bool {
    inst.meta matches Some(ms) && (find_meta(ms@, "calls"@) matches Some(k) && ms@[k].str_value is Some)
}

} // verus!
