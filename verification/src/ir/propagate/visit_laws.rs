//! What one visit of an instruction guarantees: every other variable that
//! an agreeing split map names ends up constrained, to dimensions those
//! maps allow it, and is queued once that leaves it one dimension.
use vstd::prelude::*;
use crate::ir::propagate::bfs::{
    Prop, agg_add, agg_maps, enqueue, agg_pairs, agg_vals_ok, apply_all, apply_entry, key_at, lemma_agg_maps_vals,
    lemma_key_at, lemma_keep_in,
};
use crate::ir::propagate::context::{Context, Pairs, keep_in, match_hits, pview};

verus! {

/// Some split map of `hs` pairs the variable `k` with the dimension `x`.
pub open spec fn hits_give(hs: Seq<(Pairs, int)>, k: Seq<char>, x: i8) -> bool {
    exists|h: int| 0 <= h < hs.len() && #[trigger] hs[h].0.contains((k, x))
}

/// Some entry of the aggregate `a` lists the dimension `x` for `k`.
pub open spec fn agg_has(a: Seq<(Seq<char>, Seq<i8>)>, k: Seq<char>, x: i8) -> bool {
    exists|i: int| 0 <= i < a.len() && a[i].0 == k && #[trigger] a[i].1.contains(x)
}

/// Some entry of the aggregate `a` is named `k`.
pub open spec fn agg_names(a: Seq<(Seq<char>, Seq<i8>)>, k: Seq<char>) -> bool {
    exists|i: int| 0 <= i < a.len() && #[trigger] a[i].0 == k
}

/// No two entries of the aggregate `a` have one name.
pub open spec fn agg_distinct(a: Seq<(Seq<char>, Seq<i8>)>) -> bool {
    forall|i: int, t: int| 0 <= i < a.len() && 0 <= t < a.len() && i != t ==> #[trigger] a[i].0 != #[trigger] a[t].0
}

/// Adding a dimension adds that one pair to what the aggregate lists, and
/// keeps the names distinct.
proof fn lemma_agg_add_has(a: Seq<(Seq<char>, Seq<i8>)>, k: Seq<char>, x: i8)
    ensures
        forall|k2: Seq<char>, y: i8|
            #[trigger] agg_has(agg_add(a, k, x), k2, y) <==> agg_has(a, k2, y) || (k2 == k && y == x),
        agg_distinct(a) ==> agg_distinct(agg_add(a, k, x)),
        forall|k2: Seq<char>| agg_names(a, k2) ==> #[trigger] agg_names(agg_add(a, k, x), k2),
{
    lemma_key_at(a, k, 0);
    let i = key_at(a, k, 0);
    let r = agg_add(a, k, x);
    if i < 0 {
        assert forall|k2: Seq<char>, y: i8| #[trigger] agg_has(r, k2, y) <==> agg_has(a, k2, y) || (k2 == k && y == x) by {
            if agg_has(r, k2, y) {
                let t = choose|t: int| 0 <= t < r.len() && r[t].0 == k2 && #[trigger] r[t].1.contains(y);
                if t < a.len() {
                    assert(a[t] == r[t]);
                } else {
                    assert(r[t].1 == seq![x]);
                    assert(r[t].1[0] == x);
                }
            }
            if agg_has(a, k2, y) {
                let t = choose|t: int| 0 <= t < a.len() && a[t].0 == k2 && #[trigger] a[t].1.contains(y);
                assert(r[t] == a[t]);
            }
            if k2 == k && y == x {
                assert(r[a.len() as int].1 == seq![x]);
                assert(r[a.len() as int].1[0] == x);
                assert(r[a.len() as int].1.contains(x));
            }
        }
        assert forall|k2: Seq<char>| agg_names(a, k2) implies #[trigger] agg_names(r, k2) by {
            let t = choose|t: int| 0 <= t < a.len() && #[trigger] a[t].0 == k2;
            assert(r[t] == a[t]);
        }
        if agg_distinct(a) {
            assert forall|p: int, q: int| 0 <= p < r.len() && 0 <= q < r.len() && p != q implies #[trigger] r[p].0
                != #[trigger] r[q].0 by {
                if p < a.len() && q < a.len() {
                    assert(a[p] == r[p] && a[q] == r[q]);
                } else if p < a.len() {
                    assert(a[p] == r[p]);
                } else {
                    assert(a[q] == r[q]);
                }
            }
        }
    } else if a[i].1.contains(x) {
        assert(agg_has(a, k, x));
    } else {
        assert forall|k2: Seq<char>, y: i8| #[trigger] agg_has(r, k2, y) <==> agg_has(a, k2, y) || (k2 == k && y == x) by {
            if agg_has(r, k2, y) {
                let t = choose|t: int| 0 <= t < r.len() && r[t].0 == k2 && #[trigger] r[t].1.contains(y);
                if t != i {
                    assert(a[t] == r[t]);
                } else if y != x {
                    let w = choose|w: int| 0 <= w < r[t].1.len() && r[t].1[w] == y;
                    assert(w < a[i].1.len());
                    assert(a[i].1[w] == y);
                    assert(a[i].1.contains(y));
                }
            }
            if agg_has(a, k2, y) {
                let t = choose|t: int| 0 <= t < a.len() && a[t].0 == k2 && #[trigger] a[t].1.contains(y);
                if t != i {
                    assert(r[t] == a[t]);
                } else {
                    let w = choose|w: int| 0 <= w < a[i].1.len() && a[i].1[w] == y;
                    assert(r[i].1[w] == y);
                    assert(r[i].1.contains(y));
                }
            }
            if k2 == k && y == x {
                assert(r[i].1[a[i].1.len() as int] == x);
                assert(r[i].1.contains(x));
            }
        }
        assert forall|k2: Seq<char>| agg_names(a, k2) implies #[trigger] agg_names(r, k2) by {
            let t = choose|t: int| 0 <= t < a.len() && #[trigger] a[t].0 == k2;
            assert(r[t].0 == a[t].0);
        }
        if agg_distinct(a) {
            assert forall|p: int, q: int| 0 <= p < r.len() && 0 <= q < r.len() && p != q implies #[trigger] r[p].0
                != #[trigger] r[q].0 by {
                assert(r[p].0 == a[p].0 && r[q].0 == a[q].0);
            }
        }
    }
}

/// Adding the first `n` pairs of `p` adds exactly those pairs to what the
/// aggregate lists, and keeps the names distinct.
proof fn lemma_agg_pairs_has(a: Seq<(Seq<char>, Seq<i8>)>, p: Pairs, n: int)
    requires
        0 <= n <= p.len(),
    ensures
        forall|k: Seq<char>, y: i8|
            #[trigger] agg_has(agg_pairs(a, p, n), k, y) <==> agg_has(a, k, y) || p.take(n).contains((k, y)),
        agg_distinct(a) ==> agg_distinct(agg_pairs(a, p, n)),
    decreases n,
{
    if n > 0 {
        lemma_agg_pairs_has(a, p, n - 1);
        let b = agg_pairs(a, p, n - 1);
        lemma_agg_add_has(b, p[n - 1].0, p[n - 1].1);
        assert forall|k: Seq<char>, y: i8|
            #[trigger] agg_has(agg_pairs(a, p, n), k, y) <==> agg_has(a, k, y) || p.take(n).contains((k, y)) by {
            assert(p.take(n) =~= p.take(n - 1).push(p[n - 1]));
            if p.take(n).contains((k, y)) && !p.take(n - 1).contains((k, y)) {
                let w = choose|w: int| 0 <= w < p.take(n).len() && #[trigger] p.take(n)[w] == (k, y);
                if w < n - 1 {
                    assert(p.take(n - 1)[w] == (k, y));
                }
            }
            if p.take(n - 1).contains((k, y)) {
                let w = choose|w: int| 0 <= w < p.take(n - 1).len() && #[trigger] p.take(n - 1)[w] == (k, y);
                assert(p.take(n)[w] == (k, y));
            }
            if (k, y) == p[n - 1] {
                assert(p.take(n)[n - 1] == (k, y));
            }
        }
    }
}

/// The aggregate of the first `n` hits lists exactly the pairs that those
/// hits hold, each name once.
proof fn lemma_agg_maps_has(hs: Seq<(Pairs, int)>, n: int)
    requires
        0 <= n <= hs.len(),
    ensures
        forall|k: Seq<char>, y: i8| #[trigger] agg_has(agg_maps(hs, n), k, y) <==> hits_give(hs.take(n), k, y),
        agg_distinct(agg_maps(hs, n)),
    decreases n,
{
    if n > 0 {
        lemma_agg_maps_has(hs, n - 1);
        let b = agg_maps(hs, n - 1);
        let p = hs[n - 1].0;
        lemma_agg_pairs_has(b, p, p.len() as int);
        assert(p.take(p.len() as int) =~= p);
        assert forall|k: Seq<char>, y: i8| #[trigger] agg_has(agg_maps(hs, n), k, y) <==> hits_give(hs.take(n), k, y) by {
            if hits_give(hs.take(n), k, y) {
                let h = choose|h: int| 0 <= h < hs.take(n).len() && #[trigger] hs.take(n)[h].0.contains((k, y));
                if h < n - 1 {
                    assert(hs.take(n - 1)[h] == hs.take(n)[h]);
                    assert(hits_give(hs.take(n - 1), k, y));
                }
            }
            if hits_give(hs.take(n - 1), k, y) {
                let h = choose|h: int| 0 <= h < hs.take(n - 1).len() && #[trigger] hs.take(n - 1)[h].0.contains((k, y));
                assert(hs.take(n)[h] == hs.take(n - 1)[h]);
            }
            if p.contains((k, y)) {
                assert(hs.take(n)[n - 1] == hs[n - 1]);
            }
        }
    } else {
        assert forall|k: Seq<char>, y: i8| #[trigger] agg_has(agg_maps(hs, n), k, y) <==> hits_give(hs.take(n), k, y) by {
        }
    }
}

/// Narrowing by one entry changes no other variable; it keeps the entry's
/// variable, unless it is the fixed one, constrained to dimensions both the
/// entry and the earlier constraint allow.
proof fn lemma_entry_narrows(p: Prop, v: Seq<char>, k: Seq<char>, vals: Seq<i8>)
    requires
        vals.len() > 0,
        !apply_entry(p, v, k, vals).conflict,
    ensures
        !p.conflict,
        forall|k2: Seq<char>|
            k2 != k ==> (#[trigger] apply_entry(p, v, k, vals).m.contains_key(k2) == p.m.contains_key(k2)
                && apply_entry(p, v, k, vals).m[k2] == p.m[k2]),
        k != v ==> apply_entry(p, v, k, vals).m.contains_key(k),
        k != v ==> forall|y: i8|
            #[trigger] apply_entry(p, v, k, vals).m[k].contains(y) ==> vals.contains(y) && (p.m.contains_key(k)
                ==> p.m[k].contains(y)),
        forall|e: (Seq<char>, i8)| p.seen.contains(e) ==> #[trigger] apply_entry(p, v, k, vals).seen.contains(e),
        k != v && apply_entry(p, v, k, vals).m[k].len() == 1 && !(p.m.contains_key(k) && p.m[k].len() == 1)
            ==> apply_entry(p, v, k, vals).seen.contains((k, apply_entry(p, v, k, vals).m[k][0])),
{
    let r = apply_entry(p, v, k, vals);
    assert forall|e: (Seq<char>, i8)| p.seen.contains(e) implies #[trigger] r.seen.contains(e) by {
        if r.seen != p.seen {
            let t = choose|t: int| 0 <= t < p.seen.len() && p.seen[t] == e;
            assert(r.seen[t] == e);
        }
    }
    if k != v {
        if vals.len() == 1 {
            let x = vals[0];
            if p.m.contains_key(k) && p.m[k].len() == 1 {
                assert forall|y: i8| #[trigger] r.m[k].contains(y) implies vals.contains(y) && p.m[k].contains(y) by {
                    let w = choose|w: int| 0 <= w < p.m[k].len() && p.m[k][w] == x;
                    let u = choose|u: int| 0 <= u < p.m[k].len() && p.m[k][u] == y;
                    assert(vals[0] == y);
                }
            }
            assert forall|y: i8| #[trigger] r.m[k].contains(y) implies vals.contains(y) && (p.m.contains_key(k)
                ==> p.m[k].contains(y)) by {
                if !(p.m.contains_key(k) && p.m[k].len() == 1) {
                    assert(r.m[k] == vals);
                    let u = choose|u: int| 0 <= u < vals.len() && vals[u] == y;
                    assert(y == x);
                }
            }
        } else if p.m.contains_key(k) {
            lemma_keep_in(vals, p.m[k]);
            assert(r.m[k] == keep_in(vals, p.m[k]));
        }
        if r.m[k].len() == 1 && !(p.m.contains_key(k) && p.m[k].len() == 1) {
            let y = r.m[k][0];
            if vals.len() == 1 {
                assert(r.m[k] == vals);
            } else {
                assert(p.m.contains_key(k));
                assert(r.m[k] == keep_in(vals, p.m[k]));
            }
            assert(r.seen == enqueue(p.seen, k, y));
            if !p.seen.contains((k, y)) {
                assert(r.seen[p.seen.len() as int] == (k, y));
            }
        }
    }
}

/// Narrowing by the first `n` entries of an aggregate whose names are
/// distinct: each entry's variable but the fixed one ends up constrained,
/// to dimensions the entry and the starting constraint allow, and every
/// variable no entry names is left as it was.
proof fn lemma_apply_all_narrows(p: Prop, v: Seq<char>, agg: Seq<(Seq<char>, Seq<i8>)>, n: int)
    requires
        agg_vals_ok(agg),
        agg_distinct(agg),
        0 <= n <= agg.len(),
        !apply_all(p, v, agg, n).conflict,
    ensures
        forall|i: int|
            0 <= i < n && agg[i].0 != v ==> #[trigger] apply_all(p, v, agg, n).m.contains_key(agg[i].0),
        forall|i: int, y: i8|
            0 <= i < n && agg[i].0 != v && #[trigger] apply_all(p, v, agg, n).m[agg[i].0].contains(y) ==> agg[i].1.contains(y)
                && (p.m.contains_key(agg[i].0) ==> p.m[agg[i].0].contains(y)),
        forall|k: Seq<char>|
            (forall|i: int| 0 <= i < n ==> agg[i].0 != k) ==> (#[trigger] apply_all(p, v, agg, n).m.contains_key(k)
                == p.m.contains_key(k) && apply_all(p, v, agg, n).m[k] == p.m[k]),
        forall|e: (Seq<char>, i8)| p.seen.contains(e) ==> #[trigger] apply_all(p, v, agg, n).seen.contains(e),
        forall|i: int|
            0 <= i < n && agg[i].0 != v && #[trigger] apply_all(p, v, agg, n).m[agg[i].0].len() == 1 && !(p.m.contains_key(
                agg[i].0,
            ) && p.m[agg[i].0].len() == 1) ==> apply_all(p, v, agg, n).seen.contains(
                (agg[i].0, apply_all(p, v, agg, n).m[agg[i].0][0]),
            ),
    decreases n,
{
    if n > 0 {
        let q = apply_all(p, v, agg, n - 1);
        let r = apply_all(p, v, agg, n);
        let kk = agg[n - 1].0;
        assert(agg[n - 1].1.len() > 0);
        lemma_entry_narrows(q, v, kk, agg[n - 1].1);
        lemma_apply_all_narrows(p, v, agg, n - 1);
        assert forall|i: int| 0 <= i < n - 1 implies agg[i].0 != kk by {
            assert(agg[i].0 != agg[n - 1].0);
        }
        assert(q.m.contains_key(kk) == p.m.contains_key(kk) && q.m[kk] == p.m[kk]);
        assert forall|i: int| 0 <= i < n && agg[i].0 != v implies #[trigger] r.m.contains_key(agg[i].0) by {
            if i < n - 1 {
                assert(q.m.contains_key(agg[i].0));
            }
        }
        assert forall|i: int, y: i8|
            0 <= i < n && agg[i].0 != v && #[trigger] r.m[agg[i].0].contains(y) implies agg[i].1.contains(y) && (
            p.m.contains_key(agg[i].0) ==> p.m[agg[i].0].contains(y)) by {
            if i < n - 1 {
                assert(r.m[agg[i].0] == q.m[agg[i].0]);
                assert(q.m[agg[i].0].contains(y));
            }
        }
        assert forall|k: Seq<char>| (forall|i: int| 0 <= i < n ==> agg[i].0 != k) implies (
        #[trigger] r.m.contains_key(k) == p.m.contains_key(k) && r.m[k] == p.m[k]) by {
            assert(agg[n - 1].0 != k);
            assert(q.m.contains_key(k) == p.m.contains_key(k) && q.m[k] == p.m[k]);
        }
        assert forall|e: (Seq<char>, i8)| p.seen.contains(e) implies #[trigger] r.seen.contains(e) by {
            assert(q.seen.contains(e));
        }
        assert forall|i: int|
            0 <= i < n && agg[i].0 != v && #[trigger] r.m[agg[i].0].len() == 1 && !(p.m.contains_key(agg[i].0)
                && p.m[agg[i].0].len() == 1) implies r.seen.contains((agg[i].0, r.m[agg[i].0][0])) by {
            if i < n - 1 {
                assert(r.m[agg[i].0] == q.m[agg[i].0]);
                assert(q.m[agg[i].0].len() == 1);
                assert(q.seen.contains((agg[i].0, q.m[agg[i].0][0])));
            }
        }
    }
}

impl Context {
    /// Visiting an instruction of `f` while `v` is fixed to `s` is complete:
    /// unless it finds a conflict, every other variable that a derived
    /// split map agreeing with `(v, s)` names is afterwards constrained,
    /// and only to dimensions that some agreeing map gives it and that its
    /// earlier constraint allowed; each such variable that the visit leaves
    /// with one dimension, where it had not one before, is queued with it;
    /// and nothing queued before is dropped.
    pub proof fn law_visit_complete(&self, f: int, p: Prop, v: Seq<char>, s: i8, j: int)
        requires
            !self.visit_pos(f, p, v, s, j).conflict,
        ensures
            ({
                let ds = pview(self.derive@)[f][j];
                let hs = match_hits(ds, v, s, ds.len() as int);
                let q = self.visit_pos(f, p, v, s, j);
                &&& forall|k: Seq<char>, x: i8| k != v && #[trigger] hits_give(hs, k, x) ==> q.m.contains_key(k)
                &&& forall|k: Seq<char>, x: i8, y: i8|
                    k != v && #[trigger] hits_give(hs, k, x) && #[trigger] q.m[k].contains(y) ==> hits_give(hs, k, y)
                        && (p.m.contains_key(k) ==> p.m[k].contains(y))
                &&& forall|k: Seq<char>, x: i8|
                    k != v && #[trigger] hits_give(hs, k, x) && q.m[k].len() == 1 && !(p.m.contains_key(k) && p.m[k].len()
                        == 1) ==> q.seen.contains((k, q.m[k][0]))
                &&& forall|e: (Seq<char>, i8)| p.seen.contains(e) ==> #[trigger] q.seen.contains(e)
            }),
    {
        let ds = pview(self.derive@)[f][j];
        let hs = match_hits(ds, v, s, ds.len() as int);
        let q = self.visit_pos(f, p, v, s, j);
        let agg = agg_maps(hs, hs.len() as int);
        lemma_agg_maps_vals(hs, hs.len() as int);
        lemma_agg_maps_has(hs, hs.len() as int);
        assert(hs.take(hs.len() as int) =~= hs);
        assert(!p.conflict);
        assert(q == apply_all(p, v, agg, agg.len() as int));
        lemma_apply_all_narrows(p, v, agg, agg.len() as int);
        assert forall|k: Seq<char>, x: i8| k != v && #[trigger] hits_give(hs, k, x) implies q.m.contains_key(k) by {
            assert(agg_has(agg, k, x));
            let i = choose|i: int| 0 <= i < agg.len() && agg[i].0 == k && #[trigger] agg[i].1.contains(x);
            assert(q.m.contains_key(agg[i].0));
        }
        assert forall|k: Seq<char>, x: i8, y: i8|
            k != v && #[trigger] hits_give(hs, k, x) && #[trigger] q.m[k].contains(y) implies hits_give(hs, k, y)
                && (p.m.contains_key(k) ==> p.m[k].contains(y)) by {
            assert(agg_has(agg, k, x));
            let i = choose|i: int| 0 <= i < agg.len() && agg[i].0 == k && #[trigger] agg[i].1.contains(x);
            assert(q.m[agg[i].0].contains(y));
            assert(agg[i].1.contains(y));
            assert(agg_has(agg, k, y));
        }
        assert forall|k: Seq<char>, x: i8|
            k != v && #[trigger] hits_give(hs, k, x) && q.m[k].len() == 1 && !(p.m.contains_key(k) && p.m[k].len() == 1)
                implies q.seen.contains((k, q.m[k][0])) by {
            assert(agg_has(agg, k, x));
            let i = choose|i: int| 0 <= i < agg.len() && agg[i].0 == k && #[trigger] agg[i].1.contains(x);
            assert(q.m[agg[i].0].len() == 1);
        }
    }
}

} // verus!
