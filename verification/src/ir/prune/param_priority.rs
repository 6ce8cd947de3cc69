//! Ordering of the parameters of a function by how far replicating each
//! one propagates: the search is fastest when it fixes first the
//! parameters that constrain the most variables.
use vstd::prelude::*;
use crate::ir::hlo_ast::{Param, Type};
use crate::ir::propagate::context::{ConstraintMap, Context, cview};

verus! {

/// `a` and `b` are the same parameter: same name, data type and
/// dimensions.
pub open spec fn param_eq(a: Param, b: Param) -> bool {
    &&& a.name@ == b.name@
    &&& a.param_type.data_type@ == b.param_type.data_type@
    &&& match (a.param_type.dimensions, b.param_type.dimensions) {
        (Some(x), Some(y)) => x@ == y@,
        (None, None) => true,
        _ => false,
    }
}

/// A copy of the parameter `p`.
pub fn copy_param(p: &Param) -> (r: Param)
    ensures
        param_eq(r, *p),
{
    let dims = match &p.param_type.dimensions {
        Some(d) => {
            let mut v: Vec<i32> = Vec::new();
            let n = d.len();
            let mut i: usize = 0;
            while i < n
                invariant
                    n == d@.len(),
                    i <= n,
                    v@ == d@.take(i as int),
                decreases n - i,
            {
                v.push(d[i]);
                i = i + 1;
                assert(v@ =~= d@.take(i as int));
            }
            assert(d@.take(n as int) =~= d@);
            Some(v)
        },
        None => None,
    };
    Param {
        name: p.name.clone(),
        param_type: Type { data_type: p.param_type.data_type.clone(), dimensions: dims },
    }
}

/// The parameter with index `a` goes before the one with index `b`: a
/// higher priority, or the same priority and a higher index.
pub open spec fn ranked_before(keys: Seq<int>, a: int, b: int) -> bool {
    keys[a] > keys[b] || (keys[a] == keys[b] && a > b)
}

/// `sigma` lists every index of `keys` once, each before those it ranks
/// before.
pub open spec fn order_ok(keys: Seq<int>, sigma: Seq<int>) -> bool {
    &&& sigma.len() == keys.len()
    &&& sigma.no_duplicates()
    &&& forall|k: int| 0 <= k < sigma.len() ==> 0 <= #[trigger] sigma[k] < keys.len()
    &&& forall|a: int, b: int| 0 <= a < b < sigma.len() ==> ranked_before(keys, #[trigger] sigma[a], #[trigger] sigma[b])
}

/// The number of `true` entries of `s`.
pub open spec fn count_true(s: Seq<bool>) -> int
    decreases s.len(),
{
    if s.len() == 0 {
        0
    } else {
        count_true(s.drop_last()) + if s.last() {
            1int
        } else {
            0int
        }
    }
}

/// Setting an entry that was `false` adds one to the count; a list of
/// `true` entries counts its length.
pub proof fn lemma_count_true(s: Seq<bool>, m: int)
    requires
        0 <= m < s.len(),
        !s[m],
    ensures
        count_true(s.update(m, true)) == count_true(s) + 1,
    decreases s.len(),
{
    if m < s.len() - 1 {
        lemma_count_true(s.drop_last(), m);
        assert(s.update(m, true).drop_last() =~= s.drop_last().update(m, true));
    } else {
        assert(s.update(m, true).drop_last() =~= s.drop_last());
    }
}

/// A list of `true` entries counts its length.
pub proof fn lemma_count_all(s: Seq<bool>)
    requires
        forall|j: int| 0 <= j < s.len() ==> s[j],
    ensures
        count_true(s) == s.len(),
    decreases s.len(),
{
    if s.len() > 0 {
        lemma_count_all(s.drop_last());
    }
}

/// The number of `true` entries is at most the length.
pub proof fn lemma_count_le(s: Seq<bool>)
    ensures
        0 <= count_true(s) <= s.len(),
    decreases s.len(),
{
    if s.len() > 0 {
        lemma_count_le(s.drop_last());
    }
}

impl Context {
    /// The priority of parameter `p` of function `f`: how many variables
    /// replicating it constrains, or `-1` when replicating it conflicts.
    pub open spec fn priority(&self, f: int, p: Param) -> int {
        match self.spec_bfs(f, Map::empty(), p.name@, -1i8) {
            None => -1,
            Some(r) => (r.dom().len() as i32) as int,
        }
    }

    /// The priorities of the parameters `ps` of function `f`.
    pub open spec fn priorities(&self, f: int, ps: Seq<Param>) -> Seq<int> {
        Seq::new(ps.len(), |i: int| self.priority(f, ps[i]))
    }
}

/// The parameters `params` of function `func_id`, highest priority first;
/// of two with the same priority, the later one comes first.
pub fn prioritized_params(ctx: &Context, func_id: usize, params: &Vec<Param>) -> (r: Vec<Param>)
    requires
        ctx.placed(func_id as int),
        ctx.fusion_calls_ok(func_id as int),
        ctx.params_placed(func_id as int, params@),
    ensures
        exists|sigma: Seq<int>|
            order_ok(ctx.priorities(func_id as int, params@), sigma) && r@.len() == params@.len() && forall|k: int|
                0 <= k < r@.len() ==> param_eq(#[trigger] r@[k], params@[sigma[k]]),
{
    let ghost keys = ctx.priorities(func_id as int, params@);
    let n = params.len();
    let mut vals: Vec<i32> = Vec::new();
    let mut i: usize = 0;
    while i < n
        invariant
            n == params@.len(),
            i <= n,
            vals@.len() == i,
            keys == ctx.priorities(func_id as int, params@),
            ctx.placed(func_id as int),
            ctx.fusion_calls_ok(func_id as int),
            ctx.params_placed(func_id as int, params@),
            forall|j: int| 0 <= j < i ==> vals@[j] as int == keys[j],
        decreases n - i,
    {
        assert(ctx.var_at(func_id as int, params@[i as int].name@));
        let empty: ConstraintMap = ConstraintMap::new();
        assert(cview(empty@) =~= Map::<Seq<char>, Seq<i8>>::empty());
        let br = ctx.propagate_bfs(func_id, params[i].name.as_str(), -1, &empty, false);
        let v: i32 = match br {
            Ok(Some(m)) => {
                let l = m.len();
                assert(cview(m@).dom() =~= m@.dom());
                l as i32
            },
            Ok(None) => -1,
            Err(_) => {
                assert(false);
                -1
            },
        };
        vals.push(v);
        i = i + 1;
    }
    let mut taken: Vec<bool> = Vec::new();
    let mut j: usize = 0;
    while j < n
        invariant
            j <= n,
            taken@.len() == j,
            forall|t: int| 0 <= t < j ==> !taken@[t],
        decreases n - j,
    {
        taken.push(false);
        j = j + 1;
    }
    proof {
        assert(count_true(taken@) == 0) by {
            lemma_count_zero(taken@);
        }
    }
    let mut order: Vec<usize> = Vec::new();
    let mut k: usize = 0;
    while k < n
        invariant
            n == params@.len(),
            n == vals@.len(),
            n == taken@.len(),
            keys.len() == n,
            forall|j: int| 0 <= j < n ==> vals@[j] as int == keys[j],
            k <= n,
            order@.len() == k,
            count_true(taken@) == k,
            forall|j: int| 0 <= j < n ==> (taken@[j] <==> order@.contains(j as usize)),
            forall|t: int| 0 <= t < k ==> #[trigger] order@[t] < n,
            order@.no_duplicates(),
            forall|a: int, b: int| 0 <= a < b < k ==> ranked_before(keys, #[trigger] order@[a] as int, #[trigger] order@[b] as int),
            forall|t: int, j: int| 0 <= t < k && 0 <= j < n && !#[trigger] taken@[j] ==> ranked_before(keys, #[trigger] order@[t] as int, j),
        decreases n - k,
    {
        let mut best: usize = n;
        let mut j: usize = 0;
        while j < n
            invariant
                n == vals@.len(),
                n == taken@.len(),
                keys.len() == n,
                forall|j: int| 0 <= j < n ==> vals@[j] as int == keys[j],
                j <= n,
                best == n || (best < j && !taken@[best as int]),
                best < n ==> forall|t: int| 0 <= t < j && !taken@[t] && t != best ==> ranked_before(keys, best as int, t),
                best == n ==> forall|t: int| 0 <= t < j ==> taken@[t],
            decreases n - j,
        {
            if !taken[j] {
                if best == n || vals[j] > vals[best] || (vals[j] == vals[best] && j > best) {
                    best = j;
                }
            }
            j = j + 1;
        }
        if best == n {
            proof {
                lemma_count_all(taken@);
            }
            assert(false);
            return Vec::new();
        }
        proof {
            lemma_count_true(taken@, best as int);
        }
        let ghost before = order@;
        taken.set(best, true);
        order.push(best);
        proof {
            assert forall|j: int| 0 <= j < n implies (taken@[j] <==> order@.contains(j as usize)) by {
                if j == best as int {
                    assert(order@[k as int] == best);
                } else {
                    if before.contains(j as usize) {
                        let w = choose|w: int| 0 <= w < before.len() && before[w] == j as usize;
                        assert(order@[w] == j as usize);
                    }
                    if order@.contains(j as usize) {
                        let w = choose|w: int| 0 <= w < order@.len() && order@[w] == j as usize;
                        if w < k {
                            assert(before[w] == j as usize);
                        }
                    }
                }
            }
            assert(order@.no_duplicates()) by {
                assert forall|a: int, b: int| 0 <= a < order@.len() && 0 <= b < order@.len() && a != b implies order@[a] != order@[b] by {
                    if a == k as int {
                        assert(!before.contains(best));
                        assert(before[b] == order@[b]);
                    } else if b == k as int {
                        assert(!before.contains(best));
                        assert(before[a] == order@[a]);
                    } else {
                        assert(before[a] == order@[a] && before[b] == order@[b]);
                    }
                }
            }
        }
        k = k + 1;
    }
    let mut r: Vec<Param> = Vec::new();
    let mut t: usize = 0;
    while t < n
        invariant
            n == params@.len(),
            n == order@.len(),
            forall|w: int| 0 <= w < n ==> #[trigger] order@[w] < n,
            t <= n,
            r@.len() == t,
            forall|w: int| 0 <= w < t ==> param_eq(#[trigger] r@[w], params@[order@[w] as int]),
        decreases n - t,
    {
        let p = copy_param(&params[order[t]]);
        r.push(p);
        t = t + 1;
    }
    let ghost sigma = order@.map_values(|x: usize| x as int);
    assert(order_ok(keys, sigma)) by {
        assert forall|a: int, b: int| 0 <= a < b < sigma.len() implies ranked_before(keys, #[trigger] sigma[a], #[trigger] sigma[b]) by {
            assert(sigma[a] == order@[a] as int && sigma[b] == order@[b] as int);
        }
        assert(sigma.no_duplicates()) by {
            assert forall|a: int, b: int| 0 <= a < sigma.len() && 0 <= b < sigma.len() && a != b implies sigma[a] != sigma[b] by {
                assert(order@[a] != order@[b]);
            }
        }
    }
    assert(forall|k: int| 0 <= k < r@.len() ==> param_eq(#[trigger] r@[k], params@[sigma[k]]));
    r
}

/// A list of `false` entries counts none.
pub proof fn lemma_count_zero(s: Seq<bool>)
    requires
        forall|j: int| 0 <= j < s.len() ==> !s[j],
    ensures
        count_true(s) == 0,
    decreases s.len(),
{
    if s.len() > 0 {
        lemma_count_zero(s.drop_last());
    }
}

} // verus!
