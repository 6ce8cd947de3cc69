//! Fusion instructions: a call of a fused function is derived from the
//! solutions of that function, renamed to the call's operands and result.
use vstd::prelude::*;
use crate::ir::error::PropagationError;
use crate::ir::hlo_ast::{InstPos, Instruction, Param, RichParam, find_meta};
use crate::ir::propagate::bfs::cm_nonempty;
use crate::ir::propagate::context::{CMap, ConstraintMap, Context, cview};
use crate::ir::propagate::enumerate::vview;
use crate::ir::propagate::laws::solution_good;
use crate::ir::split::{SplitMap, views};
use crate::ir::strmap::{StrMap, keys_unique, pairs_view, smap};
use crate::ir::derive::{table_has, tview};
use crate::ir::text::{owned, str_eq};

verus! {

/// The name of the function that `inst` calls, from its `calls` entry.
pub open spec fn calls_of(inst: Instruction) -> Option<Seq<char>> {
    match inst.meta {
        Some(metas) => match find_meta(metas@, "calls"@) {
            Some(j) => match metas@[j].str_value {
                Some(v) => Some(v@),
                None => None,
            },
            None => None,
        },
        None => None,
    }
}

/// Whether `p` occurs in `k` as a run of consecutive characters.
pub open spec fn is_substr(p: Seq<char>, k: Seq<char>) -> bool {
    exists|i: int| 0 <= i && i + p.len() <= k.len() && #[trigger] k.subrange(i, i + p.len()) == p
}

/// Whether `p` occurs in `k` as a run of consecutive characters.
pub fn has_substr(k: &str, p: &str) -> (r: bool)
    ensures
        r == is_substr(p@, k@),
{
    let n = k.unicode_len();
    let m = p.unicode_len();
    if m > n {
        assert forall|i: int| 0 <= i && i + p@.len() <= k@.len() implies #[trigger] k@.subrange(i, i + p@.len()) != p@ by {}
        return false;
    }
    let mut i: usize = 0;
    while i <= n - m
        invariant
            n == k@.len(),
            m == p@.len(),
            m <= n,
            i <= n - m + 1,
            forall|s: int| 0 <= s < i ==> #[trigger] k@.subrange(s, s + m) != p@,
        decreases n - m + 1 - i,
    {
        let mut j: usize = 0;
        let mut same = true;
        while j < m
            invariant
                n == k@.len(),
                m == p@.len(),
                i + m <= n,
                j <= m,
                same == (forall|t: int| 0 <= t < j ==> k@[i + t] == p@[t]),
            decreases m - j,
        {
            if k.get_char(i + j) != p.get_char(j) {
                same = false;
            }
            j = j + 1;
        }
        if same {
            assert(k@.subrange(i as int, i + m) =~= p@);
            return true;
        }
        assert(k@.subrange(i as int, i + m) != p@) by {
            let t = choose|t: int| 0 <= t < m && k@[i + t] != p@[t];
            assert(k@.subrange(i as int, i + m)[t] == k@[i + t]);
        }
        i = i + 1;
    }
    false
}

/// The insertions that renaming one solution entry `(k, x)` of a fused
/// function makes: the call's result for the fused result `ret`, otherwise
/// the call's operand for each parameter whose name occurs in `k`.
pub open spec fn param_ops(k: Seq<char>, x: i8, fparams: Seq<Param>, iparams: Seq<RichParam>, n: int) -> Seq<(Seq<char>, i8)>
    decreases n,
{
    if n <= 0 {
        Seq::empty()
    } else {
        let a = param_ops(k, x, fparams, iparams, n - 1);
        if is_substr(fparams[n - 1].name@, k) {
            a.push((iparams[n - 1].name@, x))
        } else {
            a
        }
    }
}

/// The insertions that renaming the first `n` entries of a solution of a
/// fused function makes, each entry taking its first dimension.
pub open spec fn flat_ops(
    ps: Seq<(Seq<char>, Seq<i8>)>,
    ret: Seq<char>,
    ivar: Seq<char>,
    fparams: Seq<Param>,
    iparams: Seq<RichParam>,
    n: int,
) -> Seq<(Seq<char>, i8)>
    decreases n,
{
    if n <= 0 {
        Seq::empty()
    } else {
        let a = flat_ops(ps, ret, ivar, fparams, iparams, n - 1);
        let k = ps[n - 1].0;
        let x = ps[n - 1].1[0];
        if k == ret {
            a.push((ivar, x))
        } else {
            a + param_ops(k, x, fparams, iparams, fparams.len() as int)
        }
    }
}

/// The pairs of a constraint map, with plain dimension lists.
pub open spec fn cpairs(m: ConstraintMap) -> Seq<(Seq<char>, Seq<i8>)> {
    m.pairs().map_values(|e: (Seq<char>, Vec<i8>)| (e.0, e.1@))
}

/// The table `t` with the entries of `patch` put in, in order.
pub open spec fn patch_table(
    t: Seq<Seq<Seq<Map<Seq<char>, i8>>>>,
    patch: Seq<(InstPos, Seq<Map<Seq<char>, i8>>)>,
    n: int,
) -> Seq<Seq<Seq<Map<Seq<char>, i8>>>>
    decreases n,
{
    if n <= 0 {
        t
    } else {
        let a = patch_table(t, patch, n - 1);
        let p = patch[n - 1].0;
        a.update(p.0 as int, a[p.0 as int].update(p.1 as int, patch[n - 1].1))
    }
}

impl Context {
    /// Every fusion instruction of function `f` names a function of the
    /// module, and `f` has its instruction positions cached.
    pub open spec fn fusion_ok(&self, f: int) -> bool {
        &&& 0 <= f < self.ast.functions@.len()
        &&& f < self.ast.inst_pos@.len()
        &&& self.ast.inst_pos@[f]@.len() == self.ast.functions@[f].body@.len()
        &&& forall|j: int|
            0 <= j < self.ast.functions@[f].body@.len() && #[trigger] self.ast.functions@[f].body@[j].function.name@
                == "fusion"@ ==> calls_of(self.ast.functions@[f].body@[j]) is Some && self.ast.func_id@.contains_key(
                calls_of(self.ast.functions@[f].body@[j])->Some_0,
            )
    }

    /// The fusion instructions among the first `n` of function `f`, each
    /// with its position and the index of the function it calls.
    pub open spec fn fusion_list(&self, f: int, n: int) -> Seq<(InstPos, usize)>
        decreases n,
    {
        if n <= 0 {
            Seq::empty()
        } else {
            let a = self.fusion_list(f, n - 1);
            let inst = self.ast.functions@[f].body@[n - 1];
            if inst.function.name@ == "fusion"@ {
                a.push((self.ast.inst_pos@[f]@[n - 1], self.ast.func_id@[calls_of(inst)->Some_0]))
            } else {
                a
            }
        }
    }

    /// The fusion instructions of function `func_id`, each with its
    /// position and the index of the function it calls.
    pub fn get_fusion_list(&self, func_id: usize) -> (r: Result<Vec<(InstPos, usize)>, PropagationError>)
        requires
            self.fusion_ok(func_id as int),
        ensures
            r matches Ok(v) && v@ == self.fusion_list(
                func_id as int,
                self.ast.functions@[func_id as int].body@.len() as int,
            ),
    {
        let body = &self.ast.functions[func_id].body;
        let mut result: Vec<(InstPos, usize)> = Vec::new();
        let n = body.len();
        let mut j: usize = 0;
        while j < n
            invariant
                n == body@.len(),
                *body == self.ast.functions@[func_id as int].body,
                self.fusion_ok(func_id as int),
                j <= n,
                result@ == self.fusion_list(func_id as int, j as int),
            decreases n - j,
        {
            let inst = &body[j];
            if str_eq(inst.function.name.as_str(), "fusion") {
                assert(inst.function.name@ == "fusion"@);
                let callee = match inst.get_meta_str("calls") {
                    Ok(name) => match self.ast.func_id.get(name.as_str()) {
                        Some(id) => *id,
                        None => {
                            assert(false);
                            0
                        },
                    },
                    Err(_) => {
                        assert(false);
                        0
                    },
                };
                let pos = self.ast.inst_pos[func_id][j];
                result.push((pos, callee));
            }
            j = j + 1;
        }
        Ok(result)
    }
}


/// The plain view of a derivation patch.
pub open spec fn patch_view(p: Seq<(InstPos, Vec<SplitMap>)>) -> Seq<(InstPos, Seq<Map<Seq<char>, i8>>)> {
    p.map_values(|e: (InstPos, Vec<SplitMap>)| (e.0, views(e.1@)))
}

/// The split map that renaming the solution `m` of a fused function gives
/// for its call.
pub fn flatten_one(m: &ConstraintMap, ret: &str, ivar: &str, fparams: &Vec<Param>, iparams: &Vec<RichParam>) -> (r: SplitMap)
    requires
        cm_nonempty(cview(m@)),
        fparams@.len() <= iparams@.len(),
    ensures
        r@ == smap(flat_ops(cpairs(*m), ret@, ivar@, fparams@, iparams@, cpairs(*m).len() as int)),
{
    let es = m.entries();
    let ghost cp = cpairs(*m);
    assert(cp.len() == es@.len());
    let mut r: SplitMap = StrMap::new();
    let ghost mut ops: Seq<(Seq<char>, i8)> = Seq::empty();
    let n = es.len();
    let mut q: usize = 0;
    assert(r@ =~= smap(ops));
    while q < n
        invariant
            n == es@.len(),
            cp == cpairs(*m),
            cp.len() == n,
            pairs_view(es@) == m.pairs(),
            keys_unique(pairs_view(es@)),
            smap(pairs_view(es@)) == m@,
            cm_nonempty(cview(m@)),
            fparams@.len() <= iparams@.len(),
            q <= n,
            ops == flat_ops(cp, ret@, ivar@, fparams@, iparams@, q as int),
            r@ == smap(ops),
        decreases n - q,
    {
        proof {
            crate::ir::strmap::lemma_smap_unique_index(pairs_view(es@), q as int);
            assert(cp[q as int] == (es@[q as int].0@, es@[q as int].1@));
            assert(cview(m@).contains_key(es@[q as int].0@));
            assert(m@[es@[q as int].0@] == es@[q as int].1);
            assert(cview(m@)[es@[q as int].0@] == es@[q as int].1@);
            assert(cview(m@)[es@[q as int].0@].len() > 0);
        }
        let k = es[q].0.as_str();
        let x = es[q].1[0];
        if str_eq(k, ret) {
            r.insert(owned(ivar), x);
            proof {
                assert(ops.push((ivar@, x)).drop_last() =~= ops);
                ops = ops.push((ivar@, x));
            }
        } else {
            let ghost base = ops;
            let nf = fparams.len();
            let mut i: usize = 0;
            while i < nf
                invariant
                    nf == fparams@.len(),
                    nf <= iparams@.len(),
                    i <= nf,
                    ops == base + param_ops(k@, x, fparams@, iparams@, i as int),
                    r@ == smap(ops),
                decreases nf - i,
            {
                if has_substr(k, fparams[i].name.as_str()) {
                    let key = iparams[i].name.clone();
                    r.insert(key, x);
                    proof {
                        assert((base + param_ops(k@, x, fparams@, iparams@, i as int)).push((iparams@[i as int].name@, x))
                            =~= base + param_ops(k@, x, fparams@, iparams@, i + 1));
                        assert(ops.push((iparams@[i as int].name@, x)).drop_last() =~= ops);
                        ops = ops.push((iparams@[i as int].name@, x));
                    }
                }
                i = i + 1;
            }
            assert(flat_ops(cp, ret@, ivar@, fparams@, iparams@, q + 1) == base + param_ops(k@, x, fparams@, iparams@, fparams@.len() as int));
        }
        q = q + 1;
    }
    r
}

/// The pair `(w, d)` renames an entry of the solution `ps` of a fused
/// function: either `w` is the call's result `ivar` and `d` the first
/// dimension of the fused result's entry, or `w` is the call's operand at
/// some index `i` and `d` the first dimension of an entry, other than the
/// result's, whose name holds the name of the fused parameter at that same
/// index `i`.
pub open spec fn renames_entry(
    ps: Seq<(Seq<char>, Seq<i8>)>,
    ret: Seq<char>,
    ivar: Seq<char>,
    fparams: Seq<Param>,
    iparams: Seq<RichParam>,
    w: Seq<char>,
    d: i8,
) -> bool {
    ||| w == ivar && exists|q: int| 0 <= q < ps.len() && #[trigger] ps[q].0 == ret && d == ps[q].1[0]
    ||| exists|q: int, i: int|
        0 <= q < ps.len() && 0 <= i < fparams.len() && ps[q].0 != ret && #[trigger] is_substr(fparams[i].name@, ps[q].0)
            && w == iparams[i].name@ && d == ps[q].1[0]
}

/// The insertion `o` for an entry `(k, x)` puts `x` on the operand at one
/// of the first `n` indices whose fused parameter `k` names.
pub open spec fn op_of(k: Seq<char>, x: i8, fparams: Seq<Param>, iparams: Seq<RichParam>, n: int, o: (Seq<char>, i8)) -> bool {
    exists|i: int| 0 <= i < n && #[trigger] is_substr(fparams[i].name@, k) && o.0 == iparams[i].name@ && o.1 == x
}

/// Each insertion for an entry `(k, x)` puts `x` on the operand at an index
/// whose fused parameter `k` names, and each such operand gets one.
proof fn lemma_param_ops(k: Seq<char>, x: i8, fparams: Seq<Param>, iparams: Seq<RichParam>, n: int)
    requires
        0 <= n <= fparams.len(),
    ensures
        forall|t: int|
            0 <= t < param_ops(k, x, fparams, iparams, n).len() ==> op_of(
                k,
                x,
                fparams,
                iparams,
                n,
                #[trigger] param_ops(k, x, fparams, iparams, n)[t],
            ),
        forall|i: int|
            0 <= i < n && #[trigger] is_substr(fparams[i].name@, k) ==> param_ops(k, x, fparams, iparams, n).contains(
                (iparams[i].name@, x),
            ),
    decreases n,
{
    if n > 0 {
        lemma_param_ops(k, x, fparams, iparams, n - 1);
        let a = param_ops(k, x, fparams, iparams, n - 1);
        let b = param_ops(k, x, fparams, iparams, n);
        assert forall|t: int| 0 <= t < b.len() implies op_of(k, x, fparams, iparams, n, #[trigger] b[t]) by {
            if t < a.len() {
                assert(b[t] == a[t]);
                assert(op_of(k, x, fparams, iparams, n - 1, a[t]));
                let i = choose|i: int|
                    0 <= i < n - 1 && #[trigger] is_substr(fparams[i].name@, k) && a[t].0 == iparams[i].name@ && a[t].1 == x;
                assert(0 <= i < n && is_substr(fparams[i].name@, k) && b[t].0 == iparams[i].name@ && b[t].1 == x);
            } else {
                assert(b == a.push((iparams[n - 1].name@, x)));
                assert(b[t] == (iparams[n - 1].name@, x));
                assert(is_substr(fparams[n - 1].name@, k));
            }
        }
        assert forall|i: int| 0 <= i < n && #[trigger] is_substr(fparams[i].name@, k) implies b.contains(
            (iparams[i].name@, x),
        ) by {
            if i < n - 1 {
                let t = choose|t: int| 0 <= t < a.len() && a[t] == (iparams[i].name@, x);
                assert(b[t] == a[t]);
            } else {
                assert(b[a.len() as int] == (iparams[i].name@, x));
            }
        }
    }
}

/// Every insertion of the renaming of the first `n` entries renames one of
/// them, and every operand or result that one of those entries calls for
/// gets an insertion.
proof fn lemma_flat_ops(
    ps: Seq<(Seq<char>, Seq<i8>)>,
    ret: Seq<char>,
    ivar: Seq<char>,
    fparams: Seq<Param>,
    iparams: Seq<RichParam>,
    n: int,
)
    requires
        0 <= n <= ps.len(),
    ensures
        forall|t: int|
            0 <= t < flat_ops(ps, ret, ivar, fparams, iparams, n).len() ==> renames_entry(
                ps,
                ret,
                ivar,
                fparams,
                iparams,
                #[trigger] flat_ops(ps, ret, ivar, fparams, iparams, n)[t].0,
                flat_ops(ps, ret, ivar, fparams, iparams, n)[t].1,
            ),
        forall|q: int, i: int|
            0 <= q < n && 0 <= i < fparams.len() && ps[q].0 != ret && #[trigger] is_substr(fparams[i].name@, ps[q].0)
                ==> exists|t: int|
                0 <= t < flat_ops(ps, ret, ivar, fparams, iparams, n).len() && #[trigger] flat_ops(
                    ps,
                    ret,
                    ivar,
                    fparams,
                    iparams,
                    n,
                )[t].0 == iparams[i].name@,
        forall|q: int|
            0 <= q < n && #[trigger] ps[q].0 == ret ==> exists|t: int|
                0 <= t < flat_ops(ps, ret, ivar, fparams, iparams, n).len() && #[trigger] flat_ops(
                    ps,
                    ret,
                    ivar,
                    fparams,
                    iparams,
                    n,
                )[t].0 == ivar,
    decreases n,
{
    if n > 0 {
        lemma_flat_ops(ps, ret, ivar, fparams, iparams, n - 1);
        let a = flat_ops(ps, ret, ivar, fparams, iparams, n - 1);
        let b = flat_ops(ps, ret, ivar, fparams, iparams, n);
        let k = ps[n - 1].0;
        let x = ps[n - 1].1[0];
        let po = param_ops(k, x, fparams, iparams, fparams.len() as int);
        if k != ret {
            lemma_param_ops(k, x, fparams, iparams, fparams.len() as int);
            assert(b == a + po);
        }
        assert forall|t: int| 0 <= t < b.len() implies renames_entry(ps, ret, ivar, fparams, iparams, #[trigger] b[t].0, b[t].1) by {
            if t < a.len() {
                assert(b[t] == a[t]);
            } else if k == ret {
                assert(b[t] == (ivar, x));
                assert(ps[n - 1].0 == ret);
            } else {
                assert(b[t] == po[t - a.len()]);
                assert(op_of(k, x, fparams, iparams, fparams.len() as int, po[t - a.len()]));
                let i = choose|i: int|
                    0 <= i < fparams.len() && #[trigger] is_substr(fparams[i].name@, k) && po[t - a.len()].0 == iparams[i].name@
                        && po[t - a.len()].1 == x;
                assert(is_substr(fparams[i].name@, ps[n - 1].0));
            }
        }
        assert forall|q: int, i: int|
            0 <= q < n && 0 <= i < fparams.len() && ps[q].0 != ret && #[trigger] is_substr(fparams[i].name@, ps[q].0) implies exists|t: int|
                0 <= t < b.len() && #[trigger] b[t].0 == iparams[i].name@ by {
            if q < n - 1 {
                let t = choose|t: int| 0 <= t < a.len() && #[trigger] a[t].0 == iparams[i].name@;
                assert(b[t] == a[t]);
                assert(b[t].0 == iparams[i].name@);
            } else {
                assert(is_substr(fparams[i].name@, k));
                let w = choose|w: int| 0 <= w < po.len() && po[w] == (iparams[i].name@, x);
                assert(b[a.len() + w] == po[w]);
                assert(b[a.len() + w].0 == iparams[i].name@);
            }
        }
        assert forall|q: int| 0 <= q < n && #[trigger] ps[q].0 == ret implies exists|t: int|
            0 <= t < b.len() && #[trigger] b[t].0 == ivar by {
            if q < n - 1 {
                let t = choose|t: int| 0 <= t < a.len() && #[trigger] a[t].0 == ivar;
                assert(b[t] == a[t]);
                assert(b[t].0 == ivar);
            } else {
                assert(b == a.push((ivar, x)));
                assert(b[a.len() as int] == (ivar, x));
                assert(b[a.len() as int].0 == ivar);
            }
        }
    }
}

/// Each name of the map that pairs build carries the value of one of its
/// pairs.
proof fn lemma_smap_from<V>(s: Seq<(Seq<char>, V)>)
    ensures
        forall|w: Seq<char>| #[trigger] smap(s).contains_key(w) ==> exists|t: int| 0 <= t < s.len() && s[t] == (w, smap(s)[w]),
    decreases s.len(),
{
    if s.len() > 0 {
        lemma_smap_from(s.drop_last());
        assert forall|w: Seq<char>| #[trigger] smap(s).contains_key(w) implies exists|t: int|
            0 <= t < s.len() && s[t] == (w, smap(s)[w]) by {
            if w == s.last().0 {
                assert(s[s.len() - 1] == (w, smap(s)[w]));
            } else {
                let t = choose|t: int| 0 <= t < s.drop_last().len() && s.drop_last()[t] == (w, smap(s.drop_last())[w]);
                assert(s[t] == s.drop_last()[t]);
            }
        }
    }
}

/// Renaming a solution `ps` of a fused function to a call keeps each
/// split with its parameter's index: every operand at an index whose fused
/// parameter an entry names, and the call's result when the fused result
/// has an entry, is in the renamed map; and every name of the renamed map
/// is the result, with the fused result's dimension, or the operand at
/// some index `i`, with the dimension of an entry naming the fused
/// parameter at that same index `i`.
pub proof fn law_flat_renames(
    ps: Seq<(Seq<char>, Seq<i8>)>,
    ret: Seq<char>,
    ivar: Seq<char>,
    fparams: Seq<Param>,
    iparams: Seq<RichParam>,
)
    requires
        fparams.len() <= iparams.len(),
    ensures
        ({
            let r = smap(flat_ops(ps, ret, ivar, fparams, iparams, ps.len() as int));
            &&& forall|q: int, i: int|
                0 <= q < ps.len() && 0 <= i < fparams.len() && ps[q].0 != ret && #[trigger] is_substr(
                    fparams[i].name@,
                    ps[q].0,
                ) ==> r.contains_key(iparams[i].name@)
            &&& forall|q: int| 0 <= q < ps.len() && #[trigger] ps[q].0 == ret ==> r.contains_key(ivar)
            &&& forall|w: Seq<char>| #[trigger] r.contains_key(w) ==> renames_entry(ps, ret, ivar, fparams, iparams, w, r[w])
        }),
{
    let s = flat_ops(ps, ret, ivar, fparams, iparams, ps.len() as int);
    let r = smap(s);
    lemma_flat_ops(ps, ret, ivar, fparams, iparams, ps.len() as int);
    lemma_smap_from(s);
    assert forall|q: int, i: int|
        0 <= q < ps.len() && 0 <= i < fparams.len() && ps[q].0 != ret && #[trigger] is_substr(fparams[i].name@, ps[q].0)
            implies r.contains_key(iparams[i].name@) by {
        crate::ir::strmap::lemma_smap_dom(s, iparams[i].name@);
    }
    assert forall|q: int| 0 <= q < ps.len() && #[trigger] ps[q].0 == ret implies r.contains_key(ivar) by {
        crate::ir::strmap::lemma_smap_dom(s, ivar);
    }
    assert forall|w: Seq<char>| #[trigger] r.contains_key(w) implies renames_entry(ps, ret, ivar, fparams, iparams, w, r[w]) by {
        let t = choose|t: int| 0 <= t < s.len() && s[t] == (w, r[w]);
        assert(renames_entry(ps, ret, ivar, fparams, iparams, s[t].0, s[t].1));
    }
}

impl Context {
    /// The fusion call `e` can be derived: the function it calls has
    /// parameters and instructions and can be enumerated, and the call has
    /// one operand per parameter and a cached derivation.
    pub open spec fn fusion_entry_ok(&self, e: (InstPos, usize)) -> bool {
        let c = e.1 as int;
        let pos = e.0;
        &&& 0 <= c < self.ast.functions@.len()
        &&& self.placed(c)
        &&& self.fusion_calls_ok(c)
        &&& self.params_placed(c, self.ast.functions@[c].params@)
        &&& self.ast.functions@[c].params@.len() > 0
        &&& self.ast.functions@[c].body@.len() > 0
        &&& pos.0 < self.ast.functions@.len()
        &&& pos.1 < self.ast.functions@[pos.0 as int].body@.len()
        &&& self.ast.functions@[pos.0 as int].body@[pos.1 as int].function.params matches Some(ip)
            && ip@.len() == self.ast.functions@[c].params@.len()
        &&& table_has(self.derive@, pos.0 as int, pos.1 as int)
    }

    /// The renaming of the solution `m` of the function that the fusion
    /// call `e` calls, to the call's operands and result.
    pub open spec fn fusion_flat(&self, e: (InstPos, usize), m: ConstraintMap) -> Map<Seq<char>, i8> {
        let fc = self.ast.functions@[e.1 as int];
        let inst = self.ast.functions@[e.0.0 as int].body@[e.0.1 as int];
        smap(
            flat_ops(
                cpairs(m),
                fc.body@[fc.body@.len() - 1].var_name@,
                inst.var_name@,
                fc.params@,
                inst.function.params->Some_0@,
                cpairs(m).len() as int,
            ),
        )
    }

    /// The solutions of the function that the fusion call `e` calls.
    pub open spec fn fusion_sols(&self, e: (InstPos, usize)) -> Seq<CMap> {
        let c = e.1 as int;
        self.remt(c, self.ast.functions@[c].params@, 0, Map::empty(), Seq::empty(), false, 0).0
    }

    /// The split map `x` renames some representation of the solution `sol`
    /// for the fusion call `e`.
    pub open spec fn renames(&self, e: (InstPos, usize), x: Map<Seq<char>, i8>, sol: CMap) -> bool {
        exists|m: ConstraintMap| #![trigger self.fusion_flat(e, m)] cview(m@) == sol && x == self.fusion_flat(e, m)
    }

    /// The derivation `maps` of the fusion call `e`: one split map per
    /// solution of the called function, in order, each the renaming of that
    /// solution to the call's operands and result.
    pub open spec fn fusion_patch_ok(&self, e: (InstPos, usize), maps: Seq<Map<Seq<char>, i8>>) -> bool {
        &&& maps.len() == self.fusion_sols(e).len()
        &&& forall|u: int| 0 <= u < maps.len() ==> self.renames(e, #[trigger] maps[u], self.fusion_sols(e)[u])
    }

    /// The derivation of the fusion call `e`.
    fn fusion_patch(&self, e: (InstPos, usize)) -> (r: Vec<SplitMap>)
        requires
            self.fusion_entry_ok(e),
        ensures
            self.fusion_patch_ok(e, views(r@)),
    {
        let (pos, callee) = e;
        let fc = &self.ast.functions[callee];
        let inst = &self.ast.functions[pos.0].body[pos.1];
        let iparams = match &inst.function.params {
            Some(p) => p,
            None => {
                assert(false);
                return Vec::new();
            },
        };
        let ret = fc.body[fc.body.len() - 1].var_name.as_str();
        assert(iparams@ == inst.function.params->Some_0@);
        let ghost sols_spec = self.remt(callee as int, fc.params@, 0, Map::empty(), Seq::empty(), false, 0).0;
        let sols = match self.propagate_fn(callee) {
            Ok(v) => v,
            Err(_) => {
                assert(false);
                return Vec::new();
            },
        };
        proof {
            crate::ir::propagate::laws::lemma_empty_good();
            self.law_remt(callee as int, fc.params@, 0, Map::empty(), Seq::empty(), false, 0);
        }
        let mut out: Vec<SplitMap> = Vec::new();
        let n = sols.len();
        let mut u: usize = 0;
        while u < n
            invariant
                n == sols@.len(),
                vview(sols@) == sols_spec,
                sols_spec == self.remt(callee as int, fc.params@, 0, Map::empty(), Seq::empty(), false, 0).0,
                forall|t: int| 0 <= t < sols_spec.len() ==> solution_good(#[trigger] sols_spec[t], fc.params@, 0, Map::empty()),
                u <= n,
                out@.len() == u,
                fc.params@.len() <= iparams@.len(),
                sols_spec == self.fusion_sols(e),
                forall|t: int| 0 <= t < u ==> self.renames(e, #[trigger] views(out@)[t], self.fusion_sols(e)[t]),
                ret@ == fc.body@[fc.body@.len() - 1].var_name@,
                iparams@ == inst.function.params->Some_0@,
                *fc == self.ast.functions@[e.1 as int],
                *inst == self.ast.functions@[e.0.0 as int].body@[e.0.1 as int],
            decreases n - u,
        {
            assert(cview(sols@[u as int]@) == sols_spec[u as int]);
            assert(solution_good(sols_spec[u as int], fc.params@, 0, Map::empty()));
            let fm = flatten_one(&sols[u], ret, inst.var_name.as_str(), &fc.params, iparams);
            let ghost before = out@;
            out.push(fm);
            proof {
                let w = sols@[u as int];
                assert(fm@ == self.fusion_flat(e, w));
                assert forall|t: int| 0 <= t < u + 1 implies self.renames(e, #[trigger] views(out@)[t], self.fusion_sols(e)[t]) by {
                    if t < u {
                        assert(views(out@)[t] == views(before)[t]);
                    } else {
                        assert(views(out@)[t] == fm@);
                        assert(cview(w@) == self.fusion_sols(e)[t]);
                        assert(self.fusion_flat(e, w) == fm@);
                    }
                }
            }
            u = u + 1;
        }
        assert(views(out@).len() == sols_spec.len());
        out
    }

    /// Derives every fusion call of function `func_id` from the solutions
    /// of the function it calls, puts those derivations in the table, and
    /// gives them back.
    pub fn update_fusion_derive_cache(&mut self, func_id: usize) -> (r: Result<Vec<(InstPos, Vec<SplitMap>)>, PropagationError>)
        requires
            old(self).fusion_ok(func_id as int),
            forall|t: int|
                0 <= t < old(self).fusion_list(func_id as int, old(self).ast.functions@[func_id as int].body@.len() as int).len()
                    ==> old(self).fusion_entry_ok(
                    #[trigger] old(self).fusion_list(func_id as int, old(self).ast.functions@[func_id as int].body@.len() as int)[t],
                ),
        ensures
            final(self).ast == old(self).ast,
            r matches Ok(patch) && {
                let fl = old(self).fusion_list(func_id as int, old(self).ast.functions@[func_id as int].body@.len() as int);
                &&& patch@.len() == fl.len()
                &&& forall|t: int|
                    0 <= t < fl.len() ==> #[trigger] patch@[t].0 == fl[t].0 && old(self).fusion_patch_ok(fl[t], views(patch@[t].1@))
                &&& tview(final(self).derive@) == patch_table(tview(old(self).derive@), patch_view(patch@), patch@.len() as int)
            },
    {
        let fl = self.get_fusion_list(func_id)?;
        let ghost fls = fl@;
        let mut patch: Vec<(InstPos, Vec<SplitMap>)> = Vec::new();
        let n = fl.len();
        let mut t: usize = 0;
        while t < n
            invariant
                n == fl@.len(),
                fls == fl@,
                fls == self.fusion_list(func_id as int, self.ast.functions@[func_id as int].body@.len() as int),
                forall|t: int| 0 <= t < fls.len() ==> self.fusion_entry_ok(#[trigger] fls[t]),
                t <= n,
                patch@.len() == t,
                forall|w: int| 0 <= w < t ==> #[trigger] patch@[w].0 == fls[w].0 && self.fusion_patch_ok(fls[w], views(patch@[w].1@)),
            decreases n - t,
        {
            let maps = self.fusion_patch(fl[t]);
            let ghost before = patch@;
            patch.push((fl[t].0, maps));
            assert forall|w: int| 0 <= w < t + 1 implies #[trigger] patch@[w].0 == fls[w].0 && self.fusion_patch_ok(fls[w], views(patch@[w].1@)) by {
                if w < t {
                    assert(patch@[w] == before[w]);
                }
            }
            t = t + 1;
        }
        let ghost t0 = tview(self.derive@);
        let ghost pv = patch_view(patch@);
        assert forall|v: int| 0 <= v < n implies 0 <= #[trigger] pv[v].0.0 < t0.len() && pv[v].0.1 < t0[pv[v].0.0 as int].len() by {
            assert(pv[v].0 == fls[v].0);
            assert(self.fusion_entry_ok(fls[v]));
        }
        let mut table: Vec<Vec<Vec<SplitMap>>> = Vec::new();
        std::mem::swap(&mut table, &mut self.derive);
        let mut w: usize = 0;
        while w < n
            invariant
                n == patch@.len(),
                pv == patch_view(patch@),
                w <= n,
                tview(table@) == patch_table(t0, pv, w as int),
                tview(table@).len() == t0.len(),
                forall|f: int| 0 <= f < t0.len() ==> #[trigger] tview(table@)[f].len() == t0[f].len(),
                forall|v: int| 0 <= v < n ==> 0 <= #[trigger] pv[v].0.0 < t0.len() && pv[v].0.1 < t0[pv[v].0.0 as int].len(),
            decreases n - w,
        {
            let p = patch[w].0;
            assert(pv[w as int].0 == p);
            assert(tview(table@).len() == table@.len());
            assert(tview(table@)[p.0 as int].len() == table@[p.0 as int]@.len());
            let maps = crate::ir::derive::copy_maps(&patch[w].1);
            let ghost before = table@;
            let mut row = table.remove(p.0);
            row.set(p.1, maps);
            let ghost nrow = row;
            table.insert(p.0, row);
            assert(table@ =~= before.update(p.0 as int, nrow));
            assert(nrow@.map_values(|c: Vec<SplitMap>| views(c@)) =~= tview(before)[p.0 as int].update(p.1 as int, pv[w as int].1));
            assert(tview(table@) =~= tview(before).update(p.0 as int, tview(before)[p.0 as int].update(p.1 as int, pv[w as int].1)));
            assert(tview(table@) =~= patch_table(t0, pv, w + 1));
            w = w + 1;
        }
        std::mem::swap(&mut table, &mut self.derive);
        Ok(patch)
    }
}

} // verus!
