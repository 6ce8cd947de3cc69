//! The propagation context: a module with the derivation of each of its
//! instructions, and the constraint maps that propagation works on.
use vstd::prelude::*;
use crate::ir::derive::{Derivation, all_derivable, spec_table, table_has, tview};
use crate::ir::error::DeriveError;
use crate::ir::hlo_ast::{HLORoot, any_cached};
use crate::ir::split::SplitMap;
use crate::ir::strmap::{StrMap, keys_unique, pairs_view, smap};

verus! {

/// A constraint map: for each variable, the dimensions it may still be
/// split along, without repetition.
pub type ConstraintMap = StrMap<Vec<i8>>;

/// A split map given as its `(name, dimension)` pairs, in order.
pub type Pairs = Seq<(Seq<char>, i8)>;

/// The plain view of a constraint map.
pub type CMap = Map<Seq<char>, Seq<i8>>;

/// The plain view of the map of a constraint map.
pub open spec fn cview(m: Map<Seq<char>, Vec<i8>>) -> CMap {
    m.map_values(|v: Vec<i8>| v@)
}

/// The derivation table with each split map given as its pairs.
pub open spec fn pview(t: Seq<Vec<Vec<SplitMap>>>) -> Seq<Seq<Seq<Pairs>>> {
    t.map_values(
        |row: Vec<Vec<SplitMap>>|
            row@.map_values(|c: Vec<SplitMap>| c@.map_values(|m: SplitMap| m.pairs())),
    )
}

/// The elements of `s` that `t` holds, in the order of `s`.
pub open spec fn keep_in(s: Seq<i8>, t: Seq<i8>) -> Seq<i8>
    decreases s.len(),
{
    if s.len() == 0 {
        s
    } else {
        let r = keep_in(s.drop_last(), t);
        if t.contains(s.last()) {
            r.push(s.last())
        } else {
            r
        }
    }
}

/// Whether `t` holds `x`.
pub fn contains_i8(t: &Vec<i8>, x: i8) -> (r: bool)
    ensures
        r == t@.contains(x),
{
    let n = t.len();
    let mut i: usize = 0;
    while i < n
        invariant
            n == t@.len(),
            i <= n,
            forall|k: int| 0 <= k < i ==> t@[k] != x,
        decreases n - i,
    {
        if t[i] == x {
            assert(t@[i as int] == x);
            return true;
        }
        i = i + 1;
    }
    false
}

/// The elements of `s` that `t` holds, in the order of `s`.
pub fn keep_in_exec(s: &Vec<i8>, t: &Vec<i8>) -> (r: Vec<i8>)
    ensures
        r@ == keep_in(s@, t@),
{
    let mut r: Vec<i8> = Vec::new();
    let n = s.len();
    let mut i: usize = 0;
    while i < n
        invariant
            n == s@.len(),
            i <= n,
            r@ == keep_in(s@.take(i as int), t@),
        decreases n - i,
    {
        assert(s@.take(i + 1).drop_last() =~= s@.take(i as int));
        if contains_i8(t, s[i]) {
            r.push(s[i]);
        }
        i = i + 1;
    }
    assert(s@.take(n as int) =~= s@);
    r
}

/// A copy of a list of dimensions.
pub fn copy_i8s(v: &Vec<i8>) -> (r: Vec<i8>)
    ensures
        r@ == v@,
{
    let mut r: Vec<i8> = Vec::new();
    let n = v.len();
    let mut i: usize = 0;
    while i < n
        invariant
            n == v@.len(),
            i <= n,
            r@ == v@.take(i as int),
        decreases n - i,
    {
        r.push(v[i]);
        i = i + 1;
        assert(r@ =~= v@.take(i as int));
    }
    assert(v@.take(n as int) =~= v@);
    r
}

/// A copy of a constraint map.
pub fn copy_cmap(m: &ConstraintMap) -> (r: ConstraintMap)
    ensures
        cview(r@) == cview(m@),
{
    let es = m.entries();
    let ghost ps = pairs_view(es@);
    let mut r: ConstraintMap = StrMap::new();
    let n = es.len();
    let mut i: usize = 0;
    while i < n
        invariant
            n == es@.len(),
            ps == pairs_view(es@),
            i <= n,
            cview(r@) == cview(smap(ps.take(i as int))),
        decreases n - i,
    {
        let k = es[i].0.clone();
        let v = copy_i8s(&es[i].1);
        let ghost before = r@;
        r.insert(k, v);
        assert(ps.take(i + 1).drop_last() =~= ps.take(i as int));
        assert(ps.take(i + 1).last() == ps[i as int]);
        assert(smap(ps.take(i + 1)) == smap(ps.take(i as int)).insert(ps[i as int].0, ps[i as int].1));
        assert(r@ == before.insert(ps[i as int].0, v));
        assert(cview(r@) =~= cview(before).insert(ps[i as int].0, v@));
        assert(cview(smap(ps.take(i + 1))) =~= cview(smap(ps.take(i as int))).insert(ps[i as int].0, ps[i as int].1@));
        assert(cview(r@) =~= cview(smap(ps.take(i + 1))));
        i = i + 1;
    }
    assert(ps.take(n as int) =~= ps);
    r
}

/// Whether meeting `a` with `b` leaves every shared variable some
/// dimension.
pub open spec fn meet_ok(a: CMap, b: CMap) -> bool {
    forall|k: Seq<char>|
        a.contains_key(k) && b.contains_key(k) ==> #[trigger] keep_in(a[k], b[k]).len() > 0
}

/// The meet of `a` and `b`: a shared variable keeps the dimensions of `a`
/// that `b` also allows; any other variable keeps its own.
pub open spec fn meet(a: CMap, b: CMap) -> CMap {
    Map::new(
        |k: Seq<char>| a.contains_key(k) || b.contains_key(k),
        |k: Seq<char>|
            if a.contains_key(k) && b.contains_key(k) {
                keep_in(a[k], b[k])
            } else if a.contains_key(k) {
                a[k]
            } else {
                b[k]
            },
    )
}

/// Meets `a` with `b` in place, variable by variable in the order of `b`;
/// `false` when some shared variable is left without a dimension, and then
/// `a` holds the meet with the variables of `b` before that one.
pub fn intersect_with(a: &mut ConstraintMap, b: &ConstraintMap) -> (r: bool)
    ensures
        r == meet_ok(cview(old(a)@), cview(b@)),
        r ==> cview(final(a)@) == meet(cview(old(a)@), cview(b@)),
        !r ==> exists|i: int|
            0 <= i < b.pairs().len() && meet_ok(cview(old(a)@), cview(smap(b.pairs().take(i)))) && !meet_ok(
                cview(old(a)@),
                cview(smap(#[trigger] b.pairs().take(i + 1))),
            ) && cview(final(a)@) == meet(cview(old(a)@), cview(smap(b.pairs().take(i)))),
{
    let ghost a0 = cview(a@);
    assert(a0 == cview(old(a)@));
    let es = b.entries();
    let ghost ps = pairs_view(es@);
    let n = es.len();
    let mut i: usize = 0;
    while i < n
        invariant
            n == es@.len(),
            ps == pairs_view(es@),
            keys_unique(ps),
            smap(ps) == b@,
            a0 == cview(old(a)@),
            i <= n,
            ps == b.pairs(),
            meet_ok(a0, cview(smap(ps.take(i as int)))),
            cview(a@) == meet(a0, cview(smap(ps.take(i as int)))),
        decreases n - i,
    {
        let ghost pre = cview(smap(ps.take(i as int)));
        let ghost k = ps[i as int].0;
        assert(ps.take(i + 1).drop_last() =~= ps.take(i as int));
        assert(!pre.contains_key(k)) by {
            crate::ir::strmap::lemma_smap_dom(ps.take(i as int), k);
        }
        let key = es[i].0.as_str();
        assert(key@ == k);
        let ghost post = cview(smap(ps.take(i + 1)));
        assert(ps.take(i + 1).last() == ps[i as int]);
        assert(post =~= pre.insert(k, es@[i as int].1@));
        assert(cview(a@).contains_key(k) <==> a0.contains_key(k));
        assert(a0.contains_key(k) ==> a0[k] == cview(a@)[k]);
        proof {
            crate::ir::strmap::lemma_smap_unique_index(ps, i as int);
        }
        assert(cview(b@).contains_key(k) && cview(b@)[k] == es@[i as int].1@);
        let ghost before = cview(a@);
        let cur = a.get(key);
        match cur {
            Some(av) => {
                let nv = keep_in_exec(av, &es[i].1);
                if nv.len() == 0 {
                    assert(keep_in(a0[k], cview(b@)[k]).len() == 0);
                    assert(!meet_ok(a0, cview(b@)));
                    assert(!meet_ok(cview(old(a)@), cview(b@)));
                    assert(post.contains_key(k) && post[k] == es@[i as int].1@);
                    assert(!meet_ok(a0, post));
                    assert(ps == b.pairs());
                    return false;
                }
                a.insert(es[i].0.clone(), nv);
                assert(cview(a@) =~= before.insert(k, keep_in(a0[k], es@[i as int].1@)));
            },
            None => {
                let v = copy_i8s(&es[i].1);
                a.insert(es[i].0.clone(), v);
                assert(cview(a@) =~= before.insert(k, es@[i as int].1@));
            },
        }
        assert(meet(a0, post) =~= cview(a@));
        i = i + 1;
    }
    assert(ps.take(n as int) =~= ps);
    true
}

/// The elements of `s` that `t` lacks, in the order of `s`.
pub open spec fn keep_out(s: Seq<i8>, t: Seq<i8>) -> Seq<i8>
    decreases s.len(),
{
    if s.len() == 0 {
        s
    } else {
        let r = keep_out(s.drop_last(), t);
        if t.contains(s.last()) {
            r
        } else {
            r.push(s.last())
        }
    }
}

/// The elements of `s` that `t` lacks, in the order of `s`.
pub fn keep_out_exec(s: &Vec<i8>, t: &Vec<i8>) -> (r: Vec<i8>)
    ensures
        r@ == keep_out(s@, t@),
{
    let mut r: Vec<i8> = Vec::new();
    let n = s.len();
    let mut i: usize = 0;
    while i < n
        invariant
            n == s@.len(),
            i <= n,
            r@ == keep_out(s@.take(i as int), t@),
        decreases n - i,
    {
        assert(s@.take(i + 1).drop_last() =~= s@.take(i as int));
        if !contains_i8(t, s[i]) {
            r.push(s[i]);
        }
        i = i + 1;
    }
    assert(s@.take(n as int) =~= s@);
    r
}

/// The join of `a` and `b`: a shared variable keeps its dimensions in `a`
/// followed by those of `b` that `a` lacks; any other variable keeps its
/// own.
pub open spec fn join(a: CMap, b: CMap) -> CMap {
    Map::new(
        |k: Seq<char>| a.contains_key(k) || b.contains_key(k),
        |k: Seq<char>|
            if a.contains_key(k) && b.contains_key(k) {
                a[k] + keep_out(b[k], a[k])
            } else if a.contains_key(k) {
                a[k]
            } else {
                b[k]
            },
    )
}

/// Joins `b` into `a` in place: each variable of `b` gains the dimensions
/// that `b` allows it.
pub fn merge_with(a: &mut ConstraintMap, b: &ConstraintMap)
    ensures
        cview(final(a)@) == join(cview(old(a)@), cview(b@)),
{
    let ghost a0 = cview(a@);
    let es = b.entries();
    let ghost ps = pairs_view(es@);
    let n = es.len();
    let mut i: usize = 0;
    while i < n
        invariant
            n == es@.len(),
            ps == pairs_view(es@),
            keys_unique(ps),
            smap(ps) == b@,
            a0 == cview(old(a)@),
            i <= n,
            cview(a@) == join(a0, cview(smap(ps.take(i as int)))),
        decreases n - i,
    {
        let ghost pre = cview(smap(ps.take(i as int)));
        let ghost k = ps[i as int].0;
        assert(ps.take(i + 1).drop_last() =~= ps.take(i as int));
        assert(!pre.contains_key(k)) by {
            crate::ir::strmap::lemma_smap_dom(ps.take(i as int), k);
        }
        let key = es[i].0.as_str();
        assert(key@ == k);
        let ghost post = cview(smap(ps.take(i + 1)));
        assert(ps.take(i + 1).last() == ps[i as int]);
        assert(post =~= pre.insert(k, es@[i as int].1@));
        assert(cview(a@).contains_key(k) <==> a0.contains_key(k));
        assert(a0.contains_key(k) ==> a0[k] == cview(a@)[k]);
        let ghost before = cview(a@);
        let cur = a.get(key);
        match cur {
            Some(av) => {
                let mut nv = copy_i8s(av);
                let mut extra = keep_out_exec(&es[i].1, av);
                nv.append(&mut extra);
                a.insert(es[i].0.clone(), nv);
                assert(cview(a@) =~= before.insert(k, a0[k] + keep_out(es@[i as int].1@, a0[k])));
            },
            None => {
                let v = copy_i8s(&es[i].1);
                a.insert(es[i].0.clone(), v);
                assert(cview(a@) =~= before.insert(k, es@[i as int].1@));
            },
        }
        assert(join(a0, post) =~= cview(a@));
        i = i + 1;
    }
    assert(ps.take(n as int) =~= ps);
}

/// Whether the split map `p` splits `v` along `s`.
pub open spec fn split_matches(p: Pairs, v: Seq<char>, s: i8) -> bool {
    smap(p).contains_key(v) && smap(p)[v] == s
}

/// The split maps among the first `n` of `ds` that split `v` along `s`,
/// each with its index.
pub open spec fn match_hits(ds: Seq<Pairs>, v: Seq<char>, s: i8, n: int) -> Seq<(Pairs, int)>
    decreases n,
{
    if n <= 0 {
        Seq::empty()
    } else {
        let r = match_hits(ds, v, s, n - 1);
        if split_matches(ds[n - 1], v, s) {
            r.push((ds[n - 1], n - 1))
        } else {
            r
        }
    }
}

/// The plain view of a list of split maps with their indices.
pub open spec fn hits_view(r: Seq<(SplitMap, usize)>) -> Seq<(Pairs, int)> {
    r.map_values(|h: (SplitMap, usize)| (h.0.pairs(), h.1 as int))
}

/// A module together with the derivation of each of its instructions, by
/// position.
pub struct Context {
    pub ast: HLORoot,
    pub derive: Vec<Vec<Vec<SplitMap>>>,
}

impl Context {
    /// The context of `ast`, with every instruction derived.
    pub fn new(ast: HLORoot) -> (r: Context)
        requires
            any_cached(ast.inst_pos@),
            ast.functions@.len() > 0,
            all_derivable(ast.functions@),
        ensures
            r.ast == ast,
            tview(r.derive@) == spec_table(ast.functions@),
    {
        let t = {
            let d = Derivation::new_with_ast(&ast);
            assert(tview(d.derive_cache@).len() == d.derive_cache@.len());
            assert(spec_table(ast.functions@).len() == ast.functions@.len());
            d.cache_export()
        };
        match t {
            Ok(t) => Context { ast, derive: t },
            Err(_) => {
                assert(false);
                Context { ast, derive: Vec::new() }
            },
        }
    }

    /// The derived split maps of the instruction at `(func_id, inst_id)`
    /// that split `var_name` along `split`, each with its index; refused
    /// when the table does not hold the instruction.
    pub fn derive(&self, func_id: usize, inst_id: usize, var_name: &str, split: i8) -> (r: Result<
        Vec<(SplitMap, usize)>,
        DeriveError,
    >)
        ensures
            table_has(self.derive@, func_id as int, inst_id as int) ==> (r matches Ok(v) && hits_view(v@)
                == match_hits(
                pview(self.derive@)[func_id as int][inst_id as int],
                var_name@,
                split,
                pview(self.derive@)[func_id as int][inst_id as int].len() as int,
            )),
            !table_has(self.derive@, func_id as int, inst_id as int) ==> r matches Err(
                DeriveError::InstNotInCache(_),
            ),
    {
        let ds = Derivation::lookup(&self.derive, func_id, inst_id)?;
        let ghost dp = pview(self.derive@)[func_id as int][inst_id as int];
        assert(dp == ds@.map_values(|m: SplitMap| m.pairs()));
        let mut result: Vec<(SplitMap, usize)> = Vec::new();
        let n = ds.len();
        let mut i: usize = 0;
        while i < n
            invariant
                n == ds@.len(),
                dp == ds@.map_values(|m: SplitMap| m.pairs()),
                i <= n,
                hits_view(result@) == match_hits(dp, var_name@, split, i as int),
            decreases n - i,
        {
            proof {
                ds@[i as int].lemma_view_pairs();
            }
            let hit = match ds[i].get(var_name) {
                Some(x) => *x == split,
                None => false,
            };
            if hit {
                let ghost before = result@;
                result.push((ds[i].duplicate(), i));
                assert(hits_view(result@) =~= hits_view(before).push((dp[i as int], i as int)));
            }
            i = i + 1;
        }
        Ok(result)
    }
}

} // verus!
