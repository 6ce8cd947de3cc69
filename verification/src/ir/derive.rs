//! Split derivation: for each instruction, the list of ways its operands and
//! its result can be split consistently. Each way is a split map; `-1`
//! stands for replication.
use vstd::prelude::*;
use crate::ir::error::{DeriveError, DeriveErrorView};
use crate::ir::hlo_ast::{HLORoot, HLOFunction, Instruction, RichParam, has_meta_key, sv_dims, sv_meta_vec, sv_params};
use crate::ir::split::{SplitMap, add_keys, views};
use crate::ir::strmap::{pairs_view, smap};
use crate::ir::text::{owned, str_eq};

verus! {

/// The plain view of a derivation result.
pub type DView = Result<Seq<Map<Seq<char>, i8>>, DeriveErrorView>;

/// The plain view of an executable derivation result.
pub open spec fn dres_view(r: Result<Vec<SplitMap>, DeriveError>) -> DView {
    match r {
        Ok(v) => Ok(views(v@)),
        Err(e) => Err(e@),
    }
}

/// The result dimensions of `inst`, empty when absent.
pub open spec fn ret_dims_or_empty(inst: Instruction) -> Seq<i32> {
    match inst.function.return_types@[0].dimensions {
        Some(d) => d@,
        None => Seq::empty(),
    }
}

/// The dimensions of the operand `p`, empty when absent.
pub open spec fn dims_or_empty(p: RichParam) -> Seq<i32> {
    match p.param_type.dimensions {
        Some(d) => d@,
        None => Seq::empty(),
    }
}

/// The `d`-th entry of the dimension list `0, 1, ..., n-1, -1`, as a split.
pub open spec fn dim_at(n: int, d: int) -> i8 {
    if d < n {
        (d as i32) as i8
    } else {
        -1i8
    }
}

/// The pairs that give the result `v` and every operand of `ps` the split `x`.
pub open spec fn all_pairs(v: Seq<char>, ps: Seq<RichParam>, x: i8) -> Seq<(Seq<char>, i8)> {
    seq![(v, x)] + ps.map_values(|p: RichParam| (p.name@, x))
}

/// The indices `0, 1, ..., n-1` as `i32`.
pub open spec fn index_seq(n: int) -> Seq<i32> {
    Seq::new(n as nat, |i: int| i as i32)
}

/// The indices `0, 1, ..., n-1` as `i32`.
pub fn dims_index(n: usize) -> (r: Vec<i32>)
    requires
        n <= i32::MAX,
    ensures
        r@ == index_seq(n as int),
{
    let mut r: Vec<i32> = Vec::new();
    let mut i: usize = 0;
    while i < n
        invariant
            i <= n,
            n <= i32::MAX,
            r@ == index_seq(i as int),
        decreases n - i,
    {
        r.push(i as i32);
        i = i + 1;
        assert(r@ =~= index_seq(i as int));
    }
    r
}

/// The result dimensions of `inst`, empty when absent.
fn ret_dims(inst: &Instruction) -> (r: &[i32])
    requires
        inst.function.return_types@.len() > 0,
    ensures
        r@ == ret_dims_or_empty(*inst),
{
    match &inst.function.return_types[0].dimensions {
        Some(d) => d.as_slice(),
        None => &[],
    }
}

/// The pairs that give the result and every operand the split `x`.
fn pairs_all(v: &String, ps: &Vec<RichParam>, x: i8) -> (r: Vec<(String, i8)>)
    ensures
        pairs_view(r@) == all_pairs(v@, ps@, x),
{
    let mut r: Vec<(String, i8)> = Vec::new();
    r.push((v.clone(), x));
    let n = ps.len();
    let mut i: usize = 0;
    while i < n
        invariant
            n == ps@.len(),
            i <= n,
            pairs_view(r@) == all_pairs(v@, ps@.take(i as int), x),
        decreases n - i,
    {
        let ghost old_r = r@;
        r.push((ps[i].name.clone(), x));
        proof {
            assert(pairs_view(r@) =~= pairs_view(old_r).push((ps@[i as int].name@, x)));
            assert(all_pairs(v@, ps@.take(i + 1), x) =~= all_pairs(v@, ps@.take(i as int), x).push(
                (ps@[i as int].name@, x),
            ));
        }
        i = i + 1;
    }
    assert(ps@.take(n as int) =~= ps@);
    r
}

/// The split that replicates the result and every operand, as pairs.
pub open spec fn spec_replicate_split(inst: Instruction) -> Result<Seq<(Seq<char>, i8)>, DeriveErrorView> {
    match sv_params(inst) {
        Ok(ps) => Ok(all_pairs(inst.var_name@, ps, -1i8)),
        Err(e) => Err(e),
    }
}

/// Derivation that only replicates.
pub open spec fn spec_d_replicate(inst: Instruction) -> DView {
    match spec_replicate_split(inst) {
        Ok(p) => Ok(seq![smap(p)]),
        Err(e) => Err(e),
    }
}

/// Derivation of an instruction without operands to split along: the result
/// is split along each of its dimensions, or replicated.
pub open spec fn spec_d_identity(inst: Instruction) -> DView {
    let n = ret_dims_or_empty(inst).len() as int;
    Ok(Seq::new((n + 1) as nat, |d: int| smap(seq![(inst.var_name@, dim_at(n, d))])))
}

/// Whether every operand of `inst` has the result's shape.
pub open spec fn elem_shapes_agree(inst: Instruction) -> bool {
    inst.function.params matches Some(ps) ==> forall|i: int|
        0 <= i < ps@.len() ==> dims_or_empty(#[trigger] ps@[i]) == ret_dims_or_empty(inst)
}

/// Derivation of an elementwise instruction: all operands and the result are
/// split along the same dimension, or all replicated.
pub open spec fn spec_d_elem(inst: Instruction) -> DView {
    match sv_params(inst) {
        Ok(ps) => {
            let n = ret_dims_or_empty(inst).len() as int;
            Ok(Seq::new((n + 1) as nat, |d: int| smap(all_pairs(inst.var_name@, ps, dim_at(n, d)))))
        },
        Err(e) => Err(e),
    }
}

/// Derivations of the instructions of a module, computed ahead of time and
/// kept by position.
pub struct Derivation<'a> {
    pub lazy_cache: bool,
    /// The derivation of the instruction at `[f][j]`.
    pub derive_cache: Vec<Vec<Vec<SplitMap>>>,
    pub ast: Option<&'a HLORoot>,
}

impl<'a> Derivation<'a> {
    /// The split that replicates the result and every operand.
    pub fn replicate_split(inst: &Instruction) -> (r: Result<Vec<(String, i8)>, DeriveError>)
        ensures
            match r {
                Ok(p) => spec_replicate_split(*inst) == Ok::<Seq<(Seq<char>, i8)>, DeriveErrorView>(pairs_view(p@)),
                Err(e) => spec_replicate_split(*inst) == Err::<Seq<(Seq<char>, i8)>, DeriveErrorView>(e@),
            },
    {
        let params = inst.get_all_params()?;
        Ok(pairs_all(&inst.var_name, params, -1))
    }

    /// Derivation that only replicates.
    pub fn d_replicate(inst: &Instruction) -> (r: Result<Vec<SplitMap>, DeriveError>)
        ensures
            dres_view(r) == spec_d_replicate(*inst),
    {
        let mut result: Vec<SplitMap> = Vec::new();
        let rep = Self::replicate_split(inst)?;
        add_keys(&mut result, rep);
        assert(views(result@) =~= seq![smap(pairs_view(rep@))]);
        Ok(result)
    }

    /// Derivation of an instruction without operands to split along.
    pub fn d_identity(inst: &Instruction) -> (r: Result<Vec<SplitMap>, DeriveError>)
        requires
            inst.function.return_types@.len() > 0,
            ret_dims_or_empty(*inst).len() <= i32::MAX,
        ensures
            dres_view(r) == spec_d_identity(*inst),
    {
        let mut result: Vec<SplitMap> = Vec::new();
        let n = ret_dims(inst).len();
        let mut all_dims = dims_index(n);
        all_dims.push(-1);
        let ghost spec_r = spec_d_identity(*inst)->Ok_0;
        let m = all_dims.len();
        let mut i: usize = 0;
        while i < m
            invariant
                m == n + 1,
                n == ret_dims_or_empty(*inst).len(),
                n <= i32::MAX,
                all_dims@ == index_seq(n as int).push(-1i32),
                i <= m,
                spec_r == spec_d_identity(*inst)->Ok_0,
                views(result@) == spec_r.take(i as int),
            decreases m - i,
        {
            let d = all_dims[i];
            let mut kv: Vec<(String, i8)> = Vec::new();
            kv.push((inst.var_name.clone(), d as i8));
            add_keys(&mut result, kv);
            proof {
                assert(pairs_view(kv@) =~= seq![(inst.var_name@, dim_at(n as int, i as int))]);
            }
            i = i + 1;
            assert(views(result@) =~= spec_r.take(i as int));
        }
        assert(spec_r.take(m as int) =~= spec_r);
        Ok(result)
    }

    /// Derivation of an elementwise instruction.
    pub fn d_elem(inst: &Instruction) -> (r: Result<Vec<SplitMap>, DeriveError>)
        requires
            inst.function.return_types@.len() > 0,
            ret_dims_or_empty(*inst).len() <= i32::MAX,
            elem_shapes_agree(*inst),
        ensures
            dres_view(r) == spec_d_elem(*inst),
    {
        let params = inst.get_all_params()?;
        let mut result: Vec<SplitMap> = Vec::new();
        let n = ret_dims(inst).len();
        let mut all_dims = dims_index(n);
        all_dims.push(-1);
        let ghost spec_r = spec_d_elem(*inst)->Ok_0;
        let m = all_dims.len();
        let mut i: usize = 0;
        while i < m
            invariant
                m == n + 1,
                n == ret_dims_or_empty(*inst).len(),
                n <= i32::MAX,
                all_dims@ == index_seq(n as int).push(-1i32),
                inst.function.params == Some(*params),
                i <= m,
                spec_r == spec_d_elem(*inst)->Ok_0,
                views(result@) == spec_r.take(i as int),
            decreases m - i,
        {
            let d = all_dims[i];
            let kv = pairs_all(&inst.var_name, params, d as i8);
            add_keys(&mut result, kv);
            i = i + 1;
            assert(views(result@) =~= spec_r.take(i as int));
        }
        assert(spec_r.take(m as int) =~= spec_r);
        Ok(result)
    }
}

} // verus!

verus! {

/// The index of the first occurrence of `x` in `s` at or after `i`.
pub open spec fn first_pos_from(s: Seq<i32>, x: i32, i: int) -> Option<int>
    decreases s.len() - i,
{
    if i < 0 || i >= s.len() {
        None
    } else if s[i] == x {
        Some(i)
    } else {
        first_pos_from(s, x, i + 1)
    }
}

/// `first_pos_from` finds `x` exactly when it occurs at or after `i`.
pub proof fn lemma_first_pos_from(s: Seq<i32>, x: i32, i: int)
    requires
        0 <= i,
    ensures
        match first_pos_from(s, x, i) {
            Some(j) => i <= j < s.len() && s[j] == x,
            None => forall|l: int| i <= l < s.len() ==> s[l] != x,
        },
    decreases s.len() - i,
{
    if i < s.len() && s[i] != x {
        lemma_first_pos_from(s, x, i + 1);
    }
}

/// The index of the first occurrence of `x` in `s`.
pub fn first_pos(s: &[i32], x: i32) -> (r: Option<usize>)
    ensures
        r == (match first_pos_from(s@, x, 0) {
            Some(j) => Some(j as usize),
            None => None::<usize>,
        }),
        r is None <==> !s@.contains(x),
{
    let n = s.len();
    let mut i: usize = 0;
    while i < n
        invariant
            n == s@.len(),
            i <= n,
            first_pos_from(s@, x, 0) == first_pos_from(s@, x, i as int),
            forall|l: int| 0 <= l < i ==> s@[l] != x,
        decreases n - i,
    {
        if s[i] == x {
            return Some(i);
        }
        i = i + 1;
    }
    proof {
        lemma_first_pos_from(s@, x, n as int);
    }
    None
}

/// Whether `x` occurs in `s`.
pub fn contains_i32(s: &[i32], x: i32) -> (r: bool)
    ensures
        r == s@.contains(x),
{
    first_pos(s, x).is_some()
}

/// The number of entries of `s` below `d`.
pub open spec fn count_below(s: Seq<i32>, d: i32) -> int
    decreases s.len(),
{
    if s.len() == 0 {
        0
    } else {
        count_below(s.drop_last(), d) + (if s.last() < d { 1int } else { 0int })
    }
}

/// `count_below` is at most the length.
pub proof fn lemma_count_below_len(s: Seq<i32>, d: i32)
    ensures
        0 <= count_below(s, d) <= s.len(),
    decreases s.len(),
{
    if s.len() > 0 {
        lemma_count_below_len(s.drop_last(), d);
    }
}

/// The operand names of `inst`, which has at least `k` operands.
pub open spec fn pname(inst: Instruction, k: int) -> Seq<char> {
    inst.function.params->0@[k].name@
}

/// Whether `inst` has exactly `k` operands.
pub open spec fn has_param_len(inst: Instruction, k: int) -> bool {
    inst.function.params matches Some(ps) && ps@.len() == k
}

/// Whether `inst` has meta data with the key `key`.
pub open spec fn has_key(inst: Instruction, key: Seq<char>) -> bool {
    inst.meta matches Some(m) && has_meta_key(m@, key)
}

/// The splits of a transpose of `inst`: each operand dimension maps to its
/// place in the permutation.
pub open spec fn spec_d_transpose(inst: Instruction) -> DView {
    match sv_meta_vec(inst, "dimensions"@) {
        Err(e) => Err(e),
        Ok(td) => {
            let ps = inst.function.params->0@;
            let n = dims_or_empty(ps[0]).len() as int;
            Ok(
                Seq::new(
                    n as nat,
                    |d: int|
                        smap(
                            seq![
                                (inst.var_name@, first_pos_from(td, d as i32, 0)->0 as i8),
                                (ps[0].name@, (d as i32) as i8),
                            ],
                        ),
                ).push(smap(all_pairs(inst.var_name@, ps, -1i8))),
            )
        },
    }
}

/// What a transpose needs of `inst` to be derived without failing an
/// assertion.
pub open spec fn transpose_ok(inst: Instruction) -> bool {
    &&& has_param_len(inst, 1)
    &&& has_key(inst, "dimensions"@)
    &&& dims_or_empty(inst.function.params->0@[0]).len() <= i32::MAX
    &&& sv_meta_vec(inst, "dimensions"@) matches Ok(td) ==> {
        &&& td.len() == dims_or_empty(inst.function.params->0@[0]).len()
        &&& forall|d: int|
            0 <= d < td.len() ==> #[trigger] td.contains(d as i32)
    }
}

/// The splits of a reduce of `inst`: a reduced dimension of the operand
/// gives a replicated result; another keeps its place among the dimensions
/// that are not reduced.
pub open spec fn spec_d_reduce(inst: Instruction) -> DView {
    match sv_meta_vec(inst, "dimensions"@) {
        Err(e) => Err(e),
        Ok(rd) => {
            let ps = inst.function.params->0@;
            let n = dims_or_empty(ps[0]).len() as int;
            Ok(
                Seq::new(
                    n as nat,
                    |d: int|
                        smap(
                            seq![
                                (inst.var_name@, if rd.contains(d as i32) {
                                    -1i8
                                } else {
                                    ((d - count_below(rd, d as i32)) as i32) as i8
                                }),
                                (ps[0].name@, (d as i32) as i8),
                                (ps[1].name@, -1i8),
                            ],
                        ),
                ).push(smap(all_pairs(inst.var_name@, ps, -1i8))),
            )
        },
    }
}

/// What a reduce needs of `inst` to be derived without failing an
/// assertion.
pub open spec fn reduce_ok(inst: Instruction) -> bool {
    &&& has_param_len(inst, 2)
    &&& has_key(inst, "dimensions"@)
    &&& dims_or_empty(inst.function.params->0@[0]).len() <= i32::MAX
    &&& sv_meta_vec(inst, "dimensions"@) matches Ok(rd) ==> rd.len() <= i32::MAX
}

/// A split map of two pairs.
fn kv2(a: &String, x: i8, b: &String, y: i8) -> (r: Vec<(String, i8)>)
    ensures
        pairs_view(r@) == seq![(a@, x), (b@, y)],
{
    let mut r: Vec<(String, i8)> = Vec::new();
    r.push((a.clone(), x));
    r.push((b.clone(), y));
    assert(pairs_view(r@) =~= seq![(a@, x), (b@, y)]);
    r
}

/// A split map of three pairs.
fn kv3(a: &String, x: i8, b: &String, y: i8, c: &String, z: i8) -> (r: Vec<(String, i8)>)
    ensures
        pairs_view(r@) == seq![(a@, x), (b@, y), (c@, z)],
{
    let mut r = kv2(a, x, b, y);
    let ghost old_r = r@;
    r.push((c.clone(), z));
    assert(pairs_view(r@) =~= pairs_view(old_r).push((c@, z)));
    assert(pairs_view(r@) =~= seq![(a@, x), (b@, y), (c@, z)]);
    r
}

/// A split map of four pairs.
fn kv4(a: &String, x: i8, b: &String, y: i8, c: &String, z: i8, e: &String, w: i8) -> (r: Vec<(String, i8)>)
    ensures
        pairs_view(r@) == seq![(a@, x), (b@, y), (c@, z), (e@, w)],
{
    let mut r = kv3(a, x, b, y, c, z);
    let ghost old_r = r@;
    r.push((e.clone(), w));
    assert(pairs_view(r@) =~= pairs_view(old_r).push((e@, w)));
    assert(pairs_view(r@) =~= seq![(a@, x), (b@, y), (c@, z), (e@, w)]);
    r
}

impl<'a> Derivation<'a> {
    /// Derivation of a transpose.
    pub fn d_transpose(inst: &Instruction) -> (r: Result<Vec<SplitMap>, DeriveError>)
        requires
            transpose_ok(*inst),
        ensures
            dres_view(r) == spec_d_transpose(*inst),
    {
        let transpose_dims = inst.get_meta_vec(&owned("dimensions"))?;
        let param = inst.get_param(0)?;
        let n = match &param.param_type.dimensions {
            Some(d) => d.len(),
            None => 0,
        };
        let all_dims = dims_index(n);
        let ghost spec_r = spec_d_transpose(*inst)->Ok_0;
        let mut result: Vec<SplitMap> = Vec::new();
        let mut i: usize = 0;
        while i < n
            invariant
                n == dims_or_empty(inst.function.params->0@[0]).len(),
                all_dims@ == index_seq(n as int),
                *param == inst.function.params->0@[0],
                sv_meta_vec(*inst, "dimensions"@) == Ok::<Seq<i32>, DeriveErrorView>(transpose_dims@),
                transpose_ok(*inst),
                i <= n,
                spec_r == spec_d_transpose(*inst)->Ok_0,
                views(result@) == spec_r.take(i as int),
            decreases n - i,
        {
            let d = all_dims[i];
            assert(transpose_dims@.contains(d));
            let pos = first_pos(transpose_dims.as_slice(), d).unwrap();
            let kv = kv2(&inst.var_name, pos as i8, &param.name, d as i8);
            proof {
                let td = transpose_dims@;
                lemma_first_pos_from(td, d, 0);
                assert(pos as int == first_pos_from(td, d, 0)->0);
                assert(d == (i as int) as i32);
                assert(pairs_view(kv@) == seq![
                    (inst.var_name@, first_pos_from(td, (i as int) as i32, 0)->0 as i8),
                    (inst.function.params->0@[0].name@, ((i as int) as i32) as i8),
                ]);
            }
            assert(spec_r[i as int] == smap(pairs_view(kv@)));
            add_keys(&mut result, kv);
            i = i + 1;
            assert(views(result@) =~= spec_r.take(i as int));
        }
        let rep = Self::replicate_split(inst)?;
        add_keys(&mut result, rep);
        assert(views(result@) =~= spec_r);
        Ok(result)
    }

    /// Derivation of a reduce.
    pub fn d_reduce(inst: &Instruction) -> (r: Result<Vec<SplitMap>, DeriveError>)
        requires
            reduce_ok(*inst),
        ensures
            dres_view(r) == spec_d_reduce(*inst),
    {
        let reduce_dims = inst.get_meta_vec(&owned("dimensions"))?;
        let params = inst.get_all_params()?;
        let n = match &params[0].param_type.dimensions {
            Some(d) => d.len(),
            None => 0,
        };
        let all_dims = dims_index(n);
        let ghost spec_r = spec_d_reduce(*inst)->Ok_0;
        let mut result: Vec<SplitMap> = Vec::new();
        let mut i: usize = 0;
        while i < n
            invariant
                n == dims_or_empty(inst.function.params->0@[0]).len(),
                all_dims@ == index_seq(n as int),
                inst.function.params == Some(*params),
                params@.len() == 2,
                sv_meta_vec(*inst, "dimensions"@) == Ok::<Seq<i32>, DeriveErrorView>(reduce_dims@),
                reduce_dims@.len() <= i32::MAX,
                i <= n,
                n <= i32::MAX,
                spec_r == spec_d_reduce(*inst)->Ok_0,
                views(result@) == spec_r.take(i as int),
            decreases n - i,
        {
            let d = all_dims[i];
            let v: i8;
            if contains_i32(reduce_dims.as_slice(), d) {
                v = -1;
            } else {
                let mut split_dim: i32 = d;
                let m = reduce_dims.len();
                let mut k: usize = 0;
                while k < m
                    invariant
                        m == reduce_dims@.len(),
                        m <= i32::MAX,
                        k <= m,
                        0 <= d,
                        split_dim == d - count_below(reduce_dims@.take(k as int), d),
                    decreases m - k,
                {
                    proof {
                        lemma_count_below_len(reduce_dims@.take(k as int), d);
                        assert(reduce_dims@.take(k + 1).drop_last() =~= reduce_dims@.take(k as int));
                    }
                    if reduce_dims[k] < d {
                        split_dim = split_dim - 1;
                    }
                    k = k + 1;
                }
                assert(reduce_dims@.take(m as int) =~= reduce_dims@);
                v = split_dim as i8;
            }
            add_keys(&mut result, kv3(&inst.var_name, v, &params[0].name, d as i8, &params[1].name, -1));
            i = i + 1;
            assert(views(result@) =~= spec_r.take(i as int));
        }
        let rep = Self::replicate_split(inst)?;
        add_keys(&mut result, rep);
        assert(views(result@) =~= spec_r);
        Ok(result)
    }
}

} // verus!

verus! {

/// The splits along the first `k` operand dimensions that are not
/// concatenated, each splitting the result and every operand alike.
pub open spec fn concat_maps(v: Seq<char>, ps: Seq<RichParam>, cd: Seq<i32>, k: int) -> Seq<Map<Seq<char>, i8>>
    decreases k,
{
    if k <= 0 {
        Seq::empty()
    } else {
        let prev = concat_maps(v, ps, cd, k - 1);
        if !cd.contains((k - 1) as i32) {
            prev.push(smap(all_pairs(v, ps, ((k - 1) as i32) as i8)))
        } else {
            prev
        }
    }
}

/// The splits of a concatenation: along every dimension that is not
/// concatenated, plus replication.
pub open spec fn spec_d_concat(inst: Instruction) -> DView {
    match sv_meta_vec(inst, "dimensions"@) {
        Err(e) => Err(e),
        Ok(cd) => match sv_params(inst) {
            Err(e) => Err(e),
            Ok(ps) => Ok(
                concat_maps(inst.var_name@, ps, cd, dims_or_empty(ps[0]).len() as int).push(
                    smap(all_pairs(inst.var_name@, ps, -1i8)),
                ),
            ),
        },
    }
}

/// What a concatenation needs of `inst` to be derived without failing an
/// assertion.
pub open spec fn concat_ok(inst: Instruction) -> bool {
    &&& has_key(inst, "dimensions"@)
    &&& inst.function.params matches Some(ps) ==> {
        &&& ps@.len() >= 1
        &&& dims_or_empty(ps@[0]).len() <= i32::MAX
    }
}

/// The broadcast dimensions of `inst`, empty when they cannot be read.
pub open spec fn broadcast_dims(inst: Instruction) -> Seq<i32> {
    match sv_meta_vec(inst, "dimensions"@) {
        Ok(l) => l,
        Err(_) => Seq::empty(),
    }
}

/// The splits of a broadcast: a result dimension that comes from the operand
/// splits the operand along its source dimension; another one replicates the
/// operand.
pub open spec fn spec_d_broadcast(inst: Instruction) -> DView {
    match inst.function.return_types@[0].dimensions {
        None => Err(DeriveErrorView::OptionNone("inst.fn.return_type.dimensions"@)),
        Some(od) => {
            let sd = broadcast_dims(inst);
            let ps = inst.function.params->0@;
            Ok(
                Seq::new(
                    od@.len(),
                    |d: int|
                        smap(
                            seq![
                                (inst.var_name@, (d as i32) as i8),
                                (ps[0].name@, if sd.contains(d as i32) {
                                    first_pos_from(sd, d as i32, 0)->0 as i8
                                } else {
                                    -1i8
                                }),
                            ],
                        ),
                ).push(smap(all_pairs(inst.var_name@, ps, -1i8))),
            )
        },
    }
}

/// What a broadcast needs of `inst` to be derived without failing an
/// assertion.
pub open spec fn broadcast_ok(inst: Instruction) -> bool {
    &&& has_param_len(inst, 1)
    &&& has_key(inst, "dimensions"@)
    &&& inst.function.return_types@.len() > 0
    &&& dims_or_empty(inst.function.params->0@[0]).len() == broadcast_dims(inst).len()
    &&& ret_dims_or_empty(inst).len() <= i32::MAX
}

/// The splits along the first `k` dimensions that padding or slicing keep,
/// each splitting the operand and the result alike (a padding value is
/// replicated).
pub open spec fn pad_slice_maps(v: Seq<char>, ps: Seq<RichParam>, pd: Seq<i32>, od: Seq<i32>, k: int) -> Seq<Map<Seq<char>, i8>>
    decreases k,
{
    if k <= 0 {
        Seq::empty()
    } else {
        let prev = pad_slice_maps(v, ps, pd, od, k - 1);
        let d = ((k - 1) as i32) as i8;
        if pd[k - 1] == od[k - 1] {
            let pairs = seq![(ps[0].name@, d), (v, d)];
            prev.push(smap(if ps.len() == 2 { pairs.push((ps[1].name@, -1i8)) } else { pairs }))
        } else {
            prev
        }
    }
}

/// The splits of a pad or a slice: along every dimension whose size is
/// kept, plus replication.
pub open spec fn spec_d_pad_slice(inst: Instruction) -> DView {
    let ps = inst.function.params->0@;
    match sv_dims(ps[0]) {
        Err(e) => Err(e),
        Ok(pd) => match inst.function.return_types@[0].dimensions {
            None => Err(DeriveErrorView::OptionNone("inst.fn.return_type.dimensions"@)),
            Some(od) => Ok(
                pad_slice_maps(inst.var_name@, ps, pd, od@, od@.len() as int).push(
                    smap(all_pairs(inst.var_name@, ps, -1i8)),
                ),
            ),
        },
    }
}

/// What a pad or slice needs of `inst` to be derived without failing an
/// assertion.
pub open spec fn pad_slice_ok(inst: Instruction) -> bool {
    &&& (inst.function.name@ == "pad"@ && has_param_len(inst, 2)) || (inst.function.name@
        == "slice"@ && has_param_len(inst, 1))
    &&& inst.function.return_types@.len() > 0
    &&& ret_dims_or_empty(inst).len() <= i32::MAX
    &&& sv_dims(inst.function.params->0@[0]) matches Ok(pd) ==> (
    inst.function.return_types@[0].dimensions matches Some(od) ==> pd.len() == od@.len())
}

/// The splits of a padded `where`: the operand and the result split along
/// their first dimension, plus replication.
pub open spec fn spec_d_padded_where(inst: Instruction) -> DView {
    let ps = inst.function.params->0@;
    match sv_dims(ps[0]) {
        Err(e) => Err(e),
        Ok(_) => Ok(
            seq![
                smap(seq![(inst.var_name@, 0i8), (ps[0].name@, 0i8)]),
                smap(all_pairs(inst.var_name@, ps, -1i8)),
            ],
        ),
    }
}

/// What a padded `where` needs of `inst` to be derived without failing an
/// assertion.
pub open spec fn padded_where_ok(inst: Instruction) -> bool {
    &&& has_param_len(inst, 1)
    &&& sv_dims(inst.function.params->0@[0]) matches Ok(pd) ==> pd.len() == 1
    &&& inst.function.return_types@.len() > 0
    &&& ret_dims_or_empty(inst).len() == 2
}

/// The splits of a gather of a two-dimensional table by indices.
pub open spec fn spec_d_gather(inst: Instruction) -> DView {
    let ps = inst.function.params->0@;
    let v = inst.var_name@;
    match sv_dims(ps[0]) {
        Err(e) => Err(e),
        Ok(_) => match sv_meta_vec(inst, "offset_dims"@) {
            Err(e) => Err(e),
            Ok(od) => Ok(
                seq![
                    smap(seq![(ps[0].name@, 1i8), (ps[1].name@, -1i8), (v, od[0] as i8)]),
                    smap(seq![(ps[0].name@, 0i8), (ps[1].name@, -1i8), (v, -1i8)]),
                    smap(seq![(ps[1].name@, 0i8), (ps[0].name@, 0i8), (v, 0i8)]),
                    smap(seq![(ps[1].name@, -1i8), (ps[0].name@, 1i8), (v, 1i8)]),
                    smap(all_pairs(v, ps, -1i8)),
                ],
            ),
        },
    }
}

/// What a gather needs of `inst` to be derived without failing an
/// assertion.
pub open spec fn gather_ok(inst: Instruction) -> bool {
    &&& has_param_len(inst, 2)
    &&& has_key(inst, "offset_dims"@)
    &&& sv_dims(inst.function.params->0@[0]) matches Ok(pd) ==> {
        &&& pd.len() == 2
        &&& sv_meta_vec(inst, "offset_dims"@) matches Ok(od) ==> od.len() == 1
    }
}

/// The splits of a scatter into a two-dimensional table.
pub open spec fn spec_d_scatter(inst: Instruction) -> DView {
    let ps = inst.function.params->0@;
    let v = inst.var_name@;
    match sv_dims(ps[0]) {
        Err(e) => Err(e),
        Ok(_) => match sv_dims(ps[2]) {
            Err(e) => Err(e),
            Ok(_) => Ok(
                seq![
                    smap(seq![(ps[0].name@, 0i8), (ps[1].name@, -1i8), (ps[2].name@, -1i8), (v, 0i8)]),
                    smap(seq![(ps[0].name@, 1i8), (ps[1].name@, -1i8), (ps[2].name@, 1i8), (v, 1i8)]),
                    smap(seq![(ps[1].name@, -1i8), (ps[0].name@, 0i8), (ps[2].name@, 0i8), (v, 0i8)]),
                    smap(seq![(ps[2].name@, 1i8), (ps[0].name@, 1i8), (ps[1].name@, -1i8), (v, 1i8)]),
                    smap(seq![(ps[2].name@, -1i8), (ps[0].name@, 0i8), (ps[1].name@, -1i8), (v, 0i8)]),
                    smap(all_pairs(v, ps, -1i8)),
                ],
            ),
        },
    }
}

/// What a scatter needs of `inst` to be derived without failing an
/// assertion.
pub open spec fn scatter_ok(inst: Instruction) -> bool {
    &&& has_param_len(inst, 3)
    &&& sv_dims(inst.function.params->0@[0]) matches Ok(pd) ==> {
        &&& pd.len() == 2
        &&& sv_dims(inst.function.params->0@[2]) matches Ok(qd) ==> qd.len() == 2
    }
}

impl<'a> Derivation<'a> {
    /// Derivation of a concatenation.
    pub fn d_concat(inst: &Instruction) -> (r: Result<Vec<SplitMap>, DeriveError>)
        requires
            concat_ok(*inst),
        ensures
            dres_view(r) == spec_d_concat(*inst),
    {
        let concat_dims = inst.get_meta_vec(&owned("dimensions"))?;
        let params = inst.get_all_params()?;
        let n = match &params[0].param_type.dimensions {
            Some(d) => d.len(),
            None => 0,
        };
        let all_dims = dims_index(n);
        let mut result: Vec<SplitMap> = Vec::new();
        let mut i: usize = 0;
        while i < n
            invariant
                n == dims_or_empty(params@[0]).len(),
                n <= i32::MAX,
                all_dims@ == index_seq(n as int),
                inst.function.params == Some(*params),
                i <= n,
                views(result@) == concat_maps(inst.var_name@, params@, concat_dims@, i as int),
            decreases n - i,
        {
            let d = all_dims[i];
            if !contains_i32(concat_dims.as_slice(), d) {
                add_keys(&mut result, pairs_all(&inst.var_name, params, d as i8));
            }
            i = i + 1;
        }
        let rep = Self::replicate_split(inst)?;
        add_keys(&mut result, rep);
        Ok(result)
    }

    /// Derivation of a broadcast.
    pub fn d_broadcast(inst: &Instruction) -> (r: Result<Vec<SplitMap>, DeriveError>)
        requires
            broadcast_ok(*inst),
        ensures
            dres_view(r) == spec_d_broadcast(*inst),
    {
        let standby_dims: &[i32] = match inst.get_meta_vec(&owned("dimensions")) {
            Ok(l) => l.as_slice(),
            Err(_) => &[],
        };
        let output_dims = match &inst.function.return_types[0].dimensions {
            Some(d) => d,
            None => {
                return Err(DeriveError::OptionNone(owned("inst.fn.return_type.dimensions")));
            },
        };
        let param = inst.get_param(0)?;
        let n = output_dims.len();
        let sl = standby_dims.len();
        let all_dims = dims_index(n);
        let ghost spec_r = spec_d_broadcast(*inst)->Ok_0;
        let mut result: Vec<SplitMap> = Vec::new();
        let mut i: usize = 0;
        while i < n
            invariant
                inst.function.return_types@[0].dimensions == Some(*output_dims),
                n == output_dims@.len(),
                n <= i32::MAX,
                all_dims@ == index_seq(n as int),
                *param == inst.function.params->0@[0],
                standby_dims@ == broadcast_dims(*inst),
                sl == standby_dims@.len(),
                broadcast_ok(*inst),
                i <= n,
                spec_r == spec_d_broadcast(*inst)->Ok_0,
                views(result@) == spec_r.take(i as int),
            decreases n - i,
        {
            let d = all_dims[i];
            let fp = first_pos(standby_dims, d);
            let x: i8 = match fp {
                Some(p) => p as i8,
                None => -1,
            };
            proof {
                lemma_first_pos_from(standby_dims@, d, 0);
                if standby_dims@.contains(d) {
                    let j = first_pos_from(standby_dims@, d, 0)->0;
                    assert(first_pos_from(standby_dims@, d, 0) == Some(j));
                    assert(fp == Some(j as usize));
                    assert(x == j as i8);
                } else {
                    assert(x == -1i8);
                }
            }
            let kv = kv2(&inst.var_name, d as i8, &param.name, x);
            proof {
                lemma_first_pos_from(standby_dims@, d, 0);
                assert(d == (i as int) as i32);
                assert(pairs_view(kv@) == seq![
                    (inst.var_name@, ((i as int) as i32) as i8),
                    (inst.function.params->0@[0].name@, if standby_dims@.contains((i as int) as i32) {
                        first_pos_from(standby_dims@, (i as int) as i32, 0)->0 as i8
                    } else {
                        -1i8
                    }),
                ]);
            }
            add_keys(&mut result, kv);
            i = i + 1;
            assert(views(result@) =~= spec_r.take(i as int));
        }
        let rep = Self::replicate_split(inst)?;
        add_keys(&mut result, rep);
        assert(views(result@) =~= spec_r);
        Ok(result)
    }

    /// Derivation of a pad or a slice.
    pub fn d_pad_slice(inst: &Instruction) -> (r: Result<Vec<SplitMap>, DeriveError>)
        requires
            pad_slice_ok(*inst),
        ensures
            dres_view(r) == spec_d_pad_slice(*inst),
    {
        let params = inst.get_all_params()?;
        let param_dims = params[0].get_dims()?;
        let output_dims = match &inst.function.return_types[0].dimensions {
            Some(d) => d,
            None => {
                return Err(DeriveError::OptionNone(owned("inst.fn.return_type.dimensions")));
            },
        };
        let n = output_dims.len();
        let mut result: Vec<SplitMap> = Vec::new();
        let mut i: usize = 0;
        while i < n
            invariant
                inst.function.return_types@[0].dimensions == Some(*output_dims),
                inst.function.params == Some(*params),
                params@.len() == 1 || params@.len() == 2,
                params@[0].param_type.dimensions == Some(*param_dims),
                n == output_dims@.len(),
                n == param_dims@.len(),
                n <= i32::MAX,
                i <= n,
                views(result@) == pad_slice_maps(
                    inst.var_name@,
                    params@,
                    param_dims@,
                    output_dims@,
                    i as int,
                ),
            decreases n - i,
        {
            if param_dims[i] == output_dims[i] {
                let d = (i as i32) as i8;
                let mut kv = kv2(&params[0].name, d, &inst.var_name, d);
                if params.len() == 2 {
                    let ghost old_kv = kv@;
                    kv.push((params[1].name.clone(), -1));
                    assert(pairs_view(kv@) =~= pairs_view(old_kv).push((params@[1].name@, -1i8)));
                }
                add_keys(&mut result, kv);
            }
            i = i + 1;
        }
        let rep = Self::replicate_split(inst)?;
        add_keys(&mut result, rep);
        Ok(result)
    }

    /// Derivation of a padded `where`.
    pub fn d_padded_where(inst: &Instruction) -> (r: Result<Vec<SplitMap>, DeriveError>)
        requires
            padded_where_ok(*inst),
        ensures
            dres_view(r) == spec_d_padded_where(*inst),
    {
        let param = inst.get_param(0)?;
        let _dims = param.get_dims()?;
        let mut result: Vec<SplitMap> = Vec::new();
        add_keys(&mut result, kv2(&inst.var_name, 0, &param.name, 0));
        let rep = Self::replicate_split(inst)?;
        add_keys(&mut result, rep);
        assert(views(result@) =~= spec_d_padded_where(*inst)->Ok_0);
        Ok(result)
    }

    /// Derivation of a gather.
    pub fn d_gather(inst: &Instruction) -> (r: Result<Vec<SplitMap>, DeriveError>)
        requires
            gather_ok(*inst),
        ensures
            dres_view(r) == spec_d_gather(*inst),
    {
        let params = inst.get_all_params()?;
        let _dims = params[0].get_dims()?;
        let offset_dims = inst.get_meta_vec(&owned("offset_dims"))?;
        let p0 = &params[0].name;
        let p1 = &params[1].name;
        let v = &inst.var_name;
        let mut result: Vec<SplitMap> = Vec::new();
        add_keys(&mut result, kv3(p0, 1, p1, -1, v, offset_dims[0] as i8));
        add_keys(&mut result, kv3(p0, 0, p1, -1, v, -1));
        add_keys(&mut result, kv3(p1, 0, p0, 0, v, 0));
        add_keys(&mut result, kv3(p1, -1, p0, 1, v, 1));
        let rep = Self::replicate_split(inst)?;
        add_keys(&mut result, rep);
        assert(views(result@) =~= spec_d_gather(*inst)->Ok_0);
        Ok(result)
    }

    /// Derivation of a scatter.
    pub fn d_scatter(inst: &Instruction) -> (r: Result<Vec<SplitMap>, DeriveError>)
        requires
            scatter_ok(*inst),
        ensures
            dres_view(r) == spec_d_scatter(*inst),
    {
        let params = inst.get_all_params()?;
        let _d0 = params[0].get_dims()?;
        let _d2 = params[2].get_dims()?;
        let p0 = &params[0].name;
        let p1 = &params[1].name;
        let p2 = &params[2].name;
        let v = &inst.var_name;
        let mut result: Vec<SplitMap> = Vec::new();
        add_keys(&mut result, kv4(p0, 0, p1, -1, p2, -1, v, 0));
        add_keys(&mut result, kv4(p0, 1, p1, -1, p2, 1, v, 1));
        add_keys(&mut result, kv4(p1, -1, p0, 0, p2, 0, v, 0));
        add_keys(&mut result, kv4(p2, 1, p0, 1, p1, -1, v, 1));
        add_keys(&mut result, kv4(p2, -1, p0, 0, p1, -1, v, 0));
        let rep = Self::replicate_split(inst)?;
        add_keys(&mut result, rep);
        assert(views(result@) =~= spec_d_scatter(*inst)->Ok_0);
        Ok(result)
    }
}

} // verus!

verus! {

/// The entries of `s` that `excl` does not hold, in order.
pub open spec fn filter_out(s: Seq<i32>, excl: Seq<i32>) -> Seq<i32>
    decreases s.len(),
{
    if s.len() == 0 {
        s
    } else {
        let p = filter_out(s.drop_last(), excl);
        if excl.contains(s.last()) {
            p
        } else {
            p.push(s.last())
        }
    }
}

/// The first entry of `s` at or after `i` that `excl` does not hold.
pub open spec fn first_not_in_from(s: Seq<i32>, excl: Seq<i32>, i: int) -> Option<i32>
    decreases s.len() - i,
{
    if i < 0 || i >= s.len() {
        None
    } else if !excl.contains(s[i]) {
        Some(s[i])
    } else {
        first_not_in_from(s, excl, i + 1)
    }
}

/// The first entry of `s` that `excl` does not hold.
pub fn first_not_in(s: &Vec<i32>, excl: &Vec<i32>) -> (r: Option<i32>)
    ensures
        r == first_not_in_from(s@, excl@, 0),
{
    let n = s.len();
    let mut i: usize = 0;
    while i < n
        invariant
            n == s@.len(),
            i <= n,
            first_not_in_from(s@, excl@, 0) == first_not_in_from(s@, excl@, i as int),
        decreases n - i,
    {
        if !contains_i32(excl.as_slice(), s[i]) {
            return Some(s[i]);
        }
        i = i + 1;
    }
    None
}

/// The batch dimensions of a dot product, when it names them.
pub open spec fn matmul_batch(inst: Instruction) -> Result<Option<(Seq<i32>, Seq<i32>)>, DeriveErrorView> {
    if has_key(inst, "lhs_batch_dims"@) {
        match sv_meta_vec(inst, "lhs_batch_dims"@) {
            Err(e) => Err(e),
            Ok(lb) => match sv_meta_vec(inst, "rhs_batch_dims"@) {
                Err(e) => Err(e),
                Ok(rb) => Ok(Some((lb, rb))),
            },
        }
    } else {
        Ok(None)
    }
}

/// The result dimensions of a dot product that are not batch dimensions.
pub open spec fn matmul_mat_dims(rd: Seq<i32>, b: Option<(Seq<i32>, Seq<i32>)>) -> Seq<i32> {
    filter_out(
        index_seq(rd.len() as int),
        match b {
            Some((lb, _)) => lb,
            None => Seq::empty(),
        },
    )
}

/// The splits of a dot product along its batch dimensions.
pub open spec fn matmul_batch_maps(p0: Seq<char>, p1: Seq<char>, v: Seq<char>, b: Option<(Seq<i32>, Seq<i32>)>) -> Seq<Map<Seq<char>, i8>> {
    match b {
        Some((lb, _)) => Seq::new(
            lb.len(),
            |i: int| smap(seq![(p0, lb[i] as i8), (p1, lb[i] as i8), (v, lb[i] as i8)]),
        ),
        None => Seq::empty(),
    }
}

/// The splits of a dot product: all replicated; both operands along their
/// contracting dimension; each operand along its first other matrix
/// dimension, with the result along the matching matrix dimension; and all
/// along each batch dimension.
pub open spec fn spec_d_matmul(inst: Instruction) -> DView {
    let v = inst.var_name@;
    let p0 = pname(inst, 0);
    let p1 = pname(inst, 1);
    match sv_meta_vec(inst, "lhs_contracting_dims"@) {
        Err(e) => Err(e),
        Ok(lcd) => match sv_meta_vec(inst, "rhs_contracting_dims"@) {
            Err(e) => Err(e),
            Ok(rcd) => match matmul_batch(inst) {
                Err(e) => Err(e),
                Ok(b) => match inst.function.return_types@[0].dimensions {
                    None => Err(DeriveErrorView::OptionNone("inst.fn.return_type.dimensions"@)),
                    Some(rd) => {
                        let md = matmul_mat_dims(rd@, b);
                        match first_not_in_from(md, lcd, 0) {
                            None => Err(
                                DeriveErrorView::OptionNone(
                                    "mat_dims - lhs_contracting_dims next()"@,
                                ),
                            ),
                            Some(x1) => match first_not_in_from(md, rcd, 0) {
                                None => Err(
                                    DeriveErrorView::OptionNone(
                                        "mat_dims - rhs_contracting_dims next()"@,
                                    ),
                                ),
                                Some(x2) => Ok(
                                    seq![
                                        smap(seq![(p0, -1i8), (p1, -1i8), (v, -1i8)]),
                                        smap(seq![(p0, lcd[0] as i8), (p1, rcd[0] as i8), (v, -1i8)]),
                                        smap(seq![(p0, x1 as i8), (p1, -1i8), (v, md[0] as i8)]),
                                        smap(seq![(p1, x2 as i8), (p0, -1i8), (v, md[1] as i8)]),
                                    ] + matmul_batch_maps(p0, p1, v, b),
                                ),
                            },
                        }
                    },
                },
            },
        },
    }
}

/// What a dot product needs of `inst` to be derived without failing an
/// assertion.
pub open spec fn matmul_ok(inst: Instruction) -> bool {
    &&& has_param_len(inst, 2)
    &&& has_key(inst, "lhs_contracting_dims"@)
    &&& has_key(inst, "rhs_contracting_dims"@)
    &&& inst.function.return_types@.len() > 0
    &&& match (sv_meta_vec(inst, "lhs_contracting_dims"@), sv_meta_vec(inst, "rhs_contracting_dims"@)) {
        (Ok(lcd), Ok(rcd)) => {
            &&& lcd.len() == 1
            &&& rcd.len() == 1
            &&& matmul_batch(inst) matches Ok(b) ==> (inst.function.return_types@[0].dimensions
                matches Some(rd) ==> {
                let md = matmul_mat_dims(rd@, b);
                &&& rd@.len() <= i32::MAX
                &&& (first_not_in_from(md, lcd, 0) is Some && first_not_in_from(md, rcd, 0) is Some)
                    ==> {
                    &&& md.len() >= 2
                    &&& b matches Some((lb, rb)) ==> (lb.len() <= rb.len() && forall|i: int|
                        0 <= i < lb.len() ==> lb[i] == rb[i])
                }
            })
        },
        _ => true,
    }
}

impl<'a> Derivation<'a> {
    /// Derivation of a dot product.
    pub fn d_matmul(inst: &Instruction) -> (r: Result<Vec<SplitMap>, DeriveError>)
        requires
            matmul_ok(*inst),
        ensures
            dres_view(r) == spec_d_matmul(*inst),
    {
        let lhs_contracting_dims = inst.get_meta_vec(&owned("lhs_contracting_dims"))?;
        let rhs_contracting_dims = inst.get_meta_vec(&owned("rhs_contracting_dims"))?;
        let mut lhs_batch_dims: Option<&Vec<i32>> = None;
        let mut rhs_batch_dims: Option<&Vec<i32>> = None;
        if inst.key_in_meta(&owned("lhs_batch_dims")) {
            lhs_batch_dims = Some(inst.get_meta_vec(&owned("lhs_batch_dims"))?);
            rhs_batch_dims = Some(inst.get_meta_vec(&owned("rhs_batch_dims"))?);
        }
        let ghost b = matmul_batch(*inst)->Ok_0;
        assert(match b {
            Some((lb, rb)) => lhs_batch_dims is Some && lhs_batch_dims->0@ == lb && rhs_batch_dims is Some && rhs_batch_dims->0@ == rb,
            None => lhs_batch_dims is None && rhs_batch_dims is None,
        });
        let ret = match &inst.function.return_types[0].dimensions {
            Some(d) => d,
            None => {
                return Err(DeriveError::OptionNone(owned("inst.fn.return_type.dimensions")));
            },
        };
        let n = ret.len();
        let all_dims = dims_index(n);
        let empty: Vec<i32> = Vec::new();
        let excl: &Vec<i32> = match lhs_batch_dims {
            Some(l) => l,
            None => &empty,
        };
        let mut mat_dims: Vec<i32> = Vec::new();
        let mut i: usize = 0;
        while i < n
            invariant
                n <= i32::MAX,
                all_dims@ == index_seq(n as int),
                i <= n,
                mat_dims@ == filter_out(index_seq(i as int), excl@),
            decreases n - i,
        {
            assert(index_seq(i + 1).drop_last() =~= index_seq(i as int));
            if !contains_i32(excl.as_slice(), all_dims[i]) {
                mat_dims.push(all_dims[i]);
            }
            i = i + 1;
        }
        assert(mat_dims@ == matmul_mat_dims(ret@, b));
        let params = inst.get_all_params()?;
        let p0 = &params[0].name;
        let p1 = &params[1].name;
        let v = &inst.var_name;
        let mut result: Vec<SplitMap> = Vec::new();
        add_keys(&mut result, kv3(p0, -1, p1, -1, v, -1));
        add_keys(
            &mut result,
            kv3(p0, lhs_contracting_dims[0] as i8, p1, rhs_contracting_dims[0] as i8, v, -1),
        );
        let x1 = match first_not_in(&mat_dims, lhs_contracting_dims) {
            Some(x) => x,
            None => {
                return Err(DeriveError::OptionNone(owned("mat_dims - lhs_contracting_dims next()")));
            },
        };
        add_keys(&mut result, kv3(p0, x1 as i8, p1, -1, v, mat_dims[0] as i8));
        let x2 = match first_not_in(&mat_dims, rhs_contracting_dims) {
            Some(x) => x,
            None => {
                return Err(DeriveError::OptionNone(owned("mat_dims - rhs_contracting_dims next()")));
            },
        };
        add_keys(&mut result, kv3(p1, x2 as i8, p0, -1, v, mat_dims[1] as i8));
        let ghost head = views(result@);
        if lhs_batch_dims.is_some() && rhs_batch_dims.is_some() {
            let lb = lhs_batch_dims.unwrap();
            let m = lb.len();
            let mut k: usize = 0;
            while k < m
                invariant
                    m == lb@.len(),
                    k <= m,
                    b == Some((lb@, (b->0).1)),
                    views(result@) == head + matmul_batch_maps(p0@, p1@, v@, b).take(k as int),
                decreases m - k,
            {
                let x = lb[k] as i8;
                add_keys(&mut result, kv3(p0, x, p1, x, v, x));
                k = k + 1;
                assert(views(result@) =~= head + matmul_batch_maps(p0@, p1@, v@, b).take(k as int));
            }
            assert(matmul_batch_maps(p0@, p1@, v@, b).take(m as int) =~= matmul_batch_maps(p0@, p1@, v@, b));
        } else {
            assert(matmul_batch_maps(p0@, p1@, v@, b) =~= Seq::<Map<Seq<char>, i8>>::empty());
            assert(head + matmul_batch_maps(p0@, p1@, v@, b) =~= head);
        }
        assert(views(result@) =~= spec_d_matmul(*inst)->Ok_0);
        Ok(result)
    }
}

} // verus!

verus! {

/// The state of the grouping in a reshape: positions in the operand and
/// result dimensions, the running products of the current groups, the groups
/// so far, and whether a product left the `i32` range.
pub struct ReshapeState {
    pub p: int,
    pub v: int,
    pub l: int,
    pub r: int,
    pub pg: Seq<Seq<i8>>,
    pub vg: Seq<Seq<i8>>,
    pub ovf: bool,
}

/// Whether `x` is outside the `i32` range.
pub open spec fn out_of_i32(x: int) -> bool {
    x < i32::MIN || x > i32::MAX
}

/// Appends `x` to the last group of `g`.
pub open spec fn push_last(g: Seq<Seq<i8>>, x: i8) -> Seq<Seq<i8>> {
    if g.len() == 0 {
        g
    } else {
        g.update(g.len() - 1, g.last().push(x))
    }
}

/// Extends the current result group while its product is below the
/// operand group's.
pub open spec fn ra_inner1(pd: Seq<i32>, vd: Seq<i32>, s: ReshapeState) -> ReshapeState
    decreases vd.len() - s.v,
{
    if s.l < s.r && 0 <= s.v < vd.len() {
        let l = s.l * vd[s.v];
        ra_inner1(
            pd,
            vd,
            ReshapeState {
                l: l,
                v: s.v + 1,
                vg: push_last(s.vg, s.v as i8),
                ovf: s.ovf || out_of_i32(l),
                ..s
            },
        )
    } else {
        s
    }
}

/// Extends the current operand group while its product is below the result
/// group's.
pub open spec fn ra_inner2(pd: Seq<i32>, vd: Seq<i32>, s: ReshapeState) -> ReshapeState
    decreases pd.len() - s.p,
{
    if s.l > s.r && 0 <= s.p < pd.len() {
        let r = s.r * pd[s.p];
        ra_inner2(
            pd,
            vd,
            ReshapeState {
                r: r,
                p: s.p + 1,
                pg: push_last(s.pg, s.p as i8),
                ovf: s.ovf || out_of_i32(r),
                ..s
            },
        )
    } else {
        s
    }
}

/// Opens a new pair of groups when the products agree.
pub open spec fn ra_third(pd: Seq<i32>, vd: Seq<i32>, s: ReshapeState) -> ReshapeState {
    if s.l == s.r && 0 <= s.v < vd.len() && 0 <= s.p < pd.len() {
        ReshapeState {
            l: vd[s.v] as int,
            r: pd[s.p] as int,
            v: s.v + 1,
            p: s.p + 1,
            vg: s.vg.push(seq![s.v as i8]),
            pg: s.pg.push(seq![s.p as i8]),
            ..s
        }
    } else {
        s
    }
}

/// One round of the grouping.
pub open spec fn ra_round(pd: Seq<i32>, vd: Seq<i32>, s: ReshapeState) -> ReshapeState {
    ra_third(pd, vd, ra_inner2(pd, vd, ra_inner1(pd, vd, s)))
}

/// How far the grouping is from the end of both dimension lists.
pub open spec fn ra_measure(pd: Seq<i32>, vd: Seq<i32>, s: ReshapeState) -> int {
    (pd.len() - s.p) + (vd.len() - s.v)
}

/// `ra_inner1` only advances, and advances when it can.
pub proof fn lemma_ra_inner1(pd: Seq<i32>, vd: Seq<i32>, s: ReshapeState)
    requires
        0 <= s.v <= vd.len(),
    ensures
        ra_inner1(pd, vd, s).p == s.p,
        ra_inner1(pd, vd, s).r == s.r,
        ra_inner1(pd, vd, s).pg == s.pg,
        s.v <= ra_inner1(pd, vd, s).v <= vd.len(),
        ra_inner1(pd, vd, s).vg.len() == s.vg.len(),
        s.ovf ==> ra_inner1(pd, vd, s).ovf,
        (s.l < s.r && s.v < vd.len()) ==> ra_inner1(pd, vd, s).v > s.v,
        !(s.l < s.r && s.v < vd.len()) ==> ra_inner1(pd, vd, s) == s,
    decreases vd.len() - s.v,
{
    if s.l < s.r && 0 <= s.v < vd.len() {
        let l = s.l * vd[s.v];
        lemma_ra_inner1(
            pd,
            vd,
            ReshapeState {
                l: l,
                v: s.v + 1,
                vg: push_last(s.vg, s.v as i8),
                ovf: s.ovf || out_of_i32(l),
                ..s
            },
        );
    }
}

/// `ra_inner2` only advances, and advances when it can.
pub proof fn lemma_ra_inner2(pd: Seq<i32>, vd: Seq<i32>, s: ReshapeState)
    requires
        0 <= s.p <= pd.len(),
    ensures
        ra_inner2(pd, vd, s).v == s.v,
        ra_inner2(pd, vd, s).l == s.l,
        ra_inner2(pd, vd, s).vg == s.vg,
        s.p <= ra_inner2(pd, vd, s).p <= pd.len(),
        ra_inner2(pd, vd, s).pg.len() == s.pg.len(),
        s.ovf ==> ra_inner2(pd, vd, s).ovf,
        (s.l > s.r && s.p < pd.len()) ==> ra_inner2(pd, vd, s).p > s.p,
        !(s.l > s.r && s.p < pd.len()) ==> ra_inner2(pd, vd, s) == s,
    decreases pd.len() - s.p,
{
    if s.l > s.r && 0 <= s.p < pd.len() {
        let r = s.r * pd[s.p];
        lemma_ra_inner2(
            pd,
            vd,
            ReshapeState {
                r: r,
                p: s.p + 1,
                pg: push_last(s.pg, s.p as i8),
                ovf: s.ovf || out_of_i32(r),
                ..s
            },
        );
    }
}

/// A round that starts inside both lists moves forward and keeps the
/// positions in range.
pub proof fn lemma_ra_round(pd: Seq<i32>, vd: Seq<i32>, s: ReshapeState)
    requires
        0 <= s.p <= pd.len(),
        0 <= s.v <= vd.len(),
    ensures
        0 <= ra_round(pd, vd, s).p <= pd.len(),
        0 <= ra_round(pd, vd, s).v <= vd.len(),
        ra_round(pd, vd, s).p >= s.p,
        ra_round(pd, vd, s).v >= s.v,
        s.ovf ==> ra_round(pd, vd, s).ovf,
        (s.p < pd.len() && s.v < vd.len()) ==> ra_measure(pd, vd, ra_round(pd, vd, s)) < ra_measure(pd, vd, s),
{
    lemma_ra_inner1(pd, vd, s);
    lemma_ra_inner2(pd, vd, ra_inner1(pd, vd, s));
}

/// The grouping, from state `s` until one list is exhausted.
pub open spec fn ra_outer(pd: Seq<i32>, vd: Seq<i32>, s: ReshapeState) -> ReshapeState
    decreases ra_measure(pd, vd, s),
    when 0 <= s.p <= pd.len() && 0 <= s.v <= vd.len()
    via ra_outer_decreases
{
    if s.p < pd.len() && s.v < vd.len() {
        ra_outer(pd, vd, ra_round(pd, vd, s))
    } else {
        s
    }
}

#[via_fn]
proof fn ra_outer_decreases(pd: Seq<i32>, vd: Seq<i32>, s: ReshapeState) {
    lemma_ra_round(pd, vd, s);
}

/// A product that leaves the `i32` range is never forgotten.
pub proof fn lemma_ra_outer_ovf(pd: Seq<i32>, vd: Seq<i32>, s: ReshapeState)
    requires
        0 <= s.p <= pd.len(),
        0 <= s.v <= vd.len(),
    ensures
        s.ovf ==> ra_outer(pd, vd, s).ovf,
    decreases ra_measure(pd, vd, s),
{
    if s.p < pd.len() && s.v < vd.len() {
        lemma_ra_round(pd, vd, s);
        lemma_ra_outer_ovf(pd, vd, ra_round(pd, vd, s));
    }
}

/// The grouping from the start, then the leftover dimensions go into the
/// last groups.
pub open spec fn ra_groups(pd: Seq<i32>, vd: Seq<i32>) -> ReshapeState {
    let s = ra_outer(
        pd,
        vd,
        ReshapeState { p: 0, v: 0, l: 1, r: 1, pg: Seq::empty(), vg: Seq::empty(), ovf: false },
    );
    ReshapeState {
        pg: if s.p < pd.len() {
            s.pg.update(
                s.pg.len() - 1,
                s.pg.last() + Seq::new((pd.len() - s.p) as nat, |i: int| (s.p + i) as i8),
            )
        } else {
            s.pg
        },
        vg: if s.v < vd.len() {
            s.vg.update(
                s.vg.len() - 1,
                s.vg.last() + Seq::new((vd.len() - s.v) as nat, |i: int| (s.v + i) as i8),
            )
        } else {
            s.vg
        },
        ..s
    }
}

/// The splits that pair each result dimension `x` with each operand
/// dimension of `ys`.
pub open spec fn reshape_row(param: Seq<char>, var: Seq<char>, x: i8, ys: Seq<i8>) -> Seq<Map<Seq<char>, i8>> {
    ys.map_values(|y: i8| smap(seq![(param, y), (var, x)]))
}

/// The splits that pair the dimensions of a result group with those of an
/// operand group.
pub open spec fn reshape_group(param: Seq<char>, var: Seq<char>, xs: Seq<i8>, ys: Seq<i8>) -> Seq<Map<Seq<char>, i8>>
    decreases xs.len(),
{
    if xs.len() == 0 {
        Seq::empty()
    } else {
        reshape_group(param, var, xs.drop_last(), ys) + reshape_row(param, var, xs.last(), ys)
    }
}

/// The splits of the first `k` group pairs.
pub open spec fn reshape_maps(param: Seq<char>, var: Seq<char>, vg: Seq<Seq<i8>>, pg: Seq<Seq<i8>>, k: int) -> Seq<Map<Seq<char>, i8>>
    decreases k,
{
    if k <= 0 {
        Seq::empty()
    } else {
        reshape_maps(param, var, vg, pg, k - 1) + reshape_group(param, var, vg[k - 1], pg[k - 1])
    }
}

/// The splits of a reshape: the operand and result dimensions are grouped
/// into consecutive runs of equal size, and each result dimension of a group
/// may be split together with each operand dimension of the same group; plus
/// replication.
pub open spec fn spec_d_reshape_alt(inst: Instruction) -> DView {
    let ps = inst.function.params->0@;
    match sv_dims(ps[0]) {
        Err(e) => Err(e),
        Ok(pd) => match inst.function.return_types@[0].dimensions {
            None => Err(DeriveErrorView::OptionNone("inst.fn.return_type.dimensions"@)),
            Some(vd) => {
                let g = ra_groups(pd, vd@);
                Ok(
                    reshape_maps(ps[0].name@, inst.var_name@, g.vg, g.pg, g.vg.len() as int).push(
                        smap(all_pairs(inst.var_name@, ps, -1i8)),
                    ),
                )
            },
        },
    }
}

/// What a reshape needs of `inst` to be derived without failing: one
/// operand, both dimension lists empty or both not, and products that stay
/// in the `i32` range.
pub open spec fn reshape_alt_ok(inst: Instruction) -> bool {
    &&& has_param_len(inst, 1)
    &&& inst.function.return_types@.len() > 0
    &&& dims_or_empty(inst.function.params->0@[0]).len() <= i32::MAX
    &&& sv_dims(inst.function.params->0@[0]) matches Ok(pd) ==> (
    inst.function.return_types@[0].dimensions matches Some(vd) ==> {
        &&& (pd.len() == 0) == (vd@.len() == 0)
        &&& !ra_groups(pd, vd@).ovf
    })
}

} // verus!

verus! {

/// The plain view of a list of dimension groups.
pub open spec fn gview(g: Seq<Vec<i8>>) -> Seq<Seq<i8>> {
    g.map_values(|x: Vec<i8>| x@)
}

/// Appends `x` to the last group of `g`, which has one.
fn push_to_last(g: &mut Vec<Vec<i8>>, x: i8)
    requires
        old(g)@.len() > 0,
    ensures
        gview(final(g)@) == push_last(gview(old(g)@), x),
        final(g)@.len() == old(g)@.len(),
{
    let ghost before = gview(g@);
    let mut last = g.pop().unwrap();
    last.push(x);
    g.push(last);
    assert(gview(g@) =~= push_last(before, x));
}

/// Appends a new group holding `x` to `g`.
fn push_group(g: &mut Vec<Vec<i8>>, x: i8)
    ensures
        gview(final(g)@) == gview(old(g)@).push(seq![x]),
        final(g)@.len() == old(g)@.len() + 1,
{
    let ghost before = gview(g@);
    let mut v: Vec<i8> = Vec::new();
    v.push(x);
    g.push(v);
    assert(gview(g@) =~= before.push(seq![x]));
}

/// Once a product leaves the `i32` range inside a round, the grouping
/// remembers it.
proof fn lemma_round_rest_ovf(pd: Seq<i32>, vd: Seq<i32>, s: ReshapeState, phase: int)
    requires
        0 <= s.p <= pd.len(),
        0 <= s.v <= vd.len(),
        s.ovf,
    ensures
        phase == 1 ==> ra_outer(pd, vd, ra_third(pd, vd, ra_inner2(pd, vd, ra_inner1(pd, vd, s)))).ovf,
        phase == 2 ==> ra_outer(pd, vd, ra_third(pd, vd, ra_inner2(pd, vd, s))).ovf,
{
    lemma_ra_inner1(pd, vd, s);
    let s1 = ra_inner1(pd, vd, s);
    lemma_ra_inner2(pd, vd, s1);
    lemma_ra_outer_ovf(pd, vd, ra_third(pd, vd, ra_inner2(pd, vd, s1)));
    lemma_ra_inner2(pd, vd, s);
    lemma_ra_outer_ovf(pd, vd, ra_third(pd, vd, ra_inner2(pd, vd, s)));
}

impl<'a> Derivation<'a> {
    /// Derivation of a reshape, by grouping dimensions of equal size.
    pub fn d_reshape_alt(inst: &Instruction) -> (r: Result<Vec<SplitMap>, DeriveError>)
        requires
            reshape_alt_ok(*inst),
        ensures
            dres_view(r) == spec_d_reshape_alt(*inst),
    {
        let param = inst.get_param(0)?;
        let params_dims = param.get_dims()?;
        let var_dims = match &inst.function.return_types[0].dimensions {
            Some(d) => d,
            None => {
                return Err(DeriveError::OptionNone(owned("inst.fn.return_type.dimensions")));
            },
        };
        let ghost pd = params_dims@;
        let ghost vd = var_dims@;
        let np = params_dims.len();
        let nv = var_dims.len();
        let mut p_i: usize = 0;
        let mut v_i: usize = 0;
        let mut l_prod: i32 = 1;
        let mut r_prod: i32 = 1;
        let mut params_groups: Vec<Vec<i8>> = Vec::new();
        let mut var_groups: Vec<Vec<i8>> = Vec::new();
        let ghost init = ReshapeState {
            p: 0,
            v: 0,
            l: 1,
            r: 1,
            pg: Seq::empty(),
            vg: Seq::empty(),
            ovf: false,
        };
        let ghost fin = ra_outer(pd, vd, init);
        assert(ra_groups(pd, vd).ovf == fin.ovf);
        assert(gview(params_groups@) =~= Seq::<Seq<i8>>::empty());
        assert(gview(var_groups@) =~= Seq::<Seq<i8>>::empty());
        while p_i < np && v_i < nv
            invariant
                np == pd.len(),
                nv == vd.len(),
                params_dims@ == pd,
                var_dims@ == vd,
                (np == 0) == (nv == 0),
                p_i <= np,
                v_i <= nv,
                fin == ra_outer(pd, vd, init),
                !ra_groups(pd, vd).ovf,
                !fin.ovf,
                ra_outer(
                    pd,
                    vd,
                    ReshapeState {
                        p: p_i as int,
                        v: v_i as int,
                        l: l_prod as int,
                        r: r_prod as int,
                        pg: gview(params_groups@),
                        vg: gview(var_groups@),
                        ovf: false,
                    },
                ) == fin,
                params_groups@.len() == var_groups@.len(),
                var_groups@.len() == 0 ==> (p_i == 0 && v_i == 0 && l_prod == 1 && r_prod == 1),
            decreases (np - p_i) + (nv - v_i),
        {
            let ghost s0 = ReshapeState {
                p: p_i as int,
                v: v_i as int,
                l: l_prod as int,
                r: r_prod as int,
                pg: gview(params_groups@),
                vg: gview(var_groups@),
                ovf: false,
            };
            proof {
                lemma_ra_round(pd, vd, s0);
            }
            assert(ra_outer(pd, vd, s0) == ra_outer(pd, vd, ra_round(pd, vd, s0)));
            while l_prod < r_prod && v_i < nv
                invariant
                    np == pd.len(),
                    nv == vd.len(),
                    params_dims@ == pd,
                    var_dims@ == vd,
                    p_i <= np,
                    p_i == s0.p,
                    s0.ovf == false,
                    r_prod == s0.r,
                    gview(params_groups@) == s0.pg,
                    v_i <= nv,
                    fin == ra_outer(pd, vd, init),
                    !fin.ovf,
                    ra_inner1(pd, vd, ReshapeState {
                        v: v_i as int,
                        l: l_prod as int,
                        vg: gview(var_groups@),
                        ..s0
                    }) == ra_inner1(pd, vd, s0),
                    ra_outer(pd, vd, ra_third(pd, vd, ra_inner2(pd, vd, ra_inner1(pd, vd, s0)))) == fin,
                    params_groups@.len() == var_groups@.len(),
                    var_groups@.len() == 0 ==> (p_i == 0 && v_i == 0 && l_prod == 1 && r_prod == 1),
                decreases nv - v_i,
            {
                let ghost cur = ReshapeState {
                    v: v_i as int,
                    l: l_prod as int,
                    vg: gview(var_groups@),
                    ..s0
                };
                let ghost prod = l_prod as int * vd[v_i as int] as int;
                let ghost next = ReshapeState {
                    l: prod,
                    v: cur.v + 1,
                    vg: push_last(cur.vg, v_i as i8),
                    ovf: out_of_i32(prod),
                    ..cur
                };
                proof {
                    assert(cur.l < cur.r && 0 <= cur.v < vd.len());
                    let l = cur.l * vd[cur.v];
                    assert(l == prod);
                    let unfolded = ReshapeState {
                        l: l,
                        v: cur.v + 1,
                        vg: push_last(cur.vg, cur.v as i8),
                        ovf: cur.ovf || out_of_i32(l),
                        ..cur
                    };
                    assert(ra_inner1(pd, vd, cur) == ra_inner1(pd, vd, unfolded));
                    assert(((v_i as int) as i8) == (v_i as i8));
                    assert(unfolded.vg == next.vg);
                    assert(unfolded.ovf == next.ovf);
                    assert(unfolded == next);
                    if out_of_i32(prod) {
                        lemma_round_rest_ovf(pd, vd, next, 1);
                        lemma_ra_outer_ovf(pd, vd, init);
                        assert(false);
                    }
                }
                l_prod = l_prod * var_dims[v_i];
                push_to_last(&mut var_groups, v_i as i8);
                v_i = v_i + 1;
                assert(ReshapeState {
                    v: v_i as int,
                    l: l_prod as int,
                    vg: gview(var_groups@),
                    ..s0
                } == next);
            }
            let ghost s1 = ra_inner1(pd, vd, s0);
            proof {
                lemma_ra_inner1(pd, vd, s0);
            }
            while l_prod > r_prod && p_i < np
                invariant
                    np == pd.len(),
                    nv == vd.len(),
                    params_dims@ == pd,
                    var_dims@ == vd,
                    v_i <= nv,
                    v_i == s1.v,
                    l_prod == s1.l,
                    gview(var_groups@) == s1.vg,
                    s1.ovf == false,
                    p_i <= np,
                    fin == ra_outer(pd, vd, init),
                    !fin.ovf,
                    ra_inner2(pd, vd, ReshapeState {
                        p: p_i as int,
                        r: r_prod as int,
                        pg: gview(params_groups@),
                        ..s1
                    }) == ra_inner2(pd, vd, s1),
                    ra_outer(pd, vd, ra_third(pd, vd, ra_inner2(pd, vd, s1))) == fin,
                    params_groups@.len() == var_groups@.len(),
                    var_groups@.len() == 0 ==> (p_i == 0 && v_i == 0 && l_prod == 1 && r_prod == 1),
                decreases np - p_i,
            {
                let ghost cur = ReshapeState {
                    p: p_i as int,
                    r: r_prod as int,
                    pg: gview(params_groups@),
                    ..s1
                };
                let ghost prod = r_prod as int * pd[p_i as int] as int;
                let ghost next = ReshapeState {
                    r: prod,
                    p: cur.p + 1,
                    pg: push_last(cur.pg, p_i as i8),
                    ovf: out_of_i32(prod),
                    ..cur
                };
                proof {
                    assert(cur.l > cur.r && 0 <= cur.p < pd.len());
                    let r = cur.r * pd[cur.p];
                    assert(r == prod);
                    let unfolded = ReshapeState {
                        r: r,
                        p: cur.p + 1,
                        pg: push_last(cur.pg, cur.p as i8),
                        ovf: cur.ovf || out_of_i32(r),
                        ..cur
                    };
                    assert(ra_inner2(pd, vd, cur) == ra_inner2(pd, vd, unfolded));
                    assert(unfolded == next);
                    if out_of_i32(prod) {
                        lemma_round_rest_ovf(pd, vd, next, 2);
                        lemma_ra_outer_ovf(pd, vd, init);
                        assert(false);
                    }
                }
                r_prod = r_prod * params_dims[p_i];
                push_to_last(&mut params_groups, p_i as i8);
                p_i = p_i + 1;
                assert(ReshapeState {
                    p: p_i as int,
                    r: r_prod as int,
                    pg: gview(params_groups@),
                    ..s1
                } == next);
            }
            assert(params_groups@.len() == var_groups@.len());
            let ghost s2 = ra_inner2(pd, vd, s1);
            proof {
                lemma_ra_inner2(pd, vd, s1);
                assert(s2 == ReshapeState {
                    p: p_i as int,
                    v: v_i as int,
                    l: l_prod as int,
                    r: r_prod as int,
                    pg: gview(params_groups@),
                    vg: gview(var_groups@),
                    ovf: false,
                });
            }
            if l_prod == r_prod && v_i < nv && p_i < np {
                push_group(&mut var_groups, v_i as i8);
                push_group(&mut params_groups, p_i as i8);
                assert(params_groups@.len() == var_groups@.len());
                l_prod = var_dims[v_i];
                r_prod = params_dims[p_i];
                v_i = v_i + 1;
                p_i = p_i + 1;
            }
            assert(params_groups@.len() == var_groups@.len());
            assert(ReshapeState {
                p: p_i as int,
                v: v_i as int,
                l: l_prod as int,
                r: r_prod as int,
                pg: gview(params_groups@),
                vg: gview(var_groups@),
                ovf: false,
            } == ra_third(pd, vd, s2));
        }
        let ghost s = fin;
        let ghost cur = ReshapeState {
            p: p_i as int,
            v: v_i as int,
            l: l_prod as int,
            r: r_prod as int,
            pg: gview(params_groups@),
            vg: gview(var_groups@),
            ovf: false,
        };
        assert(ra_outer(pd, vd, cur) == cur);
        assert(s == cur);
        proof {
            if s.p < np {
                assert(s.pg.update(s.pg.len() - 1, s.pg.last() + Seq::new(0, |i: int| (s.p + i) as i8)) =~= s.pg);
            }
            if s.v < nv {
                assert(s.vg.update(s.vg.len() - 1, s.vg.last() + Seq::new(0, |i: int| (s.v + i) as i8)) =~= s.vg);
            }
        }
        while p_i < np
            invariant
                np == pd.len(),
                s.p <= p_i <= np,
                s.pg.len() == params_groups@.len(),
                s == ra_outer(pd, vd, init),
                params_groups@.len() > 0 || p_i == np,
                gview(params_groups@) == (if s.p < np {
                    s.pg.update(
                        s.pg.len() - 1,
                        s.pg.last() + Seq::new((p_i - s.p) as nat, |i: int| (s.p + i) as i8),
                    )
                } else {
                    s.pg
                }),
            decreases np - p_i,
        {
            let ghost before = gview(params_groups@);
            push_to_last(&mut params_groups, p_i as i8);
            proof {
                let k = (p_i - s.p) as nat;
                assert((s.pg.last() + Seq::new(k, |i: int| (s.p + i) as i8)).push(p_i as i8) =~= s.pg.last()
                    + Seq::new(k + 1, |i: int| (s.p + i) as i8));
            }
            p_i = p_i + 1;
            assert(gview(params_groups@) =~= s.pg.update(
                s.pg.len() - 1,
                s.pg.last() + Seq::new((p_i - s.p) as nat, |i: int| (s.p + i) as i8),
            ));
        }
        while v_i < nv
            invariant
                nv == vd.len(),
                s.v <= v_i <= nv,
                s.vg.len() == var_groups@.len(),
                s == ra_outer(pd, vd, init),
                var_groups@.len() > 0 || v_i == nv,
                gview(var_groups@) == (if s.v < nv {
                    s.vg.update(
                        s.vg.len() - 1,
                        s.vg.last() + Seq::new((v_i - s.v) as nat, |i: int| (s.v + i) as i8),
                    )
                } else {
                    s.vg
                }),
            decreases nv - v_i,
        {
            push_to_last(&mut var_groups, v_i as i8);
            proof {
                let k = (v_i - s.v) as nat;
                assert((s.vg.last() + Seq::new(k, |i: int| (s.v + i) as i8)).push(v_i as i8) =~= s.vg.last()
                    + Seq::new(k + 1, |i: int| (s.v + i) as i8));
            }
            v_i = v_i + 1;
            assert(gview(var_groups@) =~= s.vg.update(
                s.vg.len() - 1,
                s.vg.last() + Seq::new((v_i - s.v) as nat, |i: int| (s.v + i) as i8),
            ));
        }
        let ghost g = ra_groups(pd, vd);
        assert(gview(var_groups@) == g.vg);
        assert(gview(params_groups@) == g.pg);
        let ghost pn = param.name@;
        let ghost vn = inst.var_name@;
        let mut result: Vec<SplitMap> = Vec::new();
        let ng = var_groups.len();
        let mut i: usize = 0;
        while i < ng
            invariant
                ng == var_groups@.len(),
                ng == params_groups@.len(),
                pn == param.name@,
                vn == inst.var_name@,
                gview(var_groups@) == g.vg,
                gview(params_groups@) == g.pg,
                i <= ng,
                views(result@) == reshape_maps(pn, vn, g.vg, g.pg, i as int),
            decreases ng - i,
        {
            let xs = &var_groups[i];
            let ys = &params_groups[i];
            let ghost base = views(result@);
            let nx = xs.len();
            let mut j: usize = 0;
            while j < nx
                invariant
                    nx == xs@.len(),
                    pn == param.name@,
                    vn == inst.var_name@,
                    j <= nx,
                    views(result@) == base + reshape_group(pn, vn, xs@.take(j as int), ys@),
                decreases nx - j,
            {
                let ghost mid = views(result@);
                let ny = ys.len();
                let mut k: usize = 0;
                while k < ny
                    invariant
                        ny == ys@.len(),
                        pn == param.name@,
                        vn == inst.var_name@,
                        k <= ny,
                        j < nx,
                        nx == xs@.len(),
                        views(result@) == mid + reshape_row(pn, vn, xs@[j as int], ys@.take(k as int)),
                    decreases ny - k,
                {
                    add_keys(&mut result, kv2(&param.name, ys[k], &inst.var_name, xs[j]));
                    assert(reshape_row(pn, vn, xs@[j as int], ys@.take(k + 1)) =~= reshape_row(
                        pn,
                        vn,
                        xs@[j as int],
                        ys@.take(k as int),
                    ).push(smap(seq![(pn, ys@[k as int]), (vn, xs@[j as int])])));
                    k = k + 1;
                    assert(views(result@) =~= mid + reshape_row(pn, vn, xs@[j as int], ys@.take(k as int)));
                }
                assert(ys@.take(ny as int) =~= ys@);
                assert(xs@.take(j + 1).drop_last() =~= xs@.take(j as int));
                j = j + 1;
                assert(views(result@) =~= base + reshape_group(pn, vn, xs@.take(j as int), ys@));
            }
            assert(xs@.take(nx as int) =~= xs@);
            assert(g.vg[i as int] == xs@);
            assert(g.pg[i as int] == ys@);
            i = i + 1;
            assert(views(result@) =~= reshape_maps(pn, vn, g.vg, g.pg, i as int));
        }
        let rep = Self::replicate_split(inst)?;
        add_keys(&mut result, rep);
        assert(views(result@) =~= spec_d_reshape_alt(*inst)->Ok_0);
        Ok(result)
    }
}

} // verus!

verus! {

/// Whether `n` names an elementwise operation.
pub open spec fn is_elem_op(n: Seq<char>) -> bool {
    n == "add"@ || n == "and"@ || n == "divide"@ || n == "subtract"@ || n == "multiply"@ || n
        == "maximum"@ || n == "abs"@ || n == "negate"@ || n == "sine"@ || n == "cosine"@ || n
        == "sqrt"@ || n == "rsqrt"@ || n == "log"@ || n == "exponential"@ || n == "convert"@ || n
        == "compare"@ || n == "all-reduce"@ || n == "select"@
}

/// Whether `n` names an operation whose result alone is split.
pub open spec fn is_identity_op(n: Seq<char>) -> bool {
    n == "parameter"@ || n == "constant"@ || n == "copy"@ || n == "rng"@ || n == "iota"@ || n
        == "tuple"@
}

/// The derivation of `inst`, chosen by the name of its operation; an
/// operation without its own rule is only replicated.
pub open spec fn spec_d(inst: Instruction) -> DView {
    let n = inst.function.name@;
    if n == "dot"@ {
        spec_d_matmul(inst)
    } else if is_elem_op(n) {
        spec_d_elem(inst)
    } else if n == "reshape"@ {
        spec_d_reshape_alt(inst)
    } else if is_identity_op(n) {
        spec_d_identity(inst)
    } else if n == "reduce"@ {
        spec_d_reduce(inst)
    } else if n == "transpose"@ {
        spec_d_transpose(inst)
    } else if n == "gather"@ {
        spec_d_gather(inst)
    } else if n == "scatter"@ {
        spec_d_scatter(inst)
    } else if n == "slice"@ || n == "pad"@ {
        spec_d_pad_slice(inst)
    } else if n == "concatenate"@ {
        spec_d_concat(inst)
    } else if n == "padded_where"@ {
        spec_d_padded_where(inst)
    } else if n == "broadcast"@ {
        spec_d_broadcast(inst)
    } else {
        spec_d_replicate(inst)
    }
}

/// What `inst` needs to be derived without failing an assertion.
pub open spec fn d_ok(inst: Instruction) -> bool {
    let n = inst.function.name@;
    if n == "dot"@ {
        matmul_ok(inst)
    } else if is_elem_op(n) {
        &&& inst.function.return_types@.len() > 0
        &&& ret_dims_or_empty(inst).len() <= i32::MAX
        &&& elem_shapes_agree(inst)
    } else if n == "reshape"@ {
        reshape_alt_ok(inst)
    } else if is_identity_op(n) {
        &&& inst.function.return_types@.len() > 0
        &&& ret_dims_or_empty(inst).len() <= i32::MAX
    } else if n == "reduce"@ {
        reduce_ok(inst)
    } else if n == "transpose"@ {
        transpose_ok(inst)
    } else if n == "gather"@ {
        gather_ok(inst)
    } else if n == "scatter"@ {
        scatter_ok(inst)
    } else if n == "slice"@ || n == "pad"@ {
        pad_slice_ok(inst)
    } else if n == "concatenate"@ {
        concat_ok(inst)
    } else if n == "padded_where"@ {
        padded_where_ok(inst)
    } else if n == "broadcast"@ {
        broadcast_ok(inst)
    } else {
        true
    }
}

/// Whether `n` names an elementwise operation.
fn elem_op(n: &str) -> (r: bool)
    ensures
        r == is_elem_op(n@),
{
    str_eq(n, "add") || str_eq(n, "and") || str_eq(n, "divide") || str_eq(n, "subtract")
        || str_eq(n, "multiply") || str_eq(n, "maximum") || str_eq(n, "abs") || str_eq(n, "negate")
        || str_eq(n, "sine") || str_eq(n, "cosine") || str_eq(n, "sqrt") || str_eq(n, "rsqrt")
        || str_eq(n, "log") || str_eq(n, "exponential") || str_eq(n, "convert") || str_eq(
        n,
        "compare",
    ) || str_eq(n, "all-reduce") || str_eq(n, "select")
}

/// Whether `n` names an operation whose result alone is split.
pub(crate) fn identity_op(n: &str) -> (r: bool)
    ensures
        r == is_identity_op(n@),
{
    str_eq(n, "parameter") || str_eq(n, "constant") || str_eq(n, "copy") || str_eq(n, "rng")
        || str_eq(n, "iota") || str_eq(n, "tuple")
}

impl<'a> Derivation<'a> {
    /// The derivation of `inst`, chosen by the name of its operation.
    pub fn d(inst: &Instruction) -> (r: Result<Vec<SplitMap>, DeriveError>)
        requires
            d_ok(*inst),
        ensures
            dres_view(r) == spec_d(*inst),
    {
        let n = inst.function.name.as_str();
        if str_eq(n, "dot") {
            Self::d_matmul(inst)
        } else if elem_op(n) {
            Self::d_elem(inst)
        } else if str_eq(n, "reshape") {
            Self::d_reshape_alt(inst)
        } else if identity_op(n) {
            Self::d_identity(inst)
        } else if str_eq(n, "reduce") {
            Self::d_reduce(inst)
        } else if str_eq(n, "transpose") {
            Self::d_transpose(inst)
        } else if str_eq(n, "gather") {
            Self::d_gather(inst)
        } else if str_eq(n, "scatter") {
            Self::d_scatter(inst)
        } else if str_eq(n, "slice") || str_eq(n, "pad") {
            Self::d_pad_slice(inst)
        } else if str_eq(n, "concatenate") {
            Self::d_concat(inst)
        } else if str_eq(n, "padded_where") {
            Self::d_padded_where(inst)
        } else if str_eq(n, "broadcast") {
            Self::d_broadcast(inst)
        } else {
            Self::d_replicate(inst)
        }
    }
}

} // verus!

verus! {

/// The instruction can be derived: it passes the assertions of its rule and
/// its rule does not fail.
pub open spec fn derivable(inst: Instruction) -> bool {
    d_ok(inst) && spec_d(inst) is Ok
}

/// Every instruction of `fs` can be derived.
pub open spec fn all_derivable(fs: Seq<HLOFunction>) -> bool {
    forall|f: int, j: int|
        0 <= f < fs.len() && 0 <= j < fs[f].body@.len() ==> #[trigger] derivable(fs[f].body@[j])
}

/// The plain view of a derivation table.
pub open spec fn tview(t: Seq<Vec<Vec<SplitMap>>>) -> Seq<Seq<Seq<Map<Seq<char>, i8>>>> {
    t.map_values(|row: Vec<Vec<SplitMap>>| row@.map_values(|c: Vec<SplitMap>| views(c@)))
}

/// The derivation of every instruction of `fs`, by position.
pub open spec fn spec_table(fs: Seq<HLOFunction>) -> Seq<Seq<Seq<Map<Seq<char>, i8>>>> {
    Seq::new(
        fs.len(),
        |f: int| Seq::new(fs[f].body@.len(), |j: int| spec_d(fs[f].body@[j])->Ok_0),
    )
}

/// A copy of a list of split maps.
pub fn copy_maps(v: &Vec<SplitMap>) -> (r: Vec<SplitMap>)
    ensures
        views(r@) == views(v@),
{
    let mut r: Vec<SplitMap> = Vec::new();
    let n = v.len();
    let mut i: usize = 0;
    while i < n
        invariant
            n == v@.len(),
            i <= n,
            views(r@) == views(v@).take(i as int),
        decreases n - i,
    {
        let ghost before = r@;
        r.push(v[i].duplicate());
        assert(views(r@) =~= views(before).push(v@[i as int]@));
        i = i + 1;
        assert(views(r@) =~= views(v@).take(i as int));
    }
    assert(views(v@).take(n as int) =~= views(v@));
    r
}

/// A copy of a derivation table.
pub fn copy_table(t: &Vec<Vec<Vec<SplitMap>>>) -> (r: Vec<Vec<Vec<SplitMap>>>)
    ensures
        tview(r@) == tview(t@),
{
    let mut r: Vec<Vec<Vec<SplitMap>>> = Vec::new();
    let n = t.len();
    let mut f: usize = 0;
    while f < n
        invariant
            n == t@.len(),
            f <= n,
            tview(r@) == tview(t@).take(f as int),
        decreases n - f,
    {
        let m = t[f].len();
        let mut row: Vec<Vec<SplitMap>> = Vec::new();
        let mut j: usize = 0;
        while j < m
            invariant
                f < n,
                n == t@.len(),
                m == t@[f as int]@.len(),
                j <= m,
                row@.map_values(|c: Vec<SplitMap>| views(c@)) == t@[f as int]@.map_values(
                    |c: Vec<SplitMap>| views(c@),
                ).take(j as int),
            decreases m - j,
        {
            let ghost before = row@;
            let c = copy_maps(&t[f][j]);
            row.push(c);
            assert(row@.map_values(|c: Vec<SplitMap>| views(c@)) =~= before.map_values(
                |c: Vec<SplitMap>| views(c@),
            ).push(views(t@[f as int]@[j as int]@)));
            j = j + 1;
            assert(row@.map_values(|c: Vec<SplitMap>| views(c@)) =~= t@[f as int]@.map_values(
                |c: Vec<SplitMap>| views(c@),
            ).take(j as int));
        }
        assert(t@[f as int]@.map_values(|c: Vec<SplitMap>| views(c@)).take(m as int)
            =~= t@[f as int]@.map_values(|c: Vec<SplitMap>| views(c@)));
        let ghost before = r@;
        r.push(row);
        assert(tview(r@) =~= tview(before).push(tview(t@)[f as int]));
        f = f + 1;
        assert(tview(r@) =~= tview(t@).take(f as int));
    }
    assert(tview(t@).take(n as int) =~= tview(t@));
    r
}

/// Whether the table `t` holds an entry at `(f, j)`.
pub open spec fn table_has(t: Seq<Vec<Vec<SplitMap>>>, f: int, j: int) -> bool {
    0 <= f < t.len() && 0 <= j < t[f]@.len()
}

impl<'a> Derivation<'a> {
    /// A derivation without a module and with an empty cache.
    pub fn new() -> (r: Derivation<'a>)
        ensures
            r.derive_cache@.len() == 0,
            r.ast is None,
            !r.lazy_cache,
    {
        Derivation { derive_cache: Vec::new(), lazy_cache: false, ast: None }
    }

    /// The derivations of every instruction of `ast`, by position.
    pub fn cache_ast(ast_root: &HLORoot) -> (r: Result<Vec<Vec<Vec<SplitMap>>>, DeriveError>)
        requires
            all_derivable(ast_root.functions@),
        ensures
            r matches Ok(t) && tview(t@) == spec_table(ast_root.functions@),
    {
        let ghost fs = ast_root.functions@;
        let mut t: Vec<Vec<Vec<SplitMap>>> = Vec::new();
        let n = ast_root.functions.len();
        let mut f: usize = 0;
        while f < n
            invariant
                fs == ast_root.functions@,
                n == fs.len(),
                f <= n,
                all_derivable(fs),
                tview(t@) == spec_table(fs).take(f as int),
            decreases n - f,
        {
            let body = &ast_root.functions[f].body;
            let m = body.len();
            let mut row: Vec<Vec<SplitMap>> = Vec::new();
            let mut j: usize = 0;
            while j < m
                invariant
                    fs == ast_root.functions@,
                    n == fs.len(),
                    f < n,
                    *body == fs[f as int].body,
                    m == body@.len(),
                    j <= m,
                    all_derivable(fs),
                    row@.map_values(|c: Vec<SplitMap>| views(c@)) == spec_table(fs)[f as int].take(j as int),
                decreases m - j,
            {
                assert(derivable(fs[f as int].body@[j as int]));
                let d = Self::d(&body[j]);
                let ghost before = row@;
                match d {
                    Ok(maps) => {
                        row.push(maps);
                        assert(row@.map_values(|c: Vec<SplitMap>| views(c@)) =~= before.map_values(
                            |c: Vec<SplitMap>| views(c@),
                        ).push(spec_table(fs)[f as int][j as int]));
                    },
                    Err(e) => {
                        assert(false);
                        return Err(e);
                    },
                }
                j = j + 1;
                assert(row@.map_values(|c: Vec<SplitMap>| views(c@)) =~= spec_table(fs)[f as int].take(j as int));
            }
            assert(spec_table(fs)[f as int].take(m as int) =~= spec_table(fs)[f as int]);
            let ghost before_t = t@;
            t.push(row);
            assert(tview(t@) =~= tview(before_t).push(spec_table(fs)[f as int]));
            f = f + 1;
            assert(tview(t@) =~= spec_table(fs).take(f as int));
        }
        assert(spec_table(fs).take(n as int) =~= spec_table(fs));
        Ok(t)
    }

    /// Fills the cache with the derivations of every instruction of `ast`.
    pub fn cache_all_derive(&mut self, ast_root: &HLORoot) -> (r: Result<(), DeriveError>)
        requires
            all_derivable(ast_root.functions@),
        ensures
            r is Ok,
            tview(final(self).derive_cache@) == spec_table(ast_root.functions@),
            final(self).ast == old(self).ast,
            final(self).lazy_cache == old(self).lazy_cache,
    {
        let t = Self::cache_ast(ast_root)?;
        self.derive_cache = t;
        Ok(())
    }

    /// A derivation of the module `ast`, with every instruction derived.
    pub fn new_with_ast(ast: &'a HLORoot) -> (r: Derivation<'a>)
        requires
            all_derivable(ast.functions@),
        ensures
            tview(r.derive_cache@) == spec_table(ast.functions@),
            r.ast == Some(ast),
            !r.lazy_cache,
    {
        let mut d = Derivation { derive_cache: Vec::new(), lazy_cache: false, ast: Some(ast) };
        let _ = d.cache_all_derive(ast);
        d
    }

    /// A copy of the cache; refused while it is empty.
    pub fn cache_export(&self) -> (r: Result<Vec<Vec<Vec<SplitMap>>>, DeriveError>)
        ensures
            self.derive_cache@.len() == 0 ==> r == Err::<Vec<Vec<Vec<SplitMap>>>, DeriveError>(
                DeriveError::CacheNotAvailable(),
            ),
            self.derive_cache@.len() > 0 ==> (r matches Ok(t) && tview(t@) == tview(self.derive_cache@)),
    {
        if self.derive_cache.len() == 0 {
            return Err(DeriveError::CacheNotAvailable());
        }
        Ok(copy_table(&self.derive_cache))
    }

    /// The derivation of the instruction at `(f, j)`, filling the cache from
    /// the module when it does not hold it; refused without a module.
    pub fn derive(&mut self, f: usize, j: usize) -> (r: Result<Vec<SplitMap>, DeriveError>)
        requires
            !table_has(old(self).derive_cache@, f as int, j as int) ==> (old(self).ast matches Some(a) ==> {
                &&& all_derivable(a.functions@)
                &&& f < a.functions@.len()
                &&& j < a.functions@[f as int].body@.len()
            }),
        ensures
            table_has(old(self).derive_cache@, f as int, j as int) ==> (r matches Ok(v) && views(v@)
                == tview(old(self).derive_cache@)[f as int][j as int] && final(self).derive_cache
                == old(self).derive_cache),
            !table_has(old(self).derive_cache@, f as int, j as int) ==> match old(self).ast {
                None => r == Err::<Vec<SplitMap>, DeriveError>(DeriveError::ASTNotPresent()) && final(self).derive_cache
                    == old(self).derive_cache,
                Some(a) => (r matches Ok(v) && views(v@) == spec_d(a.functions@[f as int].body@[j as int])->Ok_0
                    && tview(final(self).derive_cache@) == spec_table(a.functions@)),
            },
            final(self).ast == old(self).ast,
    {
        if f < self.derive_cache.len() && j < self.derive_cache[f].len() {
            return Ok(copy_maps(&self.derive_cache[f][j]));
        }
        let ast = match self.ast {
            Some(a) => a,
            None => {
                return Err(DeriveError::ASTNotPresent());
            },
        };
        self.cache_all_derive(ast)?;
        assert(tview(self.derive_cache@).len() == self.derive_cache@.len());
        assert(tview(self.derive_cache@)[f as int].len() == self.derive_cache@[f as int]@.len());
        assert(tview(self.derive_cache@)[f as int][j as int] == spec_d(ast.functions@[f as int].body@[j as int])->Ok_0);
        Ok(copy_maps(&self.derive_cache[f][j]))
    }

    /// The cached derivation of the instruction at `(f, j)`; refused when
    /// the cache does not hold it.
    pub fn derive_infer(&self, f: usize, j: usize) -> (r: Result<&Vec<SplitMap>, DeriveError>)
        ensures
            table_has(self.derive_cache@, f as int, j as int) ==> r == Ok::<&Vec<SplitMap>, DeriveError>(
                &self.derive_cache@[f as int]@[j as int],
            ) && views(self.derive_cache@[f as int]@[j as int]@) == tview(self.derive_cache@)[f as int][j as int],
            !table_has(self.derive_cache@, f as int, j as int) ==> (r matches Err(DeriveError::InstNotInCache(s)) && s@
                == crate::ir::text::position_text(f as nat, j as nat)),
    {
        Self::lookup(&self.derive_cache, f, j)
    }

    /// The derivation that the table `cache` holds for the instruction at
    /// `(f, j)`; refused when the table does not hold it.
    pub fn lookup(cache: &Vec<Vec<Vec<SplitMap>>>, f: usize, j: usize) -> (r: Result<&Vec<SplitMap>, DeriveError>)
        ensures
            table_has(cache@, f as int, j as int) ==> r == Ok::<&Vec<SplitMap>, DeriveError>(&cache@[f as int]@[j as int]),
            !table_has(cache@, f as int, j as int) ==> (r matches Err(DeriveError::InstNotInCache(s)) && s@
                == crate::ir::text::position_text(f as nat, j as nat)),
    {
        if f < cache.len() && j < cache[f].len() {
            Ok(&cache[f][j])
        } else {
            Err(DeriveError::InstNotInCache(crate::ir::text::write_position(f, j)))
        }
    }
}

} // verus!

verus! {

impl RichParam {
    /// The indices of the operand's dimensions, up to their number taken as
    /// an `i32`; none when it has no dimensions.
    pub fn get_all_dims_index(&self) -> (r: Result<Vec<i32>, DeriveError>)
        ensures
            r matches Ok(v) && v@ == index_seq(
                if (dims_or_empty(*self).len() as i32) < 0 {
                    0
                } else {
                    (dims_or_empty(*self).len() as i32) as int
                },
            ),
    {
        let len = match &self.param_type.dimensions {
            Some(d) => d.len(),
            None => 0,
        };
        let n = len as i32;
        if n < 0 {
            assert(index_seq(0) =~= Seq::<i32>::empty());
            Ok(Vec::new())
        } else {
            Ok(dims_index(n as usize))
        }
    }
}

/// The product of `s[a..=b]`.
pub open spec fn rs_prod(s: Seq<i32>, a: int, b: int) -> int
    decreases b - a + 1,
{
    if b < a {
        1
    } else {
        rs_prod(s, a, b - 1) * s[b]
    }
}

/// Whether multiplying out `s[a..=b]` from the left leaves the `i32` range.
pub open spec fn rs_ovf(s: Seq<i32>, a: int, b: int) -> bool
    decreases b - a + 1,
{
    if b < a {
        false
    } else {
        rs_ovf(s, a, b - 1) || out_of_i32(rs_prod(s, a, b))
    }
}

/// Whether the element `i` of `l` is the product of `r[cur..=cur+t]`, with
/// the last element of `l` matched by a run that ends `r` and no other.
pub open spec fn rs_fits(l: Seq<i32>, r: Seq<i32>, i: int, cur: int, t: int) -> bool {
    &&& r.len() > cur + t
    &&& l[i] == rs_prod(r, cur, cur + t)
    &&& ((i != l.len() - 1 && cur + t != r.len() - 1) || (i == l.len() - 1 && cur + t == r.len() - 1))
}

/// The longest run, of at most `t + 1` elements, that matches element `i`;
/// `-1` when none does.
pub open spec fn rs_pick(l: Seq<i32>, r: Seq<i32>, i: int, cur: int, t: int) -> int
    decreases t + 1,
{
    if t < 0 {
        -1
    } else if rs_fits(l, r, i, cur, t) {
        t
    } else {
        rs_pick(l, r, i, cur, t - 1)
    }
}

/// Whether looking for the run of element `i` multiplies out of the `i32`
/// range before it finds one.
pub open spec fn rs_pick_ovf(l: Seq<i32>, r: Seq<i32>, i: int, cur: int, t: int) -> bool
    decreases t + 1,
{
    if t < 0 {
        false
    } else if r.len() > cur + t && rs_ovf(r, cur, cur + t) {
        true
    } else if rs_fits(l, r, i, cur, t) {
        false
    } else {
        rs_pick_ovf(l, r, i, cur, t - 1)
    }
}

/// Matching the first `n` elements of `l` to consecutive runs of `r`: the
/// start of each run and the end of the last, or nothing when an element
/// has no run.
pub open spec fn rs_run(l: Seq<i32>, r: Seq<i32>, n: int) -> Option<(Seq<int>, int)>
    decreases n,
{
    if n <= 0 {
        Some((Seq::empty(), 0))
    } else {
        match rs_run(l, r, n - 1) {
            None => None,
            Some((st, cur)) => {
                let t = rs_pick(l, r, n - 1, cur, 3);
                if t < 0 {
                    None
                } else {
                    Some((st.push(cur), cur + t + 1))
                }
            },
        }
    }
}

/// Whether matching the first `n` elements multiplies out of the `i32`
/// range.
pub open spec fn rs_run_ovf(l: Seq<i32>, r: Seq<i32>, n: int) -> bool
    decreases n,
{
    if n <= 0 {
        false
    } else {
        rs_run_ovf(l, r, n - 1) || match rs_run(l, r, n - 1) {
            Some((st, cur)) => rs_pick_ovf(l, r, n - 1, cur, 3),
            None => false,
        }
    }
}

/// The index of the last run among the first `n` that starts at or before
/// `d`; `0` when none does.
pub open spec fn rs_group(st: Seq<int>, d: int, n: int) -> int
    decreases n,
{
    if n <= 1 {
        0
    } else if st[n - 1] <= d {
        n - 1
    } else {
        rs_group(st, d, n - 1)
    }
}

/// The shorter and the longer of the operand dimensions `bd` and the
/// result dimensions `ad`; of two equally long lists the result's comes
/// first.
pub open spec fn rs_sides(bd: Seq<i32>, ad: Seq<i32>) -> (Seq<i32>, Seq<i32>) {
    if bd.len() < ad.len() {
        (bd, ad)
    } else {
        (ad, bd)
    }
}

/// The splits of a reshape by matching each dimension of the shorter side
/// to a run of at most four consecutive dimensions of the longer side with
/// the same product: each operand dimension is split together with the
/// result dimension that its run starts at, or that holds it; plus
/// replication.
pub open spec fn spec_d_reshape(inst: Instruction) -> DView {
    let ps = inst.function.params->0@;
    let p0 = ps[0].name@;
    let v = inst.var_name@;
    match sv_dims(ps[0]) {
        Err(e) => Err(e),
        Ok(bd) => match inst.function.return_types@[0].dimensions {
            None => Err(DeriveErrorView::OptionNone("inst.fn.return_type.dimensions"@)),
            Some(ad) => {
                let (l, r) = rs_sides(bd, ad@);
                match rs_run(l, r, l.len() as int) {
                    None => Err(DeriveErrorView::NoProductMatch(v)),
                    Some((st, cur)) => {
                        let nd = bd.len() as int;
                        if bd.len() < ad@.len() {
                            Ok(
                                Seq::new(
                                    nd as nat,
                                    |d: int| smap(seq![(p0, (d as i32) as i8), (v, (st[d] as i32) as i8)]),
                                ).push(smap(all_pairs(v, ps, -1i8))),
                            )
                        } else if nd > cur {
                            Err(DeriveErrorView::DimensionNotMapped(v))
                        } else {
                            Ok(
                                Seq::new(
                                    nd as nat,
                                    |d: int|
                                        smap(
                                            seq![(p0, (d as i32) as i8), (v, (rs_group(st, d, st.len() as int) as i32) as i8)],
                                        ),
                                ).push(smap(all_pairs(v, ps, -1i8))),
                            )
                        }
                    },
                }
            },
        },
    }
}

/// What the reshape by matching needs of `inst` to be derived without
/// failing: one operand, a result type, fewer operand dimensions than an
/// `i32` counts, and products that stay in the `i32` range.
pub open spec fn reshape_ok(inst: Instruction) -> bool {
    &&& has_param_len(inst, 1)
    &&& inst.function.return_types@.len() > 0
    &&& dims_or_empty(inst.function.params->0@[0]).len() <= i32::MAX
    &&& sv_dims(inst.function.params->0@[0]) matches Ok(bd) ==> (
    inst.function.return_types@[0].dimensions matches Some(ad) ==> {
        let (l, r) = rs_sides(bd, ad@);
        !rs_run_ovf(l, r, l.len() as int)
    })
}

/// The product of `r[a..=b]`, multiplied out from the left.
fn run_product(r: &Vec<i32>, a: usize, b: usize) -> (p: i32)
    requires
        a <= b < r@.len(),
        !rs_ovf(r@, a as int, b as int),
    ensures
        p == rs_prod(r@, a as int, b as int),
{
    let mut p: i32 = 1;
    let mut k: usize = a;
    let n = r.len();
    proof {
        lemma_rs_ovf_prefix(r@, a as int, a as int, b as int);
    }
    while k <= b
        invariant
            a <= k <= b + 1,
            b < r@.len(),
            n == r@.len(),
            !rs_ovf(r@, a as int, b as int),
            p == rs_prod(r@, a as int, k - 1),
        decreases b + 1 - k,
    {
        proof {
            lemma_rs_ovf_prefix(r@, a as int, k as int, b as int);
        }
        p = p * r[k];
        k = k + 1;
    }
    p
}

/// No overflow over `a..=b` means none over any prefix `a..=k`, and the
/// prefix products stay in range.
proof fn lemma_rs_ovf_prefix(s: Seq<i32>, a: int, k: int, b: int)
    requires
        a <= k <= b,
        !rs_ovf(s, a, b),
    ensures
        !rs_ovf(s, a, k),
        !out_of_i32(rs_prod(s, a, k)),
    decreases b - k,
{
    if k < b {
        lemma_rs_ovf_prefix(s, a, k, b - 1);
    }
}

impl<'a> Derivation<'a> {
    /// Derivation of a reshape by matching dimensions to runs of equal
    /// product.
    pub fn d_reshape(inst: &Instruction) -> (r: Result<Vec<SplitMap>, DeriveError>)
        requires
            reshape_ok(*inst),
        ensures
            dres_view(r) == spec_d_reshape(*inst),
    {
        inst.assert_param_len(1);
        let param = inst.get_param(0)?;
        let all_dims = param.get_all_dims_index()?;
        let before = param.get_dims()?;
        let after = match &inst.function.return_types[0].dimensions {
            Some(d) => d,
            None => {
                return Err(DeriveError::OptionNone(owned("inst.fn.return_type.dimensions")));
            },
        };
        let ghost bd = before@;
        let ghost ad = after@;
        let (l, r) = if before.len() < after.len() {
            (before, after)
        } else {
            (after, before)
        };
        assert((l@, r@) == rs_sides(bd, ad));
        let ghost nl = l@.len() as int;
        let rn = r.len();
        let mut starts: Vec<usize> = Vec::new();
        let mut cur: usize = 0;
        let mut i: usize = 0;
        while i < l.len()
            invariant
                (l@, r@) == rs_sides(bd, ad),
                !rs_run_ovf(l@, r@, l@.len() as int),
                i <= l@.len(),
                rs_run(l@, r@, i as int) matches Some((st, c)) && st == starts@.map_values(|x: usize| x as int)
                    && c == cur,
                cur <= r@.len(),
                starts@.len() == i,
                rn == r@.len(),
                sv_dims(inst.function.params->0@[0]) == Ok::<Seq<i32>, DeriveErrorView>(bd),
                inst.function.return_types@[0].dimensions matches Some(dd) && dd@ == ad,
                inst.function.params matches Some(ps) && ps@.len() == 1,
                inst.function.return_types@.len() > 0,
            decreases l@.len() - i,
        {
            proof {
                lemma_rs_run_ovf_mono(l@, r@, i as int + 1, l@.len() as int);
            }
            let x = l[i];
            let mut chosen: usize = 4;
            let mut id: usize = 4;
            while id > 0 && chosen == 4
                invariant
                    id <= 4,
                    i < l@.len(),
                    cur <= r@.len(),
                    !rs_pick_ovf(l@, r@, i as int, cur as int, 3),
                    chosen == 4 ==> rs_pick(l@, r@, i as int, cur as int, 3) == rs_pick(l@, r@, i as int, cur as int, id - 1),
                    chosen == 4 ==> !rs_pick_ovf(l@, r@, i as int, cur as int, id - 1),
                    chosen != 4 ==> chosen < 4 && rs_pick(l@, r@, i as int, cur as int, 3) == chosen,
                    x == l@[i as int],
                decreases id,
            {
                let t = id - 1;
                if t < r.len() - cur {
                    let p = run_product(r, cur, cur + t);
                    let last = l.len() - 1;
                    if x == p && ((i != last && cur + t != r.len() - 1) || (i == last && cur + t == r.len() - 1)) {
                        chosen = t;
                    }
                }
                id = id - 1;
            }
            if chosen == 4 {
                proof {
                    assert(rs_pick(l@, r@, i as int, cur as int, 3) == -1);
                    assert(rs_run(l@, r@, i as int + 1) is None);
                    lemma_rs_run_none(l@, r@, i as int + 1, l@.len() as int);
                }
                return Err(DeriveError::NoProductMatch(inst.var_name.clone()));
            }
            proof {
                lemma_rs_pick(l@, r@, i as int, cur as int, 3);
            }
            let ghost before_st = starts@;
            starts.push(cur);
            assert(starts@.map_values(|x: usize| x as int) =~= before_st.map_values(|x: usize| x as int).push(cur as int));
            cur = cur + chosen + 1;
            i = i + 1;
        }
        let ghost st = starts@.map_values(|x: usize| x as int);
        let param_name = &param.name;
        let var = &inst.var_name;
        let mut result: Vec<SplitMap> = Vec::new();
        let nd = all_dims.len();
        assert(nd == bd.len());
        if before.len() < after.len() {
            let mut d: usize = 0;
            while d < nd
                invariant
                    nd == all_dims@.len(),
                    nd == bd.len(),
                    all_dims@ == index_seq(nd as int),
                    starts@.len() == nd,
                    st == starts@.map_values(|x: usize| x as int),
                    d <= nd,
                    views(result@) == Seq::new(
                        d as nat,
                        |e: int| smap(seq![(param_name@, (e as i32) as i8), (var@, (st[e] as i32) as i8)]),
                    ),
                decreases nd - d,
            {
                let ghost before_r = views(result@);
                let kv = vec![(param_name.clone(), all_dims[d] as i8), (var.clone(), starts[d] as i32 as i8)];
                assert(pairs_view(kv@) =~= seq![(param_name@, (d as i32) as i8), (var@, (st[d as int] as i32) as i8)]);
                add_keys(&mut result, kv);
                d = d + 1;
                assert(views(result@) =~= Seq::new(
                    d as nat,
                    |e: int| smap(seq![(param_name@, (e as i32) as i8), (var@, (st[e] as i32) as i8)]),
                ));
            }
        } else {
            if nd > cur {
                return Err(DeriveError::DimensionNotMapped(inst.var_name.clone()));
            }
            let ns = starts.len();
            let mut d: usize = 0;
            while d < nd
                invariant
                    nd == all_dims@.len(),
                    nd == bd.len(),
                    nd <= cur,
                    all_dims@ == index_seq(nd as int),
                    ns == starts@.len(),
                    st == starts@.map_values(|x: usize| x as int),
                    d <= nd,
                    views(result@) == Seq::new(
                        d as nat,
                        |e: int| smap(seq![(param_name@, (e as i32) as i8), (var@, (rs_group(st, e, st.len() as int) as i32) as i8)]),
                    ),
                decreases nd - d,
            {
                let mut g: usize = ns;
                while g > 1 && starts[g - 1] > d
                    invariant
                        g <= ns,
                        ns == starts@.len(),
                        st == starts@.map_values(|x: usize| x as int),
                        rs_group(st, d as int, ns as int) == rs_group(st, d as int, g as int),
                    decreases g,
                {
                    g = g - 1;
                }
                let grp: usize = if g <= 1 { 0 } else { g - 1 };
                assert(grp as int == rs_group(st, d as int, st.len() as int));
                let kv = vec![(param_name.clone(), all_dims[d] as i8), (var.clone(), grp as i32 as i8)];
                assert(pairs_view(kv@) =~= seq![(param_name@, (d as i32) as i8), (var@, (rs_group(st, d as int, st.len() as int) as i32) as i8)]);
                add_keys(&mut result, kv);
                d = d + 1;
                assert(views(result@) =~= Seq::new(
                    d as nat,
                    |e: int| smap(seq![(param_name@, (e as i32) as i8), (var@, (rs_group(st, e, st.len() as int) as i32) as i8)]),
                ));
            }
        }
        let rep = Self::replicate_split(inst)?;
        add_keys(&mut result, rep);
        Ok(result)
    }
}

/// A run that `rs_pick` finds matches.
proof fn lemma_rs_pick(l: Seq<i32>, r: Seq<i32>, i: int, cur: int, t: int)
    ensures
        rs_pick(l, r, i, cur, t) >= 0 ==> rs_pick(l, r, i, cur, t) <= t && rs_fits(l, r, i, cur, rs_pick(l, r, i, cur, t)),
    decreases t + 1,
{
    if t >= 0 && !rs_fits(l, r, i, cur, t) {
        lemma_rs_pick(l, r, i, cur, t - 1);
    }
}

/// Matching more elements cannot undo an overflow.
proof fn lemma_rs_run_ovf_mono(l: Seq<i32>, r: Seq<i32>, a: int, b: int)
    requires
        a <= b,
        !rs_run_ovf(l, r, b),
    ensures
        !rs_run_ovf(l, r, a),
    decreases b - a,
{
    if a < b {
        lemma_rs_run_ovf_mono(l, r, a, b - 1);
    }
}

/// Once an element has no run, matching more elements finds none either.
proof fn lemma_rs_run_none(l: Seq<i32>, r: Seq<i32>, a: int, b: int)
    requires
        a <= b,
        rs_run(l, r, a) is None,
    ensures
        rs_run(l, r, b) is None,
    decreases b - a,
{
    if a < b {
        lemma_rs_run_none(l, r, a, b - 1);
    }
}

} // verus!

verus! {

/// The split that replicates the result of `inst` and, unless the
/// derivation takes `inst` to only define its result, every operand.
pub open spec fn replication(inst: Instruction) -> Map<Seq<char>, i8> {
    let n = inst.function.name@;
    if n != "dot"@ && !is_elem_op(n) && n != "reshape"@ && is_identity_op(n) {
        smap(seq![(inst.var_name@, -1i8)])
    } else {
        smap(all_pairs(inst.var_name@, inst.function.params->0@, -1i8))
    }
}

/// Replication is always a way to split: whenever the instruction can be
/// derived, one of its derived split maps replicates its result and, unless
/// it only defines its result, every operand.
pub proof fn law_replication_derivable(inst: Instruction)
    requires
        derivable(inst),
    ensures
        spec_d(inst)->Ok_0.contains(replication(inst)),
{
    let n = inst.function.name@;
    let v = inst.var_name@;
    let ps = inst.function.params->0@;
    let ds = spec_d(inst)->Ok_0;
    if n == "dot"@ {
        assert(spec_d(inst) == spec_d_matmul(inst));
        let p0 = pname(inst, 0);
        let p1 = pname(inst, 1);
        assert(ps.len() == 2);
        assert(all_pairs(v, ps, -1i8) =~= seq![(v, -1i8), (p0, -1i8), (p1, -1i8)]);
        reveal_with_fuel(smap, 4);
        assert(smap(seq![(p0, -1i8), (p1, -1i8), (v, -1i8)]) =~= smap(seq![(v, -1i8), (p0, -1i8), (p1, -1i8)]));
        let lcd = sv_meta_vec(inst, "lhs_contracting_dims"@)->Ok_0;
        let rcd = sv_meta_vec(inst, "rhs_contracting_dims"@)->Ok_0;
        let bt = matmul_batch(inst)->Ok_0;
        let rd = inst.function.return_types@[0].dimensions->Some_0;
        let md = matmul_mat_dims(rd@, bt);
        let x1 = first_not_in_from(md, lcd, 0)->Some_0;
        let x2 = first_not_in_from(md, rcd, 0)->Some_0;
        let head = seq![
            smap(seq![(p0, -1i8), (p1, -1i8), (v, -1i8)]),
            smap(seq![(p0, lcd[0] as i8), (p1, rcd[0] as i8), (v, -1i8)]),
            smap(seq![(p0, x1 as i8), (p1, -1i8), (v, md[0] as i8)]),
            smap(seq![(p1, x2 as i8), (p0, -1i8), (v, md[1] as i8)]),
        ];
        assert(ds == head + matmul_batch_maps(p0, p1, v, bt));
        assert(ds[0] == head[0]);
        assert(ds[0] == replication(inst));
    } else if is_elem_op(n) {
        assert(spec_d(inst) == spec_d_elem(inst));
        let m = ret_dims_or_empty(inst).len() as int;
        assert(dim_at(m, m) == -1i8);
        assert(sv_params(inst) == Ok::<Seq<RichParam>, DeriveErrorView>(ps));
        assert(ds == Seq::new((m + 1) as nat, |d: int| smap(all_pairs(v, ps, dim_at(m, d)))));
        assert(ds[m] == smap(all_pairs(v, ps, dim_at(m, m))));
        assert(ds[m] == replication(inst));
    } else if n == "reshape"@ {
        assert(spec_d(inst) == spec_d_reshape_alt(inst));
        let pd = sv_dims(ps[0])->Ok_0;
        let vd = inst.function.return_types@[0].dimensions->Some_0;
        let g = ra_groups(pd, vd@);
        let body = reshape_maps(ps[0].name@, v, g.vg, g.pg, g.vg.len() as int);
        assert(ds == body.push(smap(all_pairs(v, ps, -1i8))));
        assert(ds[ds.len() - 1] == replication(inst));
    } else if is_identity_op(n) {
        assert(spec_d(inst) == spec_d_identity(inst));
        let m = ret_dims_or_empty(inst).len() as int;
        assert(dim_at(m, m) == -1i8);
        assert(ds[m] == replication(inst));
    } else if n == "reduce"@ {
        assert(spec_d(inst) == spec_d_reduce(inst));
        assert(ds[ds.len() - 1] == replication(inst));
    } else if n == "transpose"@ {
        assert(spec_d(inst) == spec_d_transpose(inst));
        assert(ds[ds.len() - 1] == replication(inst));
    } else if n == "gather"@ {
        assert(spec_d(inst) == spec_d_gather(inst));
        assert(ds[4] == replication(inst));
    } else if n == "scatter"@ {
        assert(spec_d(inst) == spec_d_scatter(inst));
        assert(ds[5] == replication(inst));
    } else if n == "slice"@ || n == "pad"@ {
        assert(spec_d(inst) == spec_d_pad_slice(inst));
        assert(ds[ds.len() - 1] == replication(inst));
    } else if n == "concatenate"@ {
        assert(spec_d(inst) == spec_d_concat(inst));
        assert(ds[ds.len() - 1] == replication(inst));
    } else if n == "padded_where"@ {
        assert(spec_d(inst) == spec_d_padded_where(inst));
        assert(ds[1] == replication(inst));
    } else if n == "broadcast"@ {
        assert(spec_d(inst) == spec_d_broadcast(inst));
        assert(ds[ds.len() - 1] == replication(inst));
    } else {
        assert(spec_d(inst) == spec_d_replicate(inst));
        assert(ds[0] == replication(inst));
    }
}

} // verus!

verus! {

/// Some map of `ms` splits `key` along `d`.
pub open spec fn offers(ms: Seq<Map<Seq<char>, i8>>, key: Seq<char>, d: int) -> bool {
    exists|t: int| 0 <= t < ms.len() && ms[t].contains_key(key) && ms[t][key] == d
}

/// A transpose splits its result along the position that the operand's
/// split dimension takes in the permutation: every derived split map that
/// splits the operand along `d` splits the result along the `i` with
/// `dimensions[i] == d`, replication goes with replication, and every
/// operand dimension is offered.
pub proof fn law_transpose_inverse(inst: Instruction)
    requires
        transpose_ok(inst),
        sv_meta_vec(inst, "dimensions"@) is Ok,
        dims_or_empty(inst.function.params->0@[0]).len() <= 127,
        inst.var_name@ != pname(inst, 0),
    ensures
        spec_d_transpose(inst) is Ok,
        ({
            let ms = spec_d_transpose(inst)->Ok_0;
            let td = sv_meta_vec(inst, "dimensions"@)->Ok_0;
            let op = pname(inst, 0);
            let v = inst.var_name@;
            &&& forall|t: int|
                0 <= t < ms.len() ==> {
                    &&& (#[trigger] ms[t]).contains_key(op)
                    &&& ms[t].contains_key(v)
                    &&& ms[t][op] >= 0 ==> 0 <= ms[t][v] < td.len() && td[ms[t][v] as int] == ms[t][op] as i32
                    &&& ms[t][op] < 0 ==> ms[t][op] == -1 && ms[t][v] == -1
                }
            &&& forall|d: int| 0 <= d < td.len() ==> #[trigger] offers(ms, op, d)
        }),
{
    let td = sv_meta_vec(inst, "dimensions"@)->Ok_0;
    let ps = inst.function.params->0@;
    let op = pname(inst, 0);
    let v = inst.var_name@;
    let n = dims_or_empty(ps[0]).len() as int;
    let ms = spec_d_transpose(inst)->Ok_0;
    reveal_with_fuel(smap, 3);
    assert(ms.len() == n + 1);
    assert forall|t: int| 0 <= t < ms.len() implies {
        &&& (#[trigger] ms[t]).contains_key(op)
        &&& ms[t].contains_key(v)
        &&& ms[t][op] >= 0 ==> 0 <= ms[t][v] < td.len() && td[ms[t][v] as int] == ms[t][op] as i32
        &&& ms[t][op] < 0 ==> ms[t][op] == -1 && ms[t][v] == -1
    } by {
        if t < n {
            assert(td.contains(t as i32));
            lemma_first_pos_from(td, t as i32, 0);
            let pos = first_pos_from(td, t as i32, 0)->0;
            let s = seq![(v, pos as i8), (op, (t as i32) as i8)];
            assert(ms[t] == smap(s));
            assert(s.drop_last() =~= seq![(v, pos as i8)]);
            assert(seq![(v, pos as i8)].drop_last() =~= Seq::<(Seq<char>, i8)>::empty());
            assert(s.last() == (op, (t as i32) as i8));
            assert(seq![(v, pos as i8)].last() == (v, pos as i8));
            assert(smap(s) == Map::<Seq<char>, i8>::empty().insert(v, pos as i8).insert(op, (t as i32) as i8));
            assert(((t as i32) as i8) as int == t);
            assert((pos as i8) as int == pos);
        } else {
            let s = all_pairs(v, ps, -1i8);
            assert(ps.len() == 1);
            assert(s =~= seq![(v, -1i8), (op, -1i8)]);
            assert(s.drop_last() =~= seq![(v, -1i8)]);
            assert(seq![(v, -1i8)].drop_last() =~= Seq::<(Seq<char>, i8)>::empty());
            assert(ms[t] == smap(s));
        }
    }
    assert forall|d: int| 0 <= d < td.len() implies #[trigger] offers(ms, op, d) by {
        let pos = first_pos_from(td, d as i32, 0)->0;
        let s = seq![(v, pos as i8), (op, (d as i32) as i8)];
        assert(ms[d] == smap(s));
        assert(s.drop_last() =~= seq![(v, pos as i8)]);
        assert(seq![(v, pos as i8)].drop_last() =~= Seq::<(Seq<char>, i8)>::empty());
        assert(((d as i32) as i8) as int == d);
        assert(ms[d][op] == d);
    }
}

} // verus!
