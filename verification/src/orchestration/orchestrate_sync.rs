//! Reading the plan of a synchronous pipeline out of the planning matrix.
//!
//! The planner fills, for each number of layers and of machines, cells
//! keyed by which machines are still available; a cell names the split
//! that led to it and the cell that split came from. Reading a plan walks
//! those splits back from the last layer to the first.
use vstd::prelude::*;

verus! {

/// What reading a plan needs of a cell of the planning matrix.
pub struct PlanCell {
    /// The layer and machine counts of the cell that the best plan for
    /// this cell extends; none for the first stage.
    pub optimal_split: Option<(u32, u32)>,
    /// The machines that the last stage uses.
    pub num_gpus_used: Option<u32>,
    /// Which machines were available before the last stage.
    pub availability_bitset: Vec<bool>,
    /// The machines of the last stage, ascending.
    pub gpu_ids: Vec<u32>,
}

/// The planning matrix: by number of layers and of machines, the cells
/// keyed by the machines available.
pub type PlanMatrix = Vec<Vec<Vec<(Vec<bool>, PlanCell)>>>;

/// A stage of a plan: its first and last layer, how many machines it uses,
/// and which.
pub type Stage = (u32, u32, u32, Vec<u32>);

/// The plain view of a stage.
pub open spec fn stage_view(s: Stage) -> (u32, u32, u32, Seq<u32>) {
    (s.0, s.1, s.2, s.3@)
}

/// The first cell from `i` on whose key is `key`.
pub open spec fn find_cell(cells: Seq<(Vec<bool>, PlanCell)>, key: Seq<bool>, i: int) -> Option<PlanCell>
    decreases cells.len() - i,
{
    if i < 0 || i >= cells.len() {
        None
    } else if cells[i].0@ == key {
        Some(cells[i].1)
    } else {
        find_cell(cells, key, i + 1)
    }
}

/// The cell of the matrix at `(i, j)` with key `key`.
pub open spec fn cell_at(a: Seq<Vec<Vec<(Vec<bool>, PlanCell)>>>, i: int, j: int, key: Seq<bool>) -> Option<PlanCell> {
    if 0 <= i < a.len() && 0 <= j < a[i]@.len() {
        find_cell(a[i]@[j]@, key, 0)
    } else {
        None
    }
}

/// The cells reached from `c` in row `row` by following the splits back
/// all name their machine count, and each split goes to an earlier row and
/// to a cell that exists.
pub open spec fn chain_ok(a: Seq<Vec<Vec<(Vec<bool>, PlanCell)>>>, c: PlanCell, row: int) -> bool
    decreases row,
{
    &&& c.num_gpus_used is Some
    &&& match c.optimal_split {
        None => true,
        Some((i, j)) => {
            &&& 0 <= i < row
            &&& cell_at(a, i as int, j as int, c.availability_bitset@) is Some
            &&& chain_ok(a, cell_at(a, i as int, j as int, c.availability_bitset@)->Some_0, i as int)
        },
    }
}

/// The stages of the plan that ends with the cell `c` of row `row`, whose
/// last stage ends at layer `prev`, first stage first.
pub open spec fn plan_tail(a: Seq<Vec<Vec<(Vec<bool>, PlanCell)>>>, c: PlanCell, prev: int, row: int) -> Seq<(u32, u32, u32, Seq<u32>)>
    decreases row,
{
    match c.optimal_split {
        None => seq![(0u32, prev as u32, c.num_gpus_used->Some_0, c.gpu_ids@)],
        Some((i, j)) => {
            if 0 <= i < row {
                let next = cell_at(a, i as int, j as int, c.availability_bitset@)->Some_0;
                plan_tail(a, next, i + 1, i as int).push(((i + 1) as u32, prev as u32, c.num_gpus_used->Some_0, c.gpu_ids@))
            } else {
                Seq::empty()
            }
        },
    }
}

/// `n` machines all available.
pub open spec fn all_available(n: int) -> Seq<bool> {
    Seq::new(n as nat, |i: int| true)
}

/// Whether two availability sets are the same.
fn bits_eq(a: &Vec<bool>, b: &Vec<bool>) -> (r: bool)
    ensures
        r == (a@ == b@),
{
    if a.len() != b.len() {
        return false;
    }
    let n = a.len();
    let mut i: usize = 0;
    while i < n
        invariant
            n == a@.len(),
            n == b@.len(),
            i <= n,
            forall|k: int| 0 <= k < i ==> a@[k] == b@[k],
        decreases n - i,
    {
        if a[i] != b[i] {
            return false;
        }
        i = i + 1;
    }
    assert(a@ =~= b@);
    true
}

/// The first cell of `cells` whose key is `key`.
fn lookup<'a>(cells: &'a Vec<(Vec<bool>, PlanCell)>, key: &Vec<bool>) -> (r: Option<&'a PlanCell>)
    ensures
        match find_cell(cells@, key@, 0) {
            Some(c) => r == Some(&c),
            None => r is None,
        },
{
    let n = cells.len();
    let mut i: usize = 0;
    while i < n
        invariant
            n == cells@.len(),
            i <= n,
            find_cell(cells@, key@, 0) == find_cell(cells@, key@, i as int),
        decreases n - i,
    {
        if bits_eq(&cells[i].0, key) {
            return Some(&cells[i].1);
        }
        i = i + 1;
    }
    None
}

/// A copy of a list of machine ids.
fn copy_ids(v: &Vec<u32>) -> (r: Vec<u32>)
    ensures
        r@ == v@,
{
    let mut r: Vec<u32> = Vec::new();
    let n = v.len();
    let mut i: usize = 0;
    while i < n
        invariant
            n == v@.len(),
            i <= n,
            r@ == v@.take(i as int),
        decreases n - i,
    {
        r.push(v[i]);
        i = i + 1;
        assert(r@ =~= v@.take(i as int));
    }
    assert(v@.take(n as int) =~= v@);
    r
}

/// The stages of the plan for `end` layers on `num_machines` machines of
/// `rp` devices each, read back from the matrix `A`, first stage first; the
/// last stage must use some machine.
pub fn analyse_plan_sync(A: &PlanMatrix, end: u32, num_machines: u32, rp: u32) -> (r: Vec<Stage>)
    requires
        end >= 1,
        num_machines >= 1,
        num_machines * rp + 1 <= u32::MAX,
        cell_at(A@, end - 1, num_machines - 1, all_available(num_machines * rp + 1)) matches Some(c) && c.gpu_ids@.len() > 0
            && chain_ok(A@, c, end - 1),
    ensures
        r@.map_values(|s: Stage| stage_view(s)) == plan_tail(
            A@,
            cell_at(A@, end - 1, num_machines - 1, all_available(num_machines * rp + 1))->Some_0,
            end - 1,
            end - 1,
        ),
{
    read_plan(A, end, num_machines, rp)
}

/// The stages of the plan for `end` layers on `num_machines` machines of
/// `rp` devices each, read back from the matrix `A`, first stage first.
pub(crate) fn read_plan(A: &PlanMatrix, end: u32, num_machines: u32, rp: u32) -> (r: Vec<Stage>)
    requires
        end >= 1,
        num_machines >= 1,
        num_machines * rp + 1 <= u32::MAX,
        cell_at(A@, end - 1, num_machines - 1, all_available(num_machines * rp + 1)) matches Some(c)
            && chain_ok(A@, c, end - 1),
    ensures
        r@.map_values(|s: Stage| stage_view(s)) == plan_tail(
            A@,
            cell_at(A@, end - 1, num_machines - 1, all_available(num_machines * rp + 1))->Some_0,
            end - 1,
            end - 1,
        ),
{
    let kn = num_machines * rp + 1;
    let mut ph: Vec<bool> = Vec::new();
    let mut t: u32 = 0;
    while t < kn
        invariant
            t <= kn,
            ph@ == all_available(t as int),
        decreases kn - t,
    {
        ph.push(true);
        t = t + 1;
        assert(ph@ =~= all_available(t as int));
    }
    let ghost c0 = cell_at(A@, end - 1, num_machines - 1, all_available(kn as int))->Some_0;
    let ghost want = plan_tail(A@, c0, end - 1, end - 1);
    let row0 = &A[(end - 1) as usize];
    let mut cell: &PlanCell = match lookup(&row0[(num_machines - 1) as usize], &ph) {
        Some(c) => c,
        None => {
            assert(false);
            return Vec::new();
        },
    };
    let mut prev: u32 = end - 1;
    let ghost mut row: int = end - 1;
    let mut res: Vec<Stage> = Vec::new();
    while cell.optimal_split.is_some()
        invariant
            chain_ok(A@, *cell, row),
            0 <= row,
            row < u32::MAX,
            want == plan_tail(A@, *cell, prev as int, row) + res@.map_values(|s: Stage| stage_view(s)).reverse(),
        decreases row,
    {
        let (i, j) = match cell.optimal_split {
            Some(s) => s,
            None => {
                assert(false);
                (0, 0)
            },
        };
        let used = match cell.num_gpus_used {
            Some(u) => u,
            None => {
                assert(false);
                0
            },
        };
        let ghost before = res@.map_values(|s: Stage| stage_view(s));
        let ghost next = cell_at(A@, i as int, j as int, cell.availability_bitset@)->Some_0;
        let entry = (i + 1, prev, used, copy_ids(&cell.gpu_ids));
        res.push(entry);
        assert(res@.map_values(|s: Stage| stage_view(s)) =~= before.push(stage_view(entry)));
        assert(res@.map_values(|s: Stage| stage_view(s)).reverse() =~= seq![stage_view(entry)] + before.reverse());
        assert(plan_tail(A@, *cell, prev as int, row) == plan_tail(A@, next, i + 1, i as int).push(stage_view(entry)));
        assert(plan_tail(A@, next, i + 1, i as int).push(stage_view(entry)) + before.reverse() =~= plan_tail(
            A@,
            next,
            i + 1,
            i as int,
        ) + (seq![stage_view(entry)] + before.reverse()));
        prev = i + 1;
        let nc = match lookup(&A[i as usize][j as usize], &cell.availability_bitset) {
            Some(c) => c,
            None => {
                assert(false);
                return Vec::new();
            },
        };
        cell = nc;
        proof {
            row = i as int;
        }
    }
    let used = match cell.num_gpus_used {
        Some(u) => u,
        None => {
            assert(false);
            0
        },
    };
    let ghost before = res@.map_values(|s: Stage| stage_view(s));
    let last = (0u32, prev, used, copy_ids(&cell.gpu_ids));
    res.push(last);
    assert(res@.map_values(|s: Stage| stage_view(s)) =~= before.push(stage_view(last)));
    assert(res@.map_values(|s: Stage| stage_view(s)).reverse() =~= seq![stage_view(last)] + before.reverse());
    let n = res.len();
    let mut out: Vec<Stage> = Vec::new();
    let mut k: usize = n;
    while k > 0
        invariant
            k <= n,
            n == res@.len(),
            out@.map_values(|s: Stage| stage_view(s)) == res@.map_values(|s: Stage| stage_view(s)).reverse().take(
                (n - k) as int,
            ),
        decreases k,
    {
        k = k - 1;
        let s = &res[k];
        let ghost before_out = out@.map_values(|s: Stage| stage_view(s));
        let ghost rv = res@.map_values(|s: Stage| stage_view(s)).reverse();
        let copy = (s.0, s.1, s.2, copy_ids(&s.3));
        out.push(copy);
        assert(rv[(n - k - 1) as int] == stage_view(res@[k as int]));
        assert(stage_view(copy) == stage_view(res@[k as int]));
        assert(out@.map_values(|s: Stage| stage_view(s)) =~= before_out.push(stage_view(copy)));
        assert(rv.take((n - k) as int) =~= rv.take((n - k - 1) as int).push(rv[(n - k - 1) as int]));
        assert(out@.map_values(|s: Stage| stage_view(s)) =~= res@.map_values(|s: Stage| stage_view(s)).reverse().take(
            (n - k) as int,
        ));
    }
    assert(res@.map_values(|s: Stage| stage_view(s)).reverse().take(n as int) =~= res@.map_values(|s: Stage| stage_view(s)).reverse());
    out
}

} // verus!

verus! {

/// A plan read back from the matrix covers the layers without gap: it has
/// a stage, the first stage starts at layer `0`, the last ends at `prev`,
/// and each stage ends where the next one starts.
pub proof fn law_plan_covers(a: Seq<Vec<Vec<(Vec<bool>, PlanCell)>>>, c: PlanCell, prev: int, row: int)
    requires
        chain_ok(a, c, row),
        0 <= row <= prev <= u32::MAX,
    ensures
        ({
            let r = plan_tail(a, c, prev, row);
            &&& r.len() > 0
            &&& r[0].0 == 0
            &&& r[r.len() - 1].1 == prev
            &&& forall|k: int| 0 <= k < r.len() - 1 ==> #[trigger] r[k].1 == r[k + 1].0
        }),
    decreases row,
{
    match c.optimal_split {
        None => {},
        Some((i, j)) => {
            let next = cell_at(a, i as int, j as int, c.availability_bitset@)->Some_0;
            law_plan_covers(a, next, i + 1, i as int);
            let t = plan_tail(a, next, i + 1, i as int);
            let r = plan_tail(a, c, prev, row);
            assert(r == t.push(((i + 1) as u32, prev as u32, c.num_gpus_used->Some_0, c.gpu_ids@)));
            assert forall|k: int| 0 <= k < r.len() - 1 implies #[trigger] r[k].1 == r[k + 1].0 by {
                if k < t.len() - 1 {
                    assert(r[k] == t[k] && r[k + 1] == t[k + 1]);
                } else {
                    assert(r[k] == t[t.len() - 1]);
                }
            }
            assert(r[0] == t[0]);
        },
    }
}

} // verus!

verus! {

/// The cell that the best plan for `c` extends: the one its split names,
/// or `c` itself when it has none.
pub open spec fn split_cell(a: Seq<Vec<Vec<(Vec<bool>, PlanCell)>>>, c: PlanCell) -> PlanCell {
    match c.optimal_split {
        Some((i, j)) => cell_at(a, i as int, j as int, c.availability_bitset@)->Some_0,
        None => c,
    }
}

/// The cell reached from `c` after following `k` splits back.
pub open spec fn chain_cell(a: Seq<Vec<Vec<(Vec<bool>, PlanCell)>>>, c: PlanCell, k: nat) -> PlanCell
    decreases k,
{
    if k == 0 {
        c
    } else {
        chain_cell(a, split_cell(a, c), (k - 1) as nat)
    }
}

/// Each stage of a plan read back from the matrix reports its own cell:
/// the stage `k` places before the last comes from the cell reached after
/// `k` splits back, and carries that cell's machine count and machines.
pub proof fn law_plan_stage_cells(a: Seq<Vec<Vec<(Vec<bool>, PlanCell)>>>, c: PlanCell, prev: int, row: int)
    requires
        chain_ok(a, c, row),
        0 <= row <= prev <= u32::MAX,
    ensures
        ({
            let r = plan_tail(a, c, prev, row);
            forall|k: nat|
                k < r.len() ==> {
                    &&& #[trigger] r[r.len() - 1 - k].2 == chain_cell(a, c, k).num_gpus_used->Some_0
                    &&& r[r.len() - 1 - k].3 == chain_cell(a, c, k).gpu_ids@
                }
        }),
    decreases row,
{
    let r = plan_tail(a, c, prev, row);
    match c.optimal_split {
        None => {
            assert forall|k: nat| k < r.len() implies {
                &&& #[trigger] r[r.len() - 1 - k].2 == chain_cell(a, c, k).num_gpus_used->Some_0
                &&& r[r.len() - 1 - k].3 == chain_cell(a, c, k).gpu_ids@
            } by {
                assert(k == 0);
            }
        },
        Some((i, j)) => {
            let next = cell_at(a, i as int, j as int, c.availability_bitset@)->Some_0;
            law_plan_stage_cells(a, next, i + 1, i as int);
            let t = plan_tail(a, next, i + 1, i as int);
            assert(r == t.push(((i + 1) as u32, prev as u32, c.num_gpus_used->Some_0, c.gpu_ids@)));
            assert(split_cell(a, c) == next);
            assert forall|k: nat| k < r.len() implies {
                &&& #[trigger] r[r.len() - 1 - k].2 == chain_cell(a, c, k).num_gpus_used->Some_0
                &&& r[r.len() - 1 - k].3 == chain_cell(a, c, k).gpu_ids@
            } by {
                if k > 0 {
                    let k1 = (k - 1) as nat;
                    assert(r[r.len() - 1 - k] == t[t.len() - 1 - k1]);
                    assert(t[t.len() - 1 - k1].2 == chain_cell(a, next, k1).num_gpus_used->Some_0);
                    assert(chain_cell(a, c, k) == chain_cell(a, next, k1));
                }
            }
        },
    }
}

} // verus!
