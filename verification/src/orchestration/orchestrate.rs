//! The synchronous pipeline conductor: the planning matrix it fills and
//! the plan it reads out of it.
use vstd::prelude::*;
use crate::orchestration::orchestrate_sync::{
    PlanMatrix, Stage, all_available, cell_at, chain_ok, plan_tail, read_plan, stage_view,
};

verus! {

/// The conductor of a synchronous pipeline, with its planning matrix.
pub struct SyncConductor {
    pub A: PlanMatrix,
}

impl SyncConductor {
    /// The stages of the plan for `end` layers on `num_machines` machines
    /// of `rp` devices each, read back from the planning matrix, first
    /// stage first.
    pub fn analyse_plan_sync(&self, end: u32, num_machines: u32, rp: u32) -> (r: Vec<Stage>)
        requires
            end >= 1,
            num_machines >= 1,
            num_machines * rp + 1 <= u32::MAX,
            cell_at(self.A@, end - 1, num_machines - 1, all_available(num_machines * rp + 1)) matches Some(c)
                && chain_ok(self.A@, c, end - 1),
        ensures
            r@.map_values(|s: Stage| stage_view(s)) == plan_tail(
                self.A@,
                cell_at(self.A@, end - 1, num_machines - 1, all_available(num_machines * rp + 1))->Some_0,
                end - 1,
                end - 1,
            ),
    {
        read_plan(&self.A, end, num_machines, rp)
    }
}

} // verus!
