use vstd::prelude::*;

verus! {

/// Wall-clock time, in microseconds, spent in the layout stages that are
/// measured separately.
#[derive(Debug, Clone, Default)]
pub struct LayoutStageMetrics {
    pub port_assignment_us: u128,
    pub edge_routing_us: u128,
    pub label_placement_us: u128,
}

impl LayoutStageMetrics {
    /// The three stage timings added together.
    pub open spec fn spec_total(&self) -> int {
        self.port_assignment_us + self.edge_routing_us + self.label_placement_us
    }

    /// Total time of the measured stages.
    pub fn total_us(&self) -> (total: u128)
        requires
            self.spec_total() <= u128::MAX,
        ensures
            total == self.spec_total(),
    {
        self.port_assignment_us + self.edge_routing_us + self.label_placement_us
    }
}

} // verus!
