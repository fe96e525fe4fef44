use vstd::prelude::*;

verus! {

/// Which way the history grows in the diagram.
#[derive(Clone, Copy, Debug, PartialEq, Eq, Structural)]
pub enum LayoutDirection {
    UP,
    RIGHT,
}

/// Spacing and shape of the diagram, in centimetres.
#[derive(Clone, Copy, Debug)]
pub struct LayoutOptions {
    pub graph_direction: LayoutDirection,
    /// Distance between commits one time step apart.
    pub commit_hist_dist: usize,
    /// Distance between neighbouring lanes.
    pub branch_dist: usize,
    pub commit_radius: usize,
}

impl LayoutOptions {
    /// Upwards, commits 3 apart, lanes 2 apart, radius 1.
    pub fn default() -> (r: LayoutOptions)
        ensures
            r.graph_direction == LayoutDirection::UP,
            r.commit_hist_dist == 3,
            r.branch_dist == 2,
            r.commit_radius == 1,
    {
        LayoutOptions { graph_direction: LayoutDirection::UP, commit_hist_dist: 3, branch_dist: 2, commit_radius: 1 }
    }
}

} // verus!
