//! Settings whose rules are decided by the library.
use vstd::prelude::*;

verus! {

/// The window that decides which points pull on a point being shifted
/// during clustering.
#[derive(Debug, Clone, Copy, PartialEq, Eq, Structural)]
pub enum ClusteringWindow {
    Circular,
    Ellipse,
    Gaussian,
    GaussianEllipse,
}

impl ClusteringWindow {
    /// The number of bandwidths the window is configured by: a circle has a
    /// radius, every other window has one bandwidth per axis.
    pub fn bandwidth_count(&self) -> (n: usize)
        ensures
            n == (if *self == ClusteringWindow::Circular { 1usize } else { 2usize }),
    {
        match self {
            ClusteringWindow::Circular => 1,
            _ => 2,
        }
    }

    /// Whether `given` bandwidths configure this window; clustering is only
    /// set up when they do.
    pub fn accepts_bandwidths(&self, given: usize) -> (ok: bool)
        ensures
            ok == (given == (if *self == ClusteringWindow::Circular { 1usize } else { 2usize })),
    {
        given == self.bandwidth_count()
    }
}

} // verus!
