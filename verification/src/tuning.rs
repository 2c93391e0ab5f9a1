//! Tunables of the CMA-ES sampler and of the fANOVA importance analysis.
use vstd::prelude::*;

verus! {

/// How CMA-ES repairs a drawn coordinate that lands outside a parameter's
/// `[0, 1]` normalized box.
#[derive(Debug, Clone, Copy, PartialEq, Eq, Structural)]
pub enum BoundHandling {
    /// Fold the coordinate back into `[0, 1]` by mirroring at each bound (a
    /// period-2 tent map). Continuous across the boundary and free of the
    /// boundary pile-up that clamping causes; the default.
    Reflect,
    /// Snap the coordinate to the nearest bound. Simple, but concentrates
    /// probability on the boundary when the optimum sits near one.
    Clamp,
}

/// Tunables for the random-forest fANOVA. [`Default`] mirrors the settings
/// the reference fANOVA implementation uses for small studies.
#[derive(Debug, Clone, Copy, PartialEq, Eq, Structural)]
pub struct FanovaOptions {
    /// Number of regression trees in the forest.
    pub n_trees: usize,
    /// Candidate features considered at each split. `None` means "all of
    /// them" (bagging alone supplies the tree-to-tree diversity), which is
    /// stable when the number of parameters is small.
    pub max_features: Option<usize>,
    /// Minimum samples a node must hold to be eligible for a further split.
    pub min_samples_split: usize,
    /// Hard cap on tree depth (a guard against pathological deep trees).
    pub max_depth: usize,
    /// Seed for the bootstrap sampling, so importances are reproducible.
    pub seed: u64,
}

impl Default for FanovaOptions {
    fn default() -> (r: FanovaOptions)
        ensures
            r == (FanovaOptions {
                n_trees: 64,
                max_features: None,
                min_samples_split: 2,
                max_depth: 64,
                seed: 0,
            }),
    {
        FanovaOptions { n_trees: 64, max_features: None, min_samples_split: 2, max_depth: 64, seed: 0 }
    }
}

} // verus!
