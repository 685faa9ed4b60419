use vstd::prelude::*;

verus! {

/// Output shapes of the one-pole filter.
#[derive(PartialEq, Eq, Structural, Clone, Copy, Debug, PartialOrd, Ord, Hash)]
pub enum FilterMode {
    /// Highpass
    HP,
    /// Lowpass
    LP,
    /// Allpass
    AP,
    /// Low shelf
    LSH,
    /// High shelf
    HSH,
}

impl Default for FilterMode {
    /// The allpass shape.
    fn default() -> (r: Self)
        ensures
            r == FilterMode::AP,
    {
        FilterMode::AP
    }
}

} // verus!
