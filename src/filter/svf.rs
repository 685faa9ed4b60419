use vstd::prelude::*;

verus! {

/// Output shapes of the state-variable filter.
#[derive(PartialEq, Eq, Structural, Clone, Copy, Debug, PartialOrd, Ord, Hash)]
pub enum FilterMode {
    /// Lowpass
    LP,
    /// Bandpass
    BP,
    /// Unit-gain bandpass
    BP1,
    /// Highpass
    HP,
    /// Allpass
    AP,
    /// Notch
    NCH,
    /// Low shelf
    LSH,
    /// Band shelf
    BSH,
    /// High shelf
    HSH,
}

impl Default for FilterMode {
    /// The allpass shape.
    fn default() -> (r: Self)
        ensures
            r == FilterMode::AP,
    {
        FilterMode::AP
    }
}

} // verus!
