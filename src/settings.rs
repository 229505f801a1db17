use vstd::prelude::*;

verus! {

/// How a cut is played: looped, and with positions past either end of the
/// sample wrapped around.
#[derive(Clone, Copy, Debug, PartialEq, Eq, Structural)]
pub struct CutSettings {
    pub looping: bool,
    pub warping: bool,
}

impl CutSettings {
    /// Settings with the given flags.
    pub fn new(looping: bool, warping: bool) -> (r: CutSettings)
        ensures
            r.looping == looping,
            r.warping == warping,
    {
        CutSettings { looping, warping }
    }

    /// Whether the cut loops.
    pub fn is_looped(&self) -> (r: bool)
        ensures
            r == self.looping,
    {
        self.looping
    }

    /// Whether positions past either end of the sample wrap around.
    pub fn is_warped(&self) -> (r: bool)
        ensures
            r == self.warping,
    {
        self.warping
    }
}

impl Default for CutSettings {
    /// Not looping, warping.
    fn default() -> (r: CutSettings)
        ensures
            !r.looping,
            r.warping,
    {
        CutSettings { looping: false, warping: true }
    }
}

} // verus!
