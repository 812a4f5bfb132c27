use vstd::prelude::*;

verus! {

/// The modifier held together with a key: Shift raises a degree, Ctrl lowers it.
#[derive(Debug, Clone, Copy, PartialEq, Eq, Structural)]
pub enum Modifier {
    /// No modifier: a natural degree.
    Plain,
    Shift,
    Ctrl,
}

} // verus!
