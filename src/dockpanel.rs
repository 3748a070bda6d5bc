use vstd::prelude::*;

verus! {

/// The direction along which a split node lays out its children.
#[derive(Debug, Clone, Copy, PartialEq, Eq, Structural)]
pub enum SplitOrientation {
    Horizontal,
    Vertical,
}

} // verus!
