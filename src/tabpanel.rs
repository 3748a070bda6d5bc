use vstd::prelude::*;

verus! {

/// Where a new tab goes in a tab strip.
#[derive(Debug, Clone, Copy, PartialEq, Eq, Structural)]
pub enum TabPosition {
    Start,
    End,
    Index(usize),
}

impl TabPosition {
    /// The index at which a new tab is inserted into a strip of `len` tabs:
    /// 0 for `Start`, `len` for `End`, and for `Index(i)` the index `i`,
    /// clamped to the last existing tab (0 in an empty strip).
    pub fn insert_index(&self, len: usize) -> (r: usize)
        ensures
            r <= len,
            *self == TabPosition::Start ==> r == 0,
            *self == TabPosition::End ==> r == len,
            forall|i: usize|
                *self == TabPosition::Index(i) ==> r == (if len == 0 {
                    0
                } else if i < len {
                    i
                } else {
                    (len - 1) as usize
                }),
    {
        match self {
            TabPosition::Start => 0,
            TabPosition::End => len,
            TabPosition::Index(i) => {
                if len == 0 {
                    0
                } else if *i < len {
                    *i
                } else {
                    len - 1
                }
            },
        }
    }
}

} // verus!
