//! One-dimensional box layout: distributes a length of space over an
//! ordered row of resizable elements, and moves the boundary between two
//! of them on a drag.
//!
//! Sizes are whole units (`u32`); sums are kept in `u128`, so the layout
//! fits its space exactly rather than to within a tolerance.

pub mod sizer;
pub mod boxengine;
pub mod dockpanel;
pub mod tabpanel;
pub mod toast;
