use vstd::prelude::*;

verus! {

/// A pair of coordinates. The vertical axis grows downwards, as on a screen.
#[derive(Debug, PartialEq, Eq, Clone)]
pub struct Point<T> {
    pub x: T,
    pub y: T,
}

} // verus!
