use vstd::prelude::*;

verus! {

/// A direction of travel along a track: towards increasing positions (`Up`)
/// or towards decreasing positions (`Down`).
#[derive(Copy, Clone, Debug, PartialEq, Eq, Structural)]
pub enum Dir {
    Up,
    Down,
}

/// The side to which a switch branches off.
#[derive(Copy, Clone, Debug, PartialEq, Eq, Structural)]
pub enum Side {
    Left,
    Right,
}

/// The other direction.
pub open spec fn spec_opposite(d: Dir) -> Dir {
    match d {
        Dir::Up => Dir::Down,
        Dir::Down => Dir::Up,
    }
}

impl Dir {
    /// The other direction.
    pub fn opposite(&self) -> (r: Dir)
        ensures
            r == spec_opposite(*self),
    {
        match self {
            Dir::Up => Dir::Down,
            Dir::Down => Dir::Up,
        }
    }
}

/// Turning around twice faces the original direction again.
pub proof fn law_opposite_twice(d: Dir)
    ensures
        spec_opposite(spec_opposite(d)) == d,
        spec_opposite(d) != d,
{
}

} // verus!
