use vstd::prelude::*;

verus! {

/// One of the three coordinate axes.
#[derive(Debug, Clone, Copy, PartialEq, Eq, Structural)]
pub enum Axis {
    X,
    Y,
    Z,
}

impl Axis {
    /// The position of this axis in an `(x, y, z)` triple.
    pub open spec fn spec_index(self) -> nat {
        match self {
            Axis::X => 0,
            Axis::Y => 1,
            Axis::Z => 2,
        }
    }

    /// The component index of this axis: 0 for X, 1 for Y, 2 for Z.
    pub fn index(&self) -> (r: usize)
        ensures
            r == self.spec_index(),
    {
        match self {
            Axis::X => 0,
            Axis::Y => 1,
            Axis::Z => 2,
        }
    }

    /// The axis chosen by a raw draw: the draw taken modulo three.
    pub fn from_draw(n: u64) -> (r: Axis)
        ensures
            r.spec_index() == n % 3,
    {
        let a: u64 = n % 3;
        if a == 0 {
            Axis::X
        } else if a == 1 {
            Axis::Y
        } else {
            Axis::Z
        }
    }

    /// A uniformly random axis.
    pub fn random() -> (r: Axis)
        ensures
            r.spec_index() < 3,
    {
        Axis::from_draw(random_u64())
    }
}

/// Relies on `rand::random::<u64>`: a value drawn from the thread-local generator.
/// Nothing is promised of the value.
#[verifier::external_body]
fn random_u64() -> (r: u64) {
    rand::random::<u64>()
}

} // verus!
