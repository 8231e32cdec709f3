use vstd::prelude::*;

verus! {

/// One of the three coordinate axes of the grid.
#[derive(Clone, Copy, Debug, PartialEq, Eq, Structural)]
pub enum Axis {
    X,
    Y,
    Z,
}

/// The six outward directions a voxel face can point in.
///
/// The declaration order is the order in which the merger processes them.
#[derive(Clone, Copy, Debug, PartialEq, Eq, Structural)]
pub enum Direction {
    PositiveX,
    NegativeX,
    PositiveY,
    NegativeY,
    PositiveZ,
    NegativeZ,
}

/// The coordinate of `p` along `a`.
pub open spec fn coord(p: (int, int, int), a: Axis) -> int {
    match a {
        Axis::X => p.0,
        Axis::Y => p.1,
        Axis::Z => p.2,
    }
}

/// `p` moved by `k` units along `a`.
pub open spec fn shifted(p: (int, int, int), a: Axis, k: int) -> (int, int, int) {
    match a {
        Axis::X => (p.0 + k, p.1, p.2),
        Axis::Y => (p.0, p.1 + k, p.2),
        Axis::Z => (p.0, p.1, p.2 + k),
    }
}

impl Direction {
    /// Position of the direction in processing order.
    pub open spec fn index(self) -> int {
        match self {
            Direction::PositiveX => 0,
            Direction::NegativeX => 1,
            Direction::PositiveY => 2,
            Direction::NegativeY => 3,
            Direction::PositiveZ => 4,
            Direction::NegativeZ => 5,
        }
    }

    /// The axis the face normal runs along.
    pub open spec fn normal_axis_spec(self) -> Axis {
        match self {
            Direction::PositiveX | Direction::NegativeX => Axis::X,
            Direction::PositiveY | Direction::NegativeY => Axis::Y,
            Direction::PositiveZ | Direction::NegativeZ => Axis::Z,
        }
    }

    /// The axis along which a face is first merged into a run.
    pub open spec fn width_axis_spec(self) -> Axis {
        match self {
            Direction::PositiveX | Direction::NegativeX => Axis::Z,
            _ => Axis::X,
        }
    }

    /// The axis along which whole runs are stacked into a rectangle.
    pub open spec fn height_axis_spec(self) -> Axis {
        match self {
            Direction::PositiveY | Direction::NegativeY => Axis::Z,
            _ => Axis::Y,
        }
    }

    /// Whether the normal points towards increasing coordinates.
    pub open spec fn is_positive_spec(self) -> bool {
        match self {
            Direction::PositiveX | Direction::PositiveY | Direction::PositiveZ => true,
            _ => false,
        }
    }

    /// Whether the fixed corner order (origin, +width, +width+height, +height)
    /// winds clockwise seen from outside, so that the triangles must be reversed.
    /// The width axis crossed with the height axis points inwards exactly here.
    pub open spec fn flips_winding_spec(self) -> bool {
        match self {
            Direction::PositiveX | Direction::PositiveY | Direction::NegativeZ => true,
            _ => false,
        }
    }

    /// The unit normal as a triple of signed components.
    pub open spec fn normal_spec(self) -> (i8, i8, i8) {
        match self {
            Direction::PositiveX => (1i8, 0i8, 0i8),
            Direction::NegativeX => (-1i8, 0i8, 0i8),
            Direction::PositiveY => (0i8, 1i8, 0i8),
            Direction::NegativeY => (0i8, -1i8, 0i8),
            Direction::PositiveZ => (0i8, 0i8, 1i8),
            Direction::NegativeZ => (0i8, 0i8, -1i8),
        }
    }

    /// The direction at position `i` of the processing order.
    pub open spec fn at(i: int) -> Direction {
        if i == 0 {
            Direction::PositiveX
        } else if i == 1 {
            Direction::NegativeX
        } else if i == 2 {
            Direction::PositiveY
        } else if i == 3 {
            Direction::NegativeY
        } else if i == 4 {
            Direction::PositiveZ
        } else {
            Direction::NegativeZ
        }
    }

    /// The direction at position `i` of the processing order.
    pub fn from_index(i: usize) -> (r: Direction)
        requires
            i < 6,
        ensures
            r.index() == i,
            r == Direction::at(i as int),
    {
        if i == 0 {
            Direction::PositiveX
        } else if i == 1 {
            Direction::NegativeX
        } else if i == 2 {
            Direction::PositiveY
        } else if i == 3 {
            Direction::NegativeY
        } else if i == 4 {
            Direction::PositiveZ
        } else {
            Direction::NegativeZ
        }
    }

    pub fn normal_axis(&self) -> (r: Axis)
        ensures
            r == self.normal_axis_spec(),
    {
        match self {
            Direction::PositiveX | Direction::NegativeX => Axis::X,
            Direction::PositiveY | Direction::NegativeY => Axis::Y,
            Direction::PositiveZ | Direction::NegativeZ => Axis::Z,
        }
    }

    pub fn width_axis(&self) -> (r: Axis)
        ensures
            r == self.width_axis_spec(),
    {
        match self {
            Direction::PositiveX | Direction::NegativeX => Axis::Z,
            _ => Axis::X,
        }
    }

    pub fn height_axis(&self) -> (r: Axis)
        ensures
            r == self.height_axis_spec(),
    {
        match self {
            Direction::PositiveY | Direction::NegativeY => Axis::Z,
            _ => Axis::Y,
        }
    }

    pub fn is_positive(&self) -> (r: bool)
        ensures
            r == self.is_positive_spec(),
    {
        match self {
            Direction::PositiveX | Direction::PositiveY | Direction::PositiveZ => true,
            _ => false,
        }
    }

    pub fn flips_winding(&self) -> (r: bool)
        ensures
            r == self.flips_winding_spec(),
    {
        match self {
            Direction::PositiveX | Direction::PositiveY | Direction::NegativeZ => true,
            _ => false,
        }
    }

    pub fn normal(&self) -> (r: (i8, i8, i8))
        ensures
            r == self.normal_spec(),
    {
        match self {
            Direction::PositiveX => (1, 0, 0),
            Direction::NegativeX => (-1, 0, 0),
            Direction::PositiveY => (0, 1, 0),
            Direction::NegativeY => (0, -1, 0),
            Direction::PositiveZ => (0, 0, 1),
            Direction::NegativeZ => (0, 0, -1),
        }
    }
}

/// `p` moved by `k` units along `a`.
pub fn shift(p: (usize, usize, usize), a: Axis, k: usize) -> (r: (usize, usize, usize))
    requires
        coord((p.0 as int, p.1 as int, p.2 as int), a) + k <= usize::MAX,
    ensures
        (r.0 as int, r.1 as int, r.2 as int) == shifted((p.0 as int, p.1 as int, p.2 as int), a, k as int),
{
    match a {
        Axis::X => (p.0 + k, p.1, p.2),
        Axis::Y => (p.0, p.1 + k, p.2),
        Axis::Z => (p.0, p.1, p.2 + k),
    }
}

} // verus!
