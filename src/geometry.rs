use vstd::prelude::*;

verus! {

/// A pixel position: column `x`, row `y`, with rows growing downwards.
#[derive(Clone, Copy, Debug, PartialEq, Eq, Structural, Hash)]
pub struct Pixel {
    pub x: u32,
    pub y: u32,
}

/// A point of the target frame, held exactly in half-pixel units: it stands for
/// the point `(x / 2, y / 2)`.
#[derive(Clone, Copy, Debug, PartialEq, Eq, Structural, Hash)]
pub struct Vertex {
    pub x: i64,
    pub y: i64,
}

/// The scale of a heightfield along x and y.
#[derive(Clone, Copy, Debug, PartialEq, Eq, Structural, Hash)]
pub struct Scale {
    pub x: usize,
    pub y: usize,
}

/// Two pixels are one unit apart: they share an edge (a 4-connected step).
pub open spec fn unit_apart(a: Pixel, b: Pixel) -> bool {
    let dx = a.x as int - b.x as int;
    let dy = a.y as int - b.y as int;
    dx * dx + dy * dy == 1
}

impl Pixel {
    /// Whether `self` and `other` lie at Euclidean distance exactly one.
    pub fn is_unit_apart(&self, other: &Pixel) -> (r: bool)
        ensures
            r == unit_apart(*self, *other),
    {
        let dx: u32 = if self.x >= other.x { self.x - other.x } else { other.x - self.x };
        let dy: u32 = if self.y >= other.y { self.y - other.y } else { other.y - self.y };
        assert(unit_apart(*self, *other) <==> (dx == 0 && dy == 1) || (dx == 1 && dy == 0)) by (nonlinear_arith)
            requires
                dx as int == if self.x >= other.x { self.x - other.x } else { other.x - self.x },
                dy as int == if self.y >= other.y { self.y - other.y } else { other.y - self.y },
        ;
        (dx == 0 && dy == 1) || (dx == 1 && dy == 0)
    }
}

} // verus!
