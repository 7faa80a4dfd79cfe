//! Compass directions on a grid whose `y` axis points down (north is `-y`).

use vstd::prelude::*;

verus! {

/// The four orthogonal directions, in clockwise order.
#[derive(Debug, Clone, Copy, PartialEq, Eq, Hash, Structural)]
pub enum OrthoDir {
    North,
    East,
    South,
    West,
}

/// The clockwise position of `d`, from `0` for north to `3` for west.
pub open spec fn ortho_index(d: OrthoDir) -> nat {
    match d {
        OrthoDir::North => 0,
        OrthoDir::East => 1,
        OrthoDir::South => 2,
        OrthoDir::West => 3,
    }
}

/// The direction at clockwise position `i`, for `i < 4`.
pub open spec fn ortho_at(i: nat) -> OrthoDir {
    if i == 0 {
        OrthoDir::North
    } else if i == 1 {
        OrthoDir::East
    } else if i == 2 {
        OrthoDir::South
    } else {
        OrthoDir::West
    }
}

/// The unit step `(dx, dy)` of `d`.
pub open spec fn ortho_delta(d: OrthoDir) -> (int, int) {
    match d {
        OrthoDir::North => (0, -1),
        OrthoDir::East => (1, 0),
        OrthoDir::South => (0, 1),
        OrthoDir::West => (-1, 0),
    }
}

/// `(x, y)` moved `n` unit steps of `(dx, dy)`.
pub open spec fn moved(pos: (isize, isize), delta: (int, int), n: int) -> (int, int) {
    (pos.0 + delta.0 * n, pos.1 + delta.1 * n)
}

/// Both coordinates of `p` fit in an `isize`.
pub open spec fn fits_isize(p: (int, int)) -> bool {
    &&& isize::MIN <= p.0 <= isize::MAX
    &&& isize::MIN <= p.1 <= isize::MAX
}

impl OrthoDir {
    /// All four directions, clockwise from north.
    pub const ALL: [OrthoDir; 4] = [OrthoDir::North, OrthoDir::East, OrthoDir::South, OrthoDir::West];

    pub const UP: OrthoDir = OrthoDir::North;

    pub const RIGHT: OrthoDir = OrthoDir::East;

    pub const DOWN: OrthoDir = OrthoDir::South;

    pub const LEFT: OrthoDir = OrthoDir::West;

    /// The unit step `(dx, dy)` of this direction.
    pub fn delta(self) -> (r: (isize, isize))
        ensures
            (r.0 as int, r.1 as int) == ortho_delta(self),
    {
        match self {
            OrthoDir::North => (0, -1),
            OrthoDir::East => (1, 0),
            OrthoDir::South => (0, 1),
            OrthoDir::West => (-1, 0),
        }
    }

    /// `pos` moved one step in this direction.
    pub fn step(self, pos: (isize, isize)) -> (r: (isize, isize))
        requires
            fits_isize(moved(pos, ortho_delta(self), 1)),
        ensures
            (r.0 as int, r.1 as int) == moved(pos, ortho_delta(self), 1),
    {
        let (dx, dy) = self.delta();
        (pos.0 + dx, pos.1 + dy)
    }

    /// `pos` moved `n` steps in this direction.
    pub fn step_n(self, pos: (isize, isize), n: isize) -> (r: (isize, isize))
        requires
            fits_isize(moved((0, 0), ortho_delta(self), n as int)),
            fits_isize(moved(pos, ortho_delta(self), n as int)),
        ensures
            (r.0 as int, r.1 as int) == moved(pos, ortho_delta(self), n as int),
    {
        let (dx, dy) = self.delta();
        (pos.0 + dx * n, pos.1 + dy * n)
    }

    /// A quarter turn clockwise.
    pub fn rotate_cw(self) -> (r: Self)
        ensures
            ortho_index(r) == (ortho_index(self) + 1) % 4,
    {
        self.rotate_cw_by(1)
    }

    /// A quarter turn counterclockwise.
    pub fn rotate_ccw(self) -> (r: Self)
        ensures
            ortho_index(r) == (ortho_index(self) + 3) % 4,
    {
        self.rotate_ccw_by(1)
    }

    /// `x` quarter turns clockwise.
    pub fn rotate_cw_by(self, x: u8) -> (r: Self)
        requires
            ortho_index(self) + x <= u8::MAX,
        ensures
            ortho_index(r) == (ortho_index(self) + x) % 4,
    {
        Self::from_index((u8::from(self) + x) % 4)
    }

    /// `x` quarter turns counterclockwise.
    pub fn rotate_ccw_by(self, x: u8) -> (r: Self)
        ensures
            ortho_index(r) == (ortho_index(self) + 4 - x % 4) % 4,
    {
        self.rotate_cw_by(4 - (x % 4))
    }

    /// The opposite direction.
    pub fn flip(self) -> (r: Self)
        ensures
            ortho_index(r) == (ortho_index(self) + 2) % 4,
    {
        match self {
            OrthoDir::North => OrthoDir::South,
            OrthoDir::East => OrthoDir::West,
            OrthoDir::South => OrthoDir::North,
            OrthoDir::West => OrthoDir::East,
        }
    }

    /// The direction at clockwise position `i`.
    fn from_index(i: u8) -> (r: Self)
        requires
            i < 4,
        ensures
            r == ortho_at(i as nat),
            ortho_index(r) == i,
    {
        if i == 0 {
            OrthoDir::North
        } else if i == 1 {
            OrthoDir::East
        } else if i == 2 {
            OrthoDir::South
        } else {
            OrthoDir::West
        }
    }
}

impl From<OrthoDir> for u8 {
    /// The clockwise position of `d`, from `0` for north.
    fn from(d: OrthoDir) -> (r: u8) {
        match d {
            OrthoDir::North => 0,
            OrthoDir::East => 1,
            OrthoDir::South => 2,
            OrthoDir::West => 3,
        }
    }
}

impl vstd::std_specs::convert::FromSpecImpl<OrthoDir> for u8 {
    open spec fn obeys_from_spec() -> bool {
        true
    }

    open spec fn from_spec(d: OrthoDir) -> u8 {
        ortho_index(d) as u8
    }
}


/// The eight directions, in clockwise order.
#[derive(Debug, Clone, Copy, PartialEq, Eq, Hash, Structural)]
pub enum DiagDir {
    North,
    NorthEast,
    East,
    SouthEast,
    South,
    SouthWest,
    West,
    NorthWest,
}

/// The clockwise position of `d`, from `0` for north to `7` for north-west.
pub open spec fn diag_index(d: DiagDir) -> nat {
    match d {
        DiagDir::North => 0,
        DiagDir::NorthEast => 1,
        DiagDir::East => 2,
        DiagDir::SouthEast => 3,
        DiagDir::South => 4,
        DiagDir::SouthWest => 5,
        DiagDir::West => 6,
        DiagDir::NorthWest => 7,
    }
}

/// The unit step `(dx, dy)` of `d`.
pub open spec fn diag_delta(d: DiagDir) -> (int, int) {
    match d {
        DiagDir::North => (0, -1),
        DiagDir::NorthEast => (1, -1),
        DiagDir::East => (1, 0),
        DiagDir::SouthEast => (1, 1),
        DiagDir::South => (0, 1),
        DiagDir::SouthWest => (-1, 1),
        DiagDir::West => (-1, 0),
        DiagDir::NorthWest => (-1, -1),
    }
}

impl DiagDir {
    /// All eight directions, clockwise from north.
    pub const ALL: [DiagDir; 8] = [
        DiagDir::North,
        DiagDir::NorthEast,
        DiagDir::East,
        DiagDir::SouthEast,
        DiagDir::South,
        DiagDir::SouthWest,
        DiagDir::West,
        DiagDir::NorthWest,
    ];

    pub const UP: DiagDir = DiagDir::North;

    pub const RIGHT: DiagDir = DiagDir::East;

    pub const DOWN: DiagDir = DiagDir::South;

    pub const LEFT: DiagDir = DiagDir::West;

    /// The unit step `(dx, dy)` of this direction.
    fn delta(self) -> (r: (isize, isize))
        ensures
            (r.0 as int, r.1 as int) == diag_delta(self),
    {
        match self {
            DiagDir::North => (0, -1),
            DiagDir::NorthEast => (1, -1),
            DiagDir::East => (1, 0),
            DiagDir::SouthEast => (1, 1),
            DiagDir::South => (0, 1),
            DiagDir::SouthWest => (-1, 1),
            DiagDir::West => (-1, 0),
            DiagDir::NorthWest => (-1, -1),
        }
    }

    /// `pos` moved one step in this direction.
    pub fn step(self, pos: (isize, isize)) -> (r: (isize, isize))
        requires
            fits_isize(moved(pos, diag_delta(self), 1)),
        ensures
            (r.0 as int, r.1 as int) == moved(pos, diag_delta(self), 1),
    {
        let (dx, dy) = self.delta();
        (pos.0 + dx, pos.1 + dy)
    }

    /// `pos` moved `n` steps in this direction.
    pub fn step_n(self, pos: (isize, isize), n: isize) -> (r: (isize, isize))
        requires
            fits_isize(moved((0, 0), diag_delta(self), n as int)),
            fits_isize(moved(pos, diag_delta(self), n as int)),
        ensures
            (r.0 as int, r.1 as int) == moved(pos, diag_delta(self), n as int),
    {
        let (dx, dy) = self.delta();
        (pos.0 + dx * n, pos.1 + dy * n)
    }

    /// An eighth of a turn clockwise.
    pub fn rotate_cw(self) -> (r: Self)
        ensures
            diag_index(r) == (diag_index(self) + 1) % 8,
    {
        self.rotate_cw_by(1)
    }

    /// An eighth of a turn counterclockwise.
    pub fn rotate_ccw(self) -> (r: Self)
        ensures
            diag_index(r) == (diag_index(self) + 7) % 8,
    {
        self.rotate_ccw_by(1)
    }

    /// `x` eighths of a turn clockwise.
    pub fn rotate_cw_by(self, x: u8) -> (r: Self)
        requires
            diag_index(self) + x <= u8::MAX,
        ensures
            diag_index(r) == (diag_index(self) + x) % 8,
    {
        Self::from_index((u8::from(self) + x) % 8)
    }

    /// `x` eighths of a turn counterclockwise.
    pub fn rotate_ccw_by(self, x: u8) -> (r: Self)
        ensures
            diag_index(r) == (diag_index(self) + 8 - x % 8) % 8,
    {
        self.rotate_cw_by(8 - (x % 8))
    }

    /// The opposite direction.
    pub fn flip(self) -> (r: Self)
        ensures
            diag_index(r) == (diag_index(self) + 4) % 8,
    {
        match self {
            DiagDir::North => DiagDir::South,
            DiagDir::NorthEast => DiagDir::SouthWest,
            DiagDir::East => DiagDir::West,
            DiagDir::SouthEast => DiagDir::NorthWest,
            DiagDir::South => DiagDir::North,
            DiagDir::SouthWest => DiagDir::NorthEast,
            DiagDir::West => DiagDir::East,
            DiagDir::NorthWest => DiagDir::SouthEast,
        }
    }

    /// The direction at clockwise position `i`.
    fn from_index(i: u8) -> (r: Self)
        requires
            i < 8,
        ensures
            diag_index(r) == i,
    {
        if i == 0 {
            DiagDir::North
        } else if i == 1 {
            DiagDir::NorthEast
        } else if i == 2 {
            DiagDir::East
        } else if i == 3 {
            DiagDir::SouthEast
        } else if i == 4 {
            DiagDir::South
        } else if i == 5 {
            DiagDir::SouthWest
        } else if i == 6 {
            DiagDir::West
        } else {
            DiagDir::NorthWest
        }
    }
}

impl From<DiagDir> for u8 {
    /// The clockwise position of `d`, from `0` for north.
    fn from(d: DiagDir) -> (r: u8) {
        match d {
            DiagDir::North => 0,
            DiagDir::NorthEast => 1,
            DiagDir::East => 2,
            DiagDir::SouthEast => 3,
            DiagDir::South => 4,
            DiagDir::SouthWest => 5,
            DiagDir::West => 6,
            DiagDir::NorthWest => 7,
        }
    }
}

impl vstd::std_specs::convert::FromSpecImpl<DiagDir> for u8 {
    open spec fn obeys_from_spec() -> bool {
        true
    }

    open spec fn from_spec(d: DiagDir) -> u8 {
        diag_index(d) as u8
    }
}

/// Turning counterclockwise by `x` eighths undoes turning clockwise by `x`.
pub proof fn lemma_diag_rotations_undo(d: DiagDir, x: nat, r1: DiagDir, r2: DiagDir)
    requires
        diag_index(r1) == (diag_index(d) + x) % 8,
        diag_index(r2) == (diag_index(r1) + 8 - x % 8) % 8,
    ensures
        r2 == d,
{
    assert(diag_index(r2) == diag_index(d)) by (nonlinear_arith)
        requires
            diag_index(r1) == (diag_index(d) + x) % 8,
            diag_index(r2) == (diag_index(r1) + 8 - x % 8) % 8,
            diag_index(d) < 8,
    ;
}

} // verus!
