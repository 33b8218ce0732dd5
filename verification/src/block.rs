use vstd::prelude::*;
use vstd::std_specs::cmp::PartialEqSpecImpl;
use vstd::std_specs::convert::FromSpecImpl;
use crate::rotations::fits_i32;

verus! {

/// The number of cells of the cube.
pub const CELLS: i32 = 125;

/// `a / b` rounded toward zero, as Rust's integer division does.
pub open spec fn trunc_div(a: int, b: int) -> int {
    if a >= 0 {
        a / b
    } else {
        -((-a) / b)
    }
}

/// The remainder that goes with `trunc_div`: it has the sign of `a`.
pub open spec fn trunc_rem(a: int, b: int) -> int {
    a - b * trunc_div(a, b)
}

/// A coordinate inside the cube, `0..5`.
pub open spec fn in_side(c: int) -> bool {
    0 <= c < 5
}

/// One unit cube of a piece: its coordinates and its colours.
#[derive(Clone, Copy, Debug)]
pub struct Block {
    pub x: i32,
    pub y: i32,
    pub z: i32,
    pub fill_color: i32,
    pub edge_color: i32,
}

/// Two blocks are equal when they sit at the same coordinates.
pub open spec fn same_place(a: Block, b: Block) -> bool {
    a.x == b.x && a.y == b.y && a.z == b.z
}

/// The index of the cell at a block's coordinates: `x + 5 y + 25 z`.
pub open spec fn position_of(b: Block) -> int {
    b.x + 5 * b.y + 25 * b.z
}

/// Computing `position_of` as `x + y * 5 + z * 5 * 5` stays within `i32`.
pub open spec fn position_fits(b: Block) -> bool {
    &&& fits_i32(b.y * 5)
    &&& fits_i32(b.z * 5 * 5)
    &&& fits_i32(b.x + b.y * 5)
    &&& fits_i32(position_of(b))
}

/// The block lies inside the cube.
pub open spec fn inside_cube(b: Block) -> bool {
    in_side(b.x as int) && in_side(b.y as int) && in_side(b.z as int)
}

/// The coordinates of cell `p`: `(p % 5, (p % 25) / 5, p / 25)` with Rust's
/// truncating division.
pub open spec fn coords_of_position(p: int) -> (int, int, int) {
    (trunc_rem(p, 5), trunc_div(trunc_rem(p, 25), 5), trunc_div(p, 25))
}

/// The single bit of cell `p`.
pub open spec fn cell_mask(p: int) -> u128 {
    1u128 << (p as u128)
}

/// `a + b` as a block that keeps the colours of `a`.
pub open spec fn plus_spec(a: Block, b: Block) -> Block {
    Block {
        x: (a.x + b.x) as i32,
        y: (a.y + b.y) as i32,
        z: (a.z + b.z) as i32,
        fill_color: a.fill_color,
        edge_color: a.edge_color,
    }
}

/// `a - b` as a block that keeps the colours of `a`.
pub open spec fn minus_spec(a: Block, b: Block) -> Block {
    Block {
        x: (a.x - b.x) as i32,
        y: (a.y - b.y) as i32,
        z: (a.z - b.z) as i32,
        fill_color: a.fill_color,
        edge_color: a.edge_color,
    }
}

pub open spec fn plus_fits(a: Block, b: Block) -> bool {
    fits_i32(a.x + b.x) && fits_i32(a.y + b.y) && fits_i32(a.z + b.z)
}

pub open spec fn minus_fits(a: Block, b: Block) -> bool {
    fits_i32(a.x - b.x) && fits_i32(a.y - b.y) && fits_i32(a.z - b.z)
}

/// A block at the given coordinates with both colours 0.
pub open spec fn block_at(x: int, y: int, z: int) -> Block {
    Block { x: x as i32, y: y as i32, z: z as i32, fill_color: 0, edge_color: 0 }
}

impl PartialEq for Block {
    fn eq(&self, other: &Self) -> (r: bool) {
        self.x == other.x && self.y == other.y && self.z == other.z
    }
}

impl PartialEqSpecImpl for Block {
    open spec fn obeys_eq_spec() -> bool {
        true
    }

    open spec fn eq_spec(&self, other: &Block) -> bool {
        same_place(*self, *other)
    }
}

impl Eq for Block {

}

impl From<(i32, i32, i32)> for Block {
    fn from(c: (i32, i32, i32)) -> (b: Block) {
        Block { x: c.0, y: c.1, z: c.2, fill_color: 0, edge_color: 0 }
    }
}

impl FromSpecImpl<(i32, i32, i32)> for Block {
    open spec fn obeys_from_spec() -> bool {
        true
    }

    open spec fn from_spec(c: (i32, i32, i32)) -> Block {
        block_at(c.0 as int, c.1 as int, c.2 as int)
    }
}

impl From<i32> for Block {
    fn from(position: i32) -> (b: Block) {
        Block {
            x: position % 5,
            y: (position % 25) / 5,
            z: position / 25,
            fill_color: 0,
            edge_color: 0,
        }
    }
}

impl FromSpecImpl<i32> for Block {
    open spec fn obeys_from_spec() -> bool {
        true
    }

    open spec fn from_spec(position: i32) -> Block {
        let c = coords_of_position(position as int);
        block_at(c.0, c.1, c.2)
    }
}

impl Block {
    /// The index of the cell at this block's coordinates.
    pub fn position(&self) -> (p: i32)
        requires
            position_fits(*self),
        ensures
            p == position_of(*self),
    {
        self.x + self.y * 5 + self.z * 5 * 5
    }

    /// The sum of the coordinates; the colours are those of `self`.
    pub fn plus(&self, other: &Block) -> (b: Block)
        requires
            plus_fits(*self, *other),
        ensures
            b == plus_spec(*self, *other),
    {
        Block {
            x: self.x + other.x,
            y: self.y + other.y,
            z: self.z + other.z,
            fill_color: self.fill_color,
            edge_color: self.edge_color,
        }
    }

    /// The difference of the coordinates; the colours are those of `self`.
    pub fn minus(&self, other: &Block) -> (b: Block)
        requires
            minus_fits(*self, *other),
        ensures
            b == minus_spec(*self, *other),
    {
        Block {
            x: self.x - other.x,
            y: self.y - other.y,
            z: self.z - other.z,
            fill_color: self.fill_color,
            edge_color: self.edge_color,
        }
    }

    /// The bit of the cell that the block occupies; the cell must lie in the cube.
    pub fn cell_bit(self) -> (bits: u128)
        requires
            position_fits(self),
            0 <= position_of(self) < CELLS,
        ensures
            bits == cell_mask(position_of(self)),
    {
        let position = self.position();
        1u128 << (position as u128)
    }
}


/// Cell indices and blocks inside the cube correspond one to one: the block
/// of cell `p` lies inside the cube and has index `p`, and a block inside the
/// cube is the block of its own index.
pub proof fn lemma_cell_roundtrip(p: int, b: Block)
    requires
        0 <= p < CELLS,
        inside_cube(b),
    ensures
        ({
            let c = coords_of_position(p);
            let q = block_at(c.0, c.1, c.2);
            inside_cube(q) && position_of(q) == p
        }),
        coords_of_position(position_of(b)) == (b.x as int, b.y as int, b.z as int),
{
    assert(p == p % 5 + 5 * ((p % 25) / 5) + 25 * (p / 25) && 0 <= p % 5 < 5 && 0 <= (p % 25) / 5
        < 5 && 0 <= p / 25 < 5 && p % 25 == p % 5 + 5 * ((p % 25) / 5)) by (nonlinear_arith)
        requires
            0 <= p < 125,
    ;
    let x = b.x as int;
    let y = b.y as int;
    let z = b.z as int;
    let n = x + 5 * y + 25 * z;
    assert(n % 5 == x && (n % 25) / 5 == y && n / 25 == z && n % 25 == x + 5 * y) by (nonlinear_arith)
        requires
            0 <= x < 5,
            0 <= y < 5,
            0 <= z < 5,
            n == x + 5 * y + 25 * z,
    ;
}

} // verus!
