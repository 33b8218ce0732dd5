use vstd::prelude::*;
use crate::block::{Block, CELLS, cell_mask, coords_of_position, position_of};
use crate::piece::has_bit;

verus! {

/// The coordinates of cell `p` of the cube, for `p` in `0..125`.
pub open spec fn cell_coords(p: int) -> (int, int, int) {
    (p % 5, (p % 25) / 5, p / 25)
}

pub open spec fn dist(a: int, b: int) -> int {
    if a < b {
        b - a
    } else {
        a - b
    }
}

/// Cells `p` and `q` of the cube share a face.
pub open spec fn adjacent(p: int, q: int) -> bool {
    let a = cell_coords(p);
    let b = cell_coords(q);
    &&& 0 <= p < 125
    &&& 0 <= q < 125
    &&& dist(a.0, b.0) + dist(a.1, b.1) + dist(a.2, b.2) == 1
}

/// The face neighbours of cell `p`, one bit per cell.
pub open spec fn is_neighbor_mask(p: int, m: u128) -> bool {
    forall|q: int| 0 <= q < 128 ==> (has_bit(m, q) <==> adjacent(p, q))
}

proof fn lemma_cell_decompose(p: int)
    requires
        0 <= p < 125,
    ensures
        p == cell_coords(p).0 + 5 * cell_coords(p).1 + 25 * cell_coords(p).2,
        0 <= cell_coords(p).0 < 5,
        0 <= cell_coords(p).1 < 5,
        0 <= cell_coords(p).2 < 5,
{
    assert(p == p % 5 + 5 * ((p % 25) / 5) + 25 * (p / 25) && 0 <= p % 5 < 5 && 0 <= (p % 25) / 5
        < 5 && 0 <= p / 25 < 5) by (nonlinear_arith)
        requires
            0 <= p < 125,
    ;
}

proof fn lemma_steps_linear(x: int, y: int, z: int, x2: int, y2: int, z2: int)
    requires
        0 <= x < 5,
        0 <= y < 5,
        0 <= z < 5,
        0 <= x2 < 5,
        0 <= y2 < 5,
        0 <= z2 < 5,
    ensures
        ({
            let p = x + 5 * y + 25 * z;
            let q = x2 + 5 * y2 + 25 * z2;
            (dist(x, x2) + dist(y, y2) + dist(z, z2) == 1) <==> {
                ||| x >= 1 && q == p - 1
                ||| x <= 3 && q == p + 1
                ||| y >= 1 && q == p - 5
                ||| y <= 3 && q == p + 5
                ||| z >= 1 && q == p - 25
                ||| z <= 3 && q == p + 25
            }
        }),
{
}

/// The neighbours of a cell are the cells one step away along one axis.
proof fn lemma_adjacent_steps(p: int, q: int)
    requires
        0 <= p < 125,
        0 <= q < 128,
    ensures
        adjacent(p, q) <==> {
            let c = cell_coords(p);
            ||| c.0 >= 1 && q == p - 1
            ||| c.0 <= 3 && q == p + 1
            ||| c.1 >= 1 && q == p - 5
            ||| c.1 <= 3 && q == p + 5
            ||| c.2 >= 1 && q == p - 25
            ||| c.2 <= 3 && q == p + 25
        },
{
    lemma_cell_decompose(p);
    let c = cell_coords(p);
    if q < 125 {
        lemma_cell_decompose(q);
        let d = cell_coords(q);
        lemma_steps_linear(c.0, c.1, c.2, d.0, d.1, d.2);
    }
}

proof fn lemma_or_cell(m: u128, b: bool, r: int, q: int)
    requires
        0 <= r < 128,
        0 <= q < 128,
    ensures
        has_bit(if b { m | cell_mask(r) } else { m }, q) <==> has_bit(m, q) || (b && q == r),
{
    let qu = q as u128;
    let ru = r as u128;
    assert((((m | (1u128 << ru)) >> qu) & 1u128 == 1u128) <==> ((m >> qu) & 1u128 == 1u128) || qu
        == ru) by (bit_vector)
        requires
            qu < 128,
            ru < 128,
    ;
}

proof fn lemma_hole_bits(
    i: int,
    c: (int, int, int),
    h0: u128,
    h1: u128,
    h2: u128,
    h3: u128,
    h4: u128,
    h5: u128,
    hole: u128,
)
    requires
        0 <= i < 125,
        c == cell_coords(i),
        h0 == 0u128,
        h1 == if c.0 >= 1 { h0 | cell_mask(i - 1) } else { h0 },
        h2 == if c.0 <= 3 { h1 | cell_mask(i + 1) } else { h1 },
        h3 == if c.1 >= 1 { h2 | cell_mask(i - 5) } else { h2 },
        h4 == if c.1 <= 3 { h3 | cell_mask(i + 5) } else { h3 },
        h5 == if c.2 >= 1 { h4 | cell_mask(i - 25) } else { h4 },
        hole == if c.2 <= 3 { h5 | cell_mask(i + 25) } else { h5 },
    ensures
        is_neighbor_mask(i, hole),
{
    lemma_cell_decompose(i);
    assert forall|q: int| 0 <= q < 128 implies (has_bit(hole, q) <==> adjacent(i, q)) by {
        let qu = q as u128;
        assert((0u128 >> qu) & 1u128 == 0u128) by (bit_vector);
        lemma_or_cell(h0, c.0 >= 1, if c.0 >= 1 { i - 1 } else { 0 }, q);
        lemma_or_cell(h1, c.0 <= 3, if c.0 <= 3 { i + 1 } else { 0 }, q);
        lemma_or_cell(h2, c.1 >= 1, if c.1 >= 1 { i - 5 } else { 0 }, q);
        lemma_or_cell(h3, c.1 <= 3, if c.1 <= 3 { i + 5 } else { 0 }, q);
        lemma_or_cell(h4, c.2 >= 1, if c.2 >= 1 { i - 25 } else { 0 }, q);
        lemma_or_cell(h5, c.2 <= 3, if c.2 <= 3 { i + 25 } else { 0 }, q);
        lemma_adjacent_steps(i, q);
    }
}

/// The face neighbours of cell `i`, one bit per cell.
#[verifier::spinoff_prover]
fn neighbor_mask(i: i32) -> (hole: u128)
    requires
        0 <= i < 125,
    ensures
        is_neighbor_mask(i as int, hole),
{
    let mut hole: u128 = 0;
    let block: Block = Block::from(i);
    proof {
        lemma_cell_decompose(i as int);
    }
    let ghost c = cell_coords(i as int);
    assert(block.x == c.0 && block.y == c.1 && block.z == c.2) by {
        assert(coords_of_position(i as int) == c);
    }
    let ghost h0: u128 = 0;
    if 0 <= block.x - 1 && block.x - 1 < 5 {
        let bits: u128 = block.plus(&Block::from((-1, 0, 0))).cell_bit();
        hole = hole | bits;
    }
    let ghost h1 = hole;
    assert(h1 == if c.0 >= 1 { h0 | cell_mask(i - 1) } else { h0 });
    if 0 <= block.x + 1 && block.x + 1 < 5 {
        let bits: u128 = block.plus(&Block::from((1, 0, 0))).cell_bit();
        hole = hole | bits;
    }
    let ghost h2 = hole;
    assert(h2 == if c.0 <= 3 { h1 | cell_mask(i + 1) } else { h1 });
    if 0 <= block.y - 1 && block.y - 1 < 5 {
        let bits: u128 = block.plus(&Block::from((0, -1, 0))).cell_bit();
        hole = hole | bits;
    }
    let ghost h3 = hole;
    assert(h3 == if c.1 >= 1 { h2 | cell_mask(i - 5) } else { h2 });
    if 0 <= block.y + 1 && block.y + 1 < 5 {
        let bits: u128 = block.plus(&Block::from((0, 1, 0))).cell_bit();
        hole = hole | bits;
    }
    let ghost h4 = hole;
    assert(h4 == if c.1 <= 3 { h3 | cell_mask(i + 5) } else { h3 });
    if 0 <= block.z - 1 && block.z - 1 < 5 {
        let bits: u128 = block.plus(&Block::from((0, 0, -1))).cell_bit();
        hole = hole | bits;
    }
    let ghost h5 = hole;
    assert(h5 == if c.2 >= 1 { h4 | cell_mask(i - 25) } else { h4 });
    if 0 <= block.z + 1 && block.z + 1 < 5 {
        let bits: u128 = block.plus(&Block::from((0, 0, 1))).cell_bit();
        hole = hole | bits;
    }
    assert(hole == if c.2 <= 3 { h5 | cell_mask(i + 25) } else { h5 });
    proof {
        lemma_hole_bits(i as int, c, h0, h1, h2, h3, h4, h5, hole);
    }
    hole
}

/// For every cell of the cube, the cells that share a face with it.
pub fn get_holes() -> (holes: Vec<u128>)
    ensures
        holes.len() == CELLS,
        forall|p: int| 0 <= p < CELLS ==> is_neighbor_mask(p, #[trigger] holes@[p]),
{
    let mut holes: Vec<u128> = Vec::new();
    let mut i: i32 = 0;
    while i < 125
        invariant
            0 <= i <= 125,
            holes.len() == i,
            forall|p: int| 0 <= p < i ==> is_neighbor_mask(p, #[trigger] holes@[p]),
        decreases 125 - i,
    {
        let hole = neighbor_mask(i);
        holes.push(hole);
        i += 1;
    }
    holes
}

} // verus!
