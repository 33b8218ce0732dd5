use vstd::prelude::*;
use crate::block::{Block, CELLS, block_at, cell_mask, position_fits, position_of};
use crate::rotations::fits_i32;

verus! {

/// A piece of five blocks.  A piece handed to the solver carries, in
/// `rotations`, the ways it can be placed; each of those carries in `bits` the
/// cells that it covers.
pub struct Piece {
    pub blocks: [Block; 5],
    pub fill_color: i32,
    pub edge_color: i32,
    pub position: i32,
    pub rotations: Vec<Piece>,
    pub bits: u128,
    pub number: usize,
}

/// Bit `j` of `m` is set.
pub open spec fn has_bit(m: u128, j: int) -> bool {
    (m >> (j as u128)) & 1u128 == 1u128
}

/// The union of the cells of the blocks, folded from the first block on.
pub open spec fn bits_of_blocks(s: Seq<Block>) -> u128
    decreases s.len(),
{
    if s.len() == 0 {
        0u128
    } else {
        cell_mask(position_of(s.last())) | bits_of_blocks(s.drop_last())
    }
}

/// Every block's cell index can be computed and is below `bound`.
pub open spec fn positions_below(s: Seq<Block>, bound: int) -> bool {
    forall|k: int|
        0 <= k < s.len() ==> position_fits(#[trigger] s[k]) && 0 <= position_of(s[k]) < bound
}

/// The origin block with both colours 0.
pub open spec fn origin_block() -> Block {
    block_at(0, 0, 0)
}

/// A piece that has every field at 0 and no rotations.
pub open spec fn is_blank(p: Piece) -> bool {
    &&& forall|k: int| 0 <= k < 5 ==> #[trigger] p.blocks@[k] == origin_block()
    &&& p.fill_color == 0
    &&& p.edge_color == 0
    &&& p.position == 0
    &&& p.rotations@.len() == 0
    &&& p.bits == 0
    &&& p.number == 0
}

impl Default for Piece {
    fn default() -> (p: Piece)
        ensures
            is_blank(p),
    {
        let b = Block { x: 0, y: 0, z: 0, fill_color: 0, edge_color: 0 };
        Piece {
            blocks: [b, b, b, b, b],
            fill_color: 0,
            edge_color: 0,
            position: 0,
            rotations: Vec::new(),
            bits: 0,
            number: 0,
        }
    }
}

pub(crate) proof fn lemma_cell_mask_bits(p: int, j: int)
    requires
        0 <= p < 128,
        0 <= j < 128,
    ensures
        has_bit(cell_mask(p), j) <==> p == j,
{
    let pu = p as u128;
    let ju = j as u128;
    assert(((1u128 << pu) >> ju) & 1u128 == 1u128 <==> pu == ju) by (bit_vector)
        requires
            pu < 128,
            ju < 128,
    ;
}

pub(crate) proof fn lemma_or_bit(a: u128, b: u128, j: int)
    requires
        0 <= j < 128,
    ensures
        has_bit(a | b, j) <==> has_bit(a, j) || has_bit(b, j),
{
    let ju = j as u128;
    assert((((a | b) >> ju) & 1u128 == 1u128) <==> ((a >> ju) & 1u128 == 1u128) || ((b >> ju)
        & 1u128 == 1u128)) by (bit_vector)
        requires
            ju < 128,
    ;
}

/// Bit `j` of the union of the blocks' cells is set exactly when some block
/// occupies cell `j`.
pub proof fn lemma_bits_of_blocks(s: Seq<Block>, j: int)
    requires
        positions_below(s, 128),
        0 <= j < 128,
    ensures
        has_bit(bits_of_blocks(s), j) <==> exists|k: int|
            0 <= k < s.len() && position_of(#[trigger] s[k]) == j,
    decreases s.len(),
{
    if s.len() == 0 {
        assert(bits_of_blocks(s) == 0u128);
        let ju = j as u128;
        assert((0u128 >> ju) & 1u128 == 0u128) by (bit_vector);
    } else {
        let t = s.drop_last();
        assert(positions_below(t, 128)) by {
            assert forall|k: int| 0 <= k < t.len() implies position_fits(#[trigger] t[k]) && 0
                <= position_of(t[k]) < 128 by {
                assert(t[k] == s[k]);
            }
        }
        lemma_bits_of_blocks(t, j);
        assert(position_fits(s[s.len() - 1]));
        lemma_cell_mask_bits(position_of(s.last()), j);
        lemma_or_bit(cell_mask(position_of(s.last())), bits_of_blocks(t), j);
        if has_bit(bits_of_blocks(s), j) {
            if position_of(s.last()) == j {
                assert(position_of(s[s.len() - 1]) == j);
            } else {
                let k = choose|k: int| 0 <= k < t.len() && position_of(#[trigger] t[k]) == j;
                assert(s[k] == t[k]);
            }
        } else {
            assert forall|k: int| 0 <= k < s.len() implies position_of(#[trigger] s[k]) != j by {
                if k < s.len() - 1 {
                    assert(s[k] == t[k]);
                }
            }
        }
    }
}

impl Piece {
    /// The cells that the blocks occupy, one bit per cell; every block's cell
    /// index must be below 128.
    pub fn occupied_bits(&self) -> (bits: u128)
        requires
            positions_below(self.blocks@, 128),
        ensures
            bits == bits_of_blocks(self.blocks@),
    {
        let mut acc: u128 = 0;
        let mut k: usize = 0;
        while k < 5
            invariant
                k <= 5,
                positions_below(self.blocks@, 128),
                acc == bits_of_blocks(self.blocks@.take(k as int)),
            decreases 5 - k,
        {
            let block = &self.blocks[k];
            assert(position_fits(self.blocks@[k as int]));
            let position = block.position();
            assert(self.blocks@.take(k + 1).drop_last() =~= self.blocks@.take(k as int));
            acc = (1u128 << (position as u128)) | acc;
            k += 1;
        }
        assert(self.blocks@.take(5) =~= self.blocks@);
        acc
    }

    /// As `occupied_bits`, for a piece whose blocks must all lie in cells
    /// `0..125` of the cube.
    pub fn checked_bits(&self) -> (bits: u128)
        requires
            positions_below(self.blocks@, CELLS as int),
        ensures
            bits == bits_of_blocks(self.blocks@),
    {
        self.occupied_bits()
    }
}

} // verus!
