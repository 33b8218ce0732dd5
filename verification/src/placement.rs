use vstd::prelude::*;
use crate::block::{
    Block,
    CELLS,
    coords_of_position,
    block_at,
    inside_cube,
    minus_fits,
    minus_spec,
    plus_fits,
    plus_spec,
    position_fits,
    position_of,
    same_place,
};
use crate::color::{
    Color,
    channel_minus,
    channel_plus,
    clamp_channel,
    lemma_color_number_roundtrip,
    max_color_number,
    number_of_rgb,
    rgb_of_number,
};
use crate::piece::{Piece, bits_of_blocks, positions_below};
use crate::solver::{lemma_count_blocks, piece_set_wf, rotation_cells_ok};
use crate::rotations::{
    abs_int,
    all_rotation_matrices,
    col_abs_sum,
    fits_i32,
    get_rots,
    lemma_all_rotation_matrices,
    unit_rotation,
};

verus! {

/// `a * t.x + b * t.y + c * t.z`.
pub open spec fn axis_value(a: i32, b: i32, c: i32, t: Block) -> int {
    a * t.x + b * t.y + c * t.z
}

/// Each product and partial sum of `axis_value`, in the order of evaluation,
/// stays within `i32`.
pub open spec fn axis_fits(a: i32, b: i32, c: i32, t: Block) -> bool {
    &&& fits_i32(a * t.x)
    &&& fits_i32(b * t.y)
    &&& fits_i32(a * t.x + b * t.y)
    &&& fits_i32(c * t.z)
    &&& fits_i32(axis_value(a, b, c, t))
}

/// The matrix has nine entries and turning `t` by it stays within `i32`.
pub open spec fn rotate_fits(t: Block, rot: Seq<i32>) -> bool {
    &&& rot.len() >= 9
    &&& axis_fits(rot[0], rot[3], rot[6], t)
    &&& axis_fits(rot[1], rot[4], rot[7], t)
    &&& axis_fits(rot[2], rot[5], rot[8], t)
}

/// `t` turned by the matrix `rot` (stored column after column), colours kept.
pub open spec fn rotate_spec(t: Block, rot: Seq<i32>) -> Block {
    Block {
        x: axis_value(rot[0], rot[3], rot[6], t) as i32,
        y: axis_value(rot[1], rot[4], rot[7], t) as i32,
        z: axis_value(rot[2], rot[5], rot[8], t) as i32,
        fill_color: t.fill_color,
        edge_color: t.edge_color,
    }
}

/// Turns a block about the origin by a rotation matrix stored column after
/// column; the colours are kept.
pub fn rotate_block(translated_block: Block, rot: &Vec<i32>) -> (b: Block)
    requires
        rotate_fits(translated_block, rot@),
    ensures
        b == rotate_spec(translated_block, rot@),
{
    let t = translated_block;
    Block {
        x: rot[0] * t.x + rot[3] * t.y + rot[6] * t.z,
        y: rot[1] * t.x + rot[4] * t.y + rot[7] * t.z,
        z: rot[2] * t.x + rot[5] * t.y + rot[8] * t.z,
        fill_color: t.fill_color,
        edge_color: t.edge_color,
    }
}

/// `b` with its fill colour replaced.
pub open spec fn with_fill(b: Block, fill: int) -> Block {
    Block { x: b.x, y: b.y, z: b.z, fill_color: fill as i32, edge_color: b.edge_color }
}

/// The green of the `k`-th block of a turned piece: `(50, 20 k + 100, 50)`.
pub open spec fn green_shade(k: int) -> int {
    number_of_rgb((50u8, (k * 20 + 100) as u8, 50u8))
}

/// The blocks of `blocks` taken relative to the first one and turned by `rot`,
/// the `k`-th painted in `green_shade(k)`.
pub open spec fn turned_blocks(blocks: Seq<Block>, rot: Seq<i32>) -> Seq<Block> {
    Seq::new(
        blocks.len(),
        |k: int| with_fill(rotate_spec(minus_spec(blocks[k], blocks[0]), rot), green_shade(k)),
    )
}

/// Every block can be taken relative to the first one and turned by every
/// rotation of the cube without overflow.
pub open spec fn turns_fit(blocks: Seq<Block>) -> bool {
    &&& blocks.len() > 0
    &&& forall|k: int| 0 <= k < blocks.len() ==> minus_fits(#[trigger] blocks[k], blocks[0])
    &&& forall|j: int, k: int|
        0 <= j < all_rotation_matrices().len() && 0 <= k < blocks.len() ==> rotate_fits(
            minus_spec(#[trigger] blocks[k], blocks[0]),
            #[trigger] all_rotation_matrices()[j],
        )
}

/// `r` is a piece made of `blocks`, with the given number and fill colour and
/// every other field at 0.
pub open spec fn made_of(r: Piece, blocks: Seq<Block>, number: usize, fill: i32) -> bool {
    &&& r.blocks@ == blocks
    &&& r.number == number
    &&& r.fill_color == fill
    &&& r.edge_color == 0
    &&& r.position == 0
    &&& r.bits == 0
    &&& r.rotations@.len() == 0
}

fn piece_of(blocks: [Block; 5], number: usize, fill: i32) -> (r: Piece)
    ensures
        made_of(r, blocks@, number, fill),
{
    Piece {
        blocks: blocks,
        fill_color: fill,
        edge_color: 0,
        position: 0,
        rotations: Vec::new(),
        bits: 0,
        number: number,
    }
}

fn array_of(v: &Vec<Block>) -> (a: [Block; 5])
    requires
        v.len() == 5,
    ensures
        a@ == v@,
{
    let a = [v[0], v[1], v[2], v[3], v[4]];
    assert(a@ =~= v@);
    a
}

/// The piece turned by every rotation of the cube about its first block, one
/// result per rotation in the order of `get_rots`, its blocks painted in
/// shades of green.
pub fn get_rotations(piece: &Piece) -> (rotations: Vec<Piece>)
    requires
        turns_fit(piece.blocks@),
    ensures
        rotations.len() == all_rotation_matrices().len(),
        rotations.len() == 24,
        forall|j: int|
            0 <= j < rotations.len() ==> made_of(
                #[trigger] rotations@[j],
                turned_blocks(piece.blocks@, all_rotation_matrices()[j]),
                piece.number,
                piece.fill_color,
            ),
{
    let rots = get_rots();
    let mut rotations: Vec<Piece> = Vec::new();
    let mut j: usize = 0;
    let ghost all = all_rotation_matrices();
    assert(rots.len() == all.len());
    while j < rots.len()
        invariant
            j <= rots.len(),
            rots.deep_view() == all,
            all == all_rotation_matrices(),
            rots.len() == all.len(),
            turns_fit(piece.blocks@),
            rotations.len() == j,
            forall|i: int|
                0 <= i < j ==> made_of(
                    #[trigger] rotations@[i],
                    turned_blocks(piece.blocks@, all[i]),
                    piece.number,
                    piece.fill_color,
                ),
        decreases rots.len() - j,
    {
        let rot = &rots[j];
        assert(rot@ == all[j as int]) by {
            assert(rots.deep_view()[j as int] == rot.deep_view());
            assert(rot.deep_view() =~= rot@);
        }
        let fixed_block = piece.blocks[0];
        let mut blocks: Vec<Block> = Vec::new();
        let mut k: usize = 0;
        while k < 5
            invariant
                k <= 5,
                fixed_block == piece.blocks@[0],
                rot@ == all[j as int],
                all == all_rotation_matrices(),
                0 <= j < all.len(),
                turns_fit(piece.blocks@),
                blocks.len() == k,
                forall|m: int|
                    0 <= m < k ==> #[trigger] blocks@[m] == with_fill(
                        rotate_spec(minus_spec(piece.blocks@[m], piece.blocks@[0]), rot@),
                        green_shade(m),
                    ),
            decreases 5 - k,
        {
            let block = piece.blocks[k];
            assert(minus_fits(piece.blocks@[k as int], piece.blocks@[0]));
            let translated_block = block.minus(&fixed_block);
            assert(rotate_fits(
                minus_spec(piece.blocks@[k as int], piece.blocks@[0]),
                all_rotation_matrices()[j as int],
            ));
            let mut turned = rotate_block(translated_block, rot);
            let index = k as i32;
            turned.fill_color = Color::from_rgb(50, index * 20 + 100, 50).to_number();
            blocks.push(turned);
            k += 1;
        }
        let rotation = piece_of(array_of(&blocks), piece.number, piece.fill_color);
        assert(rotation.blocks@ =~= turned_blocks(piece.blocks@, all[j as int]));
        rotations.push(rotation);
        j += 1;
    }
    rotations
}

/// Some block of `b` sits at the coordinates of `a`.
pub open spec fn has_match(a: Block, b: Seq<Block>) -> bool {
    exists|j: int| 0 <= j < b.len() && same_place(a, #[trigger] b[j])
}

/// Every block of `a` has a block of `b` at the same coordinates.
pub open spec fn isomorphic(a: Seq<Block>, b: Seq<Block>) -> bool {
    forall|i: int| 0 <= i < a.len() ==> has_match(#[trigger] a[i], b)
}

/// Whether every block of `blocks_a` has a block of `blocks_b` at the same
/// coordinates.
pub fn is_isomorphic(blocks_a: &[Block], blocks_b: &[Block]) -> (r: bool)
    ensures
        r == isomorphic(blocks_a@, blocks_b@),
{
    let mut i: usize = 0;
    while i < blocks_a.len()
        invariant
            i <= blocks_a.len(),
            forall|t: int| 0 <= t < i ==> has_match(#[trigger] blocks_a@[t], blocks_b@),
        decreases blocks_a.len() - i,
    {
        let a = &blocks_a[i];
        let mut found = false;
        let mut j: usize = 0;
        while j < blocks_b.len() && !found
            invariant
                i < blocks_a.len(),
                j <= blocks_b.len(),
                *a == blocks_a@[i as int],
                found ==> j < blocks_b.len() && same_place(blocks_a@[i as int], blocks_b@[j as int]),
                !found ==> forall|s: int|
                    0 <= s < j ==> !same_place(blocks_a@[i as int], #[trigger] blocks_b@[s]),
            decreases blocks_b.len() - j + (if found { 0int } else { 1int }),
        {
            let b = &blocks_b[j];
            if b.x == a.x && b.y == a.y && b.z == a.z {
                found = true;
            } else {
                j += 1;
            }
        }
        if !found {
            assert(!has_match(blocks_a@[i as int], blocks_b@));
            return false;
        }
        assert(has_match(blocks_a@[i as int], blocks_b@));
        i += 1;
    }
    true
}

/// The block at the coordinates of cell `position`, colours 0.
pub open spec fn position_block(position: int) -> Block {
    let c = coords_of_position(position);
    block_at(c.0, c.1, c.2)
}

/// The centre of the cube, `(2, 2, 2)`, the block of cell 62.
pub open spec fn centre() -> Block {
    block_at(2, 2, 2)
}

/// Every block lies inside the cube.
pub open spec fn all_inside(s: Seq<Block>) -> bool {
    forall|k: int| 0 <= k < s.len() ==> inside_cube(#[trigger] s[k])
}

/// `b` moved from the centre of the cube to the coordinates of cell `position`.
pub open spec fn shift_block(b: Block, position: int) -> Block {
    minus_spec(plus_spec(b, position_block(position)), centre())
}

/// The blocks moved from the centre of the cube to cell `position`.
pub open spec fn shifted(blocks: Seq<Block>, position: int) -> Seq<Block> {
    Seq::new(blocks.len(), |k: int| shift_block(blocks[k], position))
}

/// Moving every block to cell `position` stays within `i32`.
pub open spec fn shift_fits(blocks: Seq<Block>, position: int) -> bool {
    forall|k: int|
        0 <= k < blocks.len() ==> plus_fits(#[trigger] blocks[k], position_block(position))
            && minus_fits(plus_spec(blocks[k], position_block(position)), centre())
}

/// The blocks of each piece.
pub open spec fn shapes_of(pieces: Seq<Piece>) -> Seq<Seq<Block>> {
    pieces.map_values(|p: Piece| p.blocks@)
}

/// The shapes moved from the centre of the cube to cell `position`, keeping,
/// in order, those that then lie wholly inside the cube.
pub open spec fn placements(shapes: Seq<Seq<Block>>, position: int) -> Seq<Seq<Block>>
    decreases shapes.len(),
{
    if shapes.len() == 0 {
        seq![]
    } else {
        let prev = placements(shapes.drop_last(), position);
        let s = shifted(shapes.last(), position);
        if all_inside(s) {
            prev.push(s)
        } else {
            prev
        }
    }
}

/// The pieces `result` are the shapes `shapes`, with the given number and
/// fill colour and every other field at 0.
pub open spec fn pieces_made_of(
    result: Seq<Piece>,
    shapes: Seq<Seq<Block>>,
    number: usize,
    fill: i32,
) -> bool {
    &&& result.len() == shapes.len()
    &&& forall|k: int| 0 <= k < result.len() ==> made_of(#[trigger] result[k], shapes[k], number, fill)
}

/// The placements of the given rotations with their centre block at cell
/// `position`: each rotation, made for the centre of the cube, is moved so
/// that the centre goes to `position`; those that then lie wholly inside the
/// cube are kept, as pieces with the number and fill colour of `piece`.
pub fn get_legal_rotations(piece: &Piece, position: i32, rots: &Vec<Piece>) -> (rotations: Vec<
    Piece,
>)
    requires
        forall|r: int| 0 <= r < rots.len() ==> shift_fits(#[trigger] rots@[r].blocks@, position as int),
    ensures
        pieces_made_of(
            rotations@,
            placements(shapes_of(rots@), position as int),
            piece.number,
            piece.fill_color,
        ),
{
    let mut rotations: Vec<Piece> = Vec::new();
    let p: Block = Block::from(position);
    let offset: Block = Block::from(62);
    let ghost shapes = shapes_of(rots@);
    let mut r: usize = 0;
    while r < rots.len()
        invariant
            r <= rots.len(),
            shapes == shapes_of(rots@),
            p == position_block(position as int),
            offset == centre(),
            forall|t: int| 0 <= t < rots.len() ==> shift_fits(#[trigger] rots@[t].blocks@, position as int),
            pieces_made_of(
                rotations@,
                placements(shapes.take(r as int), position as int),
                piece.number,
                piece.fill_color,
            ),
        decreases rots.len() - r,
    {
        let rot = &rots[r];
        let ghost src = rot.blocks@;
        assert(shift_fits(src, position as int));
        let mut blocks: Vec<Block> = Vec::new();
        let mut inside = true;
        let mut k: usize = 0;
        while k < 5
            invariant
                k <= 5,
                src == rot.blocks@,
                shift_fits(src, position as int),
                p == position_block(position as int),
                offset == centre(),
                blocks.len() == k,
                forall|m: int| 0 <= m < k ==> #[trigger] blocks@[m] == shift_block(src[m], position as int),
                inside == forall|m: int| 0 <= m < k ==> inside_cube(#[trigger] blocks@[m]),
            decreases 5 - k,
        {
            let block = rot.blocks[k];
            assert(plus_fits(src[k as int], p));
            let moved = block.plus(&p).minus(&offset);
            if !(0 <= moved.x && moved.x < 5 && 0 <= moved.y && moved.y < 5 && 0 <= moved.z
                && moved.z < 5) {
                inside = false;
            }
            let ghost before = blocks@;
            blocks.push(moved);
            proof {
                assert(blocks@ == before.push(moved));
                if inside {
                    assert forall|m: int| 0 <= m < k + 1 implies inside_cube(
                        #[trigger] blocks@[m],
                    ) by {
                        if m < k {
                            assert(blocks@[m] == before[m]);
                        }
                    }
                } else {
                    if inside_cube(moved) {
                        let w = choose|m: int| 0 <= m < k && !inside_cube(#[trigger] before[m]);
                        assert(blocks@[w] == before[w]);
                    } else {
                        assert(!inside_cube(blocks@[k as int]));
                    }
                }
            }
            k += 1;
        }
        let ghost s = shifted(src, position as int);
        assert(blocks@ =~= s);
        assert(shapes.take(r + 1).drop_last() =~= shapes.take(r as int));
        assert(shapes.take(r + 1).last() == src);
        if inside {
            let rotation = piece_of(array_of(&blocks), piece.number, piece.fill_color);
            rotations.push(rotation);
        }
        r += 1;
    }
    assert(shapes.take(rots.len() as int) =~= shapes);
    rotations
}

/// The fill colour `fill` darkened by 50 on every channel.
pub open spec fn darkened_fill(fill: int) -> int {
    let c = rgb_of_number(fill);
    number_of_rgb((channel_minus(c.0, 50), channel_minus(c.1, 50), channel_minus(c.2, 50)))
}

/// The fill colour `fill` lightened by `amount` on every channel.
pub open spec fn lightened_fill(fill: int, amount: int) -> int {
    let c = rgb_of_number(fill);
    let a = clamp_channel(amount);
    number_of_rgb((channel_plus(c.0, a), channel_plus(c.1, a), channel_plus(c.2, a)))
}

/// `b`, painted in the darkened fill colour when it sits where `fixed` sits.
pub open spec fn marked(b: Block, fixed: Block, fill: int) -> Block {
    if same_place(b, fixed) {
        with_fill(b, darkened_fill(fill))
    } else {
        b
    }
}

/// `b` taken relative to `fixed`, turned by `rot` and moved to the centre.
pub open spec fn candidate_block(b: Block, fixed: Block, rot: Seq<i32>, fill: int) -> Block {
    plus_spec(rotate_spec(minus_spec(marked(b, fixed, fill), fixed), rot), centre())
}

/// The piece's blocks turned by `rot` about its `k`-th block, which goes to
/// the centre of the cube.
pub open spec fn candidate(blocks: Seq<Block>, k: int, rot: Seq<i32>, fill: int) -> Seq<Block> {
    Seq::new(blocks.len(), |m: int| candidate_block(blocks[m], blocks[k], rot, fill))
}

/// The block lies in the cube at the centre cell or after it.
pub open spec fn from_centre_on(b: Block) -> bool {
    position_of(b) >= 62 && inside_cube(b)
}

/// Every block lies in the cube at the centre cell or after it.
pub open spec fn candidate_ok(c: Seq<Block>) -> bool {
    forall|m: int| 0 <= m < c.len() ==> from_centre_on(#[trigger] c[m])
}

/// The blocks still in fill colour 0 painted in the piece's colour, lightened
/// by five times their index.
pub open spec fn lightened(c: Seq<Block>, fill: int) -> Seq<Block> {
    Seq::new(
        c.len(),
        |x: int|
            if c[x].fill_color == 0 {
                with_fill(c[x], lightened_fill(fill, 5 * x))
            } else {
                c[x]
            },
    )
}

/// Some shape of `shapes` has all its blocks at places of `c`.
pub open spec fn seen_before(shapes: Seq<Seq<Block>>, c: Seq<Block>) -> bool {
    exists|r: int| 0 <= r < shapes.len() && isomorphic(#[trigger] shapes[r], c)
}

/// The distinct turned shapes of a piece after the first `n` candidates:
/// candidate `n` turns the piece by matrix `n / 5` about block `n % 5`.  A
/// candidate is kept when all its blocks lie in the cube from the centre cell
/// on and no shape kept before it has all its blocks at places of it.
pub open spec fn basic_shapes(blocks: Seq<Block>, fill: int, rots: Seq<Seq<i32>>, n: nat) -> Seq<
    Seq<Block>,
>
    decreases n,
{
    if n == 0 {
        seq![]
    } else {
        let prev = basic_shapes(blocks, fill, rots, (n - 1) as nat);
        let c = candidate(blocks, (n - 1) % 5, rots[(n - 1) / 5], fill);
        if candidate_ok(c) && !seen_before(prev, c) {
            prev.push(lightened(c, fill))
        } else {
            prev
        }
    }
}

/// Turning the piece by `rot` about its `k`-th block stays within `i32`.
pub open spec fn candidate_fits(blocks: Seq<Block>, k: int, rot: Seq<i32>) -> bool {
    forall|m: int|
        0 <= m < blocks.len() ==> {
            let t = minus_spec(#[trigger] blocks[m], blocks[k]);
            &&& minus_fits(blocks[m], blocks[k])
            &&& rotate_fits(t, rot)
            &&& plus_fits(rotate_spec(t, rot), centre())
            &&& position_fits(plus_spec(rotate_spec(t, rot), centre()))
        }
}

/// The turns of the piece by every matrix of `rots` stay within `i32`, and its
/// fill colour is a colour when there is a matrix to turn by.
pub open spec fn basic_fits(piece: Piece, rots: Seq<Seq<i32>>) -> bool {
    &&& rots.len() > 0 ==> 0 <= piece.fill_color <= max_color_number()
    &&& forall|j: int, k: int|
        0 <= j < rots.len() && 0 <= k < 5 ==> #[trigger] candidate_fits(piece.blocks@, k, rots[j])
}

fn candidate_blocks(piece: &Piece, k: usize, rot: &Vec<i32>, darker: i32) -> (v: Vec<Block>)
    requires
        k < 5,
        candidate_fits(piece.blocks@, k as int, rot@),
        darker == darkened_fill(piece.fill_color as int),
    ensures
        (v.len() == 5) == candidate_ok(candidate(piece.blocks@, k as int, rot@, piece.fill_color as int)),
        v.len() == 5 ==> v@ == candidate(piece.blocks@, k as int, rot@, piece.fill_color as int),
{
    let ghost c = candidate(piece.blocks@, k as int, rot@, piece.fill_color as int);
    let fixed_block = piece.blocks[k];
    let centre_block = Block::from(62);
    let mut blocks: Vec<Block> = Vec::new();
    let mut m: usize = 0;
    while m < 5
        invariant
            m <= 5,
            k < 5,
            c == candidate(piece.blocks@, k as int, rot@, piece.fill_color as int),
            candidate_fits(piece.blocks@, k as int, rot@),
            darker == darkened_fill(piece.fill_color as int),
            fixed_block == piece.blocks@[k as int],
            centre_block == centre(),
            blocks.len() <= m,
            (forall|t: int| 0 <= t < m ==> from_centre_on(#[trigger] c[t])) ==> blocks@ == c.take(
                m as int,
            ),
            !(forall|t: int| 0 <= t < m ==> from_centre_on(#[trigger] c[t])) ==> blocks.len() < m,
        decreases 5 - m,
    {
        let mut cloned_block = piece.blocks[m];
        if cloned_block == fixed_block {
            cloned_block.fill_color = darker;
        }
        assert(cloned_block == marked(piece.blocks@[m as int], piece.blocks@[k as int], piece.fill_color as int));
        let ghost b = piece.blocks@[m as int];
        assert(minus_fits(b, piece.blocks@[k as int]));
        let translated_block = cloned_block.minus(&fixed_block);
        let rotated_block = rotate_block(translated_block, rot);
        let block = rotated_block.plus(&centre_block);
        assert(block == c[m as int]);
        let block_position = block.position();
        let ghost before = blocks@;
        if block_position >= 62 && 0 <= block.x && block.x < 5 && 0 <= block.y && block.y < 5 && 0
            <= block.z && block.z < 5 {
            blocks.push(block);
        }
        proof {
            if forall|t: int| 0 <= t < m + 1 ==> from_centre_on(#[trigger] c[t]) {
                assert(forall|t: int| 0 <= t < m ==> from_centre_on(#[trigger] c[t]));
                assert(from_centre_on(c[m as int]));
                assert(blocks@ =~= c.take(m + 1));
            } else if forall|t: int| 0 <= t < m ==> from_centre_on(#[trigger] c[t]) {
                assert(!from_centre_on(c[m as int]));
            }
        }
        m += 1;
    }
    assert(c.take(5) =~= c);
    blocks
}

fn seen(rotations: &Vec<Piece>, blocks: &Vec<Block>) -> (found: bool)
    ensures
        found == seen_before(shapes_of(rotations@), blocks@),
{
    let ghost shapes = shapes_of(rotations@);
    let mut r: usize = 0;
    while r < rotations.len()
        invariant
            r <= rotations.len(),
            shapes == shapes_of(rotations@),
            forall|t: int| 0 <= t < r ==> !isomorphic(#[trigger] shapes[t], blocks@),
        decreases rotations.len() - r,
    {
        if is_isomorphic(rotations[r].blocks.as_slice(), blocks.as_slice()) {
            assert(isomorphic(shapes[r as int], blocks@));
            return true;
        }
        r += 1;
    }
    false
}

fn lighten_blocks(blocks: &mut Vec<Block>, fill: i32)
    requires
        old(blocks).len() == 5,
        0 <= fill <= max_color_number(),
    ensures
        final(blocks)@ == lightened(old(blocks)@, fill as int),
{
    let ghost start = blocks@;
    let mut x: usize = 0;
    while x < 5
        invariant
            x <= 5,
            blocks.len() == 5,
            start.len() == 5,
            0 <= fill <= max_color_number(),
            forall|t: int| 0 <= t < x ==> #[trigger] blocks@[t] == lightened(start, fill as int)[t],
            forall|t: int| x <= t < 5 ==> #[trigger] blocks@[t] == start[t],
        decreases 5 - x,
    {
        let mut b = blocks[x];
        if b.fill_color == 0 {
            let amount = (x as i32) * 5;
            b.fill_color = Color::from_number(fill).lighten(amount).to_number();
            blocks.set(x, b);
        }
        x += 1;
    }
    assert(blocks@ =~= lightened(start, fill as int));
}

/// The distinct shapes of a piece turned by the given matrices: for every
/// matrix, in order, and every block of the piece, in order, the piece is
/// turned about that block, which is painted darker and put at the centre of
/// the cube; the turn is kept if all its blocks lie in the cube from the
/// centre cell on and no turn kept before has all its blocks at its places.
/// A kept turn has its blocks still in colour 0 painted lighter, and the
/// number of the piece.
pub fn get_basic_rots(piece: &Piece, rots: &Vec<Vec<i32>>) -> (rotations: Vec<Piece>)
    requires
        basic_fits(*piece, rots.deep_view()),
    ensures
        pieces_made_of(
            rotations@,
            basic_shapes(
                piece.blocks@,
                piece.fill_color as int,
                rots.deep_view(),
                (5 * rots.len()) as nat,
            ),
            piece.number,
            0,
        ),
        forall|r: int| 0 <= r < rotations.len() ==> all_inside(#[trigger] rotations@[r].blocks@),
{
    let ghost all = rots.deep_view();
    let ghost blocks0 = piece.blocks@;
    let ghost fill = piece.fill_color as int;
    let mut rotations: Vec<Piece> = Vec::new();
    let mut j: usize = 0;
    while j < rots.len()
        invariant
            j <= rots.len(),
            all == rots.deep_view(),
            blocks0 == piece.blocks@,
            fill == piece.fill_color as int,
            basic_fits(*piece, all),
            pieces_made_of(rotations@, basic_shapes(blocks0, fill, all, (5 * j) as nat), piece.number, 0),
            forall|r: int| 0 <= r < rotations.len() ==> all_inside(#[trigger] rotations@[r].blocks@),
        decreases rots.len() - j,
    {
        let rot = &rots[j];
        assert(rot@ == all[j as int]) by {
            assert(all[j as int] == rot.deep_view());
            assert(rot.deep_view() =~= rot@);
        }
        let darker = Color::from_number(piece.fill_color).darken(50).to_number();
        let mut k: usize = 0;
        while k < 5
            invariant
                k <= 5,
                j < rots.len(),
                all == rots.deep_view(),
                rot@ == all[j as int],
                blocks0 == piece.blocks@,
                fill == piece.fill_color as int,
                darker == darkened_fill(fill),
                0 <= piece.fill_color <= max_color_number(),
                basic_fits(*piece, all),
                pieces_made_of(
                    rotations@,
                    basic_shapes(blocks0, fill, all, (5 * j + k) as nat),
                    piece.number,
                    0,
                ),
                forall|r: int| 0 <= r < rotations.len() ==> all_inside(#[trigger] rotations@[r].blocks@),
            decreases 5 - k,
        {
            let ghost n = (5 * j + k) as nat;
            assert((n as int) / 5 == j && (n as int) % 5 == k) by (nonlinear_arith)
                requires
                    n == 5 * j + k,
                    0 <= k < 5,
            ;
            assert(candidate_fits(blocks0, k as int, all[j as int]));
            let ghost prev = basic_shapes(blocks0, fill, all, n);
            let ghost c = candidate(blocks0, k as int, all[j as int], fill);
            let mut blocks = candidate_blocks(piece, k, rot, darker);
            if blocks.len() == 5 {
                assert(shapes_of(rotations@) =~= prev);
                let found = seen(&rotations, &blocks);
                if !found {
                    lighten_blocks(&mut blocks, piece.fill_color);
                    let rotation = piece_of(array_of(&blocks), piece.number, 0);
                    assert(all_inside(rotation.blocks@)) by {
                        assert forall|m: int| 0 <= m < 5 implies inside_cube(
                            #[trigger] rotation.blocks@[m],
                        ) by {
                            assert(from_centre_on(c[m]));
                        }
                    }
                    rotations.push(rotation);
                }
            }
            assert(basic_shapes(blocks0, fill, all, (n + 1) as nat) == if candidate_ok(c)
                && !seen_before(prev, c) {
                prev.push(lightened(c, fill))
            } else {
                prev
            });
            k += 1;
        }
        j += 1;
    }
    rotations
}

/// The placements at cell `position` of the distinct turns of `pieces[number]`.
pub open spec fn legal_shapes(pieces: Seq<Piece>, rots: Seq<Seq<i32>>, number: int, position: int) -> Seq<
    Seq<Block>,
> {
    let p = pieces[number];
    placements(basic_shapes(p.blocks@, p.fill_color as int, rots, (5 * rots.len()) as nat), position)
}

/// `r` is `p` with `rotations` made of `shapes` in the number and fill colour of `p`.
pub open spec fn placed_piece(r: Piece, p: Piece, shapes: Seq<Seq<Block>>) -> bool {
    &&& r.blocks == p.blocks
    &&& r.fill_color == p.fill_color
    &&& r.edge_color == p.edge_color
    &&& r.position == p.position
    &&& r.bits == p.bits
    &&& r.number == p.number
    &&& pieces_made_of(r.rotations@, shapes, p.number, p.fill_color)
}

/// Every piece's number indexes the list of pieces.
pub open spec fn numbers_index(pieces: Seq<Piece>) -> bool {
    forall|k: int| 0 <= k < pieces.len() ==> (#[trigger] pieces[k]).number < pieces.len()
}

proof fn lemma_inside_shift_fits(blocks: Seq<Block>, position: int)
    requires
        all_inside(blocks),
        0 <= position < 125,
    ensures
        shift_fits(blocks, position),
{
    let c = coords_of_position(position);
    assert(0 <= c.0 < 5 && 0 <= c.1 < 5 && 0 <= c.2 < 5);
    assert forall|k: int| 0 <= k < blocks.len() implies plus_fits(
        #[trigger] blocks[k],
        position_block(position),
    ) && minus_fits(plus_spec(blocks[k], position_block(position)), centre()) by {
        assert(inside_cube(blocks[k]));
    }
}

/// For every cell of the cube in turn, every piece with, as its rotations,
/// the placements at that cell of the distinct turns (by the matrices `rots`)
/// of the piece whose index is its number.
pub fn get_legal_rotations_all(pieces: Vec<Piece>, rots: &Vec<Vec<i32>>) -> (all_pieces: Vec<
    Vec<Piece>,
>)
    requires
        numbers_index(pieces@),
        forall|k: int| 0 <= k < pieces.len() ==> basic_fits(#[trigger] pieces@[k], rots.deep_view()),
    ensures
        all_pieces.len() == CELLS,
        forall|i: int|
            0 <= i < CELLS ==> (#[trigger] all_pieces@[i]).len() == pieces.len() && forall|k: int|
                0 <= k < pieces.len() ==> placed_piece(
                    #[trigger] all_pieces@[i]@[k],
                    pieces@[k],
                    legal_shapes(pieces@, rots.deep_view(), pieces@[k].number as int, i),
                ),
{
    let ghost all = rots.deep_view();
    let mut basic_rots: Vec<Vec<Piece>> = Vec::new();
    let mut k: usize = 0;
    while k < pieces.len()
        invariant
            k <= pieces.len(),
            all == rots.deep_view(),
            forall|t: int| 0 <= t < pieces.len() ==> basic_fits(#[trigger] pieces@[t], all),
            basic_rots.len() == k,
            forall|t: int|
                0 <= t < k ==> pieces_made_of(
                    (#[trigger] basic_rots@[t])@,
                    basic_shapes(
                        pieces@[t].blocks@,
                        pieces@[t].fill_color as int,
                        all,
                        (5 * all.len()) as nat,
                    ),
                    pieces@[t].number,
                    0,
                ) && forall|r: int| 0 <= r < basic_rots@[t].len() ==> all_inside(#[trigger] basic_rots@[t]@[r].blocks@),
        decreases pieces.len() - k,
    {
        assert(basic_fits(pieces@[k as int], all));
        basic_rots.push(get_basic_rots(&pieces[k], rots));
        k += 1;
    }
    let mut all_pieces: Vec<Vec<Piece>> = Vec::new();
    let mut position: i32 = 0;
    while position < 125
        invariant
            0 <= position <= 125,
            all == rots.deep_view(),
            numbers_index(pieces@),
            basic_rots.len() == pieces.len(),
            forall|t: int|
                0 <= t < pieces.len() ==> pieces_made_of(
                    (#[trigger] basic_rots@[t])@,
                    basic_shapes(
                        pieces@[t].blocks@,
                        pieces@[t].fill_color as int,
                        all,
                        (5 * all.len()) as nat,
                    ),
                    pieces@[t].number,
                    0,
                ) && forall|r: int| 0 <= r < basic_rots@[t].len() ==> all_inside(#[trigger] basic_rots@[t]@[r].blocks@),
            all_pieces.len() == position,
            forall|i: int|
                0 <= i < position ==> (#[trigger] all_pieces@[i]).len() == pieces.len() && forall|k: int|
                    0 <= k < pieces.len() ==> placed_piece(
                        #[trigger] all_pieces@[i]@[k],
                        pieces@[k],
                        legal_shapes(pieces@, all, pieces@[k].number as int, i),
                    ),
        decreases 125 - position,
    {
        let mut pieces_at_position: Vec<Piece> = Vec::new();
        let mut k: usize = 0;
        while k < pieces.len()
            invariant
                k <= pieces.len(),
                0 <= position < 125,
                all == rots.deep_view(),
                numbers_index(pieces@),
                basic_rots.len() == pieces.len(),
                forall|t: int|
                    0 <= t < pieces.len() ==> pieces_made_of(
                        (#[trigger] basic_rots@[t])@,
                        basic_shapes(
                            pieces@[t].blocks@,
                            pieces@[t].fill_color as int,
                            all,
                            (5 * all.len()) as nat,
                        ),
                        pieces@[t].number,
                        0,
                    ) && forall|r: int| 0 <= r < basic_rots@[t].len() ==> all_inside(#[trigger] basic_rots@[t]@[r].blocks@),
                pieces_at_position.len() == k,
                forall|t: int|
                    0 <= t < k ==> placed_piece(
                        #[trigger] pieces_at_position@[t],
                        pieces@[t],
                        legal_shapes(pieces@, all, pieces@[t].number as int, position as int),
                    ),
            decreases pieces.len() - k,
        {
            let piece = &pieces[k];
            let number = piece.number;
            assert(number < pieces.len());
            let basic = &basic_rots[number];
            proof {
                assert forall|r: int| 0 <= r < basic.len() implies shift_fits(
                    #[trigger] basic@[r].blocks@,
                    position as int,
                ) by {
                    assert(all_inside(basic_rots@[number as int]@[r].blocks@));
                    lemma_inside_shift_fits(basic@[r].blocks@, position as int);
                }
                assert(shapes_of(basic@) =~= basic_shapes(
                    pieces@[number as int].blocks@,
                    pieces@[number as int].fill_color as int,
                    all,
                    (5 * all.len()) as nat,
                ));
            }
            let rotations = get_legal_rotations(piece, position, basic);
            let placed = Piece {
                blocks: piece.blocks,
                fill_color: piece.fill_color,
                edge_color: piece.edge_color,
                position: piece.position,
                rotations: rotations,
                bits: piece.bits,
                number: piece.number,
            };
            pieces_at_position.push(placed);
            k += 1;
        }
        all_pieces.push(pieces_at_position);
        position += 1;
    }
    all_pieces
}

/// `r` is made of `blocks`, with the given number and fill colour, with the
/// cells of its blocks in `bits` and every other field at 0.
pub open spec fn made_of_with_bits(r: Piece, blocks: Seq<Block>, number: usize, fill: i32) -> bool {
    &&& r.blocks@ == blocks
    &&& r.number == number
    &&& r.fill_color == fill
    &&& r.edge_color == 0
    &&& r.position == 0
    &&& r.bits == bits_of_blocks(blocks)
    &&& r.rotations@.len() == 0
}

/// `r` is `p` with rotations made of `shapes`, each with its cells in `bits`.
pub open spec fn prepared_piece(r: Piece, p: Piece, shapes: Seq<Seq<Block>>) -> bool {
    &&& r.blocks == p.blocks
    &&& r.fill_color == p.fill_color
    &&& r.edge_color == p.edge_color
    &&& r.position == p.position
    &&& r.bits == p.bits
    &&& r.number == p.number
    &&& r.rotations.len() == shapes.len()
    &&& forall|t: int|
        0 <= t < shapes.len() ==> made_of_with_bits(
            #[trigger] r.rotations@[t],
            shapes[t],
            p.number,
            p.fill_color,
        )
}

/// The pieces can be prepared for the search: their numbers index the list
/// and every piece can be turned by every rotation of the cube.
pub open spec fn preparable(pieces: Seq<Piece>) -> bool {
    &&& numbers_index(pieces)
    &&& forall|k: int| 0 <= k < pieces.len() ==> basic_fits(#[trigger] pieces[k], all_rotation_matrices())
}

fn with_cell_bits(p: &Piece, shapes: Ghost<Seq<Seq<Block>>>) -> (r: Piece)
    requires
        pieces_made_of(p.rotations@, shapes@, p.number, p.fill_color),
        forall|t: int| 0 <= t < shapes@.len() ==> all_inside(#[trigger] shapes@[t]),
    ensures
        prepared_piece(r, *p, shapes@),
{
    let mut rotations: Vec<Piece> = Vec::new();
    let mut t: usize = 0;
    while t < p.rotations.len()
        invariant
            t <= p.rotations.len(),
            pieces_made_of(p.rotations@, shapes@, p.number, p.fill_color),
            forall|u: int| 0 <= u < shapes@.len() ==> all_inside(#[trigger] shapes@[u]),
            rotations.len() == t,
            forall|u: int|
                0 <= u < t ==> made_of_with_bits(
                    #[trigger] rotations@[u],
                    shapes@[u],
                    p.number,
                    p.fill_color,
                ),
        decreases p.rotations.len() - t,
    {
        let rotation = &p.rotations[t];
        assert(made_of(p.rotations@[t as int], shapes@[t as int], p.number, p.fill_color));
        proof {
            let s = rotation.blocks@;
            assert(all_inside(s));
            assert forall|m: int| 0 <= m < s.len() implies position_fits(#[trigger] s[m]) && 0
                <= position_of(s[m]) < 128 by {
                assert(inside_cube(s[m]));
            }
        }
        let bits = rotation.occupied_bits();
        rotations.push(
            Piece {
                blocks: rotation.blocks,
                fill_color: rotation.fill_color,
                edge_color: rotation.edge_color,
                position: rotation.position,
                rotations: Vec::new(),
                bits: bits,
                number: rotation.number,
            },
        );
        t += 1;
    }
    Piece {
        blocks: p.blocks,
        fill_color: p.fill_color,
        edge_color: p.edge_color,
        position: p.position,
        rotations: rotations,
        bits: p.bits,
        number: p.number,
    }
}

proof fn lemma_placements_inside(shapes: Seq<Seq<Block>>, position: int)
    ensures
        forall|t: int|
            0 <= t < placements(shapes, position).len() ==> all_inside(
                #[trigger] placements(shapes, position)[t],
            ),
    decreases shapes.len(),
{
    if shapes.len() > 0 {
        let prev = placements(shapes.drop_last(), position);
        lemma_placements_inside(shapes.drop_last(), position);
        let s = shifted(shapes.last(), position);
        if all_inside(s) {
            assert forall|t: int| 0 <= t < prev.len() + 1 implies all_inside(
                #[trigger] prev.push(s)[t],
            ) by {
                if t < prev.len() {
                    assert(prev.push(s)[t] == prev[t]);
                }
            }
        }
    }
}

/// The pieces set out for the search: for every cell of the cube, every piece
/// with, as its rotations, the placements at that cell of the distinct turns
/// of the piece whose index is its number, each with the cells it covers in
/// `bits`.
pub fn build_piece_set(pieces: Vec<Piece>) -> (piece_set: Vec<Vec<Piece>>)
    requires
        preparable(pieces@),
    ensures
        piece_set.len() == CELLS,
        forall|i: int|
            0 <= i < CELLS ==> (#[trigger] piece_set@[i]).len() == pieces.len() && forall|k: int|
                0 <= k < pieces.len() ==> prepared_piece(
                    #[trigger] piece_set@[i]@[k],
                    pieces@[k],
                    legal_shapes(pieces@, all_rotation_matrices(), pieces@[k].number as int, i),
                ),
        pieces.len() >= 25 && (forall|k: int|
            0 <= k < pieces.len() ==> distinct_places(#[trigger] pieces@[k].blocks@)) ==> piece_set_wf(
            piece_set@,
        ),
{
    let ghost given = pieces@;
    let rots = get_rots();
    let placed = get_legal_rotations_all(pieces, &rots);
    let ghost all = all_rotation_matrices();
    let mut piece_set: Vec<Vec<Piece>> = Vec::new();
    let mut i: usize = 0;
    while i < placed.len()
        invariant
            i <= placed.len(),
            placed.len() == CELLS,
            all == all_rotation_matrices(),
            forall|q: int|
                0 <= q < CELLS ==> (#[trigger] placed@[q]).len() == given.len() && forall|k: int|
                    0 <= k < given.len() ==> placed_piece(
                        #[trigger] placed@[q]@[k],
                        given[k],
                        legal_shapes(given, all, given[k].number as int, q),
                    ),
            piece_set.len() == i,
            forall|q: int|
                0 <= q < i ==> (#[trigger] piece_set@[q]).len() == given.len() && forall|k: int|
                    0 <= k < given.len() ==> prepared_piece(
                        #[trigger] piece_set@[q]@[k],
                        given[k],
                        legal_shapes(given, all, given[k].number as int, q),
                    ),
        decreases placed.len() - i,
    {
        let row = &placed[i];
        let mut new_row: Vec<Piece> = Vec::new();
        let mut k: usize = 0;
        while k < row.len()
            invariant
                i < CELLS,
                k <= row.len(),
                row.len() == given.len(),
                all == all_rotation_matrices(),
                forall|u: int|
                    0 <= u < given.len() ==> placed_piece(
                        #[trigger] row@[u],
                        given[u],
                        legal_shapes(given, all, given[u].number as int, i as int),
                    ),
                new_row.len() == k,
                forall|u: int|
                    0 <= u < k ==> prepared_piece(
                        #[trigger] new_row@[u],
                        given[u],
                        legal_shapes(given, all, given[u].number as int, i as int),
                    ),
            decreases row.len() - k,
        {
            let ghost shapes = legal_shapes(given, all, given[k as int].number as int, i as int);
            assert(placed_piece(row@[k as int], given[k as int], shapes));
            proof {
                let p = given[given[k as int].number as int];
                lemma_placements_inside(
                    basic_shapes(p.blocks@, p.fill_color as int, all, (5 * all.len()) as nat),
                    i as int,
                );
            }
            let prepared = with_cell_bits(&row[k], Ghost(shapes));
            new_row.push(prepared);
            k += 1;
        }
        piece_set.push(new_row);
        i += 1;
    }
    proof {
        if given.len() >= 25 && (forall|k: int|
            0 <= k < given.len() ==> distinct_places(#[trigger] given[k].blocks@)) {
            lemma_prepared_set_wf(given, piece_set@);
        }
    }
    piece_set
}

/// A set prepared from at least the 25 pieces, each with its blocks at
/// distinct places, has every rotation covering five cells of the cube.
proof fn lemma_prepared_set_wf(pieces: Seq<Piece>, ps: Seq<Vec<Piece>>)
    requires
        preparable(pieces),
        pieces.len() >= 25,
        forall|k: int| 0 <= k < pieces.len() ==> distinct_places(#[trigger] pieces[k].blocks@),
        ps.len() == CELLS,
        forall|i: int|
            0 <= i < CELLS ==> (#[trigger] ps[i]).len() == pieces.len() && forall|k: int|
                0 <= k < pieces.len() ==> prepared_piece(
                    #[trigger] ps[i]@[k],
                    pieces[k],
                    legal_shapes(pieces, all_rotation_matrices(), pieces[k].number as int, i),
                ),
    ensures
        piece_set_wf(ps),
{
    assert forall|i: int, p: int, r: int|
        0 <= i < 125 && 0 <= p < 25 && 0 <= r < ps[i]@[p].rotations.len() implies rotation_cells_ok(
        #[trigger] ps[i]@[p].rotations@[r].bits,
    ) by {
        let number = pieces[p].number as int;
        let shapes = legal_shapes(pieces, all_rotation_matrices(), number, i);
        assert(prepared_piece(ps[i]@[p], pieces[p], shapes));
        assert(number < pieces.len());
        assert(basic_fits(pieces[number], all_rotation_matrices()));
        assert(distinct_places(pieces[number].blocks@));
        lemma_legal_shapes_distinct(pieces, number, i);
        assert(made_of_with_bits(ps[i]@[p].rotations@[r], shapes[r], pieces[p].number, pieces[p].fill_color));
        lemma_count_blocks(shapes[r]);
    }
}

proof fn lemma_position_block_bounds(position: int)
    requires
        i32::MIN <= position <= i32::MAX,
    ensures
        -5 < position_block(position).x < 5,
        -5 < position_block(position).y < 5,
        -90000000 < position_block(position).z < 90000000,
{
    let c = coords_of_position(position);
    if position >= 0 {
        assert(0 <= c.0 < 5 && 0 <= c.1 < 5 && 0 <= c.2 < 90000000) by (nonlinear_arith)
            requires
                c == coords_of_position(position),
                0 <= position <= i32::MAX,
        ;
    } else {
        assert(-5 < c.0 <= 0 && -5 < c.1 <= 0 && -90000000 < c.2 <= 0) by (nonlinear_arith)
            requires
                c == coords_of_position(position),
                i32::MIN <= position < 0,
        ;
    }
}

/// The placements with their centre block at cell `position` of the distinct
/// turns of the piece by every rotation of the cube.
pub fn legal_rotations_at(piece: &Piece, position: i32) -> (rotations: Vec<Piece>)
    requires
        basic_fits(*piece, all_rotation_matrices()),
    ensures
        pieces_made_of(
            rotations@,
            placements(
                basic_shapes(
                    piece.blocks@,
                    piece.fill_color as int,
                    all_rotation_matrices(),
                    (5 * all_rotation_matrices().len()) as nat,
                ),
                position as int,
            ),
            piece.number,
            piece.fill_color,
        ),
{
    let rots = get_rots();
    let basic = get_basic_rots(piece, &rots);
    proof {
        lemma_position_block_bounds(position as int);
        assert forall|r: int| 0 <= r < basic.len() implies shift_fits(
            #[trigger] basic@[r].blocks@,
            position as int,
        ) by {
            let s = basic@[r].blocks@;
            assert(all_inside(s));
            assert forall|k: int| 0 <= k < s.len() implies plus_fits(
                #[trigger] s[k],
                position_block(position as int),
            ) && minus_fits(plus_spec(s[k], position_block(position as int)), centre()) by {
                assert(inside_cube(s[k]));
            }
        }
        assert(shapes_of(basic@) =~= basic_shapes(
            piece.blocks@,
            piece.fill_color as int,
            all_rotation_matrices(),
            (5 * all_rotation_matrices().len()) as nat,
        ));
    }
    get_legal_rotations(piece, position, &basic)
}

/// Some block of `s` sits at the centre of the cube.
pub open spec fn holds_centre(s: Seq<Block>) -> bool {
    exists|m: int| 0 <= m < s.len() && same_place(#[trigger] s[m], centre())
}

proof fn lemma_isomorphic_places(a: Seq<Block>, c: Seq<Block>, d: Seq<Block>)
    requires
        c.len() == d.len(),
        forall|j: int| 0 <= j < c.len() ==> same_place(#[trigger] c[j], d[j]),
    ensures
        isomorphic(a, c) == isomorphic(a, d),
{
    if isomorphic(a, c) {
        assert forall|i: int| 0 <= i < a.len() implies has_match(#[trigger] a[i], d) by {
            assert(has_match(a[i], c));
            let j = choose|j: int| 0 <= j < c.len() && same_place(a[i], #[trigger] c[j]);
            assert(same_place(c[j], d[j]));
            assert(same_place(a[i], d[j]));
        }
    }
    if isomorphic(a, d) {
        assert forall|i: int| 0 <= i < a.len() implies has_match(#[trigger] a[i], c) by {
            assert(has_match(a[i], d));
            let j = choose|j: int| 0 <= j < d.len() && same_place(a[i], #[trigger] d[j]);
            assert(same_place(c[j], d[j]));
            assert(same_place(a[i], c[j]));
        }
    }
}

/// The distinct turns of a piece: no turn has all its blocks at places of a
/// later one, every turn lies in the cube from the centre cell on, and every
/// turn has a block at the centre.
pub proof fn lemma_basic_shapes(blocks: Seq<Block>, fill: int, rots: Seq<Seq<i32>>, n: nat)
    requires
        blocks.len() == 5,
    ensures
        ({
            let shapes = basic_shapes(blocks, fill, rots, n);
            &&& forall|a: int, b: int|
                0 <= a < b < shapes.len() ==> !isomorphic(#[trigger] shapes[a], #[trigger] shapes[b])
            &&& forall|a: int| 0 <= a < shapes.len() ==> candidate_ok(#[trigger] shapes[a])
            &&& forall|a: int| 0 <= a < shapes.len() ==> holds_centre(#[trigger] shapes[a])
            &&& forall|a: int| 0 <= a < shapes.len() ==> (#[trigger] shapes[a]).len() == 5
        }),
    decreases n,
{
    if n > 0 {
        lemma_basic_shapes(blocks, fill, rots, (n - 1) as nat);
        let prev = basic_shapes(blocks, fill, rots, (n - 1) as nat);
        let k = (n - 1) % 5;
        let c = candidate(blocks, k, rots[(n - 1) / 5], fill);
        if candidate_ok(c) && !seen_before(prev, c) {
            let l = lightened(c, fill);
            let shapes = prev.push(l);
            assert forall|j: int| 0 <= j < c.len() implies same_place(#[trigger] c[j], l[j]) by {}
            assert forall|a: int, b: int|
                0 <= a < b < shapes.len() implies !isomorphic(
                #[trigger] shapes[a],
                #[trigger] shapes[b],
            ) by {
                if b == prev.len() {
                    assert(shapes[a] == prev[a]);
                    assert(!isomorphic(prev[a], c));
                    lemma_isomorphic_places(prev[a], c, l);
                } else {
                    assert(shapes[a] == prev[a]);
                    assert(shapes[b] == prev[b]);
                }
            }
            assert forall|a: int| 0 <= a < shapes.len() implies candidate_ok(
                #[trigger] shapes[a],
            ) by {
                if a == prev.len() {
                    assert forall|m: int| 0 <= m < l.len() implies from_centre_on(
                        #[trigger] l[m],
                    ) by {
                        assert(from_centre_on(c[m]));
                    }
                } else {
                    assert(shapes[a] == prev[a]);
                }
            }
            assert forall|a: int| 0 <= a < shapes.len() implies holds_centre(
                #[trigger] shapes[a],
            ) by {
                if a == prev.len() {
                    let bk = blocks[k];
                    let t = minus_spec(marked(bk, bk, fill), bk);
                    assert(t.x == 0 && t.y == 0 && t.z == 0);
                    let rot = rots[(n - 1) / 5];
                    assert(rot[0] * t.x == 0 && rot[3] * t.y == 0 && rot[6] * t.z == 0);
                    assert(rot[1] * t.x == 0 && rot[4] * t.y == 0 && rot[7] * t.z == 0);
                    assert(rot[2] * t.x == 0 && rot[5] * t.y == 0 && rot[8] * t.z == 0);
                    let rt = rotate_spec(t, rot);
                    assert(rt.x == 0 && rt.y == 0 && rt.z == 0);
                    assert(c[k] == plus_spec(rt, centre()));
                    assert(same_place(l[k], centre()));
                } else {
                    assert(shapes[a] == prev[a]);
                }
            }
            assert forall|a: int| 0 <= a < shapes.len() implies (#[trigger] shapes[a]).len()
                == 5 by {
                if a < prev.len() {
                    assert(shapes[a] == prev[a]);
                }
            }
        }
    }
}

/// The blocks cover cell `i` and no cell before it.
pub open spec fn anchored_at(s: Seq<Block>, i: int) -> bool {
    &&& exists|m: int| 0 <= m < s.len() && position_of(#[trigger] s[m]) == i
    &&& forall|m: int| 0 <= m < s.len() ==> position_of(#[trigger] s[m]) >= i
}

/// Every placement at cell `position` of shapes that lie in the cube from the
/// centre cell on and hold the centre covers cell `position` and no cell
/// before it.
pub proof fn lemma_placements_anchor(shapes: Seq<Seq<Block>>, position: int)
    requires
        0 <= position < 125,
        forall|a: int| 0 <= a < shapes.len() ==> candidate_ok(#[trigger] shapes[a]),
        forall|a: int| 0 <= a < shapes.len() ==> holds_centre(#[trigger] shapes[a]),
    ensures
        forall|t: int|
            0 <= t < placements(shapes, position).len() ==> anchored_at(
                #[trigger] placements(shapes, position)[t],
                position,
            ),
    decreases shapes.len(),
{
    if shapes.len() > 0 {
        let rest = shapes.drop_last();
        assert forall|a: int| 0 <= a < rest.len() implies candidate_ok(#[trigger] rest[a]) && holds_centre(
            rest[a],
        ) by {
            assert(rest[a] == shapes[a]);
        }
        lemma_placements_anchor(rest, position);
        let prev = placements(rest, position);
        let last = shapes.last();
        let s = shifted(last, position);
        let c = coords_of_position(position);
        assert(0 <= c.0 < 5 && 0 <= c.1 < 5 && 0 <= c.2 < 5 && c.0 + 5 * c.1 + 25 * c.2 == position)
            by (nonlinear_arith)
            requires
                c == coords_of_position(position),
                0 <= position < 125,
        ;
        assert(candidate_ok(shapes[shapes.len() - 1]));
        assert(holds_centre(shapes[shapes.len() - 1]));
        assert forall|m: int| 0 <= m < s.len() implies position_of(#[trigger] s[m]) == position_of(
            last[m],
        ) + position - 62 by {
            assert(from_centre_on(last[m]));
        }
        assert(rest == shapes.drop_last() && last == shapes.last());
        assert(placements(shapes, position) == if all_inside(s) {
            prev.push(s)
        } else {
            prev
        });
        let res = placements(shapes, position);
        assert forall|t: int| 0 <= t < res.len() implies anchored_at(#[trigger] res[t], position) by {
            if all_inside(s) && t == prev.len() {
                assert(res[t] == s);
                let w = choose|m: int| 0 <= m < last.len() && same_place(#[trigger] last[m], centre());
                assert(position_of(last[w]) == 62);
                assert(position_of(s[w]) == position);
                assert forall|m: int| 0 <= m < s.len() implies position_of(#[trigger] s[m])
                    >= position by {
                    assert(from_centre_on(last[m]));
                }
            } else {
                assert(res[t] == prev[t]);
                assert(anchored_at(prev[t], position));
            }
        }
    }
}

/// Every rotation that `build_piece_set` gives a piece at cell `i` covers
/// cell `i` and no cell before it.
pub proof fn lemma_legal_shapes(pieces: Seq<Piece>, number: int, i: int)
    requires
        0 <= number < pieces.len(),
        0 <= i < 125,
    ensures
        forall|t: int|
            0 <= t < legal_shapes(pieces, all_rotation_matrices(), number, i).len() ==> anchored_at(
                #[trigger] legal_shapes(pieces, all_rotation_matrices(), number, i)[t],
                i,
            ),
{
    let p = pieces[number];
    let all = all_rotation_matrices();
    lemma_basic_shapes(p.blocks@, p.fill_color as int, all, (5 * all.len()) as nat);
    lemma_placements_anchor(
        basic_shapes(p.blocks@, p.fill_color as int, all, (5 * all.len()) as nat),
        i,
    );
}

/// No two blocks sit at the same place.
pub open spec fn distinct_places(s: Seq<Block>) -> bool {
    forall|a: int, b: int| 0 <= a < b < s.len() ==> !same_place(#[trigger] s[a], #[trigger] s[b])
}

proof fn lemma_row_single(a: int, b: int, c: int, x: int, y: int, z: int)
    requires
        -1 <= a <= 1,
        -1 <= b <= 1,
        -1 <= c <= 1,
        abs_int(a) + abs_int(b) + abs_int(c) == 1,
        a * x + b * y + c * z == 0,
    ensures
        a != 0 ==> x == 0,
        b != 0 ==> y == 0,
        c != 0 ==> z == 0,
{
    if a != 0 {
        assert(b * y == 0 && c * z == 0) by (nonlinear_arith)
            requires
                b == 0,
                c == 0,
        ;
        assert(x == 0) by (nonlinear_arith)
            requires
                a * x == 0,
                a != 0,
        ;
    }
    if b != 0 {
        assert(a * x == 0 && c * z == 0) by (nonlinear_arith)
            requires
                a == 0,
                c == 0,
        ;
        assert(y == 0) by (nonlinear_arith)
            requires
                b * y == 0,
                b != 0,
        ;
    }
    if c != 0 {
        assert(a * x == 0 && b * y == 0) by (nonlinear_arith)
            requires
                a == 0,
                b == 0,
        ;
        assert(z == 0) by (nonlinear_arith)
            requires
                c * z == 0,
                c != 0,
        ;
    }
}

/// A rotation of the cube sends only the origin to the origin.
pub proof fn lemma_rotation_kernel(rot: Seq<i32>, x: int, y: int, z: int)
    requires
        unit_rotation(rot),
        rot[0] * x + rot[3] * y + rot[6] * z == 0,
        rot[1] * x + rot[4] * y + rot[7] * z == 0,
        rot[2] * x + rot[5] * y + rot[8] * z == 0,
    ensures
        x == 0 && y == 0 && z == 0,
{
    assert(-1 <= rot[0] <= 1 && -1 <= rot[1] <= 1 && -1 <= rot[2] <= 1);
    assert(-1 <= rot[3] <= 1 && -1 <= rot[4] <= 1 && -1 <= rot[5] <= 1);
    assert(-1 <= rot[6] <= 1 && -1 <= rot[7] <= 1 && -1 <= rot[8] <= 1);
    lemma_row_single(rot[0] as int, rot[3] as int, rot[6] as int, x, y, z);
    lemma_row_single(rot[1] as int, rot[4] as int, rot[7] as int, x, y, z);
    lemma_row_single(rot[2] as int, rot[5] as int, rot[8] as int, x, y, z);
    assert(col_abs_sum(rot, 0) == 1 && col_abs_sum(rot, 1) == 1 && col_abs_sum(rot, 2) == 1);
}

proof fn lemma_axis_difference(a: int, b: int, c: int, x1: int, y1: int, z1: int, x2: int, y2: int, z2: int)
    ensures
        (a * x1 + b * y1 + c * z1) - (a * x2 + b * y2 + c * z2) == a * (x1 - x2) + b * (y1 - y2) + c
            * (z1 - z2),
{
    assert((a * x1 + b * y1 + c * z1) - (a * x2 + b * y2 + c * z2) == a * (x1 - x2) + b * (y1
        - y2) + c * (z1 - z2)) by (nonlinear_arith);
}

/// Turning a piece about one of its blocks by a rotation of the cube keeps
/// its blocks at distinct places.
proof fn lemma_candidate_distinct(blocks: Seq<Block>, k: int, rot: Seq<i32>, fill: int)
    requires
        blocks.len() == 5,
        0 <= k < 5,
        candidate_fits(blocks, k, rot),
        unit_rotation(rot),
        distinct_places(blocks),
    ensures
        distinct_places(candidate(blocks, k, rot, fill)),
{
    let c = candidate(blocks, k, rot, fill);
    assert forall|a: int, b: int| 0 <= a < b < c.len() implies !same_place(
        #[trigger] c[a],
        #[trigger] c[b],
    ) by {
        let fk = blocks[k];
        let da = minus_spec(blocks[a], fk);
        let db = minus_spec(blocks[b], fk);
        assert(minus_fits(blocks[a], fk) && rotate_fits(da, rot) && plus_fits(
            rotate_spec(da, rot),
            centre(),
        ));
        assert(minus_fits(blocks[b], fk) && rotate_fits(db, rot) && plus_fits(
            rotate_spec(db, rot),
            centre(),
        ));
        if same_place(c[a], c[b]) {
            lemma_axis_difference(
                rot[0] as int,
                rot[3] as int,
                rot[6] as int,
                da.x as int,
                da.y as int,
                da.z as int,
                db.x as int,
                db.y as int,
                db.z as int,
            );
            lemma_axis_difference(
                rot[1] as int,
                rot[4] as int,
                rot[7] as int,
                da.x as int,
                da.y as int,
                da.z as int,
                db.x as int,
                db.y as int,
                db.z as int,
            );
            lemma_axis_difference(
                rot[2] as int,
                rot[5] as int,
                rot[8] as int,
                da.x as int,
                da.y as int,
                da.z as int,
                db.x as int,
                db.y as int,
                db.z as int,
            );
            lemma_rotation_kernel(
                rot,
                da.x - db.x,
                da.y - db.y,
                da.z - db.z,
            );
            assert(same_place(blocks[a], blocks[b]));
        }
    }
}

/// The distinct turns of a piece whose blocks sit at distinct places have
/// their blocks at distinct places.
proof fn lemma_basic_shapes_distinct(blocks: Seq<Block>, fill: int, rots: Seq<Seq<i32>>, n: nat)
    requires
        blocks.len() == 5,
        distinct_places(blocks),
        n <= 5 * rots.len(),
        forall|j: int| 0 <= j < rots.len() ==> unit_rotation(#[trigger] rots[j]),
        forall|j: int, k: int|
            0 <= j < rots.len() && 0 <= k < 5 ==> #[trigger] candidate_fits(blocks, k, rots[j]),
    ensures
        forall|a: int|
            0 <= a < basic_shapes(blocks, fill, rots, n).len() ==> distinct_places(
                #[trigger] basic_shapes(blocks, fill, rots, n)[a],
            ),
    decreases n,
{
    if n > 0 {
        lemma_basic_shapes_distinct(blocks, fill, rots, (n - 1) as nat);
        let prev = basic_shapes(blocks, fill, rots, (n - 1) as nat);
        let k = (n - 1) % 5;
        let j = (n - 1) / 5;
        assert(0 <= j < rots.len()) by (nonlinear_arith)
            requires
                j == (n - 1) / 5,
                n <= 5 * rots.len(),
                n > 0,
        ;
        let c = candidate(blocks, k, rots[j], fill);
        if candidate_ok(c) && !seen_before(prev, c) {
            assert(candidate_fits(blocks, k, rots[j]));
            assert(unit_rotation(rots[j]));
            lemma_candidate_distinct(blocks, k, rots[j], fill);
            let l = lightened(c, fill);
            assert(distinct_places(l)) by {
                assert forall|a: int, b: int| 0 <= a < b < l.len() implies !same_place(
                    #[trigger] l[a],
                    #[trigger] l[b],
                ) by {
                    assert(!same_place(c[a], c[b]));
                }
            }
            let shapes = prev.push(l);
            assert forall|a: int| 0 <= a < shapes.len() implies distinct_places(
                #[trigger] shapes[a],
            ) by {
                if a < prev.len() {
                    assert(shapes[a] == prev[a]);
                }
            }
        }
    }
}

/// The placements of shapes whose blocks sit at distinct places inside the
/// cube have their blocks at distinct places inside the cube.
proof fn lemma_placements_distinct(shapes: Seq<Seq<Block>>, position: int)
    requires
        0 <= position < 125,
        forall|a: int|
            0 <= a < shapes.len() ==> distinct_places(#[trigger] shapes[a]) && candidate_ok(shapes[a])
                && shapes[a].len() == 5,
    ensures
        forall|t: int|
            0 <= t < placements(shapes, position).len() ==> distinct_places(
                #[trigger] placements(shapes, position)[t],
            ) && placements(shapes, position)[t].len() == 5,
    decreases shapes.len(),
{
    if shapes.len() > 0 {
        let rest = shapes.drop_last();
        assert forall|a: int| 0 <= a < rest.len() implies distinct_places(#[trigger] rest[a])
            && candidate_ok(rest[a]) && rest[a].len() == 5 by {
            assert(rest[a] == shapes[a]);
        }
        lemma_placements_distinct(rest, position);
        let prev = placements(rest, position);
        let last = shapes.last();
        let sh = shifted(last, position);
        let c = coords_of_position(position);
        assert(0 <= c.0 < 5 && 0 <= c.1 < 5 && 0 <= c.2 < 5) by (nonlinear_arith)
            requires
                c == coords_of_position(position),
                0 <= position < 125,
        ;
        assert(placements(shapes, position) == if all_inside(sh) {
            prev.push(sh)
        } else {
            prev
        });
        if all_inside(sh) {
            assert(distinct_places(shapes[shapes.len() - 1]));
            assert(distinct_places(sh)) by {
                assert forall|a: int, b: int| 0 <= a < b < sh.len() implies !same_place(
                    #[trigger] sh[a],
                    #[trigger] sh[b],
                ) by {
                    assert(!same_place(last[a], last[b]));
                    assert(candidate_ok(shapes[shapes.len() - 1]));
                    assert(from_centre_on(last[a]) && from_centre_on(last[b]));
                    assert(sh[a] == shift_block(last[a], position));
                    assert(sh[b] == shift_block(last[b], position));
                }
            }
            let res = prev.push(sh);
            assert forall|t: int| 0 <= t < res.len() implies distinct_places(#[trigger] res[t])
                && res[t].len() == 5 by {
                if t < prev.len() {
                    assert(res[t] == prev[t]);
                }
            }
        }
    }
}

/// The rotations that `build_piece_set` gives a piece at a cell have their
/// blocks at distinct places inside the cube, when the piece they are turns
/// of has its blocks at distinct places.
pub proof fn lemma_legal_shapes_distinct(pieces: Seq<Piece>, number: int, i: int)
    requires
        0 <= number < pieces.len(),
        0 <= i < 125,
        basic_fits(pieces[number], all_rotation_matrices()),
        distinct_places(pieces[number].blocks@),
    ensures
        forall|t: int|
            0 <= t < legal_shapes(pieces, all_rotation_matrices(), number, i).len() ==> distinct_places(
                #[trigger] legal_shapes(pieces, all_rotation_matrices(), number, i)[t],
            ) && all_inside(legal_shapes(pieces, all_rotation_matrices(), number, i)[t])
                && legal_shapes(pieces, all_rotation_matrices(), number, i)[t].len() == 5,
{
    let p = pieces[number];
    let all = all_rotation_matrices();
    lemma_all_rotation_matrices();
    lemma_basic_shapes_distinct(p.blocks@, p.fill_color as int, all, (5 * all.len()) as nat);
    lemma_basic_shapes(p.blocks@, p.fill_color as int, all, (5 * all.len()) as nat);
    let shapes = basic_shapes(p.blocks@, p.fill_color as int, all, (5 * all.len()) as nat);
    lemma_placements_distinct(shapes, i);
    lemma_placements_inside(shapes, i);
}


/// Entry `j` of `get_rotations` is the piece turned by the `j`-th rotation of
/// the cube about its first block: its block `k` is that matrix (stored column
/// after column) times the offset of block `k` from block 0, painted in the
/// `k`-th shade of green, with its edge colour kept.
pub proof fn lemma_turned_blocks(blocks: Seq<Block>, j: int, k: int)
    requires
        turns_fit(blocks),
        0 <= j < all_rotation_matrices().len(),
        0 <= k < blocks.len(),
    ensures
        ({
            let r = all_rotation_matrices()[j];
            let t = turned_blocks(blocks, r)[k];
            let dx = blocks[k].x - blocks[0].x;
            let dy = blocks[k].y - blocks[0].y;
            let dz = blocks[k].z - blocks[0].z;
            &&& t.x == r[0] * dx + r[3] * dy + r[6] * dz
            &&& t.y == r[1] * dx + r[4] * dy + r[7] * dz
            &&& t.z == r[2] * dx + r[5] * dy + r[8] * dz
            &&& t.fill_color == number_of_rgb((50u8, (k * 20 + 100) as u8, 50u8))
            &&& t.edge_color == blocks[k].edge_color
        }),
{
    let r = all_rotation_matrices()[j];
    assert(minus_fits(blocks[k], blocks[0]));
    assert(rotate_fits(minus_spec(blocks[k], blocks[0]), r));
    assert(green_shade(k) == number_of_rgb((50u8, (k * 20 + 100) as u8, 50u8)));
    assert(0 <= green_shade(k) <= 0xFF_FFFF) by {
        lemma_color_number_roundtrip((50u8, (k * 20 + 100) as u8, 50u8), 0);
    }
}


/// A shape kept once stays seen as more candidates are looked at.
proof fn lemma_seen_stays(blocks: Seq<Block>, fill: int, rots: Seq<Seq<i32>>, n: nat, m: nat, c: Seq<Block>)
    requires
        n <= m,
        seen_before(basic_shapes(blocks, fill, rots, n), c),
    ensures
        seen_before(basic_shapes(blocks, fill, rots, m), c),
    decreases m - n,
{
    if n < m {
        let prev = basic_shapes(blocks, fill, rots, n);
        let next = basic_shapes(blocks, fill, rots, (n + 1) as nat);
        assert(seen_before(next, c)) by {
            let r = choose|r: int| 0 <= r < prev.len() && isomorphic(#[trigger] prev[r], c);
            let d = candidate(blocks, (n as int) % 5, rots[(n as int) / 5], fill);
            if candidate_ok(d) && !seen_before(prev, d) {
                assert(next == prev.push(lightened(d, fill)));
                assert(next[r] == prev[r]);
            }
        }
        lemma_seen_stays(blocks, fill, rots, (n + 1) as nat, m, c);
    }
}

/// No turn is lost: for every matrix `j` and every block `k` whose turn of
/// the piece about block `k` lies in the cube from the centre cell on, some
/// shape that `get_basic_rots` keeps has all its blocks at places of that turn.
pub proof fn lemma_basic_shapes_complete(
    blocks: Seq<Block>,
    fill: int,
    rots: Seq<Seq<i32>>,
    j: int,
    k: int,
)
    requires
        0 <= j < rots.len(),
        0 <= k < 5,
        candidate_ok(candidate(blocks, k, rots[j], fill)),
    ensures
        seen_before(
            basic_shapes(blocks, fill, rots, (5 * rots.len()) as nat),
            candidate(blocks, k, rots[j], fill),
        ),
{
    let c = candidate(blocks, k, rots[j], fill);
    let n = 5 * j + k;
    assert(n % 5 == k && n / 5 == j) by (nonlinear_arith)
        requires
            n == 5 * j + k,
            0 <= k < 5,
    ;
    let prev = basic_shapes(blocks, fill, rots, n as nat);
    let next = basic_shapes(blocks, fill, rots, (n + 1) as nat);
    if !seen_before(prev, c) {
        let l = lightened(c, fill);
        assert(next == prev.push(l));
        assert(next[prev.len() as int] == l);
        assert forall|i: int| 0 <= i < l.len() implies has_match(#[trigger] l[i], c) by {
            assert(same_place(l[i], c[i]));
        }
        assert(isomorphic(next[prev.len() as int], c));
    } else {
        lemma_seen_stays(blocks, fill, rots, n as nat, (n + 1) as nat, c);
    }
    assert(n + 1 <= 5 * rots.len()) by (nonlinear_arith)
        requires
            n == 5 * j + k,
            k < 5,
            j < rots.len(),
    ;
    lemma_seen_stays(blocks, fill, rots, (n + 1) as nat, (5 * rots.len()) as nat, c);
}

/// Block `m` of the turn of a piece by `rot` about its block `k` is the matrix
/// (stored column after column) times the offset of block `m` from block `k`,
/// moved to the centre `(2, 2, 2)` of the cube.
pub proof fn lemma_candidate_places(blocks: Seq<Block>, k: int, rot: Seq<i32>, fill: int, m: int)
    requires
        0 <= k < blocks.len(),
        0 <= m < blocks.len(),
        candidate_fits(blocks, k, rot),
    ensures
        ({
            let b = candidate(blocks, k, rot, fill)[m];
            let dx = blocks[m].x - blocks[k].x;
            let dy = blocks[m].y - blocks[k].y;
            let dz = blocks[m].z - blocks[k].z;
            &&& b.x == rot[0] * dx + rot[3] * dy + rot[6] * dz + 2
            &&& b.y == rot[1] * dx + rot[4] * dy + rot[7] * dz + 2
            &&& b.z == rot[2] * dx + rot[5] * dy + rot[8] * dz + 2
        }),
{
    assert(minus_fits(blocks[m], blocks[k]));
    let t = minus_spec(blocks[m], blocks[k]);
    assert(rotate_fits(t, rot) && plus_fits(rotate_spec(t, rot), centre()));
    assert(minus_spec(marked(blocks[m], blocks[k], fill), blocks[k]) == with_fill(t, 
        marked(blocks[m], blocks[k], fill).fill_color as int));
}


/// No placement is lost: every shape that, moved from the centre `(2, 2, 2)`
/// to the coordinates `(p % 5, (p % 25) / 5, p / 25)` of cell `p`, lies wholly
/// inside the cube (each coordinate in `0..5`) is among the placements at `p`,
/// moved block by block with its colours kept.
pub proof fn lemma_placements_complete(shapes: Seq<Seq<Block>>, p: int, a: int)
    requires
        0 <= p < 125,
        0 <= a < shapes.len(),
        forall|m: int|
            0 <= m < shapes[a].len() ==> {
                let b = #[trigger] shapes[a][m];
                &&& 0 <= b.x + p % 5 - 2 < 5
                &&& 0 <= b.y + (p % 25) / 5 - 2 < 5
                &&& 0 <= b.z + p / 25 - 2 < 5
            },
    ensures
        exists|t: int|
            0 <= t < placements(shapes, p).len() && (#[trigger] placements(shapes, p)[t]).len()
                == shapes[a].len() && forall|m: int|
                0 <= m < shapes[a].len() ==> {
                    let b = shapes[a][m];
                    let q = #[trigger] placements(shapes, p)[t][m];
                    &&& q.x == b.x + p % 5 - 2
                    &&& q.y == b.y + (p % 25) / 5 - 2
                    &&& q.z == b.z + p / 25 - 2
                    &&& q.fill_color == b.fill_color
                    &&& q.edge_color == b.edge_color
                },
    decreases shapes.len(),
{
    let rest = shapes.drop_last();
    let prev = placements(rest, p);
    let s = shapes[a];
    let sh = shifted(s, p);
    let c = coords_of_position(p);
    assert(c == (p % 5, (p % 25) / 5, p / 25));
    if a == shapes.len() - 1 {
        assert(shapes.last() == s);
        assert(all_inside(sh)) by {
            assert forall|m: int| 0 <= m < sh.len() implies inside_cube(#[trigger] sh[m]) by {
                let b = shapes[a][m];
                assert(sh[m] == shift_block(b, p));
            }
        }
        let res = prev.push(sh);
        assert(placements(shapes, p) == res);
        assert(res[prev.len() as int] == sh);
        assert forall|m: int| 0 <= m < s.len() implies {
            let b = s[m];
            let q = #[trigger] res[prev.len() as int][m];
            &&& q.x == b.x + p % 5 - 2
            &&& q.y == b.y + (p % 25) / 5 - 2
            &&& q.z == b.z + p / 25 - 2
            &&& q.fill_color == b.fill_color
            &&& q.edge_color == b.edge_color
        } by {
            let b = shapes[a][m];
            assert(sh[m] == shift_block(b, p));
        }
        assert(res[prev.len() as int].len() == s.len());
    } else {
        assert(rest[a] == s);
        lemma_placements_complete(rest, p, a);
        let t = choose|t: int|
            0 <= t < prev.len() && (#[trigger] prev[t]).len() == rest[a].len() && forall|m: int|
                0 <= m < rest[a].len() ==> {
                    let b = rest[a][m];
                    let q = #[trigger] prev[t][m];
                    &&& q.x == b.x + p % 5 - 2
                    &&& q.y == b.y + (p % 25) / 5 - 2
                    &&& q.z == b.z + p / 25 - 2
                    &&& q.fill_color == b.fill_color
                    &&& q.edge_color == b.edge_color
                };
        let last = shifted(shapes.last(), p);
        if all_inside(last) {
            assert(placements(shapes, p) == prev.push(last));
            assert(prev.push(last)[t] == prev[t]);
        } else {
            assert(placements(shapes, p) == prev);
        }
        assert(placements(shapes, p)[t] == prev[t]);
    }
}

} // verus!
