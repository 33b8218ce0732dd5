use vstd::prelude::*;
use crate::block::{Block, minus_fits, minus_spec, plus_fits, plus_spec, position_fits};
use crate::piece::Piece;
use crate::placement::{
    axis_fits,
    basic_fits,
    candidate_fits,
    centre,
    numbers_index,
    preparable,
    rotate_block,
    rotate_fits,
    rotate_spec,
    turns_fit,
};
use crate::rotations::{all_rotation_matrices, fits_i32, get_rots};

verus! {

fn fits(v: i128) -> (r: bool)
    ensures
        r == fits_i32(v as int),
{
    -2147483648i128 <= v && v <= 2147483647i128
}

proof fn lemma_product_bound(a: int, x: int)
    requires
        -2147483648 <= a <= 2147483647,
        -2147483648 <= x <= 2147483647,
    ensures
        -4611686018427387904 <= a * x <= 4611686018427387904,
{
    assert(-4611686018427387904 <= a * x <= 4611686018427387904) by (nonlinear_arith)
        requires
            -2147483648 <= a <= 2147483647,
            -2147483648 <= x <= 2147483647,
    ;
}

/// Whether `a - b` can be computed in `i32`.
pub fn minus_ok(a: &Block, b: &Block) -> (r: bool)
    ensures
        r == minus_fits(*a, *b),
{
    fits(a.x as i128 - b.x as i128) && fits(a.y as i128 - b.y as i128) && fits(
        a.z as i128 - b.z as i128,
    )
}

/// Whether `a + b` can be computed in `i32`.
pub fn plus_ok(a: &Block, b: &Block) -> (r: bool)
    ensures
        r == plus_fits(*a, *b),
{
    fits(a.x as i128 + b.x as i128) && fits(a.y as i128 + b.y as i128) && fits(
        a.z as i128 + b.z as i128,
    )
}

/// Whether the cell index of `b` can be computed in `i32`.
pub fn position_ok(b: &Block) -> (r: bool)
    ensures
        r == position_fits(*b),
{
    let x = b.x as i128;
    let y = b.y as i128;
    let z = b.z as i128;
    fits(y * 5) && fits(z * 5 * 5) && fits(x + y * 5) && fits(x + y * 5 + z * 5 * 5)
}

fn axis_ok(a: i32, b: i32, c: i32, t: &Block) -> (r: bool)
    ensures
        r == axis_fits(a, b, c, *t),
{
    proof {
        lemma_product_bound(a as int, t.x as int);
        lemma_product_bound(b as int, t.y as int);
        lemma_product_bound(c as int, t.z as int);
    }
    let ax = a as i128 * t.x as i128;
    let by = b as i128 * t.y as i128;
    let cz = c as i128 * t.z as i128;
    fits(ax) && fits(by) && fits(ax + by) && fits(cz) && fits(ax + by + cz)
}

/// Whether turning `t` by `rot` can be computed in `i32`.
pub fn rotate_ok(t: &Block, rot: &Vec<i32>) -> (r: bool)
    ensures
        r == rotate_fits(*t, rot@),
{
    if rot.len() < 9 {
        return false;
    }
    axis_ok(rot[0], rot[3], rot[6], t) && axis_ok(rot[1], rot[4], rot[7], t) && axis_ok(
        rot[2],
        rot[5],
        rot[8],
        t,
    )
}

/// Whether `get_rotations` can turn the piece: every block can be taken
/// relative to the first and turned by every rotation of the cube in `i32`.
pub fn turns_ok(piece: &Piece) -> (r: bool)
    ensures
        r == turns_fit(piece.blocks@),
{
    let mut k: usize = 0;
    while k < 5
        invariant
            k <= 5,
            forall|m: int| 0 <= m < k ==> minus_fits(#[trigger] piece.blocks@[m], piece.blocks@[0]),
        decreases 5 - k,
    {
        let a = piece.blocks[k];
        let b0 = piece.blocks[0];
        if !minus_ok(&a, &b0) {
            assert(!minus_fits(piece.blocks@[k as int], piece.blocks@[0]));
            assert(!turns_fit(piece.blocks@));
            return false;
        }
        k += 1;
    }
    let rots = get_rots();
    let ghost all = all_rotation_matrices();
    assert(all.len() == rots.len());
    let mut j: usize = 0;
    while j < rots.len()
        invariant
            j <= rots.len(),
            all.len() == rots.len(),
            rots.deep_view() == all,
            all == all_rotation_matrices(),
            forall|m: int| 0 <= m < 5 ==> minus_fits(#[trigger] piece.blocks@[m], piece.blocks@[0]),
            forall|a: int, m: int|
                0 <= a < j && 0 <= m < 5 ==> rotate_fits(
                    minus_spec(#[trigger] piece.blocks@[m], piece.blocks@[0]),
                    #[trigger] all_rotation_matrices()[a],
                ),
        decreases rots.len() - j,
    {
        let rot = &rots[j];
        assert(rot@ == all[j as int]) by {
            assert(rots.deep_view()[j as int] == rot.deep_view());
            assert(rot.deep_view() =~= rot@);
        }
        let mut k: usize = 0;
        while k < 5
            invariant
                k <= 5,
                j < rots.len(),
                all.len() == rots.len(),
                rots.deep_view() == all,
                all == all_rotation_matrices(),
                rot@ == all[j as int],
                forall|m: int| 0 <= m < 5 ==> minus_fits(#[trigger] piece.blocks@[m], piece.blocks@[0]),
                forall|a: int, m: int|
                    0 <= a < j && 0 <= m < 5 ==> rotate_fits(
                        minus_spec(#[trigger] piece.blocks@[m], piece.blocks@[0]),
                        #[trigger] all_rotation_matrices()[a],
                    ),
                forall|m: int|
                    0 <= m < k ==> rotate_fits(
                        minus_spec(#[trigger] piece.blocks@[m], piece.blocks@[0]),
                        all_rotation_matrices()[j as int],
                    ),
            decreases 5 - k,
        {
            assert(minus_fits(piece.blocks@[k as int], piece.blocks@[0]));
            let a = piece.blocks[k];
            let b0 = piece.blocks[0];
            let t = a.minus(&b0);
            if !rotate_ok(&t, rot) {
                assert(!rotate_fits(
                    minus_spec(piece.blocks@[k as int], piece.blocks@[0]),
                    all_rotation_matrices()[j as int],
                ));
                assert(!turns_fit(piece.blocks@));
                return false;
            }
            k += 1;
        }
        j += 1;
    }
    true
}

fn candidate_check(piece: &Piece, k: usize, rot: &Vec<i32>) -> (r: bool)
    requires
        k < 5,
    ensures
        r == candidate_fits(piece.blocks@, k as int, rot@),
{
    let centre_block = Block::from(62);
    let mut m: usize = 0;
    while m < 5
        invariant
            m <= 5,
            k < 5,
            centre_block == centre(),
            forall|t: int|
                0 <= t < m ==> {
                    let d = minus_spec(#[trigger] piece.blocks@[t], piece.blocks@[k as int]);
                    &&& minus_fits(piece.blocks@[t], piece.blocks@[k as int])
                    &&& rotate_fits(d, rot@)
                    &&& plus_fits(rotate_spec(d, rot@), centre())
                    &&& position_fits(plus_spec(rotate_spec(d, rot@), centre()))
                },
        decreases 5 - m,
    {
        let ghost b = piece.blocks@[m as int];
        let bm = piece.blocks[m];
        let bk = piece.blocks[k];
        if !minus_ok(&bm, &bk) {
            assert(!candidate_fits(piece.blocks@, k as int, rot@)) by {
                assert(!minus_fits(b, piece.blocks@[k as int]));
            }
            return false;
        }
        let d = bm.minus(&bk);
        if !rotate_ok(&d, rot) {
            assert(!candidate_fits(piece.blocks@, k as int, rot@)) by {
                assert(b == piece.blocks@[m as int]);
            }
            return false;
        }
        let turned = rotate_block(d, rot);
        if !plus_ok(&turned, &centre_block) {
            assert(!candidate_fits(piece.blocks@, k as int, rot@)) by {
                assert(b == piece.blocks@[m as int]);
            }
            return false;
        }
        let moved = turned.plus(&centre_block);
        if !position_ok(&moved) {
            assert(!candidate_fits(piece.blocks@, k as int, rot@)) by {
                assert(b == piece.blocks@[m as int]);
            }
            return false;
        }
        m += 1;
    }
    true
}

/// Whether `get_basic_rots` can turn the piece by the matrices `rots`.
pub fn basic_ok(piece: &Piece, rots: &Vec<Vec<i32>>) -> (r: bool)
    ensures
        r == basic_fits(*piece, rots.deep_view()),
{
    let ghost all = rots.deep_view();
    if rots.len() > 0 && !(0 <= piece.fill_color && piece.fill_color <= 0xFF_FFFF) {
        return false;
    }
    let mut j: usize = 0;
    while j < rots.len()
        invariant
            j <= rots.len(),
            all == rots.deep_view(),
            rots.len() > 0 ==> 0 <= piece.fill_color <= 0xFF_FFFF,
            forall|a: int, k: int|
                0 <= a < j && 0 <= k < 5 ==> #[trigger] candidate_fits(piece.blocks@, k, all[a]),
        decreases rots.len() - j,
    {
        let rot = &rots[j];
        assert(rot@ == all[j as int]) by {
            assert(all[j as int] == rot.deep_view());
            assert(rot.deep_view() =~= rot@);
        }
        let mut k: usize = 0;
        while k < 5
            invariant
                k <= 5,
                j < rots.len(),
                all == rots.deep_view(),
                rot@ == all[j as int],
                forall|a: int, t: int|
                    0 <= a < j && 0 <= t < 5 ==> #[trigger] candidate_fits(piece.blocks@, t, all[a]),
                forall|t: int| 0 <= t < k ==> #[trigger] candidate_fits(piece.blocks@, t, all[j as int]),
            decreases 5 - k,
        {
            if !candidate_check(piece, k, rot) {
                return false;
            }
            k += 1;
        }
        j += 1;
    }
    true
}

/// Whether `build_piece_set` can set out the pieces: their numbers index the
/// list and each can be turned by every rotation of the cube in `i32`.
pub fn is_preparable(pieces: &Vec<Piece>) -> (r: bool)
    ensures
        r == preparable(pieces@),
{
    let mut k: usize = 0;
    while k < pieces.len()
        invariant
            k <= pieces.len(),
            forall|t: int| 0 <= t < k ==> (#[trigger] pieces@[t]).number < pieces.len(),
        decreases pieces.len() - k,
    {
        if pieces[k].number >= pieces.len() {
            assert(!numbers_index(pieces@)) by {
                assert(pieces@[k as int].number >= pieces.len());
            }
            return false;
        }
        k += 1;
    }
    let rots = get_rots();
    let mut k: usize = 0;
    while k < pieces.len()
        invariant
            k <= pieces.len(),
            rots.deep_view() == all_rotation_matrices(),
            numbers_index(pieces@),
            forall|t: int| 0 <= t < k ==> basic_fits(#[trigger] pieces@[t], all_rotation_matrices()),
        decreases pieces.len() - k,
    {
        if !basic_ok(&pieces[k], &rots) {
            return false;
        }
        k += 1;
    }
    true
}

} // verus!
