use vstd::prelude::*;
use vstd::set_lib::{lemma_int_range, lemma_len_subset, set_int_range};
use crate::block::{Block, cell_mask, inside_cube, position_fits, position_of, same_place};
use crate::piece::{Piece, bits_of_blocks, has_bit, lemma_bits_of_blocks, lemma_cell_mask_bits, lemma_or_bit, positions_below};
use crate::placement::{all_inside, distinct_places};

verus! {

/// A placed piece: the cell it is anchored at, the index of the piece, and
/// the index of its rotation at that cell.
pub type Placement = (usize, usize, usize);

/// Why a search step could not go on.
#[derive(Debug, PartialEq, Eq, Structural)]
pub enum SolveError {
    /// Every way of going on from the first cell has been tried.
    Exhausted,
}

/// The number of set bits of `m` below bit `n`.
pub open spec fn count_bits(m: u128, n: nat) -> nat
    decreases n,
{
    if n == 0 {
        0
    } else {
        count_bits(m, (n - 1) as nat) + if has_bit(m, n - 1) {
            1nat
        } else {
            0nat
        }
    }
}

/// A rotation covers exactly five cells of the cube and nothing beyond it.
pub open spec fn rotation_cells_ok(bits: u128) -> bool {
    &&& count_bits(bits, 125) == 5
    &&& forall|j: int| 125 <= j < 128 ==> !has_bit(bits, j)
}

/// The pieces set out for the search: one list per cell of the cube, each
/// with at least the 25 pieces, each rotation covering five cells.
pub open spec fn piece_set_wf(ps: Seq<Vec<Piece>>) -> bool {
    &&& ps.len() >= 125
    &&& forall|i: int| 0 <= i < 125 ==> (#[trigger] ps[i]).len() >= 25
    &&& forall|i: int, p: int, r: int|
        0 <= i < 125 && 0 <= p < 25 && 0 <= r < ps[i]@[p].rotations.len() ==> rotation_cells_ok(
            #[trigger] ps[i]@[p].rotations@[r].bits,
        )
}

/// The cells covered by a placement.
pub open spec fn entry_bits(ps: Seq<Vec<Piece>>, e: Placement) -> u128 {
    ps[e.0 as int]@[e.1 as int].rotations@[e.2 as int].bits
}

/// The placement names a cell of the cube, a piece and one of its rotations there.
pub open spec fn entry_in_range(ps: Seq<Vec<Piece>>, e: Placement) -> bool {
    e.0 < 125 && e.1 < 25 && e.2 < ps[e.0 as int]@[e.1 as int].rotations.len()
}

/// The cells covered by the placements, united in order.
pub open spec fn cube_of(ps: Seq<Vec<Piece>>, s: Seq<Placement>) -> u128
    decreases s.len(),
{
    if s.len() == 0 {
        0u128
    } else {
        cube_of(ps, s.drop_last()) | entry_bits(ps, s.last())
    }
}

/// Some placement uses piece `q`.
pub open spec fn uses_piece(s: Seq<Placement>, q: int) -> bool {
    exists|k: int| 0 <= k < s.len() && (#[trigger] s[k]).1 == q
}

/// A partial packing built the way the search builds it: each placement uses
/// a piece not used before it, is anchored at the first cell the placements
/// before it leave empty, and covers none of the cells they cover.
pub open spec fn valid_stack(ps: Seq<Vec<Piece>>, s: Seq<Placement>) -> bool
    decreases s.len(),
{
    if s.len() == 0 {
        true
    } else {
        let prev = s.drop_last();
        let e = s.last();
        let cube = cube_of(ps, prev);
        &&& valid_stack(ps, prev)
        &&& entry_in_range(ps, e)
        &&& entry_bits(ps, e) & cube == 0
        &&& !uses_piece(prev, e.1 as int)
        &&& forall|j: int| 0 <= j < e.0 ==> has_bit(cube, j)
        &&& !has_bit(cube, e.0 as int)
    }
}

/// Every piece is placed.
pub open spec fn complete(s: Seq<Placement>) -> bool {
    forall|q: int| 0 <= q < 25 ==> uses_piece(s, q)
}

/// Placement `a` comes before `b` among the choices at one cell: by piece,
/// then by rotation.
pub open spec fn entry_before(a: Placement, b: Placement) -> bool {
    a.1 < b.1 || (a.1 == b.1 && a.2 < b.2)
}

/// `e` is the choice `(p, r)` or a later one.
pub open spec fn at_or_after(e: Placement, p: int, r: int) -> bool {
    e.1 > p || (e.1 == p && e.2 >= r)
}

/// `s` comes before `t` in the order in which the depth-first search visits
/// partial packings: `t` extends `s`, or at the first placement where they
/// differ, that of `s` comes first.
pub open spec fn search_before(s: Seq<Placement>, t: Seq<Placement>) -> bool {
    exists|k: int|
        0 <= k <= s.len() && k < t.len() && #[trigger] s.take(k) == t.take(k) && (k == s.len()
            || entry_before(s[k], t[k]))
}

// ---------------------------------------------------------------------------
// Bits

proof fn lemma_bit_disjoint(a: u128, b: u128, j: int)
    requires
        0 <= j < 128,
        a & b == 0,
    ensures
        !(has_bit(a, j) && has_bit(b, j)),
{
    let ju = j as u128;
    assert(!(((a >> ju) & 1u128 == 1u128) && ((b >> ju) & 1u128 == 1u128))) by (bit_vector)
        requires
            ju < 128,
            a & b == 0,
    ;
}

proof fn lemma_bit_test(m: u128, i: int)
    requires
        0 <= i < 128,
    ensures
        (m & (1u128 << (i as u128)) > 0) <==> has_bit(m, i),
        (m & (1u128 << (i as u128)) == 0) <==> !has_bit(m, i),
{
    let iu = i as u128;
    assert((m & (1u128 << iu) > 0) <==> ((m >> iu) & 1u128 == 1u128)) by (bit_vector)
        requires
            iu < 128,
    ;
    assert((m & (1u128 << iu) == 0) <==> !((m >> iu) & 1u128 == 1u128)) by (bit_vector)
        requires
            iu < 128,
    ;
}

proof fn lemma_or_and_zero(a: u128, b: u128, c: u128)
    ensures
        ((a | b) & c == 0) <==> (a & c == 0 && b & c == 0),
        (a & b == 0) <==> (b & a == 0),
{
    assert(((a | b) & c == 0) <==> (a & c == 0 && b & c == 0)) by (bit_vector);
    assert((a & b == 0) <==> (b & a == 0)) by (bit_vector);
}

proof fn lemma_remove_bits(a: u128, b: u128)
    requires
        b & a == 0,
    ensures
        (a | b) & !b == a,
{
    assert((a | b) & !b == a) by (bit_vector)
        requires
            b & a == 0,
    ;
}

proof fn lemma_count_disjoint(a: u128, b: u128, n: nat)
    requires
        a & b == 0,
        n <= 128,
    ensures
        count_bits(a | b, n) == count_bits(a, n) + count_bits(b, n),
    decreases n,
{
    if n > 0 {
        lemma_count_disjoint(a, b, (n - 1) as nat);
        lemma_or_bit(a, b, n - 1);
        lemma_bit_disjoint(a, b, n - 1);
    }
}

proof fn lemma_count_full(m: u128, n: nat)
    requires
        forall|j: int| 0 <= j < n ==> has_bit(m, j),
    ensures
        count_bits(m, n) == n,
    decreases n,
{
    if n > 0 {
        lemma_count_full(m, (n - 1) as nat);
    }
}

/// A block inside the cube has a cell index in `0..125`, computed within `i32`.
proof fn lemma_inside_position(b: Block)
    requires
        inside_cube(b),
    ensures
        position_fits(b),
        0 <= position_of(b) < 125,
{
}

/// Blocks inside the cube at the same cell index sit at the same place.
proof fn lemma_position_injective(a: Block, b: Block)
    requires
        inside_cube(a),
        inside_cube(b),
        position_of(a) == position_of(b),
    ensures
        same_place(a, b),
{
    assert(a.z == b.z) by (nonlinear_arith)
        requires
            0 <= a.x < 5 && 0 <= a.y < 5 && 0 <= a.z < 5,
            0 <= b.x < 5 && 0 <= b.y < 5 && 0 <= b.z < 5,
            a.x + 5 * a.y + 25 * a.z == b.x + 5 * b.y + 25 * b.z,
    ;
    assert(a.y == b.y) by (nonlinear_arith)
        requires
            0 <= a.x < 5 && 0 <= a.y < 5,
            0 <= b.x < 5 && 0 <= b.y < 5,
            a.x + 5 * a.y == b.x + 5 * b.y,
    ;
}

/// Five blocks at distinct places inside the cube cover five cells of it,
/// and no bit above them.
pub(crate) proof fn lemma_count_blocks(s: Seq<Block>)
    requires
        all_inside(s),
        distinct_places(s),
    ensures
        count_bits(bits_of_blocks(s), 125) == s.len(),
        forall|j: int| 125 <= j < 128 ==> !has_bit(bits_of_blocks(s), j),
    decreases s.len(),
{
    if s.len() == 0 {
        lemma_count_zero(125);
        assert forall|j: int| 125 <= j < 128 implies !has_bit(bits_of_blocks(s), j) by {
            lemma_bits_of_blocks(s, j);
        }
    } else {
        let t = s.drop_last();
        let last = s.last();
        assert(all_inside(t)) by {
            assert forall|k: int| 0 <= k < t.len() implies inside_cube(#[trigger] t[k]) by {
                assert(t[k] == s[k]);
            }
        }
        assert(distinct_places(t)) by {
            assert forall|a: int, b: int| 0 <= a < b < t.len() implies !same_place(
                #[trigger] t[a],
                #[trigger] t[b],
            ) by {
                assert(t[a] == s[a] && t[b] == s[b]);
            }
        }
        lemma_count_blocks(t);
        assert(positions_below(t, 128)) by {
            assert forall|k: int| 0 <= k < t.len() implies position_fits(#[trigger] t[k]) && 0
                <= position_of(t[k]) < 128 by {
                lemma_inside_position(t[k]);
            }
        }
        assert(inside_cube(s[s.len() - 1]));
        lemma_inside_position(last);
        let p = position_of(last);
        let bt = bits_of_blocks(t);
        lemma_bits_of_blocks(t, p);
        assert(!has_bit(bt, p)) by {
            if has_bit(bt, p) {
                let k = choose|k: int| 0 <= k < t.len() && position_of(#[trigger] t[k]) == p;
                assert(t[k] == s[k]);
                assert(inside_cube(s[k]));
                lemma_position_injective(s[k], last);
                assert(!same_place(s[k], s[s.len() - 1]));
            }
        }
        lemma_bit_test(bt, p);
        lemma_or_and_zero(bt, cell_mask(p), 0u128);
        assert(cell_mask(p) & bt == 0u128);
        lemma_count_disjoint(cell_mask(p), bt, 125);
        lemma_count_single(p, 125);
        assert forall|j: int| 125 <= j < 128 implies !has_bit(bits_of_blocks(s), j) by {
            lemma_or_bit(cell_mask(p), bt, j);
            lemma_cell_mask_bits(p, j);
        }
    }
}

/// The single bit of cell `p` is counted once among the first `n` cells when `p < n`.
proof fn lemma_count_single(p: int, n: nat)
    requires
        0 <= p < 128,
        n <= 128,
    ensures
        count_bits(cell_mask(p), n) == if p < n {
            1nat
        } else {
            0nat
        },
    decreases n,
{
    if n > 0 {
        lemma_count_single(p, (n - 1) as nat);
        lemma_cell_mask_bits(p, n - 1);
    }
}

// ---------------------------------------------------------------------------
// Stacks

proof fn lemma_stack_cube(ps: Seq<Vec<Piece>>, s: Seq<Placement>)
    requires
        piece_set_wf(ps),
        valid_stack(ps, s),
    ensures
        count_bits(cube_of(ps, s), 125) == 5 * s.len(),
        forall|j: int| 125 <= j < 128 ==> !has_bit(cube_of(ps, s), j),
        forall|k: int| 0 <= k < s.len() ==> entry_in_range(ps, #[trigger] s[k]),
    decreases s.len(),
{
    if s.len() == 0 {
        assert forall|j: int| 125 <= j < 128 implies !has_bit(cube_of(ps, s), j) by {
            let ju = j as u128;
            assert((0u128 >> ju) & 1u128 == 0u128) by (bit_vector);
        }
        lemma_count_zero(125);
    } else {
        let prev = s.drop_last();
        let e = s.last();
        lemma_stack_cube(ps, prev);
        let c = cube_of(ps, prev);
        let b = entry_bits(ps, e);
        assert(rotation_cells_ok(ps[e.0 as int]@[e.1 as int].rotations@[e.2 as int].bits));
        lemma_or_and_zero(c, b, 0);
        lemma_or_and_zero(b, c, 0);
        lemma_count_disjoint(c, b, 125);
        assert forall|j: int| 125 <= j < 128 implies !has_bit(cube_of(ps, s), j) by {
            lemma_or_bit(c, b, j);
        }
        assert forall|k: int| 0 <= k < s.len() implies entry_in_range(ps, #[trigger] s[k]) by {
            if k < prev.len() {
                assert(s[k] == prev[k]);
            }
        }
    }
}

proof fn lemma_count_zero(n: nat)
    requires
        n <= 128,
    ensures
        count_bits(0u128, n) == 0,
    decreases n,
{
    if n > 0 {
        lemma_count_zero((n - 1) as nat);
        let ju = (n - 1) as u128;
        assert((0u128 >> ju) & 1u128 == 0u128) by (bit_vector);
    }
}

/// The pieces that a stack uses.
pub open spec fn piece_numbers(s: Seq<Placement>) -> Set<int> {
    Set::new(|q: int| uses_piece(s, q))
}

proof fn lemma_piece_numbers(ps: Seq<Vec<Piece>>, s: Seq<Placement>)
    requires
        valid_stack(ps, s),
    ensures
        piece_numbers(s).finite(),
        piece_numbers(s).len() == s.len(),
        piece_numbers(s).subset_of(set_int_range(0, 25)),
    decreases s.len(),
{
    if s.len() == 0 {
        assert(piece_numbers(s) =~= Set::<int>::empty());
    } else {
        let prev = s.drop_last();
        let e = s.last();
        lemma_piece_numbers(ps, prev);
        assert forall|q: int| uses_piece(s, q) <==> uses_piece(prev, q) || q == e.1 by {
            if uses_piece(s, q) {
                let k = choose|k: int| 0 <= k < s.len() && (#[trigger] s[k]).1 == q;
                if k < prev.len() {
                    assert(prev[k] == s[k]);
                }
            }
            if uses_piece(prev, q) {
                let k = choose|k: int| 0 <= k < prev.len() && (#[trigger] prev[k]).1 == q;
                assert(s[k] == prev[k]);
            }
            if q == e.1 {
                assert(s[s.len() - 1].1 == q);
            }
        }
        assert(piece_numbers(s) =~= piece_numbers(prev).insert(e.1 as int));
        assert(!piece_numbers(prev).contains(e.1 as int));
    }
}

/// A stack that leaves piece `q` unused holds at most 24 placements.
proof fn lemma_unused_bound(ps: Seq<Vec<Piece>>, s: Seq<Placement>, q: int)
    requires
        valid_stack(ps, s),
        0 <= q < 25,
        !uses_piece(s, q),
    ensures
        s.len() <= 24,
{
    lemma_piece_numbers(ps, s);
    lemma_int_range(0, 25);
    let range = set_int_range(0, 25).remove(q);
    assert(piece_numbers(s).subset_of(range));
    lemma_len_subset(piece_numbers(s), range);
}

proof fn lemma_take_push(s: Seq<Placement>, k: int)
    requires
        0 <= k < s.len(),
    ensures
        s.take(k + 1).drop_last() == s.take(k),
        s.take(k + 1).last() == s[k],
{
    assert(s.take(k + 1).drop_last() =~= s.take(k));
}

// ---------------------------------------------------------------------------
// Search order

proof fn lemma_entry_before_trans(a: Placement, b: Placement, c: Placement)
    requires
        entry_before(a, b),
        entry_before(b, c),
    ensures
        entry_before(a, c),
{
}

/// Pushing a placement moves the search forward.
pub proof fn lemma_push_after(s: Seq<Placement>, e: Placement)
    ensures
        search_before(s, s.push(e)),
{
    let k = s.len() as int;
    assert(s.take(k) =~= s.push(e).take(k));
}

/// The search order is transitive.
pub proof fn lemma_search_before_trans(a: Seq<Placement>, b: Seq<Placement>, c: Seq<Placement>)
    requires
        search_before(a, b),
        search_before(b, c),
    ensures
        search_before(a, c),
{
    let k1 = choose|k: int|
        0 <= k <= a.len() && k < b.len() && #[trigger] a.take(k) == b.take(k) && (k == a.len()
            || entry_before(a[k], b[k]));
    let k2 = choose|k: int|
        0 <= k <= b.len() && k < c.len() && #[trigger] b.take(k) == c.take(k) && (k == b.len()
            || entry_before(b[k], c[k]));
    if k1 < k2 {
        assert(a.take(k1) =~= c.take(k1)) by {
            assert forall|t: int| 0 <= t < k1 implies a.take(k1)[t] == c.take(k1)[t] by {
                assert(a.take(k1)[t] == b.take(k1)[t]);
                assert(b.take(k2)[t] == c.take(k2)[t]);
            }
        }
        if k1 < a.len() {
            assert(b.take(k2)[k1] == c.take(k2)[k1]);
        }
    } else if k2 < k1 {
        assert(a.take(k2) =~= c.take(k2)) by {
            assert forall|t: int| 0 <= t < k2 implies a.take(k2)[t] == c.take(k2)[t] by {
                assert(a.take(k1)[t] == b.take(k1)[t]);
                assert(b.take(k2)[t] == c.take(k2)[t]);
            }
        }
        assert(a.take(k1)[k2] == b.take(k1)[k2]);
    } else {
        assert(a.take(k1) =~= c.take(k1));
        if k1 < a.len() {
            lemma_entry_before_trans(a[k1], b[k1], c[k1]);
        }
    }
}

/// After the choices at the cell of `x` that follow `x`'s are all gone
/// through, the search goes on with a later choice `e` at that cell.
proof fn lemma_pop_after(base: Seq<Placement>, s: Seq<Placement>, x: Placement, y: Placement, e: Placement)
    requires
        search_before(base, s.push(x).push(y)),
        entry_before(x, e),
    ensures
        search_before(base, s.push(e)),
{
    let t = s.push(x).push(y);
    let u = s.push(e);
    let l = s.len() as int;
    let k = choose|k: int|
        0 <= k <= base.len() && k < t.len() && #[trigger] base.take(k) == t.take(k) && (k
            == base.len() || entry_before(base[k], t[k]));
    if k < l {
        assert(base.take(k) =~= u.take(k)) by {
            assert forall|i: int| 0 <= i < k implies base.take(k)[i] == u.take(k)[i] by {
                assert(base.take(k)[i] == t.take(k)[i]);
            }
        }
        if k < base.len() {
            assert(t[k] == u[k]);
        }
    } else if k == l {
        assert(base.take(k) =~= u.take(k)) by {
            assert forall|i: int| 0 <= i < k implies base.take(k)[i] == u.take(k)[i] by {
                assert(base.take(k)[i] == t.take(k)[i]);
            }
        }
        if k < base.len() {
            lemma_entry_before_trans(base[k], x, e);
        }
    } else {
        assert(k == l + 1);
        assert(base.take(l) =~= u.take(l)) by {
            assert forall|i: int| 0 <= i < l implies base.take(l)[i] == u.take(l)[i] by {
                assert(base.take(k)[i] == t.take(k)[i]);
            }
        }
        assert(base.take(k)[l] == t.take(k)[l]);
        assert(base[l] == x);
    }
}

// ---------------------------------------------------------------------------
// Nothing is skipped

/// `t` branches off `s` at an earlier placement, to a later choice.
pub open spec fn after_subtree(s: Seq<Placement>, t: Seq<Placement>) -> bool {
    exists|k: int|
        0 <= k < s.len() && k < t.len() && #[trigger] s.take(k) == t.take(k) && entry_before(
            s[k],
            t[k],
        )
}

/// `t` lies at or after the search's cursor: it extends `s` by a choice at or
/// after `(p, r)`, or it branches off `s` to a later choice.
pub open spec fn beyond_cursor(t: Seq<Placement>, s: Seq<Placement>, p: int, r: int) -> bool {
    ||| (t.len() > s.len() && t.take(s.len() as int) == s && at_or_after(t[s.len() as int], p, r))
    ||| after_subtree(s, t)
}

/// `t` extends `base` by at least one placement.
pub open spec fn extends(base: Seq<Placement>, t: Seq<Placement>) -> bool {
    t.len() > base.len() && t.take(base.len() as int) == base
}

/// Every valid stack after `base`, other than its extensions when `skip`
/// holds, lies at or after the cursor.
pub open spec fn no_skip(
    ps: Seq<Vec<Piece>>,
    base: Seq<Placement>,
    skip: bool,
    s: Seq<Placement>,
    p: int,
    r: int,
) -> bool {
    forall|t: Seq<Placement>|
        #[trigger] valid_stack(ps, t) && search_before(base, t) && !(skip && extends(base, t))
            ==> beyond_cursor(t, s, p, r)
}

/// `i` is the first cell that `cube` leaves empty.
pub open spec fn first_empty(cube: u128, i: int) -> bool {
    &&& forall|j: int| 0 <= j < i ==> has_bit(cube, j)
    &&& !has_bit(cube, i)
}

proof fn lemma_valid_prefix(ps: Seq<Vec<Piece>>, t: Seq<Placement>, n: int)
    requires
        valid_stack(ps, t),
        0 <= n <= t.len(),
    ensures
        valid_stack(ps, t.take(n)),
    decreases t.len() - n,
{
    if n < t.len() {
        lemma_valid_prefix(ps, t, n + 1);
        assert(t.take(n + 1).drop_last() =~= t.take(n));
    } else {
        assert(t.take(n) =~= t);
    }
}

/// A valid stack that extends `s` places its next piece at the first cell
/// that `s` leaves empty.
proof fn lemma_anchor(ps: Seq<Vec<Piece>>, t: Seq<Placement>, s: Seq<Placement>, i: int)
    requires
        valid_stack(ps, t),
        t.len() > s.len(),
        t.take(s.len() as int) == s,
        first_empty(cube_of(ps, s), i),
        0 <= i,
    ensures
        t[s.len() as int].0 == i,
        valid_stack(ps, s.push(t[s.len() as int])),
{
    let l = s.len() as int;
    lemma_valid_prefix(ps, t, l + 1);
    let u = t.take(l + 1);
    assert(u.drop_last() =~= s);
    assert(u =~= s.push(t[l]));
    let a = t[l].0 as int;
    if a < i {
        assert(has_bit(cube_of(ps, s), a));
    }
    if a > i {
        assert(valid_stack(ps, u));
        assert(u.last() == t[l]);
        assert(forall|j: int| 0 <= j < a ==> has_bit(cube_of(ps, u.drop_last()), j));
        assert(has_bit(cube_of(ps, u.drop_last()), i));
    }
}

proof fn lemma_no_skip_start(ps: Seq<Vec<Piece>>, base: Seq<Placement>, skip: bool, p: int)
    requires
        forall|q: int| 0 <= q < p ==> uses_piece(base, q),
    ensures
        no_skip(ps, base, skip, base, p, 0),
{
    assert forall|t: Seq<Placement>| #[trigger]
        valid_stack(ps, t) && search_before(base, t) && !(skip && extends(base, t)) implies beyond_cursor(t, base, p, 0) by {
        let l = base.len() as int;
        let k = choose|k: int|
            0 <= k <= base.len() && k < t.len() && #[trigger] base.take(k) == t.take(k) && (k
                == base.len() || entry_before(base[k], t[k]));
        if k == l {
            assert(base.take(l) =~= base);
            lemma_valid_prefix(ps, t, l + 1);
            let u = t.take(l + 1);
            assert(u.drop_last() =~= base);
            assert(u.last() == t[l]);
            let q = t[l].1 as int;
            if q < p {
                assert(uses_piece(base, q));
            }
        }
    }
}

proof fn lemma_no_skip_collide(
    ps: Seq<Vec<Piece>>,
    base: Seq<Placement>,
    skip: bool,
    s: Seq<Placement>,
    i: int,
    p: int,
    r: int,
)
    requires
        no_skip(ps, base, skip, s, p, r),
        first_empty(cube_of(ps, s), i),
        0 <= i < 125,
        0 <= p < 25,
        0 <= r,
        entry_bits(ps, (i as usize, p as usize, r as usize)) & cube_of(ps, s) != 0,
    ensures
        no_skip(ps, base, skip, s, p, r + 1),
{
    assert forall|t: Seq<Placement>| #[trigger]
        valid_stack(ps, t) && search_before(base, t) && !(skip && extends(base, t)) implies beyond_cursor(t, s, p, r + 1) by {
        assert(beyond_cursor(t, s, p, r));
        if t.len() > s.len() && t.take(s.len() as int) == s && at_or_after(t[s.len() as int], p, r) {
            lemma_anchor(ps, t, s, i);
            let e = t[s.len() as int];
            if e.1 == p && e.2 == r {
                assert(e == (i as usize, p as usize, r as usize));
                assert(s.push(e).drop_last() =~= s);
            }
        }
    }
}

proof fn lemma_no_skip_next_piece(
    ps: Seq<Vec<Piece>>,
    base: Seq<Placement>,
    skip: bool,
    s: Seq<Placement>,
    i: int,
    p: int,
    r: int,
    p2: int,
)
    requires
        no_skip(ps, base, skip, s, p, r),
        first_empty(cube_of(ps, s), i),
        0 <= i < 125,
        0 <= p < p2 <= 25,
        r >= ps[i]@[p].rotations.len(),
        forall|q: int| p < q < p2 ==> uses_piece(s, q),
    ensures
        no_skip(ps, base, skip, s, p2, 0),
{
    assert forall|t: Seq<Placement>| #[trigger]
        valid_stack(ps, t) && search_before(base, t) && !(skip && extends(base, t)) implies beyond_cursor(t, s, p2, 0) by {
        assert(beyond_cursor(t, s, p, r));
        if t.len() > s.len() && t.take(s.len() as int) == s && at_or_after(t[s.len() as int], p, r) {
            lemma_anchor(ps, t, s, i);
            let e = t[s.len() as int];
            let u = s.push(e);
            assert(u.drop_last() =~= s);
            assert(u.last() == e);
            if e.1 < p2 {
                assert(e.1 != p);
                assert(uses_piece(s, e.1 as int));
            }
        }
    }
}

proof fn lemma_no_skip_pop(
    ps: Seq<Vec<Piece>>,
    base: Seq<Placement>,
    skip: bool,
    prefix: Seq<Placement>,
    last: Placement,
    r: int,
)
    requires
        piece_set_wf(ps),
        no_skip(ps, base, skip, prefix.push(last), 25, r),
    ensures
        no_skip(ps, base, skip, prefix, last.1 as int, last.2 + 1),
{
    let s = prefix.push(last);
    let l = prefix.len() as int;
    assert forall|t: Seq<Placement>| #[trigger]
        valid_stack(ps, t) && search_before(base, t) && !(skip && extends(base, t)) implies beyond_cursor(
        t,
        prefix,
        last.1 as int,
        last.2 + 1,
    ) by {
        assert(beyond_cursor(t, s, 25, r));
        lemma_stack_cube(ps, t);
        if t.len() > s.len() && t.take(s.len() as int) == s && at_or_after(t[s.len() as int], 25, r) {
            assert(entry_in_range(ps, t[s.len() as int]));
        } else {
            let k = choose|k: int|
                0 <= k < s.len() && k < t.len() && #[trigger] s.take(k) == t.take(k) && entry_before(
                    s[k],
                    t[k],
                );
            if k < l {
                assert(prefix.take(k) =~= s.take(k));
                assert(prefix[k] == s[k]);
                assert(after_subtree(prefix, t));
            } else {
                assert(s.take(l) =~= prefix);
                assert(t.take(l) == prefix);
                assert(s[l] == last);
            }
        }
    }
}

proof fn lemma_no_skip_found(
    ps: Seq<Vec<Piece>>,
    base: Seq<Placement>,
    skip: bool,
    s: Seq<Placement>,
    e: Placement,
)
    requires
        no_skip(ps, base, skip, s, e.1 as int, e.2 as int),
        first_empty(cube_of(ps, s), e.0 as int),
        0 <= e.0,
    ensures
        forall|t: Seq<Placement>| #[trigger]
            valid_stack(ps, t) && search_before(base, t) && !(skip && extends(base, t)) ==> t == s.push(e) || search_before(
                s.push(e),
                t,
            ),
{
    let f = s.push(e);
    let l = s.len() as int;
    assert forall|t: Seq<Placement>| #[trigger]
        valid_stack(ps, t) && search_before(base, t) && !(skip && extends(base, t)) implies t == f || search_before(f, t) by {
        assert(beyond_cursor(t, s, e.1 as int, e.2 as int));
        if t.len() > s.len() && t.take(l) == s && at_or_after(t[l], e.1 as int, e.2 as int) {
            lemma_anchor(ps, t, s, e.0 as int);
            if t[l].1 == e.1 && t[l].2 == e.2 {
                assert(t[l] == e);
                assert(t.take(l + 1) =~= f);
                if t.len() == l + 1 {
                    assert(t =~= f);
                } else {
                    assert(f.take(l + 1) =~= f);
                    assert(search_before(f, t));
                }
            } else {
                assert(f.take(l) =~= s);
                assert(f[l] == e);
                assert(search_before(f, t));
            }
        } else {
            let k = choose|k: int|
                0 <= k < s.len() && k < t.len() && #[trigger] s.take(k) == t.take(k) && entry_before(
                    s[k],
                    t[k],
                );
            assert(f.take(k) =~= s.take(k));
            assert(f[k] == s[k]);
            assert(search_before(f, t));
        }
    }
}

proof fn lemma_no_skip_empty(ps: Seq<Vec<Piece>>, base: Seq<Placement>, skip: bool, r: int)
    requires
        piece_set_wf(ps),
        no_skip(ps, base, skip, Seq::<Placement>::empty(), 25, r),
    ensures
        forall|t: Seq<Placement>| #[trigger] valid_stack(ps, t) && !(skip && extends(base, t)) ==> !search_before(base, t),
{
    assert forall|t: Seq<Placement>| #[trigger] valid_stack(ps, t) && !(skip && extends(base, t)) implies !search_before(base, t) by {
        if search_before(base, t) {
            assert(beyond_cursor(t, Seq::<Placement>::empty(), 25, r));
            lemma_stack_cube(ps, t);
            assert(entry_in_range(ps, t[0]));
        }
    }
}

/// When the extensions of `base` are left out, every stack that remains lies
/// past the cursor, wherever it stands.
proof fn lemma_no_skip_pruned(ps: Seq<Vec<Piece>>, base: Seq<Placement>, p: int, r: int)
    ensures
        no_skip(ps, base, true, base, p, r),
{
    assert forall|t: Seq<Placement>| #[trigger]
        valid_stack(ps, t) && search_before(base, t) && !(true && extends(base, t)) implies beyond_cursor(
        t,
        base,
        p,
        r,
    ) by {
        let k = choose|k: int|
            0 <= k <= base.len() && k < t.len() && #[trigger] base.take(k) == t.take(k) && (k
                == base.len() || entry_before(base[k], t[k]));
        if k == base.len() {
            assert(base.take(k) =~= base);
        }
    }
}

/// The first cell from `j` on that `cube` leaves empty, or 125.
pub open spec fn free_from(cube: u128, j: int) -> int
    decreases 125 - j,
{
    if j >= 125 {
        125
    } else if !has_bit(cube, j) {
        j
    } else {
        free_from(cube, j + 1)
    }
}

/// The first cell that `cube` leaves empty, or 125 when it covers them all.
pub open spec fn first_free(cube: u128) -> int {
    free_from(cube, 0)
}

/// The flat-piece rule: the first empty cell lies past cell 99 while one of
/// the pieces 0 to 7 is unused.
pub open spec fn flats_pruned(base: Seq<Placement>, i: int) -> bool {
    i > 99 && exists|q: int| 0 <= q < 8 && !uses_piece(base, q)
}

/// The hole rule: some empty cell from `i` on has all its face neighbours
/// covered.
pub open spec fn holes_pruned(cube: u128, holes: Seq<u128>, i: int) -> bool {
    exists|idx: int|
        i <= idx < 125 && !has_bit(cube, idx) && cube & #[trigger] holes[idx] == holes[idx]
}

/// The search gives up the extensions of the packing `base`.
pub open spec fn pruned(
    ps: Seq<Vec<Piece>>,
    holes: Seq<u128>,
    base: Seq<Placement>,
    check_flats: bool,
    check_holes: bool,
) -> bool {
    let cube = cube_of(ps, base);
    let i = first_free(cube);
    (check_flats && flats_pruned(base, i)) || (check_holes && holes_pruned(cube, holes, i))
}

proof fn lemma_free_from_skip(cube: u128, a: int, b: int)
    requires
        0 <= a <= b <= 125,
        forall|j: int| a <= j < b ==> has_bit(cube, j),
    ensures
        free_from(cube, a) == free_from(cube, b),
    decreases b - a,
{
    if a < b {
        lemma_free_from_skip(cube, a + 1, b);
    }
}

// ---------------------------------------------------------------------------
// The search

/// `t` is where a search step from `s` goes: the first valid packing after
/// `s` in the search order, leaving out the extensions of `s` when the
/// pruning rules give `s` up.
pub open spec fn is_next(
    ps: Seq<Vec<Piece>>,
    holes: Seq<u128>,
    s: Seq<Placement>,
    t: Seq<Placement>,
    check_flats: bool,
    check_holes: bool,
) -> bool {
    let skip = pruned(ps, holes, s, check_flats, check_holes);
    &&& valid_stack(ps, t)
    &&& search_before(s, t)
    &&& !(skip && extends(s, t))
    &&& forall|u: Seq<Placement>| #[trigger]
        valid_stack(ps, u) && search_before(s, u) && !(skip && extends(s, u)) ==> u == t
            || search_before(t, u)
}

/// A search step from `s` has somewhere to go.
pub open spec fn has_next(
    ps: Seq<Vec<Piece>>,
    holes: Seq<u128>,
    s: Seq<Placement>,
    check_flats: bool,
    check_holes: bool,
) -> bool {
    exists|t: Seq<Placement>| is_next(ps, holes, s, t, check_flats, check_holes)
}

/// Where a search step from `s` goes, when it has somewhere to go.
pub open spec fn next_packing(
    ps: Seq<Vec<Piece>>,
    holes: Seq<u128>,
    s: Seq<Placement>,
    check_flats: bool,
    check_holes: bool,
) -> Seq<Placement> {
    choose|t: Seq<Placement>| is_next(ps, holes, s, t, check_flats, check_holes)
}

/// The outcome of `n` search steps from `s` and the packing they end at: they
/// stop as soon as every piece is placed, and fail when a step has nowhere to go.
pub open spec fn search_run(
    ps: Seq<Vec<Piece>>,
    holes: Seq<u128>,
    s: Seq<Placement>,
    n: int,
    check_flats: bool,
    check_holes: bool,
) -> (Result<bool, SolveError>, Seq<Placement>)
    decreases n,
{
    if n <= 0 {
        (Ok(false), s)
    } else if complete(s) {
        (Ok(true), s)
    } else if has_next(ps, holes, s, check_flats, check_holes) {
        search_run(
            ps,
            holes,
            next_packing(ps, holes, s, check_flats, check_holes),
            n - 1,
            check_flats,
            check_holes,
        )
    } else {
        (Err(SolveError::Exhausted), Seq::empty())
    }
}

/// No packing comes before itself in the search order.
pub proof fn lemma_search_before_irreflexive(s: Seq<Placement>)
    ensures
        !search_before(s, s),
{
}

/// A search step has at most one place to go.
pub proof fn lemma_next_unique(
    ps: Seq<Vec<Piece>>,
    holes: Seq<u128>,
    s: Seq<Placement>,
    t1: Seq<Placement>,
    t2: Seq<Placement>,
    check_flats: bool,
    check_holes: bool,
)
    requires
        is_next(ps, holes, s, t1, check_flats, check_holes),
        is_next(ps, holes, s, t2, check_flats, check_holes),
    ensures
        t1 == t2,
{
    assert(t2 == t1 || search_before(t1, t2));
    assert(t1 == t2 || search_before(t2, t1));
    if t1 != t2 {
        lemma_search_before_trans(t1, t2, t1);
        lemma_search_before_irreflexive(t1);
    }
}

/// One step of the depth-first search from the packing `solution`.  If every
/// piece is placed the packing is left as it is and the step reports it.
/// Otherwise, from the first cell that the packing leaves empty (looking from
/// the anchor of its last placement on), the step tries the unused pieces in
/// order and each one's rotations at that cell in order, and places the first
/// that covers no covered cell.  Where no choice fits it takes back the last
/// placement and tries the choices that follow it.  A pruning rule, when it
/// holds of the packing at the start, makes the step take back its last
/// placement at once: with `check_flats`, the first empty cell lies past cell
/// 99 while one of the pieces 0 to 7 is unused; with `check_holes`, some empty
/// cell from there on has all its face neighbours covered.
///
/// So the step moves to the next valid packing in the search order, leaving
/// out the extensions of the packing when it was pruned, and fails when there
/// is none.
pub fn search_step(
    piece_set: &Vec<Vec<Piece>>,
    holes: &Vec<u128>,
    solution: &mut Vec<Placement>,
    check_flats: bool,
    check_holes: bool,
) -> (result: Result<bool, SolveError>)
    requires
        piece_set_wf(piece_set@),
        check_holes ==> holes.len() >= 125,
        valid_stack(piece_set@, old(solution)@),
    ensures
        result is Ok ==> valid_stack(piece_set@, final(solution)@),
        result == Ok::<bool, SolveError>(true) <==> complete(old(solution)@),
        result == Ok::<bool, SolveError>(true) ==> final(solution)@ == old(solution)@,
        result == Ok::<bool, SolveError>(false) ==> search_before(old(solution)@, final(solution)@),
        result == Ok::<bool, SolveError>(false) ==> !(pruned(
            piece_set@,
            holes@,
            old(solution)@,
            check_flats,
            check_holes,
        ) && extends(old(solution)@, final(solution)@)),
        result == Ok::<bool, SolveError>(false) ==> forall|t: Seq<Placement>| #[trigger]
            valid_stack(piece_set@, t) && search_before(old(solution)@, t) && !(pruned(
                piece_set@,
                holes@,
                old(solution)@,
                check_flats,
                check_holes,
            ) && extends(old(solution)@, t)) ==> t == final(solution)@ || search_before(
                final(solution)@,
                t,
            ),
        result == Ok::<bool, SolveError>(false) ==> is_next(
            piece_set@,
            holes@,
            old(solution)@,
            final(solution)@,
            check_flats,
            check_holes,
        ),
        result is Err ==> !has_next(piece_set@, holes@, old(solution)@, check_flats, check_holes),
        result is Err ==> final(solution)@.len() == 0,
        result is Err ==> forall|t: Seq<Placement>| #[trigger]
            valid_stack(piece_set@, t) && !(pruned(
                piece_set@,
                holes@,
                old(solution)@,
                check_flats,
                check_holes,
            ) && extends(old(solution)@, t)) ==> !search_before(old(solution)@, t),
{
    let ghost ps = piece_set@;
    let ghost base = solution@;
    let ghost skip = pruned(ps, holes@, base, check_flats, check_holes);
    proof {
        lemma_stack_cube(ps, base);
    }
    let mut cube: u128 = 0;
    let mut used: Vec<bool> = Vec::new();
    let mut q: usize = 0;
    while q < 25
        invariant
            q <= 25,
            used.len() == q,
            forall|t: int| 0 <= t < q ==> !(#[trigger] used@[t]),
        decreases 25 - q,
    {
        used.push(false);
        q += 1;
    }
    let mut k: usize = 0;
    while k < solution.len()
        invariant
            k <= solution.len(),
            solution@ == base,
            piece_set@ == ps,
            piece_set_wf(ps),
            forall|t: int| 0 <= t < base.len() ==> entry_in_range(ps, #[trigger] base[t]),
            used.len() == 25,
            cube == cube_of(ps, base.take(k as int)),
            forall|t: int| 0 <= t < 25 ==> (#[trigger] used@[t] <==> uses_piece(base.take(k as int), t)),
        decreases solution.len() - k,
    {
        let (ei, ep, er) = solution[k];
        assert(entry_in_range(ps, base[k as int]));
        let bits = piece_set[ei][ep].rotations[er].bits;
        proof {
            lemma_take_push(base, k as int);
        }
        cube = cube | bits;
        used.set(ep, true);
        proof {
            let before = base.take(k as int);
            let after = base.take(k + 1);
            assert forall|t: int| 0 <= t < 25 implies (#[trigger] used@[t] <==> uses_piece(after, t)) by {
                if uses_piece(after, t) {
                    let w = choose|w: int| 0 <= w < after.len() && (#[trigger] after[w]).1 == t;
                    if w < k {
                        assert(before[w] == after[w]);
                    }
                }
                if uses_piece(before, t) {
                    let w = choose|w: int| 0 <= w < before.len() && (#[trigger] before[w]).1 == t;
                    assert(after[w] == before[w]);
                }
                if t == ep {
                    assert(after[k as int].1 == t);
                }
            }
        }
        k += 1;
    }
    assert(base.take(base.len() as int) =~= base);
    let mut i: usize = if solution.len() > 0 {
        solution[solution.len() - 1].0
    } else {
        0
    };
    proof {
        if base.len() > 0 {
            let e = base.last();
            let prev = base.drop_last();
            assert(forall|j: int| 0 <= j < e.0 ==> has_bit(cube_of(ps, prev), j));
            assert forall|j: int| 0 <= j < i implies has_bit(cube, j) by {
                lemma_or_bit(cube_of(ps, prev), entry_bits(ps, e), j);
            }
        }
        lemma_free_from_skip(cube, 0, i as int);
        lemma_bit_test(cube, i as int);
    }
    while cube & (1u128 << i) > 0
        invariant
            i <= 125,
            cube == cube_of(ps, base),
            forall|j: int| 125 <= j < 128 ==> !has_bit(cube, j),
            forall|j: int| 0 <= j < i ==> has_bit(cube, j),
            free_from(cube, i as int) == first_free(cube),
        decreases 125 - i,
    {
        proof {
            lemma_bit_test(cube, i as int);
        }
        i += 1;
        proof {
            lemma_bit_test(cube, i as int);
        }
    }
    proof {
        lemma_bit_test(cube, i as int);
    }
    assert(i == first_free(cube));
    let mut p: usize = 0;
    while p < 25 && used[p]
        invariant
            p <= 25,
            used.len() == 25,
            forall|t: int| 0 <= t < p ==> #[trigger] used@[t],
        decreases 25 - p,
    {
        p += 1;
    }
    let mut step_back: bool = false;
    if check_flats && i > 99 {
        let mut f: usize = 0;
        while f < 8 && used[f]
            invariant
                f <= 8,
                used.len() == 25,
                forall|t: int| 0 <= t < f ==> #[trigger] used@[t],
            decreases 8 - f,
        {
            f += 1;
        }
        if f < 8 {
            step_back = true;
            assert(flats_pruned(base, i as int)) by {
                assert(!uses_piece(base, f as int));
            }
        } else {
            assert(!flats_pruned(base, i as int)) by {
                assert forall|t: int| 0 <= t < 8 implies uses_piece(base, t) by {
                    assert(used@[t]);
                }
            }
        }
    }
    assert(step_back == (check_flats && flats_pruned(base, i as int)));
    if check_holes {
        let ghost flats = step_back;
        let mut found: bool = false;
        let mut index: usize = i;
        while index < 125
            invariant
                i <= index <= 125,
                holes.len() >= 125,
                found == exists|idx: int|
                    i <= idx < index && !has_bit(cube, idx) && cube & #[trigger] holes@[idx]
                        == holes@[idx],
            decreases 125 - index,
        {
            proof {
                lemma_bit_test(cube, index as int);
            }
            if cube & (1u128 << index) == 0 {
                if cube & holes[index] == holes[index] {
                    found = true;
                }
            }
            proof {
                if !found {
                    assert forall|idx: int|
                        i <= idx < index + 1 implies !(!has_bit(cube, idx) && cube
                        & #[trigger] holes@[idx] == holes@[idx]) by {}
                }
            }
            index += 1;
        }
        if found {
            step_back = true;
        }
        assert(found == holes_pruned(cube, holes@, i as int));
        assert(step_back == (flats || found));
    }
    assert(step_back == skip);
    if p == 25 {
        assert(complete(base)) by {
            assert forall|t: int| 0 <= t < 25 implies uses_piece(base, t) by {
                assert(used@[t]);
            }
        }
        return Ok(true);
    }
    assert(!complete(base)) by {
        assert(!uses_piece(base, p as int));
    }
    proof {
        lemma_unused_bound(ps, base, p as int);
        if i == 125 {
            lemma_count_full(cube, 125);
        }
    }
    assert(i < 125);
    let mut r: usize = 0;
    proof {
        assert forall|e: Placement| at_or_after(e, p as int, r as int) implies search_before(
            base,
            #[trigger] solution@.push(e),
        ) by {
            lemma_push_after(base, e);
        }
        if skip {
            lemma_no_skip_pruned(ps, base, p as int, r as int);
        } else {
            assert forall|t: int| 0 <= t < p implies uses_piece(base, t) by {
                assert(used@[t]);
            }
            lemma_no_skip_start(ps, base, skip, p as int);
        }
    }
    loop
        invariant
            piece_set@ == ps,
            piece_set_wf(ps),
            valid_stack(ps, solution@),
            used.len() == 25,
            forall|t: int| 0 <= t < 25 ==> (#[trigger] used@[t] <==> uses_piece(solution@, t)),
            cube == cube_of(ps, solution@),
            i < 125,
            p < 25,
            !used@[p as int],
            forall|j: int| 0 <= j < i ==> has_bit(cube, j),
            !has_bit(cube, i as int),
            r <= ps[i as int]@[p as int].rotations.len(),
            !complete(base),
            base == old(solution)@,
            skip == pruned(ps, holes@, base, check_flats, check_holes),
            step_back ==> solution@ == base && skip,
            skip && !step_back ==> solution@.len() < base.len() && base.take(solution@.len() as int)
                == solution@ && entry_before(base[solution@.len() as int], (0usize, p, r)),
            no_skip(ps, base, skip, solution@, p as int, r as int),
            forall|e: Placement| at_or_after(e, p as int, r as int) ==> search_before(
                base,
                #[trigger] solution@.push(e),
            ),
        decreases solution@.len(), 25 - p, ps[i as int]@[p as int].rotations.len() - r,
    {
        if step_back || piece_set[i][p].rotations.len() == r {
            let ghost old_r = r;
            r = 0;
            let ghost old_p = p;
            p += 1;
            while p < 25 && used[p]
                invariant
                    old_p < p <= 25,
                    used.len() == 25,
                    forall|q: int| old_p < q < p ==> #[trigger] used@[q],
                decreases 25 - p,
            {
                p += 1;
            }
            proof {
                if !step_back {
                    assert forall|q: int| old_p < q < p implies uses_piece(solution@, q) by {
                        assert(used@[q]);
                    }
                    lemma_no_skip_next_piece(
                        ps,
                        base,
                        skip,
                        solution@,
                        i as int,
                        old_p as int,
                        old_r as int,
                        p as int,
                    );
                } else {
                    lemma_no_skip_pruned(ps, base, 25, 0);
                }
            }
            if step_back || p == 25 {
                let ghost s = solution@;
                let ghost cursor: Placement = (0usize, old_p, old_r);
                proof {
                    assert(at_or_after(cursor, old_p as int, old_r as int));
                    assert(search_before(base, s.push(cursor)));
                    assert(no_skip(ps, base, skip, s, 25, 0));
                }
                match solution.pop() {
                    None => {
                        proof {
                            assert(s =~= Seq::<Placement>::empty());
                            lemma_no_skip_empty(ps, base, skip, 0);
                        }
                        return Err(SolveError::Exhausted);
                    },
                    Some(last) => {
                        let (i2, p2, r2) = last;
                        let ghost prefix = solution@;
                        proof {
                            assert(s == prefix.push(last));
                            assert(prefix == s.drop_last());
                            assert(last == s.last());
                            lemma_stack_cube(ps, s);
                        }
                        let bits = piece_set[i2][p2].rotations[r2].bits;
                        proof {
                            lemma_or_and_zero(bits, cube_of(ps, prefix), 0);
                            lemma_remove_bits(cube_of(ps, prefix), bits);
                        }
                        let ghost back = step_back;
                        i = i2;
                        p = p2;
                        used.set(p, false);
                        cube = cube & !bits;
                        r = r2 + 1;
                        step_back = false;
                        proof {
                            assert forall|t: int| 0 <= t < 25 implies (#[trigger] used@[t]
                                <==> uses_piece(prefix, t)) by {
                                if uses_piece(s, t) {
                                    let w = choose|w: int| 0 <= w < s.len() && (#[trigger] s[w]).1 == t;
                                    if w < prefix.len() {
                                        assert(prefix[w] == s[w]);
                                    }
                                }
                                if uses_piece(prefix, t) {
                                    let w = choose|w: int|
                                        0 <= w < prefix.len() && (#[trigger] prefix[w]).1 == t;
                                    assert(s[w] == prefix[w]);
                                }
                                if t == p2 {
                                    assert(s[s.len() - 1].1 == t);
                                }
                            }
                            assert forall|e: Placement| at_or_after(e, p as int, r as int) implies search_before(
                                base,
                                #[trigger] prefix.push(e),
                            ) by {
                                lemma_pop_after(base, prefix, last, cursor, e);
                            }
                            lemma_no_skip_pop(ps, base, skip, prefix, last, 0);
                            if skip {
                                let l = prefix.len() as int;
                                if back {
                                    assert(base.take(l) =~= prefix);
                                } else {
                                    assert(base.take(l) =~= prefix) by {
                                        assert forall|t: int| 0 <= t < l implies base.take(l)[t]
                                            == prefix[t] by {
                                            assert(base.take(s.len() as int)[t] == s[t]);
                                        }
                                    }
                                    assert(base.take(s.len() as int)[l] == s[l]);
                                }
                            }
                        }
                        continue;
                    },
                }
            }
            continue;
        }
        let bits: u128 = piece_set[i][p].rotations[r].bits;
        if cube & bits == 0 {
            let e: Placement = (i, p, r);
            proof {
                let s = solution@;
                assert(at_or_after(e, p as int, r as int));
                lemma_or_and_zero(cube, bits, 0);
                lemma_or_and_zero(bits, cube, 0);
                assert(!uses_piece(s, p as int));
                assert(s.push(e).drop_last() == s);
                lemma_no_skip_found(ps, base, skip, s, e);
                if skip {
                    let l = s.len() as int;
                    assert(s.push(e)[l] == e);
                    if extends(base, s.push(e)) {
                        assert(s.push(e).take(base.len() as int)[l] == base[l]);
                    }
                }
            }
            solution.push(e);
            return Ok(false);
        }
        proof {
            lemma_or_and_zero(cube, bits, 0);
            lemma_no_skip_collide(ps, base, skip, solution@, i as int, p as int, r as int);
        }
        r += 1;
    }
}

/// Up to `steps` steps of the depth-first search for a packing of the 25
/// pieces; see `search_step`.  Gives `Ok(true)` as soon as a step finds every
/// piece placed, `Ok(false)` once `steps` steps have moved the search forward,
/// and `Err` when the search has run out of choices at the first cell.
pub fn solve_step(
    piece_set: &Vec<Vec<Piece>>,
    holes: &Vec<u128>,
    solution: &mut Vec<Placement>,
    steps: i32,
    check_flats: bool,
    check_holes: bool,
) -> (result: Result<bool, SolveError>)
    requires
        piece_set_wf(piece_set@),
        check_holes ==> holes.len() >= 125,
        valid_stack(piece_set@, old(solution)@),
    ensures
        (result, final(solution)@) == search_run(
            piece_set@,
            holes@,
            old(solution)@,
            steps as int,
            check_flats,
            check_holes,
        ),
        result is Ok ==> valid_stack(piece_set@, final(solution)@),
        result == Ok::<bool, SolveError>(true) ==> complete(final(solution)@),
        result == Ok::<bool, SolveError>(true) ==> final(solution)@ == old(solution)@ || search_before(
            old(solution)@,
            final(solution)@,
        ),
        result == Ok::<bool, SolveError>(false) ==> steps <= 0 ==> final(solution)@ == old(solution)@,
        result == Ok::<bool, SolveError>(false) ==> steps > 0 ==> search_before(
            old(solution)@,
            final(solution)@,
        ) && !complete(old(solution)@),
        result is Err ==> final(solution)@.len() == 0,
        !check_flats && !check_holes && result is Ok ==> forall|t: Seq<Placement>| #[trigger]
            valid_stack(piece_set@, t) && complete(t) && search_before(old(solution)@, t) ==> t
                == final(solution)@ || search_before(final(solution)@, t),
        !check_flats && !check_holes && result is Err ==> forall|t: Seq<Placement>| #[trigger]
            valid_stack(piece_set@, t) && complete(t) ==> !search_before(old(solution)@, t),
{
    let ghost start = solution@;
    let ghost unpruned = !check_flats && !check_holes;
    assert(start == old(solution)@);
    let mut step: i32 = 0;
    assert forall|t: Seq<Placement>| #[trigger]
        valid_stack(piece_set@, t) && complete(t) && search_before(start, t) implies t == solution@
        || search_before(solution@, t) by {}
    while step < steps
        invariant
            0 <= step,
            step <= (if steps > 0 { steps } else { 0i32 }),
            piece_set_wf(piece_set@),
            check_holes ==> holes.len() >= 125,
            valid_stack(piece_set@, solution@),
            step == 0 ==> solution@ == start,
            start == old(solution)@,
            unpruned == (!check_flats && !check_holes),
            unpruned ==> forall|t: Seq<Placement>| #[trigger]
                valid_stack(piece_set@, t) && complete(t) && search_before(start, t) ==> t
                    == solution@ || search_before(solution@, t),
            step > 0 ==> search_before(start, solution@) && !complete(start),
            search_run(piece_set@, holes@, start, steps as int, check_flats, check_holes)
                == search_run(
                piece_set@,
                holes@,
                solution@,
                steps - step,
                check_flats,
                check_holes,
            ),
        decreases steps - step,
    {
        let ghost before = solution@;
        let result = search_step(piece_set, holes, solution, check_flats, check_holes);
        match result {
            Ok(true) => {
                return Ok(true);
            },
            Ok(false) => {
                proof {
                    let next = next_packing(piece_set@, holes@, before, check_flats, check_holes);
                    assert(has_next(piece_set@, holes@, before, check_flats, check_holes));
                    lemma_next_unique(
                        piece_set@,
                        holes@,
                        before,
                        next,
                        solution@,
                        check_flats,
                        check_holes,
                    );
                    if step > 0 {
                        lemma_search_before_trans(start, before, solution@);
                    }
                    if unpruned {
                        assert forall|t: Seq<Placement>| #[trigger]
                            valid_stack(piece_set@, t) && complete(t) && search_before(start, t)
                            implies t == solution@ || search_before(solution@, t) by {
                            assert(t == before || search_before(before, t));
                        }
                    }
                }
            },
            Err(e) => {
                proof {
                    assert(solution@ =~= Seq::<Placement>::empty());
                    if unpruned {
                        assert forall|t: Seq<Placement>| #[trigger]
                            valid_stack(piece_set@, t) && complete(t) implies !search_before(start, t) by {
                            if search_before(start, t) {
                                assert(t == before || search_before(before, t));
                            }
                        }
                    }
                }
                return Err(e);
            },
        }
        step += 1;
    }
    Ok(false)
}

// ---------------------------------------------------------------------------
// Checking a search state

fn count_below(m: u128, n: u32) -> (c: u32)
    requires
        n <= 128,
    ensures
        c == count_bits(m, n as nat),
{
    let mut c: u32 = 0;
    let mut j: u32 = 0;
    while j < n
        invariant
            j <= n <= 128,
            c == count_bits(m, j as nat),
            c <= j,
        decreases n - j,
    {
        if (m >> (j as u128)) & 1u128 == 1u128 {
            c += 1;
        }
        j += 1;
    }
    c
}

fn rotation_cells_check(bits: u128) -> (r: bool)
    ensures
        r == rotation_cells_ok(bits),
{
    if count_below(bits, 125) != 5 {
        return false;
    }
    let mut j: u32 = 125;
    while j < 128
        invariant
            125 <= j <= 128,
            forall|t: int| 125 <= t < j ==> !has_bit(bits, t),
        decreases 128 - j,
    {
        if (bits >> (j as u128)) & 1u128 == 1u128 {
            assert(has_bit(bits, j as int));
            return false;
        }
        j += 1;
    }
    true
}

/// Whether the pieces are set out as the search needs them: a list for each
/// cell of the cube, each with at least 25 pieces, each rotation of which
/// covers exactly five cells of the cube.
pub fn piece_set_ok(piece_set: &Vec<Vec<Piece>>) -> (r: bool)
    ensures
        r == piece_set_wf(piece_set@),
{
    let ghost ps = piece_set@;
    if piece_set.len() < 125 {
        return false;
    }
    let mut i: usize = 0;
    while i < 125
        invariant
            i <= 125,
            ps == piece_set@,
            ps.len() >= 125,
            forall|a: int| 0 <= a < i ==> (#[trigger] ps[a]).len() >= 25,
            forall|a: int, p: int, r: int|
                0 <= a < i && 0 <= p < 25 && 0 <= r < ps[a]@[p].rotations.len() ==> rotation_cells_ok(
                    #[trigger] ps[a]@[p].rotations@[r].bits,
                ),
        decreases 125 - i,
    {
        let row = &piece_set[i];
        if row.len() < 25 {
            assert(!piece_set_wf(ps)) by {
                assert(ps[i as int].len() < 25);
            }
            return false;
        }
        let mut p: usize = 0;
        while p < 25
            invariant
                p <= 25,
                i < 125,
                ps == piece_set@,
                *row == ps[i as int],
                row.len() >= 25,
                forall|a: int, q: int, r: int|
                    0 <= a < i && 0 <= q < 25 && 0 <= r < ps[a]@[q].rotations.len() ==> rotation_cells_ok(
                        #[trigger] ps[a]@[q].rotations@[r].bits,
                    ),
                forall|q: int, r: int|
                    0 <= q < p && 0 <= r < ps[i as int]@[q].rotations.len() ==> rotation_cells_ok(
                        #[trigger] ps[i as int]@[q].rotations@[r].bits,
                    ),
            decreases 25 - p,
        {
            let piece = &row[p];
            let mut r: usize = 0;
            while r < piece.rotations.len()
                invariant
                    r <= piece.rotations.len(),
                    p < 25,
                    i < 125,
                    ps == piece_set@,
                    *piece == ps[i as int]@[p as int],
                    forall|t: int| 0 <= t < r ==> rotation_cells_ok(
                        #[trigger] ps[i as int]@[p as int].rotations@[t].bits,
                    ),
                decreases piece.rotations.len() - r,
            {
                if !rotation_cells_check(piece.rotations[r].bits) {
                    assert(!piece_set_wf(ps)) by {
                        assert(!rotation_cells_ok(ps[i as int]@[p as int].rotations@[r as int].bits));
                    }
                    return false;
                }
                r += 1;
            }
            p += 1;
        }
        i += 1;
    }
    true
}

/// Whether `solution` is a partial packing built the way the search builds
/// it, for a piece set for which `piece_set_ok` holds.
pub fn stack_ok(piece_set: &Vec<Vec<Piece>>, solution: &Vec<Placement>) -> (r: bool)
    requires
        piece_set_wf(piece_set@),
    ensures
        r == valid_stack(piece_set@, solution@),
{
    let ghost ps = piece_set@;
    let ghost s = solution@;
    let mut cube: u128 = 0;
    let mut used: Vec<bool> = Vec::new();
    let mut q: usize = 0;
    while q < 25
        invariant
            q <= 25,
            used.len() == q,
            forall|t: int| 0 <= t < q ==> !(#[trigger] used@[t]),
        decreases 25 - q,
    {
        used.push(false);
        q += 1;
    }
    assert(s.take(0) =~= Seq::<Placement>::empty());
    let mut k: usize = 0;
    while k < solution.len()
        invariant
            k <= solution.len(),
            s == solution@,
            ps == piece_set@,
            piece_set_wf(ps),
            used.len() == 25,
            valid_stack(ps, s.take(k as int)),
            cube == cube_of(ps, s.take(k as int)),
            forall|t: int| 0 <= t < 25 ==> (#[trigger] used@[t] <==> uses_piece(s.take(k as int), t)),
        decreases solution.len() - k,
    {
        let (ei, ep, er) = solution[k];
        let ghost e = s[k as int];
        let ghost prev = s.take(k as int);
        proof {
            lemma_take_push(s, k as int);
        }
        let ghost next = s.take(k + 1);
        if ei >= 125 || ep >= 25 || er >= piece_set[ei][ep].rotations.len() {
            proof {
                if valid_stack(ps, s) {
                    lemma_valid_prefix(ps, s, k + 1);
                }
            }
            return false;
        }
        let bits = piece_set[ei][ep].rotations[er].bits;
        if bits & cube != 0 || used[ep] {
            proof {
                if valid_stack(ps, s) {
                    lemma_valid_prefix(ps, s, k + 1);
                }
            }
            return false;
        }
        let mut j: usize = 0;
        while j < ei && cube & (1u128 << (j as u128)) > 0
            invariant
                j <= ei < 125,
                forall|t: int| 0 <= t < j ==> has_bit(cube, t),
            decreases ei - j,
        {
            proof {
                lemma_bit_test(cube, j as int);
            }
            j += 1;
        }
        proof {
            lemma_bit_test(cube, j as int);
            lemma_bit_test(cube, ei as int);
        }
        if j < ei || cube & (1u128 << (ei as u128)) > 0 {
            proof {
                if valid_stack(ps, s) {
                    lemma_valid_prefix(ps, s, k + 1);
                    assert(!has_bit(cube, j as int));
                }
            }
            return false;
        }
        cube = cube | bits;
        used.set(ep, true);
        proof {
            assert(valid_stack(ps, next));
            assert forall|t: int| 0 <= t < 25 implies (#[trigger] used@[t] <==> uses_piece(next, t)) by {
                if uses_piece(next, t) {
                    let w = choose|w: int| 0 <= w < next.len() && (#[trigger] next[w]).1 == t;
                    if w < k {
                        assert(prev[w] == next[w]);
                    }
                }
                if uses_piece(prev, t) {
                    let w = choose|w: int| 0 <= w < prev.len() && (#[trigger] prev[w]).1 == t;
                    assert(next[w] == prev[w]);
                }
                if t == ep {
                    assert(next[k as int].1 == t);
                }
            }
        }
        k += 1;
    }
    assert(s.take(s.len() as int) =~= s);
    true
}

/// Whether the search can be run on this state: the piece set is set out as
/// it needs, there is a neighbour mask for every cell where holes are looked
/// for, and the packing is one the search builds.
pub fn search_state_ok(
    piece_set: &Vec<Vec<Piece>>,
    holes: &Vec<u128>,
    solution: &Vec<Placement>,
    check_holes: bool,
) -> (r: bool)
    ensures
        r == (piece_set_wf(piece_set@) && (check_holes ==> holes.len() >= 125) && valid_stack(
            piece_set@,
            solution@,
        )),
{
    piece_set_ok(piece_set) && (!check_holes || holes.len() >= 125) && stack_ok(piece_set, solution)
}

} // verus!
