use vstd::prelude::*;

verus! {

/// `v` lies in the range of `i32`.
pub open spec fn fits_i32(v: int) -> bool {
    i32::MIN <= v <= i32::MAX
}

pub open spec fn abs_int(v: int) -> int {
    if v < 0 {
        -v
    } else {
        v
    }
}

/// A 3 x 3 matrix is stored column after column: entry `(col, row)` sits at
/// index `col * 3 + row`.  The sum of the absolute values of row `row`.
pub open spec fn row_abs_sum(m: Seq<i32>, row: int) -> int {
    abs_int(m[row] as int) + abs_int(m[3 + row] as int) + abs_int(m[6 + row] as int)
}

/// The sum of the absolute values of column `col`.
pub open spec fn col_abs_sum(m: Seq<i32>, col: int) -> int {
    abs_int(m[col * 3] as int) + abs_int(m[col * 3 + 1] as int) + abs_int(m[col * 3 + 2] as int)
}

/// Every row and every column holds exactly one entry of absolute value 1,
/// the others being 0: a signed permutation matrix.
pub open spec fn is_perm_spec(m: Seq<i32>) -> bool {
    &&& row_abs_sum(m, 0) == 1
    &&& row_abs_sum(m, 1) == 1
    &&& row_abs_sum(m, 2) == 1
    &&& col_abs_sum(m, 0) == 1
    &&& col_abs_sum(m, 1) == 1
    &&& col_abs_sum(m, 2) == 1
}

/// Adding up `|a|`, `|b|`, `|c|` one after the other stays within `i32`.
pub open spec fn abs_sum_fits(a: int, b: int, c: int) -> bool {
    &&& a > i32::MIN
    &&& b > i32::MIN
    &&& c > i32::MIN
    &&& fits_i32(abs_int(a) + abs_int(b))
    &&& fits_i32(abs_int(a) + abs_int(b) + abs_int(c))
}

pub open spec fn row_fits(m: Seq<i32>, row: int) -> bool {
    abs_sum_fits(m[row] as int, m[3 + row] as int, m[6 + row] as int)
}

pub open spec fn col_fits(m: Seq<i32>, col: int) -> bool {
    abs_sum_fits(m[col * 3] as int, m[col * 3 + 1] as int, m[col * 3 + 2] as int)
}

/// The sums that the permutation check computes, rows first and then
/// columns, stopping at the first that is not 1, all stay within `i32`.
pub open spec fn perm_check_fits(m: Seq<i32>) -> bool {
    &&& row_fits(m, 0)
    &&& row_abs_sum(m, 0) == 1 ==> row_fits(m, 1)
    &&& row_abs_sum(m, 0) == 1 && row_abs_sum(m, 1) == 1 ==> row_fits(m, 2)
    &&& row_abs_sum(m, 0) == 1 && row_abs_sum(m, 1) == 1 && row_abs_sum(m, 2) == 1 ==> col_fits(
        m,
        0,
    )
    &&& row_abs_sum(m, 0) == 1 && row_abs_sum(m, 1) == 1 && row_abs_sum(m, 2) == 1
        && col_abs_sum(m, 0) == 1 ==> col_fits(m, 1)
    &&& row_abs_sum(m, 0) == 1 && row_abs_sum(m, 1) == 1 && row_abs_sum(m, 2) == 1
        && col_abs_sum(m, 0) == 1 && col_abs_sum(m, 1) == 1 ==> col_fits(m, 2)
}

pub open spec fn term(m: Seq<i32>, a: int, b: int, c: int) -> int {
    m[a] * m[b] * m[c]
}

/// The determinant of the matrix, by the rule of Sarrus.
pub open spec fn det_spec(m: Seq<i32>) -> int {
    term(m, 0, 4, 8) + term(m, 3, 7, 2) + term(m, 6, 1, 5) - term(m, 6, 4, 2) - term(m, 3, 1, 8)
        - term(m, 0, 7, 5)
}

pub open spec fn term_fits(m: Seq<i32>, a: int, b: int, c: int) -> bool {
    fits_i32(m[a] * m[b]) && fits_i32(term(m, a, b, c))
}

/// Every product and every partial sum of the determinant, in the order in
/// which it is evaluated, stays within `i32`.
pub open spec fn det_fits(m: Seq<i32>) -> bool {
    &&& term_fits(m, 0, 4, 8)
    &&& term_fits(m, 3, 7, 2)
    &&& term_fits(m, 6, 1, 5)
    &&& term_fits(m, 6, 4, 2)
    &&& term_fits(m, 3, 1, 8)
    &&& term_fits(m, 0, 7, 5)
    &&& fits_i32(term(m, 0, 4, 8) + term(m, 3, 7, 2))
    &&& fits_i32(term(m, 0, 4, 8) + term(m, 3, 7, 2) + term(m, 6, 1, 5))
    &&& fits_i32(term(m, 0, 4, 8) + term(m, 3, 7, 2) + term(m, 6, 1, 5) - term(m, 6, 4, 2))
    &&& fits_i32(
        term(m, 0, 4, 8) + term(m, 3, 7, 2) + term(m, 6, 1, 5) - term(m, 6, 4, 2) - term(
            m,
            3,
            1,
            8,
        ),
    )
    &&& fits_i32(det_spec(m))
}

/// A proper rotation of the cube: a signed permutation matrix of determinant 1.
pub open spec fn is_rotation_matrix(m: Seq<i32>) -> bool {
    is_perm_spec(m) && det_spec(m) == 1
}

/// The rotation matrices among the completions of the prefix `m` by `n` more
/// entries drawn from `-1, 0, 1`, in lexicographic order of the entries.
pub open spec fn rotation_completions(m: Seq<i32>, n: nat) -> Seq<Seq<i32>>
    decreases n,
{
    if n == 0 {
        if is_rotation_matrix(m) {
            seq![m]
        } else {
            seq![]
        }
    } else {
        rotation_completions(m.push(-1i32), (n - 1) as nat) + rotation_completions(
            m.push(0i32),
            (n - 1) as nat,
        ) + rotation_completions(m.push(1i32), (n - 1) as nat)
    }
}

/// All rotation matrices whose entries lie in `-1, 0, 1`, in lexicographic order.
pub open spec fn all_rotation_matrices() -> Seq<Seq<i32>> {
    rotation_completions(seq![], 9)
}

/// Every entry lies in `-1, 0, 1`.
pub open spec fn unit_entries(m: Seq<i32>) -> bool {
    forall|k: int| 0 <= k < m.len() ==> -1 <= #[trigger] m[k] <= 1
}

fn abs_i32(v: i32) -> (r: i32)
    requires
        v > i32::MIN,
    ensures
        r == abs_int(v as int),
{
    if v < 0 {
        -v
    } else {
        v
    }
}

/// Whether the matrix is a signed permutation matrix: every row and every
/// column holds exactly one entry of absolute value 1 and zeros elsewhere.
pub fn is_perm(values: &Vec<i32>) -> (r: bool)
    requires
        values.len() >= 9,
        perm_check_fits(values@),
    ensures
        r == is_perm_spec(values@),
{
    let mut row: usize = 0;
    while row < 3
        invariant
            row <= 3,
            values.len() >= 9,
            perm_check_fits(values@),
            forall|r: int| 0 <= r < row ==> row_abs_sum(values@, r) == 1,
        decreases 3 - row,
    {
        let mut sum: i32 = 0;
        let mut col: usize = 0;
        proof {
            assert(row_fits(values@, row as int)) by {
                if row == 1 {
                    assert(row_abs_sum(values@, 0) == 1);
                }
                if row == 2 {
                    assert(row_abs_sum(values@, 0) == 1);
                    assert(row_abs_sum(values@, 1) == 1);
                }
            }
        }
        while col < 3
            invariant
                row < 3,
                col <= 3,
                values.len() >= 9,
                row_fits(values@, row as int),
                col == 0 ==> sum == 0,
                col == 1 ==> sum == abs_int(values@[row as int] as int),
                col == 2 ==> sum == abs_int(values@[row as int] as int) + abs_int(
                    values@[3 + row] as int,
                ),
                col == 3 ==> sum == row_abs_sum(values@, row as int),
            decreases 3 - col,
        {
            sum = sum + abs_i32(values[col * 3 + row]);
            col += 1;
        }
        if sum != 1 {
            return false;
        }
        row += 1;
    }
    let mut col: usize = 0;
    while col < 3
        invariant
            col <= 3,
            values.len() >= 9,
            perm_check_fits(values@),
            forall|r: int| 0 <= r < 3 ==> row_abs_sum(values@, r) == 1,
            forall|c: int| 0 <= c < col ==> col_abs_sum(values@, c) == 1,
        decreases 3 - col,
    {
        let mut sum: i32 = 0;
        let mut row: usize = 0;
        proof {
            assert(row_abs_sum(values@, 0) == 1 && row_abs_sum(values@, 1) == 1
                && row_abs_sum(values@, 2) == 1);
            assert(col_fits(values@, col as int)) by {
                if col == 1 {
                    assert(col_abs_sum(values@, 0) == 1);
                }
                if col == 2 {
                    assert(col_abs_sum(values@, 0) == 1);
                    assert(col_abs_sum(values@, 1) == 1);
                }
            }
        }
        while row < 3
            invariant
                col < 3,
                row <= 3,
                values.len() >= 9,
                col_fits(values@, col as int),
                row == 0 ==> sum == 0,
                row == 1 ==> sum == abs_int(values@[col * 3] as int),
                row == 2 ==> sum == abs_int(values@[col * 3] as int) + abs_int(
                    values@[col * 3 + 1] as int,
                ),
                row == 3 ==> sum == col_abs_sum(values@, col as int),
            decreases 3 - row,
        {
            sum = sum + abs_i32(values[col * 3 + row]);
            row += 1;
        }
        if sum != 1 {
            return false;
        }
        col += 1;
    }
    true
}

/// The determinant of the matrix.
pub fn det(values: &Vec<i32>) -> (d: i32)
    requires
        values.len() >= 9,
        det_fits(values@),
    ensures
        d == det_spec(values@),
{
    values[0] * values[4] * values[8] + values[3] * values[7] * values[2] + values[6] * values[1]
        * values[5] - values[6] * values[4] * values[2] - values[3] * values[1] * values[8]
        - values[0] * values[7] * values[5]
}

proof fn lemma_unit_product(a: int, b: int)
    requires
        -1 <= a <= 1,
        -1 <= b <= 1,
    ensures
        -1 <= a * b <= 1,
{
    assert(-1 <= a * b <= 1) by (nonlinear_arith)
        requires
            -1 <= a <= 1,
            -1 <= b <= 1,
    ;
}

proof fn lemma_unit_term(m: Seq<i32>, a: int, b: int, c: int)
    requires
        m.len() == 9,
        unit_entries(m),
        0 <= a < 9,
        0 <= b < 9,
        0 <= c < 9,
    ensures
        term_fits(m, a, b, c),
        -1 <= term(m, a, b, c) <= 1,
{
    let x = m[a] as int;
    let y = m[b] as int;
    let z = m[c] as int;
    lemma_unit_product(x, y);
    lemma_unit_product(x * y, z);
}

/// A matrix with entries in `-1, 0, 1` can be checked without overflow.
proof fn lemma_unit_matrix_fits(m: Seq<i32>)
    requires
        m.len() == 9,
        unit_entries(m),
    ensures
        perm_check_fits(m),
        det_fits(m),
{
    lemma_unit_term(m, 0, 4, 8);
    lemma_unit_term(m, 3, 7, 2);
    lemma_unit_term(m, 6, 1, 5);
    lemma_unit_term(m, 6, 4, 2);
    lemma_unit_term(m, 3, 1, 8);
    lemma_unit_term(m, 0, 7, 5);
    assert(-1 <= m[0] <= 1 && -1 <= m[1] <= 1 && -1 <= m[2] <= 1);
    assert(-1 <= m[3] <= 1 && -1 <= m[4] <= 1 && -1 <= m[5] <= 1);
    assert(-1 <= m[6] <= 1 && -1 <= m[7] <= 1 && -1 <= m[8] <= 1);
}

/// Appends to `rots` every rotation matrix that completes the prefix `m`.
fn extend_rotations(rots: &mut Vec<Vec<i32>>, m: Vec<i32>, loc: i32)
    requires
        0 <= loc <= 9,
        m.len() == loc,
        unit_entries(m@),
    ensures
        final(rots).deep_view() == old(rots).deep_view() + rotation_completions(
            m@,
            (9 - loc) as nat,
        ),
    decreases 9 - loc,
{
    if loc == 9 {
        proof {
            lemma_unit_matrix_fits(m@);
        }
        let perm = is_perm(&m);
        if !perm {
            assert(rots.deep_view() =~= old(rots).deep_view() + rotation_completions(m@, 0));
            return ;
        }
        let d = det(&m);
        if d != 1 {
            assert(rots.deep_view() =~= old(rots).deep_view() + rotation_completions(m@, 0));
            return ;
        }
        let ghost mv = m@;
        assert(m.deep_view() =~= mv);
        let ghost before = rots.deep_view();
        rots.push(m);
        assert(rots.deep_view() =~= before.push(mv));
        assert(rots.deep_view() =~= old(rots).deep_view() + rotation_completions(mv, 0));
    } else {
        let ghost before = rots.deep_view();
        let ghost n = (9 - loc - 1) as nat;
        let mut value: i32 = -1;
        while value < 2
            invariant
                -1 <= value <= 2,
                0 <= loc < 9,
                m.len() == loc,
                unit_entries(m@),
                n == 9 - loc - 1,
                value == -1 ==> rots.deep_view() == before,
                value == 0 ==> rots.deep_view() == before + rotation_completions(
                    m@.push(-1i32),
                    n,
                ),
                value == 1 ==> rots.deep_view() == before + rotation_completions(m@.push(-1i32), n)
                    + rotation_completions(m@.push(0i32), n),
                value == 2 ==> rots.deep_view() == before + rotation_completions(m@.push(-1i32), n)
                    + rotation_completions(m@.push(0i32), n) + rotation_completions(m@.push(1i32), n),
            decreases 2 - value,
        {
            let mut m2 = m.clone();
            m2.push(value);
            assert(m2@ == m@.push(value));
            assert(unit_entries(m2@)) by {
                assert forall|k: int| 0 <= k < m2@.len() implies -1 <= #[trigger] m2@[k] <= 1 by {
                    if k < m@.len() {
                        assert(m2@[k] == m@[k]);
                    }
                }
            }
            extend_rotations(rots, m2, loc + 1);
            proof {
                if value == -1 {
                    assert(rots.deep_view() =~= before + rotation_completions(m@.push(-1i32), n));
                } else if value == 0 {
                    assert(rots.deep_view() =~= before + rotation_completions(m@.push(-1i32), n)
                        + rotation_completions(m@.push(0i32), n));
                } else {
                    assert(rots.deep_view() =~= before + rotation_completions(m@.push(-1i32), n)
                        + rotation_completions(m@.push(0i32), n) + rotation_completions(
                        m@.push(1i32),
                        n,
                    ));
                }
            }
            value += 1;
        }
        assert(rotation_completions(m@, (9 - loc) as nat) == rotation_completions(
            m@.push(-1i32),
            n,
        ) + rotation_completions(m@.push(0i32), n) + rotation_completions(m@.push(1i32), n));
        assert(rots.deep_view() =~= before + rotation_completions(m@, (9 - loc) as nat));
    }
}

/// Every rotation of the cube that maps the coordinate axes onto coordinate
/// axes, as a matrix stored column after column.
pub fn get_rots() -> (rots: Vec<Vec<i32>>)
    ensures
        rots.deep_view() == all_rotation_matrices(),
        rots.len() == 24,
{
    proof {
        lemma_rotation_count();
    }
    let mut rots: Vec<Vec<i32>> = Vec::new();
    let m: Vec<i32> = Vec::new();
    extend_rotations(&mut rots, m, 0);
    assert(rots.deep_view() =~= all_rotation_matrices());
    rots
}

/// Nine entries in `-1, 0, 1` forming a rotation matrix.
pub open spec fn unit_rotation(r: Seq<i32>) -> bool {
    &&& r.len() == 9
    &&& unit_entries(r)
    &&& is_rotation_matrix(r)
}

/// The matrices that complete a prefix with entries in `-1, 0, 1` are
/// rotation matrices with nine entries in `-1, 0, 1` that start with the prefix.
pub proof fn lemma_rotation_completions(m: Seq<i32>, n: nat)
    requires
        unit_entries(m),
        m.len() + n == 9,
    ensures
        forall|j: int|
            0 <= j < rotation_completions(m, n).len() ==> unit_rotation(
                #[trigger] rotation_completions(m, n)[j],
            ) && rotation_completions(m, n)[j].take(m.len() as int) == m,
    decreases n,
{
    if n > 0 {
        let a = m.push(-1i32);
        let b = m.push(0i32);
        let c = m.push(1i32);
        assert forall|v: i32| -1 <= v <= 1 implies unit_entries(#[trigger] m.push(v)) by {
            assert forall|k: int| 0 <= k < m.push(v).len() implies -1 <= #[trigger] m.push(v)[k]
                <= 1 by {
                if k < m.len() {
                    assert(m.push(v)[k] == m[k]);
                }
            }
        }
        lemma_rotation_completions(a, (n - 1) as nat);
        lemma_rotation_completions(b, (n - 1) as nat);
        lemma_rotation_completions(c, (n - 1) as nat);
        let ra = rotation_completions(a, (n - 1) as nat);
        let rb = rotation_completions(b, (n - 1) as nat);
        let rc = rotation_completions(c, (n - 1) as nat);
        let all = ra + rb + rc;
        assert(rotation_completions(m, n) == all);
        assert forall|j: int| 0 <= j < all.len() implies unit_rotation(#[trigger] all[j])
            && all[j].take(m.len() as int) == m by {
            let l = m.len() as int;
            if j < ra.len() {
                assert(all[j] == ra[j]);
                assert(ra[j].take(l + 1) == a);
                assert(ra[j].take(l) =~= a.take(l));
                assert(a.take(l) =~= m);
            } else if j < ra.len() + rb.len() {
                assert(all[j] == rb[j - ra.len()]);
                assert(rb[j - ra.len()].take(l + 1) == b);
                assert(rb[j - ra.len()].take(l) =~= b.take(l));
                assert(b.take(l) =~= m);
            } else {
                assert(all[j] == rc[j - ra.len() - rb.len()]);
                assert(rc[j - ra.len() - rb.len()].take(l + 1) == c);
                assert(rc[j - ra.len() - rb.len()].take(l) =~= c.take(l));
                assert(c.take(l) =~= m);
            }
        }
    } else {
        assert(m.take(m.len() as int) =~= m);
    }
}

/// Every matrix that `get_rots` gives is a rotation of the cube: a signed
/// permutation matrix of determinant 1 with nine entries in `-1, 0, 1`.
pub proof fn lemma_all_rotation_matrices()
    ensures
        forall|j: int|
            0 <= j < all_rotation_matrices().len() ==> unit_rotation(
                #[trigger] all_rotation_matrices()[j],
            ),
{
    lemma_rotation_completions(seq![], 9);
}


// ---------------------------------------------------------------------------
// Counting the rotations

/// `m` followed by a column of three entries.
pub open spec fn col_push(m: Seq<i32>, a: i32, b: i32, c: i32) -> Seq<i32> {
    m.push(a).push(b).push(c)
}

/// The rotation matrices that complete `m` with a column holding a single
/// entry of absolute value 1, then `n` more entries.
pub open spec fn axis_total(m: Seq<i32>, n: nat) -> nat {
    rotation_completions(col_push(m, -1i32, 0i32, 0i32), n).len()
        + rotation_completions(col_push(m, 1i32, 0i32, 0i32), n).len()
        + rotation_completions(col_push(m, 0i32, -1i32, 0i32), n).len()
        + rotation_completions(col_push(m, 0i32, 1i32, 0i32), n).len()
        + rotation_completions(col_push(m, 0i32, 0i32, -1i32), n).len()
        + rotation_completions(col_push(m, 0i32, 0i32, 1i32), n).len()
}

/// Two nonzero entries in one row or in one column leave no rotation matrix
/// among the completions.
proof fn lemma_clash(m: Seq<i32>, n: nat, a: int, b: int)
    requires
        m.len() + n == 9,
        0 <= a < b < m.len(),
        m[a] != 0,
        m[b] != 0,
        a / 3 == b / 3 || a % 3 == b % 3,
    ensures
        rotation_completions(m, n).len() == 0,
    decreases n,
{
    if n == 0 {
        if a / 3 == b / 3 {
            assert(col_abs_sum(m, a / 3) >= 2);
        } else {
            assert(row_abs_sum(m, a % 3) >= 2);
        }
    } else {
        assert(m.push(-1i32)[a] == m[a] && m.push(-1i32)[b] == m[b]);
        assert(m.push(0i32)[a] == m[a] && m.push(0i32)[b] == m[b]);
        assert(m.push(1i32)[a] == m[a] && m.push(1i32)[b] == m[b]);
        lemma_clash(m.push(-1i32), (n - 1) as nat, a, b);
        lemma_clash(m.push(0i32), (n - 1) as nat, a, b);
        lemma_clash(m.push(1i32), (n - 1) as nat, a, b);
    }
}

/// A column of zeros leaves no rotation matrix among the completions.
proof fn lemma_blank_column(m: Seq<i32>, n: nat, c: int)
    requires
        m.len() + n == 9,
        0 <= c,
        3 * c + 3 <= m.len(),
        m[3 * c] == 0,
        m[3 * c + 1] == 0,
        m[3 * c + 2] == 0,
    ensures
        rotation_completions(m, n).len() == 0,
    decreases n,
{
    if n == 0 {
        assert(col_abs_sum(m, c) == 0);
    } else {
        assert forall|v: i32|
            #![trigger m.push(v)]
            m.push(v)[3 * c] == 0 && m.push(v)[3 * c + 1] == 0 && m.push(v)[3 * c + 2] == 0 by {}
        lemma_blank_column(m.push(-1i32), (n - 1) as nat, c);
        lemma_blank_column(m.push(0i32), (n - 1) as nat, c);
        lemma_blank_column(m.push(1i32), (n - 1) as nat, c);
    }
}

/// Among the columns that can follow whole columns, only those with a single
/// entry of absolute value 1 lead to rotation matrices.
proof fn lemma_column(m: Seq<i32>, n: nat)
    requires
        m.len() % 3 == 0,
        m.len() + n + 3 == 9,
    ensures
        rotation_completions(m, n + 3).len() == axis_total(m, n),
{
    let l = m.len() as int;
    let k = n + 1;
    assert(l / 3 == (l + 1) / 3 && l / 3 == (l + 2) / 3);
    // A first entry of absolute value 1 leaves only zeros for the other two.
    assert forall|u: i32| u == -1 || u == 1 implies #[trigger] rotation_completions(m.push(u), k + 1).len()
        == rotation_completions(col_push(m, u, 0i32, 0i32), n).len() by {
        let x = m.push(u);
        assert(x.push(-1i32)[l] != 0 && x.push(-1i32)[l + 1] != 0);
        assert(x.push(1i32)[l] != 0 && x.push(1i32)[l + 1] != 0);
        lemma_clash(x.push(-1i32), k, l, l + 1);
        lemma_clash(x.push(1i32), k, l, l + 1);
        let y = x.push(0i32);
        assert(y.push(-1i32)[l] != 0 && y.push(-1i32)[l + 2] != 0);
        assert(y.push(1i32)[l] != 0 && y.push(1i32)[l + 2] != 0);
        lemma_clash(y.push(-1i32), n, l, l + 2);
        lemma_clash(y.push(1i32), n, l, l + 2);
        assert(rotation_completions(y, k).len() == rotation_completions(y.push(0i32), n).len());
    }
    // A first entry 0 and a second of absolute value 1 leave a zero for the third.
    let z = m.push(0i32);
    assert forall|u: i32| u == -1 || u == 1 implies #[trigger] rotation_completions(z.push(u), k).len()
        == rotation_completions(col_push(m, 0i32, u, 0i32), n).len() by {
        let y = z.push(u);
        assert(y.push(-1i32)[l + 1] != 0 && y.push(-1i32)[l + 2] != 0);
        assert(y.push(1i32)[l + 1] != 0 && y.push(1i32)[l + 2] != 0);
        lemma_clash(y.push(-1i32), n, l + 1, l + 2);
        lemma_clash(y.push(1i32), n, l + 1, l + 2);
    }
    // Two zeros: the third entry must not be zero too.
    let zz = z.push(0i32);
    let zzz = zz.push(0i32);
    assert(zzz[l] == 0 && zzz[l + 1] == 0 && zzz[l + 2] == 0);
    lemma_blank_column(zzz, n, l / 3);
    assert(rotation_completions(zz, k).len() == rotation_completions(col_push(m, 0i32, 0i32, -1i32), n).len()
        + rotation_completions(col_push(m, 0i32, 0i32, 1i32), n).len());
    assert(rotation_completions(z, k + 1).len() == rotation_completions(z.push(-1i32), k).len()
        + rotation_completions(zz, k).len() + rotation_completions(z.push(1i32), k).len());
    assert(rotation_completions(m, n + 3).len() == rotation_completions(m.push(-1i32), k + 1).len()
        + rotation_completions(z, k + 1).len() + rotation_completions(m.push(1i32), k + 1).len());
}

/// The rule of Sarrus, expanded along the last column.
proof fn lemma_sarrus(x0: int, x1: int, x2: int, x3: int, x4: int, x5: int, x6: int, x7: int, x8: int)
    ensures
        x0 * x4 * x8 + x3 * x7 * x2 + x6 * x1 * x5 - x6 * x4 * x2 - x3 * x1 * x8 - x0 * x7 * x5
            == x6 * (x1 * x5 - x4 * x2) + x7 * (x3 * x2 - x0 * x5) + x8 * (x0 * x4 - x3 * x1),
{
    assert(x6 * (x1 * x5 - x4 * x2) == x6 * x1 * x5 - x6 * x4 * x2) by (nonlinear_arith);
    assert(x7 * (x3 * x2 - x0 * x5) == x3 * x7 * x2 - x0 * x7 * x5) by (nonlinear_arith);
    assert(x8 * (x0 * x4 - x3 * x1) == x0 * x4 * x8 - x3 * x1 * x8) by (nonlinear_arith);
}

/// Two columns, each with a single entry of absolute value 1, in different
/// rows, have a minor of absolute value 1 on those rows.
proof fn lemma_unit_minor(a: int, b: int, c: int, d: int)
    by (nonlinear_arith)
    requires
        -1 <= a <= 1,
        -1 <= b <= 1,
        -1 <= c <= 1,
        -1 <= d <= 1,
        abs_int(a) + abs_int(b) == 1,
        abs_int(c) + abs_int(d) == 1,
        a == 0 || c == 0,
        b == 0 || d == 0,
    ensures
        a * d - c * b == 1 || a * d - c * b == -1,
{
}

/// Two whole columns, each with a single entry of absolute value 1, in
/// different rows, have exactly one completion that is a rotation matrix.
proof fn lemma_two_columns(m: Seq<i32>)
    requires
        m.len() == 6,
        unit_entries(m),
        col_abs_sum(m, 0) == 1,
        col_abs_sum(m, 1) == 1,
        m[0] == 0 || m[3] == 0,
        m[1] == 0 || m[4] == 0,
        m[2] == 0 || m[5] == 0,
    ensures
        rotation_completions(m, 3).len() == 1,
{
    assert(-1 <= m[0] <= 1 && -1 <= m[1] <= 1 && -1 <= m[2] <= 1);
    assert(-1 <= m[3] <= 1 && -1 <= m[4] <= 1 && -1 <= m[5] <= 1);
    lemma_column(m, 0);
    let x0 = m[0] as int;
    let x1 = m[1] as int;
    let x2 = m[2] as int;
    let x3 = m[3] as int;
    let x4 = m[4] as int;
    let x5 = m[5] as int;
    // Third column in row 0.
    let a = col_push(m, -1i32, 0i32, 0i32);
    let b = col_push(m, 1i32, 0i32, 0i32);
    assert(a[0] == m[0] && a[1] == m[1] && a[2] == m[2] && a[3] == m[3] && a[4] == m[4] && a[5] == m[5]);
    assert(b[0] == m[0] && b[1] == m[1] && b[2] == m[2] && b[3] == m[3] && b[4] == m[4] && b[5] == m[5]);
    assert(a[6] == -1 && a[7] == 0 && a[8] == 0 && b[6] == 1 && b[7] == 0 && b[8] == 0);
    if m[0] != 0 {
        lemma_clash(a, 0, 0, 6);
        lemma_clash(b, 0, 0, 6);
    } else if m[3] != 0 {
        lemma_clash(a, 0, 3, 6);
        lemma_clash(b, 0, 3, 6);
    } else {
        lemma_sarrus(x0, x1, x2, x3, x4, x5, -1, 0, 0);
        lemma_sarrus(x0, x1, x2, x3, x4, x5, 1, 0, 0);
        lemma_unit_minor(x1, x2, x4, x5);
        assert(is_perm_spec(a) && is_perm_spec(b));
        assert(det_spec(a) == -(x1 * x5 - x4 * x2));
        assert(det_spec(b) == x1 * x5 - x4 * x2);
    }
    // Third column in row 1.
    let c = col_push(m, 0i32, -1i32, 0i32);
    let d = col_push(m, 0i32, 1i32, 0i32);
    assert(c[0] == m[0] && c[1] == m[1] && c[2] == m[2] && c[3] == m[3] && c[4] == m[4] && c[5] == m[5]);
    assert(d[0] == m[0] && d[1] == m[1] && d[2] == m[2] && d[3] == m[3] && d[4] == m[4] && d[5] == m[5]);
    assert(c[6] == 0 && c[7] == -1 && c[8] == 0 && d[6] == 0 && d[7] == 1 && d[8] == 0);
    if m[1] != 0 {
        lemma_clash(c, 0, 1, 7);
        lemma_clash(d, 0, 1, 7);
    } else if m[4] != 0 {
        lemma_clash(c, 0, 4, 7);
        lemma_clash(d, 0, 4, 7);
    } else {
        lemma_sarrus(x0, x1, x2, x3, x4, x5, 0, -1, 0);
        lemma_sarrus(x0, x1, x2, x3, x4, x5, 0, 1, 0);
        lemma_unit_minor(x0, x2, x3, x5);
        assert(is_perm_spec(c) && is_perm_spec(d));
        assert(det_spec(c) == -(x3 * x2 - x0 * x5));
        assert(det_spec(d) == x3 * x2 - x0 * x5);
    }
    // Third column in row 2.
    let e = col_push(m, 0i32, 0i32, -1i32);
    let f = col_push(m, 0i32, 0i32, 1i32);
    assert(e[0] == m[0] && e[1] == m[1] && e[2] == m[2] && e[3] == m[3] && e[4] == m[4] && e[5] == m[5]);
    assert(f[0] == m[0] && f[1] == m[1] && f[2] == m[2] && f[3] == m[3] && f[4] == m[4] && f[5] == m[5]);
    assert(e[6] == 0 && e[7] == 0 && e[8] == -1 && f[6] == 0 && f[7] == 0 && f[8] == 1);
    if m[2] != 0 {
        lemma_clash(e, 0, 2, 8);
        lemma_clash(f, 0, 2, 8);
    } else if m[5] != 0 {
        lemma_clash(e, 0, 5, 8);
        lemma_clash(f, 0, 5, 8);
    } else {
        lemma_sarrus(x0, x1, x2, x3, x4, x5, 0, 0, -1);
        lemma_sarrus(x0, x1, x2, x3, x4, x5, 0, 0, 1);
        lemma_unit_minor(x0, x1, x3, x4);
        assert(is_perm_spec(e) && is_perm_spec(f));
        assert(det_spec(e) == -(x0 * x4 - x3 * x1));
        assert(det_spec(f) == x0 * x4 - x3 * x1);
    }
}

/// A first column with a single entry of absolute value 1 has four
/// completions that are rotation matrices.
proof fn lemma_one_column(m: Seq<i32>)
    requires
        m.len() == 3,
        unit_entries(m),
        col_abs_sum(m, 0) == 1,
    ensures
        rotation_completions(m, 6).len() == 4,
{
    assert(-1 <= m[0] <= 1 && -1 <= m[1] <= 1 && -1 <= m[2] <= 1);
    lemma_column(m, 3);
    assert forall|a: i32, b: i32, c: i32|
        -1 <= a <= 1 && -1 <= b <= 1 && -1 <= c <= 1 implies unit_entries(
        #[trigger] col_push(m, a, b, c),
    ) by {
        let x = col_push(m, a, b, c);
        assert forall|k: int| 0 <= k < x.len() implies -1 <= #[trigger] x[k] <= 1 by {
            if k < 3 {
                assert(x[k] == m[k]);
            }
        }
    }
    // Second column in row 0.
    let a = col_push(m, -1i32, 0i32, 0i32);
    let b = col_push(m, 1i32, 0i32, 0i32);
    assert(a[0] == m[0] && a[1] == m[1] && a[2] == m[2] && a[3] == -1 && a[4] == 0 && a[5] == 0);
    assert(b[0] == m[0] && b[1] == m[1] && b[2] == m[2] && b[3] == 1 && b[4] == 0 && b[5] == 0);
    if m[0] != 0 {
        lemma_clash(a, 3, 0, 3);
        lemma_clash(b, 3, 0, 3);
    } else {
        lemma_two_columns(a);
        lemma_two_columns(b);
    }
    // Second column in row 1.
    let c = col_push(m, 0i32, -1i32, 0i32);
    let d = col_push(m, 0i32, 1i32, 0i32);
    assert(c[0] == m[0] && c[1] == m[1] && c[2] == m[2] && c[3] == 0 && c[4] == -1 && c[5] == 0);
    assert(d[0] == m[0] && d[1] == m[1] && d[2] == m[2] && d[3] == 0 && d[4] == 1 && d[5] == 0);
    if m[1] != 0 {
        lemma_clash(c, 3, 1, 4);
        lemma_clash(d, 3, 1, 4);
    } else {
        lemma_two_columns(c);
        lemma_two_columns(d);
    }
    // Second column in row 2.
    let e = col_push(m, 0i32, 0i32, -1i32);
    let f = col_push(m, 0i32, 0i32, 1i32);
    assert(e[0] == m[0] && e[1] == m[1] && e[2] == m[2] && e[3] == 0 && e[4] == 0 && e[5] == -1);
    assert(f[0] == m[0] && f[1] == m[1] && f[2] == m[2] && f[3] == 0 && f[4] == 0 && f[5] == 1);
    if m[2] != 0 {
        lemma_clash(e, 3, 2, 5);
        lemma_clash(f, 3, 2, 5);
    } else {
        lemma_two_columns(e);
        lemma_two_columns(f);
    }
}

/// There are 24 rotations of the cube: `get_rots` gives 24 matrices.
pub proof fn lemma_rotation_count()
    ensures
        all_rotation_matrices().len() == 24,
{
    let e: Seq<i32> = seq![];
    lemma_column(e, 6);
    assert forall|a: i32, b: i32, c: i32|
        -1 <= a <= 1 && -1 <= b <= 1 && -1 <= c <= 1 && abs_int(a as int) + abs_int(b as int)
            + abs_int(c as int) == 1 implies rotation_completions(#[trigger] col_push(e, a, b, c), 6).len()
        == 4 by {
        let x = col_push(e, a, b, c);
        assert(x[0] == a && x[1] == b && x[2] == c);
        assert forall|k: int| 0 <= k < x.len() implies -1 <= #[trigger] x[k] <= 1 by {}
        lemma_one_column(x);
    }
    assert(rotation_completions(col_push(e, -1i32, 0i32, 0i32), 6).len() == 4);
    assert(rotation_completions(col_push(e, 1i32, 0i32, 0i32), 6).len() == 4);
    assert(rotation_completions(col_push(e, 0i32, -1i32, 0i32), 6).len() == 4);
    assert(rotation_completions(col_push(e, 0i32, 1i32, 0i32), 6).len() == 4);
    assert(rotation_completions(col_push(e, 0i32, 0i32, -1i32), 6).len() == 4);
    assert(rotation_completions(col_push(e, 0i32, 0i32, 1i32), 6).len() == 4);
}

} // verus!
