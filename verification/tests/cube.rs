use pentacube::block::Block;
use pentacube::checks::{basic_ok, is_preparable, turns_ok};
use pentacube::color::Color;
use pentacube::holes::get_holes;
use pentacube::piece::Piece;
use pentacube::placement::{
    build_piece_set, get_basic_rots, get_legal_rotations, get_legal_rotations_all, get_rotations,
    is_isomorphic, legal_rotations_at, rotate_block,
};
use pentacube::rotations::{det, get_rots, is_perm};
use pentacube::solver::{piece_set_ok, search_state_ok, solve_step, stack_ok, SolveError};

fn block(x: i32, y: i32, z: i32) -> Block {
    Block { x, y, z, fill_color: 0, edge_color: 0 }
}

fn p_piece(number: usize) -> Piece {
    Piece {
        blocks: [block(0, 0, 0), block(1, 0, 0), block(0, 1, 0), block(1, 1, 0), block(0, 2, 0)],
        fill_color: 0x336699,
        edge_color: 7,
        position: 0,
        rotations: Vec::new(),
        bits: 0,
        number,
    }
}

#[test]
fn color_number_roundtrip() {
    let c = Color::from_number(0x12_34_56);
    assert_eq!(c.to_number(), 0x12_34_56);
    assert_eq!(Color::from_rgb(0x12, 0x34, 0x56).to_number(), 0x12_34_56);
    assert_eq!(Color::from_number(0).to_number(), 0);
    assert_eq!(Color::from_number(0xFF_FFFF).to_number(), 0xFF_FFFF);
}

#[test]
fn darken_saturates_at_zero() {
    assert_eq!(Color::from_rgb(100, 40, 255).darken(50).to_number(), 0x32_00_CD);
    assert_eq!(Color::from_rgb(100, 40, 255).darken(300).to_number(), 0);
    assert_eq!(Color::from_rgb(100, 40, 255).darken(-5).to_number(), 0x64_28_FF);
}

#[test]
fn lighten_saturates_at_white() {
    assert_eq!(Color::from_rgb(100, 240, 0).lighten(20).to_number(), 0x78_FF_14);
    assert_eq!(Color::from_rgb(100, 240, 0).lighten(1000).to_number(), 0xFF_FFFF);
    assert_eq!(Color::from_rgb(100, 240, 0).lighten(0).to_number(), 0x64_F0_00);
}

#[test]
fn twenty_four_rotations() {
    let rots = get_rots();
    assert_eq!(rots.len(), 24);
    for m in rots.iter() {
        assert_eq!(m.len(), 9);
        assert!(is_perm(m));
        assert_eq!(det(m), 1);
    }
    assert_eq!(rots[0], vec![-1, 0, 0, 0, -1, 0, 0, 0, 1]);
    assert!(rots.contains(&vec![1, 0, 0, 0, 1, 0, 0, 0, 1]));
}

#[test]
fn perm_and_det() {
    assert!(is_perm(&vec![0, 1, 0, 1, 0, 0, 0, 0, 1]));
    assert_eq!(det(&vec![0, 1, 0, 1, 0, 0, 0, 0, 1]), -1);
    assert!(!is_perm(&vec![1, 1, 0, 0, 0, 0, 0, 0, 1]));
    assert!(!is_perm(&vec![1, 0, 0, 0, 1, 0, 0, 0, 0]));
    assert_eq!(det(&vec![2, 0, 0, 0, 3, 0, 0, 0, 4]), 24);
}

#[test]
fn block_from_position() {
    let b = Block::from(62);
    assert_eq!((b.x, b.y, b.z), (2, 2, 2));
    let b = Block::from(124);
    assert_eq!((b.x, b.y, b.z), (4, 4, 4));
    let b = Block::from(-7);
    assert_eq!((b.x, b.y, b.z), (-2, -1, 0));
    assert_eq!(Block::from(87).position(), 87);
    let t = Block::from((1, -2, 3));
    assert_eq!((t.x, t.y, t.z, t.fill_color, t.edge_color), (1, -2, 3, 0, 0));
}

#[test]
fn cells_and_blocks_correspond() {
    for p in 0..125 {
        let b = Block::from(p);
        assert!((0..5).contains(&b.x) && (0..5).contains(&b.y) && (0..5).contains(&b.z));
        assert_eq!(b.position(), p);
    }
    let b = block(3, 0, 4);
    let c = Block::from(b.position());
    assert_eq!((c.x, c.y, c.z), (3, 0, 4));
}

#[test]
fn block_arithmetic_keeps_colors() {
    let a = Block { x: 1, y: 2, z: 3, fill_color: 9, edge_color: 8 };
    let b = Block { x: 4, y: 5, z: 6, fill_color: 1, edge_color: 1 };
    let s = a.plus(&b);
    assert_eq!((s.x, s.y, s.z, s.fill_color, s.edge_color), (5, 7, 9, 9, 8));
    let d = a.minus(&b);
    assert_eq!((d.x, d.y, d.z, d.fill_color, d.edge_color), (-3, -3, -3, 9, 8));
    assert!(a == Block { x: 1, y: 2, z: 3, fill_color: 0, edge_color: 0 });
    assert!(a != b);
    assert_eq!(block(1, 1, 1).cell_bit(), 1u128 << 31);
}

#[test]
fn occupied_bits_of_a_row() {
    let mut p = p_piece(0);
    p.blocks = [block(0, 0, 0), block(1, 0, 0), block(2, 0, 0), block(3, 0, 0), block(4, 0, 0)];
    assert_eq!(p.occupied_bits(), 0b11111);
    assert_eq!(p.checked_bits(), 0b11111);
    assert_eq!(p_piece(0).occupied_bits(), 1 | (1 << 1) | (1 << 5) | (1 << 6) | (1 << 10));
}

#[test]
fn default_piece_is_blank() {
    let p = Piece::default();
    assert_eq!(p.fill_color, 0);
    assert_eq!(p.bits, 0);
    assert_eq!(p.number, 0);
    assert!(p.rotations.is_empty());
    assert!(p.blocks.iter().all(|b| b.x == 0 && b.y == 0 && b.z == 0));
}

#[test]
fn holes_are_face_neighbours() {
    let holes = get_holes();
    assert_eq!(holes.len(), 125);
    assert_eq!(holes[0], (1 << 1) | (1 << 5) | (1 << 25));
    assert_eq!(holes[62].count_ones(), 6);
    assert_eq!(holes[124], (1 << 123) | (1 << 119) | (1 << 99));
    for (p, m) in holes.iter().enumerate() {
        for q in 0..125usize {
            let a = (p % 5, p % 25 / 5, p / 25);
            let b = (q % 5, q % 25 / 5, q / 25);
            let d = a.0.abs_diff(b.0) + a.1.abs_diff(b.1) + a.2.abs_diff(b.2);
            assert_eq!((m >> q) & 1 == 1, d == 1);
        }
    }
}

#[test]
fn rotate_block_by_quarter_turn() {
    let rot = vec![0, 1, 0, -1, 0, 0, 0, 0, 1];
    let b = rotate_block(Block { x: 2, y: 3, z: 4, fill_color: 5, edge_color: 6 }, &rot);
    assert_eq!((b.x, b.y, b.z, b.fill_color, b.edge_color), (-3, 2, 4, 5, 6));
}

#[test]
fn rotations_of_a_piece() {
    let p = p_piece(3);
    assert!(turns_ok(&p));
    let rots = get_rotations(&p);
    assert_eq!(rots.len(), 24);
    for r in rots.iter() {
        assert_eq!(r.number, 3);
        assert_eq!(r.fill_color, 0x336699);
        assert_eq!((r.blocks[0].x, r.blocks[0].y, r.blocks[0].z), (0, 0, 0));
        for (k, b) in r.blocks.iter().enumerate() {
            assert_eq!(b.fill_color, Color::from_rgb(50, k as i32 * 20 + 100, 50).to_number());
        }
    }
    let mut far = p_piece(0);
    far.blocks[1].x = i32::MIN;
    assert!(!turns_ok(&far));
}

#[test]
fn isomorphic_compares_places() {
    let a = [block(0, 0, 0), block(1, 0, 0)];
    let b = [block(1, 0, 0), Block { x: 0, y: 0, z: 0, fill_color: 4, edge_color: 4 }];
    assert!(is_isomorphic(&a, &b));
    assert!(!is_isomorphic(&a, &[block(0, 0, 0)]));
    assert!(is_isomorphic(&[], &a));
}

#[test]
fn basic_rotations_are_distinct() {
    let p = p_piece(0);
    let rots = get_rots();
    assert!(basic_ok(&p, &rots));
    let basic = get_basic_rots(&p, &rots);
    assert!(!basic.is_empty());
    for (k, r) in basic.iter().enumerate() {
        assert!(r.blocks.iter().any(|b| (b.x, b.y, b.z) == (2, 2, 2)));
        for b in r.blocks.iter() {
            assert!((0..5).contains(&b.x) && (0..5).contains(&b.y) && (0..5).contains(&b.z));
            assert!(b.position() >= 62);
            assert!(b.fill_color != 0);
        }
        for s in basic.iter().skip(k + 1) {
            assert!(!is_isomorphic(&s.blocks, &r.blocks));
        }
    }
    // The centre block is the darkened colour of the piece.
    let darker = Color::from_number(0x336699).darken(50).to_number();
    assert!(basic[0].blocks.iter().any(|b| b.fill_color == darker));
}

#[test]
fn legal_rotations_stay_inside() {
    let p = p_piece(0);
    let rots = get_rots();
    let basic = get_basic_rots(&p, &rots);
    let at_corner = get_legal_rotations(&p, 0, &basic);
    assert!(!at_corner.is_empty());
    for r in at_corner.iter() {
        assert_eq!(r.fill_color, 0x336699);
        assert!(r.blocks.iter().any(|b| b.position() == 0));
        assert!(r.blocks.iter().all(|b| b.position() >= 0 && b.position() < 125));
    }
    assert!(get_legal_rotations(&p, 124, &basic).is_empty());
    assert_eq!(legal_rotations_at(&p, 0).len(), at_corner.len());
}

#[test]
fn legal_rotations_for_every_cell() {
    let pieces = vec![p_piece(0), p_piece(1)];
    let all = get_legal_rotations_all(pieces, &get_rots());
    assert_eq!(all.len(), 125);
    assert_eq!(all[0].len(), 2);
    assert_eq!(all[0][1].number, 1);
    assert!(all[124][0].rotations.is_empty());
}

fn p_piece_set() -> Vec<Vec<Piece>> {
    let pieces: Vec<Piece> = (0..25).map(p_piece).collect();
    assert!(is_preparable(&pieces));
    build_piece_set(pieces)
}

#[test]
fn prepared_set_has_bits() {
    let set = p_piece_set();
    assert_eq!(set.len(), 125);
    assert!(piece_set_ok(&set));
    for r in set[0][0].rotations.iter() {
        assert_eq!(r.bits.count_ones(), 5);
        assert_eq!(r.bits & 1, 1);
        assert_eq!(r.bits, r.occupied_bits());
    }
    for row in set.iter() {
        for piece in row.iter() {
            for r in piece.rotations.iter() {
                assert_eq!(r.bits.count_ones(), 5);
                assert_eq!(r.bits >> 125, 0);
            }
        }
    }
    let mut bad = vec![p_piece(0)];
    bad[0].number = 1;
    assert!(!is_preparable(&bad));
}

#[test]
fn search_moves_forward() {
    let set = p_piece_set();
    let holes = get_holes();
    let mut solution = Vec::new();
    assert!(search_state_ok(&set, &holes, &solution, true));
    assert_eq!(solve_step(&set, &holes, &mut solution, 1, false, false), Ok(false));
    assert_eq!(solution.len(), 1);
    assert_eq!(solution[0], (0, 0, solution[0].2));
    assert_eq!(solve_step(&set, &holes, &mut solution, 30, true, true), Ok(false));
    assert!(stack_ok(&set, &solution));
    assert_eq!(solve_step(&set, &holes, &mut solution, 0, true, true), Ok(false));
}

fn line_set(with_rotations: bool) -> Vec<Vec<Piece>> {
    let mut set = Vec::new();
    for i in 0..125usize {
        let mut row = Vec::new();
        for p in 0..25usize {
            let mut piece = p_piece(p);
            if with_rotations && i == 5 * p {
                let mut r = p_piece(p);
                r.bits = 0b11111u128 << i;
                piece.rotations.push(r);
            }
            row.push(piece);
        }
        set.push(row);
    }
    set
}

#[test]
fn search_finds_a_packing() {
    let set = line_set(true);
    let holes = get_holes();
    let mut solution = Vec::new();
    assert!(piece_set_ok(&set));
    assert_eq!(solve_step(&set, &holes, &mut solution, 100, false, false), Ok(true));
    assert_eq!(solution.len(), 25);
    for (k, e) in solution.iter().enumerate() {
        assert_eq!(*e, (5 * k, k, 0));
    }
}

#[test]
fn search_runs_out() {
    let set = line_set(false);
    let holes = get_holes();
    let mut solution = Vec::new();
    assert_eq!(solve_step(&set, &holes, &mut solution, 5, false, false), Err(SolveError::Exhausted));
    assert!(solution.is_empty());
}

#[test]
fn malformed_states_are_refused() {
    let set = line_set(true);
    let holes = get_holes();
    assert!(!stack_ok(&set, &vec![(0, 0, 1)]));
    assert!(!stack_ok(&set, &vec![(5, 1, 0)]));
    assert!(stack_ok(&set, &vec![(0, 0, 0), (5, 1, 0)]));
    assert!(!search_state_ok(&set, &holes[..100].to_vec(), &vec![], true));
    assert!(search_state_ok(&set, &vec![], &vec![], false));
    let mut bad = line_set(true);
    bad[0][0].rotations[0].bits = 0b111;
    assert!(!piece_set_ok(&bad));
}

fn rotated_line_set(shift: usize) -> Vec<Vec<Piece>> {
    let mut set = Vec::new();
    for i in 0..125usize {
        let mut row = Vec::new();
        for p in 0..25usize {
            let mut piece = p_piece(p);
            if i % 5 == 0 && (i / 5 + shift) % 25 == p {
                let mut r = p_piece(p);
                r.bits = 0b11111u128 << i;
                piece.rotations.push(r);
            }
            row.push(piece);
        }
        set.push(row);
    }
    set
}

#[test]
fn steps_one_at_a_time_match_many() {
    let set = p_piece_set();
    let holes = get_holes();
    let mut one = Vec::new();
    for _ in 0..12 {
        assert_eq!(solve_step(&set, &holes, &mut one, 1, true, true), Ok(false));
    }
    let mut many = Vec::new();
    assert_eq!(solve_step(&set, &holes, &mut many, 12, true, true), Ok(false));
    assert_eq!(one, many);
}

#[test]
fn rotations_are_anchored_at_their_cell() {
    let set = p_piece_set();
    for (i, row) in set.iter().enumerate() {
        for piece in row.iter() {
            for r in piece.rotations.iter() {
                assert_eq!(r.bits.trailing_zeros() as usize, i);
                assert_eq!(r.bits.count_ones(), 5);
            }
        }
    }
}

#[test]
fn hole_rule_prunes() {
    let set = line_set(true);
    let no_neighbours = vec![0u128; 125];
    let mut solution = vec![(0, 0, 0)];
    assert_eq!(solve_step(&set, &no_neighbours, &mut solution, 1, false, false), Ok(false));
    assert_eq!(solution, vec![(0, 0, 0), (5, 1, 0)]);
    let mut solution = vec![(0, 0, 0)];
    assert_eq!(
        solve_step(&set, &no_neighbours, &mut solution, 1, false, true),
        Err(SolveError::Exhausted)
    );
    assert!(solution.is_empty());
}

#[test]
fn flat_rule_prunes() {
    let set = rotated_line_set(8);
    let holes = get_holes();
    let mut solution = Vec::new();
    assert_eq!(solve_step(&set, &holes, &mut solution, 100, false, false), Ok(true));
    assert_eq!(solution.len(), 25);
    assert_eq!(solution[0], (0, 8, 0));
    let mut solution = Vec::new();
    assert_eq!(solve_step(&set, &holes, &mut solution, 100, true, false), Err(SolveError::Exhausted));
}
