use boardgames::symmetry::{ColMirror, D4Dyn, D4Symmetry, KleinFour, SymmetryGroup};

/// Verify that flip_cols, flip_rows, transpose are bijections on [0, S*S).
fn check_permutations<const S: usize>() {
    let n = S * S;
    for (name, perm) in [
        ("flip_cols", D4Symmetry::<S>::flip_cols as fn(usize) -> usize),
        ("flip_rows", D4Symmetry::<S>::flip_rows as fn(usize) -> usize),
        ("transpose", D4Symmetry::<S>::transpose as fn(usize) -> usize),
    ] {
        let mut seen = vec![false; n];
        for i in 0..n {
            let v = perm(i);
            assert!(v < n, "{name}[{i}] = {v} out of range");
            assert!(!seen[v], "{name} is not injective (dupe at {v})");
            seen[v] = true;
        }
        assert!(seen.iter().all(|&x| x), "{name} is not surjective");
    }
}

#[test]
fn test_permutations_3x3() {
    check_permutations::<3>();
}

#[test]
fn test_permutations_8x8() {
    check_permutations::<8>();
}

#[test]
fn test_index_symmetries_in_range() {
    for i in 0..9 {
        let s = D4Symmetry::<3>::index_symmetries(i);
        for &v in &s {
            assert!(v < 9, "index_symmetries({i}) has out-of-range {v}");
        }
    }
    for i in 0..64 {
        let s = D4Symmetry::<8>::index_symmetries(i);
        for &v in &s {
            assert!(v < 64, "index_symmetries({i}) has out-of-range {v}");
        }
    }
}

#[test]
fn test_invert_symmetry_is_inverse() {
    for i in 0..9 {
        let s = D4Symmetry::<3>::index_symmetries(i);
        for (sym_idx, &s_i) in s.iter().enumerate() {
            let back = D4Symmetry::<3>::invert_symmetry(s_i, sym_idx);
            assert_eq!(back, i, "invert_symmetry({s_i}, {sym_idx}) = {back}, expected {i}");
        }
    }
    for i in 0..64 {
        let s = D4Symmetry::<8>::index_symmetries(i);
        for (sym_idx, &s_i) in s.iter().enumerate() {
            let back = D4Symmetry::<8>::invert_symmetry(s_i, sym_idx);
            assert_eq!(back, i, "invert_symmetry({s_i}, {sym_idx}) = {back}, expected {i}");
        }
    }
}

#[test]
fn test_apply_to_bits_inverse() {
    const INV: [usize; 8] = [0, 1, 2, 3, 4, 6, 5, 7];

    for board in [0b_100_000_001u64, 0b_010_010_010, 0b_001_000_100] {
        for (sym_idx, &inv) in INV.iter().enumerate() {
            let transformed = D4Symmetry::<3>::apply_to_bits(board, sym_idx);
            let back = D4Symmetry::<3>::apply_to_bits(transformed, inv);
            assert_eq!(back, board, "sym {sym_idx} then inv {inv} on {board:#x} gave {back:#x}");
        }
    }

    let board = (1 << 28) | (1 << 35);
    for (sym_idx, &inv) in INV.iter().enumerate() {
        let transformed = D4Symmetry::<8>::apply_to_bits(board, sym_idx);
        let back = D4Symmetry::<8>::apply_to_bits(transformed, inv);
        assert_eq!(back, board, "sym {sym_idx} then inv {inv} on {board:#x} gave {back:#x}");
    }
}

fn check_symmetry_group_round_trip<G: SymmetryGroup>(cells: usize) {
    for i in 0..cells {
        for sym in 0..G::ORDER {
            let image = G::apply_index(i, sym);
            assert!(image < cells, "apply_index({i}, {sym}) = {image} out of range");
            let back = G::invert_index(image, sym);
            assert_eq!(back, i, "invert_index(apply_index({i}, {sym}), {sym}) = {back}");
        }
    }
}

#[test]
fn test_d4_symmetry_group_round_trip() {
    check_symmetry_group_round_trip::<D4Symmetry<3>>(9);
    check_symmetry_group_round_trip::<D4Symmetry<8>>(64);
}

#[test]
fn test_klein_four_symmetry_group_round_trip() {
    check_symmetry_group_round_trip::<KleinFour<3, 3>>(9);
    check_symmetry_group_round_trip::<KleinFour<3, 5>>(15);
    check_symmetry_group_round_trip::<KleinFour<8, 8>>(64);
}

#[test]
fn test_klein_four_permutations_rectangular() {
    let (rows, cols) = (3usize, 5usize);
    let n = rows * cols;
    for (name, perm) in [
        ("flip_cols", KleinFour::<3, 5>::flip_cols as fn(usize) -> usize),
        ("flip_rows", KleinFour::<3, 5>::flip_rows as fn(usize) -> usize),
    ] {
        let mut seen = vec![false; n];
        for i in 0..n {
            let v = perm(i);
            assert!(v < n, "{name}[{i}] = {v} out of range");
            assert!(!seen[v], "{name} is not injective (dupe at {v})");
            seen[v] = true;
        }
        assert!(seen.iter().all(|&x| x), "{name} is not surjective");
    }
}

#[test]
fn test_klein_four_invert_symmetry_is_inverse() {
    for i in 0..15 {
        let s = KleinFour::<3, 5>::index_symmetries(i);
        for (sym_idx, &s_i) in s.iter().enumerate() {
            let back = KleinFour::<3, 5>::invert_symmetry(s_i, sym_idx);
            assert_eq!(back, i, "invert_symmetry({s_i}, {sym_idx}) = {back}, expected {i}");
        }
    }
}

#[test]
fn test_d4_dyn_matches_d4_symmetry() {
    for size in [3usize, 8, 13, 19] {
        let dyn_sym = D4Dyn::new(size);
        for i in 0..(size * size) {
            let expected = match size {
                3 => D4Symmetry::<3>::index_symmetries(i).to_vec(),
                8 => D4Symmetry::<8>::index_symmetries(i).to_vec(),
                13 => D4Symmetry::<13>::index_symmetries(i).to_vec(),
                19 => D4Symmetry::<19>::index_symmetries(i).to_vec(),
                _ => unreachable!(),
            };
            assert_eq!(dyn_sym.index_symmetries(i).to_vec(), expected);
        }
    }
}

#[test]
fn test_d4_dyn_invert_symmetry_is_inverse() {
    for size in [3usize, 9, 19] {
        let sym = D4Dyn::new(size);
        for i in 0..(size * size) {
            let s = sym.index_symmetries(i);
            for (sym_idx, &s_i) in s.iter().enumerate() {
                let back = sym.invert_symmetry(s_i, sym_idx);
                assert_eq!(back, i, "invert_symmetry({s_i}, {sym_idx}) = {back}, expected {i}");
            }
        }
    }
}

#[test]
fn test_d4_dyn_permutations() {
    for size in [3usize, 9, 19] {
        let sym = D4Dyn::new(size);
        let n = size * size;
        for sym_idx in 0..8 {
            let mut seen = vec![false; n];
            for i in 0..n {
                let v = sym.index_symmetries(i)[sym_idx];
                assert!(v < n, "sym {sym_idx}[{i}] = {v} out of range");
                assert!(!seen[v], "sym {sym_idx} is not injective (dupe at {v})");
                seen[v] = true;
            }
            assert!(seen.iter().all(|&x| x), "sym {sym_idx} is not surjective");
        }
    }
}

#[test]
fn test_col_mirror_symmetry_group_round_trip() {
    check_symmetry_group_round_trip::<ColMirror<7>>(42);
    check_symmetry_group_round_trip::<ColMirror<5>>(20);
}

#[test]
fn test_col_mirror_permutations_rectangular() {
    let (rows, cols) = (6usize, 7usize);
    let n = rows * cols;
    let mut seen = vec![false; n];
    for i in 0..n {
        let v = ColMirror::<7>::flip_cols(i);
        assert!(v < n, "flip_cols[{i}] = {v} out of range");
        assert!(!seen[v], "flip_cols is not injective (dupe at {v})");
        seen[v] = true;
    }
    assert!(seen.iter().all(|&x| x), "flip_cols is not surjective");
}

#[test]
fn test_col_mirror_is_klein_four_subgroup() {
    for i in 0..(6 * 7) {
        let k4 = KleinFour::<6, 7>::index_symmetries(i);
        let cm = ColMirror::<7>::index_symmetries(i);
        assert_eq!(cm, [k4[0], k4[1]]);
    }
}

#[test]
fn test_klein_four_is_d4_subgroup_on_square_board() {
    for i in 0..9 {
        let d4 = D4Symmetry::<3>::index_symmetries(i);
        let k4 = KleinFour::<3, 3>::index_symmetries(i);
        assert_eq!(k4, [d4[0], d4[1], d4[2], d4[4]]);
    }
}

// Own tests: the packed 3x3 helpers and the transform/invert word pair.

#[test]
fn packed_canonical_symmetry_picks_the_smallest_image() {
    let board: u32 = 2 | (1 << 16); // cell 0 holds 2, cell 8 holds 1
    let mut images = [0u32; 8];
    D4Symmetry::<3>::packed_board_symmetries(board, &mut images);
    let best = D4Symmetry::<3>::packed_canonical_symmetry(board);
    let min = *images.iter().min().unwrap();
    assert_eq!(images[best], min);
    assert!(images[..best].iter().all(|&v| v > min));
    assert_eq!(images[0], board);
}

#[test]
fn transform_then_invert_words_is_identity() {
    let d4 = D4Dyn::new(9);
    let words: [u64; 2] = [0xDEAD_BEEF_1234_5678, 0x1_0FF];
    for sym in 0..8 {
        let t = boardgames::symmetry::transform_words(words, &d4, sym);
        let back = boardgames::symmetry::invert_words(t, &d4, sym);
        assert_eq!(back, words, "sym {sym}");
    }
}

#[test]
fn packed_canonical_symmetry_of_an_edge_cell() {
    let mut syms = [0u32; 8];
    D4Symmetry::<3>::packed_board_symmetries(1 << 4, &mut syms);
    assert_eq!(syms, [16, 1, 65536, 4096, 4096, 1, 65536, 16]);
    assert_eq!(syms[0], 1 << 4);
    assert_eq!(D4Symmetry::<3>::packed_canonical_symmetry(1 << 4), 1);
}

#[test]
fn apply_to_bits_keeps_the_number_of_set_cells() {
    let board: u64 = 0b100_000_001;
    assert_eq!(D4Symmetry::<3>::apply_to_bits(board, 1), 0b001_000_100);
    for sym in 0..8 {
        assert_eq!(D4Symmetry::<3>::apply_to_bits(board, sym).count_ones(), board.count_ones());
    }
}
