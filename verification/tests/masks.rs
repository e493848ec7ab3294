
use kramer_core::sliders::{rook_mask, bishop_mask, rook_masks, bishop_masks, rook_attacks, rook_attacks_on_the_fly, bishop_attacks_on_the_fly};
use kramer_core::magics::{ROOK_MAGICS, BISHOP_MAGICS};
use kramer_core::magic_tables::{AlignedBishopTable, AlignedRookTable};


fn bb(rank: u8, file: u8) -> u64 {
    1u64 << (rank * 8 + file)
}

#[test]
fn rook_d4_north_ray() {
    let mask = rook_mask(3 * 8 + 3);
    assert!(mask & bb(4, 3) != 0);
    assert!(mask & bb(5, 3) != 0);
    assert!(mask & bb(6, 3) != 0);
}

#[test]
fn rook_d4_south_ray() {
    let mask = rook_mask(3 * 8 + 3);
    assert!(mask & bb(2, 3) != 0);
    assert!(mask & bb(1, 3) != 0);
}

#[test]
fn rook_d4_east_ray() {
    let mask = rook_mask(3 * 8 + 3);
    assert!(mask & bb(3, 4) != 0);
    assert!(mask & bb(3, 5) != 0);
    assert!(mask & bb(3, 6) != 0);
}

#[test]
fn rook_d4_west_ray() {
    let mask = rook_mask(3 * 8 + 3);
    assert!(mask & bb(3, 2) != 0);
    assert!(mask & bb(3, 1) != 0);
}

#[test]
fn rook_d4_no_edge_squares() {
    let mask = rook_mask(3 * 8 + 3);
    for i in 0..8u8 {
        assert_eq!(mask & bb(0, i), 0, "rank 0 file {} should be excluded", i);
        assert_eq!(mask & bb(7, i), 0, "rank 7 file {} should be excluded", i);
        assert_eq!(mask & bb(i, 0), 0, "file 0 rank {} should be excluded", i);
        assert_eq!(mask & bb(i, 7), 0, "file 7 rank {} should be excluded", i);
    }
}

#[test]
fn rook_no_edge_for_all_squares() {
    for sq in 0u8..64 {
        let rank = sq / 8;
        let file = sq % 8;
        let mask = rook_mask(sq);

        assert_eq!(
            mask & bb(7, file),
            0,
            "sq={} north ray must not reach rank 7",
            sq
        );
        assert_eq!(
            mask & bb(0, file),
            0,
            "sq={} south ray must not reach rank 0",
            sq
        );
        assert_eq!(
            mask & bb(rank, 7),
            0,
            "sq={} east ray must not reach file 7",
            sq
        );
        assert_eq!(
            mask & bb(rank, 0),
            0,
            "sq={} west ray must not reach file 0",
            sq
        );
    }
}

#[test]
fn rook_source_square_never_set() {
    for sq in 0u8..64 {
        let mask = rook_mask(sq);
        assert_eq!(
            mask & (1u64 << sq),
            0,
            "sq={} should not include itself",
            sq
        );
    }
}

#[test]
fn rook_corner_a1() {
    let mask = rook_mask(0);
    assert!(mask & bb(1, 0) != 0);
    assert!(mask & bb(2, 0) != 0);
    assert!(mask & bb(6, 0) != 0);
    assert!(mask & bb(0, 1) != 0);
    assert!(mask & bb(0, 2) != 0);
    assert!(mask & bb(0, 6) != 0);
    assert_eq!(mask & bb(7, 0), 0);
    assert_eq!(mask & bb(0, 7), 0);
    assert_eq!(mask.count_ones(), 12);
}

#[test]
fn rook_corner_h8() {
    let mask = rook_mask(7 * 8 + 7);
    assert!(mask & bb(6, 7) != 0);
    assert!(mask & bb(1, 7) != 0);
    assert!(mask & bb(7, 6) != 0);
    assert!(mask & bb(7, 1) != 0);
    assert_eq!(mask.count_ones(), 12);
}

#[test]
fn rook_d4_exact_bit_count() {
    let mask = rook_mask(3 * 8 + 3);
    assert_eq!(mask.count_ones(), 10);
}

#[test]
fn rook_e5_exact_bit_count() {
    let mask = rook_mask(4 * 8 + 4);
    assert_eq!(mask.count_ones(), 10);
}

#[test]
fn rook_a1_exact_bit_count() {
    let mask = rook_mask(0);
    assert_eq!(mask.count_ones(), 12);
}

#[test]
fn rook_d1_exact_bit_count() {
    let mask = rook_mask(3);
    assert_eq!(mask.count_ones(), 11);
}

#[test]
fn rook_only_rank_and_file_bits() {
    for sq in 0u8..64 {
        let rank = sq / 8;
        let file = sq % 8;
        let mask = rook_mask(sq);
        for bit in 0u8..64 {
            if mask & (1u64 << bit) != 0 {
                let r = bit / 8;
                let f = bit % 8;
                assert!(
                    r == rank || f == file,
                    "sq={}: bit {} at ({},{}) is not on the same rank or file",
                    sq,
                    bit,
                    r,
                    f
                );
            }
        }
    }
}

#[test]
fn rook_mask_table_matches_function() {
    for sq in 0u8..64 {
        assert_eq!(
            rook_masks()[sq as usize],
            rook_mask(sq),
            "ROOK_MASK[{}] does not match rook_mask({})",
            sq,
            sq
        );
    }
}

#[test]
fn rook_mask_table_no_all_zero_squares() {
    for sq in 0..64 {
        assert_ne!(rook_masks()[sq], 0, "ROOK_MASK[{}] should not be zero", sq);
    }
}


#[test]
fn bishop_d4_ne_diagonal() {
    let mask = bishop_mask(3 * 8 + 3);
    assert!(mask & bb(4, 4) != 0);
    assert!(mask & bb(5, 5) != 0);
    assert!(mask & bb(6, 6) != 0);
}

#[test]
fn bishop_d4_nw_diagonal() {
    let mask = bishop_mask(3 * 8 + 3);
    assert!(mask & bb(4, 2) != 0);
    assert!(mask & bb(5, 1) != 0);
}

#[test]
fn bishop_d4_se_diagonal() {
    let mask = bishop_mask(3 * 8 + 3);
    assert!(mask & bb(2, 4) != 0);
    assert!(mask & bb(1, 5) != 0);
}

#[test]
fn bishop_d4_sw_diagonal() {
    let mask = bishop_mask(3 * 8 + 3);
    assert!(mask & bb(2, 2) != 0);
    assert!(mask & bb(1, 1) != 0);
}

#[test]
fn bishop_d4_no_edge_squares() {
    let mask = bishop_mask(3 * 8 + 3);
    for i in 0..8u8 {
        assert_eq!(mask & bb(0, i), 0, "rank 0 file {} should be excluded", i);
        assert_eq!(mask & bb(7, i), 0, "rank 7 file {} should be excluded", i);
        assert_eq!(mask & bb(i, 0), 0, "file 0 rank {} should be excluded", i);
        assert_eq!(mask & bb(i, 7), 0, "file 7 rank {} should be excluded", i);
    }
}

#[test]
fn bishop_no_edge_for_all_squares() {
    for sq in 0u8..64 {
        let mask = bishop_mask(sq);
        for i in 0..8u8 {
            assert_eq!(
                mask & bb(0, i),
                0,
                "sq={} rank 0 file {} should be excluded",
                sq,
                i
            );
            assert_eq!(
                mask & bb(7, i),
                0,
                "sq={} rank 7 file {} should be excluded",
                sq,
                i
            );
            assert_eq!(
                mask & bb(i, 0),
                0,
                "sq={} file 0 rank {} should be excluded",
                sq,
                i
            );
            assert_eq!(
                mask & bb(i, 7),
                0,
                "sq={} file 7 rank {} should be excluded",
                sq,
                i
            );
        }
    }
}

#[test]
fn bishop_source_square_never_set() {
    for sq in 0u8..64 {
        let mask = bishop_mask(sq);
        assert_eq!(
            mask & (1u64 << sq),
            0,
            "sq={} should not include itself",
            sq
        );
    }
}

#[test]
fn bishop_corner_a1() {
    let mask = bishop_mask(0);
    assert!(mask & bb(1, 1) != 0);
    assert!(mask & bb(2, 2) != 0);
    assert!(mask & bb(3, 3) != 0);
    assert!(mask & bb(4, 4) != 0);
    assert!(mask & bb(5, 5) != 0);
    assert!(mask & bb(6, 6) != 0);
    assert_eq!(mask.count_ones(), 6);
}

#[test]
fn bishop_corner_h1() {
    let mask = bishop_mask(7);
    assert!(mask & bb(1, 6) != 0);
    assert!(mask & bb(2, 5) != 0);
    assert!(mask & bb(3, 4) != 0);
    assert!(mask & bb(4, 3) != 0);
    assert!(mask & bb(5, 2) != 0);
    assert!(mask & bb(6, 1) != 0);
    assert_eq!(mask.count_ones(), 6);
}

#[test]
fn bishop_corner_a8() {
    let mask = bishop_mask(7 * 8);
    assert!(mask & bb(6, 1) != 0);
    assert!(mask & bb(5, 2) != 0);
    assert!(mask & bb(4, 3) != 0);
    assert!(mask & bb(3, 4) != 0);
    assert!(mask & bb(2, 5) != 0);
    assert!(mask & bb(1, 6) != 0);
    assert_eq!(mask.count_ones(), 6);
}

#[test]
fn bishop_corner_h8() {
    let mask = bishop_mask(7 * 8 + 7);
    assert!(mask & bb(6, 6) != 0);
    assert!(mask & bb(5, 5) != 0);
    assert!(mask & bb(4, 4) != 0);
    assert!(mask & bb(3, 3) != 0);
    assert!(mask & bb(2, 2) != 0);
    assert!(mask & bb(1, 1) != 0);
    assert_eq!(mask.count_ones(), 6);
}

#[test]
fn bishop_d4_exact_bit_count() {
    let mask = bishop_mask(3 * 8 + 3);
    assert_eq!(mask.count_ones(), 9);
}

#[test]
fn bishop_e4_exact_bit_count() {
    let mask = bishop_mask(3 * 8 + 4);
    assert_eq!(mask.count_ones(), 9);
}

#[test]
fn bishop_center_e5_exact_bit_count() {
    let mask = bishop_mask(4 * 8 + 4);
    assert_eq!(mask.count_ones(), 9);
}

#[test]
fn bishop_only_diagonal_bits() {
    for sq in 0u8..64 {
        let rank = sq / 8;
        let file = sq % 8;
        let mask = bishop_mask(sq);
        for bit in 0u8..64 {
            if mask & (1u64 << bit) != 0 {
                let r = bit / 8;
                let f = bit % 8;
                let dr = (r as i8 - rank as i8).abs();
                let df = (f as i8 - file as i8).abs();
                assert_eq!(
                    dr, df,
                    "sq={}: bit {} at ({},{}) is not on a diagonal",
                    sq, bit, r, f
                );
            }
        }
    }
}

#[test]
fn bishop_masks_table_matches_function() {
    for sq in 0u8..64 {
        assert_eq!(
            bishop_masks()[sq as usize],
            bishop_mask(sq),
            "bishop_masks()[{}] does not match bishop_mask({})",
            sq,
            sq
        );
    }
}

#[test]
fn bishop_masks_table_no_all_zero_inner_squares() {
    for rank in 1..7u8 {
        for file in 1..7u8 {
            let sq = rank * 8 + file;
            assert_ne!(
                bishop_masks()[sq as usize], 0,
                "sq={} ({},{}) should have a non-zero mask",
                sq, rank, file
            );
        }
    }
}


#[test]
fn verify_rook_magics() {
    let rook_magics: [u64; 64] = ROOK_MAGICS;
    #[allow(clippy::needless_range_loop)]
    for sq in 0..64usize {
        let mask = rook_mask(sq as u8);
        let bits = mask.count_ones() as u8;
        let shift = 64 - bits;
        let table_size = 1usize << bits;

        // build the table for this square
        let mut table = vec![u64::MAX; table_size];

        let mut subset = 0u64;
        loop {
            let attacks = rook_attacks_on_the_fly(sq as u8, subset);
            let idx = (subset.wrapping_mul(rook_magics[sq]) >> shift) as usize;

            if table[idx] == u64::MAX {
                table[idx] = attacks;
            } else if table[idx] != attacks {
                panic!(
                    "ROOK collision at sq={} subset={:#018x} idx={} expected={:#018x} got={:#018x}",
                    sq, subset, idx, attacks, table[idx]
                );
            }

            subset = subset.wrapping_sub(mask) & mask;
            if subset == 0 {
                break;
            }
        }
    }

    println!("ROOK_MAGICS: all 64 squares ok");
}

#[test]
fn verify_bishop_magics() {
    let bishop_magics: [u64; 64] = BISHOP_MAGICS;

    #[allow(clippy::needless_range_loop)]
    for sq in 0..64usize {
        let mask = bishop_mask(sq as u8);
        let bits = mask.count_ones() as u8;
        let shift = 64 - bits;
        let table_size = 1usize << bits;

        let mut table = vec![u64::MAX; table_size];

        let mut subset = 0u64;
        loop {
            let attacks = bishop_attacks_on_the_fly(sq as u8, subset);
            let idx = (subset.wrapping_mul(bishop_magics[sq]) >> shift) as usize;

            if table[idx] == u64::MAX {
                table[idx] = attacks;
            } else if table[idx] != attacks {
                panic!(
                    "BISHOP collision at sq={} subset={:#018x} idx={} expected={:#018x} got={:#018x}",
                    sq, subset, idx, attacks, table[idx]
                );
            }

            subset = subset.wrapping_sub(mask) & mask;
            if subset == 0 {
                break;
            }
        }
    }

    println!("BISHOP_MAGICS: all 64 squares ok");
}

#[test]
fn rook_table_sanity() {
    for sq in 0..64usize {
        let expected = rook_attacks_on_the_fly(sq as u8, 0);
        let got = rook_attacks(sq, 0);
        assert_eq!(expected, got, "mismatch at sq={} with no blockers", sq);
    }
}

#[test]
fn magic_tables_match_rays() {
    let rooks = AlignedRookTable::build().expect("rook magics collide");
    let bishops = AlignedBishopTable::build().expect("bishop magics collide");
    let mut x: u64 = 0x9E37_79B9_7F4A_7C15;
    for sq in 0..64usize {
        for _ in 0..64 {
            x ^= x << 13;
            x ^= x >> 7;
            x ^= x << 17;
            let occ = x & (x >> 3);
            assert_eq!(rooks.attacks(sq, occ), rook_attacks_on_the_fly(sq as u8, occ), "rook sq={sq} occ={occ:#x}");
            assert_eq!(bishops.attacks(sq, occ), bishop_attacks_on_the_fly(sq as u8, occ), "bishop sq={sq} occ={occ:#x}");
        }
    }
}
