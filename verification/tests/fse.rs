use embark::fse::{build_table, ll_default, ml_default, of_default, Encoder, LL_LOG, ML_LOG, OF_LOG};

/// Expected decoding tables from RFC 8478, Appendix A, as
/// `(symbol, number_of_bits, baseline)` indexed by state.
const LITERAL_LENGTH_TABLE: [(u16, u32, u16); 64] = [
    (0, 4, 0), (0, 4, 16), (1, 5, 32), (3, 5, 0), (4, 5, 0), (6, 5, 0), (7, 5,
    0), (9, 5, 0), (10, 5, 0), (12, 5, 0), (14, 6, 0), (16, 5, 0), (18, 5, 0),
    (19, 5, 0), (21, 5, 0), (22, 5, 0), (24, 5, 0), (25, 5, 32), (26, 5, 0),
    (27, 6, 0), (29, 6, 0), (31, 6, 0), (0, 4, 32), (1, 4, 0), (2, 5, 0), (4, 5,
    32), (5, 5, 0), (7, 5, 32), (8, 5, 0), (10, 5, 32), (11, 5, 0), (13, 6, 0),
    (16, 5, 32), (17, 5, 0), (19, 5, 32), (20, 5, 0), (22, 5, 32), (23, 5, 0),
    (25, 4, 0), (25, 4, 16), (26, 5, 32), (28, 6, 0), (30, 6, 0), (0, 4, 48),
    (1, 4, 16), (2, 5, 32), (3, 5, 32), (5, 5, 32), (6, 5, 32), (8, 5, 32), (9,
    5, 32), (11, 5, 32), (12, 5, 32), (15, 6, 0), (17, 5, 32), (18, 5, 32), (20,
    5, 32), (21, 5, 32), (23, 5, 32), (24, 5, 32), (35, 6, 0), (34, 6, 0), (33,
    6, 0), (32, 6, 0)
];

const MATCH_LENGTH_TABLE: [(u16, u32, u16); 64] = [
    (0, 6, 0), (1, 4, 0), (2, 5, 32), (3, 5, 0), (5, 5, 0), (6, 5, 0), (8, 5,
    0), (10, 6, 0), (13, 6, 0), (16, 6, 0), (19, 6, 0), (22, 6, 0), (25, 6, 0),
    (28, 6, 0), (31, 6, 0), (33, 6, 0), (35, 6, 0), (37, 6, 0), (39, 6, 0), (41,
    6, 0), (43, 6, 0), (45, 6, 0), (1, 4, 16), (2, 4, 0), (3, 5, 32), (4, 5, 0),
    (6, 5, 32), (7, 5, 0), (9, 6, 0), (12, 6, 0), (15, 6, 0), (18, 6, 0), (21,
    6, 0), (24, 6, 0), (27, 6, 0), (30, 6, 0), (32, 6, 0), (34, 6, 0), (36, 6,
    0), (38, 6, 0), (40, 6, 0), (42, 6, 0), (44, 6, 0), (1, 4, 32), (1, 4, 48),
    (2, 4, 16), (4, 5, 32), (5, 5, 32), (7, 5, 32), (8, 5, 32), (11, 6, 0), (14,
    6, 0), (17, 6, 0), (20, 6, 0), (23, 6, 0), (26, 6, 0), (29, 6, 0), (52, 6,
    0), (51, 6, 0), (50, 6, 0), (49, 6, 0), (48, 6, 0), (47, 6, 0), (46, 6, 0)
];

const OFFSET_TABLE: [(u16, u32, u16); 32] = [
    (0, 5, 0), (6, 4, 0), (9, 5, 0), (15, 5, 0), (21, 5, 0), (3, 5, 0), (7, 4,
    0), (12, 5, 0), (18, 5, 0), (23, 5, 0), (5, 5, 0), (8, 4, 0), (14, 5, 0),
    (20, 5, 0), (2, 5, 0), (7, 4, 16), (11, 5, 0), (17, 5, 0), (22, 5, 0), (4,
    5, 0), (8, 4, 16), (13, 5, 0), (19, 5, 0), (1, 5, 0), (6, 4, 16), (10, 5,
    0), (16, 5, 0), (28, 5, 0), (27, 5, 0), (26, 5, 0), (25, 5, 0), (24, 5, 0)
];


fn check(dist: &[i16], log: u32, expected: &[(u16, u32, u16)]) {
    let table = build_table(&dist.to_vec(), log);
    for (state, (cell, want)) in table.iter().zip(expected).enumerate() {
        assert_eq!((cell.symbol, cell.bits, cell.baseline), *want, "state {state}");
    }
    assert_eq!(table.len(), expected.len());
}

#[test]
fn predefined_tables_match_the_rfc() {
    check(&ll_default(), LL_LOG, &LITERAL_LENGTH_TABLE);
    check(&ml_default(), ML_LOG, &MATCH_LENGTH_TABLE);
    check(&of_default(), OF_LOG, &OFFSET_TABLE);
}

#[test]
fn steps_invert_the_tables() {
    for (dist, log) in [(ll_default(), LL_LOG), (ml_default(), ML_LOG), (of_default(), OF_LOG)] {
        let table = build_table(&dist, log);
        let encoder = Encoder::new(&dist, log);
        let size = 1u16 << log;
        for (symbol, &p) in dist.iter().enumerate() {
            if p == 0 {
                continue;
            }
            for target in 0..size {
                let step = encoder.step(symbol as u32, target);
                let cell = table[step.state as usize];
                assert_eq!(cell.symbol as usize, symbol);
                assert_eq!(cell.baseline, step.baseline);
                assert_eq!(cell.bits, step.bits);
                assert!(target >= step.baseline);
                assert!(u32::from(target - step.baseline) < 1 << step.bits);
            }
            assert_eq!(table[encoder.initial_state(symbol as u32) as usize].symbol as usize, symbol);
        }
    }
}

#[test]
fn the_encoder_keeps_the_table_it_inverts() {
    let dist = of_default();
    let encoder = Encoder::new(&dist, OF_LOG);
    assert_eq!(encoder.table, build_table(&dist, OF_LOG));
    assert_eq!(encoder.size, 32);
}
