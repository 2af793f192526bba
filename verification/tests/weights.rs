use fuzzy_matcher::weights::{integer_sqrt, scaled_root, Config, WeightRule, SCALE};

fn rule(min_len: usize, factor: u16) -> WeightRule {
    WeightRule { min_len, factor }
}

#[test]
fn integer_sqrt_rounds_down() {
    assert_eq!(integer_sqrt(0), 0);
    assert_eq!(integer_sqrt(1), 1);
    assert_eq!(integer_sqrt(2), 1);
    assert_eq!(integer_sqrt(3), 1);
    assert_eq!(integer_sqrt(4), 2);
    assert_eq!(integer_sqrt(15), 3);
    assert_eq!(integer_sqrt(16), 4);
    assert_eq!(integer_sqrt(17), 4);
    assert_eq!(integer_sqrt(999_999), 999);
    assert_eq!(integer_sqrt(1_000_000), 1000);
    assert_eq!(integer_sqrt(u128::MAX), u64::MAX);
}

#[test]
fn integer_sqrt_brackets_its_argument() {
    let mut x: u128 = 0;
    while x < 5000 {
        let r = integer_sqrt(x) as u128;
        assert!(r * r <= x && x < (r + 1) * (r + 1));
        x += 1;
    }
}

#[test]
fn scaled_root_is_the_root_in_score_units() {
    assert_eq!(SCALE, 65536);
    assert_eq!(scaled_root(0), 0);
    assert_eq!(scaled_root(1), 65536);
    assert_eq!(scaled_root(4), 131072);
    assert_eq!(scaled_root(9), 196608);
    assert_eq!(scaled_root(2), 92681);
    assert_eq!(scaled_root(3), 113511);
    assert_eq!(scaled_root(5), 146542);
}

#[test]
fn scaled_root_is_close_to_the_real_root() {
    for len in [1usize, 2, 3, 5, 7, 9, 10, 100, 12345] {
        let exact = (len as f64).sqrt();
        let got = scaled_root(len) as f64 / SCALE as f64;
        assert!(got <= exact && exact - got < 1.0 / SCALE as f64);
    }
}

#[test]
fn scaled_root_of_the_longest_token_fits() {
    assert!(scaled_root(usize::MAX) < (1u64 << 48));
}

#[test]
fn length_gated_weights() {
    let cfg = Config::length_gated();
    assert!(cfg.fold_case());
    assert_eq!(cfg.max_distance(), 4);
    assert_eq!(cfg.weight(0, 1), 11 * 65536);
    assert_eq!(cfg.weight(0, 5), 11 * 146542);
    assert_eq!(cfg.weight(1, 5), 7 * 146542);
    assert_eq!(cfg.weight(2, 5), 5 * 146542);
    assert_eq!(cfg.weight(3, 9), 2 * 196608);
    assert_eq!(cfg.weight(4, 9), 196608);
}

#[test]
fn length_gated_weight_for_one_edit_at_length_five() {
    let cfg = Config::length_gated();
    let w = cfg.weight(1, 5);
    assert_eq!(w, 1_025_794);
    let real = 7.0 * 5.0f64.sqrt();
    assert!((w as f64 / SCALE as f64 - real).abs() < 1e-3);
}

#[test]
fn length_gates_open_at_their_lengths() {
    let cfg = Config::length_gated();
    assert_eq!(cfg.weight(0, 0), 0);
    assert!(cfg.weight(0, 1) > 0);
    assert_eq!(cfg.weight(1, 2), 0);
    assert_eq!(cfg.weight(1, 3), 7 * 113511);
    assert_eq!(cfg.weight(2, 4), 0);
    assert_eq!(cfg.weight(2, 5), 5 * 146542);
    assert_eq!(cfg.weight(3, 6), 0);
    assert!(cfg.weight(3, 7) > 0);
    assert_eq!(cfg.weight(4, 8), 0);
    assert_eq!(cfg.weight(4, 9), 196608);
}

#[test]
fn distances_beyond_the_table_weigh_nothing() {
    let cfg = Config::length_gated();
    assert_eq!(cfg.weight(5, 100), 0);
    assert_eq!(cfg.weight(u32::MAX, 100), 0);
    let flat = Config::flat();
    assert_eq!(flat.weight(3, 100), 0);
}

#[test]
fn short_token_at_distance_one_weighs_nothing() {
    let cfg = Config::length_gated();
    assert_eq!(cfg.weight(1, 2), 0);
    assert_eq!(cfg.weight(1, 1), 0);
}

#[test]
fn flat_weights() {
    let cfg = Config::flat();
    assert!(cfg.fold_case());
    assert_eq!(cfg.max_distance(), 2);
    for len in [0usize, 1, 2, 5, 1000] {
        assert_eq!(cfg.weight(0, len), 7);
        assert_eq!(cfg.weight(1, len), 3);
        assert_eq!(cfg.weight(2, len), 1);
    }
}

#[test]
fn weight_never_grows_with_distance() {
    for cfg in [Config::length_gated(), Config::flat()] {
        for len in 0..40usize {
            for near in 0..6u32 {
                for far in (near + 1)..7u32 {
                    assert!(cfg.weight(near, len) >= cfg.weight(far, len));
                }
            }
        }
    }
}

#[test]
fn config_new_accepts_a_valid_table() {
    let cfg = Config::new(false, false, vec![rule(0, 9), rule(2, 9), rule(2, 4)]).unwrap();
    assert!(!cfg.fold_case());
    assert_eq!(cfg.max_distance(), 2);
    assert_eq!(cfg.weight(0, 0), 9);
    assert_eq!(cfg.weight(1, 1), 0);
    assert_eq!(cfg.weight(1, 2), 9);
    assert_eq!(cfg.weight(2, 2), 4);
}

#[test]
fn config_new_with_scaling() {
    let cfg = Config::new(true, true, vec![rule(0, 3)]).unwrap();
    assert_eq!(cfg.max_distance(), 0);
    assert_eq!(cfg.weight(0, 4), 3 * 131072);
    assert_eq!(cfg.weight(1, 4), 0);
}

#[test]
fn config_new_refuses_an_empty_table() {
    assert!(Config::new(true, true, vec![]).is_none());
}

#[test]
fn config_new_refuses_a_growing_factor() {
    assert!(Config::new(true, true, vec![rule(0, 1), rule(0, 2)]).is_none());
}

#[test]
fn config_new_refuses_a_loosening_gate() {
    assert!(Config::new(true, true, vec![rule(3, 5), rule(2, 4)]).is_none());
}

#[test]
fn config_new_refuses_more_than_256_rows() {
    let rows: Vec<WeightRule> = (0..257).map(|_| rule(0, 1)).collect();
    assert!(Config::new(true, true, rows).is_none());
    let rows: Vec<WeightRule> = (0..256).map(|_| rule(0, 1)).collect();
    let cfg = Config::new(true, true, rows).unwrap();
    assert_eq!(cfg.max_distance(), 255);
}

#[test]
fn greatest_weight_fits() {
    let cfg = Config::new(true, true, vec![rule(0, u16::MAX)]).unwrap();
    let w = cfg.weight(0, usize::MAX);
    assert_eq!(w, u16::MAX as u64 * scaled_root(usize::MAX));
}
