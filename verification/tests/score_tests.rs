use fuzzy_match::score::score_millionths_exec;

#[test]
fn score_decoding_is_exact_on_known_values() {
    assert_eq!(score_millionths_exec((0.0f64).to_bits()), 0);
    assert_eq!(score_millionths_exec((0.25f64).to_bits()), 250_000);
    assert_eq!(score_millionths_exec((0.5f64).to_bits()), 500_000);
    assert_eq!(score_millionths_exec((0.4f64).to_bits()), 400_000);
    assert_eq!(score_millionths_exec((0.001f64).to_bits()), 1_000);
    assert_eq!(score_millionths_exec((1.0f64).to_bits()), 1_000_000);
}

#[test]
fn score_decoding_floors() {
    assert_eq!(score_millionths_exec((0.1234567f64).to_bits()), 123_456);
    assert_eq!(score_millionths_exec((0.4999999f64).to_bits()), 499_999);
    assert_eq!(score_millionths_exec((0.5000001f64).to_bits()), 500_000);
}

#[test]
fn score_decoding_clamps() {
    assert_eq!(score_millionths_exec((2.5f64).to_bits()), 1_000_000);
    assert_eq!(score_millionths_exec(f64::INFINITY.to_bits()), 1_000_000);
    assert_eq!(score_millionths_exec(f64::NAN.to_bits()), 1_000_000);
    assert_eq!(score_millionths_exec((-0.5f64).to_bits()), 0);
    assert_eq!(score_millionths_exec((1e-300f64).to_bits()), 0);
    assert_eq!(score_millionths_exec((4.9e-324f64).to_bits()), 0);
}

#[test]
fn tiny_normal_scores_floor_to_zero() {
    assert_eq!(score_millionths_exec((1e-7f64).to_bits()), 0);
    // The double nearest to 1e-6 sits just below it, so it floors to 0...
    assert_eq!(score_millionths_exec((1e-6f64).to_bits()), 0);
    // ...while an exactly representable value just above a millionth
    // floors to 1.
    assert_eq!(score_millionths_exec((0.0000019073486328125f64).to_bits()), 1);
}
