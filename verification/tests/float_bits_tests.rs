use llama_q8::float_bits::{bf16_to_f32_bits, bits_gt, bits_is_nan, sample_argmax, NEG_1E10_BITS};

fn bits(v: &[f32]) -> Vec<u32> {
    v.iter().map(|x| x.to_bits()).collect()
}

#[test]
fn bits_gt_agrees_with_float_comparison() {
    let values = [
        0.0f32, -0.0, 1.0, -1.0, 1.5, -1.5, f32::INFINITY, f32::NEG_INFINITY, f32::NAN, -f32::NAN,
        f32::MIN_POSITIVE, -f32::MIN_POSITIVE, 1e-45, -1e-45, f32::MAX, f32::MIN, 3.25, -1e10,
    ];
    for &a in &values {
        for &b in &values {
            assert_eq!(bits_gt(a.to_bits(), b.to_bits()), a > b, "{} > {}", a, b);
        }
        assert_eq!(bits_is_nan(a.to_bits()), a.is_nan());
    }
    assert_eq!(NEG_1E10_BITS, (-1e10f32).to_bits());
}

#[test]
fn sample_argmax_picks_the_first_highest_logit() {
    assert_eq!(sample_argmax(&bits(&[0.1, 0.7, 0.2])), 1);
    assert_eq!(sample_argmax(&bits(&[3.0, 1.0, 3.0])), 0);
    assert_eq!(sample_argmax(&bits(&[-5.0, -2.0, -3.0])), 1);
    assert_eq!(sample_argmax(&bits(&[-0.0, 0.0])), 0);
    assert_eq!(sample_argmax(&bits(&[1.0, f32::NAN, 2.0])), 2);
    assert_eq!(sample_argmax(&bits(&[f32::NAN, 5.0, 7.0])), 0);
    assert_eq!(sample_argmax(&bits(&[4.0])), 0);
}

#[test]
fn bf16_widening() {
    let one = 1.0f32.to_bits();
    let data = [(one >> 16) as u8, (one >> 24) as u8, 0xC0, 0x40, 0x7F];
    let out = bf16_to_f32_bits(&data);
    assert_eq!(out.len(), 2);
    assert_eq!(f32::from_bits(out[0]), 1.0);
    assert_eq!(f32::from_bits(out[1]), 6.0);
}
