use llama_q8::layout::{
    cache_offset, kv_cache_len, kv_head_for, unquantized_layout, weight_layout, LayoutError, Span,
};
use llama_q8::model::Config;

fn small(shared: bool) -> Config {
    Config {
        dim: 64,
        hidden_dim: 96,
        n_layers: 2,
        n_heads: 4,
        n_kv_heads: 2,
        vocab_size: 10,
        seq_len: 8,
        shared_classifier: shared,
    }
}

fn span(start: usize, len: usize) -> Span {
    Span { start, len }
}

#[test]
fn weight_layout_places_every_tensor() {
    let c = small(true);
    let file_len = 28 + 4 * 18368;
    let w = weight_layout(&c, file_len).unwrap();
    assert_eq!(w.token_embedding_table, span(0, 640));
    assert_eq!(w.rms_final_weight, span(18176, 64));
    assert_eq!(w.freq_cis_real, span(18240, 64));
    assert_eq!(w.freq_cis_imag, span(18304, 64));
    assert_eq!(w.wcls, None);
    assert_eq!(w.layer.len(), 2);
    let l0 = &w.layer[0];
    let l1 = &w.layer[1];
    assert_eq!(l0.rms_att_weight, span(640, 64));
    assert_eq!(l1.rms_att_weight, span(704, 64));
    assert_eq!(l1.rms_ffn_weight, span(7744, 64));
    assert_eq!(l0.wq.scales, span(768, 128));
    assert_eq!(l1.wq.scales, span(896, 128));
    assert_eq!(l0.wq.weights, span(4096, 4096));
    assert_eq!(l1.wq.weights, span(8192, 4096));
    assert_eq!(l1.wk.scales, span(3136, 64));
    assert_eq!(l1.wk.weights, span(14848, 2048));
    assert_eq!(l0.wv.scales, span(4224, 64));
    assert_eq!(l0.wo.weights, span(4 * 5632, 4096));
    assert_eq!(l0.w2.scales, span(11264, 192));
    assert_eq!(l0.w2.weights, span(46592, 6144));
    assert_eq!(l1.w3.weights, span(4 * 15104 + 6144, 6144));
}

#[test]
fn weight_layout_adds_the_classifier_when_not_shared() {
    let c = small(false);
    let w = weight_layout(&c, 28 + 4 * (18368 + 640)).unwrap();
    assert_eq!(w.wcls, Some(span(18368, 640)));
}

#[test]
fn weight_layout_rejects_a_wrong_size() {
    let c = small(true);
    assert_eq!(
        weight_layout(&c, 28 + 4 * 18368 + 4).err(),
        Some(LayoutError::SizeMismatch { expected: 18368, found: 18369 })
    );
    assert_eq!(
        weight_layout(&c, 28 + 4 * 18368 + 3).map(|w| w.layer.len()).ok(),
        Some(2)
    );
    assert_eq!(
        weight_layout(&c, 28).err(),
        Some(LayoutError::SizeMismatch { expected: 18368, found: 0 })
    );
}

#[test]
fn weight_layout_reports_overflow() {
    let mut c = small(true);
    c.vocab_size = usize::MAX / 2;
    assert_eq!(weight_layout(&c, 1000).err(), Some(LayoutError::Overflow));
    let mut c = small(true);
    c.n_layers = usize::MAX / 64 + 1;
    assert_eq!(weight_layout(&c, 1000).err(), Some(LayoutError::Overflow));
}

#[test]
fn unquantized_layout_places_every_tensor() {
    let c = small(true);
    let w = unquantized_layout(&c, 62528).unwrap();
    let starts = [0, 640, 768, 8960, 13056, 17152, 25344, 25472, 37760, 50048, 62336, 62400, 62464];
    let lens = [640, 128, 8192, 4096, 4096, 8192, 128, 12288, 12288, 12288, 64, 64, 64];
    assert_eq!(w.sections.len(), 13);
    for k in 0..13 {
        assert_eq!(w.sections[k], span(starts[k], lens[k]));
    }
    assert_eq!(w.wcls, None);
    let w = unquantized_layout(&c, 62528 + 640).unwrap();
    assert_eq!(w.wcls, Some(span(62528, 640)));
    assert_eq!(unquantized_layout(&c, 62527).err(), Some(LayoutError::Truncated));
    assert_eq!(unquantized_layout(&c, 62528 + 639).err(), Some(LayoutError::Truncated));
}

#[test]
fn kv_cache_sizes_and_offsets() {
    let c = Config {
        dim: 288,
        hidden_dim: 768,
        n_layers: 6,
        n_heads: 6,
        n_kv_heads: 6,
        vocab_size: 32000,
        seq_len: 256,
        shared_classifier: true,
    };
    assert_eq!(kv_cache_len(&c), Some(442368));
    assert_eq!(cache_offset(&c, 0, 0, 0), 0);
    assert_eq!(cache_offset(&c, 1, 2, 3), 256 * 288 + 2 * 288 + 3 * 48);
    assert_eq!(cache_offset(&c, 5, 255, 5) + 48, 442368);
    let mut big = c;
    big.n_layers = usize::MAX;
    assert_eq!(kv_cache_len(&big), None);
}

#[test]
fn cache_slots_do_not_overlap() {
    let c = Config {
        dim: 64,
        hidden_dim: 96,
        n_layers: 3,
        n_heads: 4,
        n_kv_heads: 2,
        vocab_size: 10,
        seq_len: 5,
        shared_classifier: true,
    };
    let hs = 16;
    let total = kv_cache_len(&c).unwrap();
    let mut starts = Vec::new();
    for l in 0..3 {
        for p in 0..5 {
            for h in 0..2 {
                let o = cache_offset(&c, l, p, h);
                assert!(o + hs <= total);
                starts.push(o);
            }
        }
    }
    starts.sort();
    for w in starts.windows(2) {
        assert!(w[0] + hs <= w[1]);
    }
}

#[test]
fn layer_shares_stay_inside_their_tensor() {
    let c = small(false);
    let w = weight_layout(&c, 28 + 4 * (18368 + 640)).unwrap();
    let (l0, l1) = (&w.layer[0], &w.layer[1]);
    for (a, b, scale_start, scale_end, byte_start) in [
        (l0.wq, l1.wq, 768, 1024, 4 * 1024),
        (l0.wk, l1.wk, 3072, 3200, 4 * 3200),
        (l0.wv, l1.wv, 4224, 4352, 4 * 4352),
        (l0.wo, l1.wo, 5376, 5632, 4 * 5632),
        (l0.w1, l1.w1, 7808, 8192, 4 * 8192),
        (l0.w2, l1.w2, 11264, 11648, 4 * 11648),
        (l0.w3, l1.w3, 14720, 15104, 4 * 15104),
    ] {
        assert_eq!(a.scales.start, scale_start);
        assert_eq!(a.scales.start + a.scales.len, b.scales.start);
        assert_eq!(b.scales.start + b.scales.len, scale_end);
        assert_eq!(a.weights.start, byte_start);
        assert_eq!(a.weights.start + a.weights.len, b.weights.start);
    }
}

#[test]
fn kv_head_grouping() {
    let c = Config {
        dim: 2048,
        hidden_dim: 11008,
        n_layers: 36,
        n_heads: 16,
        n_kv_heads: 2,
        vocab_size: 151936,
        seq_len: 2048,
        shared_classifier: false,
    };
    assert_eq!(kv_head_for(&c, 0), 0);
    assert_eq!(kv_head_for(&c, 7), 0);
    assert_eq!(kv_head_for(&c, 8), 1);
    assert_eq!(kv_head_for(&c, 15), 1);
}
