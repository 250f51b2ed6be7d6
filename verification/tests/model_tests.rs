use llama_q8::model::{header_bytes, i32_from_le, i32_to_le, read_config, Config};

#[test]
fn from_raw_positive_vocab_shares_the_classifier() {
    let c = Config::from_raw([288, 768, 6, 6, 6, 32000, 256]);
    assert_eq!(c.dim, 288);
    assert_eq!(c.hidden_dim, 768);
    assert_eq!(c.n_layers, 6);
    assert_eq!(c.n_heads, 6);
    assert_eq!(c.n_kv_heads, 6);
    assert_eq!(c.vocab_size, 32000);
    assert_eq!(c.seq_len, 256);
    assert!(c.shared_classifier);
}

#[test]
fn from_raw_negative_vocab_has_its_own_classifier() {
    let c = Config::from_raw([2048, 11008, 36, 16, 2, -151936, 2048]);
    assert_eq!(c.vocab_size, 151936);
    assert!(!c.shared_classifier);
    let z = Config::from_raw([1, 1, 1, 1, 1, 0, 1]);
    assert_eq!(z.vocab_size, 0);
    assert!(!z.shared_classifier);
}

#[test]
fn from_raw_casts_negative_fields() {
    let c = Config::from_raw([-1, 0, 0, 1, 1, 1, 0]);
    assert_eq!(c.dim, usize::MAX);
}

#[test]
fn le_conversions_round_trip() {
    for x in [0i32, 1, -1, 255, 256, i32::MAX, i32::MIN, -151936, 123456789] {
        let b = i32_to_le(x);
        assert_eq!(b, x.to_le_bytes());
        assert_eq!(i32_from_le(b[0], b[1], b[2], b[3]), x);
    }
}

#[test]
fn read_config_reads_a_written_header() {
    let raw = [2048, 11008, 36, 16, 2, -151936, 2048];
    let h = header_bytes(raw);
    assert_eq!(h.len(), 28);
    let mut expected = Vec::new();
    for v in raw {
        expected.extend_from_slice(&v.to_le_bytes());
    }
    assert_eq!(h, expected);
    let mut file = h.clone();
    file.extend_from_slice(&[9, 9, 9]);
    let c = read_config(&file);
    assert_eq!(c.dim, 2048);
    assert_eq!(c.n_kv_heads, 2);
    assert_eq!(c.vocab_size, 151936);
    assert!(!c.shared_classifier);
}
