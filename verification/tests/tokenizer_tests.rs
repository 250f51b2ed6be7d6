use llama_q8::tokenizer::{Tokenizer, TokenizerError, byte_fallback, hex_pair, BOS_ID};

fn entry(out: &mut Vec<u8>, score: f32, piece: &[u8]) {
    out.extend_from_slice(&score.to_le_bytes());
    out.extend_from_slice(&(piece.len() as i32).to_le_bytes());
    out.extend_from_slice(piece);
}

fn vocab_file(entries: &[(&[u8], f32)]) -> Vec<u8> {
    let mut out = Vec::new();
    out.extend_from_slice(&16u32.to_le_bytes());
    for (piece, score) in entries {
        entry(&mut out, *score, piece);
    }
    out
}

fn sample_vocab() -> Vec<(&'static [u8], f32)> {
    vec![
        (b"<unk>", 0.0),
        (b"<s>", 0.0),
        (b"a", -1.0),
        (b"b", -1.0),
        (b"c", -1.0),
        (b"ab", 1.0),
        (b"bc", 5.0),
        (b"abc", 9.0),
        (b"<0x0A>", -1.0),
        (b"d", -1.0),
        (b"dd", 2.0),
    ]
}

fn sample() -> Tokenizer {
    let entries = sample_vocab();
    Tokenizer::from_bytes(&vocab_file(&entries), entries.len()).unwrap()
}

fn spell(t: &Tokenizer, toks: &[usize]) -> Vec<u8> {
    let mut out = Vec::new();
    for &id in toks {
        out.extend_from_slice(&t.piece(id));
    }
    out
}

#[test]
fn from_bytes_reads_every_entry() {
    let t = sample();
    assert_eq!(t.vocab_len(), 11);
    assert_eq!(t.find_token(b"bc"), Some(6));
    assert_eq!(t.find_token(b"zz"), None);
}

#[test]
fn from_bytes_pads_a_short_file_with_unk() {
    let entries: Vec<(&[u8], f32)> = vec![(b"x", 0.5), (b"y", 0.25)];
    let mut data = vocab_file(&entries);
    data.extend_from_slice(&[1, 2, 3]);
    let t = Tokenizer::from_bytes(&data, 5).unwrap();
    assert_eq!(t.vocab_len(), 5);
    assert_eq!(t.piece(2), b"<unk>".to_vec());
    assert_eq!(t.piece(4), b"<unk>".to_vec());
    assert_eq!(t.find_token(b"y"), Some(1));
    assert_eq!(t.find_token(b"<unk>"), Some(2));
}

#[test]
fn from_bytes_rejects_a_short_header() {
    assert_eq!(Tokenizer::from_bytes(&[1, 2, 3], 4).err(), Some(TokenizerError::Header));
}

#[test]
fn from_bytes_rejects_a_cut_length_field() {
    let mut data = vocab_file(&[(b"x", 0.5)]);
    data.extend_from_slice(&1.0f32.to_le_bytes());
    data.extend_from_slice(&[1, 0]);
    assert_eq!(Tokenizer::from_bytes(&data, 2).err(), Some(TokenizerError::Length));
}

#[test]
fn from_bytes_rejects_cut_piece_bytes() {
    let mut data = vocab_file(&[(b"x", 0.5)]);
    data.extend_from_slice(&1.0f32.to_le_bytes());
    data.extend_from_slice(&5i32.to_le_bytes());
    data.extend_from_slice(b"abc");
    assert_eq!(Tokenizer::from_bytes(&data, 2).err(), Some(TokenizerError::TokenBytes));
}

#[test]
fn from_bytes_rejects_a_negative_length() {
    let mut data = vocab_file(&[]);
    data.extend_from_slice(&1.0f32.to_le_bytes());
    data.extend_from_slice(&(-1i32).to_le_bytes());
    data.extend_from_slice(b"abcdef");
    assert_eq!(Tokenizer::from_bytes(&data, 1).err(), Some(TokenizerError::TokenBytes));
}

#[test]
fn from_bytes_with_zero_entries() {
    let t = Tokenizer::from_bytes(&16u32.to_le_bytes(), 0).unwrap();
    assert_eq!(t.vocab_len(), 0);
}

#[test]
fn encode_merges_the_best_pair_first() {
    let t = sample();
    // "bc" scores higher than "ab", and "a" + "bc" is the piece "abc".
    assert_eq!(t.encode("abc", false), vec![7]);
    assert_eq!(t.encode("abc", true), vec![BOS_ID, 7]);
    // "bc" first, then "b" + "c" is gone and "ab" cannot form.
    assert_eq!(t.encode("bca", false), vec![6, 2]);
}

#[test]
fn encode_repeats_merges_until_none_applies() {
    let t = sample();
    assert_eq!(t.encode("dddd", false), vec![10, 10]);
    assert_eq!(t.encode("ddd", false), vec![10, 9]);
    assert_eq!(t.encode("ab", false), vec![5]);
}

#[test]
fn encode_empty_text() {
    let t = sample();
    assert_eq!(t.encode("", false), Vec::<usize>::new());
    assert_eq!(t.encode("", true), vec![BOS_ID]);
}

#[test]
fn encode_uses_the_byte_fallback() {
    let t = sample();
    assert_eq!(t.encode("a\n", false), vec![2, 8]);
    assert_eq!(t.token_for_byte(b'\n'), Some(8));
}

#[test]
fn byte_tokens_reports_the_first_missing_byte() {
    let t = sample();
    assert_eq!(t.byte_tokens("abzq"), Err(b'z'));
    assert_eq!(t.byte_tokens("cab"), Ok(vec![4, 2, 3]));
}

#[test]
fn decode_inverts_encode_with_fallback() {
    let t = sample();
    for text in ["a\nb", "\n\n", "abc\ndd", "cab"] {
        let toks = t.encode(text, false);
        let mut back = String::new();
        for &id in &toks {
            back.push_str(&t.decode(0, id));
        }
        assert_eq!(back, text);
    }
}

#[test]
fn encode_leaves_no_mergeable_pair() {
    let t = sample();
    for text in ["abcabc", "ddddd", "cbad", "abcd", "bbcc"] {
        let toks = t.encode(text, false);
        for w in toks.windows(2) {
            let mut joined = t.piece(w[0]);
            joined.extend_from_slice(&t.piece(w[1]));
            let merged = t.find_token(&joined);
            assert!(merged.is_none(), "{:?} could still merge", joined);
        }
    }
}

#[test]
fn encode_spells_the_input() {
    let t = sample();
    for text in ["abcabc", "ddddd", "cbad", "abcd"] {
        let toks = t.encode(text, false);
        assert_eq!(spell(&t, &toks), text.as_bytes().to_vec());
        assert!(toks.len() <= text.len());
        assert!(toks.iter().all(|&id| id < t.vocab_len()));
    }
}

#[test]
fn encode_skips_nan_scores_and_keeps_the_first_of_equal_scores() {
    let entries: Vec<(&[u8], f32)> = vec![(b"x", 0.0), (b"y", 0.0), (b"xy", f32::NAN), (b"yx", 1.0)];
    let t = Tokenizer::from_bytes(&vocab_file(&entries), entries.len()).unwrap();
    assert_eq!(t.encode("xyx", false), vec![0, 3]);
    let entries: Vec<(&[u8], f32)> = vec![(b"x", 0.0), (b"xx", 1.0)];
    let t = Tokenizer::from_bytes(&vocab_file(&entries), entries.len()).unwrap();
    assert_eq!(t.encode("xxx", false), vec![1, 0]);
    let entries: Vec<(&[u8], f32)> = vec![(b"x", 0.0), (b"xx", -2e10)];
    let t = Tokenizer::from_bytes(&vocab_file(&entries), entries.len()).unwrap();
    assert_eq!(t.encode("xx", false), vec![0, 0]);
}

#[test]
fn decode_reads_byte_pieces() {
    let entries: Vec<(&[u8], f32)> = vec![
        (b"<0x41>", 0.0),
        (b"<0x0a>", 0.0),
        (b"<0x+A>", 0.0),
        (b"<0xZZ>", 0.0),
        (b"hello", 0.0),
        (b"<0xFF>", 0.0),
        (b"<0x-1>", 0.0),
    ];
    let t = Tokenizer::from_bytes(&vocab_file(&entries), entries.len()).unwrap();
    assert_eq!(t.decode(0, 0), "A");
    assert_eq!(t.decode(0, 1), "\n");
    assert_eq!(t.decode(0, 2), "\n");
    assert_eq!(t.decode(0, 3), "<0xZZ>");
    assert_eq!(t.decode(0, 4), "hello");
    assert_eq!(t.decode(0, 5), "\u{FFFD}");
    assert_eq!(t.decode(0, 6), "<0x-1>");
}

#[test]
fn byte_fallback_round_trips() {
    for b in 0..=255u8 {
        let piece = byte_fallback(b);
        assert_eq!(piece, format!("<0x{:02X}>", b).into_bytes());
        assert_eq!(hex_pair(piece[3], piece[4]), Some(b));
    }
    assert_eq!(hex_pair(b'+', b'f'), Some(15));
    assert_eq!(hex_pair(b'-', b'1'), None);
    assert_eq!(hex_pair(b'g', b'1'), None);
    assert_eq!(hex_pair(b'a', b'B'), Some(0xAB));
}
