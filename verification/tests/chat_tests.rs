use llama_q8::chat::{
    chat_prompt, classify_input, contains_bytes, contains_stop_sequence, eos_id, is_qwen_vocab,
    is_stop_token, trim_str, InputAction, StopTail, TailError, Turn, TurnAction,
};
use llama_q8::tokenizer::Tokenizer;

fn tokenizer(pieces: &[&[u8]]) -> Tokenizer {
    let mut data = Vec::new();
    data.extend_from_slice(&8u32.to_le_bytes());
    for p in pieces {
        data.extend_from_slice(&0.0f32.to_le_bytes());
        data.extend_from_slice(&(p.len() as i32).to_le_bytes());
        data.extend_from_slice(p);
    }
    Tokenizer::from_bytes(&data, pieces.len()).unwrap()
}

fn run(a: &TurnAction) -> Option<(Option<String>, usize, usize)> {
    match a {
        TurnAction::Run { print, token, pos } => Some((print.clone(), *token, *pos)),
        _ => None,
    }
}

fn finish(a: &TurnAction) -> Option<Option<String>> {
    match a {
        TurnAction::Finish { print } => Some(print.clone()),
        _ => None,
    }
}

#[test]
fn stop_tokens() {
    assert!(is_stop_token(151645, true));
    assert!(!is_stop_token(151645, false));
    assert!(is_stop_token(2, false));
    assert!(!is_stop_token(2, true));
    for t in [151643, 32000, 32001, 32002] {
        assert!(is_stop_token(t, true));
        assert!(is_stop_token(t, false));
    }
    assert!(!is_stop_token(42, true));
    assert_eq!(eos_id(true), 151645);
    assert_eq!(eos_id(false), 2);
    assert!(is_qwen_vocab(151936));
    assert!(!is_qwen_vocab(32000));
}

#[test]
fn substring_search() {
    assert!(contains_bytes(b"hello world", b"o w"));
    assert!(contains_bytes(b"abc", b""));
    assert!(!contains_bytes(b"ab", b"abc"));
    assert!(!contains_bytes(b"hello", b"hellp"));
    assert!(contains_stop_sequence(b"ok</s>"));
    assert!(contains_stop_sequence(b"x<|im_end|>y"));
    assert!(!contains_stop_sequence(b"<|im_en"));
}

#[test]
fn tail_catches_a_split_stop_sequence() {
    let mut tail = StopTail::new(b"Hello");
    assert!(!tail.is_stopped());
    assert_eq!(tail.push_piece(b" there, <|im_"), Ok(false));
    assert_eq!(tail.push_piece(b"end|>"), Ok(true));
    assert!(tail.is_stopped());
}

#[test]
fn tail_keeps_the_last_twenty_bytes() {
    let mut tail = StopTail::new(b"<|user");
    assert_eq!(tail.push_piece(b"0123456789abcdefghij"), Ok(false));
    assert_eq!(tail.push_piece(b"|>"), Ok(false));
    assert_eq!(tail.push_piece(b"</"), Ok(false));
    assert_eq!(tail.push_piece(b"s>"), Ok(true));
}

#[test]
fn tail_refuses_to_cut_inside_a_character() {
    let mut tail = StopTail::new("é".as_bytes());
    assert_eq!(tail.push_piece(b"0123456789012345678"), Err(TailError::NotCharBoundary));
    assert_eq!(tail.push_piece(b"abc"), Ok(false));
}

#[test]
fn prompts_follow_the_templates() {
    let q = chat_prompt(b"hi\r\nthere", true);
    let expected = format!(
        "<|im_start|>system\nYou are Qwen, a helpful assistant created by Alibaba Cloud.<|im_end|>\n<|im_start|>user\n{}<|im_end|>\n<|im_start|>assistant\n",
        "hi\r\nthere"
    )
    .replace("\r", "");
    assert_eq!(q, expected.into_bytes());
    let l = chat_prompt(b"hi\r", false);
    let expected = format!(
        "<|system|>\nYou are a helpful assistant.</s>\n<|user|>\n{}</s>\n<|assistant|>\n",
        "hi\r"
    );
    assert_eq!(l, expected.into_bytes());
}

#[test]
fn input_lines_are_classified() {
    assert!(matches!(classify_input(0, "", true), InputAction::EndOfInput));
    assert!(matches!(classify_input(5, "exit\n", true), InputAction::Quit));
    assert!(matches!(classify_input(7, "  quit \n", false), InputAction::Quit));
    assert!(matches!(classify_input(3, " \t\n", true), InputAction::Skip));
    match classify_input(6, " hi \r\n", false) {
        InputAction::Prompt(p) => assert_eq!(p, chat_prompt(b"hi", false)),
        _ => panic!("expected a prompt"),
    }
    match classify_input(12, "\u{3000}hi\u{85}", true) {
        InputAction::Prompt(p) => assert_eq!(p, chat_prompt(b"hi", true)),
        _ => panic!("expected a prompt"),
    }
    match classify_input(8, "exited\n", true) {
        InputAction::Prompt(p) => assert_eq!(p, chat_prompt(b"exited", true)),
        _ => panic!("expected a prompt"),
    }
}

#[test]
fn a_turn_feeds_the_prompt_then_generates() {
    let t = tokenizer(&[b"<unk>", b"<s>", b"Hi", b" there", b"</s>"]);
    let (mut turn, first) = Turn::start(vec![1, 2], 5, true);
    assert_eq!(run(&first), Some((None, 1, 0)));
    let a = turn.on_sampled(&t, 4);
    assert_eq!(run(&a), Some((None, 2, 1)));
    let a = turn.on_sampled(&t, 3);
    assert_eq!(run(&a), Some((Some(" there".to_string()), 3, 2)));
    let a = turn.on_sampled(&t, 2);
    assert_eq!(run(&a), Some((Some("Hi".to_string()), 2, 3)));
    let a = turn.on_sampled(&t, 4);
    assert_eq!(finish(&a), Some(None));
    let a = turn.on_sampled(&t, 3);
    assert_eq!(finish(&a), Some(None));
}

#[test]
fn a_turn_stops_on_a_stop_token_and_at_the_last_position() {
    let t = tokenizer(&[b"<unk>", b"<s>", b"a", b"b"]);
    let (mut turn, _) = Turn::start(vec![2], 3, false);
    assert_eq!(run(&turn.on_sampled(&t, 3)), Some((Some("b".to_string()), 3, 1)));
    assert_eq!(finish(&turn.on_sampled(&t, 2)), Some(None));
    let (mut turn, _) = Turn::start(vec![2], 3, true);
    assert_eq!(run(&turn.on_sampled(&t, 3)), Some((Some("b".to_string()), 3, 1)));
    assert_eq!(run(&turn.on_sampled(&t, 2)), Some((Some("a".to_string()), 2, 2)));
    assert_eq!(finish(&turn.on_sampled(&t, 3)), Some(Some("b".to_string())));
    let (mut turn, _) = Turn::start(vec![2, 3], 1, true);
    assert_eq!(run(&turn.on_sampled(&t, 3)), Some((None, 3, 1)));
    assert_eq!(finish(&turn.on_sampled(&t, 2)), Some(Some("a".to_string())));
    let (mut turn, _) = Turn::start(vec![2], 9, false);
    assert!(run(&turn.on_sampled(&t, 2)).is_some());
    assert_eq!(finish(&turn.on_sampled(&t, 2)), Some(None));
}

#[test]
fn a_turn_hides_a_first_piece_that_holds_a_stop_sequence() {
    let t = tokenizer(&[b"<unk>", b"<s>", b"ok</s>", b"x"]);
    let (mut turn, _) = Turn::start(vec![3], 9, true);
    assert_eq!(run(&turn.on_sampled(&t, 2)), Some((None, 2, 1)));
    assert_eq!(finish(&turn.on_sampled(&t, 3)), Some(None));
}

#[test]
fn trim_removes_unicode_white_space_at_both_ends() {
    assert_eq!(trim_str("\u{3000} a b\u{85}\t\n"), "a b");
    assert_eq!(trim_str(" \u{2028}\u{a0} "), "");
    assert_eq!(trim_str(""), "");
    assert_eq!(trim_str("x"), "x");
    assert_eq!(trim_str("\u{200b}x\u{200b}"), "\u{200b}x\u{200b}");
}
