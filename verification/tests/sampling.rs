use nano_vllm_rs::model::{Bigram, CORPUS};
use nano_vllm_rs::sampling::{generate, greedy_pick};
use nano_vllm_rs::tokenizer::VOCAB_SIZE;

#[test]
fn greedy_pick_breaks_ties_toward_the_lowest_id() {
    let flat = vec![0usize; VOCAB_SIZE];
    assert_eq!(greedy_pick(&flat), 0);
}

#[test]
fn generation_is_deterministic_and_cyclic() {
    let model = Bigram::from_text(CORPUS);
    assert_eq!(generate(&model, "ru", 12), Some("rust. rust. ru".to_string()));
}

#[test]
fn unseen_bytes_generate_token_zero_garbage() {
    let model = Bigram::from_text(CORPUS);
    // 'z' never appears in the corpus: all-zero logits, so greedy picks
    // token 0 forever. The model knows nothing outside its data.
    assert_eq!(generate(&model, "z", 3), Some("z\0\0\0".to_string()));
}

#[test]
fn greedy_pick_takes_the_first_of_equal_maxima() {
    assert_eq!(greedy_pick(&[1, 5, 3, 5, 2]), 1);
    assert_eq!(greedy_pick(&[7]), 0);
    assert_eq!(greedy_pick(&[0, 0, 9]), 2);
}

#[test]
fn zero_steps_returns_the_prompt() {
    let model = Bigram::from_text(CORPUS);
    assert_eq!(generate(&model, "ru", 0), Some("ru".to_string()));
    assert_eq!(generate(&model, "", 0), Some(String::new()));
}

#[test]
fn generation_appends_exactly_the_requested_steps() {
    let model = Bigram::from_text(CORPUS);
    let out = generate(&model, "rus", 5).expect("ascii");
    assert_eq!(out.len(), 3 + 5);
    assert!(out.starts_with("rus"));
    // 's' is followed by 't' three times and by 'h' once: greedy takes 't'.
    assert_eq!(&out[3..4], "t");
}

#[test]
fn generation_is_repeatable() {
    let model = Bigram::from_text(CORPUS);
    assert_eq!(generate(&model, "r", 20), generate(&model, "r", 20));
}

#[test]
fn generation_reports_invalid_utf8() {
    // "aé" is 61 C3 A9: 'a' -> C3, C3 -> A9, and A9 is followed by nothing.
    let model = Bigram::from_text("aé");
    // 'a' -> C3, C3 -> A9, A9 -> 0: "aé\0" decodes fine.
    assert_eq!(generate(&model, "a", 3), Some("aé\0".to_string()));
    // Stopping after one step leaves a dangling lead byte C3.
    assert_eq!(generate(&model, "a", 1), None);
}
