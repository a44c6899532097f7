use nano_vllm_rs::model::{Bigram, CORPUS};
use nano_vllm_rs::tokenizer::VOCAB_SIZE;

#[test]
fn counting_the_corpus_matches_hand_tallies() {
    let model = Bigram::from_text(CORPUS);
    let after_s = model.forward(115); // after 's'
    assert_eq!(after_s[116], 3); // "st" appears 3 times
    assert_eq!(after_s[104], 1); // "sh" appears once
}

#[test]
fn forward_scores_every_token() {
    let model = Bigram::from_text(CORPUS);
    assert_eq!(model.forward(114).len(), VOCAB_SIZE); // after 'r'
}

#[test]
fn unseen_bytes_have_all_zero_logits() {
    let model = Bigram::from_text(CORPUS);
    let row = model.forward(122); // 'z' is not in the corpus
    assert!(row.iter().all(|&score| score == 0));
}

#[test]
fn the_whole_corpus_row_for_r() {
    // "rust. rust. rust. rush.": 'r' is always followed by 'u'.
    let model = Bigram::from_text(CORPUS);
    let row = model.forward(b'r' as u32);
    assert_eq!(row[b'u' as usize], 4);
    assert_eq!(row.iter().sum::<usize>(), 4);
    // '.' is followed by ' ' three times; the final '.' has no successor.
    let row = model.forward(b'.' as u32);
    assert_eq!(row[b' ' as usize], 3);
    assert_eq!(row.iter().sum::<usize>(), 3);
}

#[test]
fn empty_and_single_byte_texts_count_nothing() {
    for text in ["", "x"] {
        let model = Bigram::from_text(text);
        for token in 0..VOCAB_SIZE as u32 {
            assert!(model.forward(token).iter().all(|&c| c == 0));
        }
    }
}

#[test]
fn multibyte_text_counts_its_bytes() {
    // "éé" is C3 A9 C3 A9: pairs C3->A9 twice, A9->C3 once.
    let model = Bigram::from_text("éé");
    assert_eq!(model.forward(0xC3)[0xA9], 2);
    assert_eq!(model.forward(0xA9)[0xC3], 1);
    assert_eq!(model.forward(0xA9)[0xA9], 0);
}

#[test]
fn the_last_byte_of_the_text_has_no_successor() {
    let model = Bigram::from_text("ab");
    assert_eq!(model.forward(b'a' as u32)[b'b' as usize], 1);
    assert!(model.forward(b'b' as u32).iter().all(|&c| c == 0));
}

#[test]
fn forward_equals_the_one_hot_product() {
    let model = Bigram::from_text(CORPUS);
    let table: Vec<Vec<usize>> = (0..VOCAB_SIZE as u32).map(|t| model.forward(t)).collect();
    for token in [0usize, b'r' as usize, b's' as usize, 255] {
        let one_hot: Vec<usize> = (0..VOCAB_SIZE).map(|i| usize::from(i == token)).collect();
        let product: Vec<usize> = (0..VOCAB_SIZE)
            .map(|b| (0..VOCAB_SIZE).map(|i| one_hot[i] * table[i][b]).sum())
            .collect();
        assert_eq!(product, model.forward(token as u32));
    }
}
