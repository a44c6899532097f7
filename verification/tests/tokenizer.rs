use nano_vllm_rs::tokenizer::{decode, encode, VOCAB_SIZE};

#[test]
fn roundtrip_ascii() {
    let ids = encode("hello");
    assert_eq!(ids, vec![104, 101, 108, 108, 111]);
    assert_eq!(decode(&ids), Some("hello".to_string()));
}

#[test]
fn multibyte_text_uses_more_tokens_than_chars() {
    // é is two bytes in UTF-8, so 5 characters become 6 tokens.
    let ids = encode("héllo");
    assert_eq!(ids.len(), 6);
    assert_eq!(decode(&ids), Some("héllo".to_string()));
}

#[test]
fn decode_rejects_ids_larger_than_a_byte() {
    assert_eq!(decode(&[104, 999]), None);
}

#[test]
fn decode_rejects_invalid_utf8() {
    // 0xF0 opens a 4-byte sequence; 0x28 is not a valid continuation.
    assert_eq!(decode(&[0xF0, 0x28]), None);
}

#[test]
fn encode_gives_the_utf8_bytes() {
    assert_eq!(encode("é"), vec![0xC3, 0xA9]);
    assert_eq!(encode("€"), vec![0xE2, 0x82, 0xAC]);
    assert_eq!(encode("𝄞"), vec![0xF0, 0x9D, 0x84, 0x9E]);
    assert_eq!(encode(""), Vec::<u32>::new());
}

#[test]
fn every_id_is_inside_the_vocabulary() {
    let ids = encode("ÿ€𝄞 mixed text");
    assert!(ids.iter().all(|&id| (id as usize) < VOCAB_SIZE));
}

#[test]
fn decode_then_encode_gives_the_ids_back() {
    let ids = vec![0xE2, 0x82, 0xAC, 0x21];
    let text = decode(&ids).expect("valid UTF-8");
    assert_eq!(text, "€!");
    assert_eq!(encode(&text), ids);
}

#[test]
fn roundtrip_of_many_scripts() {
    for text in ["", "a", "héllo wörld", "日本語", "𝄞 and 🎉", "\0\u{7f}\u{80}"] {
        assert_eq!(decode(&encode(text)), Some(text.to_string()));
    }
}

#[test]
fn ascii_text_takes_one_token_per_char() {
    let text = "plain ascii!";
    assert_eq!(encode(text).len(), text.chars().count());
    let text = "naïve";
    assert!(encode(text).len() > text.chars().count());
}

#[test]
fn decode_rejects_a_lone_continuation_byte() {
    assert_eq!(decode(&[0x80]), None);
    assert_eq!(decode(&[0x61, 0xA9]), None);
}

#[test]
fn decode_rejects_surrogates_and_overlong_forms() {
    // U+D800 encoded as if it were a scalar.
    assert_eq!(decode(&[0xED, 0xA0, 0x80]), None);
    // An overlong two-byte form of '/'.
    assert_eq!(decode(&[0xC0, 0xAF]), None);
    // Past U+10FFFF.
    assert_eq!(decode(&[0xF4, 0x90, 0x80, 0x80]), None);
}

#[test]
fn decode_accepts_the_largest_byte_id_and_rejects_the_next() {
    assert_eq!(decode(&[255]), None); // a byte, but never valid UTF-8
    assert_eq!(decode(&[256]), None);
    assert_eq!(decode(&[]), Some(String::new()));
    assert_eq!(decode(&[0]), Some("\0".to_string()));
}
