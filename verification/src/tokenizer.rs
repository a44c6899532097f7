use vstd::prelude::*;
use vstd::utf8::*;

verus! {

broadcast use vstd::utf8::group_utf8_lib;

/// Analogy: the pantry — 256 numbered jars, one per possible byte.
///
/// Text is UTF-8 bytes, so the vocabulary is fixed at 256 and no input can
/// ever be out-of-vocabulary.
pub const VOCAB_SIZE: usize = 256;

/// The token ids of a text: one id per byte of its UTF-8 encoding.
pub open spec fn spec_encode(text: Seq<char>) -> Seq<u32> {
    encode_utf8(text).map_values(|b: u8| b as u32)
}

/// Every id names a byte, i.e. lies inside the vocabulary.
pub open spec fn ids_are_bytes(ids: Seq<u32>) -> bool {
    forall|i: int| 0 <= i < ids.len() ==> #[trigger] ids[i] < VOCAB_SIZE
}

/// The bytes that a sequence of byte ids stands for.
pub open spec fn ids_to_bytes(ids: Seq<u32>) -> Seq<u8> {
    ids.map_values(|id: u32| id as u8)
}

/// What decoding a sequence of ids yields: the text whose UTF-8 encoding
/// the ids spell out, or `None` when an id is not a byte or the bytes are
/// not valid UTF-8.
pub open spec fn spec_decode(ids: Seq<u32>) -> Option<Seq<char>> {
    if ids_are_bytes(ids) && valid_utf8(ids_to_bytes(ids)) {
        Some(decode_utf8(ids_to_bytes(ids)))
    } else {
        None
    }
}

/// `String::from_utf8`, with its result turned into an `Option`.
///
/// Trusted: std documents that it succeeds exactly on valid UTF-8 and then
/// returns the string whose bytes are the input; the contract states this
/// with vstd's UTF-8 model (`valid_utf8`, `decode_utf8`).
#[verifier::external_body]
fn string_from_utf8(bytes: Vec<u8>) -> (res: Option<String>)
    ensures
        res is Some <==> valid_utf8(bytes@),
        res matches Some(s) ==> s@ == decode_utf8(bytes@),
{
    String::from_utf8(bytes).ok()
}

/// Text -> token ids, one id per UTF-8 byte.
pub fn encode(text: &str) -> (ids: Vec<u32>)
    ensures
        ids@ == spec_encode(text@),
        ids_are_bytes(ids@),
        ids@.len() == encode_utf8(text@).len(),
        forall|i: int| 0 <= i < ids@.len() ==> #[trigger] ids@[i] == encode_utf8(text@)[i] as u32,
{
    let bytes = text.as_bytes();
    let mut ids: Vec<u32> = Vec::new();
    let mut i: usize = 0;
    while i < bytes.len()
        invariant
            bytes@ == encode_utf8(text@),
            i <= bytes@.len(),
            ids@ == bytes@.subrange(0, i as int).map_values(|b: u8| b as u32),
        decreases bytes@.len() - i,
    {
        ids.push(bytes[i] as u32);
        i = i + 1;
        assert(ids@ =~= bytes@.subrange(0, i as int).map_values(|b: u8| b as u32));
    }
    assert(bytes@.subrange(0, bytes@.len() as int) =~= bytes@);
    ids
}

/// Token ids -> text. Returns None if an id is not a byte (> 255) or the
/// bytes are not valid UTF-8 (e.g. a lone continuation byte).
pub fn decode(ids: &[u32]) -> (text: Option<String>)
    ensures
        match text {
            Some(s) => spec_decode(ids@) == Some(s@),
            None => spec_decode(ids@) is None,
        },
        text is Some <==> (forall|i: int| 0 <= i < ids@.len() ==> #[trigger] ids@[i] < 256)
            && valid_utf8(ids@.map_values(|id: u32| id as u8)),
        text matches Some(s) ==> encode_utf8(s@) == ids@.map_values(|id: u32| id as u8),
{
    let mut bytes: Vec<u8> = Vec::new();
    let mut i: usize = 0;
    while i < ids.len()
        invariant
            i <= ids@.len(),
            ids_are_bytes(ids@.subrange(0, i as int)),
            bytes@ == ids_to_bytes(ids@.subrange(0, i as int)),
        decreases ids@.len() - i,
    {
        let id = ids[i];
        if id >= 256 {
            assert(!ids_are_bytes(ids@)) by {
                assert(ids@[i as int] >= VOCAB_SIZE);
            }
            return None;
        }
        bytes.push(id as u8);
        i = i + 1;
        assert(ids@.subrange(0, i as int) =~= ids@.subrange(0, i - 1).push(id));
        assert(bytes@ =~= ids_to_bytes(ids@.subrange(0, i as int)));
    }
    assert(ids@.subrange(0, ids@.len() as int) =~= ids@);
    assert(bytes@ =~= ids@.map_values(|id: u32| id as u8));
    let text = string_from_utf8(bytes);
    proof {
        if text is Some {
            assert(encode_utf8(decode_utf8(bytes@)) == bytes@);
        }
    }
    text
}


/// The ids of a text are exactly its UTF-8 bytes, in order, each widened to
/// `u32`.
pub proof fn lemma_ids_are_the_utf8_bytes(text: Seq<char>)
    ensures
        spec_encode(text).len() == encode_utf8(text).len(),
        forall|i: int|
            0 <= i < spec_encode(text).len() ==> #[trigger] spec_encode(text)[i] == encode_utf8(
                text,
            )[i] as u32,
{
}

/// Decoding succeeds exactly when every id is a byte and those bytes are
/// valid UTF-8, and then the decoded text encodes back to exactly those
/// bytes, in order.
pub proof fn lemma_decode_inverts_utf8(ids: Seq<u32>)
    ensures
        spec_decode(ids) is Some <==> (forall|i: int| 0 <= i < ids.len() ==> #[trigger] ids[i] < 256)
            && valid_utf8(ids.map_values(|id: u32| id as u8)),
        spec_decode(ids) matches Some(t) ==> encode_utf8(t) == ids.map_values(|id: u32| id as u8),
{
    assert(ids_to_bytes(ids) =~= ids.map_values(|id: u32| id as u8));
    if spec_decode(ids) is Some {
        assert(encode_utf8(decode_utf8(ids_to_bytes(ids))) == ids_to_bytes(ids));
    }
}

/// Decoding the ids of any text gives back exactly that text: the byte
/// tokenizer is lossless.
pub proof fn lemma_decode_of_encode(text: Seq<char>)
    ensures
        spec_decode(spec_encode(text)) == Some(text),
{
    let ids = spec_encode(text);
    assert(ids_to_bytes(ids) =~= encode_utf8(text));
}

/// Whenever a sequence of ids decodes, encoding the decoded text gives back
/// exactly those ids.
pub proof fn lemma_encode_of_decode(ids: Seq<u32>)
    requires
        spec_decode(ids) is Some,
    ensures
        spec_encode(spec_decode(ids)->0) == ids,
{
    let bytes = ids_to_bytes(ids);
    assert(encode_utf8(decode_utf8(bytes)) == bytes);
    assert forall|i: int| 0 <= i < ids.len() implies (bytes[i] as u32) == ids[i] by {
        assert(ids[i] < VOCAB_SIZE);
    }
    assert(spec_encode(decode_utf8(bytes)) =~= ids);
}

/// Every character of the text has a one-byte UTF-8 encoding (is below
/// U+0080, i.e. ASCII).
pub open spec fn is_single_byte_text(text: Seq<char>) -> bool {
    forall|i: int| 0 <= i < text.len() ==> ((#[trigger] text[i]) as u32) < 0x80
}

/// Text never takes fewer tokens than it has characters, and takes exactly
/// as many only when every character is ASCII: a multi-byte character costs
/// more than one token.
pub proof fn lemma_token_count(text: Seq<char>)
    ensures
        spec_encode(text).len() >= text.len(),
        spec_encode(text).len() == text.len() <==> is_single_byte_text(text),
    decreases text.len(),
{
    if text.len() > 0 {
        let rest = text.drop_first();
        lemma_token_count(rest);
        let c = text[0] as u32;
        let head = encode_scalar(c);
        assert(encode_utf8(text) == head + encode_utf8(rest));
        assert(1 <= head.len() <= 4);
        assert(head.len() == 1 <==> has_width_1_encoding(c));
        if is_single_byte_text(text) {
            assert forall|i: int| 0 <= i < rest.len() implies ((#[trigger] rest[i]) as u32) < 0x80 by {
                assert(rest[i] == text[i + 1]);
            }
            assert((text[0] as u32) < 0x80);
        }
        if is_single_byte_text(rest) && has_width_1_encoding(c) {
            assert forall|i: int| 0 <= i < text.len() implies ((#[trigger] text[i]) as u32) < 0x80 by {
                if i > 0 {
                    assert(text[i] == rest[i - 1]);
                }
            }
        }
    }
}

} // verus!
