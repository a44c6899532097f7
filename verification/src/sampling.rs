use vstd::prelude::*;

use crate::model::{lemma_table_shape, Bigram};
use crate::tokenizer::{
    decode, encode, ids_are_bytes, lemma_token_count, spec_decode, spec_encode, VOCAB_SIZE,
};

verus! {

/// `r` is a greedy choice among `scores`: it holds the highest score, and
/// every earlier position scores strictly less (ties go to the lowest id).
pub open spec fn is_greedy_choice(scores: Seq<usize>, r: int) -> bool {
    &&& 0 <= r < scores.len()
    &&& forall|j: int| 0 <= j < scores.len() ==> #[trigger] scores[j] <= scores[r]
    &&& forall|j: int| 0 <= j < r ==> #[trigger] scores[j] < scores[r]
}

/// The greedy choice among `scores` (meaningful when `scores` is not empty).
pub open spec fn greedy_choice(scores: Seq<usize>) -> int {
    choose|r: int| is_greedy_choice(scores, r)
}

/// There is at most one greedy choice, so whatever satisfies the predicate
/// is `greedy_choice`.
pub proof fn lemma_greedy_choice_unique(scores: Seq<usize>, r: int)
    requires
        is_greedy_choice(scores, r),
    ensures
        greedy_choice(scores) == r,
{
    let g = greedy_choice(scores);
    assert(is_greedy_choice(scores, g));
    if g < r {
        assert(scores[g] < scores[r]);
        assert(scores[r] <= scores[g]);
    } else if r < g {
        assert(scores[r] < scores[g]);
        assert(scores[g] <= scores[r]);
    }
}

/// Analogy: the judge.
///
/// Greedy sampling: pick the highest-scoring token id (ties -> lowest id).
pub fn greedy_pick(logits: &[usize]) -> (id: u32)
    requires
        0 < logits@.len() <= u32::MAX as int + 1,
    ensures
        is_greedy_choice(logits@, id as int),
        id as int == greedy_choice(logits@),
{
    let mut best: usize = 0;
    let mut i: usize = 1;
    while i < logits.len()
        invariant
            0 < logits@.len() <= u32::MAX as int + 1,
            1 <= i <= logits@.len(),
            is_greedy_choice(logits@.subrange(0, i as int), best as int),
        decreases logits@.len() - i,
    {
        let ghost prev = logits@.subrange(0, i as int);
        if logits[i] > logits[best] {
            best = i;
        }
        i = i + 1;
        let ghost cur = logits@.subrange(0, i as int);
        assert forall|j: int| 0 <= j < cur.len() implies #[trigger] cur[j] <= cur[best as int] by {
            if j < prev.len() {
                assert(cur[j] == prev[j]);
            }
        }
        assert forall|j: int| 0 <= j < best implies #[trigger] cur[j] < cur[best as int] by {
            if j < prev.len() {
                assert(cur[j] == prev[j]);
            }
        }
    }
    assert(logits@.subrange(0, logits@.len() as int) =~= logits@);
    proof {
        lemma_greedy_choice_unique(logits@, best as int);
    }
    best as u32
}

/// The ids after `steps` rounds of greedy generation from `ids`: each round
/// appends the greedy choice among the scores of the current last id.
pub open spec fn spec_generate_ids(table: Seq<Seq<usize>>, ids: Seq<u32>, steps: nat) -> Seq<
    u32,
>
    decreases steps,
{
    if steps == 0 {
        ids
    } else {
        let next = greedy_choice(table[ids.last() as int]) as u32;
        spec_generate_ids(table, ids.push(next), (steps - 1) as nat)
    }
}

/// Analogy: cook the next course from the last, over and over.
///
/// Autoregressive generation: predict one token, append it, feed it back
/// in, `steps` times. Decode once at the end so multi-byte characters stay
/// intact; `None` when the generated bytes are not valid UTF-8.
pub fn generate(model: &Bigram, prompt: &str, steps: usize) -> (text: Option<String>)
    requires
        steps == 0 || prompt@.len() > 0,
    ensures
        match text {
            Some(s) => spec_decode(spec_generate_ids(model@, spec_encode(prompt@), steps as nat))
                == Some(s@),
            None => spec_decode(spec_generate_ids(model@, spec_encode(prompt@), steps as nat)) is None,
        },
{
    let mut ids = encode(prompt);
    proof {
        lemma_token_count(prompt@);
        lemma_table_shape(*model);
    }
    let ghost target = spec_generate_ids(model@, spec_encode(prompt@), steps as nat);
    let mut k: usize = 0;
    while k < steps
        invariant
            k <= steps,
            k < steps ==> ids@.len() > 0,
            ids_are_bytes(ids@),
            spec_generate_ids(model@, ids@, (steps - k) as nat) == target,
            model@.len() == VOCAB_SIZE,
            forall|a: int| 0 <= a < VOCAB_SIZE ==> (#[trigger] model@[a]).len() == VOCAB_SIZE,
        decreases steps - k,
    {
        let last = ids[ids.len() - 1];
        assert(last < VOCAB_SIZE);
        let logits = model.forward(last);
        let next = greedy_pick(&logits);
        let ghost prev = ids@;
        assert(prev.last() == last);
        ids.push(next);
        k = k + 1;
        assert(ids@ == prev.push(next));
        assert(ids_are_bytes(ids@)) by {
            assert forall|i: int| 0 <= i < ids@.len() implies #[trigger] ids@[i] < VOCAB_SIZE by {
                if i < prev.len() {
                    assert(ids@[i] == prev[i]);
                }
            }
        }
    }
    decode(&ids)
}


/// Among equal scores the greedy choice is id 0: ties break toward the
/// lowest id, so a row of all-equal (e.g. all-zero) logits picks token 0.
pub proof fn lemma_flat_scores_pick_zero(scores: Seq<usize>)
    requires
        scores.len() > 0,
        forall|j: int| 0 <= j < scores.len() ==> #[trigger] scores[j] == scores[0],
    ensures
        greedy_choice(scores) == 0,
{
    lemma_greedy_choice_unique(scores, 0);
}

/// Generation keeps the prompt as it is and appends exactly `steps` ids,
/// each of them the greedy choice among the scores of the id before it.
pub proof fn lemma_generation_extends_prompt(table: Seq<Seq<usize>>, ids: Seq<u32>, steps: nat)
    requires
        ids.len() > 0,
    ensures
        spec_generate_ids(table, ids, steps).len() == ids.len() + steps,
        spec_generate_ids(table, ids, steps).subrange(0, ids.len() as int) == ids,
        forall|p: int|
            ids.len() <= p < ids.len() + steps ==> #[trigger] spec_generate_ids(table, ids, steps)[p]
                == greedy_choice(table[spec_generate_ids(table, ids, steps)[p - 1] as int]) as u32,
    decreases steps,
{
    if steps > 0 {
        let next = greedy_choice(table[ids.last() as int]) as u32;
        let longer = ids.push(next);
        lemma_generation_extends_prompt(table, longer, (steps - 1) as nat);
        let out = spec_generate_ids(table, ids, steps);
        assert(out == spec_generate_ids(table, longer, (steps - 1) as nat));
        assert(out.subrange(0, longer.len() as int) == longer);
        assert(out.subrange(0, ids.len() as int) =~= ids) by {
            assert forall|i: int| 0 <= i < ids.len() implies out[i] == ids[i] by {
                assert(out.subrange(0, longer.len() as int)[i] == longer[i]);
            }
        }
        assert forall|p: int| ids.len() <= p < ids.len() + steps implies #[trigger] out[p]
            == greedy_choice(table[out[p - 1] as int]) as u32 by {
            if p == ids.len() {
                assert(out.subrange(0, longer.len() as int)[p] == longer[p]);
                assert(out.subrange(0, longer.len() as int)[p - 1] == longer[p - 1]);
            }
        }
    }
}

} // verus!
