use vstd::prelude::*;

use crate::tokenizer::{encode, spec_encode, ids_are_bytes, VOCAB_SIZE};

verus! {

/// The tiny corpus the bigram model "trains" on. Counting its byte pairs is
/// the only training there is.
pub const CORPUS: &'static str = "rust. rust. rust. rush.";

/// How many times id `b` immediately follows id `a` in `ids`.
pub open spec fn pair_count(ids: Seq<u32>, a: int, b: int) -> nat
    decreases ids.len(),
{
    if ids.len() < 2 {
        0
    } else {
        pair_count(ids.drop_last(), a, b) + if ids[ids.len() - 2] == a && ids.last() == b {
            1nat
        } else {
            0nat
        }
    }
}

/// Entry `(a, b)` of a row-major `VOCAB_SIZE x VOCAB_SIZE` table.
pub open spec fn entry(table: Seq<usize>, a: int, b: int) -> usize {
    table[a * VOCAB_SIZE + b]
}

/// Analogy: the cook's tally sheet — which byte followed which.
///
/// A bigram model: row b of the table counts how often each byte followed
/// byte b in the training text. Higher count = higher logit.
pub struct Bigram {
    weights: Vec<usize>,  // [VOCAB_SIZE * VOCAB_SIZE], row-major counts
}

impl View for Bigram {
    type V = Seq<Seq<usize>>;

    /// The table as `VOCAB_SIZE` rows of `VOCAB_SIZE` counts.
    closed spec fn view(&self) -> Seq<Seq<usize>> {
        Seq::new(
            VOCAB_SIZE as nat,
            |a: int| Seq::new(VOCAB_SIZE as nat, |b: int| entry(self.weights@, a, b)),
        )
    }
}

impl Bigram {
    #[verifier::type_invariant]
    spec fn well_formed(self) -> bool {
        self.weights@.len() == VOCAB_SIZE * VOCAB_SIZE
    }

    /// Analogy: fill the tally sheet.
    ///
    /// "Training", in miniature: count the data.
    pub fn from_text(text: &str) -> (model: Self)
        ensures
            model@.len() == VOCAB_SIZE,
            forall|a: int| 0 <= a < VOCAB_SIZE ==> (#[trigger] model@[a]).len() == VOCAB_SIZE,
            forall|a: int, b: int|
                0 <= a < VOCAB_SIZE && 0 <= b < VOCAB_SIZE ==> #[trigger] model@[a][b]
                    == pair_count(spec_encode(text@), a, b),
    {
        let ids = encode(text);
        let mut counts: Vec<usize> = vec![0usize; VOCAB_SIZE * VOCAB_SIZE];
        assert forall|a: int, b: int|
            0 <= a < VOCAB_SIZE && 0 <= b < VOCAB_SIZE implies #[trigger] entry(counts@, a, b)
                == 0 by {
            assert(counts@[a * VOCAB_SIZE + b] == 0);
        }
        if ids.len() >= 2 {
            let mut i: usize = 1;
            while i < ids.len()
                invariant
                    ids_are_bytes(ids@),
                    1 <= i <= ids@.len(),
                    counts@.len() == VOCAB_SIZE * VOCAB_SIZE,
                    forall|k: int| 0 <= k < counts@.len() ==> #[trigger] counts@[k] < i,
                    forall|a: int, b: int|
                        0 <= a < VOCAB_SIZE && 0 <= b < VOCAB_SIZE ==> #[trigger] entry(
                            counts@,
                            a,
                            b,
                        ) == pair_count(ids@.subrange(0, i as int), a, b),
                decreases ids@.len() - i,
            {
                let a = ids[i - 1] as usize;
                let b = ids[i] as usize;
                assert(ids@[i - 1] < VOCAB_SIZE && ids@[i as int] < VOCAB_SIZE);
                let k = a * VOCAB_SIZE + b;
                let old_counts = Ghost(counts@);
                counts.set(k, counts[k] + 1);
                let ghost prefix = ids@.subrange(0, i + 1);
                assert(prefix.drop_last() =~= ids@.subrange(0, i as int));
                i = i + 1;
                assert forall|x: int, y: int|
                    0 <= x < VOCAB_SIZE && 0 <= y < VOCAB_SIZE implies #[trigger] entry(
                        counts@,
                        x,
                        y,
                    ) == pair_count(ids@.subrange(0, i as int), x, y) by {
                    assert(entry(old_counts@, x, y) == pair_count(prefix.drop_last(), x, y));
                    if x == a && y == b {
                    } else {
                        assert(x * VOCAB_SIZE + y != k);
                    }
                }
            }
            assert(ids@.subrange(0, ids@.len() as int) =~= ids@);
        }
        let model = Bigram { weights: counts };
        assert forall|a: int, b: int|
            0 <= a < VOCAB_SIZE && 0 <= b < VOCAB_SIZE implies #[trigger] model@[a][b]
                == pair_count(spec_encode(text@), a, b) by {
            assert(model@[a][b] == entry(counts@, a, b));
            if ids@.len() < 2 {
                assert(pair_count(ids@, a, b) == 0);
                if ids@.len() == 1 {
                    assert(ids@.subrange(0, 1) =~= ids@);
                }
            }
        }
        model
    }

    /// Analogy: the cook's suggestion.
    ///
    /// Logits for the token after `token`: one score per vocabulary entry,
    /// the row of the tally sheet that belongs to `token`.
    pub fn forward(&self, token: u32) -> (logits: Vec<usize>)
        requires
            token < VOCAB_SIZE,
        ensures
            logits@ == self@[token as int],
    {
        proof {
            use_type_invariant(self);
        }
        let base = token as usize * VOCAB_SIZE;
        let mut logits: Vec<usize> = Vec::new();
        let mut j: usize = 0;
        while j < VOCAB_SIZE
            invariant
                token < VOCAB_SIZE,
                base == token * VOCAB_SIZE,
                self.weights@.len() == VOCAB_SIZE * VOCAB_SIZE,
                j <= VOCAB_SIZE,
                logits@ =~= self@[token as int].subrange(0, j as int),
            decreases VOCAB_SIZE - j,
        {
            logits.push(self.weights[base + j]);
            j = j + 1;
        }
        logits
    }
}


/// The one-hot row of `id`: 1 at position `id`, 0 everywhere else.
pub open spec fn one_hot(id: int) -> Seq<int> {
    Seq::new(VOCAB_SIZE as nat, |i: int| if i == id { 1int } else { 0int })
}

/// The sum over the first `n` rows `i` of `x[i] * table[i][b]`.
pub open spec fn dot_column(x: Seq<int>, table: Seq<Seq<usize>>, b: int, n: nat) -> int
    decreases n,
{
    if n == 0 {
        0
    } else {
        dot_column(x, table, b, (n - 1) as nat) + x[n - 1] * table[n - 1][b]
    }
}

/// The row vector `x` times the `VOCAB_SIZE x VOCAB_SIZE` matrix `table`.
pub open spec fn vec_mat(x: Seq<int>, table: Seq<Seq<usize>>) -> Seq<int> {
    Seq::new(VOCAB_SIZE as nat, |b: int| dot_column(x, table, b, VOCAB_SIZE as nat))
}

/// A row of counts, read as integers.
pub open spec fn as_ints(row: Seq<usize>) -> Seq<int> {
    row.map_values(|v: usize| v as int)
}

/// The table of a bigram model always has `VOCAB_SIZE` rows of
/// `VOCAB_SIZE` entries.
pub proof fn lemma_table_shape(model: Bigram)
    ensures
        model@.len() == VOCAB_SIZE,
        forall|a: int| 0 <= a < VOCAB_SIZE ==> (#[trigger] model@[a]).len() == VOCAB_SIZE,
{
}

proof fn lemma_dot_one_hot(table: Seq<Seq<usize>>, id: int, b: int, n: nat)
    requires
        n <= VOCAB_SIZE,
        table.len() == VOCAB_SIZE,
        0 <= id < VOCAB_SIZE,
    ensures
        dot_column(one_hot(id), table, b, n) == if id < n { table[id][b] as int } else { 0 },
    decreases n,
{
    if n > 0 {
        lemma_dot_one_hot(table, id, b, (n - 1) as nat);
        let x = one_hot(id);
        if n - 1 == id {
            assert(x[n - 1] == 1);
        } else {
            assert(x[n - 1] == 0);
        }
    }
}

/// Reading a row of the table is the one-hot product: the one-hot row of a
/// token times the table gives exactly that token's row of counts. This is
/// what `Bigram::forward` computes.
pub proof fn lemma_one_hot_selects_row(table: Seq<Seq<usize>>, id: int)
    requires
        table.len() == VOCAB_SIZE,
        forall|a: int| 0 <= a < VOCAB_SIZE ==> (#[trigger] table[a]).len() == VOCAB_SIZE,
        0 <= id < VOCAB_SIZE,
    ensures
        vec_mat(one_hot(id), table) == as_ints(table[id]),
{
    assert forall|b: int| 0 <= b < VOCAB_SIZE implies #[trigger] vec_mat(one_hot(id), table)[b]
        == as_ints(table[id])[b] by {
        lemma_dot_one_hot(table, id, b, VOCAB_SIZE as nat);
    }
    assert(vec_mat(one_hot(id), table) =~= as_ints(table[id]));
}


/// Fewer than two ids hold no pair at all.
pub proof fn lemma_short_ids_count_nothing(ids: Seq<u32>, a: int, b: int)
    requires
        ids.len() < 2,
    ensures
        pair_count(ids, a, b) == 0,
{
}

/// Appending an id `y` to non-empty ids adds exactly one to the count of the
/// pair (last id, `y`), whatever the two ids are (equal ones included), and
/// leaves every other pair's count unchanged.
pub proof fn lemma_append_counts_one_pair(ids: Seq<u32>, y: u32, a: int, b: int)
    requires
        ids.len() > 0,
    ensures
        pair_count(ids.push(y), a, b) == pair_count(ids, a, b) + if a == ids.last() && b == y {
            1int
        } else {
            0int
        },
{
    assert(ids.push(y).drop_last() =~= ids);
    assert(ids.push(y)[ids.len() - 1] == ids.last());
}

/// The sum of the counts of the pairs `(a, b)` for `b < n`.
pub open spec fn row_total(ids: Seq<u32>, a: int, n: nat) -> int
    decreases n,
{
    if n == 0 {
        0
    } else {
        row_total(ids, a, (n - 1) as nat) + pair_count(ids, a, n - 1)
    }
}

/// The sum of the counts of all pairs `(a, b)` with `a < n` and
/// `b < VOCAB_SIZE`.
pub open spec fn table_total(ids: Seq<u32>, n: nat) -> int
    decreases n,
{
    if n == 0 {
        0
    } else {
        table_total(ids, (n - 1) as nat) + row_total(ids, n - 1, VOCAB_SIZE as nat)
    }
}

proof fn lemma_row_total_push(ids: Seq<u32>, y: u32, a: int, n: nat)
    requires
        ids.len() > 0,
    ensures
        row_total(ids.push(y), a, n) == row_total(ids, a, n) + if a == ids.last() && y < n {
            1int
        } else {
            0int
        },
    decreases n,
{
    if n > 0 {
        lemma_row_total_push(ids, y, a, (n - 1) as nat);
        lemma_append_counts_one_pair(ids, y, a, n - 1);
    }
}

proof fn lemma_table_total_push(ids: Seq<u32>, y: u32, n: nat)
    requires
        ids.len() > 0,
        y < VOCAB_SIZE,
    ensures
        table_total(ids.push(y), n) == table_total(ids, n) + if ids.last() < n {
            1int
        } else {
            0int
        },
    decreases n,
{
    if n > 0 {
        lemma_table_total_push(ids, y, (n - 1) as nat);
        lemma_row_total_push(ids, y, n - 1, VOCAB_SIZE as nat);
    }
}

proof fn lemma_totals_of_short_ids(ids: Seq<u32>, n: nat)
    requires
        ids.len() < 2,
    ensures
        table_total(ids, n) == 0,
    decreases n,
{
    if n > 0 {
        lemma_totals_of_short_ids(ids, (n - 1) as nat);
        lemma_row_total_short(ids, n - 1, VOCAB_SIZE as nat);
    }
}

proof fn lemma_row_total_short(ids: Seq<u32>, a: int, n: nat)
    requires
        ids.len() < 2,
    ensures
        row_total(ids, a, n) == 0,
    decreases n,
{
    if n > 0 {
        lemma_row_total_short(ids, a, (n - 1) as nat);
    }
}

/// Every window of two neighbouring ids is counted exactly once: over the
/// whole table the counts add up to one less than the number of ids (and
/// to zero for fewer than two ids).
pub proof fn lemma_counts_add_up_to_windows(ids: Seq<u32>)
    requires
        ids_are_bytes(ids),
    ensures
        table_total(ids, VOCAB_SIZE as nat) == if ids.len() < 2 {
            0
        } else {
            ids.len() - 1
        },
    decreases ids.len(),
{
    if ids.len() < 2 {
        lemma_totals_of_short_ids(ids, VOCAB_SIZE as nat);
    } else {
        let prefix = ids.drop_last();
        assert(ids_are_bytes(prefix)) by {
            assert forall|i: int| 0 <= i < prefix.len() implies #[trigger] prefix[i] < VOCAB_SIZE by {
                assert(prefix[i] == ids[i]);
            }
        }
        lemma_counts_add_up_to_windows(prefix);
        let y = ids.last();
        assert(prefix.push(y) =~= ids);
        assert(y < VOCAB_SIZE);
        assert(prefix.last() == ids[ids.len() - 2]);
        assert(prefix.last() < VOCAB_SIZE);
        lemma_table_total_push(prefix, y, VOCAB_SIZE as nat);
    }
}

/// A byte that never occurs before the last position of the ids is never
/// followed by anything: its whole row of counts is zero.
pub proof fn lemma_unseen_id_never_counted(ids: Seq<u32>, a: int, b: int)
    requires
        forall|i: int| 0 <= i < ids.len() - 1 ==> #[trigger] ids[i] != a,
    ensures
        pair_count(ids, a, b) == 0,
    decreases ids.len(),
{
    if ids.len() >= 2 {
        let shorter = ids.drop_last();
        assert forall|i: int| 0 <= i < shorter.len() - 1 implies #[trigger] shorter[i] != a by {
            assert(shorter[i] == ids[i]);
        }
        lemma_unseen_id_never_counted(shorter, a, b);
        assert(ids[ids.len() - 2] != a);
    }
}

} // verus!
