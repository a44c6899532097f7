use vstd::prelude::*;

verus! {

/// Analogy: table etiquette — a guest may listen only to guests seated
/// before them, who have already spoken; later seats have not.
///
/// The causal mask of a `rows x cols` score table: entry `[i][j]` is `true`
/// exactly when seat `j` lies in seat `i`'s future (`j > i`), i.e. when the
/// score must become -inf so that softmax gives it a share of exactly zero.
pub fn future_mask(rows: usize, cols: usize) -> (mask: Vec<Vec<bool>>)
    ensures
        mask@.len() == rows,
        forall|i: int| 0 <= i < rows ==> (#[trigger] mask@[i])@.len() == cols,
        forall|i: int, j: int|
            0 <= i < rows && 0 <= j < cols ==> #[trigger] mask@[i]@[j] == (j > i),
{
    let mut mask: Vec<Vec<bool>> = Vec::new();
    let mut i: usize = 0;
    while i < rows
        invariant
            i <= rows,
            mask@.len() == i,
            forall|r: int| 0 <= r < i ==> (#[trigger] mask@[r])@.len() == cols,
            forall|r: int, j: int|
                0 <= r < i && 0 <= j < cols ==> #[trigger] mask@[r]@[j] == (j > r),
        decreases rows - i,
    {
        let mut row: Vec<bool> = Vec::new();
        let mut j: usize = 0;
        while j < cols
            invariant
                j <= cols,
                row@.len() == j,
                forall|c: int| 0 <= c < j ==> #[trigger] row@[c] == (c > i),
            decreases cols - j,
        {
            row.push(j > i);
            j = j + 1;
        }
        mask.push(row);
        i = i + 1;
    }
    mask
}

} // verus!
