//! The fitness of boolean predictions.

use vstd::prelude::*;

verus! {

/// The rows of a table as sequences.
pub open spec fn table_view(table: Seq<Vec<bool>>) -> Seq<Seq<bool>> {
    Seq::new(table.len(), |r: int| table[r]@)
}

/// How many of the first `k` entries of `prediction` differ from the entry
/// of `label` at the same place.
pub open spec fn row_mismatches(prediction: Seq<bool>, label: Seq<bool>, k: nat) -> nat
    decreases k,
{
    if k == 0 {
        0
    } else {
        row_mismatches(prediction, label, (k - 1) as nat) + if prediction[k - 1] != label[k - 1] {
            1nat
        } else {
            0nat
        }
    }
}

/// How many cells of the first `r` rows of `prediction` differ from the
/// cell of `label` at the same place.
pub open spec fn mismatches(prediction: Seq<Seq<bool>>, label: Seq<Seq<bool>>, r: nat) -> nat
    decreases r,
{
    if r == 0 {
        0
    } else {
        mismatches(prediction, label, (r - 1) as nat) + row_mismatches(
            prediction[r - 1],
            label[r - 1],
            prediction[r - 1].len(),
        )
    }
}

/// How many cells the first `r` rows of `table` have.
pub open spec fn cells(table: Seq<Seq<bool>>, r: nat) -> nat
    decreases r,
{
    if r == 0 {
        0
    } else {
        cells(table, (r - 1) as nat) + table[r - 1].len()
    }
}

/// The number of wrong cells of all predictions.
pub open spec fn spec_fitness_boolean(prediction: Seq<Seq<bool>>, label: Seq<Seq<bool>>) -> nat {
    mismatches(prediction, label, prediction.len())
}

/// The number of cells grows with the number of rows.
pub proof fn lemma_cells_grow(table: Seq<Seq<bool>>, r: nat, s: nat)
    requires
        r <= s,
    ensures
        cells(table, r) <= cells(table, s),
    decreases s - r,
{
    if r < s {
        lemma_cells_grow(table, r, (s - 1) as nat);
    }
}

/// Tables whose rows are as long as each other's have as many cells.
pub proof fn lemma_same_cells(a: Seq<Seq<bool>>, b: Seq<Seq<bool>>, r: nat)
    requires
        r <= a.len(),
        r <= b.len(),
        forall|i: int| 0 <= i < r ==> a[i].len() == b[i].len(),
    ensures
        cells(a, r) == cells(b, r),
    decreases r,
{
    if r > 0 {
        lemma_same_cells(a, b, (r - 1) as nat);
    }
}

/// No more entries differ than there are.
pub proof fn lemma_row_mismatches_bound(prediction: Seq<bool>, label: Seq<bool>, k: nat)
    ensures
        row_mismatches(prediction, label, k) <= k,
    decreases k,
{
    if k > 0 {
        lemma_row_mismatches_bound(prediction, label, (k - 1) as nat);
    }
}

/// No more cells differ than there are.
pub proof fn lemma_mismatches_bound(prediction: Seq<Seq<bool>>, label: Seq<Seq<bool>>, r: nat)
    ensures
        mismatches(prediction, label, r) <= cells(prediction, r),
    decreases r,
{
    if r > 0 {
        lemma_mismatches_bound(prediction, label, (r - 1) as nat);
        lemma_row_mismatches_bound(prediction[r - 1], label[r - 1], prediction[r - 1].len());
    }
}

/// The fitness of boolean predictions: the number of cells of `prediction`
/// that differ from the cell of `label` at the same place. Lower is better,
/// and 0 is a perfect match.
pub fn fitness_boolean(prediction: &Vec<Vec<bool>>, label: &Vec<Vec<bool>>) -> (fitness: usize)
    requires
        prediction@.len() == label@.len(),
        forall|r: int| 0 <= r < prediction@.len() ==> prediction@[r]@.len() == label@[r]@.len(),
        cells(table_view(prediction@), prediction@.len()) <= usize::MAX,
    ensures
        fitness == spec_fitness_boolean(table_view(prediction@), table_view(label@)),
{
    let ghost p = table_view(prediction@);
    let ghost l = table_view(label@);
    let mut fitness: usize = 0;
    let mut r: usize = 0;
    while r < prediction.len()
        invariant
            p == table_view(prediction@),
            l == table_view(label@),
            prediction@.len() == label@.len(),
            forall|i: int| 0 <= i < prediction@.len() ==> prediction@[i]@.len() == label@[i]@.len(),
            cells(p, prediction@.len() as nat) <= usize::MAX,
            r <= prediction@.len(),
            fitness == mismatches(p, l, r as nat),
        decreases prediction@.len() - r,
    {
        let ghost before = fitness;
        let mut k: usize = 0;
        proof {
            lemma_mismatches_bound(p, l, r as nat);
            lemma_cells_grow(p, (r + 1) as nat, prediction@.len() as nat);
        }
        while k < prediction[r].len()
            invariant
                p == table_view(prediction@),
                l == table_view(label@),
                prediction@.len() == label@.len(),
                r < prediction@.len(),
                prediction@[r as int]@.len() == label@[r as int]@.len(),
                k <= prediction@[r as int]@.len(),
                before <= cells(p, r as nat),
                cells(p, (r + 1) as nat) <= usize::MAX,
                fitness == before + row_mismatches(p[r as int], l[r as int], k as nat),
            decreases prediction@[r as int]@.len() - k,
        {
            proof {
                lemma_row_mismatches_bound(p[r as int], l[r as int], k as nat);
            }
            if prediction[r][k] != label[r][k] {
                fitness += 1;
            }
            k += 1;
        }
        r += 1;
    }
    fitness
}

} // verus!
