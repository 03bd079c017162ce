//! Random draws and small operations on vectors of positions.

use rand::Rng;
use vstd::prelude::*;

verus! {

/// `rand::Rng::gen_range` on the thread's generator with the range from 0
/// up to but without `upper`: some number of that range. The call panics on
/// an empty range, which `requires` excludes.
#[verifier::external_body]
pub(crate) fn random_below(upper: usize) -> (drawn: usize)
    requires
        upper > 0,
    ensures
        drawn < upper,
{
    rand::thread_rng().gen_range(0..upper)
}

/// The `draw`-th number, counted from 0, among those that are not
/// `excluded`.
pub open spec fn spec_skip_excluded(draw: usize, excluded: usize) -> int {
    if draw < excluded {
        draw as int
    } else {
        draw + 1
    }
}

/// The `draw`-th number, counted from 0, among those that are not
/// `excluded`. It turns a draw from `upper - 1` numbers into a draw from
/// the numbers below `upper` without `excluded`.
pub fn skip_excluded(draw: usize, excluded: usize) -> (value: usize)
    requires
        draw < usize::MAX,
    ensures
        value == spec_skip_excluded(draw, excluded),
        value != excluded,
{
    if draw < excluded {
        draw
    } else {
        draw + 1
    }
}

/// A random number below `upper_range` that is not `excluded`, each such
/// number being as likely as any other; 0 when `upper_range` is at most 1.
pub fn gen_random_number_for_node(excluded: usize, upper_range: usize) -> (value: usize)
    ensures
        upper_range <= 1 ==> value == 0,
        upper_range >= 2 ==> value < upper_range && value != excluded,
{
    if upper_range <= 1 {
        return 0;
    }
    if excluded < upper_range {
        let draw = random_below(upper_range - 1);
        skip_excluded(draw, excluded)
    } else {
        random_below(upper_range)
    }
}

/// The members of `v1` that are not in `v2`, each once, in the order of
/// their first occurrence in `v1`.
pub open spec fn spec_vect_difference(v1: Seq<usize>, v2: Seq<usize>) -> Seq<usize>
    decreases v1.len(),
{
    if v1.len() == 0 {
        Seq::empty()
    } else {
        let rest = spec_vect_difference(v1.drop_last(), v2);
        if v2.contains(v1.last()) || rest.contains(v1.last()) {
            rest
        } else {
            rest.push(v1.last())
        }
    }
}

/// Whether `v` holds `wanted`.
pub fn vec_contains(v: &Vec<usize>, wanted: usize) -> (found: bool)
    ensures
        found == v@.contains(wanted),
{
    let mut k: usize = 0;
    while k < v.len()
        invariant
            k <= v@.len(),
            forall|i: int| 0 <= i < k ==> v@[i] != wanted,
        decreases v@.len() - k,
    {
        if v[k] == wanted {
            return true;
        }
        k += 1;
    }
    false
}

/// What `spec_vect_difference` returns is a set difference without
/// repetitions.
pub proof fn lemma_vect_difference(v1: Seq<usize>, v2: Seq<usize>)
    ensures
        spec_vect_difference(v1, v2).no_duplicates(),
        forall|x: usize| #[trigger]
            spec_vect_difference(v1, v2).contains(x) <==> v1.contains(x) && !v2.contains(x),
    decreases v1.len(),
{
    if v1.len() > 0 {
        let head = v1.drop_last();
        let rest = spec_vect_difference(head, v2);
        lemma_vect_difference(head, v2);
        let out = spec_vect_difference(v1, v2);
        assert forall|x: usize| #[trigger] out.contains(x) <==> v1.contains(x) && !v2.contains(
            x,
        ) by {
            if v1.contains(x) {
                let k = choose|k: int| 0 <= k < v1.len() && v1[k] == x;
                if k < v1.len() - 1 {
                    assert(head[k] == x);
                }
            }
            if head.contains(x) {
                let k = choose|k: int| 0 <= k < head.len() && head[k] == x;
                assert(v1[k] == x);
            }
            assert(v1[v1.len() - 1] == v1.last());
            if out.contains(x) {
                let k = choose|k: int| 0 <= k < out.len() && out[k] == x;
                if out != rest && k < rest.len() {
                    assert(rest[k] == x);
                }
            }
            if rest.contains(x) {
                let k = choose|k: int| 0 <= k < rest.len() && rest[k] == x;
                assert(out[k] == x);
            }
            if out != rest {
                assert(out[out.len() - 1] == v1.last());
            }
        }
    }
}

/// The members of `v1` that are not in `v2`, each once.
pub fn vect_difference(v1: &Vec<usize>, v2: &Vec<usize>) -> (difference: Vec<usize>)
    ensures
        difference@ == spec_vect_difference(v1@, v2@),
        difference@.no_duplicates(),
        forall|x: usize| #[trigger] difference@.contains(x) <==> v1@.contains(x) && !v2@.contains(x),
{
    let mut difference: Vec<usize> = Vec::new();
    let mut k: usize = 0;
    while k < v1.len()
        invariant
            k <= v1@.len(),
            difference@ == spec_vect_difference(v1@.take(k as int), v2@),
        decreases v1@.len() - k,
    {
        let x = v1[k];
        proof {
            assert(v1@.take(k + 1).drop_last() =~= v1@.take(k as int));
        }
        if !vec_contains(v2, x) && !vec_contains(&difference, x) {
            difference.push(x);
        }
        k += 1;
    }
    proof {
        assert(v1@.take(k as int) =~= v1@);
        lemma_vect_difference(v1@, v2@);
    }
    difference
}

/// The indices at which `vals` holds `wanted`, in rising order.
pub open spec fn indices_of(vals: Seq<usize>, wanted: usize) -> Seq<usize>
    decreases vals.len(),
{
    if vals.len() == 0 {
        Seq::empty()
    } else {
        let rest = indices_of(vals.drop_last(), wanted);
        if vals.last() == wanted {
            rest.push((vals.len() - 1) as usize)
        } else {
            rest
        }
    }
}

/// `indices_of` lists exactly the indices at which the value stands, each
/// once and in rising order.
pub proof fn lemma_indices_of(vals: Seq<usize>, wanted: usize)
    requires
        vals.len() <= usize::MAX,
    ensures
        forall|k: int|
            0 <= k < indices_of(vals, wanted).len() ==> (#[trigger] indices_of(vals, wanted)[k])
                < vals.len() && vals[indices_of(vals, wanted)[k] as int] == wanted,
        forall|i: int, j: int|
            0 <= i < j < indices_of(vals, wanted).len() ==> indices_of(vals, wanted)[i]
                < indices_of(vals, wanted)[j],
        forall|i: usize| #[trigger]
            indices_of(vals, wanted).contains(i) <==> i < vals.len() && vals[i as int] == wanted,
    decreases vals.len(),
{
    if vals.len() > 0 {
        let head = vals.drop_last();
        lemma_indices_of(head, wanted);
        let rest = indices_of(head, wanted);
        let out = indices_of(vals, wanted);
        assert forall|i: usize| #[trigger] out.contains(i) <==> i < vals.len() && vals[i as int]
            == wanted by {
            if rest.contains(i) {
                let k = choose|k: int| 0 <= k < rest.len() && rest[k] == i;
                assert(out[k] == i);
            }
            if out.contains(i) {
                let k = choose|k: int| 0 <= k < out.len() && out[k] == i;
                if k < rest.len() {
                    assert(rest[k] == i);
                }
            }
            if vals.last() == wanted {
                assert(out[out.len() - 1] == vals.len() - 1);
            }
            if i < vals.len() - 1 {
                assert(head[i as int] == vals[i as int]);
            }
        }
    }
}

/// Appends to `result_vec` the indices at which `vecs` holds `comp_value`,
/// in rising order.
pub fn get_argmins_of_value(vecs: &Vec<usize>, result_vec: &mut Vec<usize>, comp_value: usize)
    ensures
        final(result_vec)@ == old(result_vec)@ + indices_of(vecs@, comp_value),
{
    let mut i: usize = 0;
    proof {
        assert(old(result_vec)@ + indices_of(vecs@.take(0), comp_value) =~= old(result_vec)@);
    }
    while i < vecs.len()
        invariant
            i <= vecs@.len(),
            result_vec@ == old(result_vec)@ + indices_of(vecs@.take(i as int), comp_value),
        decreases vecs@.len() - i,
    {
        proof {
            assert(vecs@.take(i + 1).drop_last() =~= vecs@.take(i as int));
        }
        if vecs[i] == comp_value {
            result_vec.push(i);
            proof {
                assert(result_vec@ =~= old(result_vec)@ + indices_of(
                    vecs@.take(i + 1),
                    comp_value,
                ));
            }
        }
        i += 1;
    }
    proof {
        assert(vecs@.take(i as int) =~= vecs@);
    }
}

/// The first index at which `nets` holds its least value.
pub fn get_argmin(nets: &Vec<usize>) -> (index: usize)
    requires
        nets@.len() > 0,
    ensures
        index < nets@.len(),
        forall|j: int| 0 <= j < nets@.len() ==> nets@[j] >= nets@[index as int],
        forall|j: int| 0 <= j < index ==> nets@[j] > nets@[index as int],
{
    let mut index: usize = 0;
    let mut j: usize = 1;
    while j < nets.len()
        invariant
            index < j <= nets@.len(),
            forall|k: int| 0 <= k < j ==> nets@[k] >= nets@[index as int],
            forall|k: int| 0 <= k < index ==> nets@[k] > nets@[index as int],
        decreases nets@.len() - j,
    {
        if nets[j] < nets[index] {
            index = j;
        }
        j += 1;
    }
    index
}

/// The least value of `nets`.
pub fn get_min(nets: &Vec<usize>) -> (least: usize)
    requires
        nets@.len() > 0,
    ensures
        nets@.contains(least),
        forall|j: int| 0 <= j < nets@.len() ==> nets@[j] >= least,
{
    nets[get_argmin(nets)]
}

/// The first index at which `row` holds `wanted`.
pub fn first_index_of(row: &Vec<usize>, wanted: usize) -> (found: Option<usize>)
    ensures
        match found {
            Some(k) => k < row@.len() && row@[k as int] == wanted && forall|i: int|
                0 <= i < k ==> row@[i] != wanted,
            None => !row@.contains(wanted),
        },
{
    let mut k: usize = 0;
    while k < row.len()
        invariant
            k <= row@.len(),
            forall|i: int| 0 <= i < k ==> row@[i] != wanted,
        decreases row@.len() - k,
    {
        if row[k] == wanted {
            return Some(k);
        }
        k += 1;
    }
    None
}

/// The entries of `positions`, in a vector of its own.
pub fn copy_of(positions: &Vec<usize>) -> (copy: Vec<usize>)
    ensures
        copy@ == positions@,
{
    let mut copy: Vec<usize> = Vec::new();
    let mut k: usize = 0;
    while k < positions.len()
        invariant
            k <= positions@.len(),
            copy@ == positions@.take(k as int),
        decreases positions@.len() - k,
    {
        copy.push(positions[k]);
        proof {
            assert(positions@.take(k + 1) =~= positions@.take(k as int).push(positions@[k as int]));
        }
        k += 1;
    }
    proof {
        assert(positions@.take(k as int) =~= positions@);
    }
    copy
}

/// The positions from `first` up to but without `end`, in rising order.
pub fn position_range(first: usize, end: usize) -> (positions: Vec<usize>)
    requires
        first <= end,
    ensures
        positions@ == Seq::new((end - first) as nat, |k: int| (first + k) as usize),
{
    let mut positions: Vec<usize> = Vec::new();
    let mut position: usize = first;
    while position < end
        invariant
            first <= position <= end,
            positions@.len() == position - first,
            forall|k: int| 0 <= k < positions@.len() ==> positions@[k] == first + k,
        decreases end - position,
    {
        positions.push(position);
        position += 1;
    }
    proof {
        assert(positions@ =~= Seq::new((end - first) as nat, |k: int| (first + k) as usize));
    }
    positions
}

/// The entries of `positions` that are not below `start`.
pub(crate) fn positions_from(positions: &Vec<usize>, start: usize) -> (kept: Vec<usize>)
    ensures
        forall|i: int| 0 <= i < kept@.len() ==> kept@[i] >= start && positions@.contains(kept@[i]),
        forall|p: usize| positions@.contains(p) && p >= start ==> kept@.contains(p),
{
    let mut kept: Vec<usize> = Vec::new();
    let mut k: usize = 0;
    while k < positions.len()
        invariant
            k <= positions@.len(),
            forall|i: int|
                0 <= i < kept@.len() ==> kept@[i] >= start && positions@.contains(kept@[i]),
            forall|i: int| 0 <= i < k && positions@[i] >= start ==> kept@.contains(positions@[i]),
        decreases positions@.len() - k,
    {
        let ghost before = kept@;
        if positions[k] >= start {
            kept.push(positions[k]);
        }
        proof {
            assert forall|i: int| 0 <= i < k + 1 && positions@[i] >= start implies kept@.contains(
                positions@[i],
            ) by {
                if i < k {
                    let j = choose|j: int| 0 <= j < before.len() && before[j] == positions@[i];
                    assert(kept@[j] == positions@[i]);
                } else {
                    assert(kept@[kept@.len() - 1] == positions@[i]);
                }
            }
        }
        k += 1;
    }
    kept
}

/// Whether the two vectors hold the same entries in the same order.
pub fn same_positions(a: &Vec<usize>, b: &Vec<usize>) -> (same: bool)
    ensures
        same == (a@ == b@),
{
    if a.len() != b.len() {
        return false;
    }
    let mut k: usize = 0;
    while k < a.len()
        invariant
            a@.len() == b@.len(),
            k <= a@.len(),
            forall|i: int| 0 <= i < k ==> a@[i] == b@[i],
        decreases a@.len() - k,
    {
        if a[k] != b[k] {
            return false;
        }
        k += 1;
    }
    proof {
        assert(a@ =~= b@);
    }
    true
}

} // verus!
