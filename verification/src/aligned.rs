//! Index logic of aligned UMAP: the relations that pair points of adjacent
//! slices, their checks and degree counts, the per-slice seeds and the
//! alignment epoch budget.
use vstd::prelude::*;
use crate::sorting::{lex_lt, sort_dedup_pairs, strictly_sorted};
use crate::types::AlignedUmapError;
use crate::text::string_of;

verus! {

/// A relation between the points of two adjacent slices: the pairs
/// `(left_idx, right_idx)` of points that stand for the same entity, kept
/// sorted with no pair repeated.
#[derive(Debug, Clone)]
pub struct AlignmentRelation {
    pairs: Vec<(usize, usize)>,
}

impl View for AlignmentRelation {
    type V = Seq<(usize, usize)>;

    closed spec fn view(&self) -> Seq<(usize, usize)> {
        self.pairs@
    }
}

impl AlignmentRelation {
    /// The relation holding the given pairs, sorted, each once.
    pub fn new(pairs: Vec<(usize, usize)>) -> (r: Self)
        ensures
            strictly_sorted(r@),
            r@.to_set() == pairs@.to_set(),
    {
        let sorted = sort_dedup_pairs(pairs.as_slice());
        AlignmentRelation { pairs: sorted }
    }

    /// Pairs every point `i < n_samples` with the point `i` of the next slice.
    pub fn identity(n_samples: usize) -> (r: Self)
        ensures
            r@ == Seq::new(n_samples as nat, |i: int| (i as usize, i as usize)),
            strictly_sorted(r@),
    {
        let mut pairs: Vec<(usize, usize)> = Vec::new();
        let mut idx: usize = 0;
        while idx < n_samples
            invariant
                idx <= n_samples,
                pairs@ == Seq::new(idx as nat, |i: int| (i as usize, i as usize)),
            decreases n_samples - idx,
        {
            pairs.push((idx, idx));
            idx = idx + 1;
            proof {
                assert(pairs@ =~= Seq::new(idx as nat, |i: int| (i as usize, i as usize)));
            }
        }
        AlignmentRelation { pairs }
    }

    /// The relation `{(i, j) | map[i] == Some(j)}`.
    pub fn from_forward_map(map: &[Option<usize>]) -> (r: Self)
        ensures
            strictly_sorted(r@),
            forall|p: (usize, usize)|
                r@.contains(p) <==> (p.0 < map.len() && map[p.0 as int] == Some(p.1)),
    {
        let mut pairs: Vec<(usize, usize)> = Vec::new();
        let mut left_idx: usize = 0;
        while left_idx < map.len()
            invariant
                left_idx <= map.len(),
                forall|p: (usize, usize)|
                    pairs@.contains(p) <==> (p.0 < left_idx && map[p.0 as int] == Some(p.1)),
            decreases map.len() - left_idx,
        {
            let ghost before = pairs@;
            match map[left_idx] {
                Some(right_idx) => {
                    pairs.push((left_idx, right_idx));
                    proof {
                        assert forall|p: (usize, usize)| pairs@.contains(p) <==> (p.0 < left_idx + 1
                            && map[p.0 as int] == Some(p.1)) by {
                            if pairs@.contains(p) && p != (left_idx, right_idx) {
                                let t = choose|t: int| 0 <= t < pairs.len() && pairs@[t] == p;
                                assert(t < before.len());
                                assert(before.contains(p));
                            }
                            if p.0 < left_idx && map[p.0 as int] == Some(p.1) {
                                assert(before.contains(p));
                                let t = choose|t: int| 0 <= t < before.len() && before[t] == p;
                                assert(pairs@[t] == p);
                            }
                            if p == (left_idx, right_idx) {
                                assert(pairs@[before.len() as int] == p);
                            }
                        }
                    }
                },
                None => {},
            }
            left_idx = left_idx + 1;
        }
        let r = Self::new(pairs);
        proof {
            assert forall|p: (usize, usize)| r@.contains(p) <==> pairs@.contains(p) by {
                assert(r@.to_set().contains(p) == r@.contains(p));
                assert(pairs@.to_set().contains(p) == pairs@.contains(p));
            }
        }
        r
    }

    /// The pairs, as the constructors left them (sorted, each once).
    pub fn pairs(&self) -> (r: &[(usize, usize)])
        ensures
            r@ == self@,
    {
        self.pairs.as_slice()
    }

    /// The number of pairs.
    pub fn len(&self) -> (n: usize)
        ensures
            n == self@.len(),
    {
        self.pairs.len()
    }

    /// Whether the relation holds no pair.
    pub fn is_empty(&self) -> (b: bool)
        ensures
            b == (self@.len() == 0),
    {
        self.pairs.len() == 0
    }
}

/// Mutable access to two different slices' buffers at once.
pub fn two_vectors_mut<T>(arr: &mut [Vec<T>], i: usize, j: usize) -> (out: (&mut Vec<T>, &mut Vec<T>))
    requires
        i != j,
        i < old(arr)@.len(),
        j < old(arr)@.len(),
    ensures
        *out.0 == old(arr)@[i as int],
        *out.1 == old(arr)@[j as int],
        final(arr)@ == old(arr)@.update(i as int, *final(out.0)).update(j as int, *final(out.1)),
{
    if i < j {
        let (left, right) = arr.split_at_mut(j);
        (&mut left[i], &mut right[0])
    } else {
        let (left, right) = arr.split_at_mut(i);
        (&mut right[0], &mut left[j])
    }
}

/// The seed of slice number `slice_ordinal` (counted from 1), mixed from
/// the base seed by the SplitMix64 finaliser.
pub open spec fn slice_seed(base_seed: u64, slice_ordinal: u64) -> u64 {
    let z0 = base_seed ^ slice_ordinal.wrapping_mul(0x9E37_79B9_7F4A_7C15);
    let z1 = (z0 ^ (z0 >> 30u64)).wrapping_mul(0xBF58_476D_1CE4_E5B9);
    let z2 = (z1 ^ (z1 >> 27u64)).wrapping_mul(0x94D0_49BB_1331_11EB);
    z2 ^ (z2 >> 31u64)
}

/// The UMAP seed of slice number `slice_ordinal` (counted from 1).
pub fn derive_slice_seed(base_seed: u64, slice_ordinal: u64) -> (seed: u64)
    ensures
        seed == slice_seed(base_seed, slice_ordinal),
{
    let mut z = base_seed ^ slice_ordinal.wrapping_mul(0x9E37_79B9_7F4A_7C15);
    z = (z ^ (z >> 30)).wrapping_mul(0xBF58_476D_1CE4_E5B9);
    z = (z ^ (z >> 27)).wrapping_mul(0x94D0_49BB_1331_11EB);
    z ^ (z >> 31)
}

/// `e` is `InvalidParameter` with the message `msg`.
pub open spec fn aligned_invalid(e: AlignedUmapError, msg: Seq<char>) -> bool {
    e matches AlignedUmapError::InvalidParameter(m) && m@ == msg
}

/// Checks the alignment settings, in this order: the regularisation is
/// finite and `>= 0` (`regularization_ok`), the learning rate is finite
/// and `> 0` (`learning_rate_ok`), an explicit epoch count is not zero, the
/// recentring interval is not zero.
pub fn validate_aligned_params(
    regularization_ok: bool,
    learning_rate_ok: bool,
    alignment_epochs: Option<usize>,
    recenter_interval: usize,
) -> (r: Result<(), AlignedUmapError>)
    ensures
        !regularization_ok ==> (r matches Err(e) && aligned_invalid(
            e,
            "alignment_regularization must be finite and >= 0"@,
        )),
        regularization_ok && !learning_rate_ok ==> (r matches Err(e) && aligned_invalid(
            e,
            "alignment_learning_rate must be finite and > 0"@,
        )),
        regularization_ok && learning_rate_ok && alignment_epochs == Some(0usize) ==> (r matches Err(
            e,
        ) && aligned_invalid(e, "alignment_epochs must be >= 1 when provided"@)),
        regularization_ok && learning_rate_ok && alignment_epochs != Some(0usize)
            && recenter_interval == 0 ==> (r matches Err(e) && aligned_invalid(
            e,
            "recenter_interval must be >= 1"@,
        )),
        r is Ok <==> (regularization_ok && learning_rate_ok && alignment_epochs != Some(0usize)
            && recenter_interval != 0),
{
    if !regularization_ok {
        return Err(
            AlignedUmapError::InvalidParameter(
                string_of("alignment_regularization must be finite and >= 0"),
            ),
        );
    }
    if !learning_rate_ok {
        return Err(
            AlignedUmapError::InvalidParameter(
                string_of("alignment_learning_rate must be finite and > 0"),
            ),
        );
    }
    if let Some(epochs) = alignment_epochs {
        if epochs == 0 {
            return Err(
                AlignedUmapError::InvalidParameter(
                    string_of("alignment_epochs must be >= 1 when provided"),
                ),
            );
        }
    }
    if recenter_interval == 0 {
        return Err(AlignedUmapError::InvalidParameter(string_of("recenter_interval must be >= 1")));
    }
    Ok(())
}

/// Slice `s` is non-empty and each of its rows has `f` features.
pub open spec fn slice_well_shaped<T>(slice: Seq<Vec<T>>, f: int) -> bool {
    slice.len() > 0 && forall|t: int| 0 <= t < slice.len() ==> (#[trigger] slice[t])@.len() == f
}

/// Checks the datasets: at least two slices, every slice non-empty, every
/// row with as many features as the first row of the first slice. The
/// error names the first slice (and in it the first row) that fails.
pub fn validate_datasets<T>(datasets: &[Vec<Vec<T>>]) -> (r: Result<(), AlignedUmapError>)
    ensures
        datasets.len() == 0 ==> r matches Err(AlignedUmapError::EmptyDatasets),
        datasets.len() == 1 ==> r matches Err(AlignedUmapError::NeedAtLeastTwoDatasets),
        datasets.len() >= 2 && datasets[0]@.len() == 0 ==> r matches Err(
            AlignedUmapError::EmptySlice { slice: 0 },
        ),
        datasets.len() >= 2 && datasets[0]@.len() > 0 ==> {
            let f = datasets[0]@[0]@.len() as int;
            &&& r is Ok <==> forall|s: int|
                0 <= s < datasets.len() ==> slice_well_shaped(#[trigger] datasets[s]@, f)
            &&& r matches Err(AlignedUmapError::EmptySlice { slice }) ==> slice < datasets.len()
                && datasets[slice as int]@.len() == 0 && forall|s: int|
                0 <= s < slice ==> slice_well_shaped(#[trigger] datasets[s]@, f)
            &&& r matches Err(AlignedUmapError::FeatureMismatch { slice, expected, got }) ==> {
                &&& slice < datasets.len()
                &&& expected == f
                &&& forall|s: int| 0 <= s < slice ==> slice_well_shaped(#[trigger] datasets[s]@, f)
                &&& exists|t: int|
                    0 <= t < datasets[slice as int]@.len() && (#[trigger] datasets[slice as int]@[t])@.len()
                        == got && got != f && forall|u: int|
                        0 <= u < t ==> (#[trigger] datasets[slice as int]@[u])@.len() == f
            }
            &&& r is Ok || r matches Err(AlignedUmapError::EmptySlice { .. }) || r matches Err(
                AlignedUmapError::FeatureMismatch { .. },
            )
        },
{
    if datasets.len() == 0 {
        return Err(AlignedUmapError::EmptyDatasets);
    }
    if datasets.len() < 2 {
        return Err(AlignedUmapError::NeedAtLeastTwoDatasets);
    }
    if datasets[0].len() == 0 {
        return Err(AlignedUmapError::EmptySlice { slice: 0 });
    }
    let expected_features = datasets[0][0].len();
    let mut slice_idx: usize = 0;
    while slice_idx < datasets.len()
        invariant
            datasets.len() >= 2,
            datasets[0]@.len() > 0,
            slice_idx <= datasets.len(),
            expected_features == datasets[0]@[0]@.len(),
            forall|s: int|
                0 <= s < slice_idx ==> slice_well_shaped(#[trigger] datasets[s]@, expected_features as int),
        decreases datasets.len() - slice_idx,
    {
        let slice = &datasets[slice_idx];
        if slice.len() == 0 {
            return Err(AlignedUmapError::EmptySlice { slice: slice_idx });
        }
        let mut row: usize = 0;
        while row < slice.len()
            invariant
                datasets.len() >= 2,
                datasets[0]@.len() > 0,
                expected_features == datasets[0]@[0]@.len(),
                slice_idx < datasets.len(),
                *slice == datasets[slice_idx as int],
                forall|s: int|
                    0 <= s < slice_idx ==> slice_well_shaped(
                        #[trigger] datasets[s]@,
                        expected_features as int,
                    ),
                row <= slice.len(),
                forall|u: int| 0 <= u < row ==> (#[trigger] slice@[u])@.len() == expected_features,
            decreases slice.len() - row,
        {
            if slice[row].len() != expected_features {
                return Err(
                    AlignedUmapError::FeatureMismatch {
                        slice: slice_idx,
                        expected: expected_features,
                        got: slice[row].len(),
                    },
                );
            }
            row = row + 1;
        }
        slice_idx = slice_idx + 1;
    }
    Ok(())
}

/// With `n_datasets` slices there must be one relation per adjacent pair.
pub fn check_relation_count(n_datasets: usize, n_relations: usize) -> (r: Result<(), AlignedUmapError>)
    requires
        n_datasets >= 1,
    ensures
        n_relations == n_datasets - 1 ==> r is Ok,
        n_relations != n_datasets - 1 ==> r == Err::<(), AlignedUmapError>(
            AlignedUmapError::RelationCountMismatch { expected: (n_datasets - 1) as usize, got: n_relations },
        ),
{
    let expected_relations = n_datasets - 1;
    if n_relations != expected_relations {
        return Err(
            AlignedUmapError::RelationCountMismatch { expected: expected_relations, got: n_relations },
        );
    }
    Ok(())
}

/// The identity relations between each pair of adjacent slices; they need
/// equal sample counts, and the error names the first pair that differs.
pub fn build_identity_relations<T>(datasets: &[Vec<Vec<T>>]) -> (r: Result<
    Vec<AlignmentRelation>,
    AlignedUmapError,
>)
    ensures
        r is Ok <==> forall|s: int|
            0 <= s < datasets.len() - 1 ==> (#[trigger] datasets[s])@.len() == datasets[s + 1]@.len(),
        r matches Ok(rels) ==> rels.len() == (if datasets.len() == 0 { 0 } else { datasets.len() - 1 })
            && forall|s: int|
            0 <= s < rels.len() ==> (#[trigger] rels[s])@ == Seq::new(
                datasets[s]@.len(),
                |i: int| (i as usize, i as usize),
            ),
        r matches Err(e) ==> e matches AlignedUmapError::DatasetSampleMismatch {
            left_slice,
            right_slice,
            left_samples,
            right_samples,
        } && right_slice == left_slice + 1 && left_slice + 1 < datasets.len() && left_samples
            == datasets[left_slice as int]@.len() && right_samples == datasets[right_slice as int]@.len()
            && left_samples != right_samples && forall|s: int|
            0 <= s < left_slice ==> (#[trigger] datasets[s])@.len() == datasets[s + 1]@.len(),
{
    let n_pairs = if datasets.len() == 0 { 0 } else { datasets.len() - 1 };
    let mut relations: Vec<AlignmentRelation> = Vec::new();
    let mut slice_idx: usize = 0;
    while slice_idx < n_pairs
        invariant
            n_pairs == (if datasets.len() == 0 { 0 } else { datasets.len() - 1 }),
            slice_idx <= n_pairs,
            relations.len() == slice_idx,
            forall|s: int|
                0 <= s < slice_idx ==> (#[trigger] datasets[s])@.len() == datasets[s + 1]@.len(),
            forall|s: int|
                0 <= s < slice_idx ==> (#[trigger] relations[s])@ == Seq::new(
                    datasets[s]@.len(),
                    |i: int| (i as usize, i as usize),
                ),
        decreases n_pairs - slice_idx,
    {
        let left_len = datasets[slice_idx].len();
        let right_len = datasets[slice_idx + 1].len();
        if left_len != right_len {
            return Err(
                AlignedUmapError::DatasetSampleMismatch {
                    left_slice: slice_idx,
                    right_slice: slice_idx + 1,
                    left_samples: left_len,
                    right_samples: right_len,
                },
            );
        }
        relations.push(AlignmentRelation::identity(left_len));
        slice_idx = slice_idx + 1;
    }
    Ok(relations)
}

/// Number of pairs of `pairs` whose left point is `x`.
pub open spec fn left_degree(pairs: Seq<(usize, usize)>, x: int) -> nat
    decreases pairs.len(),
{
    if pairs.len() == 0 {
        0
    } else {
        left_degree(pairs.drop_last(), x) + if pairs.last().0 == x { 1nat } else { 0nat }
    }
}

/// Number of pairs of `pairs` whose right point is `x`.
pub open spec fn right_degree(pairs: Seq<(usize, usize)>, x: int) -> nat
    decreases pairs.len(),
{
    if pairs.len() == 0 {
        0
    } else {
        right_degree(pairs.drop_last(), x) + if pairs.last().1 == x { 1nat } else { 0nat }
    }
}

proof fn lemma_degrees_bounded(pairs: Seq<(usize, usize)>, x: int)
    ensures
        left_degree(pairs, x) <= pairs.len(),
        right_degree(pairs, x) <= pairs.len(),
    decreases pairs.len(),
{
    if pairs.len() > 0 {
        lemma_degrees_bounded(pairs.drop_last(), x);
    }
}

/// A relation between slices `left_slice` and `left_slice + 1` whose pairs
/// were checked against the slices' sizes, with the number of pairs each
/// point takes part in.
#[derive(Debug, Clone)]
pub struct PreparedRelation {
    pub left_slice: usize,
    pub right_slice: usize,
    pub pairs: Vec<(usize, usize)>,
    pub left_degree: Vec<usize>,
    pub right_degree: Vec<usize>,
}

/// The positions of the relations that hold at least one pair, in order.
pub open spec fn nonempty_positions(rels: Seq<Seq<(usize, usize)>>) -> Seq<int>
    decreases rels.len(),
{
    if rels.len() == 0 {
        Seq::empty()
    } else {
        let head = nonempty_positions(rels.drop_last());
        if rels.last().len() > 0 {
            head.push(rels.len() - 1)
        } else {
            head
        }
    }
}

/// The relations kept in preparation are exactly those holding at least one
/// pair, each once, in relation order: only empty relations are left out.
pub proof fn law_prepared_relations_keep_nonempty(rels: Seq<Seq<(usize, usize)>>)
    ensures
        forall|q: int|
            0 <= q < rels.len() ==> (rels[q].len() > 0 <==> nonempty_positions(rels).contains(q)),
        forall|m: int|
            0 <= m < nonempty_positions(rels).len() ==> 0 <= #[trigger] nonempty_positions(rels)[m]
                < rels.len(),
        forall|a: int, b: int|
            0 <= a < b < nonempty_positions(rels).len() ==> #[trigger] nonempty_positions(rels)[a]
                < #[trigger] nonempty_positions(rels)[b],
    decreases rels.len(),
{
    if rels.len() > 0 {
        let init = rels.drop_last();
        law_prepared_relations_keep_nonempty(init);
        let head = nonempty_positions(init);
        let pos = nonempty_positions(rels);
        assert forall|q: int| 0 <= q < rels.len() implies (rels[q].len() > 0 <==> pos.contains(q)) by {
            if q < rels.len() - 1 {
                assert(rels[q] == init[q]);
                if head.contains(q) {
                    let m = choose|m: int| 0 <= m < head.len() && head[m] == q;
                    assert(pos[m] == q);
                }
                if pos.contains(q) {
                    let m = choose|m: int| 0 <= m < pos.len() && pos[m] == q;
                    if m < head.len() {
                        assert(head[m] == q);
                    }
                }
            } else {
                if rels.last().len() > 0 {
                    assert(pos[head.len() as int] == q);
                } else if pos.contains(q) {
                    let m = choose|m: int| 0 <= m < pos.len() && pos[m] == q;
                    assert(head[m] < init.len());
                }
            }
        }
    }
}

/// The views of the relations.
pub open spec fn relation_views(rels: Seq<AlignmentRelation>) -> Seq<Seq<(usize, usize)>> {
    rels.map_values(|r: AlignmentRelation| r@)
}

/// Pair `t` of relation `q` points outside slice `q` or slice `q + 1`.
pub open spec fn pair_out_of_range(rels: Seq<Seq<(usize, usize)>>, lens: Seq<int>, q: int, t: int) -> bool {
    rels[q][t].0 >= lens[q] || rels[q][t].1 >= lens[q + 1]
}

/// The prepared form of relation `q`, whose pairs all lie in range.
pub open spec fn prepared_as(p: PreparedRelation, rel: Seq<(usize, usize)>, q: int, left_len: int, right_len: int) -> bool {
    &&& p.left_slice == q
    &&& p.right_slice == q + 1
    &&& p.pairs@ == rel
    &&& p.left_degree@.len() == left_len
    &&& p.right_degree@.len() == right_len
    &&& forall|x: int| 0 <= x < left_len ==> #[trigger] p.left_degree@[x] == left_degree(rel, x)
    &&& forall|x: int| 0 <= x < right_len ==> #[trigger] p.right_degree@[x] == right_degree(rel, x)
}

/// Copies `pairs` and counts the degree of each point, provided every
/// left point is below `left_len` and every right point below
/// `right_len`; otherwise gives the position of the first pair that is
/// not.
fn count_degrees(pairs: &[(usize, usize)], left_len: usize, right_len: usize) -> (r: Result<
    (Vec<(usize, usize)>, Vec<usize>, Vec<usize>),
    usize,
>)
    ensures
        r matches Err(t) ==> t < pairs.len() && (pairs[t as int].0 >= left_len || pairs[t as int].1
            >= right_len) && forall|u: int|
            0 <= u < t ==> (#[trigger] pairs[u]).0 < left_len && pairs[u].1 < right_len,
        r matches Ok((copy, ld, rd)) ==> {
            &&& forall|u: int|
                0 <= u < pairs.len() ==> (#[trigger] pairs[u]).0 < left_len && pairs[u].1 < right_len
            &&& copy@ == pairs@
            &&& ld@.len() == left_len
            &&& rd@.len() == right_len
            &&& forall|x: int| 0 <= x < left_len ==> #[trigger] ld@[x] == left_degree(pairs@, x)
            &&& forall|x: int| 0 <= x < right_len ==> #[trigger] rd@[x] == right_degree(pairs@, x)
        },
{
    let mut copy: Vec<(usize, usize)> = Vec::new();
    let mut ld: Vec<usize> = Vec::new();
    while ld.len() < left_len
        invariant
            ld.len() <= left_len,
            forall|x: int| 0 <= x < ld.len() ==> #[trigger] ld@[x] == 0,
        decreases left_len - ld.len(),
    {
        ld.push(0);
    }
    let mut rd: Vec<usize> = Vec::new();
    while rd.len() < right_len
        invariant
            rd.len() <= right_len,
            forall|x: int| 0 <= x < rd.len() ==> #[trigger] rd@[x] == 0,
        decreases right_len - rd.len(),
    {
        rd.push(0);
    }
    let mut t: usize = 0;
    while t < pairs.len()
        invariant
            t <= pairs.len(),
            copy@ == pairs@.take(t as int),
            ld@.len() == left_len,
            rd@.len() == right_len,
            forall|x: int| 0 <= x < left_len ==> #[trigger] ld@[x] == left_degree(pairs@.take(t as int), x),
            forall|x: int|
                0 <= x < right_len ==> #[trigger] rd@[x] == right_degree(pairs@.take(t as int), x),
            forall|u: int| 0 <= u < t ==> (#[trigger] pairs[u]).0 < left_len && pairs[u].1 < right_len,
        decreases pairs.len() - t,
    {
        let (left_idx, right_idx) = pairs[t];
        if left_idx >= left_len || right_idx >= right_len {
            return Err(t);
        }
        proof {
            let pt = pairs@.take(t as int);
            let pt1 = pairs@.take(t + 1);
            assert(pt1.drop_last() == pt);
            assert(pt1.last() == (left_idx, right_idx));
            lemma_degrees_bounded(pt, left_idx as int);
            lemma_degrees_bounded(pt, right_idx as int);
        }
        copy.push((left_idx, right_idx));
        let l = ld[left_idx];
        ld.set(left_idx, l + 1);
        let r = rd[right_idx];
        rd.set(right_idx, r + 1);
        proof {
            assert(copy@ =~= pairs@.take(t + 1));
        }
        t = t + 1;
    }
    proof {
        assert(pairs@.take(pairs.len() as int) == pairs@);
    }
    Ok((copy, ld, rd))
}

/// Checks each relation `q` (between slices `q` and `q + 1`) against the
/// slices' sizes and counts the degree of every point; relations without
/// pairs are left out. The error names the first pair, in relation order
/// then pair order, that points outside its slices.
pub fn prepare_relations<T>(datasets: &[Vec<Vec<T>>], relations: &[AlignmentRelation]) -> (r: Result<
    Vec<PreparedRelation>,
    AlignedUmapError,
>)
    requires
        relations.len() < datasets.len(),
    ensures
        ({
            let rels = relation_views(relations@);
            let lens = Seq::new(datasets.len() as nat, |s: int| datasets[s]@.len() as int);
            let bad = exists|q: int, t: int|
                0 <= q < rels.len() && 0 <= t < rels[q].len() && #[trigger] pair_out_of_range(
                    rels,
                    lens,
                    q,
                    t,
                );
            &&& r is Ok <==> !bad
            &&& r matches Ok(out) ==> out.len() == nonempty_positions(rels).len() && forall|m: int|
                0 <= m < out.len() ==> {
                    let q = nonempty_positions(rels)[m];
                    prepared_as(#[trigger] out[m], rels[q], q, lens[q], lens[q + 1])
                }
            &&& r matches Err(e) ==> exists|q: int, t: int|
                {
                    &&& 0 <= q < rels.len()
                    &&& 0 <= t < rels[q].len()
                    &&& #[trigger] pair_out_of_range(rels, lens, q, t)
                    &&& forall|q2: int, t2: int|
                        0 <= q2 < rels.len() && 0 <= t2 < rels[q2].len() && (q2 < q || (q2 == q
                            && t2 < t)) ==> !#[trigger] pair_out_of_range(rels, lens, q2, t2)
                    &&& e == AlignedUmapError::RelationIndexOutOfRange {
                        relation: q as usize,
                        left_idx: rels[q][t].0,
                        right_idx: rels[q][t].1,
                        left_len: lens[q] as usize,
                        right_len: lens[q + 1] as usize,
                    }
                }
        }),
{
    let ghost rels = relation_views(relations@);
    let ghost lens = Seq::new(datasets.len() as nat, |s: int| datasets[s]@.len() as int);
    let mut out: Vec<PreparedRelation> = Vec::new();
    let mut relation_idx: usize = 0;
    while relation_idx < relations.len()
        invariant
            relations.len() < datasets.len(),
            rels == relation_views(relations@),
            lens == Seq::new(datasets.len() as nat, |s: int| datasets[s]@.len() as int),
            relation_idx <= relations.len(),
            forall|q: int, t: int|
                0 <= q < relation_idx && 0 <= t < rels[q].len() ==> !#[trigger] pair_out_of_range(
                    rels,
                    lens,
                    q,
                    t,
                ),
            out.len() == nonempty_positions(rels.take(relation_idx as int)).len(),
            forall|m: int|
                0 <= m < out.len() ==> {
                    let q = nonempty_positions(rels.take(relation_idx as int))[m];
                    prepared_as(#[trigger] out[m], rels[q], q, lens[q], lens[q + 1])
                },
        decreases relations.len() - relation_idx,
    {
        let pairs = relations[relation_idx].pairs();
        let left_len = datasets[relation_idx].len();
        let right_len = datasets[relation_idx + 1].len();
        let ghost q = relation_idx as int;
        assert(rels[q] == pairs@);
        match count_degrees(pairs, left_len, right_len) {
            Err(t) => {
                proof {
                    assert(pair_out_of_range(rels, lens, q, t as int));
                    assert forall|q2: int, t2: int|
                        0 <= q2 < rels.len() && 0 <= t2 < rels[q2].len() && (q2 < q || (q2 == q
                            && t2 < t)) implies !#[trigger] pair_out_of_range(rels, lens, q2, t2) by {
                        if q2 == q {
                            assert(pairs@[t2] == rels[q][t2]);
                        }
                    }
                }
                return Err(
                    AlignedUmapError::RelationIndexOutOfRange {
                        relation: relation_idx,
                        left_idx: pairs[t].0,
                        right_idx: pairs[t].1,
                        left_len,
                        right_len,
                    },
                );
            },
            Ok((valid_pairs, left_deg, right_deg)) => {
                proof {
                    assert(rels.take(q + 1).drop_last() == rels.take(q));
                    assert(rels.take(q + 1).last() == rels[q]);
                    assert forall|t: int| 0 <= t < rels[q].len() implies !#[trigger] pair_out_of_range(
                        rels,
                        lens,
                        q,
                        t,
                    ) by {
                        assert(pairs@[t] == rels[q][t]);
                    }
                }
                if valid_pairs.len() > 0 {
                    out.push(
                        PreparedRelation {
                            left_slice: relation_idx,
                            right_slice: relation_idx + 1,
                            pairs: valid_pairs,
                            left_degree: left_deg,
                            right_degree: right_deg,
                        },
                    );
                }
                proof {
                    let np = nonempty_positions(rels.take(q));
                    let np1 = nonempty_positions(rels.take(q + 1));
                    assert forall|m: int| 0 <= m < out.len() implies {
                        let qq = np1[m];
                        prepared_as(#[trigger] out[m], rels[qq], qq, lens[qq], lens[qq + 1])
                    } by {
                        if m < np.len() {
                            assert(np1[m] == np[m]);
                        }
                    }
                }
            },
        }
        relation_idx = relation_idx + 1;
    }
    proof {
        assert(rels.take(relations.len() as int) == rels);
    }
    Ok(out)
}

/// Sum of the lengths of the rows of `rows`.
pub open spec fn total_len<T>(rows: Seq<Vec<T>>) -> int
    decreases rows.len(),
{
    if rows.len() == 0 {
        0
    } else {
        total_len(rows.drop_last()) + rows.last()@.len()
    }
}

proof fn lemma_total_len_nonneg<T>(rows: Seq<Vec<T>>)
    ensures
        total_len(rows) >= 0,
    decreases rows.len(),
{
    if rows.len() > 0 {
        lemma_total_len_nonneg(rows.drop_last());
    }
}

/// The number of alignment epochs: the explicit count if there is one,
/// else half the UMAP epochs (at least one) if those are set, else 120 for
/// up to 10 000 points over all slices and 60 beyond.
pub fn alignment_epoch_count<T>(
    alignment_epochs: Option<usize>,
    umap_n_epochs: Option<usize>,
    embeddings: &[Vec<T>],
) -> (n: usize)
    ensures
        n == match alignment_epochs {
            Some(e) => e,
            None => match umap_n_epochs {
                Some(b) => if b / 2 > 1 { b / 2 } else { 1 },
                None => if total_len(embeddings@) <= 10_000 { 120 } else { 60 },
            },
        },
{
    if let Some(epochs) = alignment_epochs {
        return epochs;
    }
    if let Some(base_epochs) = umap_n_epochs {
        let half = base_epochs / 2;
        return if half > 1 { half } else { 1 };
    }
    let mut total: usize = 0;
    let mut s: usize = 0;
    while s < embeddings.len()
        invariant
            s <= embeddings.len(),
            total == if total_len(embeddings@.take(s as int)) > usize::MAX {
                usize::MAX as int
            } else {
                total_len(embeddings@.take(s as int))
            },
        decreases embeddings.len() - s,
    {
        proof {
            assert(embeddings@.take(s + 1).drop_last() == embeddings@.take(s as int));
            lemma_total_len_nonneg(embeddings@.take(s as int));
        }
        let len = embeddings[s].len();
        total = if total > usize::MAX - len { usize::MAX } else { total + len };
        s = s + 1;
    }
    proof {
        assert(embeddings@.take(embeddings.len() as int) == embeddings@);
    }
    if total <= 10_000 {
        120
    } else {
        60
    }
}

proof fn lemma_sorted_no_dup(s: Seq<(usize, usize)>)
    requires
        strictly_sorted(s),
    ensures
        s.no_duplicates(),
{
    assert forall|i: int, j: int| 0 <= i < s.len() && 0 <= j < s.len() && i != j implies s[i]
        != s[j] by {
        if i < j {
            assert(lex_lt(s[i], s[j]));
        } else {
            assert(lex_lt(s[j], s[i]));
        }
    }
}

proof fn lemma_sorted_agree_at(a: Seq<(usize, usize)>, b: Seq<(usize, usize)>, t: int)
    requires
        strictly_sorted(a),
        strictly_sorted(b),
        a.to_set() == b.to_set(),
        a.len() == b.len(),
        0 <= t < a.len(),
    ensures
        a[t] == b[t],
    decreases t,
{
    assert forall|u: int| 0 <= u < t implies a[u] == b[u] by {
        lemma_sorted_agree_at(a, b, u);
    }
    if a[t] != b[t] {
        if lex_lt(a[t], b[t]) {
            assert(a.to_set().contains(a[t]));
            assert(b.to_set().contains(a[t]));
            let u = choose|u: int| 0 <= u < b.len() && b[u] == a[t];
            if u < t {
                assert(a[u] == b[u]);
                assert(lex_lt(a[u], a[t]));
            } else if u > t {
                assert(lex_lt(b[t], b[u]));
            }
        } else {
            assert(lex_lt(b[t], a[t]));
            assert(b.to_set().contains(b[t]));
            assert(a.to_set().contains(b[t]));
            let u = choose|u: int| 0 <= u < a.len() && a[u] == b[t];
            if u < t {
                assert(a[u] == b[u]);
                assert(lex_lt(b[u], b[t]));
            } else if u > t {
                assert(lex_lt(a[t], a[u]));
            }
        }
    }
}

/// A relation is determined by its set of pairs: building it from any
/// listing of the same pairs, in any order and with any repeats, gives the
/// same sorted list.
pub proof fn law_relation_determined_by_pairs(a: Seq<(usize, usize)>, b: Seq<(usize, usize)>)
    requires
        strictly_sorted(a),
        strictly_sorted(b),
        a.to_set() == b.to_set(),
    ensures
        a == b,
{
    lemma_sorted_no_dup(a);
    lemma_sorted_no_dup(b);
    a.unique_seq_to_set();
    b.unique_seq_to_set();
    assert forall|t: int| 0 <= t < a.len() implies a[t] == b[t] by {
        lemma_sorted_agree_at(a, b, t);
    }
    assert(a =~= b);
}

/// Sum of the left degrees of the points below `len`.
pub open spec fn left_degree_total(pairs: Seq<(usize, usize)>, len: int) -> int
    decreases len,
{
    if len <= 0 {
        0
    } else {
        left_degree_total(pairs, len - 1) + left_degree(pairs, len - 1)
    }
}

/// Sum of the right degrees of the points below `len`.
pub open spec fn right_degree_total(pairs: Seq<(usize, usize)>, len: int) -> int
    decreases len,
{
    if len <= 0 {
        0
    } else {
        right_degree_total(pairs, len - 1) + right_degree(pairs, len - 1)
    }
}

proof fn lemma_totals_drop_last(pairs: Seq<(usize, usize)>, len: int)
    requires
        pairs.len() > 0,
    ensures
        left_degree_total(pairs, len) == left_degree_total(pairs.drop_last(), len) + if 0
            <= pairs.last().0 < len {
            1int
        } else {
            0int
        },
        right_degree_total(pairs, len) == right_degree_total(pairs.drop_last(), len) + if 0
            <= pairs.last().1 < len {
            1int
        } else {
            0int
        },
    decreases len,
{
    if len > 0 {
        lemma_totals_drop_last(pairs, len - 1);
    }
}

/// Every pair of a relation whose pairs lie within the two slices counts
/// once in the left degrees and once in the right degrees: each kind of
/// degree sums to the number of pairs.
pub proof fn law_degrees_count_every_pair(pairs: Seq<(usize, usize)>, left_len: int, right_len: int)
    requires
        forall|t: int| 0 <= t < pairs.len() ==> (#[trigger] pairs[t]).0 < left_len && pairs[t].1 < right_len,
    ensures
        left_degree_total(pairs, left_len) == pairs.len(),
        right_degree_total(pairs, right_len) == pairs.len(),
    decreases pairs.len(),
{
    if pairs.len() > 0 {
        let head = pairs.drop_last();
        assert forall|t: int| 0 <= t < head.len() implies (#[trigger] head[t]).0 < left_len && head[t].1
            < right_len by {
            assert(head[t] == pairs[t]);
        }
        law_degrees_count_every_pair(head, left_len, right_len);
        lemma_totals_drop_last(pairs, left_len);
        lemma_totals_drop_last(pairs, right_len);
        assert(pairs.last() == pairs[pairs.len() - 1]);
    } else {
        lemma_totals_zero(pairs, left_len);
        lemma_totals_zero(pairs, right_len);
    }
}

proof fn lemma_totals_zero(pairs: Seq<(usize, usize)>, len: int)
    requires
        pairs.len() == 0,
    ensures
        left_degree_total(pairs, len) == 0,
        right_degree_total(pairs, len) == 0,
    decreases len,
{
    if len > 0 {
        lemma_totals_zero(pairs, len - 1);
    }
}

} // verus!
