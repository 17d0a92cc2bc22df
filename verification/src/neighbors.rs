//! Selection of the k nearest candidates. A candidate is an index with an
//! order key: the caller maps each distance to a key whose integer order is
//! the distance's total order (as `f32::total_cmp`), so the key stands for
//! the distance exactly. Candidates are ordered by key, then by index.
use vstd::prelude::*;

verus! {

/// Number of neighbours used by `inverse_transform`: the model's
/// `n_neighbors`, capped by the number of training points, and at least one.
pub fn inverse_neighbor_count(params_n_neighbors: usize, n_train: usize) -> (k: usize)
    ensures
        k == if params_n_neighbors < n_train {
            if params_n_neighbors < 1 { 1 } else { params_n_neighbors }
        } else {
            if n_train < 1 { 1 } else { n_train }
        },
{
    let m = if params_n_neighbors < n_train { params_n_neighbors } else { n_train };
    if m < 1 { 1 } else { m }
}

/// Candidate `a` comes before candidate `b`: smaller key, or equal key and
/// smaller index.
pub open spec fn cand_lt(a: (usize, u32), b: (usize, u32)) -> bool {
    a.1 < b.1 || (a.1 == b.1 && a.0 < b.0)
}

/// Strictly increasing in candidate order.
pub open spec fn cand_sorted(s: Seq<(usize, u32)>) -> bool {
    forall|i: int, j: int| 0 <= i < j < s.len() ==> cand_lt(#[trigger] s[i], #[trigger] s[j])
}

/// Index `j` occurs in `row`.
pub open spec fn in_row(row: Seq<(usize, u32)>, j: int) -> bool {
    exists|t: int| 0 <= t < row.len() && #[trigger] row[t].0 == j
}

pub open spec fn min_int(a: int, b: int) -> int {
    if a < b { a } else { b }
}

/// `row` is the list of the `min(k, n)` first candidates among
/// `(j, keys[j])` for `j < n`, in candidate order.
pub open spec fn is_top_k(row: Seq<(usize, u32)>, keys: Seq<u32>, k: int, n: int) -> bool {
    &&& row.len() == min_int(k, n)
    &&& cand_sorted(row)
    &&& forall|t: int|
        0 <= t < row.len() ==> (#[trigger] row[t]).0 < n && row[t].1 == keys[row[t].0 as int]
    &&& forall|j: int|
        0 <= j < n ==> #[trigger] in_row(row, j) || cand_lt(row[row.len() - 1], (j as usize, keys[j]))
}

/// Inserts candidate `(idx, key)` into the sorted list `row` of at most `k`
/// candidates, keeping the `k` first ones.
pub fn push_top_k_neighbor(row: &mut Vec<(usize, u32)>, idx: usize, key: u32, k: usize)
    requires
        k >= 1,
        old(row).len() <= k,
        cand_sorted(old(row)@),
        forall|t: int| 0 <= t < old(row).len() ==> (#[trigger] old(row)[t]).0 != idx,
    ensures
        exists|p: int|
            #![trigger old(row)@.insert(p, (idx, key))]
            0 <= p <= old(row).len() && (forall|t: int|
                0 <= t < p ==> cand_lt(#[trigger] old(row)[t], (idx, key))) && (forall|t: int|
                p <= t < old(row).len() ==> cand_lt((idx, key), #[trigger] old(row)[t]))
                && final(row)@ == old(row)@.insert(p, (idx, key)).take(
                min_int(k as int, old(row).len() + 1int),
            ),
{
    let ghost r0 = row@;
    let n = row.len();
    if n == k && !(key < row[k - 1].1 || (key == row[k - 1].1 && idx < row[k - 1].0)) {
        proof {
            let p = n as int;
            assert forall|t: int| 0 <= t < p implies cand_lt(#[trigger] r0[t], (idx, key)) by {
                if t < p - 1 {
                    assert(cand_lt(r0[t], r0[p - 1]));
                }
            }
            assert(r0.insert(p, (idx, key)).take(min_int(k as int, n + 1int)) =~= r0);
        }
        return;
    }
    let mut insert_at = n;
    while insert_at > 0 && (key < row[insert_at - 1].1 || (key == row[insert_at - 1].1 && idx
        < row[insert_at - 1].0))
        invariant
            row@ == r0,
            n == r0.len(),
            insert_at <= n,
            cand_sorted(r0),
            forall|t: int| insert_at <= t < n ==> cand_lt((idx, key), #[trigger] r0[t]),
        decreases insert_at,
    {
        insert_at = insert_at - 1;
    }
    proof {
        assert forall|t: int| 0 <= t < insert_at implies cand_lt(#[trigger] r0[t], (idx, key)) by {
            if insert_at > 0 {
                assert(r0[t] == r0[insert_at - 1] || cand_lt(r0[t], r0[insert_at - 1]));
            }
        }
    }
    row.insert(insert_at, (idx, key));
    if row.len() > k {
        row.pop();
        proof {
            assert(row@ =~= r0.insert(insert_at as int, (idx, key)).take(k as int));
        }
    } else {
        proof {
            assert(row@ =~= r0.insert(insert_at as int, (idx, key)).take(n + 1));
        }
    }
}

proof fn lemma_push_keeps_top_k(
    row: Seq<(usize, u32)>,
    new_row: Seq<(usize, u32)>,
    keys: Seq<u32>,
    k: int,
    j: int,
    p: int,
)
    requires
        k >= 1,
        0 <= j < keys.len(),
        keys.len() <= usize::MAX,
        is_top_k(row, keys, k, j),
        j <= k ==> forall|x: int| 0 <= x < j ==> #[trigger] in_row(row, x),
        0 <= p <= row.len(),
        forall|t: int| 0 <= t < p ==> cand_lt(#[trigger] row[t], (j as usize, keys[j])),
        forall|t: int| p <= t < row.len() ==> cand_lt((j as usize, keys[j]), #[trigger] row[t]),
        new_row == row.insert(p, (j as usize, keys[j])).take(min_int(k, row.len() + 1int)),
    ensures
        is_top_k(new_row, keys, k, j + 1),
        j + 1 <= k ==> forall|x: int| 0 <= x < j + 1 ==> #[trigger] in_row(new_row, x),
{
    let c = (j as usize, keys[j]);
    let ins = row.insert(p, c);
    assert(cand_sorted(ins)) by {
        assert forall|a: int, b: int| 0 <= a < b < ins.len() implies cand_lt(
            #[trigger] ins[a],
            #[trigger] ins[b],
        ) by {
            if b < p {
                assert(ins[a] == row[a] && ins[b] == row[b]);
            } else if b == p {
                assert(ins[a] == row[a]);
            } else if a < p {
                assert(ins[a] == row[a] && ins[b] == row[b - 1]);
                assert(cand_lt(row[a], c));
            } else if a == p {
                assert(ins[b] == row[b - 1]);
            } else {
                assert(ins[a] == row[a - 1] && ins[b] == row[b - 1]);
            }
        }
    }
    assert forall|t: int| 0 <= t < ins.len() implies (#[trigger] ins[t]).0 < j + 1 && ins[t].1
        == keys[ins[t].0 as int] by {
        if t < p {
            assert(ins[t] == row[t]);
        } else if t > p {
            assert(ins[t] == row[t - 1]);
        } else {
            assert(ins[t] == c);
        }
    }
    assert forall|x: int| 0 <= x < j + 1 && #[trigger] in_row(row, x) implies in_row(ins, x) by {
        let t = choose|t: int| 0 <= t < row.len() && #[trigger] row[t].0 == x;
        if t < p {
            assert(ins[t] == row[t]);
        } else {
            assert(ins[t + 1] == row[t]);
        }
    }
    assert(ins[p] == c);
    assert(ins[p].0 == j);
    assert(in_row(ins, j));
    if row.len() + 1 <= k {
        assert(new_row =~= ins);
        assert forall|x: int| 0 <= x < j + 1 implies #[trigger] in_row(new_row, x) by {
            if x < j {
                assert(in_row(row, x));
            }
        }
    } else {
        assert(row.len() == k);
        assert(new_row =~= ins.take(k));
        let dropped = ins[k];
        assert forall|x: int| 0 <= x < j + 1 implies #[trigger] in_row(new_row, x) || cand_lt(
            new_row[new_row.len() - 1],
            (x as usize, keys[x]),
        ) by {
            assert(cand_lt(new_row[k - 1], dropped)) by {
                assert(new_row[k - 1] == ins[k - 1]);
            }
            if x == j {
                if p < k {
                    assert(new_row[p] == c);
                } else {
                    assert(dropped == c);
                }
            } else if in_row(row, x) {
                assert(in_row(ins, x));
                let t = choose|t: int| 0 <= t < ins.len() && #[trigger] ins[t].0 == x;
                if t < k {
                    assert(new_row[t] == ins[t]);
                } else {
                    assert(t == k);
                    assert(ins[k].1 == keys[x]);
                }
            } else {
                let last_old = row[row.len() - 1];
                assert(cand_lt(last_old, (x as usize, keys[x])));
                assert(new_row[k - 1] == last_old || cand_lt(new_row[k - 1], last_old)) by {
                    if p == k {
                        assert(new_row[k - 1] == row[k - 1]);
                    } else {
                        assert(ins[k] == row[k - 1]);
                    }
                }
            }
        }
    }
}

/// The `min(k, n_candidates)` nearest candidates among `(j, key_at(j))`
/// for `j < n_candidates`, in candidate order, given as the list of indices
/// and the list of keys.
pub fn exact_top_k_neighbors<F: Fn(usize) -> u32>(n_candidates: usize, n_neighbors: usize, key_at: F) -> (out: (
    Vec<usize>,
    Vec<u32>,
))
    requires
        n_neighbors >= 1,
        forall|j: usize| j < n_candidates ==> call_requires(key_at, (j,)),
    ensures
        out.0.len() == out.1.len(),
        exists|keys: Seq<u32>|
            {
                &&& keys.len() == n_candidates
                &&& forall|j: int|
                    0 <= j < n_candidates ==> call_ensures(key_at, (j as usize,), #[trigger] keys[j])
                &&& is_top_k(
                    Seq::new(out.0.len() as nat, |t: int| (out.0[t], out.1[t])),
                    keys,
                    n_neighbors as int,
                    n_candidates as int,
                )
            },
{
    let k = n_neighbors;
    let mut row: Vec<(usize, u32)> = Vec::new();
    let ghost mut keys: Seq<u32> = Seq::empty();
    let mut j: usize = 0;
    while j < n_candidates
        invariant
            k >= 1,
            j <= n_candidates,
            keys.len() == j,
            forall|x: usize| x < n_candidates ==> call_requires(key_at, (x,)),
            forall|x: int| 0 <= x < j ==> call_ensures(key_at, (x as usize,), #[trigger] keys[x]),
            is_top_k(row@, keys, k as int, j as int),
            j <= k ==> forall|x: int| 0 <= x < j ==> #[trigger] in_row(row@, x),
        decreases n_candidates - j,
    {
        let key = key_at(j);
        let ghost r0 = row@;
        let ghost keys1 = keys.push(key);
        proof {
            assert forall|t: int| 0 <= t < r0.len() implies (#[trigger] r0[t]).0 != j by {
                assert(r0[t].0 < j);
            }
            assert forall|t: int| 0 <= t < r0.len() implies (#[trigger] r0[t]).1 == keys1[r0[t].0 as int] by {
                assert(r0[t].1 == keys[r0[t].0 as int]);
            }
            assert forall|x: int| 0 <= x < j && !in_row(r0, x) implies cand_lt(r0[r0.len() - 1], (x as usize, #[trigger] keys1[x])) by {
                assert(keys1[x] == keys[x]);
            }
            assert(is_top_k(r0, keys1, k as int, j as int));
        }
        push_top_k_neighbor(&mut row, j, key, k);
        proof {
            let p = choose|p: int|
                #![trigger r0.insert(p, (j, key))]
                0 <= p <= r0.len() && (forall|t: int|
                    0 <= t < p ==> cand_lt(#[trigger] r0[t], (j, key))) && (forall|t: int|
                    p <= t < r0.len() ==> cand_lt((j, key), #[trigger] r0[t]))
                    && row@ == r0.insert(p, (j, key)).take(
                    min_int(k as int, r0.len() + 1int),
                );
            assert(keys1[j as int] == key);
            lemma_push_keeps_top_k(r0, row@, keys1, k as int, j as int, p);
            keys = keys1;
        }
        j = j + 1;
    }
    let mut idx: Vec<usize> = Vec::new();
    let mut key: Vec<u32> = Vec::new();
    let mut t: usize = 0;
    while t < row.len()
        invariant
            t <= row.len(),
            idx.len() == t,
            key.len() == t,
            forall|s: int| 0 <= s < t ==> idx[s] == row@[s].0 && key[s] == row@[s].1,
        decreases row.len() - t,
    {
        idx.push(row[t].0);
        key.push(row[t].1);
        t = t + 1;
    }
    proof {
        assert(Seq::new(idx.len() as nat, |s: int| (idx[s], key[s])) =~= row@);
    }
    (idx, key)
}

/// The rows `idx` and `keys` read as candidates `(idx[t], keys[t])`.
pub open spec fn paired(idx: Seq<usize>, keys: Seq<u32>) -> Seq<(usize, u32)> {
    Seq::new(idx.len(), |t: int| (idx[t], keys[t]))
}

/// Row `i` of `(idx, keys)` lists the `min(k, n_ref)` nearest of the
/// reference points `j < n_ref` to query point `i`, each point `j` ordered
/// by a key that `key_of(i, j)` returns.
pub open spec fn is_knn_row<F: Fn(usize, usize) -> u32>(
    idx: Seq<usize>,
    keys: Seq<u32>,
    key_of: F,
    i: int,
    n_ref: int,
    k: int,
) -> bool {
    &&& idx.len() == keys.len()
    &&& exists|all: Seq<u32>|
        {
            &&& all.len() == n_ref
            &&& forall|j: int|
                0 <= j < n_ref ==> call_ensures(key_of, (i as usize, j as usize), #[trigger] all[j])
            &&& is_top_k(paired(idx, keys), all, k, n_ref)
        }
}

/// For each of the `n_query` query points, the `min(k, n_ref)` nearest of
/// the `n_ref` reference points, as rows of indices and rows of keys; the
/// key of the pair `(i, j)` is what `key_of(i, j)` returns.
pub fn exact_nearest_neighbors_to_reference_by<F: Fn(usize, usize) -> u32>(
    n_query: usize,
    n_ref: usize,
    n_neighbors: usize,
    key_of: F,
) -> (out: (Vec<Vec<usize>>, Vec<Vec<u32>>))
    requires
        n_neighbors >= 1,
        forall|i: usize, j: usize| i < n_query && j < n_ref ==> call_requires(key_of, (i, j)),
    ensures
        out.0.len() == n_query,
        out.1.len() == n_query,
        forall|i: int|
            0 <= i < n_query ==> is_knn_row(
                #[trigger] out.0[i]@,
                out.1[i]@,
                key_of,
                i,
                n_ref as int,
                n_neighbors as int,
            ),
{
    let mut indices: Vec<Vec<usize>> = Vec::new();
    let mut dists: Vec<Vec<u32>> = Vec::new();
    let mut i: usize = 0;
    while i < n_query
        invariant
            n_neighbors >= 1,
            i <= n_query,
            indices.len() == i,
            dists.len() == i,
            forall|a: usize, b: usize| a < n_query && b < n_ref ==> call_requires(key_of, (a, b)),
            forall|q: int|
                0 <= q < i ==> is_knn_row(
                    #[trigger] indices[q]@,
                    dists[q]@,
                    key_of,
                    q,
                    n_ref as int,
                    n_neighbors as int,
                ),
        decreases n_query - i,
    {
        let kf = &key_of;
        let row_key = move |j: usize| -> (r: u32)
            requires
                j < n_ref,
            ensures
                call_ensures(*kf, (i, j), r),
            { kf(i, j) };
        let (row_idx, row_keys) = exact_top_k_neighbors(n_ref, n_neighbors, row_key);
        proof {
            let all = choose|all: Seq<u32>|
                {
                    &&& all.len() == n_ref
                    &&& forall|j: int|
                        0 <= j < n_ref ==> call_ensures(row_key, (j as usize,), #[trigger] all[j])
                    &&& is_top_k(
                        Seq::new(row_idx.len() as nat, |t: int| (row_idx[t], row_keys[t])),
                        all,
                        n_neighbors as int,
                        n_ref as int,
                    )
                };
            assert(paired(row_idx@, row_keys@) =~= Seq::new(
                row_idx.len() as nat,
                |t: int| (row_idx[t], row_keys[t]),
            ));
            assert forall|j: int| 0 <= j < n_ref implies call_ensures(
                key_of,
                (i as usize, j as usize),
                #[trigger] all[j],
            ) by {
                assert(call_ensures(row_key, (j as usize,), all[j]));
            }
            assert(is_knn_row(row_idx@, row_keys@, key_of, i as int, n_ref as int, n_neighbors as int));
        }
        indices.push(row_idx);
        dists.push(row_keys);
        i = i + 1;
    }
    (indices, dists)
}

/// For each of the `n_samples` points, the `min(k, n_samples)` nearest
/// points of the same set (itself included), as rows of indices and rows of
/// keys; the key of the pair `(i, j)` is what `key_of(i, j)` returns.
pub fn exact_nearest_neighbors_by<F: Fn(usize, usize) -> u32>(
    n_samples: usize,
    n_neighbors: usize,
    key_of: F,
) -> (out: (Vec<Vec<usize>>, Vec<Vec<u32>>))
    requires
        n_neighbors >= 1,
        forall|i: usize, j: usize| i < n_samples && j < n_samples ==> call_requires(key_of, (i, j)),
    ensures
        out.0.len() == n_samples,
        out.1.len() == n_samples,
        forall|i: int|
            0 <= i < n_samples ==> is_knn_row(
                #[trigger] out.0[i]@,
                out.1[i]@,
                key_of,
                i,
                n_samples as int,
                n_neighbors as int,
            ),
{
    exact_nearest_neighbors_to_reference_by(n_samples, n_samples, n_neighbors, key_of)
}

/// The nearest-neighbour row is determined by the keys: ties are broken by
/// index, so exactly one row lists the `min(k, n)` first candidates.
pub proof fn law_top_k_unique(r1: Seq<(usize, u32)>, r2: Seq<(usize, u32)>, keys: Seq<u32>, k: int, n: int)
    requires
        is_top_k(r1, keys, k, n),
        is_top_k(r2, keys, k, n),
    ensures
        r1 == r2,
{
    assert forall|t: int| 0 <= t < r1.len() implies r1[t] == r2[t] by {
        lemma_top_k_agree_at(r1, r2, keys, k, n, t);
    }
    assert(r1 =~= r2);
}

/// Two top-k rows agree at position `t`, given that they agree before it.
proof fn lemma_top_k_agree_at(r1: Seq<(usize, u32)>, r2: Seq<(usize, u32)>, keys: Seq<u32>, k: int, n: int, t: int)
    requires
        is_top_k(r1, keys, k, n),
        is_top_k(r2, keys, k, n),
        0 <= t < r1.len(),
    ensures
        r1[t] == r2[t],
    decreases t,
{
    assert forall|u: int| 0 <= u < t implies r1[u] == r2[u] by {
        lemma_top_k_agree_at(r1, r2, keys, k, n, u);
    }
    if r1[t] != r2[t] {
        let a = r1[t];
        let b = r2[t];
        assert(a == (a.0, keys[a.0 as int]));
        assert(b == (b.0, keys[b.0 as int]));
        assert(a.0 != b.0);
        lemma_missing_candidate(r2, r1, keys, k, n, t);
        lemma_missing_candidate(r1, r2, keys, k, n, t);
    }
}

/// Of two top-k rows that agree before position `t`, neither has at `t` a
/// candidate that comes before the other's.
proof fn lemma_missing_candidate(big: Seq<(usize, u32)>, small: Seq<(usize, u32)>, keys: Seq<u32>, k: int, n: int, t: int)
    requires
        is_top_k(big, keys, k, n),
        is_top_k(small, keys, k, n),
        0 <= t < big.len(),
        forall|u: int| 0 <= u < t ==> big[u] == small[u],
    ensures
        !cand_lt(small[t], big[t]),
{
    if cand_lt(small[t], big[t]) {
        let c = small[t];
        let j = c.0 as int;
        assert(0 <= j < n);
        assert(c.1 == keys[j]);
        if in_row(big, j) {
            let u = choose|u: int| 0 <= u < big.len() && #[trigger] big[u].0 == j;
            assert(big[u].1 == keys[j]);
            assert(big[u] == c);
            if u < t {
                assert(small[u] == c);
                assert(cand_lt(small[u], small[t]));
            } else if u > t {
                assert(cand_lt(big[t], big[u]));
            }
        } else {
            let last = big[big.len() - 1];
            assert(cand_lt(last, c));
            if t < big.len() - 1 {
                assert(cand_lt(big[t], last));
            }
        }
    }
}

} // verus!
