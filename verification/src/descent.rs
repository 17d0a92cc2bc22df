//! Approximate nearest neighbours by neighbour descent: each point starts
//! from a random sample of candidates, then repeatedly looks at the
//! neighbours of its neighbours (plus a few random points) and keeps the
//! nearest ones, until no row changes or the round budget is spent.
//!
//! Distances are supplied by the caller as order keys (see `neighbors`), so
//! the search itself is pure index logic; the random draws come from
//! `rand`'s `SmallRng`.
use vstd::prelude::*;
use rand::rngs::SmallRng;
use rand::{Rng, SeedableRng};
use crate::neighbors::{cand_lt, cand_sorted, in_row, is_top_k, min_int, exact_top_k_neighbors, paired};
use crate::sorting::{sort_dedup_indices, strictly_increasing};

verus! {

broadcast use vstd::seq_lib::group_seq_properties;

#[verifier::external_type_specification]
#[verifier::external_body]
pub struct ExSmallRng(SmallRng);

/// `SmallRng::seed_from_u64`: a small fast generator whose whole stream is
/// fixed by `seed`. Nothing is stated of its state.
#[verifier::external_body]
fn seeded_rng(seed: u64) -> SmallRng {
    SmallRng::seed_from_u64(seed)
}

/// `Rng::gen_range(lo..hi)` on `SmallRng`: a draw from the half-open range,
/// which must not be empty (`gen_range` panics on an empty range). Which
/// value comes out depends on the generator's state and is not stated.
#[verifier::external_body]
fn random_index(rng: &mut SmallRng, lo: usize, hi: usize) -> (r: usize)
    requires
        lo < hi,
    ensures
        lo <= r < hi,
{
    rng.gen_range(lo..hi)
}

/// A strictly increasing run whose values lie in `[lo, hi)` has at most
/// `hi - lo` elements.
proof fn lemma_increasing_span(s: Seq<usize>, p: int, lo: int, hi: int)
    requires
        strictly_increasing(s),
        0 <= p <= s.len(),
        lo <= hi,
        forall|t: int| p <= t < s.len() ==> lo <= #[trigger] s[t] < hi,
    ensures
        s.len() - p <= hi - lo,
    decreases s.len() - p,
{
    if p < s.len() {
        assert forall|t: int| p + 1 <= t < s.len() implies s[p] + 1 <= #[trigger] s[t] < hi by {
            assert(s[p] < s[t]);
        }
        lemma_increasing_span(s, p + 1, s[p] + 1, hi);
    }
}

/// `out` lists, in increasing order, the first `m` indices below `n` that
/// do not occur in `cands` (all of them when there are fewer than `m`).
pub open spec fn is_first_missing(out: Seq<usize>, cands: Seq<usize>, n: int, m: int) -> bool {
    &&& strictly_increasing(out)
    &&& forall|t: int| 0 <= t < out.len() ==> #[trigger] out[t] < n && !cands.contains(out[t])
    &&& out.len() == min_int(m, n - cands.len())
    &&& forall|j: usize|
        j < n && !cands.contains(j) && !out.contains(j) ==> out.len() == m && (m > 0 ==> out.last()
            < j)
}

/// The first `m` indices below `n` that are not among the (strictly
/// increasing) candidates `cands`.
pub fn missing_indices(cands: &[usize], n: usize, m: usize) -> (out: Vec<usize>)
    requires
        strictly_increasing(cands@),
        forall|t: int| 0 <= t < cands.len() ==> #[trigger] cands[t] < n,
    ensures
        is_first_missing(out@, cands@, n as int, m as int),
{
    let mut out: Vec<usize> = Vec::new();
    let mut p: usize = 0;
    let mut j: usize = 0;
    while j < n && out.len() < m
        invariant
            j <= n,
            p <= cands.len(),
            strictly_increasing(cands@),
            forall|t: int| 0 <= t < cands.len() ==> #[trigger] cands[t] < n,
            forall|t: int| 0 <= t < p ==> #[trigger] cands[t] < j,
            p < cands.len() ==> cands[p as int] >= j,
            out.len() + p == j,
            out.len() <= m,
            strictly_increasing(out@),
            forall|t: int| 0 <= t < out.len() ==> #[trigger] out[t] < j && !cands@.contains(out[t]),
            forall|x: usize| x < j && !cands@.contains(x) ==> out@.contains(x),
        decreases n - j,
    {
        let ghost o0 = out@;
        if p < cands.len() && cands[p] == j {
            p = p + 1;
            proof {
                if p < cands.len() {
                    assert(cands[p - 1] < cands[p as int]);
                }
            }
        } else {
            proof {
                assert(!cands@.contains(j)) by {
                    if cands@.contains(j) {
                        let t = choose|t: int| 0 <= t < cands.len() && cands@[t] == j;
                        if t < p {
                        } else if t > p {
                            assert(cands[p as int] < cands[t]);
                        }
                    }
                }
            }
            out.push(j);
            proof {
                assert(out@[o0.len() as int] == j);
                assert forall|x: usize| x < j + 1 && !cands@.contains(x) implies out@.contains(x) by {
                    if x < j {
                        assert(o0.contains(x));
                        let t = choose|t: int| 0 <= t < o0.len() && o0[t] == x;
                        assert(out@[t] == x);
                    }
                }
            }
        }
        j = j + 1;
    }
    proof {
        if out.len() < m {
            assert(j == n);
            if p < cands.len() {
                assert(cands[p as int] < n);
            }
            assert(p == cands.len());
        } else {
            lemma_increasing_span(cands@, p as int, j as int, n as int);
        }
        assert forall|x: usize|
            x < n && !cands@.contains(x) && !out@.contains(x) implies out.len() == m && (m > 0
                ==> out@.last() < x) by {
            assert(x >= j);
            if out.len() > 0 {
                assert(out@.last() < j);
            }
        }
    }
    out
}

/// `row` lists, in candidate order, the `min(k, list.len())` first of the
/// candidates `(list[u], keys[u])`.
pub open spec fn is_top_k_among(row: Seq<(usize, u32)>, list: Seq<usize>, keys: Seq<u32>, k: int) -> bool {
    &&& row.len() == min_int(k, list.len() as int)
    &&& cand_sorted(row)
    &&& forall|t: int|
        0 <= t < row.len() ==> exists|u: int|
            0 <= u < list.len() && #[trigger] row[t] == (list[u], keys[u])
    &&& forall|u: int|
        0 <= u < list.len() ==> #[trigger] in_row(row, list[u] as int) || cand_lt(
            row[row.len() - 1],
            (list[u], keys[u]),
        )
}

/// The `min(k, list.len())` nearest of the (strictly increasing) candidate
/// indices `list`, each ordered by the key `key_at` gives it.
pub fn top_k_among<F: Fn(usize) -> u32>(list: &[usize], k: usize, key_at: &F) -> (row: Vec<(usize, u32)>)
    requires
        k >= 1,
        strictly_increasing(list@),
        forall|u: int| 0 <= u < list.len() ==> call_requires(*key_at, (#[trigger] list[u],)),
    ensures
        exists|keys: Seq<u32>|
            {
                &&& keys.len() == list.len()
                &&& forall|u: int|
                    0 <= u < list.len() ==> call_ensures(*key_at, (list[u],), #[trigger] keys[u])
                &&& is_top_k_among(row@, list@, keys, k as int)
            },
{
    let at_pos = |u: usize| -> (r: u32)
        requires
            u < list.len(),
        ensures
            call_ensures(*key_at, (list[u as int],), r),
        { key_at(list[u]) };
    let (pos, keys) = exact_top_k_neighbors(list.len(), k, at_pos);
    let ghost all = choose|all: Seq<u32>|
        {
            &&& all.len() == list.len()
            &&& forall|u: int|
                0 <= u < list.len() ==> call_ensures(at_pos, (u as usize,), #[trigger] all[u])
            &&& is_top_k(
                Seq::new(pos.len() as nat, |t: int| (pos[t], keys[t])),
                all,
                k as int,
                list.len() as int,
            )
        };
    let ghost prow = Seq::new(pos.len() as nat, |t: int| (pos[t], keys[t]));
    let mut row: Vec<(usize, u32)> = Vec::new();
    let mut t: usize = 0;
    while t < pos.len()
        invariant
            t <= pos.len(),
            pos.len() == keys.len(),
            prow == Seq::new(pos.len() as nat, |s: int| (pos[s], keys[s])),
            is_top_k(prow, all, k as int, list.len() as int),
            row.len() == t,
            forall|s: int| 0 <= s < t ==> #[trigger] row[s] == (list[pos[s] as int], keys[s]),
        decreases pos.len() - t,
    {
        assert(prow[t as int].0 < list.len());
        row.push((list[pos[t]], keys[t]));
        t = t + 1;
    }
    proof {
        assert forall|a: int, b: int| 0 <= a < b < row.len() implies cand_lt(
            #[trigger] row@[a],
            #[trigger] row@[b],
        ) by {
            assert(cand_lt(prow[a], prow[b]));
            assert(prow[a].0 < list.len() && prow[b].0 < list.len());
            if prow[a].0 < prow[b].0 {
                assert(list[prow[a].0 as int] < list[prow[b].0 as int]);
            }
        }
        assert forall|s: int| 0 <= s < row.len() implies exists|u: int|
            0 <= u < list.len() && #[trigger] row@[s] == (list[u], all[u]) by {
            let u = prow[s].0 as int;
            assert(prow[s].1 == all[u]);
            assert(0 <= u < list.len());
            assert(row@[s] == (list[u], all[u]));
        }
        assert(row@.len() == min_int(k as int, list.len() as int));
        assert(cand_sorted(row@));
        assert forall|u: int| 0 <= u < list.len() implies #[trigger] in_row(row@, list[u] as int)
            || cand_lt(row@[row.len() - 1], (list[u], all[u])) by {
            if in_row(prow, u) {
                let s = choose|s: int| 0 <= s < prow.len() && #[trigger] prow[s].0 == u;
                assert(row@[s].0 == list[u]);
            } else {
                let last = prow[prow.len() - 1];
                assert(cand_lt(last, (u as usize, all[u])));
                assert(last.0 < list.len());
                if last.0 < u {
                    assert(list[last.0 as int] < list[u]);
                }
            }
        }
        assert forall|u: int| 0 <= u < list.len() implies call_ensures(
            *key_at,
            (list[u],),
            #[trigger] all[u],
        ) by {
            assert(call_ensures(at_pos, (u as usize,), all[u]));
        }
        assert(forall|t: int|
            0 <= t < row@.len() ==> exists|u: int|
                0 <= u < list@.len() && #[trigger] row@[t] == (list@[u], all[u]));
        assert(forall|u: int|
            0 <= u < list@.len() ==> #[trigger] in_row(row@, list@[u] as int) || cand_lt(
                row@[row@.len() - 1],
                (list@[u], all[u]),
            ));
        assert(is_top_k_among(row@, list@, all, k as int));
    }
    row
}

/// A strictly increasing sequence has no repeated element.
proof fn lemma_increasing_no_dup(s: Seq<usize>)
    requires
        strictly_increasing(s),
    ensures
        s.no_duplicates(),
{
    assert forall|i: int, j: int| 0 <= i < s.len() && 0 <= j < s.len() && i != j implies s[i]
        != s[j] by {
        if i < j {
            assert(s[i] < s[j]);
        } else {
            assert(s[j] < s[i]);
        }
    }
}

/// The nearest `min(k, n_points)` points among the candidates `cands`
/// (strictly increasing, all below `n_points`), topped up, when there are
/// fewer than `k` candidates, with the smallest indices below `n_points`
/// that are not candidates; in candidate order, each point ordered by the
/// key `key_at` gives it.
pub fn dedup_sorted_neighbors<F: Fn(usize) -> u32>(
    cands: &[usize],
    k: usize,
    n_points: usize,
    key_at: &F,
) -> (row: Vec<(usize, u32)>)
    requires
        k >= 1,
        strictly_increasing(cands@),
        forall|t: int| 0 <= t < cands.len() ==> #[trigger] cands[t] < n_points,
        forall|j: usize| j < n_points ==> call_requires(*key_at, (j,)),
    ensures
        row.len() == min_int(k as int, n_points as int),
        forall|t: int| 0 <= t < row.len() ==> (#[trigger] row[t]).0 < n_points,
        exists|list: Seq<usize>, keys: Seq<u32>|
            {
                &&& keys.len() == list.len()
                &&& forall|u: int|
                    0 <= u < list.len() ==> call_ensures(*key_at, (list[u],), #[trigger] keys[u])
                &&& is_top_k_among(row@, list, keys, k as int)
                &&& cands.len() >= k ==> list == cands@
                &&& cands.len() < k ==> exists|fill: Seq<usize>|
                    {
                        &&& is_first_missing(fill, cands@, n_points as int, k - cands.len())
                        &&& list.to_set() == cands@.to_set() + fill.to_set()
                        &&& list.len() == cands.len() + fill.len()
                    }
            },
{
    proof {
        lemma_increasing_span(cands@, 0, 0, n_points as int);
    }
    if cands.len() >= k {
        let row = top_k_among(cands, k, key_at);
        proof {
            let keys = choose|keys: Seq<u32>|
                {
                    &&& keys.len() == cands.len()
                    &&& forall|u: int|
                        0 <= u < cands.len() ==> call_ensures(*key_at, (cands[u],), #[trigger] keys[u])
                    &&& is_top_k_among(row@, cands@, keys, k as int)
                };
            assert forall|t: int| 0 <= t < row.len() implies (#[trigger] row[t]).0 < n_points by {
                let u = choose|u: int| 0 <= u < cands.len() && #[trigger] row@[t] == (cands[u], keys[u]);
            }
        }
        return row;
    }
    let fill = missing_indices(cands, n_points, k - cands.len());
    let mut both: Vec<usize> = Vec::new();
    let mut t: usize = 0;
    while t < cands.len()
        invariant
            t <= cands.len(),
            both@ == cands@.take(t as int),
        decreases cands.len() - t,
    {
        both.push(cands[t]);
        t = t + 1;
    }
    let mut t: usize = 0;
    while t < fill.len()
        invariant
            t <= fill.len(),
            both@ == cands@ + fill@.take(t as int),
        decreases fill.len() - t,
    {
        both.push(fill[t]);
        t = t + 1;
    }
    let list = sort_dedup_indices(&both);
    proof {
        assert(cands@.take(cands.len() as int) == cands@);
        assert(fill@.take(fill.len() as int) == fill@);
        assert(both@ == cands@ + fill@);
        lemma_increasing_no_dup(cands@);
        lemma_increasing_no_dup(fill@);
        lemma_increasing_no_dup(list@);
        assert forall|i: int, j: int| 0 <= i < cands.len() && 0 <= j < fill.len() implies cands[i]
            != fill[j] by {
            assert(!cands@.contains(fill[j]));
        }
        vstd::seq_lib::lemma_no_dup_in_concat(cands@, fill@);
        both@.unique_seq_to_set();
        list@.unique_seq_to_set();
        vstd::seq_lib::seq_to_set_distributes_over_add(cands@, fill@);
        assert forall|u: int| 0 <= u < list.len() implies call_requires(*key_at, (#[trigger] list[u],)) by {
            assert(list@.to_set().contains(list[u]));
            assert(both@.to_set().contains(list[u]));
            let v = choose|v: int| 0 <= v < both.len() && both@[v] == list[u];
            if v < cands.len() {
                assert(both@[v] == cands[v]);
            } else {
                assert(both@[v] == fill[v - cands.len()]);
            }
        }
    }
    let row = top_k_among(&list, k, key_at);
    proof {
        let keys = choose|keys: Seq<u32>|
            {
                &&& keys.len() == list.len()
                &&& forall|u: int|
                    0 <= u < list.len() ==> call_ensures(*key_at, (list[u],), #[trigger] keys[u])
                &&& is_top_k_among(row@, list@, keys, k as int)
            };
        assert forall|t: int| 0 <= t < row.len() implies (#[trigger] row[t]).0 < n_points by {
            let u = choose|u: int| 0 <= u < list.len() && #[trigger] row@[t] == (list[u], keys[u]);
            assert(list@.to_set().contains(list[u]));
            assert(both@.to_set().contains(list[u]));
            let v = choose|v: int| 0 <= v < both.len() && both@[v] == list[u];
            if v < cands.len() {
                assert(both@[v] == cands[v]);
            } else {
                assert(both@[v] == fill[v - cands.len()]);
            }
        }
        assert(list@.to_set() == cands@.to_set() + fill@.to_set());
        assert(is_first_missing(fill@, cands@, n_points as int, k - cands.len()));
    }
    row
}

/// Point `x` occurs among the first `t` entries of `row`.
pub open spec fn in_row_upto(row: Seq<(usize, u32)>, x: usize, t: int) -> bool {
    exists|u: int| 0 <= u < t && #[trigger] row[u].0 == x
}

/// Point `x` is the `u`-th neighbour of point `i` in `rows`, or one of that
/// neighbour's own neighbours.
pub open spec fn via_neighbor(rows: Seq<Seq<(usize, u32)>>, i: int, u: int, x: usize) -> bool {
    rows[i][u].0 == x || in_row_upto(rows[rows[i][u].0 as int], x, rows[rows[i][u].0 as int].len() as int)
}

/// Point `x` is reached through one of the first `t` neighbours of `i`.
pub open spec fn near_upto(rows: Seq<Seq<(usize, u32)>>, i: int, t: int, x: usize) -> bool {
    exists|u: int| 0 <= u < t && #[trigger] via_neighbor(rows, i, u, x)
}

/// The candidates of point `i` in a descent round: its neighbours, their
/// neighbours, itself and the points drawn at random.
pub open spec fn round_cands(rows: Seq<Seq<(usize, u32)>>, i: int, explore: Seq<usize>) -> Set<usize> {
    Set::new(
        |x: usize| near_upto(rows, i, rows[i].len() as int, x) || x == i as usize || explore.contains(x),
    )
}

/// The key `k` stands for a NaN distance. Keys are the images of `f32`
/// distances under the order-preserving map of `f32::total_cmp` (see
/// `neighbors`): negative NaNs map to keys up to `0x007F_FFFE`, positive
/// NaNs to keys from `0xFF80_0001`.
pub open spec fn nan_key(k: u32) -> bool {
    k <= 0x007F_FFFE || k >= 0xFF80_0001
}

/// The key `k` stands for `+0.0` or `-0.0`.
pub open spec fn zero_key(k: u32) -> bool {
    k == 0x8000_0000 || k == 0x7FFF_FFFF
}

/// The distances that the keys `a` and `b` stand for are equal as floats
/// (`==`): neither is NaN, and they are the same value or both zeros.
pub open spec fn key_eq(a: u32, b: u32) -> bool {
    !nan_key(a) && !nan_key(b) && (a == b || (zero_key(a) && zero_key(b)))
}

/// The rows hold the same points in the same order, with distances equal
/// as floats.
pub open spec fn rows_same(a: Seq<(usize, u32)>, b: Seq<(usize, u32)>) -> bool {
    &&& a.len() == b.len()
    &&& forall|t: int| 0 <= t < a.len() ==> (#[trigger] a[t]).0 == b[t].0 && key_eq(a[t].1, b[t].1)
}

/// Some row of the table `new_t` differs from the same row of `old_t`.
pub open spec fn table_changed(new_t: Seq<Seq<(usize, u32)>>, old_t: Seq<Seq<(usize, u32)>>) -> bool {
    exists|q: int| 0 <= q < old_t.len() && !rows_same(#[trigger] new_t[q], old_t[q])
}

/// The rows of a table of neighbour rows, read as sequences.
pub open spec fn rows_view(v: Seq<Vec<(usize, u32)>>) -> Seq<Seq<(usize, u32)>> {
    Seq::new(v.len(), |q: int| v[q]@)
}

/// `c` after the swaps `sh`: the `s`-th swap exchanges positions `s` and
/// `sh[s]`, in order (a partial Fisher-Yates shuffle).
pub open spec fn swap_all(c: Seq<usize>, sh: Seq<usize>) -> Seq<usize>
    decreases sh.len(),
{
    if sh.len() == 0 {
        c
    } else {
        let p = swap_all(c, sh.drop_last());
        let s = sh.len() - 1;
        let r = sh.last() as int;
        p.update(s, p[r]).update(r, p[s])
    }
}

/// The draws `sh` are valid shuffle draws for a list of `len` candidates
/// capped at `m`: `m` of them, the `s`-th in `[s, len)`.
pub open spec fn shuffle_draws_ok(sh: Seq<usize>, len: int, m: int) -> bool {
    &&& sh.len() == m
    &&& forall|s: int| 0 <= s < sh.len() ==> s <= #[trigger] sh[s] < len
}

/// `d` is the candidate list `c` capped at `m`: `c` itself when it is not
/// longer, otherwise the first `m` after the swaps `sh`, in increasing order.
pub open spec fn capped(c: Seq<usize>, sh: Seq<usize>, m: int, d: Seq<usize>) -> bool {
    if c.len() <= m {
        d == c
    } else {
        strictly_increasing(d) && d.to_set() == swap_all(c, sh).take(m).to_set()
    }
}

/// `row` is what `dedup_sorted_neighbors` gives for point `i` among the
/// candidates `cands`, through the candidate list `list` with its keys.
pub open spec fn row_among_via<F: Fn(usize, usize) -> u32>(
    key_of: F,
    i: usize,
    cands: Seq<usize>,
    k: int,
    n: int,
    row: Seq<(usize, u32)>,
    list: Seq<usize>,
    keys: Seq<u32>,
) -> bool {
    &&& keys.len() == list.len()
    &&& forall|u: int| 0 <= u < list.len() ==> call_ensures(key_of, (i, list[u]), #[trigger] keys[u])
    &&& is_top_k_among(row, list, keys, k)
    &&& cands.len() >= k ==> list == cands
    &&& cands.len() < k ==> exists|fill: Seq<usize>|
        {
            &&& is_first_missing(fill, cands, n, k - cands.len())
            &&& list.to_set() == cands.to_set() + fill.to_set()
            &&& list.len() == cands.len() + fill.len()
        }
}

/// `row` is the nearest-neighbour row of point `i` among the candidates
/// `cands` (topped up with the first missing points when fewer than `k`).
pub open spec fn row_among<F: Fn(usize, usize) -> u32>(
    key_of: F,
    i: usize,
    cands: Seq<usize>,
    k: int,
    n: int,
    row: Seq<(usize, u32)>,
) -> bool {
    exists|list: Seq<usize>, keys: Seq<u32>| #[trigger] row_among_via(key_of, i, cands, k, n, row, list, keys)
}

/// The initial row of point `i`: drawn from `i` and the random draws
/// `draws`, sorted into `c`.
pub open spec fn initial_row_via<F: Fn(usize, usize) -> u32>(
    key_of: F,
    i: usize,
    n: int,
    k: int,
    pool: int,
    draws: Seq<usize>,
    c: Seq<usize>,
    row: Seq<(usize, u32)>,
) -> bool {
    &&& is_sampling_run(seq![i], draws, n, pool + 1)
    &&& strictly_increasing(c)
    &&& c.to_set() == add_draws(seq![i], draws).to_set()
    &&& row_among(key_of, i, c, k, n, row)
}

/// `row` is an initial row of point `i` for some run of random draws.
pub open spec fn initial_row<F: Fn(usize, usize) -> u32>(
    key_of: F,
    i: usize,
    n: int,
    k: int,
    pool: int,
    row: Seq<(usize, u32)>,
) -> bool {
    exists|draws: Seq<usize>, c: Seq<usize>| #[trigger] initial_row_via(key_of, i, n, k, pool, draws, c, row)
}

/// The new row of point `i` in a descent round over `rows`, given the
/// exploration draws `explore`, the shuffle draws `sh`, the sorted
/// candidates `c` and the capped candidates `d`: the nearest-neighbour row
/// `fresh` among `d`, unless it is the same as the old row, which is then
/// kept.
pub open spec fn round_row_via<F: Fn(usize, usize) -> u32>(
    key_of: F,
    rows: Seq<Seq<(usize, u32)>>,
    i: usize,
    n: int,
    k: int,
    exploration: int,
    max_c: int,
    explore: Seq<usize>,
    sh: Seq<usize>,
    c: Seq<usize>,
    d: Seq<usize>,
    fresh: Seq<(usize, u32)>,
    row: Seq<(usize, u32)>,
) -> bool {
    &&& explore.len() == exploration
    &&& forall|e: int| 0 <= e < explore.len() ==> #[trigger] explore[e] < n
    &&& strictly_increasing(c)
    &&& c.to_set() == round_cands(rows, i as int, explore)
    &&& c.len() > max_c ==> shuffle_draws_ok(sh, c.len() as int, max_c)
    &&& capped(c, sh, max_c, d)
    &&& row_among(key_of, i, d, k, n, fresh)
    &&& row == if rows_same(fresh, rows[i as int]) { rows[i as int] } else { fresh }
}

/// `row` is the new row of point `i` in a descent round over `rows`, for
/// some random draws.
pub open spec fn round_row<F: Fn(usize, usize) -> u32>(
    key_of: F,
    rows: Seq<Seq<(usize, u32)>>,
    i: usize,
    n: int,
    k: int,
    exploration: int,
    max_c: int,
    row: Seq<(usize, u32)>,
) -> bool {
    exists|explore: Seq<usize>, sh: Seq<usize>, c: Seq<usize>, d: Seq<usize>, fresh: Seq<(usize, u32)>|
        #[trigger] round_row_via(key_of, rows, i, n, k, exploration, max_c, explore, sh, c, d, fresh, row)
}

/// The larger of the candidate pool and `k`.
pub open spec fn descent_base(k: int, candidate_pool: int) -> int {
    if candidate_pool > k { candidate_pool } else { k }
}

/// Size of the random initial sample of each point (besides itself).
pub open spec fn initial_pool(n: int, k: int, candidate_pool: int) -> int {
    if descent_base(k, candidate_pool) < n - 1 { descent_base(k, candidate_pool) } else { n - 1 }
}

/// The cap on the candidates of a point in a round.
pub open spec fn max_candidates(k: int, candidate_pool: int) -> int {
    4 * descent_base(k, candidate_pool) + 1
}

/// Number of random points each point explores in a round.
pub open spec fn exploration_size(k: int, candidate_pool: int) -> int {
    let wide = if k / 2 > 4 { k / 2 } else { 4 };
    if wide < max_candidates(k, candidate_pool) { wide } else { max_candidates(k, candidate_pool) }
}

/// `tables` is a neighbour-descent run over `n` points: `tables[0]` holds
/// initial rows, each next table a round over the previous one, the rounds
/// going on while a round changes some row (`rows_same` fails), at most
/// `n_iters` of them.
pub open spec fn descent_run<F: Fn(usize, usize) -> u32>(
    key_of: F,
    n: int,
    k: int,
    candidate_pool: int,
    n_iters: int,
    tables: Seq<Seq<Seq<(usize, u32)>>>,
) -> bool {
    let m = tables.len() - 1;
    &&& tables.len() >= 1
    &&& m <= n_iters
    &&& forall|r: int| 0 <= r < tables.len() ==> (#[trigger] tables[r]).len() == n
    &&& forall|i: int|
        0 <= i < n ==> initial_row(
            key_of,
            i as usize,
            n,
            k,
            initial_pool(n, k, candidate_pool),
            #[trigger] tables[0][i],
        )
    &&& forall|r: int, i: int|
        0 <= r < m && 0 <= i < n ==> round_row(
            key_of,
            tables[r],
            i as usize,
            n,
            k,
            exploration_size(k, candidate_pool),
            max_candidates(k, candidate_pool),
            #[trigger] tables[r + 1][i],
        )
    &&& forall|r: int| 1 <= r < m ==> table_changed(#[trigger] tables[r], tables[r - 1])
    &&& m == n_iters || (m >= 1 && !table_changed(tables[m], tables[m - 1]))
}

/// `marks` flags exactly the indices listed (once each) in `set`.
pub open spec fn marks_match(marks: Seq<bool>, set: Seq<usize>) -> bool {
    &&& set.no_duplicates()
    &&& forall|t: int| 0 <= t < set.len() ==> (#[trigger] set[t]) < marks.len()
    &&& forall|x: int| 0 <= x < marks.len() ==> (#[trigger] marks[x] <==> set.contains(x as usize))
}

/// No index is flagged.
pub open spec fn all_clear(marks: Seq<bool>) -> bool {
    forall|x: int| 0 <= x < marks.len() ==> !#[trigger] marks[x]
}

/// Adds `x` to the set `set` (flagged in `marks`) unless it is there.
fn insert_marked(marks: &mut Vec<bool>, set: &mut Vec<usize>, x: usize)
    requires
        x < old(marks).len(),
        marks_match(old(marks)@, old(set)@),
    ensures
        final(marks).len() == old(marks).len(),
        marks_match(final(marks)@, final(set)@),
        final(set)@.to_set() == old(set)@.to_set().insert(x),
        final(set)@ == add_draw(old(set)@, x),
{
    let ghost s0 = set@;
    if !marks[x] {
        marks.set(x, true);
        set.push(x);
        proof {
            assert(!s0.contains(x));
            assert forall|i: int, j: int|
                0 <= i < set.len() && 0 <= j < set.len() && i != j implies set@[i] != set@[j] by {
                if i < s0.len() && j < s0.len() {
                } else if i < s0.len() {
                    assert(set@[i] == s0[i]);
                } else {
                    assert(set@[j] == s0[j]);
                }
            }
            assert forall|y: int| 0 <= y < marks.len() implies (#[trigger] marks@[y] <==> set@.contains(
                y as usize,
            )) by {
                if y != x {
                    if set@.contains(y as usize) {
                        let t = choose|t: int| 0 <= t < set.len() && set@[t] == y as usize;
                        assert(t < s0.len());
                        assert(s0[t] == y as usize);
                    }
                    if s0.contains(y as usize) {
                        let t = choose|t: int| 0 <= t < s0.len() && s0[t] == y as usize;
                        assert(set@[t] == y as usize);
                    }
                } else {
                    assert(set@[s0.len() as int] == x);
                }
            }
            s0.lemma_push_to_set_commute(x);
        }
    } else {
        proof {
            assert(s0.contains(x));
            assert(s0.to_set().contains(x));
            assert(s0.to_set().insert(x) =~= s0.to_set());
        }
    }
}

/// Unflags every index of `set`, leaving no index flagged.
fn clear_marks(marks: &mut Vec<bool>, set: &Vec<usize>)
    requires
        marks_match(old(marks)@, set@),
    ensures
        final(marks).len() == old(marks).len(),
        all_clear(final(marks)@),
{
    let mut t: usize = 0;
    while t < set.len()
        invariant
            t <= set.len(),
            marks.len() == old(marks).len(),
            forall|u: int| 0 <= u < set.len() ==> (#[trigger] set[u]) < marks.len(),
            forall|x: int|
                0 <= x < marks.len() && #[trigger] marks@[x] ==> exists|u: int|
                    t <= u < set.len() && set@[u] == x as usize,
        decreases set.len() - t,
    {
        let ghost m0 = marks@;
        marks.set(set[t], false);
        proof {
            assert forall|x: int| 0 <= x < marks.len() && #[trigger] marks@[x] implies exists|u: int|
                t + 1 <= u < set.len() && set@[u] == x as usize by {
                assert(m0[x]);
                let u = choose|u: int| t <= u < set.len() && set@[u] == x as usize;
                assert(u != t);
            }
        }
        t = t + 1;
    }
}

/// The distances that two keys stand for are equal as floats.
fn keys_equal(a: u32, b: u32) -> (r: bool)
    ensures
        r == key_eq(a, b),
{
    let a_nan = a <= 0x007F_FFFE || a >= 0xFF80_0001;
    let b_nan = b <= 0x007F_FFFE || b >= 0xFF80_0001;
    let a_zero = a == 0x8000_0000 || a == 0x7FFF_FFFF;
    let b_zero = b == 0x8000_0000 || b == 0x7FFF_FFFF;
    !a_nan && !b_nan && (a == b || (a_zero && b_zero))
}

/// The two rows hold the same points in the same order, with distances
/// equal as floats.
fn same_row(a: &Vec<(usize, u32)>, b: &Vec<(usize, u32)>) -> (r: bool)
    ensures
        r == rows_same(a@, b@),
{
    if a.len() != b.len() {
        return false;
    }
    let mut t: usize = 0;
    while t < a.len()
        invariant
            a.len() == b.len(),
            t <= a.len(),
            forall|u: int| 0 <= u < t ==> (#[trigger] a@[u]).0 == b@[u].0 && key_eq(a@[u].1, b@[u].1),
        decreases a.len() - t,
    {
        if a[t].0 != b[t].0 || !keys_equal(a[t].1, b[t].1) {
            return false;
        }
        t = t + 1;
    }
    true
}

/// A copy of the row `a`.
fn copy_row(a: &Vec<(usize, u32)>) -> (b: Vec<(usize, u32)>)
    ensures
        b@ == a@,
{
    let mut b: Vec<(usize, u32)> = Vec::new();
    let mut t: usize = 0;
    while t < a.len()
        invariant
            t <= a.len(),
            b@ == a@.take(t as int),
        decreases a.len() - t,
    {
        b.push(a[t]);
        proof {
            assert(b@ =~= a@.take(t + 1));
        }
        t = t + 1;
    }
    proof {
        assert(a@.take(a.len() as int) =~= a@);
    }
    b
}

/// `row` holds `k` distinct points below `n`, in candidate order, each with
/// a key that `key_of(i, ..)` returns for it.
pub open spec fn is_neighbor_row<F: Fn(usize, usize) -> u32>(
    row: Seq<(usize, u32)>,
    key_of: F,
    i: int,
    n: int,
    k: int,
) -> bool {
    &&& row.len() == k
    &&& cand_sorted(row)
    &&& forall|t: int|
        0 <= t < row.len() ==> (#[trigger] row[t]).0 < n && call_ensures(
            key_of,
            (i as usize, row[t].0),
            row[t].1,
        )
}

/// The nearest-neighbour row of point `i` among the candidates `cands`
/// (topped up as `dedup_sorted_neighbors` does).
fn neighbor_row_from<F: Fn(usize, usize) -> u32>(
    cands: &[usize],
    k: usize,
    n: usize,
    key_of: &F,
    i: usize,
) -> (row: Vec<(usize, u32)>)
    requires
        1 <= k <= n,
        i < n,
        strictly_increasing(cands@),
        forall|t: int| 0 <= t < cands.len() ==> #[trigger] cands[t] < n,
        forall|a: usize, b: usize| a < n && b < n ==> call_requires(*key_of, (a, b)),
    ensures
        is_neighbor_row(row@, *key_of, i as int, n as int, k as int),
        row_among(*key_of, i, cands@, k as int, n as int, row@),
{
    let key_at = |j: usize| -> (r: u32)
        requires
            j < n,
        ensures
            call_ensures(*key_of, (i, j), r),
        { key_of(i, j) };
    let row = dedup_sorted_neighbors(cands, k, n, &key_at);
    proof {
        let (list, keys) = choose|list: Seq<usize>, keys: Seq<u32>|
            {
                &&& keys.len() == list.len()
                &&& forall|u: int|
                    0 <= u < list.len() ==> call_ensures(key_at, (list[u],), #[trigger] keys[u])
                &&& is_top_k_among(row@, list, keys, k as int)
                &&& cands.len() >= k ==> list == cands@
                &&& cands.len() < k ==> exists|fill: Seq<usize>|
                    {
                        &&& is_first_missing(fill, cands@, n as int, k - cands.len())
                        &&& list.to_set() == cands@.to_set() + fill.to_set()
                        &&& list.len() == cands.len() + fill.len()
                    }
            };
        assert forall|t: int| 0 <= t < row.len() implies (#[trigger] row@[t]).0 < n && call_ensures(
            *key_of,
            (i, row@[t].0),
            row@[t].1,
        ) by {
            assert(row[t].0 < n);
            let u = choose|u: int| 0 <= u < list.len() && #[trigger] row@[t] == (list[u], keys[u]);
            assert(call_ensures(key_at, (list[u],), keys[u]));
        }
        assert forall|u: int| 0 <= u < list.len() implies call_ensures(
            *key_of,
            (i, list[u]),
            #[trigger] keys[u],
        ) by {
            assert(call_ensures(key_at, (list[u],), keys[u]));
        }
        assert(row_among_via(*key_of, i, cands@, k as int, n as int, row@, list, keys));
    }
    row
}

/// `set` with `x` appended unless it is there already.
pub open spec fn add_draw(set: Seq<usize>, x: usize) -> Seq<usize> {
    if set.contains(x) { set } else { set.push(x) }
}

/// `set` after adding the draws `draws` one by one, in order.
pub open spec fn add_draws(set: Seq<usize>, draws: Seq<usize>) -> Seq<usize>
    decreases draws.len(),
{
    if draws.len() == 0 {
        set
    } else {
        add_draw(add_draws(set, draws.drop_last()), draws.last())
    }
}

/// `draws` is a run of draws below `n` that `sample_until` makes from
/// `set` toward `target`: it draws while the set is smaller than `target`,
/// at most `u64::MAX` times.
pub open spec fn is_sampling_run(set: Seq<usize>, draws: Seq<usize>, n: int, target: int) -> bool {
    &&& forall|t: int| 0 <= t < draws.len() ==> #[trigger] draws[t] < n
    &&& forall|p: int| 0 <= p < draws.len() ==> (#[trigger] add_draws(set, draws.take(p))).len() < target
    &&& add_draws(set, draws).len() >= target || draws.len() == u64::MAX
}

/// Draws random points below `n` into the flagged set `set` until it holds
/// `target` points. The draws stop after `u64::MAX` attempts, a bound no
/// run reaches, so that the loop provably ends.
fn sample_until(rng: &mut SmallRng, marks: &mut Vec<bool>, set: &mut Vec<usize>, target: usize)
    requires
        old(marks).len() > 0,
        marks_match(old(marks)@, old(set)@),
    ensures
        final(marks).len() == old(marks).len(),
        marks_match(final(marks)@, final(set)@),
        exists|draws: Seq<usize>|
            is_sampling_run(old(set)@, draws, old(marks).len() as int, target as int)
                && #[trigger] add_draws(old(set)@, draws) == final(set)@,
{
    let n = marks.len();
    let ghost s0 = set@;
    let ghost mut draws: Seq<usize> = Seq::empty();
    let mut budget: u64 = u64::MAX;
    proof {
        assert(add_draws(s0, draws) == s0);
    }
    while set.len() < target && budget > 0
        invariant
            marks.len() == n,
            n > 0,
            marks_match(marks@, set@),
            draws.len() == u64::MAX - budget,
            set@ == add_draws(s0, draws),
            forall|t: int| 0 <= t < draws.len() ==> #[trigger] draws[t] < n,
            forall|p: int| 0 <= p < draws.len() ==> (#[trigger] add_draws(s0, draws.take(p))).len() < target,
        decreases budget,
    {
        let j = random_index(rng, 0, n);
        let ghost before = draws;
        insert_marked(marks, set, j);
        proof {
            draws = before.push(j);
            assert(draws.drop_last() =~= before);
            assert(draws.last() == j);
            assert forall|p: int| 0 <= p < draws.len() implies (#[trigger] add_draws(
                s0,
                draws.take(p),
            )).len() < target by {
                if p < before.len() {
                    assert(draws.take(p) =~= before.take(p));
                } else {
                    assert(draws.take(p) =~= before);
                }
            }
        }
        budget = budget - 1;
    }
    proof {
        assert(is_sampling_run(s0, draws, n as int, target as int));
    }
}

/// The candidate indices of a flagged set, in increasing order; all below
/// the number of flags.
fn sorted_candidates(marks: &Vec<bool>, set: &Vec<usize>) -> (c: Vec<usize>)
    requires
        marks_match(marks@, set@),
    ensures
        strictly_increasing(c@),
        c@.to_set() == set@.to_set(),
        forall|t: int| 0 <= t < c.len() ==> #[trigger] c[t] < marks.len(),
{
    let c = sort_dedup_indices(set.as_slice());
    proof {
        assert forall|t: int| 0 <= t < c.len() implies #[trigger] c[t] < marks.len() by {
            assert(c@.to_set().contains(c[t]));
            assert(set@.to_set().contains(c[t]));
            let u = choose|u: int| 0 <= u < set.len() && set@[u] == c[t];
        }
    }
    c
}

proof fn lemma_upto_step(row: Seq<(usize, u32)>, x: usize, t: int)
    requires
        0 <= t < row.len(),
    ensures
        in_row_upto(row, x, t + 1) == (in_row_upto(row, x, t) || row[t].0 == x),
{
    if in_row_upto(row, x, t + 1) && row[t].0 != x {
        let u = choose|u: int| 0 <= u < t + 1 && #[trigger] row[u].0 == x;
        assert(u < t);
    }
}

proof fn lemma_near_step(rows: Seq<Seq<(usize, u32)>>, i: int, t: int, x: usize)
    requires
        0 <= t,
    ensures
        near_upto(rows, i, t + 1, x) == (near_upto(rows, i, t, x) || via_neighbor(rows, i, t, x)),
{
    if near_upto(rows, i, t + 1, x) && !via_neighbor(rows, i, t, x) {
        let u = choose|u: int| 0 <= u < t + 1 && #[trigger] via_neighbor(rows, i, u, x);
        assert(u < t);
    }
}

/// The sorted candidates of point `i` in a descent round over `rows`: its
/// neighbours, their neighbours, itself and the explored points `explore`.
/// `marks` flags no point on entry and on exit.
fn round_candidates(
    rows: &Vec<Vec<(usize, u32)>>,
    i: usize,
    explore: &Vec<usize>,
    marks: &mut Vec<bool>,
) -> (c: Vec<usize>)
    requires
        i < rows.len(),
        old(marks).len() == rows.len(),
        all_clear(old(marks)@),
        forall|q: int, t: int|
            0 <= q < rows.len() && 0 <= t < rows[q]@.len() ==> (#[trigger] rows[q]@[t]).0 < rows.len(),
        forall|e: int| 0 <= e < explore.len() ==> #[trigger] explore[e] < rows.len(),
    ensures
        final(marks).len() == old(marks).len(),
        all_clear(final(marks)@),
        strictly_increasing(c@),
        c@.to_set() == round_cands(rows_view(rows@), i as int, explore@),
        forall|t: int| 0 <= t < c.len() ==> #[trigger] c[t] < rows.len(),
{
    let n = marks.len();
    let ghost rv = rows_view(rows@);
    let mut cset: Vec<usize> = Vec::new();
    proof {
        assert(cset@.to_set() =~= Set::new(|x: usize| near_upto(rv, i as int, 0, x)));
        assert(marks_match(marks@, cset@));
    }
    let mut t: usize = 0;
    while t < rows[i].len()
        invariant
            i < rows.len(),
            n == rows.len(),
            marks.len() == n,
            rv == rows_view(rows@),
            forall|q: int, u: int|
                0 <= q < rows.len() && 0 <= u < rows[q]@.len() ==> (#[trigger] rows[q]@[u]).0 < rows.len(),
            t <= rows[i as int].len(),
            marks_match(marks@, cset@),
            cset@.to_set() == Set::new(|x: usize| near_upto(rv, i as int, t as int, x)),
        decreases rows[i as int].len() - t,
    {
        let idx = rows[i][t].0;
        assert(idx < n);
        insert_marked(marks, &mut cset, idx);
        proof {
            assert(cset@.to_set() =~= Set::new(
                |x: usize| near_upto(rv, i as int, t as int, x) || x == idx || in_row_upto(rv[idx as int], x, 0),
            ));
        }
        let mut t2: usize = 0;
        while t2 < rows[idx].len()
            invariant
                i < rows.len(),
                n == rows.len(),
                marks.len() == n,
                rv == rows_view(rows@),
                idx < n,
                forall|q: int, u: int|
                    0 <= q < rows.len() && 0 <= u < rows[q]@.len() ==> (#[trigger] rows[q]@[u]).0
                        < rows.len(),
                t2 <= rows[idx as int].len(),
                marks_match(marks@, cset@),
                cset@.to_set() == Set::new(
                    |x: usize|
                        near_upto(rv, i as int, t as int, x) || x == idx || in_row_upto(
                            rv[idx as int],
                            x,
                            t2 as int,
                        ),
                ),
            decreases rows[idx as int].len() - t2,
        {
            let idx2 = rows[idx][t2].0;
            assert(idx2 < n);
            let ghost before = cset@.to_set();
            insert_marked(marks, &mut cset, idx2);
            proof {
                assert(rv[idx as int] == rows[idx as int]@);
                assert forall|x: usize|
                    in_row_upto(rv[idx as int], x, t2 + 1) == (in_row_upto(rv[idx as int], x, t2 as int)
                        || x == idx2) by {
                    lemma_upto_step(rv[idx as int], x, t2 as int);
                }
                assert(cset@.to_set() =~= Set::new(
                    |x: usize|
                        near_upto(rv, i as int, t as int, x) || x == idx || in_row_upto(
                            rv[idx as int],
                            x,
                            t2 + 1,
                        ),
                ));
            }
            t2 = t2 + 1;
        }
        proof {
            assert(rv[i as int] == rows[i as int]@);
            assert(rv[i as int][t as int].0 == idx);
            assert forall|x: usize|
                near_upto(rv, i as int, t + 1, x) == (near_upto(rv, i as int, t as int, x) || x == idx
                    || in_row_upto(rv[idx as int], x, rv[idx as int].len() as int)) by {
                lemma_near_step(rv, i as int, t as int, x);
            }
            assert(cset@.to_set() =~= Set::new(|x: usize| near_upto(rv, i as int, t + 1, x)));
        }
        t = t + 1;
    }
    insert_marked(marks, &mut cset, i);
    proof {
        assert(rv[i as int] == rows[i as int]@);
        assert(cset@.to_set() =~= Set::new(
            |x: usize|
                near_upto(rv, i as int, rv[i as int].len() as int, x) || x == i || explore@.take(
                    0,
                ).contains(x),
        ));
    }
    let mut e: usize = 0;
    while e < explore.len()
        invariant
            i < rows.len(),
            n == rows.len(),
            marks.len() == n,
            rv == rows_view(rows@),
            forall|f: int| 0 <= f < explore.len() ==> #[trigger] explore[f] < n,
            e <= explore.len(),
            marks_match(marks@, cset@),
            cset@.to_set() == Set::new(
                |x: usize|
                    near_upto(rv, i as int, rv[i as int].len() as int, x) || x == i || explore@.take(
                        e as int,
                    ).contains(x),
            ),
        decreases explore.len() - e,
    {
        insert_marked(marks, &mut cset, explore[e]);
        proof {
            assert(explore@.take(e + 1) =~= explore@.take(e as int).push(explore[e as int]));
            assert forall|x: usize|
                explore@.take(e + 1).contains(x) == (explore@.take(e as int).contains(x) || x
                    == explore[e as int]) by {
                vstd::seq_lib::lemma_seq_contains_after_push(explore@.take(e as int), explore[e as int], x);
            }
            assert(cset@.to_set() =~= Set::new(
                |x: usize|
                    near_upto(rv, i as int, rv[i as int].len() as int, x) || x == i || explore@.take(
                        e + 1,
                    ).contains(x),
            ));
        }
        e = e + 1;
    }
    proof {
        assert(explore@.take(explore.len() as int) =~= explore@);
        assert(cset@.to_set() =~= round_cands(rv, i as int, explore@));
    }
    let c = sorted_candidates(marks, &cset);
    clear_marks(marks, &cset);
    c
}

/// The candidates `c` capped at `max_c`: when there are more, the partial
/// shuffle by the draws `shuffle` keeps `max_c` of them, then they are sorted.
fn cap_candidates(c: Vec<usize>, shuffle: &Vec<usize>, max_c: usize, n: usize) -> (d: Vec<usize>)
    requires
        forall|t: int| 0 <= t < c.len() ==> #[trigger] c[t] < n,
        c.len() > max_c ==> shuffle_draws_ok(shuffle@, c.len() as int, max_c as int),
    ensures
        capped(c@, shuffle@, max_c as int, d@),
        forall|t: int| 0 <= t < d.len() ==> #[trigger] d[t] < n,
{
    if c.len() <= max_c {
        return c;
    }
    let ghost c0 = c@;
    let mut cvec = c;
    let mut s: usize = 0;
    proof {
        assert(shuffle@.take(0) =~= Seq::<usize>::empty());
    }
    while s < max_c
        invariant
            s <= max_c < c0.len(),
            cvec.len() == c0.len(),
            shuffle_draws_ok(shuffle@, c0.len() as int, max_c as int),
            cvec@ == swap_all(c0, shuffle@.take(s as int)),
            forall|u: int| 0 <= u < cvec.len() ==> #[trigger] cvec[u] < n,
        decreases max_c - s,
    {
        let r = shuffle[s];
        let a = cvec[s];
        let b = cvec[r];
        cvec.set(s, b);
        cvec.set(r, a);
        proof {
            let sh1 = shuffle@.take(s + 1);
            assert(sh1.drop_last() =~= shuffle@.take(s as int));
            assert(sh1.last() == r);
            assert(sh1.len() - 1 == s);
        }
        s = s + 1;
    }
    proof {
        assert(shuffle@.take(max_c as int) =~= shuffle@);
    }
    cvec.truncate(max_c);
    proof {
        assert(cvec@ =~= swap_all(c0, shuffle@).take(max_c as int));
    }
    let d = sort_dedup_indices(cvec.as_slice());
    proof {
        assert forall|u: int| 0 <= u < d.len() implies #[trigger] d[u] < n by {
            assert(d@.to_set().contains(d[u]));
            assert(cvec@.to_set().contains(d[u]));
            let v = choose|v: int| 0 <= v < cvec.len() && cvec@[v] == d[u];
        }
    }
    d
}

/// The initial row of point `i`: `i` and random points drawn until
/// `pool + 1` are held, then the nearest `k` of them (topped up).
fn initial_row_of<F: Fn(usize, usize) -> u32>(
    rng: &mut SmallRng,
    marks: &mut Vec<bool>,
    i: usize,
    n: usize,
    k: usize,
    pool: usize,
    key_of: &F,
) -> (row: Vec<(usize, u32)>)
    requires
        old(marks).len() == n,
        all_clear(old(marks)@),
        1 <= k < n,
        i < n,
        pool < n,
        forall|a: usize, b: usize| a < n && b < n ==> call_requires(*key_of, (a, b)),
    ensures
        final(marks).len() == n,
        all_clear(final(marks)@),
        is_neighbor_row(row@, *key_of, i as int, n as int, k as int),
        initial_row(*key_of, i, n as int, k as int, pool as int, row@),
{
    let mut sampled: Vec<usize> = Vec::new();
    proof {
        assert(marks_match(marks@, sampled@));
    }
    insert_marked(marks, &mut sampled, i);
    proof {
        assert(sampled@ =~= seq![i]);
    }
    let ghost s1 = sampled@;
    sample_until(rng, marks, &mut sampled, pool + 1);
    let cands = sorted_candidates(marks, &sampled);
    clear_marks(marks, &sampled);
    let row = neighbor_row_from(&cands, k, n, key_of, i);
    proof {
        let draws = choose|draws: Seq<usize>|
            is_sampling_run(s1, draws, n as int, (pool + 1) as int) && #[trigger] add_draws(s1, draws)
                == sampled@;
        assert(initial_row_via(*key_of, i, n as int, k as int, pool as int, draws, cands@, row@));
    }
    row
}

/// One round of neighbour descent over `rows`: each point gets the nearest
/// `k` of its capped round candidates (see `round_row`); also tells whether
/// some row changed.
fn descent_round<F: Fn(usize, usize) -> u32>(
    rng: &mut SmallRng,
    marks: &mut Vec<bool>,
    rows: &Vec<Vec<(usize, u32)>>,
    n: usize,
    k: usize,
    exploration: usize,
    max_c: usize,
    key_of: &F,
) -> (out: (Vec<Vec<(usize, u32)>>, bool))
    requires
        rows.len() == n,
        old(marks).len() == n,
        all_clear(old(marks)@),
        1 <= k < n,
        forall|q: int| 0 <= q < n ==> is_neighbor_row(#[trigger] rows[q]@, *key_of, q, n as int, k as int),
        forall|a: usize, b: usize| a < n && b < n ==> call_requires(*key_of, (a, b)),
    ensures
        final(marks).len() == n,
        all_clear(final(marks)@),
        out.0.len() == n,
        forall|q: int|
            0 <= q < n ==> is_neighbor_row(#[trigger] out.0[q]@, *key_of, q, n as int, k as int),
        forall|q: int|
            0 <= q < n ==> round_row(
                *key_of,
                rows_view(rows@),
                q as usize,
                n as int,
                k as int,
                exploration as int,
                max_c as int,
                #[trigger] out.0[q]@,
            ),
        out.1 == table_changed(rows_view(out.0@), rows_view(rows@)),
{
    proof {
        assert forall|q: int, t: int| 0 <= q < rows.len() && 0 <= t < rows[q]@.len() implies (
        #[trigger] rows[q]@[t]).0 < rows.len() by {
            assert(is_neighbor_row(rows[q]@, *key_of, q, n as int, k as int));
        }
    }
    let mut next: Vec<Vec<(usize, u32)>> = Vec::new();
    let mut changed = false;
    let mut i: usize = 0;
    while i < n
        invariant
            rows.len() == n,
            1 <= k < n,
            i <= n,
            marks.len() == n,
            all_clear(marks@),
            next.len() == i,
            forall|a: usize, b: usize| a < n && b < n ==> call_requires(*key_of, (a, b)),
            forall|q: int, t: int|
                0 <= q < rows.len() && 0 <= t < rows[q]@.len() ==> (#[trigger] rows[q]@[t]).0 < rows.len(),
            forall|q: int|
                0 <= q < n ==> is_neighbor_row(#[trigger] rows[q]@, *key_of, q, n as int, k as int),
            forall|q: int|
                0 <= q < i ==> is_neighbor_row(#[trigger] next[q]@, *key_of, q, n as int, k as int),
            forall|q: int|
                0 <= q < i ==> round_row(
                    *key_of,
                    rows_view(rows@),
                    q as usize,
                    n as int,
                    k as int,
                    exploration as int,
                    max_c as int,
                    #[trigger] next[q]@,
                ),
            changed == exists|q: int| 0 <= q < i && !rows_same(#[trigger] next[q]@, rows[q]@),
        decreases n - i,
    {
        let mut explore: Vec<usize> = Vec::new();
        let mut e: usize = 0;
        while e < exploration
            invariant
                n > 0,
                e <= exploration,
                explore.len() == e,
                forall|f: int| 0 <= f < explore.len() ==> #[trigger] explore[f] < n,
            decreases exploration - e,
        {
            let j = random_index(rng, 0, n);
            explore.push(j);
            e = e + 1;
        }
        let c = round_candidates(rows, i, &explore, marks);
        let ghost c0 = c@;
        let mut shuffle: Vec<usize> = Vec::new();
        if c.len() > max_c {
            let mut s: usize = 0;
            while s < max_c
                invariant
                    s <= max_c < c.len(),
                    shuffle.len() == s,
                    forall|u: int| 0 <= u < shuffle.len() ==> u <= #[trigger] shuffle[u] < c.len(),
                decreases max_c - s,
            {
                let r = random_index(rng, s, c.len());
                shuffle.push(r);
                s = s + 1;
            }
        }
        let d = cap_candidates(c, &shuffle, max_c, n);
        proof {
            if c0.len() <= max_c {
                assert(d@ == c0);
            }
        }
        let updated = neighbor_row_from(&d, k, n, key_of, i);
        let same = same_row(&updated, &rows[i]);
        let ghost was_changed = changed;
        let ghost before = next@;
        let kept = if same {
            copy_row(&rows[i])
        } else {
            changed = true;
            updated
        };
        proof {
            if same {
                assert forall|t: int| 0 <= t < kept@.len() implies (#[trigger] kept@[t]).0 == kept@[t].0
                    && key_eq(kept@[t].1, kept@[t].1) by {
                    assert(updated@[t].0 == rows[i as int]@[t].0 && key_eq(updated@[t].1, rows[i as int]@[t].1));
                }
                assert(rows_same(kept@, rows[i as int]@));
            }
            assert(rows_view(rows@)[i as int] == rows[i as int]@);
            assert(round_row_via(
                *key_of,
                rows_view(rows@),
                i,
                n as int,
                k as int,
                exploration as int,
                max_c as int,
                explore@,
                shuffle@,
                c0,
                d@,
                updated@,
                kept@,
            ));
        }
        next.push(kept);
        proof {
            assert forall|q: int| 0 <= q < i implies #[trigger] next[q] == before[q] by {}
            if !same {
                assert(!rows_same(next[i as int]@, rows[i as int]@));
            } else if was_changed {
                let w = choose|q: int| 0 <= q < i && !rows_same(#[trigger] before[q]@, rows[q]@);
                assert(!rows_same(next[w]@, rows[w]@));
            } else {
                assert forall|q: int| 0 <= q < i + 1 implies rows_same(#[trigger] next[q]@, rows[q]@) by {
                    if q < i {
                        assert(next[q] == before[q]);
                    }
                }
            }
        }
        i = i + 1;
    }
    proof {
        if !changed {
            assert forall|q: int| 0 <= q < n implies rows_same(#[trigger] rows_view(next@)[q], rows_view(rows@)[q]) by {
                assert(rows_view(next@)[q] == next[q]@);
                assert(rows_view(rows@)[q] == rows[q]@);
            }
        } else {
            let q = choose|q: int| 0 <= q < i && !rows_same(#[trigger] next[q]@, rows[q]@);
            assert(rows_view(next@)[q] == next[q]@);
            assert(rows_view(rows@)[q] == rows[q]@);
            assert(!rows_same(rows_view(next@)[q], rows_view(rows@)[q]));
        }
    }
    (next, changed)
}

/// Approximate `k` nearest neighbours of each of the `n_samples` points by
/// neighbour descent, the key of the pair `(i, j)` being what
/// `key_of(i, j)` returns. Each point starts from `min(max(candidate_pool,
/// k), n_samples - 1)` random other points plus itself; each of at most
/// `n_iters` rounds then offers every point its neighbours, their
/// neighbours, itself and `min(max(k / 2, 4), max_candidates)` random
/// points, keeping a random `max_candidates = 4 * max(candidate_pool, k) +
/// 1` of them when there are more; the search stops early after a round
/// that changes no row. The random draws follow `SmallRng` seeded with
/// `seed`.
pub fn approximate_nearest_neighbors_by<F: Fn(usize, usize) -> u32>(
    n_samples: usize,
    n_neighbors: usize,
    candidate_pool: usize,
    n_iters: usize,
    seed: u64,
    key_of: F,
) -> (out: (Vec<Vec<usize>>, Vec<Vec<u32>>))
    requires
        1 <= n_neighbors < n_samples,
        candidate_pool <= (usize::MAX - 1) / 4,
        n_neighbors <= (usize::MAX - 1) / 4,
        forall|i: usize, j: usize| i < n_samples && j < n_samples ==> call_requires(key_of, (i, j)),
    ensures
        out.0.len() == n_samples,
        out.1.len() == n_samples,
        forall|i: int|
            0 <= i < n_samples ==> is_neighbor_row(
                paired(#[trigger] out.0[i]@, out.1[i]@),
                key_of,
                i,
                n_samples as int,
                n_neighbors as int,
            ),
        exists|tables: Seq<Seq<Seq<(usize, u32)>>>|
            #[trigger] descent_run(
                key_of,
                n_samples as int,
                n_neighbors as int,
                candidate_pool as int,
                n_iters as int,
                tables,
            ) && forall|i: int|
                0 <= i < n_samples ==> paired(#[trigger] out.0[i]@, out.1[i]@) == tables.last()[i],
{
    let n = n_samples;
    let k = n_neighbors;
    let base = if candidate_pool > k { candidate_pool } else { k };
    let pool = if base < n - 1 { base } else { n - 1 };
    let mut rng = seeded_rng(seed);
    let mut marks: Vec<bool> = Vec::new();
    while marks.len() < n
        invariant
            marks.len() <= n,
            all_clear(marks@),
        decreases n - marks.len(),
    {
        marks.push(false);
    }
    let mut neighbors: Vec<Vec<(usize, u32)>> = Vec::new();
    let mut i: usize = 0;
    while i < n
        invariant
            1 <= k < n,
            pool < n,
            pool == initial_pool(n as int, k as int, candidate_pool as int),
            i <= n,
            marks.len() == n,
            all_clear(marks@),
            neighbors.len() == i,
            forall|a: usize, b: usize| a < n && b < n ==> call_requires(key_of, (a, b)),
            forall|q: int|
                0 <= q < i ==> is_neighbor_row(#[trigger] neighbors[q]@, key_of, q, n as int, k as int),
            forall|q: int|
                0 <= q < i ==> initial_row(
                    key_of,
                    q as usize,
                    n as int,
                    k as int,
                    pool as int,
                    #[trigger] neighbors[q]@,
                ),
        decreases n - i,
    {
        let row = initial_row_of(&mut rng, &mut marks, i, n, k, pool, &key_of);
        neighbors.push(row);
        i = i + 1;
    }
    let max_c = base * 4 + 1;
    let half = k / 2;
    let wide = if half > 4 { half } else { 4 };
    let exploration = if wide < max_c { wide } else { max_c };
    proof {
        assert(max_c == max_candidates(k as int, candidate_pool as int));
        assert(exploration == exploration_size(k as int, candidate_pool as int));
    }
    let ghost mut tables: Seq<Seq<Seq<(usize, u32)>>> = seq![rows_view(neighbors@)];
    let mut round: usize = 0;
    let mut converged = false;
    while round < n_iters && !converged
        invariant
            1 <= k < n,
            pool == initial_pool(n as int, k as int, candidate_pool as int),
            max_c == max_candidates(k as int, candidate_pool as int),
            exploration == exploration_size(k as int, candidate_pool as int),
            marks.len() == n,
            all_clear(marks@),
            neighbors.len() == n,
            round <= n_iters,
            forall|a: usize, b: usize| a < n && b < n ==> call_requires(key_of, (a, b)),
            forall|q: int|
                0 <= q < n ==> is_neighbor_row(#[trigger] neighbors[q]@, key_of, q, n as int, k as int),
            tables.len() == round + 1,
            tables.last() == rows_view(neighbors@),
            forall|r: int| 0 <= r < tables.len() ==> (#[trigger] tables[r]).len() == n,
            forall|q: int|
                0 <= q < n ==> initial_row(
                    key_of,
                    q as usize,
                    n as int,
                    k as int,
                    pool as int,
                    #[trigger] tables[0][q],
                ),
            forall|r: int, q: int|
                0 <= r < round && 0 <= q < n ==> round_row(
                    key_of,
                    tables[r],
                    q as usize,
                    n as int,
                    k as int,
                    exploration as int,
                    max_c as int,
                    #[trigger] tables[r + 1][q],
                ),
            forall|r: int| 1 <= r < round ==> table_changed(#[trigger] tables[r], tables[r - 1]),
            round == 0 ==> !converged,
            round >= 1 ==> (converged == !table_changed(tables[round as int], tables[round - 1])),
        decreases n_iters - round,
    {
        let (next, changed) = descent_round(
            &mut rng,
            &mut marks,
            &neighbors,
            n,
            k,
            exploration,
            max_c,
            &key_of,
        );
        proof {
            let old_tables = tables;
            tables = tables.push(rows_view(next@));
            assert(tables[round as int] == rows_view(neighbors@));
            assert forall|r: int, q: int|
                0 <= r < round + 1 && 0 <= q < n implies round_row(
                key_of,
                tables[r],
                q as usize,
                n as int,
                k as int,
                exploration as int,
                max_c as int,
                #[trigger] tables[r + 1][q],
            ) by {
                if r < round {
                    assert(tables[r] == old_tables[r]);
                    assert(tables[r + 1] == old_tables[r + 1]);
                } else {
                    assert(tables[r + 1][q] == next[q]@);
                }
            }
            assert forall|r: int| 1 <= r < round + 1 implies table_changed(#[trigger] tables[r], tables[r - 1]) by {
                if r < round {
                    assert(tables[r] == old_tables[r]);
                    assert(tables[r - 1] == old_tables[r - 1]);
                }
            }
            assert(tables[0] == old_tables[0]);
        }
        neighbors = next;
        converged = !changed;
        round = round + 1;
    }
    proof {
        assert(descent_run(
            key_of,
            n as int,
            k as int,
            candidate_pool as int,
            n_iters as int,
            tables,
        ));
    }
    let mut indices: Vec<Vec<usize>> = Vec::new();
    let mut dists: Vec<Vec<u32>> = Vec::new();
    let mut i: usize = 0;
    while i < n
        invariant
            i <= n,
            neighbors.len() == n,
            indices.len() == i,
            dists.len() == i,
            forall|q: int|
                0 <= q < n ==> is_neighbor_row(#[trigger] neighbors[q]@, key_of, q, n as int, k as int),
            forall|q: int| 0 <= q < i ==> paired(#[trigger] indices[q]@, dists[q]@) == neighbors[q]@,
        decreases n - i,
    {
        let mut row_idx: Vec<usize> = Vec::new();
        let mut row_keys: Vec<u32> = Vec::new();
        let mut t: usize = 0;
        while t < neighbors[i].len()
            invariant
                i < n,
                neighbors.len() == n,
                t <= neighbors[i as int].len(),
                row_idx.len() == t,
                row_keys.len() == t,
                forall|u: int|
                    0 <= u < t ==> (#[trigger] row_idx[u], row_keys[u]) == neighbors[i as int]@[u],
            decreases neighbors[i as int].len() - t,
        {
            row_idx.push(neighbors[i][t].0);
            row_keys.push(neighbors[i][t].1);
            t = t + 1;
        }
        proof {
            assert(paired(row_idx@, row_keys@) =~= neighbors[i as int]@);
        }
        indices.push(row_idx);
        dists.push(row_keys);
        i = i + 1;
    }
    proof {
        assert forall|q: int| 0 <= q < n implies paired(#[trigger] indices[q]@, dists[q]@)
            == tables.last()[q] by {
            assert(tables.last()[q] == rows_view(neighbors@)[q]);
        }
    }
    (indices, dists)
}

} // verus!
