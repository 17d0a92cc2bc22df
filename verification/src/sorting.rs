//! Sorting pairs of integers lexicographically, dropping repeated pairs.
use vstd::prelude::*;

verus! {

broadcast use vstd::seq_lib::group_seq_properties;

/// Lexicographic order on pairs.
pub open spec fn lex_lt(x: (usize, usize), y: (usize, usize)) -> bool {
    x.0 < y.0 || (x.0 == y.0 && x.1 < y.1)
}

/// Every earlier element is lexicographically smaller than every later one
/// (so no element repeats).
pub open spec fn strictly_sorted(s: Seq<(usize, usize)>) -> bool {
    forall|i: int, j: int| 0 <= i < j < s.len() ==> lex_lt(#[trigger] s[i], #[trigger] s[j])
}

proof fn lemma_take_push(s: Seq<(usize, usize)>, i: int)
    requires
        0 <= i < s.len(),
    ensures
        s.subrange(0, i + 1).to_set() == s.subrange(0, i).to_set().insert(s[i]),
{
    assert(s.subrange(0, i + 1) == s.subrange(0, i).push(s[i]));
    s.subrange(0, i).lemma_push_to_set_commute(s[i]);
}

/// Merges two strictly sorted sequences into the strictly sorted sequence
/// of the elements of either.
fn merge_dedup(a: &Vec<(usize, usize)>, b: &Vec<(usize, usize)>) -> (out: Vec<(usize, usize)>)
    requires
        strictly_sorted(a@),
        strictly_sorted(b@),
    ensures
        strictly_sorted(out@),
        out@.to_set() == a@.to_set().union(b@.to_set()),
{
    let mut out: Vec<(usize, usize)> = Vec::new();
    let mut i: usize = 0;
    let mut j: usize = 0;
    proof {
        assert(a@.subrange(0, 0) =~= Seq::<(usize, usize)>::empty());
        assert(b@.subrange(0, 0) =~= Seq::<(usize, usize)>::empty());
        assert(out@.to_set() =~= a@.subrange(0, 0).to_set().union(b@.subrange(0, 0).to_set()));
    }
    while i < a.len() || j < b.len()
        invariant
            i <= a.len(),
            j <= b.len(),
            strictly_sorted(a@),
            strictly_sorted(b@),
            strictly_sorted(out@),
            out@.to_set() == a@.subrange(0, i as int).to_set().union(
                b@.subrange(0, j as int).to_set(),
            ),
            out.len() > 0 && i < a.len() ==> lex_lt(out@.last(), a@[i as int]),
            out.len() > 0 && j < b.len() ==> lex_lt(out@.last(), b@[j as int]),
        decreases a.len() + b.len() - i - j,
    {
        let ghost old_out = out@;
        if j >= b.len() || (i < a.len() && (a[i].0 < b[j].0 || (a[i].0 == b[j].0 && a[i].1
            < b[j].1))) {
            out.push(a[i]);
            proof {
                lemma_take_push(a@, i as int);
                old_out.lemma_push_to_set_commute(a@[i as int]);
                assert(out@.to_set() =~= a@.subrange(0, i + 1).to_set().union(
                    b@.subrange(0, j as int).to_set(),
                ));
            }
            i = i + 1;
        } else if i >= a.len() || (b[j].0 < a[i].0 || (b[j].0 == a[i].0 && b[j].1 < a[i].1)) {
            out.push(b[j]);
            proof {
                lemma_take_push(b@, j as int);
                old_out.lemma_push_to_set_commute(b@[j as int]);
                assert(out@.to_set() =~= a@.subrange(0, i as int).to_set().union(
                    b@.subrange(0, j + 1).to_set(),
                ));
            }
            j = j + 1;
        } else {
            out.push(a[i]);
            proof {
                assert(a@[i as int] == b@[j as int]);
                lemma_take_push(a@, i as int);
                lemma_take_push(b@, j as int);
                old_out.lemma_push_to_set_commute(a@[i as int]);
                assert(out@.to_set() =~= a@.subrange(0, i + 1).to_set().union(
                    b@.subrange(0, j + 1).to_set(),
                ));
            }
            i = i + 1;
            j = j + 1;
        }
    }
    proof {
        assert(a@.subrange(0, a.len() as int) == a@);
        assert(b@.subrange(0, b.len() as int) == b@);
    }
    out
}

/// Sorts `v` lexicographically and removes repeated pairs: the result is
/// strictly increasing and holds exactly the pairs of `v`.
pub fn sort_dedup_pairs(v: &[(usize, usize)]) -> (out: Vec<(usize, usize)>)
    ensures
        strictly_sorted(out@),
        out@.to_set() == v@.to_set(),
    decreases v.len(),
{
    if v.len() == 0 {
        let out: Vec<(usize, usize)> = Vec::new();
        proof {
            assert(out@.to_set() =~= v@.to_set());
        }
        return out;
    }
    if v.len() == 1 {
        let mut out: Vec<(usize, usize)> = Vec::new();
        out.push(v[0]);
        proof {
            assert(out@ == v@);
        }
        return out;
    }
    let mid = v.len() / 2;
    let (left, right) = v.split_at(mid);
    let sl = sort_dedup_pairs(left);
    let sr = sort_dedup_pairs(right);
    let out = merge_dedup(&sl, &sr);
    proof {
        assert(v@ == left@ + right@);
        assert forall|x: (usize, usize)| v@.to_set().contains(x) <==> out@.to_set().contains(x) by {
            if v@.contains(x) {
                let k = choose|k: int| 0 <= k < v@.len() && v@[k] == x;
                if k < mid {
                    assert(left@[k] == x);
                    assert(left@.contains(x));
                } else {
                    assert(right@[k - mid] == x);
                    assert(right@.contains(x));
                }
            }
            if left@.contains(x) {
                let k = choose|k: int| 0 <= k < left@.len() && left@[k] == x;
                assert(v@[k] == x);
            }
            if right@.contains(x) {
                let k = choose|k: int| 0 <= k < right@.len() && right@[k] == x;
                assert(v@[k + mid] == x);
            }
        }
        assert(out@.to_set() =~= v@.to_set());
    }
    out
}

/// Every earlier index is smaller than every later one.
pub open spec fn strictly_increasing(s: Seq<usize>) -> bool {
    forall|i: int, j: int| 0 <= i < j < s.len() ==> #[trigger] s[i] < #[trigger] s[j]
}

/// Sorts `v` in increasing order and removes repeated indices: the result
/// is strictly increasing and holds exactly the indices of `v`.
pub fn sort_dedup_indices(v: &[usize]) -> (out: Vec<usize>)
    ensures
        strictly_increasing(out@),
        out@.to_set() == v@.to_set(),
{
    let mut pairs: Vec<(usize, usize)> = Vec::new();
    let mut i: usize = 0;
    while i < v.len()
        invariant
            i <= v.len(),
            pairs.len() == i,
            forall|t: int| 0 <= t < i ==> #[trigger] pairs[t] == (v[t], 0usize),
        decreases v.len() - i,
    {
        pairs.push((v[i], 0));
        i = i + 1;
    }
    let sorted = sort_dedup_pairs(&pairs);
    proof {
        assert forall|t: int| 0 <= t < sorted.len() implies (#[trigger] sorted[t]).1 == 0 by {
            assert(sorted@.to_set().contains(sorted[t]));
            assert(pairs@.to_set().contains(sorted[t]));
            let u = choose|u: int| 0 <= u < pairs.len() && pairs@[u] == sorted[t];
            assert(pairs[u] == (v[u], 0usize));
        }
    }
    let mut out: Vec<usize> = Vec::new();
    let mut t: usize = 0;
    while t < sorted.len()
        invariant
            t <= sorted.len(),
            out.len() == t,
            forall|u: int| 0 <= u < t ==> #[trigger] out[u] == sorted[u].0,
        decreases sorted.len() - t,
    {
        out.push(sorted[t].0);
        t = t + 1;
    }
    proof {
        assert forall|a: int, b: int| 0 <= a < b < out.len() implies #[trigger] out[a] < #[trigger] out[b] by {
            assert(lex_lt(sorted[a], sorted[b]));
            assert(sorted[a].1 == 0 && sorted[b].1 == 0);
        }
        assert forall|x: usize| out@.to_set().contains(x) <==> v@.to_set().contains(x) by {
            if out@.to_set().contains(x) {
                let a = choose|a: int| 0 <= a < out.len() && out@[a] == x;
                assert(sorted@[a] == (x, 0usize));
                assert(sorted@.to_set().contains((x, 0usize)));
                assert(pairs@.to_set().contains((x, 0usize)));
                let u = choose|u: int| 0 <= u < pairs.len() && pairs@[u] == (x, 0usize);
                assert(v@[u] == x);
                assert(v@.contains(x));
            }
            if v@.to_set().contains(x) {
                let u = choose|u: int| 0 <= u < v.len() && v@[u] == x;
                assert(pairs@[u] == (x, 0usize));
                assert(pairs@.to_set().contains((x, 0usize)));
                assert(sorted@.to_set().contains((x, 0usize)));
                let a = choose|a: int| 0 <= a < sorted.len() && sorted@[a] == (x, 0usize);
                assert(out@[a] == x);
                assert(out@.contains(x));
            }
        }
        assert(out@.to_set() =~= v@.to_set());
    }
    out
}

} // verus!
