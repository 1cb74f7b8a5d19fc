//! Sorting strings into strictly increasing order, dropping repeats: the
//! ordering that the batch state keeps its ids in.
use crate::text::{chars_of, lemma_lex_asymmetric, lemma_lex_irreflexive, lemma_lex_total,
    lemma_lex_transitive, lex_less, lex_lt};
use vstd::prelude::*;

verus! {

/// Each element comes strictly before the next one.
pub open spec fn strictly_sorted(s: Seq<Seq<char>>) -> bool {
    forall|i: int, j: int| 0 <= i < j < s.len() ==> lex_lt(#[trigger] s[i], #[trigger] s[j])
}

/// The views of a sequence of strings.
pub open spec fn views(v: Seq<String>) -> Seq<Seq<char>> {
    v.map_values(|s: String| s@)
}

/// The key at index `i` of `keys`.
pub open spec fn key(keys: Seq<Vec<char>>, i: usize) -> Seq<char> {
    keys[i as int]@
}

/// `idx` lists indices whose keys strictly increase.
pub open spec fn sorted_by_key(keys: Seq<Vec<char>>, idx: Seq<usize>) -> bool {
    forall|p: int, q: int|
        0 <= p < q < idx.len() ==> lex_lt(#[trigger] key(keys, idx[p]), #[trigger] key(keys, idx[q]))
}

/// Some element of `idx` has the key `k`.
pub open spec fn has_key(keys: Seq<Vec<char>>, idx: Seq<usize>, k: Seq<char>) -> bool {
    exists|p: int| 0 <= p < idx.len() && #[trigger] key(keys, idx[p]) == k
}

/// `x` is an element of `a` or of `b`.
pub open spec fn from_either(a: Seq<usize>, b: Seq<usize>, x: usize) -> bool {
    (exists|i: int| 0 <= i < a.len() && a[i] == x) || (exists|j: int| 0 <= j < b.len() && b[j] == x)
}

fn merge(keys: &Vec<Vec<char>>, a: &Vec<usize>, b: &Vec<usize>) -> (out: Vec<usize>)
    requires
        forall|p: int| 0 <= p < a.len() ==> a@[p] < keys.len(),
        forall|p: int| 0 <= p < b.len() ==> b@[p] < keys.len(),
        sorted_by_key(keys@, a@),
        sorted_by_key(keys@, b@),
    ensures
        sorted_by_key(keys@, out@),
        forall|p: int| 0 <= p < out.len() ==> from_either(a@, b@, #[trigger] out@[p]),
        forall|i: int| 0 <= i < a.len() ==> has_key(keys@, out@, #[trigger] key(keys@, a@[i])),
        forall|j: int| 0 <= j < b.len() ==> has_key(keys@, out@, #[trigger] key(keys@, b@[j])),
{
    let mut out: Vec<usize> = Vec::new();
    let mut i: usize = 0;
    let mut j: usize = 0;
    while i < a.len() || j < b.len()
        invariant
            i <= a.len(),
            j <= b.len(),
            forall|p: int| 0 <= p < a.len() ==> a@[p] < keys.len(),
            forall|p: int| 0 <= p < b.len() ==> b@[p] < keys.len(),
            sorted_by_key(keys@, a@),
            sorted_by_key(keys@, b@),
            sorted_by_key(keys@, out@),
            forall|p: int| 0 <= p < out.len() ==> from_either(a@, b@, #[trigger] out@[p]),
            forall|ii: int| 0 <= ii < i ==> has_key(keys@, out@, #[trigger] key(keys@, a@[ii])),
            forall|jj: int| 0 <= jj < j ==> has_key(keys@, out@, #[trigger] key(keys@, b@[jj])),
            out.len() > 0 && i < a.len() ==> lex_lt(key(keys@, out@.last()), key(keys@, a@[i as int])),
            out.len() > 0 && j < b.len() ==> lex_lt(key(keys@, out@.last()), key(keys@, b@[j as int])),
        decreases a.len() + b.len() - i - j,
    {
        // pick the next index, and whether it advances i, j or both
        let take_a: bool;
        let take_b: bool;
        if i < a.len() && j < b.len() {
            let ka_less = lex_less(&keys[a[i]], &keys[b[j]]);
            let kb_less = lex_less(&keys[b[j]], &keys[a[i]]);
            if ka_less {
                take_a = true;
                take_b = false;
            } else if kb_less {
                take_a = false;
                take_b = true;
            } else {
                proof {
                    lemma_lex_total(key(keys@, a@[i as int]), key(keys@, b@[j as int]));
                }
                take_a = true;
                take_b = true;
            }
        } else if i < a.len() {
            take_a = true;
            take_b = false;
        } else {
            take_a = false;
            take_b = true;
        }
        let x = if take_a {
            a[i]
        } else {
            b[j]
        };
        let ghost kx = key(keys@, x);
        let ghost old_out = out@;
        proof {
            // everything already out is below the new key
            assert forall|p: int| 0 <= p < old_out.len() implies lex_lt(
                #[trigger] key(keys@, old_out[p]),
                kx,
            ) by {
                if p < old_out.len() - 1 {
                    lemma_lex_transitive(
                        key(keys@, old_out[p]),
                        key(keys@, old_out.last()),
                        kx,
                    );
                }
            }
        }
        out.push(x);
        proof {
            assert forall|p: int, q: int| 0 <= p < q < out@.len() implies lex_lt(
                #[trigger] key(keys@, out@[p]),
                #[trigger] key(keys@, out@[q]),
            ) by {
                if q == out@.len() - 1 {
                    assert(out@[q] == x);
                } else {
                    assert(out@[p] == old_out[p]);
                    assert(out@[q] == old_out[q]);
                }
            }
            assert forall|p: int| 0 <= p < out.len() implies from_either(a@, b@, #[trigger] out@[p]) by {
                if p == out@.len() - 1 {
                    if take_a {
                        assert(a@[i as int] == out@[p]);
                    } else {
                        assert(b@[j as int] == out@[p]);
                    }
                } else {
                    assert(out@[p] == old_out[p]);
                }
            }
            let last = (out@.len() - 1) as int;
            assert(key(keys@, out@[last]) == kx);
            assert forall|ii: int| 0 <= ii < i implies has_key(keys@, out@, #[trigger] key(keys@, a@[ii])) by {
                let p = choose|p: int| 0 <= p < old_out.len() && #[trigger] key(keys@, old_out[p]) == key(keys@, a@[ii]);
                assert(out@[p] == old_out[p]);
            }
            assert forall|jj: int| 0 <= jj < j implies has_key(keys@, out@, #[trigger] key(keys@, b@[jj])) by {
                let p = choose|p: int| 0 <= p < old_out.len() && #[trigger] key(keys@, old_out[p]) == key(keys@, b@[jj]);
                assert(out@[p] == old_out[p]);
            }
            if take_a {
                assert(has_key(keys@, out@, key(keys@, a@[i as int])));
                if i + 1 < a.len() {
                    assert(lex_lt(key(keys@, a@[i as int]), key(keys@, a@[i + 1])));
                }
            }
            if take_b {
                if take_a {
                    assert(key(keys@, b@[j as int]) == kx);
                } else {
                    assert(out@[last] == b@[j as int]);
                }
                assert(has_key(keys@, out@, key(keys@, b@[j as int])));
                if j + 1 < b.len() {
                    assert(lex_lt(key(keys@, b@[j as int]), key(keys@, b@[j + 1])));
                }
            }
            if take_a && !take_b && j < b.len() {
                assert(lex_lt(kx, key(keys@, b@[j as int])));
            }
            if take_b && !take_a && i < a.len() {
                assert(lex_lt(kx, key(keys@, a@[i as int])));
            }
        }
        if take_a {
            i = i + 1;
        }
        if take_b {
            j = j + 1;
        }
    }
    out
}

/// Indices `lo..hi` ordered by strictly increasing key, one index per distinct key.
fn sort_range(keys: &Vec<Vec<char>>, lo: usize, hi: usize) -> (out: Vec<usize>)
    requires
        lo <= hi <= keys.len(),
    ensures
        sorted_by_key(keys@, out@),
        forall|p: int| 0 <= p < out.len() ==> lo <= #[trigger] out@[p] < hi,
        forall|t: int| lo <= t < hi ==> has_key(keys@, out@, #[trigger] keys@[t]@),
    decreases hi - lo,
{
    if hi - lo == 0 {
        return Vec::new();
    }
    if hi - lo == 1 {
        let mut out = Vec::new();
        out.push(lo);
        proof {
            assert(key(keys@, out@[0]) == keys@[lo as int]@);
        }
        return out;
    }
    let mid = lo + (hi - lo) / 2;
    let a = sort_range(keys, lo, mid);
    let b = sort_range(keys, mid, hi);
    let out = merge(keys, &a, &b);
    proof {
        assert forall|p: int| 0 <= p < out.len() implies lo <= #[trigger] out@[p] < hi by {
            assert(from_either(a@, b@, out@[p]));
            if exists|i: int| 0 <= i < a.len() && a@[i] == out@[p] {
                let i = choose|i: int| 0 <= i < a.len() && a@[i] == out@[p];
                assert(lo <= a@[i] < mid);
            } else {
                let j = choose|j: int| 0 <= j < b.len() && b@[j] == out@[p];
                assert(mid <= b@[j] < hi);
            }
        }
        assert forall|t: int| lo <= t < hi implies has_key(keys@, out@, #[trigger] keys@[t]@) by {
            if t < mid {
                assert(has_key(keys@, a@, keys@[t]@));
                let i = choose|i: int| 0 <= i < a.len() && #[trigger] key(keys@, a@[i]) == keys@[t]@;
                assert(has_key(keys@, out@, key(keys@, a@[i])));
            } else {
                assert(has_key(keys@, b@, keys@[t]@));
                let j = choose|j: int| 0 <= j < b.len() && #[trigger] key(keys@, b@[j]) == keys@[t]@;
                assert(has_key(keys@, out@, key(keys@, b@[j])));
            }
        }
    }
    out
}

/// The distinct strings of `v` in strictly increasing order.
pub fn sorted_distinct(v: &Vec<String>) -> (out: Vec<String>)
    ensures
        strictly_sorted(views(out@)),
        views(out@).to_set() == views(v@).to_set(),
{
    let mut keys: Vec<Vec<char>> = Vec::new();
    let mut t: usize = 0;
    while t < v.len()
        invariant
            t <= v.len(),
            keys.len() == t,
            forall|i: int| 0 <= i < t ==> #[trigger] keys@[i]@ == v@[i]@,
        decreases v.len() - t,
    {
        keys.push(chars_of(v[t].as_str()));
        t = t + 1;
    }
    let idx = sort_range(&keys, 0, v.len());
    let mut out: Vec<String> = Vec::new();
    let mut p: usize = 0;
    while p < idx.len()
        invariant
            p <= idx.len(),
            out.len() == p,
            keys.len() == v.len(),
            forall|i: int| 0 <= i < v.len() ==> #[trigger] keys@[i]@ == v@[i]@,
            forall|q: int| 0 <= q < idx.len() ==> 0 <= #[trigger] idx@[q] < v.len(),
            forall|q: int| 0 <= q < p ==> #[trigger] out@[q]@ == key(keys@, idx@[q]),
        decreases idx.len() - p,
    {
        let s = v[idx[p]].clone();
        out.push(s);
        p = p + 1;
    }
    proof {
        let vo = views(out@);
        let vv = views(v@);
        assert forall|i: int, j: int| 0 <= i < j < vo.len() implies lex_lt(#[trigger] vo[i], #[trigger] vo[j]) by {
            assert(vo[i] == key(keys@, idx@[i]));
            assert(vo[j] == key(keys@, idx@[j]));
        }
        assert forall|k: Seq<char>| vo.to_set().contains(k) <==> vv.to_set().contains(k) by {
            if vo.to_set().contains(k) {
                let q = choose|q: int| 0 <= q < vo.len() && vo[q] == k;
                assert(vo[q] == key(keys@, idx@[q]));
                assert(vv[idx@[q] as int] == k);
            }
            if vv.to_set().contains(k) {
                let i = choose|i: int| 0 <= i < vv.len() && vv[i] == k;
                assert(has_key(keys@, idx@, keys@[i]@));
                let q = choose|q: int| 0 <= q < idx.len() && #[trigger] key(keys@, idx@[q]) == keys@[i]@;
                assert(vo[q] == k);
            }
        }
        assert(vo.to_set() =~= vv.to_set());
    }
    out
}

} // verus!
