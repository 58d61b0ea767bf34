//! Stable sorting by a text key, ordered as `String`s compare.

use vstd::prelude::*;
use crate::text::{chars_lt, lemma_seq_lt_total, lemma_seq_lt_transitive, seq_lt};

verus! {

/// Item `a` comes before item `b` in a stable sort by `keys`: its key is
/// smaller, or the keys are equal and `a` came first.
pub open spec fn key_before(keys: Seq<Seq<char>>, a: int, b: int) -> bool {
    seq_lt(keys[a], keys[b]) || (keys[a] == keys[b] && a < b)
}

/// `perm` lists the positions of the items in the order of a stable sort by
/// `keys`: each position once, with keys in order and ties in their original order.
pub open spec fn is_stable_order(perm: Seq<int>, keys: Seq<Seq<char>>) -> bool {
    &&& perm.len() == keys.len()
    &&& forall|i: int| 0 <= i < perm.len() ==> 0 <= #[trigger] perm[i] < keys.len()
    &&& forall|i: int, j: int|
        0 <= i < perm.len() && 0 <= j < perm.len() && i != j ==> #[trigger] perm[i] != #[trigger] perm[j]
    &&& forall|i: int, j: int|
        0 <= i < j < perm.len() ==> key_before(keys, #[trigger] perm[i], #[trigger] perm[j])
}

/// `out` is `inp` stably sorted by `keys` (the key of each item of `inp`).
pub open spec fn is_stable_sort<T>(out: Seq<T>, inp: Seq<T>, keys: Seq<Seq<char>>) -> bool {
    exists|perm: Seq<int>|
        {
            &&& #[trigger] is_stable_order(perm, keys)
            &&& keys.len() == inp.len()
            &&& out.len() == inp.len()
            &&& forall|i: int| 0 <= i < out.len() ==> out[i] == inp[#[trigger] perm[i]]
        }
}

pub open spec fn key_views(keys: Seq<Vec<char>>) -> Seq<Seq<char>> {
    keys.map_values(|k: Vec<char>| k@)
}

/// Sorts `items` stably by `keys` (`keys[i]` is the key of `items[i]`), as
/// `sort_by` with a comparison of the keys does.
pub fn sort_by_keys<T>(items: Vec<T>, keys: Vec<Vec<char>>) -> (r: Vec<T>)
    requires
        items.len() == keys.len(),
    ensures
        is_stable_sort(r@, items@, key_views(keys@)),
{
    let ghost inp = items@;
    let ghost ks = key_views(keys@);
    let n = items.len();
    let mut items = items;
    let mut keys = keys;
    let mut out: Vec<T> = Vec::new();
    let mut okeys: Vec<Vec<char>> = Vec::new();
    let ghost mut perm: Seq<int> = seq![];
    while items.len() > 0
        invariant
            items.len() == keys.len(),
            items.len() + out.len() == n,
            okeys.len() == out.len(),
            n == inp.len(),
            ks.len() == n,
            items@ == inp.take(items.len() as int),
            forall|k: int| 0 <= k < keys.len() ==> #[trigger] keys@[k]@ == ks[k],
            perm.len() == out.len(),
            forall|k: int|
                0 <= k < perm.len() ==> items.len() <= #[trigger] perm[k] < n && out@[k] == inp[perm[k]]
                    && okeys@[k]@ == ks[perm[k]],
            forall|a: int, b: int|
                0 <= a < perm.len() && 0 <= b < perm.len() && a != b ==> #[trigger] perm[a] != #[trigger] perm[b],
            forall|a: int, b: int|
                0 <= a < b < perm.len() ==> key_before(ks, #[trigger] perm[a], #[trigger] perm[b]),
        decreases items.len(),
    {
        let ghost m = (items.len() - 1) as int;
        let item = items.pop().unwrap();
        let key = keys.pop().unwrap();
        assert(item == inp[m]);
        assert(key@ == ks[m]);
        assert(items@ =~= inp.take(items.len() as int));
        // Find the first position whose key is not smaller than `key`.
        let mut j: usize = 0;
        while j < okeys.len() && chars_lt(&okeys[j], &key)
            invariant
                j <= okeys.len(),
                okeys.len() == perm.len(),
                forall|k: int| 0 <= k < perm.len() ==> okeys@[k]@ == ks[#[trigger] perm[k]],
                forall|k: int| 0 <= k < j ==> seq_lt(ks[#[trigger] perm[k]], ks[m]),
                key@ == ks[m],
            decreases okeys.len() - j,
        {
            j = j + 1;
        }
        proof {
            // Every item from `j` on orders after the new one.
            assert forall|k: int| j <= k < perm.len() implies key_before(ks, m, #[trigger] perm[k]) by {
                assert(perm[k] > m);
                let pj = perm[j as int];
                assert(!seq_lt(ks[pj], ks[m]));
                lemma_seq_lt_total(ks[pj], ks[m]);
                if k > j {
                    assert(key_before(ks, pj, perm[k]));
                    if seq_lt(ks[pj], ks[perm[k]]) {
                        if seq_lt(ks[m], ks[pj]) {
                            lemma_seq_lt_transitive(ks[m], ks[pj], ks[perm[k]]);
                        }
                    }
                }
            }
        }
        let ghost old_perm = perm;
        let ghost old_out = out@;
        let ghost old_okeys = okeys@;
        out.insert(j, item);
        okeys.insert(j, key);
        proof {
            perm = old_perm.insert(j as int, m);
            assert forall|k: int| 0 <= k < perm.len() implies items.len() <= #[trigger] perm[k] < n
                && out@[k] == inp[perm[k]] && okeys@[k]@ == ks[perm[k]] by {
                if k < j {
                    assert(perm[k] == old_perm[k]);
                } else if k > j {
                    assert(perm[k] == old_perm[k - 1]);
                }
            }
            assert forall|a: int, b: int|
                0 <= a < perm.len() && 0 <= b < perm.len() && a != b implies #[trigger] perm[a]
                != #[trigger] perm[b] by {
                if a != j && b != j {
                    let oa = if a < j { a } else { a - 1 };
                    let ob = if b < j { b } else { b - 1 };
                    assert(perm[a] == old_perm[oa]);
                    assert(perm[b] == old_perm[ob]);
                } else if a == j {
                    let ob = if b < j { b } else { b - 1 };
                    assert(perm[b] == old_perm[ob]);
                } else {
                    let oa = if a < j { a } else { a - 1 };
                    assert(perm[a] == old_perm[oa]);
                }
            }
            assert forall|a: int, b: int| 0 <= a < b < perm.len() implies key_before(
                ks,
                #[trigger] perm[a],
                #[trigger] perm[b],
            ) by {
                if b < j {
                    assert(perm[a] == old_perm[a] && perm[b] == old_perm[b]);
                } else if a > j {
                    assert(perm[a] == old_perm[a - 1] && perm[b] == old_perm[b - 1]);
                } else if a < j && b > j {
                    assert(perm[a] == old_perm[a] && perm[b] == old_perm[b - 1]);
                } else if a == j {
                    assert(perm[b] == old_perm[b - 1]);
                } else {
                    assert(b == j);
                    assert(perm[a] == old_perm[a]);
                    assert(seq_lt(ks[old_perm[a]], ks[m]));
                }
            }
        }
    }
    proof {
        assert(is_stable_order(perm, ks));
    }
    out
}

} // verus!
