//! Stable sorting orders, computed as permutations of indices.
use vstd::prelude::*;
use crate::text::{text_lt, lemma_text_lt_order, chars_lt};

verus! {

/// `perm` lists each index below `n` exactly once.
pub open spec fn is_index_permutation(perm: Seq<usize>, n: nat) -> bool {
    &&& perm.len() == n
    &&& perm.no_duplicates()
    &&& forall|i: int| 0 <= i < perm.len() ==> #[trigger] perm[i] < n
    &&& forall|x: usize| x < n ==> #[trigger] perm.contains(x)
}

/// Index `a` comes before index `b` when its key is smaller, or the keys are equal and `a`
/// came first (a stable ascending order).
pub open spec fn text_before(keys: Seq<Seq<char>>, a: int, b: int) -> bool {
    text_lt(keys[a], keys[b]) || (keys[a] == keys[b] && a < b)
}

/// `perm` is the stable ascending order of `keys`.
pub open spec fn is_stable_text_order(keys: Seq<Seq<char>>, perm: Seq<usize>) -> bool {
    &&& is_index_permutation(perm, keys.len())
    &&& forall|i: int, j: int|
        0 <= i < j < perm.len() ==> text_before(keys, #[trigger] perm[i] as int, #[trigger] perm[j] as int)
}

/// Index `a` comes before index `b` when its key is larger, or the keys are equal and `a`
/// came first (a stable descending order).
pub open spec fn i64_before_desc(keys: Seq<i64>, a: int, b: int) -> bool {
    keys[a] > keys[b] || (keys[a] == keys[b] && a < b)
}

/// `perm` is the stable descending order of `keys`.
pub open spec fn is_stable_desc_order(keys: Seq<i64>, perm: Seq<usize>) -> bool {
    &&& is_index_permutation(perm, keys.len())
    &&& forall|i: int, j: int|
        0 <= i < j < perm.len() ==> i64_before_desc(keys, #[trigger] perm[i] as int, #[trigger] perm[j] as int)
}

proof fn lemma_insert_permutation(perm: Seq<usize>, pos: int, k: usize)
    requires
        is_index_permutation(perm, k as nat),
        0 <= pos <= perm.len(),
    ensures
        is_index_permutation(perm.insert(pos, k), (k + 1) as nat),
{
    let p2 = perm.insert(pos, k);
    assert forall|x: usize| x < k + 1 implies #[trigger] p2.contains(x) by {
        if x == k {
            assert(p2[pos] == k);
        } else {
            assert(perm.contains(x));
            let i = choose|i: int| 0 <= i < perm.len() && perm[i] == x;
            if i < pos {
                assert(p2[i] == x);
            } else {
                assert(p2[i + 1] == x);
            }
        }
    }
    assert forall|i: int, j: int| 0 <= i < p2.len() && 0 <= j < p2.len() && i != j implies p2[i] != p2[j] by {
        if i != pos && j != pos {
            let oi = if i < pos { i } else { i - 1 };
            let oj = if j < pos { j } else { j - 1 };
            assert(p2[i] == perm[oi] && p2[j] == perm[oj]);
        } else if i == pos {
            let oj = if j < pos { j } else { j - 1 };
            assert(p2[j] == perm[oj]);
        } else {
            let oi = if i < pos { i } else { i - 1 };
            assert(p2[i] == perm[oi]);
        }
    }
}

/// The stable ascending order of text keys.
pub fn stable_text_order(keys: &Vec<Vec<char>>) -> (perm: Vec<usize>)
    ensures
        is_stable_text_order(keys@.map_values(|k: Vec<char>| k@), perm@),
{
    let ghost ks = keys@.map_values(|k: Vec<char>| k@);
    let mut perm: Vec<usize> = Vec::new();
    for k in 0..keys.len()
        invariant
            ks == keys@.map_values(|k: Vec<char>| k@),
            is_index_permutation(perm@, k as nat),
            forall|i: int, j: int|
                0 <= i < j < perm@.len() ==> text_before(ks, #[trigger] perm@[i] as int, #[trigger] perm@[j] as int),
    {
        let mut pos: usize = 0;
        while pos < perm.len() && !chars_lt(&keys[k], &keys[perm[pos]])
            invariant
                ks == keys@.map_values(|k: Vec<char>| k@),
                0 <= k < keys@.len(),
                is_index_permutation(perm@, k as nat),
                pos <= perm@.len(),
                forall|m: int| 0 <= m < pos ==> text_before(ks, #[trigger] perm@[m] as int, k as int),
            decreases perm@.len() - pos,
        {
            proof {
                lemma_text_lt_order(ks[k as int], ks[perm@[pos as int] as int], ks[k as int]);
            }
            pos = pos + 1;
        }
        let ghost old_perm = perm@;
        proof {
            lemma_insert_permutation(old_perm, pos as int, k);
        }
        perm.insert(pos, k);
        assert forall|i: int, j: int| 0 <= i < j < perm@.len() implies text_before(
            ks,
            #[trigger] perm@[i] as int,
            #[trigger] perm@[j] as int,
        ) by {
            let p = pos as int;
            if i < p && j < p {
                assert(perm@[i] == old_perm[i] && perm@[j] == old_perm[j]);
            } else if i < p && j == p {
                assert(perm@[i] == old_perm[i]);
            } else if i < p {
                assert(perm@[i] == old_perm[i] && perm@[j] == old_perm[j - 1]);
            } else if i == p {
                assert(perm@[j] == old_perm[j - 1]);
                let q = old_perm[p] as int;
                let r = old_perm[j - 1] as int;
                assert(text_lt(ks[k as int], ks[q]));
                if j - 1 > p {
                    assert(text_before(ks, q, r));
                }
                lemma_text_lt_order(ks[k as int], ks[q], ks[r]);
            } else {
                assert(perm@[i] == old_perm[i - 1] && perm@[j] == old_perm[j - 1]);
            }
        }
    }
    perm
}

/// The stable descending order of integer keys.
pub fn stable_desc_order(keys: &Vec<i64>) -> (perm: Vec<usize>)
    ensures
        is_stable_desc_order(keys@, perm@),
{
    let mut perm: Vec<usize> = Vec::new();
    for k in 0..keys.len()
        invariant
            is_index_permutation(perm@, k as nat),
            forall|i: int, j: int|
                0 <= i < j < perm@.len() ==> i64_before_desc(keys@, #[trigger] perm@[i] as int, #[trigger] perm@[j] as int),
    {
        let mut pos: usize = 0;
        while pos < perm.len() && !(keys[k] > keys[perm[pos]])
            invariant
                0 <= k < keys@.len(),
                is_index_permutation(perm@, k as nat),
                pos <= perm@.len(),
                forall|m: int| 0 <= m < pos ==> i64_before_desc(keys@, #[trigger] perm@[m] as int, k as int),
            decreases perm@.len() - pos,
        {
            pos = pos + 1;
        }
        let ghost old_perm = perm@;
        proof {
            lemma_insert_permutation(old_perm, pos as int, k);
        }
        perm.insert(pos, k);
        assert forall|i: int, j: int| 0 <= i < j < perm@.len() implies i64_before_desc(
            keys@,
            #[trigger] perm@[i] as int,
            #[trigger] perm@[j] as int,
        ) by {
            let p = pos as int;
            if i < p && j < p {
                assert(perm@[i] == old_perm[i] && perm@[j] == old_perm[j]);
            } else if i < p && j == p {
                assert(perm@[i] == old_perm[i]);
            } else if i < p {
                assert(perm@[i] == old_perm[i] && perm@[j] == old_perm[j - 1]);
            } else if i == p {
                assert(perm@[j] == old_perm[j - 1]);
                if j - 1 > p {
                    assert(i64_before_desc(keys@, old_perm[p] as int, old_perm[j - 1] as int));
                }
            } else {
                assert(perm@[i] == old_perm[i - 1] && perm@[j] == old_perm[j - 1]);
            }
        }
    }
    perm
}

} // verus!
