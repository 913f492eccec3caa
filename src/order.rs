//! Stable ordering of positions by a `u32` key.
use vstd::prelude::*;

verus! {

/// Position `a` comes before position `b`: by key, then by position.
pub open spec fn key_before(keys: Seq<u32>, a: int, b: int) -> bool {
    keys[a] < keys[b] || (keys[a] == keys[b] && a < b)
}

/// `order` lists the positions of `keys` sorted by `key_before`: a stable
/// sort by key.
pub open spec fn is_key_order(keys: Seq<u32>, order: Seq<usize>) -> bool {
    &&& order.len() == keys.len()
    &&& forall|i: int| 0 <= i < order.len() ==> #[trigger] order[i] < keys.len()
    &&& forall|i: int, j: int|
        0 <= i < j < order.len() ==> key_before(keys, #[trigger] order[i] as int, #[trigger] order[j] as int)
}

/// The positions of `keys` in stable key order.
pub fn key_order(keys: &Vec<u32>) -> (order: Vec<usize>)
    ensures
        is_key_order(keys@, order@),
{
    let mut order: Vec<usize> = Vec::new();
    let mut k: usize = 0;
    while k < keys.len()
        invariant
            k <= keys@.len(),
            order@.len() == k,
            forall|i: int| 0 <= i < order@.len() ==> #[trigger] order@[i] < k,
            forall|i: int, j: int|
                0 <= i < j < order@.len() ==> key_before(keys@, #[trigger] order@[i] as int, #[trigger] order@[j] as int),
        decreases keys@.len() - k,
    {
        let key = keys[k];
        let mut p: usize = 0;
        while p < order.len() && keys[order[p]] <= key
            invariant
                k < keys@.len(),
                key == keys@[k as int],
                p <= order@.len(),
                forall|i: int| 0 <= i < order@.len() ==> #[trigger] order@[i] < k,
                forall|i: int| 0 <= i < p ==> keys@[#[trigger] order@[i] as int] <= key,
            decreases order@.len() - p,
        {
            p = p + 1;
        }
        let ghost before_insert = order@;
        assert forall|i: int| p <= i < before_insert.len() implies keys@[#[trigger] before_insert[i] as int] > key by {
            if i > p {
                assert(key_before(keys@, before_insert[p as int] as int, before_insert[i] as int));
            }
        }
        order.insert(p, k);
        assert forall|i: int, j: int|
            0 <= i < j < order@.len() implies key_before(keys@, #[trigger] order@[i] as int, #[trigger] order@[j] as int) by {
            if j < p {
                assert(order@[i] == before_insert[i] && order@[j] == before_insert[j]);
            } else if j == p {
                assert(order@[i] == before_insert[i]);
            } else if i < p {
                assert(order@[i] == before_insert[i] && order@[j] == before_insert[j - 1]);
            } else if i == p {
                assert(order@[j] == before_insert[j - 1]);
            } else {
                assert(order@[i] == before_insert[i - 1] && order@[j] == before_insert[j - 1]);
            }
        }
        k = k + 1;
    }
    order
}

} // verus!
