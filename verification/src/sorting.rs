use vstd::prelude::*;

verus! {

/// `slice::sort_by_key` with the key `keys[i]` of each item `i`: the std
/// documentation promises a stable sort, so the items come out as a permutation
/// of those that went in, in non-decreasing order of key, and two items with
/// equal keys come out in the order in which they went in.
#[verifier::external_body]
pub(crate) fn sort_by_keys(items: &mut Vec<usize>, keys: &Vec<usize>)
    requires
        forall|i: int| 0 <= i < old(items)@.len() ==> #[trigger] old(items)@[i] < keys@.len(),
    ensures
        final(items)@.to_multiset() == old(items)@.to_multiset(),
        final(items)@.len() == old(items)@.len(),
        forall|a: int, b: int|
            0 <= a < b < final(items)@.len() ==> keys@[#[trigger] final(items)@[a] as int] <= keys@[#[trigger] final(items)@[b] as int],
        forall|a: int, b: int|
            0 <= a < b < final(items)@.len() && keys@[#[trigger] final(items)@[a] as int] == keys@[#[trigger] final(items)@[b] as int]
                ==> exists|i: int, j: int|
                0 <= i < j < old(items)@.len() && #[trigger] old(items)@[i] == final(items)@[a] && #[trigger] old(items)@[j]
                    == final(items)@[b],
{
    items.sort_by_key(|&i| keys[i])
}

/// The items of `v` in reverse order.
pub fn reversed(v: &Vec<usize>) -> (res: Vec<usize>)
    ensures
        res@ == v@.reverse(),
{
    let mut res: Vec<usize> = Vec::new();
    let mut i: usize = v.len();
    while i > 0
        invariant
            i <= v@.len(),
            res@ == v@.subrange(i as int, v@.len() as int).reverse(),
        decreases i,
    {
        i = i - 1;
        res.push(v[i]);
        proof {
            assert(res@ =~= v@.subrange(i as int, v@.len() as int).reverse());
        }
    }
    proof {
        assert(v@.subrange(0, v@.len() as int) =~= v@);
    }
    res
}

} // verus!
