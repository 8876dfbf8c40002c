use vstd::prelude::*;
use vstd::arithmetic::div_mod::{lemma_fundamental_div_mod, lemma_mod_bound};

verus! {

/// Results of walks: at least one, all of the same positive length `length`, and
/// their positions `k * length + i` numbered without overflow.
pub open spec fn walks_ok(results: Seq<Vec<i8>>, length: nat) -> bool {
    &&& results.len() >= 1
    &&& length >= 1
    &&& forall|k: int| 0 <= k < results.len() ==> (#[trigger] results[k])@.len() == length
    &&& results.len() * length < usize::MAX
}

/// The label seen at position `p` of the walks.
pub open spec fn label_at(results: Seq<Vec<i8>>, length: nat, p: int) -> i8 {
    results[p / (length as int)]@[p % (length as int)]
}

pub proof fn lemma_position(k: int, i: int, rows: int, length: int)
    requires
        0 <= k < rows,
        0 <= i < length,
    ensures
        0 <= k * length + i < rows * length,
        (k * length + i) / length == k,
        (k * length + i) % length == i,
        k * length + length <= rows * length,
{
    assert(0 <= k * length + i < rows * length && k * length + length <= rows * length) by (nonlinear_arith)
        requires
            0 <= k < rows,
            0 <= i < length,
    ;
    let p = k * length + i;
    lemma_fundamental_div_mod(p, length);
    lemma_mod_bound(p, length);
    assert((k * length + i) / length == k && (k * length + i) % length == i) by (nonlinear_arith)
        requires
            p == k * length + i,
            p == length * (p / length) + p % length,
            0 <= p % length < length,
            0 <= i < length,
    ;
}

pub proof fn lemma_split_position(p: int, rows: int, length: int)
    requires
        0 <= p < rows * length,
        0 < length,
    ensures
        0 <= p / length < rows,
        0 <= p % length < length,
        p == (p / length) * length + p % length,
{
    lemma_fundamental_div_mod(p, length);
    lemma_mod_bound(p, length);
    assert(0 <= p / length < rows && p == (p / length) * length + p % length) by (nonlinear_arith)
        requires
            0 <= p < rows * length,
            0 < length,
            p == length * (p / length) + p % length,
            0 <= p % length < length,
    ;
}

/// The label at position `p`, which must lie within the walks.
pub fn label_of(results: &[Vec<i8>], length: usize, p: usize) -> (res: i8)
    requires
        walks_ok(results@, length as nat),
        p < results@.len() * length,
    ensures
        res == label_at(results@, length as nat, p as int),
{
    proof {
        lemma_split_position(p as int, results@.len() as int, length as int);
    }
    results[p / length][p % length]
}

/// Whether the label at position `p` is `label`.
pub fn label_is(results: &[Vec<i8>], length: usize, p: usize, label: usize) -> (res: bool)
    requires
        walks_ok(results@, length as nat),
        p < results@.len() * length,
    ensures
        res == (label_at(results@, length as nat, p as int) as int == label as int),
{
    let v = label_of(results, length, p);
    v >= 0 && v as usize == label
}

} // verus!
