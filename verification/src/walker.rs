use vstd::prelude::*;
use vstd::arithmetic::div_mod::lemma_fundamental_div_mod_converse;
use vstd::string::*;

use crate::label_observation::{door_index, entry_code, has_path, in_found, rooms_with_label, sorted_codes, starts_path, LabelObservation};
use crate::union_find::{class_door, count_roots, next_of, union_step, walk_at, Action, UnionFind, NONE};
use crate::rooms::{classes_map, map_from_classes, map_result_is};
use crate::sorting::{reversed, sort_by_keys};
use crate::walk_data::{label_at, label_is, label_of, lemma_position, walks_ok};

verus! {

/// `path` visits known positions whose labels are those that `actions` expects
/// after the first, and ends on a known position labelled `label`.
pub open spec fn path_fits(results: Seq<Vec<i8>>, length: nat, path: Seq<usize>, actions: Seq<Action>, label: usize) -> bool {
    &&& path.len() >= 1
    &&& forall|j: int|
        0 <= j < path.len() - 1 ==> #[trigger] path[j] != NONE && label_at(results, length, path[j] as int) as int
            == actions[j + 1].label as int
    &&& path.last() != NONE
    &&& label_at(results, length, path.last() as int) as int == label as int
}

/// Whether `path` (a walk along `actions` in the union-find) fits the walks.
fn check_path(results: &[Vec<i8>], length: usize, path: &Vec<usize>, actions: &Vec<Action>, label: usize) -> (res: bool)
    requires
        walks_ok(results@, length as nat),
        path@.len() >= 1,
        path@.len() <= actions@.len(),
        forall|j: int| 0 <= j < path@.len() ==> #[trigger] path@[j] == NONE || path@[j] < results@.len() * length,
    ensures
        res == path_fits(results@, length as nat, path@, actions@, label),
{
    let n = path.len();
    let mut j: usize = 0;
    while j < n - 1
        invariant
            walks_ok(results@, length as nat),
            n == path@.len(),
            n >= 1,
            n <= actions@.len(),
            j <= n - 1,
            forall|q: int| 0 <= q < path@.len() ==> #[trigger] path@[q] == NONE || path@[q] < results@.len() * length,
            forall|q: int|
                0 <= q < j ==> #[trigger] path@[q] != NONE && label_at(results@, length as nat, path@[q] as int) as int
                    == actions@[q + 1].label as int,
        decreases n - 1 - j,
    {
        if path[j] == NONE {
            return false;
        }
        if !label_is(results, length, path[j], actions[j + 1].label) {
            return false;
        }
        j = j + 1;
    }
    let last = path[n - 1];
    if last == NONE || !label_is(results, length, last, label) {
        return false;
    }
    true
}

/// Positions `p1 < p2`, in different classes of the state given by `roots` and
/// `edges`, from both of which the walk along `actions` fits, ending on `label`.
pub open spec fn fitting_pair(
    roots: Seq<usize>,
    edges: Seq<Seq<usize>>,
    results: Seq<Vec<i8>>,
    length: nat,
    actions: Seq<Action>,
    label: usize,
    p1: usize,
    p2: usize,
) -> bool {
    &&& p1 < p2 < results.len() * length
    &&& fits_from(roots, edges, results, length, p1, actions, label)
    &&& fits_from(roots, edges, results, length, p2, actions, label)
    &&& roots[p1 as int] != roots[p2 as int]
}

/// Some path that tells rooms apart (see `LabelObservation::unique_entry`) fits
/// from two positions in different classes of `uf`.
pub open spec fn has_fitting_pair(obs: LabelObservation, uf: UnionFind, results: Seq<Vec<i8>>, length: nat) -> bool {
    exists|actions: Seq<Action>, label: usize, p1: usize, p2: usize|
        obs.unique_entry(actions, label) && #[trigger] fitting_pair(
            uf.roots(),
            uf.edges(),
            results,
            length,
            actions,
            label,
            p1,
            p2,
        )
}

/// No pair whose first position lies below `bound` is a `fitting_pair` for
/// `actions` and `label`.
pub open spec fn no_fitting_pair_below(
    roots: Seq<usize>,
    edges: Seq<Seq<usize>>,
    results: Seq<Vec<i8>>,
    length: nat,
    actions: Seq<Action>,
    label: usize,
    bound: int,
) -> bool {
    forall|q1: usize, q2: usize|
        q1 < bound ==> !#[trigger] fitting_pair(roots, edges, results, length, actions, label, q1, q2)
}

/// Merges the positions whose walks along some path that tells rooms apart
/// (see `LabelObservation::get_unique_paths`) end alike: for each such path, in
/// order, each position from which it fits (see `path_fits_from`) with each later
/// position, not yet in its class, from which it fits too. Returns how many merges
/// took place, which is by how much the number of classes fell. Some merge takes
/// place exactly when, in the classes given, some such path fits from two
/// positions in different classes.
pub fn merge_group_by_unique_paths(
    results: &[Vec<i8>],
    uf: &mut UnionFind,
    label_observation: &LabelObservation,
) -> (merged: usize)
    requires
        walks_ok(results@, results@[0]@.len()),
        old(uf).wf(),
        old(uf).n() == results@.len() * results@[0]@.len(),
        label_observation.wf(),
    ensures
        unique_merge_step(*label_observation, *old(uf), *final(uf), results@, results@[0]@.len(), merged as int),
        final(uf).wf(),
        final(uf).refines(old(uf)),
        merged + final(uf).num_classes() == old(uf).num_classes(),
        merged == 0 ==> final(uf).same_classes(old(uf)),
        (merged > 0) == has_fitting_pair(*label_observation, *old(uf), results@, results@[0]@.len()),
        exists|sts: Seq<UnionFind>, pres: Seq<UnionFind>, merges: Seq<int>|
            #[trigger] scan_trace(
                unique_list(*label_observation),
                results@,
                results@[0]@.len(),
                (results@.len() * results@[0]@.len()) as int,
                sts,
                pres,
                merges,
                scan_index((results@.len() * results@[0]@.len()) as int, unique_list(*label_observation).len() as int, 0, 0),
            ) && sts[0] == *old(uf) && sts.last() == *final(uf),
{
    let ghost uf0 = *uf;
    proof {
        uf.lemma_refines_refl(&uf0);
    }
    let mut merged_count: usize = 0;
    let unique_paths = label_observation.get_unique_paths();
    let length = results[0].len();
    let rows = results.len();
    let ghost r0 = uf0.roots();
    let ghost e0 = uf0.edges();
    let ghost nn: int = (rows * length) as int;
    let ghost paths = unique_paths@;
    let ghost mut sts: Seq<UnionFind> = seq![*uf];
    let ghost mut pres: Seq<UnionFind> = Seq::empty();
    let ghost mut merges: Seq<int> = Seq::empty();
    let mut u: usize = 0;
    while u < unique_paths.len()
        invariant
            u <= unique_paths@.len(),
            nn == rows * length,
            paths == unique_paths@,
            sts[0] == uf0,
            sts.last() == *uf,
            scan_trace(paths, results@, length as nat, nn, sts, pres, merges, scan_index(nn, u as int, 0, 0)),
            walks_ok(results@, length as nat),
            rows == results@.len(),
            length == results@[0]@.len(),
            uf0.wf(),
            uf.wf(),
            uf.refines(&uf0),
            uf.n() == rows * length,
            merged_count + uf.num_classes() == uf0.num_classes(),
            r0 == uf0.roots(),
            e0 == uf0.edges(),
            forall|k: int| 0 <= k < unique_paths@.len() ==> label_observation.unique_entry((#[trigger] unique_paths@[k]).0@, unique_paths@[k].1),
            merged_count == 0 ==> uf.same_classes(&uf0),
            merged_count == 0 ==> forall|k: int|
                0 <= k < u ==> no_fitting_pair_below(
                    r0,
                    e0,
                    results@,
                    length as nat,
                    (#[trigger] unique_paths@[k]).0@,
                    unique_paths@[k].1,
                    (rows * length) as int,
                ),
            merged_count > 0 ==> has_fitting_pair(*label_observation, uf0, results@, length as nat),
        decreases unique_paths@.len() - u,
    {
        let actions = &unique_paths[u].0;
        let label = unique_paths[u].1;
        proof {
            assert(label_observation.unique_entry(actions@, label));
        }
        let mut k1: usize = 0;
        while k1 < rows
            invariant
                k1 <= rows,
                nn == rows * length,
                paths == unique_paths@,
                sts[0] == uf0,
                sts.last() == *uf,
                scan_trace(paths, results@, length as nat, nn, sts, pres, merges, scan_index(nn, u as int, k1 * length, 0)),
                actions@ == paths[u as int].0@,
                label == paths[u as int].1,
                walks_ok(results@, length as nat),
                rows == results@.len(),
                length == results@[0]@.len(),
                uf0.wf(),
                uf.wf(),
                uf.refines(&uf0),
                uf.n() == rows * length,
                merged_count + uf.num_classes() == uf0.num_classes(),
                1 <= actions@.len() <= 3,
                forall|i: int| 0 <= i < actions@.len() ==> #[trigger] actions@[i].door < 6,
                r0 == uf0.roots(),
                e0 == uf0.edges(),
                label_observation.unique_entry(actions@, label),
                merged_count == 0 ==> uf.same_classes(&uf0),
                merged_count == 0 ==> no_fitting_pair_below(r0, e0, results@, length as nat, actions@, label, k1 * length),
                merged_count == 0 ==> forall|k: int|
                0 <= k < u ==> no_fitting_pair_below(r0, e0, results@, length as nat, (#[trigger] unique_paths@[k]).0@, unique_paths@[k].1, (rows * length) as int),
                u < unique_paths@.len(),
                actions@ == unique_paths@[u as int].0@,
                label == unique_paths@[u as int].1,
                merged_count > 0 ==> has_fitting_pair(*label_observation, uf0, results@, length as nat),
            decreases rows - k1,
        {
            let mut i1: usize = 0;
            while i1 < length
                invariant
                    walks_ok(results@, length as nat),
                    rows == results@.len(),
                    length == results@[0]@.len(),
                    k1 < rows,
                    uf0.wf(),
                    uf.wf(),
                    uf.refines(&uf0),
                    uf.n() == rows * length,
                    merged_count + uf.num_classes() == uf0.num_classes(),
                    1 <= actions@.len() <= 3,
                    forall|i: int| 0 <= i < actions@.len() ==> #[trigger] actions@[i].door < 6,
                    r0 == uf0.roots(),
                    e0 == uf0.edges(),
                    label_observation.unique_entry(actions@, label),
                    merged_count == 0 ==> uf.same_classes(&uf0),
                    merged_count == 0 ==> no_fitting_pair_below(r0, e0, results@, length as nat, actions@, label, k1 * length + i1),
                    i1 <= length,
                    nn == rows * length,
                    paths == unique_paths@,
                    sts[0] == uf0,
                    sts.last() == *uf,
                    scan_trace(paths, results@, length as nat, nn, sts, pres, merges, scan_index(nn, u as int, k1 * length + i1, 0)),
                    actions@ == paths[u as int].0@,
                    label == paths[u as int].1,
                    merged_count == 0 ==> forall|k: int|
                0 <= k < u ==> no_fitting_pair_below(r0, e0, results@, length as nat, (#[trigger] unique_paths@[k]).0@, unique_paths@[k].1, (rows * length) as int),
                    u < unique_paths@.len(),
                    merged_count > 0 ==> has_fitting_pair(*label_observation, uf0, results@, length as nat),
                decreases length - i1,
            {
                proof {
                    lemma_position(k1 as int, i1 as int, rows as int, length as int);
                }
                let p1 = k1 * length + i1;
                let ghost before = *uf;
                let ghost row_st = *uf;
                let fits1 = path_fits_from(results, uf, p1, actions, label);
                proof {
                    UnionFind::lemma_refines_same(uf, &before, &uf0);
                    lemma_scan_decode(nn, u as int, p1 as int, 0);
                    assert(sts[scan_index(nn, u as int, p1 as int, 0)] == row_st);
                }
                if fits1 {
                    proof {
                        let r = lemma_scan_pad(paths, results@, length as nat, nn, sts, pres, merges, u as int, p1 as int, 0, p1 + 1, *uf);
                        sts = r.0;
                        pres = r.1;
                        merges = r.2;
                    }
                    let mut k2: usize = k1;
                    while k2 < rows
                        invariant
                            walks_ok(results@, length as nat),
                            rows == results@.len(),
                            length == results@[0]@.len(),
                            k1 < rows,
                            i1 < length,
                            k1 <= k2,
                            k2 <= rows,
                            nn == rows * length,
                            paths == unique_paths@,
                            sts[0] == uf0,
                            sts.last() == *uf,
                            scan_trace(paths, results@, length as nat, nn, sts, pres, merges, scan_index(nn, u as int, p1 as int, if k2 == k1 { p1 + 1 } else { k2 * length })),
                            sts[scan_index(nn, u as int, p1 as int, 0)] == row_st,
                            fits1 == fits_from(row_st.roots(), row_st.edges(), results@, length as nat, p1, paths[u as int].0@, paths[u as int].1),
                            actions@ == paths[u as int].0@,
                            label == paths[u as int].1,
                            fits1,
                            u < paths.len(),
                            p1 == k1 * length + i1,
                            p1 < rows * length,
                            uf0.wf(),
                            uf.wf(),
                            uf.refines(&uf0),
                            uf.n() == rows * length,
                            merged_count + uf.num_classes() == uf0.num_classes(),
                            1 <= actions@.len() <= 3,
                            forall|i: int| 0 <= i < actions@.len() ==> #[trigger] actions@[i].door < 6,
                            r0 == uf0.roots(),
                            e0 == uf0.edges(),
                            label_observation.unique_entry(actions@, label),
                            merged_count == 0 ==> uf.same_classes(&uf0),
                            merged_count == 0 ==> fits_from(r0, e0, results@, length as nat, p1, actions@, label),
                            merged_count == 0 ==> forall|k: int|
                0 <= k < u ==> no_fitting_pair_below(r0, e0, results@, length as nat, (#[trigger] unique_paths@[k]).0@, unique_paths@[k].1, (rows * length) as int),
                            u < unique_paths@.len(),
                            merged_count == 0 ==> no_fitting_pair_below(r0, e0, results@, length as nat, actions@, label, k1 * length + i1),
                            merged_count == 0 ==> forall|q2: usize|
                                q2 < k2 * length ==> !#[trigger] fitting_pair(r0, e0, results@, length as nat, actions@, label, p1, q2),
                            merged_count > 0 ==> has_fitting_pair(*label_observation, uf0, results@, length as nat),
                        decreases rows - k2,
                    {
                        let mut i2: usize = if k1 == k2 { i1 + 1 } else { 0 };
                        proof {
                            if k1 < k2 {
                                assert((k1 + 1) * length <= k2 * length) by (nonlinear_arith)
                                    requires
                                        k1 + 1 <= k2,
                                ;
                                assert((k1 + 1) * length == k1 * length + length) by (nonlinear_arith);
                            }
                        }
                        while i2 < length
                            invariant
                                walks_ok(results@, length as nat),
                                rows == results@.len(),
                                length == results@[0]@.len(),
                                k2 < rows,
                                p1 < k2 * length + i2,
                                i2 <= length,
                                nn == rows * length,
                                paths == unique_paths@,
                                sts[0] == uf0,
                                sts.last() == *uf,
                                scan_trace(paths, results@, length as nat, nn, sts, pres, merges, scan_index(nn, u as int, p1 as int, k2 * length + i2)),
                                sts[scan_index(nn, u as int, p1 as int, 0)] == row_st,
                                fits1 == fits_from(row_st.roots(), row_st.edges(), results@, length as nat, p1, paths[u as int].0@, paths[u as int].1),
                                actions@ == paths[u as int].0@,
                                label == paths[u as int].1,
                                fits1,
                                u < paths.len(),
                                p1 < rows * length,
                                uf0.wf(),
                                uf.wf(),
                                uf.refines(&uf0),
                                uf.n() == rows * length,
                                merged_count + uf.num_classes() == uf0.num_classes(),
                                1 <= actions@.len() <= 3,
                                forall|i: int| 0 <= i < actions@.len() ==> #[trigger] actions@[i].door < 6,
                                r0 == uf0.roots(),
                                e0 == uf0.edges(),
                                label_observation.unique_entry(actions@, label),
                                merged_count == 0 ==> uf.same_classes(&uf0),
                                merged_count == 0 ==> fits_from(r0, e0, results@, length as nat, p1, actions@, label),
                                merged_count == 0 ==> forall|k: int|
                0 <= k < u ==> no_fitting_pair_below(r0, e0, results@, length as nat, (#[trigger] unique_paths@[k]).0@, unique_paths@[k].1, (rows * length) as int),
                                u < unique_paths@.len(),
                                merged_count == 0 ==> no_fitting_pair_below(r0, e0, results@, length as nat, actions@, label, k1 * length + i1),
                                merged_count == 0 ==> forall|q2: usize|
                                    q2 < k2 * length + i2 ==> !#[trigger] fitting_pair(r0, e0, results@, length as nat, actions@, label, p1, q2),
                                merged_count > 0 ==> has_fitting_pair(*label_observation, uf0, results@, length as nat),
                            decreases length - i2,
                        {
                            proof {
                                lemma_position(k2 as int, i2 as int, rows as int, length as int);
                            }
                            let p2 = k2 * length + i2;
                            let ghost st_i = *uf;
                            let ghost mut pre_i = *uf;
                            let ghost mut m_i: int = 0;
                            if label_is(results, length, p2, actions[0].label) {
                                let ghost b1 = *uf;
                                let f1 = uf.find(p1);
                                let f2 = uf.find(p2);
                                proof {
                                    UnionFind::lemma_refines_same(uf, &b1, &uf0);
                                }
                                if f1 != f2 {
                                    let ghost b2 = *uf;
                                    let fits2 = path_fits_from(results, uf, p2, actions, label);
                                    proof {
                                        UnionFind::lemma_refines_same(uf, &b2, &uf0);
                                    }
                                    if fits2 {
                                        let ghost b3 = *uf;
                                        let ghost was_zero = merged_count == 0;
                                        let m = uf.union(p1, p2);
                                        proof {
                                            pre_i = b3;
                                            m_i = m as int;
                                        }
                                        proof {
                                            UnionFind::lemma_refines_trans(uf, &b3, &uf0);
                                            uf0.lemma_count_le_n();
                                            if was_zero {
                                                assert(fitting_pair(r0, e0, results@, length as nat, actions@, label, p1, p2));
                                                assert(m > 0);
                                            }
                                        }
                                        merged_count = merged_count + m;
                                    }
                                }
                            }
                            proof {
                                lemma_scan_decode(nn, u as int, p1 as int, p2 as int);
                                let k = scan_index(nn, u as int, p1 as int, p2 as int);
                                assert(scan_step(paths, results@, length as nat, row_st, st_i, pre_i, *uf, u as int, p1 as int, p2 as int, m_i));
                                lemma_scan_push(paths, results@, length as nat, nn, sts, pres, merges, k, pre_i, *uf, m_i);
                                sts = sts.push(*uf);
                                pres = pres.push(pre_i);
                                merges = merges.push(m_i);
                            }
                            i2 = i2 + 1;
                        }
                        proof {
                            assert(k2 * length + length == (k2 + 1) * length) by (nonlinear_arith);
                        }
                        k2 = k2 + 1;
                    }
                    proof {
                        if merged_count == 0 {
                            assert forall|q1: usize, q2: usize| q1 < k1 * length + i1 + 1 implies !#[trigger] fitting_pair(
                                r0,
                                e0,
                                results@,
                                length as nat,
                                actions@,
                                label,
                                q1,
                                q2,
                            ) by {
                                if q1 == p1 && fitting_pair(r0, e0, results@, length as nat, actions@, label, q1, q2) {
                                    assert(q2 < rows * length);
                                }
                            }
                        }
                    }
                } else {
                    proof {
                        let r = lemma_scan_pad(paths, results@, length as nat, nn, sts, pres, merges, u as int, p1 as int, 0, nn, *uf);
                        sts = r.0;
                        pres = r.1;
                        merges = r.2;
                    }
                    proof {
                        if merged_count == 0 {
                            assert forall|q1: usize, q2: usize| q1 < k1 * length + i1 + 1 implies !#[trigger] fitting_pair(
                                r0,
                                e0,
                                results@,
                                length as nat,
                                actions@,
                                label,
                                q1,
                                q2,
                            ) by {
                                if q1 == p1 {
                                    assert(!fits_from(r0, e0, results@, length as nat, p1, actions@, label));
                                }
                            }
                        }
                    }
                }
                proof {
                    lemma_scan_decode(nn, u as int, p1 as int, 0);
                    assert(scan_index(nn, u as int, p1 as int, nn) == scan_index(nn, u as int, k1 * length + i1 + 1, 0));
                }
                i1 = i1 + 1;
            }
            proof {
                assert(k1 * length + length == (k1 + 1) * length) by (nonlinear_arith);
            }
            k1 = k1 + 1;
        }
        proof {
            if merged_count == 0 {
                assert forall|k: int| 0 <= k < u + 1 implies no_fitting_pair_below(
                    r0,
                    e0,
                    results@,
                    length as nat,
                    (#[trigger] unique_paths@[k]).0@,
                    unique_paths@[k].1,
                    (rows * length) as int,
                ) by {
                    if k == u {
                        assert(unique_paths@[k].0@ == actions@);
                    }
                }
            }
        }
        proof {
            assert(scan_index(nn, u as int, nn, 0) == scan_index(nn, u + 1, 0, 0)) by (nonlinear_arith);
            assert(scan_index(nn, u as int, k1 * length, 0) == scan_index(nn, u as int, nn, 0));
        }
        u = u + 1;
    }
    proof {
        lemma_unique_list_views(*label_observation, paths);
        assert(scan_index(nn, paths.len() as int, 0, 0) >= 0) by (nonlinear_arith)
            requires
                nn >= 0,
        ;
        lemma_scan_paths_views(
            paths,
            unique_list(*label_observation),
            results@,
            length as nat,
            nn,
            sts,
            pres,
            merges,
            scan_index(nn, paths.len() as int, 0, 0),
        );
        assert(unique_list(*label_observation).len() == paths.len()) by {
            assert(entry_views(unique_list(*label_observation)).len() == entry_views(paths).len());
        }
        if merged_count == 0 && has_fitting_pair(*label_observation, uf0, results@, length as nat) {
            let (a, l, q1, q2) = choose|a: Seq<Action>, l: usize, q1: usize, q2: usize|
                label_observation.unique_entry(a, l) && #[trigger] fitting_pair(r0, e0, results@, length as nat, a, l, q1, q2);
            assert(label_observation.unique_entry(a, l));
            assert(crate::label_observation::in_found(unique_paths@, a, l));
            let k = choose|k: int| 0 <= k < unique_paths@.len() && #[trigger] unique_paths@[k].0@ == a && unique_paths@[k].1 == l;
            assert(no_fitting_pair_below(r0, e0, results@, length as nat, unique_paths@[k].0@, unique_paths@[k].1, (rows * length) as int));
            assert(!fitting_pair(r0, e0, results@, length as nat, a, l, q1, q2));
        }
    }
    merged_count
}

/// Where no path tells rooms apart, no pair of positions fits one: merging by
/// unique paths then merges nothing (see `merge_group_by_unique_paths`), and so
/// leaves the classes as they were.
pub proof fn lemma_no_unique_paths_no_merge(obs: LabelObservation, u: UnionFind, results: Seq<Vec<i8>>, length: nat)
    requires
        forall|actions: Seq<Action>, label: usize| !#[trigger] obs.unique_entry(actions, label),
    ensures
        !has_fitting_pair(obs, u, results, length),
{
}

/// What `merge_group_by_unique_paths` makes of `u` (into `u2`, merging `merged`).
pub open spec fn unique_merge_step(obs: LabelObservation, u: UnionFind, u2: UnionFind, results: Seq<Vec<i8>>, length: nat, merged: int) -> bool {
    &&& u2.wf()
    &&& u2.refines(&u)
    &&& merged + u2.num_classes() == u.num_classes()
    &&& merged == 0 ==> u2.same_classes(&u)
    &&& (merged > 0) == has_fitting_pair(obs, u, results, length)
    &&& exists|sts: Seq<UnionFind>, pres: Seq<UnionFind>, merges: Seq<int>|
        #[trigger] scan_trace(
            unique_list(obs),
            results,
            length,
            (results.len() * length) as int,
            sts,
            pres,
            merges,
            scan_index((results.len() * length) as int, unique_list(obs).len() as int, 0, 0),
        ) && sts[0] == u && sts.last() == u2
}

/// What `merge_group_by_different_group` makes of `u` (into `u2`, merging `merged`).
pub open spec fn group_merge_step(obs: LabelObservation, u: UnionFind, u2: UnionFind, marks: Seq<Vec<bool>>, results: Seq<Vec<i8>>, length: nat, merged: int) -> bool {
    &&& u2.wf()
    &&& u2.refines(&u)
    &&& merged + u2.num_classes() == u.num_classes()
    &&& merged == 0 ==> u2.same_classes(&u)
    &&& (merged > 0) == different_group_merges(
                obs,
                u,
                results,
                length,
                marks,
            )
    &&& !some_group_merge(
                u.roots(),
                u.edges(),
                results,
                length,
                unique_list(obs),
                marks,
            ) ==> forall|l: int, q: int|
                #[trigger] leader_join_at(size_order(u), results, length, obs.room_counts(), marks, l, q) ==> u2.roots()[leader_pair(size_order(u), results, length, obs.room_counts(), marks, l, q).0 as int]
                    == u2.roots()[leader_pair(size_order(u), results, length, obs.room_counts(), marks, l, q).1 as int]
    &&& exists|sts1: Seq<UnionFind>, pres1: Seq<UnionFind>, ms1: Seq<int>, sts2: Seq<UnionFind>, pres2: Seq<UnionFind>, ms2: Seq<int>|
        #![trigger grid_trace(group_decide(u.roots(), u.edges(), results, length, unique_list(obs), marks), (results.len() * length) as int, sts1, pres1, ms1, 24 * (results.len() * length) as int), grid_trace(leader_decide(leaders_upto(size_order(sts2[0]), results, length, obs.room_counts(), marks, size_order(sts2[0]).len() as int), obs.room_counts(), marks), (results.len() * length) as int, sts2, pres2, ms2, 4 * (results.len() * length) as int)]
        {
            &&& grid_trace(group_decide(u.roots(), u.edges(), results, length, unique_list(obs), marks), (results.len() * length) as int, sts1, pres1, ms1, 24 * (results.len() * length) as int)
            &&& sts1[0] == u
            &&& sts2[0].wf()
            &&& sts2[0].same_classes(&sts1.last())
            &&& sts2[0].num_classes() == sts1.last().num_classes()
            &&& grid_trace(leader_decide(leaders_upto(size_order(sts2[0]), results, length, obs.room_counts(), marks, size_order(sts2[0]).len() as int), obs.room_counts(), marks), (results.len() * length) as int, sts2, pres2, ms2, 4 * (results.len() * length) as int)
            &&& u2.same_classes(&sts2.last())
        }
}

/// What `update_label_observation` makes of `obs` and `u` (into `obs2`, `u2`).
pub open spec fn observe_step(obs: LabelObservation, obs2: LabelObservation, u: UnionFind, u2: UnionFind, results: Seq<Vec<i8>>, length: nat) -> bool {
    &&& u2.wf()
    &&& u2.same_classes(&u)
    &&& u2.num_classes() == u.num_classes()
    &&& obs2.wf()
    &&& obs2.room_counts() == obs.room_counts()
    &&& obs_kept(obs, obs2)
    &&& obs_from_walks(
                obs,
                obs2,
                u.roots(),
                u.edges(),
                results,
                length,
            )
    &&& forall|x: usize, d: Seq<usize>|
                x < u.n() && u.roots()[x as int] == x && door_seq(d) ==> #[trigger] walk_recorded(
                    obs2,
                    u.roots(),
                    u.edges(),
                    results,
                    length,
                    x,
                    d,
                )
}

/// What `check_different_group` makes of `u` and `m` (into `u2`, `m2`).
pub open spec fn marks_step(u: UnionFind, u2: UnionFind, m: Seq<Vec<bool>>, m2: Seq<Vec<bool>>, results: Seq<Vec<i8>>, length: nat) -> bool {
    &&& u2.wf()
    &&& u2.same_classes(&u)
    &&& u2.num_classes() == u.num_classes()
    &&& square(m2, u.n())
    &&& forall|i: int, j: int|
                0 <= i < u.n() && 0 <= j < u.n() && #[trigger] m[i]@[j]
                    ==> m2[i]@[j]
    &&& forall|i: usize, j: usize|
                i < j < u.n() && u.roots()[i as int] == i && u.roots()[j as int] == j
                    ==> #[trigger] m2[i as int]@[j as int] || !distinct_within(
                    u.roots(),
                    u.edges(),
                    results,
                    length,
                    m2,
                    i,
                    j,
                    3,
                )
    &&& marks_sound(
                u.roots(),
                u.edges(),
                results,
                length,
                m,
                m2,
                u.n(),
            )
    &&& forall|c: Seq<Vec<bool>>|
                #[trigger] marks_closed(u.roots(), u.edges(), results, length, m, c, u.n())
                    ==> marks_within(m2, c, u.n())
    &&& symmetric_marks(m, u.n()) ==> symmetric_marks(m2, u.n())
                && marks_closed(
                u.roots(),
                u.edges(),
                results,
                length,
                m,
                m2,
                u.n(),
            )
}

/// What `analyze_results` gives for these walks (`obs`).
pub open spec fn analysis_step(obs: LabelObservation, node_count: usize, plans: Seq<String>, results: Seq<Vec<i8>>) -> bool {
    &&& obs.wf()
    &&& forall|l: int| 0 <= l < 4 ==> #[trigger] obs.room_counts()[l] == rooms_with_label(node_count as nat, l as nat)
    &&& forall|k: int, j: int|
                0 <= k < plans.len() && k < results.len() && 0 <= j < plans[k]@.len() ==> #[trigger] recorded(
                    obs,
                    plans,
                    results,
                    k,
                    j,
                )
    &&& forall|l: int, p: Seq<(usize, usize)>|
                0 <= l < 4 && p.len() >= 1 && #[trigger] has_path(obs.node(l), p) ==> exists|k: int, q: int|
                    0 <= k < plans.len() && k < results.len() && 0 <= q < plans[k]@.len() && #[trigger] seen_after(
                        plans,
                        results,
                        k,
                        q,
                        l,
                        p,
                    )
}

/// The place of the pair `(p1, p2)` for the `u`-th path in the scan of
/// `merge_group_by_unique_paths` over `n` positions.
pub open spec fn scan_index(n: int, u: int, p1: int, p2: int) -> int {
    (u * n + p1) * n + p2
}

/// One step of the scan of `merge_group_by_unique_paths`, for the `u`-th of
/// `paths` and the positions `p1`, `p2`: `row` is the classes when the walk
/// from `p1` was tried; `st` before the step, `pre` just before a union, `next`
/// after it. Positions `p1 < p2` are joined (as `UnionFind::union` does) exactly
/// when the path fits from `p1` in `row`, they are in different classes in
/// `st`, and it fits from `p2` in `st`; otherwise the classes stay.
pub open spec fn scan_step(
    paths: Seq<(Vec<Action>, usize)>,
    results: Seq<Vec<i8>>,
    length: nat,
    row: UnionFind,
    st: UnionFind,
    pre: UnionFind,
    next: UnionFind,
    u: int,
    p1: int,
    p2: int,
    merged: int,
) -> bool {
    let actions = paths[u].0@;
    let label = paths[u].1;
    let joins = p1 < p2 && fits_from(row.roots(), row.edges(), results, length, p1 as usize, actions, label) && st.roots()[p1]
        != st.roots()[p2] && fits_from(st.roots(), st.edges(), results, length, p2 as usize, actions, label);
    &&& pre.wf()
    &&& pre.same_classes(&st)
    &&& pre.num_classes() == st.num_classes()
    &&& if joins {
        union_step(pre, next, p1 as usize, p2 as usize, merged)
    } else {
        merged == 0 && next.wf() && next.same_classes(&st) && next.num_classes() == st.num_classes()
    }
}

/// The first `k` steps of the scan over `n` positions (see `scan_step`), the
/// `i`-th going from `sts[i]` to `sts[i + 1]`.
pub open spec fn scan_trace(
    paths: Seq<(Vec<Action>, usize)>,
    results: Seq<Vec<i8>>,
    length: nat,
    n: int,
    sts: Seq<UnionFind>,
    pres: Seq<UnionFind>,
    merges: Seq<int>,
    k: int,
) -> bool {
    &&& sts.len() == k + 1
    &&& pres.len() == k
    &&& merges.len() == k
    &&& forall|i: int|
        0 <= i < k ==> scan_step(
            paths,
            results,
            length,
            sts[(i / n) * n],
            sts[i],
            #[trigger] pres[i],
            sts[i + 1],
            i / (n * n),
            (i / n) % n,
            i % n,
            merges[i],
        )
}

proof fn lemma_scan_decode(n: int, u: int, p1: int, p2: int)
    requires
        n > 0,
        0 <= u,
        0 <= p1 < n,
        0 <= p2 < n,
    ensures
        scan_index(n, u, p1, p2) >= 0,
        scan_index(n, u, p1, p2) / (n * n) == u,
        (scan_index(n, u, p1, p2) / n) % n == p1,
        scan_index(n, u, p1, p2) % n == p2,
        (scan_index(n, u, p1, p2) / n) * n == scan_index(n, u, p1, 0),
        scan_index(n, u, p1, 0) + n == scan_index(n, u, p1 + 1, 0),
        scan_index(n, u, n, 0) == scan_index(n, u + 1, 0, 0),
        scan_index(n, u, p1, p2) + 1 == scan_index(n, u, p1, p2 + 1),
{
    let i = scan_index(n, u, p1, p2);
    assert(u * n + p1 >= 0) by (nonlinear_arith)
        requires
            0 <= u,
            0 <= p1,
            n > 0,
    ;
    assert(i >= 0) by (nonlinear_arith)
        requires
            i == (u * n + p1) * n + p2,
            u * n + p1 >= 0,
            n > 0,
            p2 >= 0,
    ;
    lemma_fundamental_div_mod_converse(i, n, u * n + p1, p2);
    lemma_fundamental_div_mod_converse(u * n + p1, n, u, p1);
    assert(i == u * (n * n) + (p1 * n + p2)) by (nonlinear_arith)
        requires
            i == (u * n + p1) * n + p2,
    ;
    assert(0 <= p1 * n + p2 < n * n) by (nonlinear_arith)
        requires
            0 <= p1 < n,
            0 <= p2 < n,
    ;
    assert(n * n != 0) by (nonlinear_arith)
        requires
            n > 0,
    ;
    lemma_fundamental_div_mod_converse(i, n * n, u, p1 * n + p2);
    assert(scan_index(n, u, p1, 0) + n == scan_index(n, u, p1 + 1, 0)) by (nonlinear_arith);
    assert(scan_index(n, u, n, 0) == scan_index(n, u + 1, 0, 0)) by (nonlinear_arith);
}

proof fn lemma_row_start(n: int, i: int)
    requires
        n > 0,
        i >= 0,
    ensures
        0 <= (i / n) * n <= i,
{
    vstd::arithmetic::div_mod::lemma_fundamental_div_mod(i, n);
    vstd::arithmetic::div_mod::lemma_mod_bound(i, n);
    assert((i / n) * n == n * (i / n)) by (nonlinear_arith);
    assert(i / n >= 0) by {
        vstd::arithmetic::div_mod::lemma_div_pos_is_pos(i, n);
    }
    assert((i / n) * n >= 0) by (nonlinear_arith)
        requires
            i / n >= 0,
            n > 0,
    ;
}

/// Appending one step to a scan trace.
proof fn lemma_scan_push(
    paths: Seq<(Vec<Action>, usize)>,
    results: Seq<Vec<i8>>,
    length: nat,
    n: int,
    sts: Seq<UnionFind>,
    pres: Seq<UnionFind>,
    merges: Seq<int>,
    k: int,
    pre: UnionFind,
    next: UnionFind,
    merged: int,
)
    requires
        n > 0,
        k >= 0,
        scan_trace(paths, results, length, n, sts, pres, merges, k),
        scan_step(paths, results, length, sts[(k / n) * n], sts[k], pre, next, k / (n * n), (k / n) % n, k % n, merged),
    ensures
        scan_trace(paths, results, length, n, sts.push(next), pres.push(pre), merges.push(merged), k + 1),
{
    let s2 = sts.push(next);
    let p2 = pres.push(pre);
    let m2 = merges.push(merged);
    lemma_row_start(n, k);
    assert forall|i: int|
        0 <= i < k + 1 implies scan_step(
        paths,
        results,
        length,
        s2[(i / n) * n],
        s2[i],
        #[trigger] p2[i],
        s2[i + 1],
        i / (n * n),
        (i / n) % n,
        i % n,
        m2[i],
    ) by {
        lemma_row_start(n, i);
        assert(s2[(i / n) * n] == sts[(i / n) * n]);
        if i < k {
            assert(p2[i] == pres[i] && s2[i] == sts[i] && s2[i + 1] == sts[i + 1] && m2[i] == merges[i]);
            assert(scan_step(
                paths,
                results,
                length,
                sts[(i / n) * n],
                sts[i],
                pres[i],
                sts[i + 1],
                i / (n * n),
                (i / n) % n,
                i % n,
                merges[i],
            ));
        }
    }
}

/// Appending `m` steps of one row (the `u`-th path, position `p1`) that join
/// nothing, all ending in `cur`, to a scan trace.
proof fn lemma_scan_pad(
    paths: Seq<(Vec<Action>, usize)>,
    results: Seq<Vec<i8>>,
    length: nat,
    n: int,
    sts: Seq<UnionFind>,
    pres: Seq<UnionFind>,
    merges: Seq<int>,
    u: int,
    p1: int,
    p2: int,
    m: int,
    cur: UnionFind,
) -> (r: (Seq<UnionFind>, Seq<UnionFind>, Seq<int>))
    requires
        n > 0,
        0 <= u,
        0 <= p1 < n,
        0 <= p2,
        0 <= m,
        p2 + m <= n,
        scan_trace(paths, results, length, n, sts, pres, merges, scan_index(n, u, p1, p2)),
        sts.last().wf(),
        cur.wf(),
        cur.same_classes(&sts.last()),
        cur.num_classes() == sts.last().num_classes(),
        p2 + m <= p1 + 1 || !fits_from(
            sts[scan_index(n, u, p1, 0)].roots(),
            sts[scan_index(n, u, p1, 0)].edges(),
            results,
            length,
            p1 as usize,
            paths[u].0@,
            paths[u].1,
        ),
    ensures
        scan_trace(paths, results, length, n, r.0, r.1, r.2, scan_index(n, u, p1, p2 + m)),
        m > 0 ==> r.0.last() == cur,
        m == 0 ==> r.0 == sts,
        forall|i: int| 0 <= i < sts.len() ==> r.0[i] == sts[i],
    decreases m,
{
    if m == 0 {
        (sts, pres, merges)
    } else {
        let prev = lemma_scan_pad(paths, results, length, n, sts, pres, merges, u, p1, p2, m - 1, cur);
        let k = scan_index(n, u, p1, p2 + m - 1);
        lemma_scan_decode(n, u, p1, p2 + m - 1);
        let st = prev.0[k];
        assert(st == cur || st == sts.last());
        lemma_row_start(n, scan_index(n, u, p1, 0));
        assert(prev.0[scan_index(n, u, p1, 0)] == sts[scan_index(n, u, p1, 0)]) by {
            assert(scan_index(n, u, p1, 0) <= scan_index(n, u, p1, p2)) by (nonlinear_arith)
                requires
                    p2 >= 0,
            ;
        }
        assert(scan_step(paths, results, length, prev.0[(k / n) * n], prev.0[k], st, cur, k / (n * n), (k / n) % n, k % n, 0));
        lemma_scan_push(paths, results, length, n, prev.0, prev.1, prev.2, k, st, cur, 0);
        (prev.0.push(cur), prev.1.push(st), prev.2.push(0int))
    }
}

/// A scan trace over one list of unique paths is one over any list with the
/// same entries.
proof fn lemma_scan_paths_views(
    a: Seq<(Vec<Action>, usize)>,
    b: Seq<(Vec<Action>, usize)>,
    results: Seq<Vec<i8>>,
    length: nat,
    n: int,
    sts: Seq<UnionFind>,
    pres: Seq<UnionFind>,
    merges: Seq<int>,
    k: int,
)
    requires
        entry_views(a) == entry_views(b),
        n >= 0,
        0 <= k <= scan_index(n, a.len() as int, 0, 0),
        scan_trace(a, results, length, n, sts, pres, merges, k),
    ensures
        scan_trace(b, results, length, n, sts, pres, merges, k),
{
    assert(a.len() == entry_views(a).len() && b.len() == entry_views(b).len());
    assert forall|i: int|
        0 <= i < k implies scan_step(
        b,
        results,
        length,
        sts[(i / n) * n],
        sts[i],
        #[trigger] pres[i],
        sts[i + 1],
        i / (n * n),
        (i / n) % n,
        i % n,
        merges[i],
    ) by {
        let p = a.len() as int;
        assert(n > 0) by {
            if n == 0 {
                assert(scan_index(n, p, 0, 0) == 0) by (nonlinear_arith)
                    requires
                        n == 0,
                ;
            }
        }
        assert(n * n > 0) by (nonlinear_arith)
            requires
                n > 0,
        ;
        vstd::arithmetic::div_mod::lemma_fundamental_div_mod(i, n * n);
        vstd::arithmetic::div_mod::lemma_mod_bound(i, n * n);
        let q = i / (n * n);
        assert(0 <= q < p) by (nonlinear_arith)
            requires
                i == (n * n) * q + i % (n * n),
                0 <= i % (n * n),
                i % (n * n) < n * n,
                0 <= i < (p * n) * n,
                n > 0,
        ;
        assert(entry_views(a)[q] == entry_views(b)[q]);
        assert(a[q].0@ == b[q].0@ && a[q].1 == b[q].1);
    }
}

/// One step of a sequence of unions from `st` to `next` (`pre` just before the
/// union): `a` and `b` are joined as `UnionFind::union` does when `joins`, and
/// otherwise the classes stay.
pub open spec fn join_step(st: UnionFind, pre: UnionFind, next: UnionFind, joins: bool, a: usize, b: usize, merged: int) -> bool {
    &&& pre.wf()
    &&& pre.same_classes(&st)
    &&& pre.num_classes() == st.num_classes()
    &&& if joins {
        union_step(pre, next, a, b, merged)
    } else {
        merged == 0 && next.wf() && next.same_classes(&st) && next.num_classes() == st.num_classes()
    }
}

/// The first `k` steps of a scan over rows of `n` steps, step `i` being in row
/// `i / n` at column `i % n`, each joining what `decide` gives for its row,
/// column and the classes before it (see `join_step`).
pub open spec fn grid_trace(
    decide: spec_fn(int, int, UnionFind) -> (bool, usize, usize),
    n: int,
    sts: Seq<UnionFind>,
    pres: Seq<UnionFind>,
    merges: Seq<int>,
    k: int,
) -> bool {
    &&& sts.len() == k + 1
    &&& pres.len() == k
    &&& merges.len() == k
    &&& forall|i: int|
        0 <= i < k ==> join_step(
            sts[i],
            #[trigger] pres[i],
            sts[i + 1],
            decide(i / n, i % n, sts[i]).0,
            decide(i / n, i % n, sts[i]).1,
            decide(i / n, i % n, sts[i]).2,
            merges[i],
        )
}

proof fn lemma_grid_decode(n: int, r: int, c: int)
    requires
        n > 0,
        0 <= r,
        0 <= c < n,
    ensures
        (r * n + c) / n == r,
        (r * n + c) % n == c,
        r * n + c >= 0,
        r * n + n == (r + 1) * n,
{
    lemma_fundamental_div_mod_converse(r * n + c, n, r, c);
    assert(r * n >= 0) by (nonlinear_arith)
        requires
            r >= 0,
            n > 0,
    ;
    assert(r * n + n == (r + 1) * n) by (nonlinear_arith);
}

/// Appending one step to a grid trace.
proof fn lemma_grid_push(
    decide: spec_fn(int, int, UnionFind) -> (bool, usize, usize),
    n: int,
    sts: Seq<UnionFind>,
    pres: Seq<UnionFind>,
    merges: Seq<int>,
    k: int,
    pre: UnionFind,
    next: UnionFind,
    merged: int,
)
    requires
        grid_trace(decide, n, sts, pres, merges, k),
        join_step(sts[k], pre, next, decide(k / n, k % n, sts[k]).0, decide(k / n, k % n, sts[k]).1, decide(k / n, k % n, sts[k]).2, merged),
    ensures
        grid_trace(decide, n, sts.push(next), pres.push(pre), merges.push(merged), k + 1),
{
    let s2 = sts.push(next);
    let p2 = pres.push(pre);
    let m2 = merges.push(merged);
    assert forall|i: int|
        0 <= i < k + 1 implies join_step(
        s2[i],
        #[trigger] p2[i],
        s2[i + 1],
        decide(i / n, i % n, s2[i]).0,
        decide(i / n, i % n, s2[i]).1,
        decide(i / n, i % n, s2[i]).2,
        m2[i],
    ) by {
        if i < k {
            assert(p2[i] == pres[i] && s2[i] == sts[i] && s2[i + 1] == sts[i + 1] && m2[i] == merges[i]);
        }
    }
}

/// Appending `m` steps of row `r`, from column `c`, that join nothing and end in
/// `cur`, to a grid trace.
proof fn lemma_grid_pad(
    decide: spec_fn(int, int, UnionFind) -> (bool, usize, usize),
    n: int,
    sts: Seq<UnionFind>,
    pres: Seq<UnionFind>,
    merges: Seq<int>,
    r: int,
    c: int,
    m: int,
    cur: UnionFind,
) -> (res: (Seq<UnionFind>, Seq<UnionFind>, Seq<int>))
    requires
        n > 0,
        0 <= r,
        0 <= c,
        0 <= m,
        c + m <= n,
        grid_trace(decide, n, sts, pres, merges, r * n + c),
        sts.last().wf(),
        cur.wf(),
        cur.same_classes(&sts.last()),
        cur.num_classes() == sts.last().num_classes(),
        forall|q: int| c <= q < c + m ==> !(#[trigger] decide(r, q, cur)).0 && !decide(r, q, sts.last()).0,
    ensures
        grid_trace(decide, n, res.0, res.1, res.2, r * n + c + m),
        m > 0 ==> res.0.last() == cur,
        m == 0 ==> res.0 == sts,
        forall|i: int| 0 <= i < sts.len() ==> res.0[i] == sts[i],
    decreases m,
{
    if m == 0 {
        (sts, pres, merges)
    } else {
        let prev = lemma_grid_pad(decide, n, sts, pres, merges, r, c, m - 1, cur);
        let k = r * n + c + m - 1;
        lemma_grid_decode(n, r, c + m - 1);
        let st = prev.0[k];
        assert(st == cur || st == sts.last());
        assert(!decide(r, c + m - 1, cur).0);
        assert(!decide(r, c + m - 1, st).0);
        lemma_grid_push(decide, n, prev.0, prev.1, prev.2, k, st, cur, 0);
        (prev.0.push(cur), prev.1.push(st), prev.2.push(0int))
    }
}

/// The decision of the door-group phase of `merge_group_by_different_group` at
/// row `g` (label `g / 6`, door `g % 6`) and position `c`, in classes `st`: a
/// representative joins the candidate that `group_candidate_of` gives it in the
/// door group of `paths` made in the classes `roots`, `edges` the phase began
/// with.
pub open spec fn group_decide(
    roots: Seq<usize>,
    edges: Seq<Seq<usize>>,
    results: Seq<Vec<i8>>,
    length: nat,
    paths: Seq<(Vec<Action>, usize)>,
    marks: Seq<Vec<bool>>,
) -> spec_fn(int, int, UnionFind) -> (bool, usize, usize) {
    |g: int, c: int, st: UnionFind|
        {
            let grp = door_group(roots, edges, results, length, paths, (g / 6) as usize, (g % 6) as usize, paths.len() as int);
            let cand = group_candidate_of(st.roots(), c as usize, grp, marks[c]@);
            (st.roots()[c] == c && cand != NONE, c as usize, cand)
        }
}

/// The decision of the leader phase of `merge_group_by_different_group` at
/// label `l` and place `q`: for a label whose leaders (`lr.0`) are as many as
/// its rooms, the `q`-th other class (`lr.1`) joins its sole unmarked leader.
pub open spec fn leader_decide(
    lr: (Seq<Seq<usize>>, Seq<Seq<usize>>),
    caps: Seq<usize>,
    marks: Seq<Vec<bool>>,
) -> spec_fn(int, int, UnionFind) -> (bool, usize, usize) {
    |l: int, q: int, st: UnionFind|
        {
            let sole = sole_unmarked(lr.0[l], marks[lr.1[l][q] as int]@);
            (lr.0[l].len() >= caps[l] && q < lr.1[l].len() && sole != NONE, lr.1[l][q], sole)
        }
}

proof fn lemma_leaders_len(roots: Seq<usize>, results: Seq<Vec<i8>>, length: nat, caps: Seq<usize>, diff: Seq<Vec<bool>>, t: int)
    requires
        0 <= t,
        t <= roots.len(),
        forall|k: int| 0 <= k < t ==> 0 <= #[trigger] label_at(results, length, roots[k] as int) < 4,
    ensures
        leaders_upto(roots, results, length, caps, diff, t).0.len() == 4,
        leaders_upto(roots, results, length, caps, diff, t).1.len() == 4,
        forall|l: int|
            0 <= l < 4 ==> (#[trigger] leaders_upto(roots, results, length, caps, diff, t).1[l]).len() <= t
                && leaders_upto(roots, results, length, caps, diff, t).0[l].len() <= t,
    decreases t,
{
    if t > 0 {
        lemma_leaders_len(roots, results, length, caps, diff, t - 1);
        let prev = leaders_upto(roots, results, length, caps, diff, t - 1);
        let r = roots[t - 1];
        let lab = label_at(results, length, r as int) as int;
        assert(0 <= label_at(results, length, roots[t - 1] as int) < 4);
        let cur = leaders_upto(roots, results, length, caps, diff, t);
        assert(cur == leaders_step(prev, r, lab, caps[lab] as nat, diff));
        assert(cur.0.len() == 4 && cur.1.len() == 4);
        assert forall|l: int| 0 <= l < 4 implies (#[trigger] cur.1[l]).len() <= t && cur.0[l].len() <= t by {
            assert(prev.1[l].len() <= t - 1 && prev.0[l].len() <= t - 1);
            if l == lab {
                assert(cur.1[l].len() <= prev.1[l].len() + 1);
                assert(cur.0[l].len() <= prev.0[l].len() + 1);
            } else {
                assert(cur.1[l] == prev.1[l] && cur.0[l] == prev.0[l]);
            }
        }
    } else {
        let cur = leaders_upto(roots, results, length, caps, diff, t);
        assert(cur.0.len() == 4 && cur.1.len() == 4);
    }
}

/// Every label seen is one of the four.
pub open spec fn labels_ok(results: Seq<Vec<i8>>) -> bool {
    forall|k: int, i: int| 0 <= k < results.len() && 0 <= i < results[k]@.len() ==> 0 <= #[trigger] results[k]@[i] < 4
}

pub proof fn lemma_label_range(results: Seq<Vec<i8>>, length: nat, p: int)
    requires
        walks_ok(results, length),
        labels_ok(results),
        0 <= p < results.len() * length,
    ensures
        0 <= label_at(results, length, p) < 4,
{
    crate::walk_data::lemma_split_position(p, results.len() as int, length as int);
    let k = p / (length as int);
    let i = p % (length as int);
    assert(0 <= results[k]@[i] < 4);
}

/// The doors of a sequence of steps.
pub open spec fn doors_of(p: Seq<(usize, usize)>) -> Seq<usize> {
    Seq::new(p.len(), |i: int| p[i].0)
}

/// The steps (door taken, label seen) of the walk from position `x` through
/// `doors` among the classes given by `roots` and `edges`, or `None` when a door
/// on the way is unknown.
pub open spec fn class_steps(
    roots: Seq<usize>,
    edges: Seq<Seq<usize>>,
    results: Seq<Vec<i8>>,
    length: nat,
    x: usize,
    doors: Seq<usize>,
) -> Option<Seq<(usize, usize)>>
    decreases doors.len(),
{
    if doors.len() == 0 {
        Some(Seq::empty())
    } else {
        let nx = next_of(roots, edges, x, doors[0]);
        if nx == NONE {
            None
        } else {
            match class_steps(roots, edges, results, length, nx, doors.drop_first()) {
                Some(rest) => Some(seq![(doors[0], label_at(results, length, nx as int) as usize)] + rest),
                None => None,
            }
        }
    }
}

/// `p` (one to three steps) is the walk from class representative `x`, which
/// shows label `l`, through the doors of `p`.
pub open spec fn class_walk(
    roots: Seq<usize>,
    edges: Seq<Seq<usize>>,
    results: Seq<Vec<i8>>,
    length: nat,
    x: usize,
    l: int,
    p: Seq<(usize, usize)>,
) -> bool {
    &&& x < roots.len()
    &&& roots[x as int] == x
    &&& label_at(results, length, x as int) as int == l
    &&& 1 <= p.len() <= 3
    &&& class_steps(roots, edges, results, length, x, doors_of(p)) == Some(p)
}

proof fn lemma_class_steps(
    roots: Seq<usize>,
    edges: Seq<Seq<usize>>,
    results: Seq<Vec<i8>>,
    length: nat,
    x: usize,
    d: Seq<usize>,
    pos: Seq<usize>,
    t: int,
)
    requires
        1 <= t <= d.len(),
        d.len() <= 3,
        pos.len() == d.len(),
        forall|q: int| 0 <= q < t ==> #[trigger] pos[q] != NONE,
        next_of(roots, edges, x, d[0]) == pos[0],
        d.len() > 1 && t > 1 ==> next_of(roots, edges, pos[0], d[1]) == pos[1],
        d.len() > 2 && t > 2 ==> next_of(roots, edges, pos[1], d[2]) == pos[2],
    ensures
        class_steps(roots, edges, results, length, x, d.take(t)) == Some(
            Seq::new(t as nat, |q: int| (d[q], label_at(results, length, pos[q] as int) as usize)),
        ),
{
    let lab = |y: usize| label_at(results, length, y as int) as usize;
    reveal_with_fuel(class_steps, 4);
    let e = Seq::<usize>::empty();
    let d1 = d.take(t);
    assert(d1[0] == d[0]);
    if t == 1 {
        assert(d1.drop_first() =~= e);
        assert(class_steps(roots, edges, results, length, pos[0], e) == Some(Seq::<(usize, usize)>::empty()));
        assert(seq![(d[0], lab(pos[0]))] + Seq::<(usize, usize)>::empty() =~= Seq::new(1, |q: int| (d[q], lab(pos[q]))));
    } else if t == 2 {
        assert(d1.drop_first() =~= seq![d[1]]);
        assert(seq![d[1]].drop_first() =~= e);
        assert(class_steps(roots, edges, results, length, pos[1], e) == Some(Seq::<(usize, usize)>::empty()));
        assert(seq![(d[1], lab(pos[1]))] + Seq::<(usize, usize)>::empty() =~= seq![(d[1], lab(pos[1]))]);
        assert(class_steps(roots, edges, results, length, pos[0], seq![d[1]]) == Some(seq![(d[1], lab(pos[1]))]));
        assert(seq![(d[0], lab(pos[0]))] + seq![(d[1], lab(pos[1]))] =~= Seq::new(2, |q: int| (d[q], lab(pos[q]))));
    } else {
        assert(d1.drop_first() =~= seq![d[1], d[2]]);
        assert(seq![d[1], d[2]].drop_first() =~= seq![d[2]]);
        assert(seq![d[2]].drop_first() =~= e);
        assert(class_steps(roots, edges, results, length, pos[2], e) == Some(Seq::<(usize, usize)>::empty()));
        assert(seq![(d[2], lab(pos[2]))] + Seq::<(usize, usize)>::empty() =~= seq![(d[2], lab(pos[2]))]);
        assert(class_steps(roots, edges, results, length, pos[1], seq![d[2]]) == Some(seq![(d[2], lab(pos[2]))]));
        assert(seq![(d[1], lab(pos[1]))] + seq![(d[2], lab(pos[2]))] =~= seq![(d[1], lab(pos[1])), (d[2], lab(pos[2]))]);
        assert(class_steps(roots, edges, results, length, pos[0], seq![d[1], d[2]]) == Some(
            seq![(d[1], lab(pos[1])), (d[2], lab(pos[2]))],
        ));
        assert(seq![(d[0], lab(pos[0]))] + seq![(d[1], lab(pos[1])), (d[2], lab(pos[2]))] =~= Seq::new(
            3,
            |q: int| (d[q], lab(pos[q])),
        ));
    }
}

/// One to three doors.
pub open spec fn door_seq(d: Seq<usize>) -> bool {
    &&& 1 <= d.len() <= 3
    &&& forall|q: int| 0 <= q < d.len() ==> #[trigger] d[q] < 6
}

/// The walk from position `x` through `d`, if all its doors are known, is
/// recorded in `obs` after the label of `x`.
pub open spec fn walk_recorded(
    obs: LabelObservation,
    roots: Seq<usize>,
    edges: Seq<Seq<usize>>,
    results: Seq<Vec<i8>>,
    length: nat,
    x: usize,
    d: Seq<usize>,
) -> bool {
    match class_steps(roots, edges, results, length, x, d) {
        Some(p) => has_path(obs.node(label_at(results, length, x as int) as int), p),
        None => true,
    }
}

/// Walks from every representative below `i` are recorded.
spec fn reps_recorded(obs: LabelObservation, rt: Seq<usize>, eg: Seq<Seq<usize>>, results: Seq<Vec<i8>>, length: nat, i: int) -> bool {
    forall|x: usize, d: Seq<usize>|
        #![trigger class_steps(rt, eg, results, length, x, d)]
        x < i && rt[x as int] == x && door_seq(d) ==> walk_recorded(obs, rt, eg, results, length, x, d)
}

/// Walks from `x` whose first door is below `d0` are recorded.
spec fn first_below(obs: LabelObservation, rt: Seq<usize>, eg: Seq<Seq<usize>>, results: Seq<Vec<i8>>, length: nat, x: usize, d0: int) -> bool {
    forall|d: Seq<usize>|
        #![trigger class_steps(rt, eg, results, length, x, d)]
        door_seq(d) && d[0] < d0 ==> walk_recorded(obs, rt, eg, results, length, x, d)
}

/// Walks from `x` of two or three doors, the first `d0`, the second below `d1`, are recorded.
spec fn second_below(
    obs: LabelObservation,
    rt: Seq<usize>,
    eg: Seq<Seq<usize>>,
    results: Seq<Vec<i8>>,
    length: nat,
    x: usize,
    d0: int,
    d1: int,
) -> bool {
    forall|d: Seq<usize>|
        #![trigger class_steps(rt, eg, results, length, x, d)]
        door_seq(d) && d[0] == d0 && d.len() >= 2 && d[1] < d1 ==> walk_recorded(obs, rt, eg, results, length, x, d)
}

/// Walks from `x` through `d0`, `d1` and a third door below `d2` are recorded.
spec fn third_below(
    obs: LabelObservation,
    rt: Seq<usize>,
    eg: Seq<Seq<usize>>,
    results: Seq<Vec<i8>>,
    length: nat,
    x: usize,
    d0: int,
    d1: int,
    d2: int,
) -> bool {
    forall|d: Seq<usize>|
        #![trigger class_steps(rt, eg, results, length, x, d)]
        door_seq(d) && d.len() == 3 && d[0] == d0 && d[1] == d1 && d[2] < d2 ==> walk_recorded(obs, rt, eg, results, length, x, d)
}

proof fn lemma_recorded_kept(
    a: LabelObservation,
    b: LabelObservation,
    rt: Seq<usize>,
    eg: Seq<Seq<usize>>,
    results: Seq<Vec<i8>>,
    length: nat,
    x: usize,
    d: Seq<usize>,
)
    requires
        obs_kept(a, b),
        walks_ok(results, length),
        labels_ok(results),
        x < results.len() * length,
        walk_recorded(a, rt, eg, results, length, x, d),
    ensures
        walk_recorded(b, rt, eg, results, length, x, d),
{
    lemma_label_range(results, length, x as int);
}

/// Recording more keeps the progress of `update_label_observation` recorded.
proof fn lemma_progress_kept(
    a: LabelObservation,
    b: LabelObservation,
    rt: Seq<usize>,
    eg: Seq<Seq<usize>>,
    results: Seq<Vec<i8>>,
    length: nat,
    i: int,
    x: usize,
    d0: int,
    d1: int,
    d2: int,
)
    requires
        obs_kept(a, b),
        walks_ok(results, length),
        labels_ok(results),
        i <= results.len() * length,
        x < results.len() * length,
        reps_recorded(a, rt, eg, results, length, i),
        first_below(a, rt, eg, results, length, x, d0),
        second_below(a, rt, eg, results, length, x, d0, d1),
        third_below(a, rt, eg, results, length, x, d0, d1, d2),
    ensures
        reps_recorded(b, rt, eg, results, length, i),
        first_below(b, rt, eg, results, length, x, d0),
        second_below(b, rt, eg, results, length, x, d0, d1),
        third_below(b, rt, eg, results, length, x, d0, d1, d2),
{
    assert forall|y: usize, d: Seq<usize>|
        y < i && rt[y as int] == y && door_seq(d) implies #[trigger] walk_recorded(b, rt, eg, results, length, y, d) by {
        assert(walk_recorded(a, rt, eg, results, length, y, d));
        lemma_recorded_kept(a, b, rt, eg, results, length, y, d);
    }
    assert forall|d: Seq<usize>| door_seq(d) && d[0] < d0 implies #[trigger] walk_recorded(b, rt, eg, results, length, x, d) by {
        assert(walk_recorded(a, rt, eg, results, length, x, d));
        lemma_recorded_kept(a, b, rt, eg, results, length, x, d);
    }
    assert forall|d: Seq<usize>|
        door_seq(d) && d[0] == d0 && d.len() >= 2 && d[1] < d1 implies #[trigger] walk_recorded(b, rt, eg, results, length, x, d) by {
        assert(walk_recorded(a, rt, eg, results, length, x, d));
        lemma_recorded_kept(a, b, rt, eg, results, length, x, d);
    }
    assert forall|d: Seq<usize>|
        door_seq(d) && d.len() == 3 && d[0] == d0 && d[1] == d1 && d[2] < d2 implies #[trigger] walk_recorded(
        b,
        rt,
        eg,
        results,
        length,
        x,
        d,
    ) by {
        assert(walk_recorded(a, rt, eg, results, length, x, d));
        lemma_recorded_kept(a, b, rt, eg, results, length, x, d);
    }
}

/// Every sequence of steps recorded in `a` is still recorded in `b`.
pub open spec fn obs_kept(a: LabelObservation, b: LabelObservation) -> bool {
    forall|l: int, p: Seq<(usize, usize)>| 0 <= l < 4 && has_path(a.node(l), p) ==> #[trigger] has_path(b.node(l), p)
}

/// Every sequence of steps recorded in `b` was recorded in `a` or is a walk from
/// a class representative (see `class_walk`).
pub open spec fn obs_from_walks(
    a: LabelObservation,
    b: LabelObservation,
    roots: Seq<usize>,
    edges: Seq<Seq<usize>>,
    results: Seq<Vec<i8>>,
    length: nat,
) -> bool {
    forall|l: int, p: Seq<(usize, usize)>|
        0 <= l < 4 && #[trigger] has_path(b.node(l), p) ==> has_path(a.node(l), p) || exists|x: usize|
            #[trigger] class_walk(roots, edges, results, length, x, l, p)
}

/// A beginning of the steps taken from representative `x` along known doors is a
/// walk from it.
proof fn lemma_new_walk(
    roots: Seq<usize>,
    edges: Seq<Seq<usize>>,
    results: Seq<Vec<i8>>,
    length: nat,
    x: usize,
    l: int,
    d: Seq<usize>,
    pos: Seq<usize>,
    added: Seq<(usize, usize)>,
    p: Seq<(usize, usize)>,
)
    requires
        x < roots.len(),
        roots[x as int] == x,
        label_at(results, length, x as int) as int == l,
        1 <= d.len() <= 3,
        pos.len() == d.len(),
        forall|q: int| 0 <= q < d.len() ==> #[trigger] pos[q] != NONE,
        next_of(roots, edges, x, d[0]) == pos[0],
        d.len() > 1 ==> next_of(roots, edges, pos[0], d[1]) == pos[1],
        d.len() > 2 ==> next_of(roots, edges, pos[1], d[2]) == pos[2],
        added == Seq::new(d.len(), |q: int| (d[q], label_at(results, length, pos[q] as int) as usize)),
        starts_path(p, added),
    ensures
        class_walk(roots, edges, results, length, x, l, p),
{
    let t = p.len() as int;
    lemma_class_steps(roots, edges, results, length, x, d, pos, t);
    assert(doors_of(p) =~= d.take(t));
    assert(p =~= Seq::new(t as nat, |q: int| (d[q], label_at(results, length, pos[q] as int) as usize)));
}

/// Records in `label_observation`, for every class representative, the labels seen
/// along every walk of up to three known doors from it; what was recorded stays,
/// and nothing else is added.
pub fn update_label_observation(results: &[Vec<i8>], uf: &mut UnionFind, label_observation: &mut LabelObservation)
    requires
        walks_ok(results@, results@[0]@.len()),
        labels_ok(results@),
        old(uf).wf(),
        old(uf).n() == results@.len() * results@[0]@.len(),
        old(label_observation).wf(),
    ensures
        observe_step(*old(label_observation), *final(label_observation), *old(uf), *final(uf), results@, results@[0]@.len()),
        final(uf).wf(),
        final(uf).same_classes(old(uf)),
        final(uf).num_classes() == old(uf).num_classes(),
        final(label_observation).wf(),
        final(label_observation).room_counts() == old(label_observation).room_counts(),
        obs_kept(*old(label_observation), *final(label_observation)),
        obs_from_walks(
            *old(label_observation),
            *final(label_observation),
            old(uf).roots(),
            old(uf).edges(),
            results@,
            results@[0]@.len(),
        ),
        forall|x: usize, d: Seq<usize>|
            x < old(uf).n() && old(uf).roots()[x as int] == x && door_seq(d) ==> #[trigger] walk_recorded(
                *final(label_observation),
                old(uf).roots(),
                old(uf).edges(),
                results@,
                results@[0]@.len(),
                x,
                d,
            ),
{
    let length = results[0].len();
    let n = results.len() * length;
    let ghost lo0 = *label_observation;
    let ghost rt = old(uf).roots();
    let ghost eg = old(uf).edges();
    proof {
        old(uf).lemma_wf_facts();
    }
    let mut i: usize = 0;
    while i < n
        invariant
            walks_ok(results@, length as nat),
            labels_ok(results@),
            n == results@.len() * length,
            uf.wf(),
            uf.same_classes(old(uf)),
            uf.num_classes() == old(uf).num_classes(),
            uf.n() == n,
            label_observation.wf(),
            label_observation.room_counts() == old(label_observation).room_counts(),
            lo0 == *old(label_observation),
            rt == old(uf).roots(),
            eg == old(uf).edges(),
            rt.len() == n,
            obs_kept(lo0, *label_observation),
            obs_from_walks(lo0, *label_observation, rt, eg, results@, length as nat),
            i <= n,
            reps_recorded(*label_observation, rt, eg, results@, length as nat, i as int),
        decreases n - i,
    {
        if uf.find(i) == i {
            proof {
                lemma_label_range(results@, length as nat, i as int);
            }
            let label0 = label_of(results, length, i) as usize;
            let mut d0: usize = 0;
            while d0 < 6
                invariant
                    walks_ok(results@, length as nat),
                    labels_ok(results@),
                    n == results@.len() * length,
                    i < n,
                    label0 < 4,
                    rt[i as int] == i,
                    label0 == label_at(results@, length as nat, i as int) as usize,
                    uf.wf(),
                    uf.same_classes(old(uf)),
                    uf.num_classes() == old(uf).num_classes(),
                    uf.n() == n,
                    label_observation.wf(),
                    label_observation.room_counts() == old(label_observation).room_counts(),
                    lo0 == *old(label_observation),
                    rt == old(uf).roots(),
                    eg == old(uf).edges(),
                    rt.len() == n,
                    obs_kept(lo0, *label_observation),
                    obs_from_walks(lo0, *label_observation, rt, eg, results@, length as nat),
                    d0 <= 6,
                    reps_recorded(*label_observation, rt, eg, results@, length as nat, i as int),
                    first_below(*label_observation, rt, eg, results@, length as nat, i, d0 as int),
                decreases 6 - d0,
            {
                let pos1 = uf.get_next(i, d0);
                if pos1 != NONE {
                    proof {
                        lemma_label_range(results@, length as nat, pos1 as int);
                    }
                    let label1 = label_of(results, length, pos1) as usize;
                    let ghost before = *label_observation;
                    label_observation.add_child(label0, d0, label1);
                    proof {
                        let added = seq![(d0, label1)];
                        assert forall|l: int, p: Seq<(usize, usize)>|
                            0 <= l < 4 && #[trigger] has_path(label_observation.node(l), p) implies has_path(lo0.node(l), p)
                            || exists|x: usize| #[trigger] class_walk(rt, eg, results@, length as nat, x, l, p) by {
                            if !has_path(before.node(l), p) {
                                lemma_label_range(results@, length as nat, i as int);
                                assert(l == label0 && starts_path(p, added));
                                assert(added =~= Seq::new(1, |q: int| (seq![d0][q], label_at(results@, length as nat, seq![pos1][q] as int) as usize)));
                                lemma_new_walk(rt, eg, results@, length as nat, i, l, seq![d0], seq![pos1], added, p);
                            }
                        }
                        lemma_progress_kept(before, *label_observation, rt, eg, results@, length as nat, i as int, i, d0 as int, 0, 0);
                        lemma_class_steps(rt, eg, results@, length as nat, i, seq![d0], seq![pos1], 1);
                        assert(seq![d0].take(1) =~= seq![d0]);
                        assert(Seq::new(1, |q: int| (seq![d0][q], label_at(results@, length as nat, seq![pos1][q] as int) as usize))
                            =~= added);
                        lemma_label_range(results@, length as nat, i as int);
                        assert(walk_recorded(*label_observation, rt, eg, results@, length as nat, i, seq![d0]));
                    }
                    let mut d1: usize = 0;
                    while d1 < 6
                        invariant
                            walks_ok(results@, length as nat),
                            labels_ok(results@),
                            n == results@.len() * length,
                            pos1 < n,
                            label0 < 4,
                            label1 < 4,
                            d0 < 6,
                            i < n,
                            rt[i as int] == i,
                            label0 == label_at(results@, length as nat, i as int) as usize,
                            pos1 == next_of(rt, eg, i, d0),
                            label1 == label_at(results@, length as nat, pos1 as int) as usize,
                            uf.wf(),
                            uf.same_classes(old(uf)),
                            uf.num_classes() == old(uf).num_classes(),
                            uf.n() == n,
                            label_observation.wf(),
                            label_observation.room_counts() == old(label_observation).room_counts(),
                            lo0 == *old(label_observation),
                            rt == old(uf).roots(),
                            eg == old(uf).edges(),
                            rt.len() == n,
                            obs_kept(lo0, *label_observation),
                            obs_from_walks(lo0, *label_observation, rt, eg, results@, length as nat),
                            d1 <= 6,
                            reps_recorded(*label_observation, rt, eg, results@, length as nat, i as int),
                            first_below(*label_observation, rt, eg, results@, length as nat, i, d0 as int),
                            walk_recorded(*label_observation, rt, eg, results@, length as nat, i, seq![d0]),
                            second_below(*label_observation, rt, eg, results@, length as nat, i, d0 as int, d1 as int),
                        decreases 6 - d1,
                    {
                        let pos2 = uf.get_next(pos1, d1);
                        if pos2 != NONE {
                            proof {
                                lemma_label_range(results@, length as nat, pos2 as int);
                            }
                            let label2 = label_of(results, length, pos2) as usize;
                            let ghost before = *label_observation;
                            label_observation.add_child_2step(label0, d0, label1, d1, label2);
                            proof {
                                let added = seq![(d0, label1), (d1, label2)];
                                assert forall|l: int, p: Seq<(usize, usize)>|
                                    0 <= l < 4 && #[trigger] has_path(label_observation.node(l), p) implies has_path(lo0.node(l), p)
                                    || exists|x: usize| #[trigger] class_walk(rt, eg, results@, length as nat, x, l, p) by {
                                    if !has_path(before.node(l), p) {
                                lemma_label_range(results@, length as nat, i as int);
                                assert(l == label0 && starts_path(p, added));
                                        assert(added =~= Seq::new(2, |q: int| (seq![d0, d1][q], label_at(results@, length as nat, seq![pos1, pos2][q] as int) as usize)));
                                        lemma_new_walk(rt, eg, results@, length as nat, i, l, seq![d0, d1], seq![pos1, pos2], added, p);
                                    }
                                }
                                lemma_progress_kept(before, *label_observation, rt, eg, results@, length as nat, i as int, i, d0 as int, d1 as int, 0);
                                lemma_recorded_kept(before, *label_observation, rt, eg, results@, length as nat, i, seq![d0]);
                                lemma_class_steps(rt, eg, results@, length as nat, i, seq![d0, d1], seq![pos1, pos2], 2);
                                assert(seq![d0, d1].take(2) =~= seq![d0, d1]);
                                assert(Seq::new(2, |q: int| (seq![d0, d1][q], label_at(results@, length as nat, seq![pos1, pos2][q] as int) as usize))
                                    =~= added);
                                lemma_label_range(results@, length as nat, i as int);
                                assert(walk_recorded(*label_observation, rt, eg, results@, length as nat, i, seq![d0, d1]));
                            }
                            let mut d2: usize = 0;
                            while d2 < 6
                                invariant
                                    walks_ok(results@, length as nat),
                                    labels_ok(results@),
                                    n == results@.len() * length,
                                    pos2 < n,
                                    label0 < 4,
                                    label1 < 4,
                                    label2 < 4,
                                    d0 < 6,
                                    d1 < 6,
                                    i < n,
                                    pos1 < n,
                                    rt[i as int] == i,
                                    label0 == label_at(results@, length as nat, i as int) as usize,
                                    pos1 == next_of(rt, eg, i, d0),
                                    label1 == label_at(results@, length as nat, pos1 as int) as usize,
                                    pos2 == next_of(rt, eg, pos1, d1),
                                    label2 == label_at(results@, length as nat, pos2 as int) as usize,
                                    uf.wf(),
                                    uf.same_classes(old(uf)),
                                    uf.num_classes() == old(uf).num_classes(),
                                    uf.n() == n,
                                    label_observation.wf(),
                                    label_observation.room_counts() == old(label_observation).room_counts(),
                                    lo0 == *old(label_observation),
                                    rt == old(uf).roots(),
                                    eg == old(uf).edges(),
                                    rt.len() == n,
                                    obs_kept(lo0, *label_observation),
                                    obs_from_walks(lo0, *label_observation, rt, eg, results@, length as nat),
                                    d2 <= 6,
                                    reps_recorded(*label_observation, rt, eg, results@, length as nat, i as int),
                                    first_below(*label_observation, rt, eg, results@, length as nat, i, d0 as int),
                                    walk_recorded(*label_observation, rt, eg, results@, length as nat, i, seq![d0]),
                                    second_below(*label_observation, rt, eg, results@, length as nat, i, d0 as int, d1 as int),
                                    walk_recorded(*label_observation, rt, eg, results@, length as nat, i, seq![d0, d1]),
                                    third_below(*label_observation, rt, eg, results@, length as nat, i, d0 as int, d1 as int, d2 as int),
                                decreases 6 - d2,
                            {
                                let pos3 = uf.get_next(pos2, d2);
                                if pos3 != NONE {
                                    proof {
                                        lemma_label_range(results@, length as nat, pos3 as int);
                                    }
                                    let label3 = label_of(results, length, pos3) as usize;
                                    let labels = [label0, label1, label2];
                                    let doors = [d0, d1, d2];
                                    let ghost before = *label_observation;
                                    label_observation.add_child_3step(&labels, &doors, label3);
                                    proof {
                                        assert(labels@ == seq![label0, label1, label2]);
                                        assert(doors@ == seq![d0, d1, d2]);
                                        let added = seq![(d0, label1), (d1, label2), (d2, label3)];
                                        assert forall|l: int, p: Seq<(usize, usize)>|
                                            0 <= l < 4 && #[trigger] has_path(label_observation.node(l), p) implies has_path(lo0.node(l), p)
                                            || exists|x: usize| #[trigger] class_walk(rt, eg, results@, length as nat, x, l, p) by {
                                            if !has_path(before.node(l), p) {
                                lemma_label_range(results@, length as nat, i as int);
                                assert(l == label0 && starts_path(p, added));
                                                assert(added =~= Seq::new(3, |q: int| (seq![d0, d1, d2][q], label_at(results@, length as nat, seq![pos1, pos2, pos3][q] as int) as usize)));
                                                lemma_new_walk(rt, eg, results@, length as nat, i, l, seq![d0, d1, d2], seq![pos1, pos2, pos3], added, p);
                                            }
                                        }
                                        lemma_progress_kept(before, *label_observation, rt, eg, results@, length as nat, i as int, i, d0 as int, d1 as int, d2 as int);
                                        lemma_recorded_kept(before, *label_observation, rt, eg, results@, length as nat, i, seq![d0]);
                                        lemma_recorded_kept(before, *label_observation, rt, eg, results@, length as nat, i, seq![d0, d1]);
                                        lemma_class_steps(rt, eg, results@, length as nat, i, seq![d0, d1, d2], seq![pos1, pos2, pos3], 3);
                                        assert(seq![d0, d1, d2].take(3) =~= seq![d0, d1, d2]);
                                        assert(Seq::new(3, |q: int| (seq![d0, d1, d2][q], label_at(results@, length as nat, seq![pos1, pos2, pos3][q] as int) as usize))
                                            =~= added);
                                        lemma_label_range(results@, length as nat, i as int);
                                        assert(walk_recorded(*label_observation, rt, eg, results@, length as nat, i, seq![d0, d1, d2]));
                                        assert forall|d: Seq<usize>|
                                            door_seq(d) && d.len() == 3 && d[0] == d0 && d[1] == d1 && d[2] < d2 + 1 implies #[trigger] walk_recorded(
                                            *label_observation,
                                            rt,
                                            eg,
                                            results@,
                                            length as nat,
                                            i,
                                            d,
                                        ) by {
                                            if d[2] == d2 {
                                                assert(d =~= seq![d0, d1, d2]);
                                            } else {
                                                assert(class_steps(rt, eg, results@, length as nat, i, d) == class_steps(rt, eg, results@, length as nat, i, d));
                                            }
                                        }
                                    }
                                } else {
                                    proof {
                                        reveal_with_fuel(class_steps, 4);
                                        assert forall|d: Seq<usize>|
                                            door_seq(d) && d.len() == 3 && d[0] == d0 && d[1] == d1 && d[2] < d2 + 1 implies #[trigger] walk_recorded(
                                            *label_observation,
                                            rt,
                                            eg,
                                            results@,
                                            length as nat,
                                            i,
                                            d,
                                        ) by {
                                            if d[2] == d2 {
                                                assert(d.drop_first()[0] == d1);
                                                assert(d.drop_first().drop_first()[0] == d2);
                                                assert(class_steps(rt, eg, results@, length as nat, pos2, d.drop_first().drop_first()) is None);
                                            } else {
                                                assert(class_steps(rt, eg, results@, length as nat, i, d) == class_steps(rt, eg, results@, length as nat, i, d));
                                            }
                                        }
                                    }
                                }
                                d2 = d2 + 1;
                            }
                        }
                        proof {
                            reveal_with_fuel(class_steps, 3);
                            assert forall|d: Seq<usize>|
                                door_seq(d) && d[0] == d0 && d.len() >= 2 && d[1] < d1 + 1 implies #[trigger] walk_recorded(
                                *label_observation,
                                rt,
                                eg,
                                results@,
                                length as nat,
                                i,
                                d,
                            ) by {
                                if d[1] == d1 {
                                    if pos2 == NONE {
                                        assert(d.drop_first()[0] == d1);
                                        assert(class_steps(rt, eg, results@, length as nat, pos1, d.drop_first()) is None);
                                    } else if d.len() == 2 {
                                        assert(d =~= seq![d0, d1]);
                                    } else {
                                        assert(d[2] < 6);
                                        assert(class_steps(rt, eg, results@, length as nat, i, d) == class_steps(rt, eg, results@, length as nat, i, d));
                                    }
                                } else {
                                    assert(class_steps(rt, eg, results@, length as nat, i, d) == class_steps(rt, eg, results@, length as nat, i, d));
                                }
                            }
                        }
                        d1 = d1 + 1;
                    }
                }
                proof {
                    assert forall|d: Seq<usize>| door_seq(d) && d[0] < d0 + 1 implies #[trigger] walk_recorded(
                        *label_observation,
                        rt,
                        eg,
                        results@,
                        length as nat,
                        i,
                        d,
                    ) by {
                        if d[0] == d0 {
                            if pos1 == NONE {
                                assert(class_steps(rt, eg, results@, length as nat, i, d) is None);
                            } else if d.len() == 1 {
                                assert(d =~= seq![d0]);
                            } else {
                                assert(d[1] < 6);
                                assert(class_steps(rt, eg, results@, length as nat, i, d) == class_steps(rt, eg, results@, length as nat, i, d));
                            }
                        } else {
                            assert(class_steps(rt, eg, results@, length as nat, i, d) == class_steps(rt, eg, results@, length as nat, i, d));
                        }
                    }
                }
                d0 = d0 + 1;
            }
        }
        i = i + 1;
    }
}

/// Number of `false` among the first `k` entries of `row`.
pub open spec fn row_falses(row: Seq<bool>, k: int) -> nat
    decreases k,
{
    if k <= 0 {
        0
    } else {
        row_falses(row, k - 1) + if row[k - 1] {
            0nat
        } else {
            1nat
        }
    }
}

/// Number of `false` in the first `k` rows of `m`.
pub open spec fn matrix_falses(m: Seq<Vec<bool>>, k: int) -> nat
    decreases k,
{
    if k <= 0 {
        0
    } else {
        matrix_falses(m, k - 1) + row_falses(m[k - 1]@, m[k - 1]@.len() as int)
    }
}

pub proof fn lemma_row_falses_set(row: Seq<bool>, j: int, k: int)
    requires
        0 <= j < row.len(),
        0 <= k <= row.len(),
    ensures
        row_falses(row.update(j, true), k) + (if j < k && !row[j] { 1nat } else { 0nat }) == row_falses(row, k),
    decreases k,
{
    if k > 0 {
        lemma_row_falses_set(row, j, k - 1);
    }
}

pub proof fn lemma_matrix_falses_set(m: Seq<Vec<bool>>, m2: Seq<Vec<bool>>, i: int, j: int, k: int)
    requires
        0 <= i < m.len(),
        0 <= j < m[i]@.len(),
        0 <= k <= m.len(),
        m2.len() == m.len(),
        m2[i]@ == m[i]@.update(j, true),
        forall|r: int| 0 <= r < m.len() && r != i ==> #[trigger] m2[r] == m[r],
    ensures
        matrix_falses(m2, k) + (if i < k && !m[i]@[j] { 1nat } else { 0nat }) == matrix_falses(m, k),
    decreases k,
{
    if k > 0 {
        lemma_matrix_falses_set(m, m2, i, j, k - 1);
        if k - 1 == i {
            lemma_row_falses_set(m[i]@, j, m[i]@.len() as int);
        }
    }
}

/// An `n` by `n` matrix.
pub open spec fn square(m: Seq<Vec<bool>>, n: nat) -> bool {
    &&& m.len() == n
    &&& forall|i: int| 0 <= i < n ==> (#[trigger] m[i])@.len() == n
}

/// Within `depth` doors taken in step from `a` and from `b`, the two walks reach
/// positions marked as different, or showing different labels.
pub open spec fn distinct_within(
    roots: Seq<usize>,
    edges: Seq<Seq<usize>>,
    results: Seq<Vec<i8>>,
    length: nat,
    m: Seq<Vec<bool>>,
    a: usize,
    b: usize,
    depth: nat,
) -> bool
    decreases depth,
{
    depth > 0 && exists|d: usize|
        d < 6 && {
            let na = #[trigger] next_of(roots, edges, a, d);
            let nb = next_of(roots, edges, b, d);
            &&& na != NONE
            &&& nb != NONE
            &&& (m[na as int]@[nb as int] || label_at(results, length, na as int) != label_at(results, length, nb as int)
                || distinct_within(roots, edges, results, length, m, na, nb, (depth - 1) as nat))
        }
}

/// From each of the `n` positions, each door leads to a position or is unknown.
pub open spec fn next_in_range(roots: Seq<usize>, edges: Seq<Seq<usize>>, n: nat) -> bool {
    forall|x: usize, d: usize| x < n && d < 6 ==> #[trigger] next_of(roots, edges, x, d) == NONE || next_of(roots, edges, x, d) < n
}

proof fn lemma_next_in_range(u: UnionFind)
    requires
        u.wf(),
    ensures
        next_in_range(u.roots(), u.edges(), u.n()),
{
    u.lemma_wf_facts();
    assert forall|x: usize, d: usize| x < u.n() && d < 6 implies #[trigger] next_of(u.roots(), u.edges(), x, d) == NONE
        || next_of(u.roots(), u.edges(), x, d) < u.n() by {
        if u.edges()[x as int][d as int] != NONE {
            assert(u.edges()[x as int][d as int] < u.n());
        }
    }
}

/// More marks tell more positions apart.
pub proof fn lemma_distinct_within_mono(
    roots: Seq<usize>,
    edges: Seq<Seq<usize>>,
    results: Seq<Vec<i8>>,
    length: nat,
    m: Seq<Vec<bool>>,
    m2: Seq<Vec<bool>>,
    n: nat,
    a: usize,
    b: usize,
    depth: nat,
)
    requires
        square(m, n),
        square(m2, n),
        forall|i: int, j: int| 0 <= i < n && 0 <= j < n && #[trigger] m[i]@[j] ==> m2[i]@[j],
        next_in_range(roots, edges, n),
        a < n,
        b < n,
        distinct_within(roots, edges, results, length, m, a, b, depth),
    ensures
        distinct_within(roots, edges, results, length, m2, a, b, depth),
    decreases depth,
{
    let d = choose|d: usize|
        d < 6 && {
            let na = #[trigger] next_of(roots, edges, a, d);
            let nb = next_of(roots, edges, b, d);
            &&& na != NONE
            &&& nb != NONE
            &&& (m[na as int]@[nb as int] || label_at(results, length, na as int) != label_at(results, length, nb as int)
                || distinct_within(roots, edges, results, length, m, na, nb, (depth - 1) as nat))
        };
    let na = next_of(roots, edges, a, d);
    let nb = next_of(roots, edges, b, d);
    if !m[na as int]@[nb as int] && label_at(results, length, na as int) == label_at(results, length, nb as int) {
        lemma_distinct_within_mono(roots, edges, results, length, m, m2, n, na, nb, (depth - 1) as nat);
    }
}

/// Entry `(a, b)` may be marked by `check_different_group`: `a` and `b` are two
/// class representatives that `distinct_within` tells apart within three doors
/// under the marks `m`, the smaller one taken first.
pub open spec fn justified_mark(
    roots: Seq<usize>,
    edges: Seq<Seq<usize>>,
    results: Seq<Vec<i8>>,
    length: nat,
    m: Seq<Vec<bool>>,
    a: int,
    b: int,
) -> bool {
    &&& roots[a] == a
    &&& roots[b] == b
    &&& (a < b && distinct_within(roots, edges, results, length, m, a as usize, b as usize, 3)) || (b < a
        && distinct_within(roots, edges, results, length, m, b as usize, a as usize, 3))
}

/// Every mark of `m` was already in `m0` or is justified under `m`.
pub open spec fn marks_sound(
    roots: Seq<usize>,
    edges: Seq<Seq<usize>>,
    results: Seq<Vec<i8>>,
    length: nat,
    m0: Seq<Vec<bool>>,
    m: Seq<Vec<bool>>,
    n: nat,
) -> bool {
    forall|a: int, b: int|
        0 <= a < n && 0 <= b < n && #[trigger] m[a]@[b] ==> m0[a]@[b] || justified_mark(roots, edges, results, length, m, a, b)
}

/// `m` marks `a` apart from `b` exactly when it marks `b` apart from `a`.
pub open spec fn symmetric_marks(m: Seq<Vec<bool>>, n: nat) -> bool {
    forall|a: int, b: int| 0 <= a < n && 0 <= b < n ==> #[trigger] m[a]@[b] == m[b]@[a]
}

/// Every mark of `m1` is in `m2`.
pub open spec fn marks_within(m1: Seq<Vec<bool>>, m2: Seq<Vec<bool>>, n: nat) -> bool {
    forall|a: int, b: int| 0 <= a < n && 0 <= b < n && #[trigger] m1[a]@[b] ==> m2[a]@[b]
}

/// `m` holds the marks of `m0` and marks both ways every two class
/// representatives that `distinct_within` tells apart within three doors under `m`.
pub open spec fn marks_closed(
    roots: Seq<usize>,
    edges: Seq<Seq<usize>>,
    results: Seq<Vec<i8>>,
    length: nat,
    m0: Seq<Vec<bool>>,
    m: Seq<Vec<bool>>,
    n: nat,
) -> bool {
    &&& square(m, n)
    &&& marks_within(m0, m, n)
    &&& forall|i: usize, j: usize|
        i < j < n && roots[i as int] == i && roots[j as int] == j && #[trigger] distinct_within(roots, edges, results, length, m, i, j, 3)
            ==> m[i as int]@[j as int] && m[j as int]@[i as int]
}

/// Marking a pair that every closed set of marks holds keeps the marks within
/// each of them.
proof fn lemma_mark_within_closed(
    roots: Seq<usize>,
    edges: Seq<Seq<usize>>,
    results: Seq<Vec<i8>>,
    length: nat,
    m0: Seq<Vec<bool>>,
    m: Seq<Vec<bool>>,
    m2: Seq<Vec<bool>>,
    c: Seq<Vec<bool>>,
    n: nat,
    i: usize,
    j: usize,
)
    requires
        square(m, n),
        next_in_range(roots, edges, n),
        i < j < n,
        roots[i as int] == i,
        roots[j as int] == j,
        distinct_within(roots, edges, results, length, m, i, j, 3),
        marks_closed(roots, edges, results, length, m0, c, n),
        marks_within(m, c, n),
        forall|a: int, b: int|
            0 <= a < n && 0 <= b < n ==> #[trigger] m2[a]@[b] == (m[a]@[b] || (a == i && b == j) || (a == j && b == i)),
    ensures
        marks_within(m2, c, n),
{
    lemma_distinct_within_mono(roots, edges, results, length, m, c, n, i, j, 3);
}

/// Marking a justified pair both ways keeps all marks justified.
proof fn lemma_mark_pair(
    roots: Seq<usize>,
    edges: Seq<Seq<usize>>,
    results: Seq<Vec<i8>>,
    length: nat,
    m0: Seq<Vec<bool>>,
    m: Seq<Vec<bool>>,
    m2: Seq<Vec<bool>>,
    n: nat,
    i: usize,
    j: usize,
)
    requires
        square(m, n),
        square(m2, n),
        next_in_range(roots, edges, n),
        i < j < n,
        roots[i as int] == i,
        roots[j as int] == j,
        distinct_within(roots, edges, results, length, m, i, j, 3),
        marks_sound(roots, edges, results, length, m0, m, n),
        forall|a: int, b: int|
            0 <= a < n && 0 <= b < n ==> #[trigger] m2[a]@[b] == (m[a]@[b] || (a == i && b == j) || (a == j && b == i)),
    ensures
        marks_sound(roots, edges, results, length, m0, m2, n),
{
    assert forall|a: int, b: int| 0 <= a < n && 0 <= b < n && #[trigger] m[a]@[b] implies m2[a]@[b] by {}
    lemma_distinct_within_mono(roots, edges, results, length, m, m2, n, i, j, 3);
    assert forall|a: int, b: int|
        0 <= a < n && 0 <= b < n && #[trigger] m2[a]@[b] implies m0[a]@[b] || justified_mark(
        roots,
        edges,
        results,
        length,
        m2,
        a,
        b,
    ) by {
        if m[a]@[b] && !m0[a]@[b] {
            assert(justified_mark(roots, edges, results, length, m, a, b));
            if a < b {
                lemma_distinct_within_mono(roots, edges, results, length, m, m2, n, a as usize, b as usize, 3);
            } else {
                lemma_distinct_within_mono(roots, edges, results, length, m, m2, n, b as usize, a as usize, 3);
            }
        }
    }
}

/// Whether `idx0` and `idx1` are told apart within `depth` steps (see `distinct_within`).
fn check_different_group_impl(
    results: &[Vec<i8>],
    uf: &mut UnionFind,
    is_different_group: &Vec<Vec<bool>>,
    idx0: usize,
    idx1: usize,
    depth: usize,
) -> (res: bool)
    requires
        walks_ok(results@, results@[0]@.len()),
        old(uf).wf(),
        old(uf).n() == results@.len() * results@[0]@.len(),
        square(is_different_group@, old(uf).n()),
        idx0 < old(uf).n(),
        idx1 < old(uf).n(),
    ensures
        final(uf).wf(),
        final(uf).same_classes(old(uf)),
        final(uf).num_classes() == old(uf).num_classes(),
        res == distinct_within(
            old(uf).roots(),
            old(uf).edges(),
            results@,
            results@[0]@.len(),
            is_different_group@,
            idx0,
            idx1,
            depth as nat,
        ),
    decreases depth,
{
    let ghost roots = uf.roots();
    let ghost edges = uf.edges();
    let ghost length = results@[0]@.len();
    let ghost m = is_different_group@;
    if depth == 0 {
        return false;
    }
    let length = results[0].len();
    let mut d0: usize = 0;
    while d0 < 6
        invariant
            walks_ok(results@, length as nat),
            uf.wf(),
            uf.same_classes(old(uf)),
            uf.num_classes() == old(uf).num_classes(),
            uf.n() == results@.len() * length,
            roots == old(uf).roots(),
            edges == old(uf).edges(),
            m == is_different_group@,
            square(m, uf.n()),
            idx0 < uf.n(),
            idx1 < uf.n(),
            depth > 0,
            d0 <= 6,
            forall|d: usize| d < d0 ==> !{
                let na = #[trigger] next_of(roots, edges, idx0, d);
                let nb = next_of(roots, edges, idx1, d);
                &&& na != NONE
                &&& nb != NONE
                &&& (m[na as int]@[nb as int] || label_at(results@, length as nat, na as int) != label_at(results@, length as nat, nb as int)
                    || distinct_within(roots, edges, results@, length as nat, m, na, nb, (depth - 1) as nat))
            },
        decreases 6 - d0,
    {
        let pos1_1 = uf.get_next(idx0, d0);
        let pos2_1 = uf.get_next(idx1, d0);
        if pos1_1 != NONE && pos2_1 != NONE {
            if is_different_group[pos1_1][pos2_1] {
                return true;
            }
            let label1_1 = label_of(results, length, pos1_1);
            let label2_1 = label_of(results, length, pos2_1);
            if label1_1 != label2_1 {
                return true;
            }
            if check_different_group_impl(results, uf, is_different_group, pos1_1, pos2_1, depth - 1) {
                return true;
            }
        }
        d0 = d0 + 1;
    }
    false
}

/// Marks as different, until nothing changes, every two class representatives
/// that walks of up to three doors tell apart. Marks are only ever added.
pub fn check_different_group(results: &[Vec<i8>], uf: &mut UnionFind, is_different_group: &mut Vec<Vec<bool>>)
    requires
        walks_ok(results@, results@[0]@.len()),
        old(uf).wf(),
        old(uf).n() == results@.len() * results@[0]@.len(),
        square(old(is_different_group)@, old(uf).n()),
    ensures
        marks_step(*old(uf), *final(uf), old(is_different_group)@, final(is_different_group)@, results@, results@[0]@.len()),
        final(uf).wf(),
        final(uf).same_classes(old(uf)),
        final(uf).num_classes() == old(uf).num_classes(),
        square(final(is_different_group)@, old(uf).n()),
        forall|i: int, j: int|
            0 <= i < old(uf).n() && 0 <= j < old(uf).n() && #[trigger] old(is_different_group)@[i]@[j]
                ==> final(is_different_group)@[i]@[j],
        forall|i: usize, j: usize|
            i < j < old(uf).n() && old(uf).roots()[i as int] == i && old(uf).roots()[j as int] == j
                ==> #[trigger] final(is_different_group)@[i as int]@[j as int] || !distinct_within(
                old(uf).roots(),
                old(uf).edges(),
                results@,
                results@[0]@.len(),
                final(is_different_group)@,
                i,
                j,
                3,
            ),
        marks_sound(
            old(uf).roots(),
            old(uf).edges(),
            results@,
            results@[0]@.len(),
            old(is_different_group)@,
            final(is_different_group)@,
            old(uf).n(),
        ),
        forall|c: Seq<Vec<bool>>|
            #[trigger] marks_closed(old(uf).roots(), old(uf).edges(), results@, results@[0]@.len(), old(is_different_group)@, c, old(uf).n())
                ==> marks_within(final(is_different_group)@, c, old(uf).n()),
        symmetric_marks(old(is_different_group)@, old(uf).n()) ==> symmetric_marks(final(is_different_group)@, old(uf).n())
            && marks_closed(
            old(uf).roots(),
            old(uf).edges(),
            results@,
            results@[0]@.len(),
            old(is_different_group)@,
            final(is_different_group)@,
            old(uf).n(),
        ),
{
    let n = uf.whole_size();
    let ghost m0 = is_different_group@;
    proof {
        lemma_next_in_range(*old(uf));
    }
    let mut updated = true;
    while updated
        invariant
            walks_ok(results@, results@[0]@.len()),
            uf.wf(),
            uf.same_classes(old(uf)),
            uf.num_classes() == old(uf).num_classes(),
            uf.n() == n,
            n == results@.len() * results@[0]@.len(),
            square(is_different_group@, n as nat),
            m0 == old(is_different_group)@,
            symmetric_marks(m0, n as nat) ==> symmetric_marks(is_different_group@, n as nat),
            marks_sound(old(uf).roots(), old(uf).edges(), results@, results@[0]@.len(), m0, is_different_group@, n as nat),
            next_in_range(old(uf).roots(), old(uf).edges(), n as nat),
            forall|c: Seq<Vec<bool>>|
                #[trigger] marks_closed(old(uf).roots(), old(uf).edges(), results@, results@[0]@.len(), m0, c, n as nat) ==> marks_within(
                    is_different_group@,
                    c,
                    n as nat,
                ),
            forall|i: int, j: int| 0 <= i < n && 0 <= j < n && #[trigger] m0[i]@[j] ==> is_different_group@[i]@[j],
            !updated ==> forall|i: usize, j: usize|
                i < j < n && old(uf).roots()[i as int] == i && old(uf).roots()[j as int] == j
                    ==> #[trigger] is_different_group@[i as int]@[j as int] || !distinct_within(
                    old(uf).roots(),
                    old(uf).edges(),
                    results@,
                    results@[0]@.len(),
                    is_different_group@,
                    i,
                    j,
                    3,
                ),
        decreases matrix_falses(is_different_group@, n as int) + if updated { 1nat } else { 0nat },
    {
        updated = false;
        let ghost start = is_different_group@;
        let mut i: usize = 0;
        while i < n
            invariant
                walks_ok(results@, results@[0]@.len()),
                uf.wf(),
                uf.same_classes(old(uf)),
                uf.num_classes() == old(uf).num_classes(),
                uf.n() == n,
                n == results@.len() * results@[0]@.len(),
                square(is_different_group@, n as nat),
                m0 == old(is_different_group)@,
            symmetric_marks(m0, n as nat) ==> symmetric_marks(is_different_group@, n as nat),
                marks_sound(old(uf).roots(), old(uf).edges(), results@, results@[0]@.len(), m0, is_different_group@, n as nat),
                next_in_range(old(uf).roots(), old(uf).edges(), n as nat),
                forall|c: Seq<Vec<bool>>|
                    #[trigger] marks_closed(old(uf).roots(), old(uf).edges(), results@, results@[0]@.len(), m0, c, n as nat) ==> marks_within(
                        is_different_group@,
                        c,
                        n as nat,
                    ),
                forall|a: int, b: int| 0 <= a < n && 0 <= b < n && #[trigger] m0[a]@[b] ==> is_different_group@[a]@[b],
                i <= n,
                updated ==> matrix_falses(is_different_group@, n as int) < matrix_falses(start, n as int),
                !updated ==> is_different_group@ == start,
                !updated ==> forall|a: usize, b: usize|
                    a < i && a < b < n && old(uf).roots()[a as int] == a && old(uf).roots()[b as int] == b
                        ==> #[trigger] is_different_group@[a as int]@[b as int] || !distinct_within(
                        old(uf).roots(),
                        old(uf).edges(),
                        results@,
                        results@[0]@.len(),
                        is_different_group@,
                        a,
                        b,
                        3,
                    ),
            decreases n - i,
        {
            if uf.find(i) == i {
                let mut j: usize = i + 1;
                while j < n
                    invariant
                        walks_ok(results@, results@[0]@.len()),
                        uf.wf(),
                        uf.same_classes(old(uf)),
                        uf.num_classes() == old(uf).num_classes(),
                        uf.n() == n,
                        n == results@.len() * results@[0]@.len(),
                        square(is_different_group@, n as nat),
                        m0 == old(is_different_group)@,
            symmetric_marks(m0, n as nat) ==> symmetric_marks(is_different_group@, n as nat),
                        marks_sound(old(uf).roots(), old(uf).edges(), results@, results@[0]@.len(), m0, is_different_group@, n as nat),
                        next_in_range(old(uf).roots(), old(uf).edges(), n as nat),
                        forall|c: Seq<Vec<bool>>|
                            #[trigger] marks_closed(old(uf).roots(), old(uf).edges(), results@, results@[0]@.len(), m0, c, n as nat) ==> marks_within(
                                is_different_group@,
                                c,
                                n as nat,
                            ),
                        forall|a: int, b: int| 0 <= a < n && 0 <= b < n && #[trigger] m0[a]@[b] ==> is_different_group@[a]@[b],
                        i < n,
                        i < j <= n,
                        old(uf).roots()[i as int] == i,
                        updated ==> matrix_falses(is_different_group@, n as int) < matrix_falses(start, n as int),
                        !updated ==> is_different_group@ == start,
                        !updated ==> forall|a: usize, b: usize|
                            a < i && a < b < n && old(uf).roots()[a as int] == a && old(uf).roots()[b as int] == b
                                ==> #[trigger] is_different_group@[a as int]@[b as int] || !distinct_within(
                                old(uf).roots(),
                                old(uf).edges(),
                                results@,
                                results@[0]@.len(),
                                is_different_group@,
                                a,
                                b,
                                3,
                            ),
                        !updated ==> forall|b: usize|
                            i < b < j && old(uf).roots()[b as int] == b
                                ==> #[trigger] is_different_group@[i as int]@[b as int] || !distinct_within(
                                old(uf).roots(),
                                old(uf).edges(),
                                results@,
                                results@[0]@.len(),
                                is_different_group@,
                                i,
                                b,
                                3,
                            ),
                    decreases n - j,
                {
                    if !is_different_group[i][j] && uf.find(j) == j {
                        if check_different_group_impl(results, uf, is_different_group, i, j, 3) {
                            let ghost before = is_different_group@;
                            is_different_group[i][j] = true;
                            let ghost mid = is_different_group@;
                            proof {
                                lemma_matrix_falses_set(before, mid, i as int, j as int, n as int);
                            }
                            is_different_group[j][i] = true;
                            proof {
                                lemma_matrix_falses_set(mid, is_different_group@, j as int, i as int, n as int);
                                let m2 = is_different_group@;
                                assert forall|a: int, b: int| 0 <= a < n && 0 <= b < n implies #[trigger] m2[a]@[b] == (before[a]@[b]
                                    || (a == i && b == j) || (a == j && b == i)) by {
                                    if a != i && a != j {
                                        assert(m2[a] == before[a]);
                                    }
                                }
                                lemma_mark_pair(
                                    old(uf).roots(),
                                    old(uf).edges(),
                                    results@,
                                    results@[0]@.len(),
                                    m0,
                                    before,
                                    m2,
                                    n as nat,
                                    i,
                                    j,
                                );
                                assert forall|c: Seq<Vec<bool>>|
                                    #[trigger] marks_closed(old(uf).roots(), old(uf).edges(), results@, results@[0]@.len(), m0, c, n as nat)
                                        implies marks_within(m2, c, n as nat) by {
                                    lemma_mark_within_closed(
                                        old(uf).roots(),
                                        old(uf).edges(),
                                        results@,
                                        results@[0]@.len(),
                                        m0,
                                        before,
                                        m2,
                                        c,
                                        n as nat,
                                        i,
                                        j,
                                    );
                                }
                            }
                            updated = true;
                        }
                    }
                    j = j + 1;
                }
            }
            i = i + 1;
        }
    }
    proof {
        if symmetric_marks(m0, n as nat) {
            let fm = is_different_group@;
            assert forall|i: usize, j: usize|
                i < j < n && old(uf).roots()[i as int] == i && old(uf).roots()[j as int] == j && #[trigger] distinct_within(
                    old(uf).roots(),
                    old(uf).edges(),
                    results@,
                    results@[0]@.len(),
                    fm,
                    i,
                    j,
                    3,
                ) implies fm[i as int]@[j as int] && fm[j as int]@[i as int] by {
                assert(fm[i as int]@[j as int]);
                assert(fm[i as int]@[j as int] == fm[j as int]@[i as int]);
            }
        }
    }
}

/// The class representatives, each once, from the largest class to the smallest.
pub fn roots_by_size(uf: &mut UnionFind) -> (res: Vec<usize>)
    requires
        old(uf).wf(),
    ensures
        final(uf).wf(),
        final(uf).same_classes(old(uf)),
        final(uf).num_classes() == old(uf).num_classes(),
        res@.no_duplicates(),
        forall|k: int| 0 <= k < res@.len() ==> #[trigger] res@[k] < old(uf).n() && old(uf).roots()[res@[k] as int] == res@[k],
        forall|r: int| 0 <= r < old(uf).n() && old(uf).roots()[r] == r ==> #[trigger] res@.contains(r as usize),
        forall|a: int, b: int|
            0 <= a < b < res@.len() ==> old(uf).class_size(#[trigger] res@[a]) >= old(uf).class_size(#[trigger] res@[b]),
        forall|a: int, b: int|
            0 <= a < b < res@.len() && old(uf).class_size(#[trigger] res@[a]) == old(uf).class_size(#[trigger] res@[b])
                ==> res@[a] > res@[b],
        res@.len() == old(uf).num_classes(),
{
    let n = uf.whole_size();
    let mut roots: Vec<usize> = Vec::new();
    let mut keys: Vec<usize> = Vec::new();
    let mut i: usize = 0;
    proof {
        uf.lemma_wf_facts();
    }
    while i < n
        invariant
            uf.wf(),
            uf.same_classes(old(uf)),
            uf.num_classes() == old(uf).num_classes(),
            uf.n() == n,
            i <= n,
            keys@.len() == i,
            forall|q: int| 0 <= q < i ==> #[trigger] keys@[q] == old(uf).class_size(old(uf).roots()[q]),
            roots@.no_duplicates(),
            forall|k: int| 0 <= k < roots@.len() ==> #[trigger] roots@[k] < i && old(uf).roots()[roots@[k] as int] == roots@[k],
            forall|r: int| 0 <= r < i && old(uf).roots()[r] == r ==> #[trigger] roots@.contains(r as usize),
            forall|a: int, b: int| 0 <= a < b < roots@.len() ==> #[trigger] roots@[a] < #[trigger] roots@[b],
            roots@.len() == count_roots(old(uf).roots(), i as int),
        decreases n - i,
    {
        let r = uf.find(i);
        let sz = uf.get_size(i);
        keys.push(sz);
        if r == i {
            let ghost before = roots@;
            roots.push(i);
            proof {
                assert forall|a: int, b: int| 0 <= a < b < roots@.len() implies roots@[a] != roots@[b] by {
                    if b == before.len() {
                        assert(roots@[a] == before[a]);
                    } else {
                        assert(roots@[a] == before[a] && roots@[b] == before[b]);
                    }
                }
                assert forall|q: int| 0 <= q < i + 1 && old(uf).roots()[q] == q implies #[trigger] roots@.contains(q as usize) by {
                    if q == i {
                        assert(roots@[before.len() as int] == i);
                    } else {
                        assert(before.contains(q as usize));
                        let k = choose|k: int| 0 <= k < before.len() && before[k] == q as usize;
                        assert(roots@[k] == before[k]);
                    }
                }
            }
        } else {
            proof {
                assert forall|q: int| 0 <= q < i + 1 && old(uf).roots()[q] == q implies #[trigger] roots@.contains(q as usize) by {
                    if q == i {
                        assert(r == old(uf).roots()[i as int]);
                    }
                }
            }
        }
        i = i + 1;
    }
    let ghost before_sort = roots@;
    sort_by_keys(&mut roots, &keys);
    proof {
        old(uf).lemma_num_classes();
        assert forall|a: int, b: int|
            0 <= a < b < roots@.len() && keys@[#[trigger] roots@[a] as int] == keys@[#[trigger] roots@[b] as int] implies roots@[a]
            < roots@[b] by {
            let (i, j) = choose|i: int, j: int|
                0 <= i < j < before_sort.len() && #[trigger] before_sort[i] == roots@[a] && #[trigger] before_sort[j] == roots@[b];
            assert(before_sort[i] < before_sort[j]);
        }
        before_sort.lemma_multiset_has_no_duplicates();
        assert forall|x: usize| roots@.to_multiset().contains(x) implies roots@.to_multiset().count(x) == 1 by {}
        roots@.lemma_multiset_has_no_duplicates_conv();
        assert forall|k: int| 0 <= k < roots@.len() implies #[trigger] roots@[k] < n && old(uf).roots()[roots@[k] as int] == roots@[k] by {
            assert(roots@.contains(roots@[k]));
            vstd::seq_lib::to_multiset_contains(roots@, roots@[k]);
            vstd::seq_lib::to_multiset_contains(before_sort, roots@[k]);
            assert(before_sort.contains(roots@[k]));
        }
        assert forall|q: int| 0 <= q < n && old(uf).roots()[q] == q implies #[trigger] roots@.contains(q as usize) by {
            assert(before_sort.contains(q as usize));
            vstd::seq_lib::to_multiset_contains(roots@, q as usize);
            vstd::seq_lib::to_multiset_contains(before_sort, q as usize);
        }
    }
    let res = reversed(&roots);
    proof {
        assert forall|k: int| 0 <= k < res@.len() implies res@[k] == roots@[roots@.len() - 1 - k] by {}
        assert forall|a: int, b: int| 0 <= a < b < res@.len() implies res@[a] != res@[b] by {}
        assert forall|q: int| 0 <= q < n && old(uf).roots()[q] == q implies #[trigger] res@.contains(q as usize) by {
            assert(roots@.contains(q as usize));
            let k = choose|k: int| 0 <= k < roots@.len() && roots@[k] == q as usize;
            assert(res@[roots@.len() - 1 - k] == q);
        }
        assert forall|a: int, b: int|
            0 <= a < b < res@.len() implies old(uf).class_size(#[trigger] res@[a]) >= old(uf).class_size(#[trigger] res@[b]) by {
            let ra = roots@[roots@.len() - 1 - a];
            let rb = roots@[roots@.len() - 1 - b];
            assert(keys@[rb as int] <= keys@[ra as int]);
            assert(old(uf).roots()[ra as int] == ra);
            assert(old(uf).roots()[rb as int] == rb);
        }
        assert forall|a: int, b: int|
            0 <= a < b < res@.len() && old(uf).class_size(#[trigger] res@[a]) == old(uf).class_size(#[trigger] res@[b])
                implies res@[a] > res@[b] by {
            let ra = roots@[roots@.len() - 1 - a];
            let rb = roots@[roots@.len() - 1 - b];
            assert(old(uf).roots()[ra as int] == ra);
            assert(old(uf).roots()[rb as int] == rb);
            assert(keys@[rb as int] == keys@[ra as int]);
            assert(rb < ra);
        }
    }
    res
}

/// Number of the first `k` entries of `members` whose mark in `marks` is off.
pub open spec fn count_unmarked(members: Seq<usize>, marks: Seq<bool>, k: int) -> nat
    decreases k,
{
    if k <= 0 {
        0
    } else {
        count_unmarked(members, marks, k - 1) + if marks[members[k - 1] as int] {
            0nat
        } else {
            1nat
        }
    }
}

/// The entry of `members` whose mark in `marks` is off, when exactly one entry's
/// is; else `NONE`.
pub open spec fn sole_unmarked(members: Seq<usize>, marks: Seq<bool>) -> usize {
    if count_unmarked(members, marks, members.len() as int) == 1 {
        members[choose|z: int| 0 <= z < members.len() && !marks[members[z] as int]]
    } else {
        NONE
    }
}

proof fn lemma_count_unmarked_single(members: Seq<usize>, marks: Seq<bool>, k: int, z1: int, z2: int)
    requires
        0 <= k <= members.len(),
        count_unmarked(members, marks, k) <= 1,
        0 <= z1 < k,
        0 <= z2 < k,
        !marks[members[z1] as int],
        !marks[members[z2] as int],
    ensures
        z1 == z2,
    decreases k,
{
    if z1 < k - 1 && z2 < k - 1 {
        lemma_count_unmarked_single(members, marks, k - 1, z1, z2);
    } else if z1 < k - 1 {
        lemma_count_unmarked_pos(members, marks, k - 1, z1);
    } else if z2 < k - 1 {
        lemma_count_unmarked_pos(members, marks, k - 1, z2);
    }
}

proof fn lemma_count_unmarked_pos(members: Seq<usize>, marks: Seq<bool>, k: int, z: int)
    requires
        0 <= z < k,
        !marks[members[z] as int],
    ensures
        count_unmarked(members, marks, k) >= 1,
    decreases k,
{
    if z < k - 1 {
        lemma_count_unmarked_pos(members, marks, k - 1, z);
    }
}

/// The entry of `members` not marked in `marks`, if exactly one is; else `NONE`.
pub fn sole_unmarked_member(members: &Vec<usize>, marks: &Vec<bool>) -> (res: usize)
    requires
        forall|z: int| 0 <= z < members@.len() ==> #[trigger] members@[z] < marks@.len(),
    ensures
        res == sole_unmarked(members@, marks@),
        res != NONE ==> members@.contains(res),
{
    let mut target: usize = NONE;
    let mut z: usize = 0;
    while z < members.len()
        invariant
            forall|q: int| 0 <= q < members@.len() ==> #[trigger] members@[q] < marks@.len(),
            z <= members@.len(),
            count_unmarked(members@, marks@, z as int) <= 1,
            count_unmarked(members@, marks@, z as int) == 0 ==> target == NONE,
            count_unmarked(members@, marks@, z as int) == 1 ==> target != NONE,
            marks@.len() == marks.len(),
            count_unmarked(members@, marks@, z as int) == 1 ==> exists|q: int|
                0 <= q < z && !marks@[members@[q] as int] && #[trigger] members@[q] == target,
        decreases members@.len() - z,
    {
        let m = members[z];
        if !marks[m] {
            if target == NONE {
                target = m;
                proof {
                    assert(members@[z as int] == target);
                }
            } else {
                proof {
                    let q = choose|q: int| 0 <= q < z && !marks@[members@[q] as int] && #[trigger] members@[q] == target;
                    lemma_count_unmarked_pos(members@, marks@, z as int, q);
                    assert(count_unmarked(members@, marks@, z as int + 1) == 2);
                    assert(count_unmarked(members@, marks@, members@.len() as int) >= 2) by {
                        lemma_count_unmarked_mono(members@, marks@, z as int + 1, members@.len() as int);
                    }
                }
                return NONE;
            }
        }
        z = z + 1;
    }
    proof {
        if count_unmarked(members@, marks@, members@.len() as int) == 1 {
            let q = choose|q: int| 0 <= q < z && !marks@[members@[q] as int] && #[trigger] members@[q] == target;
            let c = choose|c: int| 0 <= c < members@.len() && !marks@[members@[c] as int];
            lemma_count_unmarked_single(members@, marks@, members@.len() as int, q, c);
            assert(members@.contains(target));
        }
    }
    target
}

proof fn lemma_count_unmarked_mono(members: Seq<usize>, marks: Seq<bool>, k: int, m: int)
    requires
        0 <= k <= m,
    ensures
        count_unmarked(members, marks, k) <= count_unmarked(members, marks, m),
    decreases m - k,
{
    if k < m {
        lemma_count_unmarked_mono(members, marks, k, m - 1);
    }
}

/// The positions that the walk from `p` along the doors of `actions` reaches
/// among the classes given by `roots` and `edges`.
pub open spec fn walk_positions(roots: Seq<usize>, edges: Seq<Seq<usize>>, p: usize, actions: Seq<Action>) -> Seq<usize> {
    Seq::new(actions.len(), |i: int| walk_at(roots, edges, p, actions.map_values(|a: Action| a.door), i))
}

/// Position `p` shows the label that `actions` starts from, and the walk from it
/// along `actions` fits the walks, ending on `label` (see `path_fits`).
pub open spec fn fits_from(
    roots: Seq<usize>,
    edges: Seq<Seq<usize>>,
    results: Seq<Vec<i8>>,
    length: nat,
    p: usize,
    actions: Seq<Action>,
    label: usize,
) -> bool {
    &&& label_at(results, length, p as int) as int == actions[0].label as int
    &&& path_fits(results, length, walk_positions(roots, edges, p, actions), actions, label)
}

/// Whether `fits_from` holds for position `p`.
pub fn path_fits_from(results: &[Vec<i8>], uf: &mut UnionFind, p: usize, actions: &Vec<Action>, label: usize) -> (res: bool)
    requires
        walks_ok(results@, results@[0]@.len()),
        old(uf).wf(),
        old(uf).n() == results@.len() * results@[0]@.len(),
        p < old(uf).n(),
        1 <= actions@.len(),
        forall|i: int| 0 <= i < actions@.len() ==> #[trigger] actions@[i].door < 6,
    ensures
        final(uf).wf(),
        final(uf).same_classes(old(uf)),
        final(uf).num_classes() == old(uf).num_classes(),
        res == fits_from(old(uf).roots(), old(uf).edges(), results@, results@[0]@.len(), p, actions@, label),
{
    let length = results[0].len();
    if !label_is(results, length, p, actions[0].label) {
        return false;
    }
    let path = uf.get_path(p, actions.as_slice());
    proof {
        assert(path@ =~= walk_positions(old(uf).roots(), old(uf).edges(), p, actions@));
    }
    check_path(results, length, &path, actions, label)
}

/// The representatives among the first `k` positions from which the walk along
/// `actions` fits, ending on `label`, in order.
pub open spec fn fitting_reps(
    roots: Seq<usize>,
    edges: Seq<Seq<usize>>,
    results: Seq<Vec<i8>>,
    length: nat,
    actions: Seq<Action>,
    label: usize,
    k: int,
) -> Seq<usize>
    decreases k,
{
    if k <= 0 {
        Seq::empty()
    } else {
        let prev = fitting_reps(roots, edges, results, length, actions, label, k - 1);
        if roots[k - 1] == k - 1 && fits_from(roots, edges, results, length, (k - 1) as usize, actions, label) {
            prev.push((k - 1) as usize)
        } else {
            prev
        }
    }
}

/// For the first `u` entries of `entries` that start with label `x` and door `y`,
/// in order, the representatives from which they fit (see `fitting_reps`).
pub open spec fn door_group(
    roots: Seq<usize>,
    edges: Seq<Seq<usize>>,
    results: Seq<Vec<i8>>,
    length: nat,
    entries: Seq<(Vec<Action>, usize)>,
    x: usize,
    y: usize,
    u: int,
) -> Seq<usize>
    decreases u,
{
    if u <= 0 {
        Seq::empty()
    } else {
        let prev = door_group(roots, edges, results, length, entries, x, y, u - 1);
        let e = entries[u - 1];
        if e.0@[0].label == x && e.0@[0].door == y {
            prev + fitting_reps(roots, edges, results, length, e.0@, e.1, (results.len() * length) as int)
        } else {
            prev
        }
    }
}

/// For each label `x` and door `y`, the representatives from which the unique
/// paths starting with label `x` and door `y` fit (see `door_group`).
pub fn door_groups(results: &[Vec<i8>], uf: &mut UnionFind, unique_paths: &Vec<(Vec<Action>, usize)>) -> (groups: Vec<
    Vec<Vec<usize>>,
>)
    requires
        walks_ok(results@, results@[0]@.len()),
        old(uf).wf(),
        old(uf).n() == results@.len() * results@[0]@.len(),
        forall|k: int|
            0 <= k < unique_paths@.len() ==> 1 <= (#[trigger] unique_paths@[k]).0@.len() && unique_paths@[k].0@[0].label < 4,
        forall|k: int, i: int|
            0 <= k < unique_paths@.len() && 0 <= i < unique_paths@[k].0@.len() ==> #[trigger] unique_paths@[k].0@[i].door < 6,
    ensures
        final(uf).wf(),
        final(uf).same_classes(old(uf)),
        final(uf).num_classes() == old(uf).num_classes(),
        groups@.len() == 4,
        forall|x: int| 0 <= x < 4 ==> (#[trigger] groups@[x])@.len() == 6,
        forall|x: int, y: int|
            0 <= x < 4 && 0 <= y < 6 ==> (#[trigger] groups@[x]@[y])@ == door_group(
                old(uf).roots(),
                old(uf).edges(),
                results@,
                results@[0]@.len(),
                unique_paths@,
                x as usize,
                y as usize,
                unique_paths@.len() as int,
            ),
        forall|x: int, y: int, z: int|
            0 <= x < 4 && 0 <= y < 6 && 0 <= z < groups@[x]@[y]@.len() ==> #[trigger] groups@[x]@[y]@[z] < old(uf).n(),
{
    let length = results[0].len();
    let rows = results.len();
    let n = rows * length;
    let ghost rt = old(uf).roots();
    let ghost eg = old(uf).edges();
    let ghost up = unique_paths@;
    let mut div_groups: Vec<Vec<Vec<usize>>> = Vec::new();
    let mut a: usize = 0;
    while a < 4
        invariant
            a <= 4,
            div_groups@.len() == a,
            forall|x: int| 0 <= x < a ==> (#[trigger] div_groups@[x])@.len() == 6,
            forall|x: int, y: int| 0 <= x < a && 0 <= y < 6 ==> (#[trigger] div_groups@[x]@[y])@.len() == 0,
        decreases 4 - a,
    {
        let mut row: Vec<Vec<usize>> = Vec::new();
        let mut b: usize = 0;
        while b < 6
            invariant
                b <= 6,
                row@.len() == b,
                forall|y: int| 0 <= y < b ==> (#[trigger] row@[y])@.len() == 0,
            decreases 6 - b,
        {
            row.push(Vec::new());
            b = b + 1;
        }
        div_groups.push(row);
        a = a + 1;
    }
    proof {
        assert forall|x: int, y: int| 0 <= x < 4 && 0 <= y < 6 implies (#[trigger] div_groups@[x]@[y])@ == door_group(
            rt,
            eg,
            results@,
            length as nat,
            up,
            x as usize,
            y as usize,
            0,
        ) by {
            assert(div_groups@[x]@[y]@ =~= Seq::<usize>::empty());
        }
    }
    let mut u: usize = 0;
    while u < unique_paths.len()
        invariant
            walks_ok(results@, length as nat),
            length == results@[0]@.len(),
            rows == results@.len(),
            n == rows * length,
            uf.wf(),
            uf.same_classes(old(uf)),
            uf.num_classes() == old(uf).num_classes(),
            uf.n() == n,
            rt == old(uf).roots(),
            eg == old(uf).edges(),
            up == unique_paths@,
            u <= up.len(),
            forall|k: int| 0 <= k < up.len() ==> 1 <= (#[trigger] up[k]).0@.len() && up[k].0@[0].label < 4,
            forall|k: int, i: int| 0 <= k < up.len() && 0 <= i < up[k].0@.len() ==> #[trigger] up[k].0@[i].door < 6,
            div_groups@.len() == 4,
            forall|x: int| 0 <= x < 4 ==> (#[trigger] div_groups@[x])@.len() == 6,
            forall|x: int, y: int, z: int|
                0 <= x < 4 && 0 <= y < 6 && 0 <= z < div_groups@[x]@[y]@.len() ==> #[trigger] div_groups@[x]@[y]@[z] < n,
            forall|x: int, y: int|
                0 <= x < 4 && 0 <= y < 6 ==> (#[trigger] div_groups@[x]@[y])@ == door_group(
                    rt,
                    eg,
                    results@,
                    length as nat,
                    up,
                    x as usize,
                    y as usize,
                    u as int,
                ),
        decreases up.len() - u,
    {
        let actions = &unique_paths[u].0;
        let label = unique_paths[u].1;
        let ex = actions[0].label;
        let ey = actions[0].door;
        proof {
            assert(up[u as int].0@ == actions@);
            assert(ey < 6);
        }
        let ghost g0 = div_groups@;
        let mut k1: usize = 0;
        while k1 < rows
            invariant
                walks_ok(results@, length as nat),
                length == results@[0]@.len(),
                rows == results@.len(),
                n == rows * length,
                uf.wf(),
                uf.same_classes(old(uf)),
                uf.num_classes() == old(uf).num_classes(),
                uf.n() == n,
                rt == old(uf).roots(),
                eg == old(uf).edges(),
                k1 <= rows,
                1 <= actions@.len(),
                forall|i: int| 0 <= i < actions@.len() ==> #[trigger] actions@[i].door < 6,
                ex < 4,
                ey < 6,
                div_groups@.len() == 4,
                forall|x: int| 0 <= x < 4 ==> (#[trigger] div_groups@[x])@.len() == 6,
                forall|x: int, y: int, z: int|
                    0 <= x < 4 && 0 <= y < 6 && 0 <= z < div_groups@[x]@[y]@.len() ==> #[trigger] div_groups@[x]@[y]@[z] < n,
                forall|x: int, y: int|
                    0 <= x < 4 && 0 <= y < 6 && !(x == ex && y == ey) ==> (#[trigger] div_groups@[x]@[y])@ == g0[x]@[y]@,
                div_groups@[ex as int]@[ey as int]@ == g0[ex as int]@[ey as int]@ + fitting_reps(
                    rt,
                    eg,
                    results@,
                    length as nat,
                    actions@,
                    label,
                    (k1 * length) as int,
                ),
            decreases rows - k1,
        {
            let mut i1: usize = 0;
            while i1 < length
                invariant
                    walks_ok(results@, length as nat),
                    length == results@[0]@.len(),
                    rows == results@.len(),
                    n == rows * length,
                    k1 < rows,
                    i1 <= length,
                    uf.wf(),
                    uf.same_classes(old(uf)),
                    uf.num_classes() == old(uf).num_classes(),
                    uf.n() == n,
                    rt == old(uf).roots(),
                    eg == old(uf).edges(),
                    1 <= actions@.len(),
                    forall|i: int| 0 <= i < actions@.len() ==> #[trigger] actions@[i].door < 6,
                    ex < 4,
                    ey < 6,
                    div_groups@.len() == 4,
                    forall|x: int| 0 <= x < 4 ==> (#[trigger] div_groups@[x])@.len() == 6,
                    forall|x: int, y: int, z: int|
                        0 <= x < 4 && 0 <= y < 6 && 0 <= z < div_groups@[x]@[y]@.len() ==> #[trigger] div_groups@[x]@[y]@[z] < n,
                    forall|x: int, y: int|
                        0 <= x < 4 && 0 <= y < 6 && !(x == ex && y == ey) ==> (#[trigger] div_groups@[x]@[y])@ == g0[x]@[y]@,
                    div_groups@[ex as int]@[ey as int]@ == g0[ex as int]@[ey as int]@ + fitting_reps(
                        rt,
                        eg,
                        results@,
                        length as nat,
                        actions@,
                        label,
                        k1 * length + i1,
                    ),
                decreases length - i1,
            {
                proof {
                    lemma_position(k1 as int, i1 as int, rows as int, length as int);
                }
                let p = k1 * length + i1;
                let ghost before = div_groups@;
                let root = uf.find(p) == p;
                if root && path_fits_from(results, uf, p, actions, label) {
                    div_groups[ex][ey].push(p);
                    proof {
                        assert forall|x2: int, y2: int, z: int|
                            0 <= x2 < 4 && 0 <= y2 < 6 && 0 <= z < div_groups@[x2]@[y2]@.len() implies #[trigger] div_groups@[x2]@[y2]@[z] < n by {
                            if x2 != ex || y2 != ey || z < before[x2]@[y2]@.len() {
                                assert(div_groups@[x2]@[y2]@[z] == before[x2]@[y2]@[z]);
                            }
                        }
                        assert forall|x2: int| 0 <= x2 < 4 implies (#[trigger] div_groups@[x2])@.len() == 6 by {
                            if x2 != ex {
                                assert(div_groups@[x2] == before[x2]);
                            }
                        }
                        assert forall|x2: int, y2: int|
                            0 <= x2 < 4 && 0 <= y2 < 6 && !(x2 == ex && y2 == ey) implies (#[trigger] div_groups@[x2]@[y2])@ == g0[x2]@[y2]@ by {
                            if x2 != ex {
                                assert(div_groups@[x2] == before[x2]);
                            }
                        }
                        assert(div_groups@[ex as int]@[ey as int]@ =~= before[ex as int]@[ey as int]@.push(p));
                    }
                }
                i1 = i1 + 1;
            }
            proof {
                assert(k1 * length + length == (k1 + 1) * length) by (nonlinear_arith);
            }
            k1 = k1 + 1;
        }
        proof {
            assert forall|x: int, y: int| 0 <= x < 4 && 0 <= y < 6 implies (#[trigger] div_groups@[x]@[y])@ == door_group(
                rt,
                eg,
                results@,
                length as nat,
                up,
                x as usize,
                y as usize,
                u as int + 1,
            ) by {
                assert(up[u as int].0@[0].label == ex);
                assert(up[u as int].0@[0].door == ey);
            }
        }
        u = u + 1;
    }
    div_groups
}

/// The position of `group` that representative `i` is to join: none (`NONE`) when
/// a position of `group` is already in `i`'s class, else the one position of
/// `group` not marked different from `i` in `marks`, if exactly one is.
pub open spec fn group_candidate_of(roots: Seq<usize>, i: usize, group: Seq<usize>, marks: Seq<bool>) -> usize {
    if exists|z: int| 0 <= z < group.len() && roots[group[z] as int] == roots[i as int] {
        NONE
    } else {
        sole_unmarked(group, marks)
    }
}

/// Computes `group_candidate_of` for representative `i`.
pub fn group_candidate(uf: &mut UnionFind, i: usize, group: &Vec<usize>, marks: &Vec<bool>) -> (res: usize)
    requires
        old(uf).wf(),
        i < old(uf).n(),
        marks@.len() == old(uf).n(),
        forall|z: int| 0 <= z < group@.len() ==> #[trigger] group@[z] < old(uf).n(),
    ensures
        final(uf).wf(),
        final(uf).same_classes(old(uf)),
        final(uf).num_classes() == old(uf).num_classes(),
        res == group_candidate_of(old(uf).roots(), i, group@, marks@),
        res != NONE ==> group@.contains(res),
{
    let fi = uf.find(i);
    let mut z: usize = 0;
    while z < group.len()
        invariant
            uf.wf(),
            uf.same_classes(old(uf)),
            uf.num_classes() == old(uf).num_classes(),
            uf.n() == old(uf).n(),
            fi == old(uf).roots()[i as int],
            forall|q: int| 0 <= q < group@.len() ==> #[trigger] group@[q] < old(uf).n(),
            z <= group@.len(),
            forall|q: int| 0 <= q < z ==> old(uf).roots()[#[trigger] group@[q] as int] != fi,
        decreases group@.len() - z,
    {
        if uf.find(group[z]) == fi {
            return NONE;
        }
        z = z + 1;
    }
    sole_unmarked_member(group, marks)
}

/// One step of choosing leaders: class `r`, of label `l`, joins the leaders of
/// its label while fewer than `cap` are there and it is marked different from
/// each of them; otherwise it joins the other classes of its label.
pub open spec fn leaders_step(
    state: (Seq<Seq<usize>>, Seq<Seq<usize>>),
    r: usize,
    l: int,
    cap: nat,
    diff: Seq<Vec<bool>>,
) -> (Seq<Seq<usize>>, Seq<Seq<usize>>) {
    let ld = state.0;
    let rm = state.1;
    if ld[l].len() < cap && forall|k: int| 0 <= k < ld[l].len() ==> #[trigger] diff[r as int]@[ld[l][k] as int] {
        (ld.update(l, ld[l].push(r)), rm)
    } else {
        (ld, rm.update(l, rm[l].push(r)))
    }
}

/// Leaders and other classes, per label, after the first `t` classes of `roots`
/// (see `leaders_step`), `caps[l]` being the number of rooms of label `l`.
pub open spec fn leaders_upto(
    roots: Seq<usize>,
    results: Seq<Vec<i8>>,
    length: nat,
    caps: Seq<usize>,
    diff: Seq<Vec<bool>>,
    t: int,
) -> (Seq<Seq<usize>>, Seq<Seq<usize>>)
    decreases t,
{
    if t <= 0 {
        (Seq::new(4, |l: int| Seq::<usize>::empty()), Seq::new(4, |l: int| Seq::<usize>::empty()))
    } else {
        let r = roots[t - 1];
        let l = label_at(results, length, r as int) as int;
        leaders_step(leaders_upto(roots, results, length, caps, diff, t - 1), r, l, caps[l] as nat, diff)
    }
}

/// Splits the classes `roots`, in order, into leaders and other classes per
/// label (see `leaders_upto`).
pub fn pick_leaders(results: &[Vec<i8>], roots: &Vec<usize>, caps: &[usize; 4], is_different_group: &Vec<Vec<bool>>) -> (res: (
    Vec<Vec<usize>>,
    Vec<Vec<usize>>,
))
    requires
        walks_ok(results@, results@[0]@.len()),
        labels_ok(results@),
        square(is_different_group@, results@.len() * results@[0]@.len()),
        forall|k: int| 0 <= k < roots@.len() ==> #[trigger] roots@[k] < results@.len() * results@[0]@.len(),
    ensures
        res.0@.len() == 4,
        res.1@.len() == 4,
        (crate::problem::rows(res.0@), crate::problem::rows(res.1@)) == leaders_upto(
            roots@,
            results@,
            results@[0]@.len(),
            caps@,
            is_different_group@,
            roots@.len() as int,
        ),
        forall|l: int, k: int| 0 <= l < 4 && 0 <= k < res.0@[l]@.len() ==> #[trigger] res.0@[l]@[k] < results@.len() * results@[0]@.len(),
        forall|l: int, k: int| 0 <= l < 4 && 0 <= k < res.1@[l]@.len() ==> #[trigger] res.1@[l]@[k] < results@.len() * results@[0]@.len(),
{
    let length = results[0].len();
    let n = results.len() * length;
    let mut leaders: Vec<Vec<usize>> = vec![Vec::new(), Vec::new(), Vec::new(), Vec::new()];
    let mut remains: Vec<Vec<usize>> = vec![Vec::new(), Vec::new(), Vec::new(), Vec::new()];
    proof {
        assert((crate::problem::rows(leaders@), crate::problem::rows(remains@)) =~= leaders_upto(
            roots@,
            results@,
            length as nat,
            caps@,
            is_different_group@,
            0,
        ));
        assert(crate::problem::rows(leaders@) =~= Seq::new(4, |l: int| Seq::<usize>::empty()));
        assert(crate::problem::rows(remains@) =~= Seq::new(4, |l: int| Seq::<usize>::empty()));
    }
    let mut t: usize = 0;
    while t < roots.len()
        invariant
            walks_ok(results@, length as nat),
            labels_ok(results@),
            length == results@[0]@.len(),
            n == results@.len() * length,
            square(is_different_group@, n as nat),
            forall|k: int| 0 <= k < roots@.len() ==> #[trigger] roots@[k] < n,
            t <= roots@.len(),
            leaders@.len() == 4,
            remains@.len() == 4,
            forall|l: int, k: int| 0 <= l < 4 && 0 <= k < leaders@[l]@.len() ==> #[trigger] leaders@[l]@[k] < n,
            forall|l: int, k: int| 0 <= l < 4 && 0 <= k < remains@[l]@.len() ==> #[trigger] remains@[l]@[k] < n,
            (crate::problem::rows(leaders@), crate::problem::rows(remains@)) == leaders_upto(
                roots@,
                results@,
                length as nat,
                caps@,
                is_different_group@,
                t as int,
            ),
        decreases roots@.len() - t,
    {
        let r = roots[t];
        proof {
            lemma_label_range(results@, length as nat, r as int);
        }
        let label = label_of(results, length, r) as usize;
        let ghost ld = crate::problem::rows(leaders@);
        let ghost rm = crate::problem::rows(remains@);
        proof {
            assert(ld[label as int] == leaders@[label as int]@);
        }
        let mut ok = true;
        if leaders[label].len() < caps[label] {
            let mut k: usize = 0;
            while k < leaders[label].len() && ok
                invariant
                    square(is_different_group@, n as nat),
                    r < n,
                    label < 4,
                    leaders@.len() == 4,
                    ld == crate::problem::rows(leaders@),
                    ld[label as int] == leaders@[label as int]@,
                    forall|l: int, k2: int| 0 <= l < 4 && 0 <= k2 < leaders@[l]@.len() ==> #[trigger] leaders@[l]@[k2] < n,
                    k <= leaders@[label as int]@.len(),
                    ok == forall|k2: int| 0 <= k2 < k ==> #[trigger] is_different_group@[r as int]@[ld[label as int][k2] as int],
                decreases leaders@[label as int]@.len() - k,
            {
                let l = leaders[label][k];
                if !is_different_group[r][l] {
                    ok = false;
                }
                k = k + 1;
            }
            proof {
                if ok {
                    assert(k == leaders@[label as int]@.len());
                } else {
                    assert(!(forall|k2: int| 0 <= k2 < ld[label as int].len() ==> #[trigger] is_different_group@[r as int]@[ld[label as int][k2] as int]));
                }
            }
        } else {
            ok = false;
        }
        if ok {
            let ghost before = leaders@;
            leaders[label].push(r);
            proof {
                assert forall|l: int, k2: int| 0 <= l < 4 && 0 <= k2 < leaders@[l]@.len() implies #[trigger] leaders@[l]@[k2] < n by {
                    if l != label || k2 < before[l]@.len() {
                        assert(leaders@[l]@[k2] == before[l]@[k2]);
                    }
                }
                assert(crate::problem::rows(leaders@) =~= ld.update(label as int, ld[label as int].push(r)));
            }
        } else {
            let ghost before = remains@;
            remains[label].push(r);
            proof {
                assert forall|l: int, k2: int| 0 <= l < 4 && 0 <= k2 < remains@[l]@.len() implies #[trigger] remains@[l]@[k2] < n by {
                    if l != label || k2 < before[l]@.len() {
                        assert(remains@[l]@[k2] == before[l]@[k2]);
                    }
                }
                assert(crate::problem::rows(remains@) =~= rm.update(label as int, rm[label as int].push(r)));
            }
        }
        t = t + 1;
    }
    (leaders, remains)
}

/// Two sequences, each strictly ordered by an asymmetric relation `lt`, that
/// hold the same items are equal.
pub proof fn lemma_sorted_unique<T>(a: Seq<T>, b: Seq<T>, lt: spec_fn(T, T) -> bool)
    requires
        forall|x: T, y: T| #[trigger] lt(x, y) ==> !lt(y, x),
        forall|i: int, j: int| 0 <= i < j < a.len() ==> lt(#[trigger] a[i], #[trigger] a[j]),
        forall|i: int, j: int| 0 <= i < j < b.len() ==> lt(#[trigger] b[i], #[trigger] b[j]),
        forall|x: T| #[trigger] a.contains(x) == b.contains(x),
    ensures
        a == b,
    decreases a.len(),
{
    if a.len() == 0 {
        if b.len() > 0 {
            assert(b.contains(b[0]));
            assert(a.contains(b[0]));
        }
        assert(a =~= b);
    } else {
        assert(a.contains(a[0]));
        assert(b.contains(a[0]));
        let j = choose|j: int| 0 <= j < b.len() && b[j] == a[0];
        assert(b.contains(b[0]));
        assert(a.contains(b[0]));
        let i = choose|i: int| 0 <= i < a.len() && a[i] == b[0];
        if a[0] != b[0] {
            assert(j > 0 && i > 0);
            assert(lt(b[0], b[j]));
            assert(lt(a[0], a[i]));
        }
        assert(a[0] == b[0]);
        let a1 = a.drop_first();
        let b1 = b.drop_first();
        assert forall|i2: int, j2: int| 0 <= i2 < j2 < a1.len() implies lt(#[trigger] a1[i2], #[trigger] a1[j2]) by {
            assert(a1[i2] == a[i2 + 1] && a1[j2] == a[j2 + 1]);
        }
        assert forall|i2: int, j2: int| 0 <= i2 < j2 < b1.len() implies lt(#[trigger] b1[i2], #[trigger] b1[j2]) by {
            assert(b1[i2] == b[i2 + 1] && b1[j2] == b[j2 + 1]);
        }
        assert forall|x: T| #[trigger] a1.contains(x) == b1.contains(x) by {
            if a1.contains(x) {
                let k = choose|k: int| 0 <= k < a1.len() && a1[k] == x;
                assert(a[k + 1] == x);
                assert(lt(a[0], a[k + 1]));
                assert(a.contains(x));
                let m = choose|m: int| 0 <= m < b.len() && b[m] == x;
                if m == 0 {
                    assert(lt(x, x));
                }
                assert(b1[m - 1] == x);
            }
            if b1.contains(x) {
                let k = choose|k: int| 0 <= k < b1.len() && b1[k] == x;
                assert(b[k + 1] == x);
                assert(lt(b[0], b[k + 1]));
                assert(b.contains(x));
                assert(a.contains(x));
                let m = choose|m: int| 0 <= m < a.len() && a[m] == x;
                if m == 0 {
                    assert(x == b[0]);
                    assert(lt(b[0], x));
                    assert(lt(x, x));
                }
                assert(a1[m - 1] == x);
            }
        }
        lemma_sorted_unique(a1, b1, lt);
        assert(a =~= b) by {
            assert forall|k: int| 0 <= k < a.len() implies a[k] == b[k] by {
                if k > 0 {
                    assert(a[k] == a1[k - 1]);
                    assert(b[k] == b1[k - 1]);
                }
            }
        }
    }
}

/// The entries of a list of unique paths, by their views.
pub open spec fn entry_views(paths: Seq<(Vec<Action>, usize)>) -> Seq<(Seq<Action>, usize)> {
    paths.map_values(|e: (Vec<Action>, usize)| (e.0@, e.1))
}

/// `paths` lists the paths that tell rooms apart in `obs` (see
/// `LabelObservation::unique_entry`), each once, in the order of their codes, as
/// `LabelObservation::get_unique_paths` gives them.
pub open spec fn lists_unique_paths(obs: LabelObservation, paths: Seq<(Vec<Action>, usize)>) -> bool {
    &&& forall|k: int| 0 <= k < paths.len() ==> obs.unique_entry((#[trigger] paths[k]).0@, paths[k].1)
    &&& forall|actions: Seq<Action>, dest: usize| #[trigger] obs.unique_entry(actions, dest) ==> in_found(paths, actions, dest)
    &&& sorted_codes(paths)
}

/// A list of the paths that tell rooms apart in `obs` (see `lists_unique_paths`).
pub open spec fn unique_list(obs: LabelObservation) -> Seq<(Vec<Action>, usize)> {
    choose|paths: Seq<(Vec<Action>, usize)>| lists_unique_paths(obs, paths)
}

/// All lists of the paths that tell rooms apart agree entry by entry.
pub proof fn lemma_unique_list_views(obs: LabelObservation, paths: Seq<(Vec<Action>, usize)>)
    requires
        lists_unique_paths(obs, paths),
    ensures
        lists_unique_paths(obs, unique_list(obs)),
        entry_views(unique_list(obs)) == entry_views(paths),
{
    let other = unique_list(obs);
    let a = entry_views(paths);
    let b = entry_views(other);
    let lt = |x: (Seq<Action>, usize), y: (Seq<Action>, usize)| entry_code(x.0, x.1) < entry_code(y.0, y.1);
    assert forall|i: int, j: int| 0 <= i < j < a.len() implies lt(#[trigger] a[i], #[trigger] a[j]) by {
        assert(entry_code(paths[i].0@, paths[i].1) < entry_code(paths[j].0@, paths[j].1));
    }
    assert forall|i: int, j: int| 0 <= i < j < b.len() implies lt(#[trigger] b[i], #[trigger] b[j]) by {
        assert(entry_code(other[i].0@, other[i].1) < entry_code(other[j].0@, other[j].1));
    }
    assert forall|x: (Seq<Action>, usize)| #[trigger] a.contains(x) == b.contains(x) by {
        if a.contains(x) {
            let k = choose|k: int| 0 <= k < a.len() && a[k] == x;
            assert(obs.unique_entry(paths[k].0@, paths[k].1));
            assert(in_found(other, x.0, x.1));
            let m = choose|m: int| 0 <= m < other.len() && #[trigger] other[m].0@ == x.0 && other[m].1 == x.1;
            assert(b[m] == x);
        }
        if b.contains(x) {
            let k = choose|k: int| 0 <= k < b.len() && b[k] == x;
            assert(obs.unique_entry(other[k].0@, other[k].1));
            assert(in_found(paths, x.0, x.1));
            let m = choose|m: int| 0 <= m < paths.len() && #[trigger] paths[m].0@ == x.0 && paths[m].1 == x.1;
            assert(a[m] == x);
        }
    }
    lemma_sorted_unique(a, b, lt);
}

/// Door groups depend on the entries of the list only by their views.
pub proof fn lemma_door_group_views(
    roots: Seq<usize>,
    edges: Seq<Seq<usize>>,
    results: Seq<Vec<i8>>,
    length: nat,
    a: Seq<(Vec<Action>, usize)>,
    b: Seq<(Vec<Action>, usize)>,
    x: usize,
    y: usize,
    u: int,
)
    requires
        entry_views(a) == entry_views(b),
        u <= a.len(),
    ensures
        door_group(roots, edges, results, length, a, x, y, u) == door_group(roots, edges, results, length, b, x, y, u),
    decreases u,
{
    if u > 0 {
        lemma_door_group_views(roots, edges, results, length, a, b, x, y, u - 1);
        assert(entry_views(a)[u - 1] == entry_views(b)[u - 1]);
        assert(a.len() == entry_views(a).len() && b.len() == entry_views(b).len());
    }
}

/// The classes of `u` in the order `roots_by_size` gives them.
pub open spec fn size_order(u: UnionFind) -> Seq<usize> {
    choose|ord: Seq<usize>| is_size_order(u, ord)
}

/// There is one order of the classes by size.
pub proof fn lemma_size_order_unique(u: UnionFind, ord: Seq<usize>)
    requires
        is_size_order(u, ord),
    ensures
        is_size_order(u, size_order(u)),
        size_order(u) == ord,
{
    let other = size_order(u);
    let lt = |x: usize, y: usize| u.class_size(x) > u.class_size(y) || (u.class_size(x) == u.class_size(y) && x > y);
    assert forall|i: int, j: int| 0 <= i < j < ord.len() implies lt(#[trigger] ord[i], #[trigger] ord[j]) by {
        assert(ord[i] != ord[j]);
    }
    assert forall|i: int, j: int| 0 <= i < j < other.len() implies lt(#[trigger] other[i], #[trigger] other[j]) by {
        assert(other[i] != other[j]);
    }
    assert forall|x: usize| #[trigger] ord.contains(x) == other.contains(x) by {
        if ord.contains(x) {
            let k = choose|k: int| 0 <= k < ord.len() && ord[k] == x;
            assert(u.roots()[ord[k] as int] == ord[k]);
            assert(other.contains((x as int) as usize));
        }
        if other.contains(x) {
            let k = choose|k: int| 0 <= k < other.len() && other[k] == x;
            assert(u.roots()[other[k] as int] == other[k]);
            assert(ord.contains((x as int) as usize));
        }
    }
    lemma_sorted_unique(other, ord, lt);
}

/// Representative `i` of the classes given by `roots` gets a candidate (see
/// `group_candidate_of`) in the group of label `x` and door `y` of `paths`.
pub open spec fn group_merge_at(
    roots: Seq<usize>,
    edges: Seq<Seq<usize>>,
    results: Seq<Vec<i8>>,
    length: nat,
    paths: Seq<(Vec<Action>, usize)>,
    marks: Seq<Vec<bool>>,
    x: usize,
    y: usize,
    i: usize,
) -> bool {
    &&& i < roots.len()
    &&& roots[i as int] == i
    &&& group_candidate_of(roots, i, door_group(roots, edges, results, length, paths, x, y, paths.len() as int), marks[i as int]@)
        != NONE
}

/// Among the leaders and other classes that `leaders_upto` makes of the classes
/// in `order`, the `q`-th other class of label `l`, whose leaders are as many as
/// its rooms, has one leader it is not marked different from, in another class.
pub open spec fn leader_merge_at(
    roots: Seq<usize>,
    order: Seq<usize>,
    results: Seq<Vec<i8>>,
    length: nat,
    caps: Seq<usize>,
    marks: Seq<Vec<bool>>,
    l: int,
    q: int,
) -> bool {
    let lr = leaders_upto(order, results, length, caps, marks, order.len() as int);
    &&& 0 <= l < 4
    &&& lr.0[l].len() >= caps[l]
    &&& 0 <= q < lr.1[l].len()
    &&& sole_unmarked(lr.0[l], marks[lr.1[l][q] as int]@) != NONE
    &&& roots[lr.1[l][q] as int] != roots[sole_unmarked(lr.0[l], marks[lr.1[l][q] as int]@) as int]
}

/// Some representative gets a candidate in some door group (see
/// `group_merge_at`).
pub open spec fn some_group_merge(
    roots: Seq<usize>,
    edges: Seq<Seq<usize>>,
    results: Seq<Vec<i8>>,
    length: nat,
    paths: Seq<(Vec<Action>, usize)>,
    marks: Seq<Vec<bool>>,
) -> bool {
    exists|x: usize, y: usize, i: usize|
        x < 4 && y < 6 && #[trigger] group_merge_at(roots, edges, results, length, paths, marks, x, y, i)
}

/// Among the leaders and other classes that `leaders_upto` makes of the classes
/// in `order`, the `q`-th other class of label `l`, whose leaders are as many as
/// its rooms, has one leader it is not marked different from.
pub open spec fn leader_join_at(
    order: Seq<usize>,
    results: Seq<Vec<i8>>,
    length: nat,
    caps: Seq<usize>,
    marks: Seq<Vec<bool>>,
    l: int,
    q: int,
) -> bool {
    let lr = leaders_upto(order, results, length, caps, marks, order.len() as int);
    &&& 0 <= l < 4
    &&& lr.0[l].len() >= caps[l]
    &&& 0 <= q < lr.1[l].len()
    &&& sole_unmarked(lr.0[l], marks[lr.1[l][q] as int]@) != NONE
}

/// The other class and the leader of `leader_join_at`.
pub open spec fn leader_pair(
    order: Seq<usize>,
    results: Seq<Vec<i8>>,
    length: nat,
    caps: Seq<usize>,
    marks: Seq<Vec<bool>>,
    l: int,
    q: int,
) -> (usize, usize) {
    let lr = leaders_upto(order, results, length, caps, marks, order.len() as int);
    (lr.1[l][q], sole_unmarked(lr.0[l], marks[lr.1[l][q] as int]@))
}

/// Some other class has a leader to join (see `leader_merge_at`).
pub open spec fn some_leader_merge(
    roots: Seq<usize>,
    order: Seq<usize>,
    results: Seq<Vec<i8>>,
    length: nat,
    caps: Seq<usize>,
    marks: Seq<Vec<bool>>,
) -> bool {
    exists|l: int, q: int| #[trigger] leader_merge_at(roots, order, results, length, caps, marks, l, q)
}

/// In the classes of `u`, some representative gets a candidate in some door
/// group of the paths that tell rooms apart in `obs`, or some class has a leader
/// to join among the classes in order of size.
pub open spec fn different_group_merges(
    obs: LabelObservation,
    u: UnionFind,
    results: Seq<Vec<i8>>,
    length: nat,
    marks: Seq<Vec<bool>>,
) -> bool {
    ||| some_group_merge(u.roots(), u.edges(), results, length, unique_list(obs), marks)
    ||| some_leader_merge(u.roots(), size_order(u), results, length, obs.room_counts(), marks)
}

/// Merges, for each door that some unique path starts with (see `door_groups`),
/// each representative with the position where such a path fits that
/// `group_candidate` picks for it;
/// then, for each label whose rooms are all found as mutually different leaders
/// (see `pick_leaders`, largest classes first), each other class with the one
/// leader it is not marked different from (see `sole_unmarked_member`). Returns
/// how many merges took place, which is by how much the number of classes fell.
/// Some merge takes place exactly when `different_group_merges` holds of the
/// classes given.
pub fn merge_group_by_different_group(
    results: &[Vec<i8>],
    uf: &mut UnionFind,
    is_different_group: &Vec<Vec<bool>>,
    label_observation: &LabelObservation,
) -> (merged: usize)
    requires
        walks_ok(results@, results@[0]@.len()),
        labels_ok(results@),
        old(uf).wf(),
        old(uf).n() == results@.len() * results@[0]@.len(),
        square(is_different_group@, old(uf).n()),
        label_observation.wf(),
    ensures
        group_merge_step(*label_observation, *old(uf), *final(uf), is_different_group@, results@, results@[0]@.len(), merged as int),
        final(uf).wf(),
        final(uf).refines(old(uf)),
        merged + final(uf).num_classes() == old(uf).num_classes(),
        merged == 0 ==> final(uf).same_classes(old(uf)),
        (merged > 0) == different_group_merges(
            *label_observation,
            *old(uf),
            results@,
            results@[0]@.len(),
            is_different_group@,
        ),
        !some_group_merge(
            old(uf).roots(),
            old(uf).edges(),
            results@,
            results@[0]@.len(),
            unique_list(*label_observation),
            is_different_group@,
        ) ==> forall|l: int, q: int|
            #[trigger] leader_join_at(size_order(*old(uf)), results@, results@[0]@.len(), label_observation.room_counts(), is_different_group@, l, q) ==> final(uf).roots()[leader_pair(size_order(*old(uf)), results@, results@[0]@.len(), label_observation.room_counts(), is_different_group@, l, q).0 as int]
                == final(uf).roots()[leader_pair(size_order(*old(uf)), results@, results@[0]@.len(), label_observation.room_counts(), is_different_group@, l, q).1 as int],
        exists|sts1: Seq<UnionFind>, pres1: Seq<UnionFind>, ms1: Seq<int>, sts2: Seq<UnionFind>, pres2: Seq<UnionFind>, ms2: Seq<int>|
            #![trigger grid_trace(group_decide(old(uf).roots(), old(uf).edges(), results@, results@[0]@.len(), unique_list(*label_observation), is_different_group@), (results@.len() * results@[0]@.len()) as int, sts1, pres1, ms1, 24 * (results@.len() * results@[0]@.len()) as int), grid_trace(leader_decide(leaders_upto(size_order(sts2[0]), results@, results@[0]@.len(), label_observation.room_counts(), is_different_group@, size_order(sts2[0]).len() as int), label_observation.room_counts(), is_different_group@), (results@.len() * results@[0]@.len()) as int, sts2, pres2, ms2, 4 * (results@.len() * results@[0]@.len()) as int)]
            {
                &&& grid_trace(group_decide(old(uf).roots(), old(uf).edges(), results@, results@[0]@.len(), unique_list(*label_observation), is_different_group@), (results@.len() * results@[0]@.len()) as int, sts1, pres1, ms1, 24 * (results@.len() * results@[0]@.len()) as int)
                &&& sts1[0] == *old(uf)
                &&& sts2[0].wf()
                &&& sts2[0].same_classes(&sts1.last())
                &&& sts2[0].num_classes() == sts1.last().num_classes()
                &&& grid_trace(leader_decide(leaders_upto(size_order(sts2[0]), results@, results@[0]@.len(), label_observation.room_counts(), is_different_group@, size_order(sts2[0]).len() as int), label_observation.room_counts(), is_different_group@), (results@.len() * results@[0]@.len()) as int, sts2, pres2, ms2, 4 * (results@.len() * results@[0]@.len()) as int)
                &&& final(uf).same_classes(&sts2.last())
            },
{
    let ghost uf0 = *uf;
    proof {
        uf.lemma_refines_refl(&uf0);
        uf0.lemma_count_le_n();
    }
    let mut merged_count: usize = 0;
    let unique_paths = label_observation.get_unique_paths();
    let length = results[0].len();
    let rows = results.len();
    let n = rows * length;
    let ghost r0 = uf0.roots();
    let ghost e0 = uf0.edges();
    let ghost mk = is_different_group@;
    let ghost paths = unique_paths@;
    proof {
        assert forall|k: int| 0 <= k < unique_paths@.len() implies 1 <= (#[trigger] unique_paths@[k]).0@.len()
            && unique_paths@[k].0@[0].label < 4 by {
            assert(label_observation.unique_entry(unique_paths@[k].0@, unique_paths@[k].1));
        }
        assert forall|k: int, i: int| 0 <= k < unique_paths@.len() && 0 <= i < unique_paths@[k].0@.len() implies #[trigger] unique_paths@[k].0@[i].door
            < 6 by {
            assert(label_observation.unique_entry(unique_paths@[k].0@, unique_paths@[k].1));
        }
        assert(lists_unique_paths(*label_observation, paths));
    }
    let div_groups = door_groups(results, uf, &unique_paths);
    proof {
        UnionFind::lemma_refines_same(uf, &uf0, &uf0);
    }
    let ghost nn: int = n as int;
    let ghost ul = unique_list(*label_observation);
    proof {
        lemma_unique_list_views(*label_observation, paths);
        assert(ul.len() == paths.len()) by {
            assert(entry_views(ul).len() == entry_views(paths).len());
        }
        assert forall|x2: usize, y2: usize| x2 < 4 && y2 < 6 implies #[trigger] door_group(
            r0,
            e0,
            results@,
            length as nat,
            paths,
            x2,
            y2,
            paths.len() as int,
        ) == door_group(r0, e0, results@, length as nat, ul, x2, y2, ul.len() as int) by {
            lemma_door_group_views(r0, e0, results@, length as nat, paths, ul, x2, y2, paths.len() as int);
        }
    }
    let ghost d1 = group_decide(r0, e0, results@, length as nat, ul, mk);
    let ghost mut sts1: Seq<UnionFind> = seq![uf0];
    let ghost mut pres1: Seq<UnionFind> = Seq::empty();
    let ghost mut ms1: Seq<int> = Seq::empty();
    proof {
        assert((0 * 6) * nn == 0) by (nonlinear_arith);
    }
    let mut x: usize = 0;
    while x < 4
        invariant
            x <= 4,
            walks_ok(results@, length as nat),
            length == results@[0]@.len(),
            rows == results@.len(),
            n == rows * length,
            uf0.wf(),
            uf.wf(),
            uf.refines(&uf0),
            uf.n() == n,
            merged_count + uf.num_classes() == uf0.num_classes(),
            square(is_different_group@, n as nat),
            mk == is_different_group@,
            r0 == uf0.roots(),
            e0 == uf0.edges(),
            paths == unique_paths@,
            div_groups@.len() == 4,
            forall|x2: int| 0 <= x2 < 4 ==> (#[trigger] div_groups@[x2])@.len() == 6,
            forall|x2: int, y: int, z: int|
                0 <= x2 < 4 && 0 <= y < 6 && 0 <= z < div_groups@[x2]@[y]@.len() ==> #[trigger] div_groups@[x2]@[y]@[z] < n,
            forall|x2: usize, y2: usize|
                x2 < 4 && y2 < 6 ==> (#[trigger] div_groups@[x2 as int]@[y2 as int])@ == door_group(
                    r0,
                    e0,
                    results@,
                    length as nat,
                    paths,
                    x2,
                    y2,
                    paths.len() as int,
                ),
            merged_count == 0 ==> uf.same_classes(&uf0),
            merged_count == 0 ==> forall|x2: usize, y2: usize, i2: usize|
                x2 < x && y2 < 6 ==> !#[trigger] group_merge_at(r0, e0, results@, length as nat, paths, mk, x2, y2, i2),
            merged_count > 0 ==> some_group_merge(r0, e0, results@, length as nat, paths, mk),
            nn == n as int,
            d1 == group_decide(r0, e0, results@, length as nat, ul, mk),
            grid_trace(d1, nn, sts1, pres1, ms1, (x * 6) * nn),
            sts1[0] == uf0,
            sts1.last().wf(),
            uf.same_classes(&sts1.last()),
            uf.num_classes() == sts1.last().num_classes(),
            ul.len() == paths.len(),
            forall|x2: usize, y2: usize| x2 < 4 && y2 < 6 ==> #[trigger] door_group(r0, e0, results@, length as nat, paths, x2, y2, paths.len() as int) == door_group(r0, e0, results@, length as nat, ul, x2, y2, ul.len() as int),
        decreases 4 - x,
    {
        let mut y: usize = 0;
        while y < 6
            invariant
                y <= 6,
                walks_ok(results@, length as nat),
                length == results@[0]@.len(),
                rows == results@.len(),
                n == rows * length,
                x < 4,
                uf0.wf(),
                uf.wf(),
                uf.refines(&uf0),
                uf.n() == n,
                merged_count + uf.num_classes() == uf0.num_classes(),
                square(is_different_group@, n as nat),
                mk == is_different_group@,
                r0 == uf0.roots(),
                e0 == uf0.edges(),
                paths == unique_paths@,
                div_groups@.len() == 4,
                forall|x2: int| 0 <= x2 < 4 ==> (#[trigger] div_groups@[x2])@.len() == 6,
                forall|x2: int, y2: int, z: int|
                    0 <= x2 < 4 && 0 <= y2 < 6 && 0 <= z < div_groups@[x2]@[y2]@.len() ==> #[trigger] div_groups@[x2]@[y2]@[z] < n,
                forall|x2: usize, y2: usize|
                    x2 < 4 && y2 < 6 ==> (#[trigger] div_groups@[x2 as int]@[y2 as int])@ == door_group(
                        r0,
                        e0,
                        results@,
                        length as nat,
                        paths,
                        x2,
                        y2,
                        paths.len() as int,
                    ),
                merged_count == 0 ==> uf.same_classes(&uf0),
                merged_count == 0 ==> forall|x2: usize, y2: usize, i2: usize|
                    (x2 < x && y2 < 6) || (x2 == x && y2 < y) ==> !#[trigger] group_merge_at(
                        r0,
                        e0,
                        results@,
                        length as nat,
                        paths,
                        mk,
                        x2,
                        y2,
                        i2,
                    ),
                merged_count > 0 ==> some_group_merge(r0, e0, results@, length as nat, paths, mk),
                nn == n as int,
                d1 == group_decide(r0, e0, results@, length as nat, ul, mk),
                grid_trace(d1, nn, sts1, pres1, ms1, (x * 6 + y) * nn),
                sts1[0] == uf0,
                sts1.last().wf(),
                uf.same_classes(&sts1.last()),
                uf.num_classes() == sts1.last().num_classes(),
                ul.len() == paths.len(),
                forall|x2: usize, y2: usize| x2 < 4 && y2 < 6 ==> #[trigger] door_group(r0, e0, results@, length as nat, paths, x2, y2, paths.len() as int) == door_group(r0, e0, results@, length as nat, ul, x2, y2, ul.len() as int),
            decreases 6 - y,
        {
            let group = &div_groups[x][y];
            proof {
                assert(group@ == door_group(r0, e0, results@, length as nat, paths, x, y, paths.len() as int));
            }
            proof {
                uf0.lemma_wf_facts();
            }
            if group.len() > 0 {
                let mut i: usize = 0;
                while i < n
                    invariant
                        i <= n,
                        walks_ok(results@, length as nat),
                        n == rows * length,
                        x < 4,
                        y < 6,
                        uf0.wf(),
                        uf.wf(),
                        uf.refines(&uf0),
                        uf.n() == n,
                        merged_count + uf.num_classes() == uf0.num_classes(),
                        square(is_different_group@, n as nat),
                        mk == is_different_group@,
                        r0 == uf0.roots(),
                        e0 == uf0.edges(),
                        forall|z: int| 0 <= z < group@.len() ==> #[trigger] group@[z] < n,
                        r0.len() == n,
                        group@ == door_group(r0, e0, results@, length as nat, paths, x, y, paths.len() as int),
                        merged_count == 0 ==> uf.same_classes(&uf0),
                        merged_count == 0 ==> forall|x2: usize, y2: usize, i2: usize|
                            (x2 < x && y2 < 6) || (x2 == x && y2 < y) || (x2 == x && y2 == y && i2 < i)
                                ==> !#[trigger] group_merge_at(r0, e0, results@, length as nat, paths, mk, x2, y2, i2),
                        merged_count > 0 ==> some_group_merge(r0, e0, results@, length as nat, paths, mk),
                        nn == n as int,
                        d1 == group_decide(r0, e0, results@, length as nat, ul, mk),
                        grid_trace(d1, nn, sts1, pres1, ms1, (x * 6 + y) * nn + i),
                        sts1[0] == uf0,
                        sts1.last().wf(),
                        uf.same_classes(&sts1.last()),
                        uf.num_classes() == sts1.last().num_classes(),
                        ul.len() == paths.len(),
                        forall|x2: usize, y2: usize| x2 < 4 && y2 < 6 ==> #[trigger] door_group(r0, e0, results@, length as nat, paths, x2, y2, paths.len() as int) == door_group(r0, e0, results@, length as nat, ul, x2, y2, ul.len() as int),
                        x < 4,
                        y < 6,
                        i <= n,
                    decreases n - i,
                {
                    let ghost was0 = merged_count == 0;
                    let ghost st_e = sts1.last();
                    let ghost mut pre_e = sts1.last();
                    let ghost mut m_e: int = 0;
                    proof {
                        uf0.lemma_wf_facts();
                    }
                    if uf.find(i) == i {
                        let ghost b0 = *uf;
                        let target = group_candidate(uf, i, group, &is_different_group[i]);
                        proof {
                            UnionFind::lemma_refines_same(uf, &b0, &uf0);
                            b0.lemma_wf_facts();
                            if target != NONE {
                                let c = choose|c: int| 0 <= c < group@.len() && group@[c] == target;
                                assert(group@[c] < n);
                            }
                        }
                        if target != NONE {
                            let ghost b1 = *uf;
                            let m = uf.union(i, target);
                            proof {
                                pre_e = b1;
                                m_e = m as int;
                            }
                            proof {
                                UnionFind::lemma_refines_trans(uf, &b1, &uf0);
                                uf0.lemma_count_le_n();
                                if was0 {
                                    let c = choose|c: int| 0 <= c < group@.len() && group@[c] == target;
                                    assert(r0[group@[c] as int] != r0[i as int]);
                                    assert(m > 0);
                                    assert(group_merge_at(r0, e0, results@, length as nat, paths, mk, x, y, i));
                                }
                            }
                            merged_count = merged_count + m;
                        }
                    }
                    proof {
                        let g = x * 6 + y;
                        lemma_grid_decode(nn, g as int, i as int);
                        lemma_fundamental_div_mod_converse(g as int, 6, x as int, y as int);
                        let k = g * nn + i;
                        assert(group@ == door_group(r0, e0, results@, length as nat, ul, x, y, ul.len() as int));
                        assert(join_step(st_e, pre_e, *uf, d1(g as int, i as int, st_e).0, d1(g as int, i as int, st_e).1, d1(g as int, i as int, st_e).2, m_e));
                        lemma_grid_push(d1, nn, sts1, pres1, ms1, k, pre_e, *uf, m_e);
                        sts1 = sts1.push(*uf);
                        pres1 = pres1.push(pre_e);
                        ms1 = ms1.push(m_e);
                    }
                    i = i + 1;
                }
            } else {
                proof {
                    assert forall|i2: usize| !#[trigger] group_merge_at(r0, e0, results@, length as nat, paths, mk, x, y, i2) by {
                        assert(group@.len() == 0);
                    }
                    let g = x * 6 + y;
                    if nn > 0 {
                        lemma_fundamental_div_mod_converse(g as int, 6, x as int, y as int);
                        assert(door_group(r0, e0, results@, length as nat, ul, x, y, ul.len() as int).len() == 0);
                        assert forall|q: int| 0 <= q < nn implies !(#[trigger] d1(g as int, q, *uf)).0 && !d1(g as int, q, sts1.last()).0 by {
                        }
                        let r = lemma_grid_pad(d1, nn, sts1, pres1, ms1, g as int, 0, nn, *uf);
                        sts1 = r.0;
                        pres1 = r.1;
                        ms1 = r.2;
                    }
                }
            }
            proof {
                uf0.lemma_wf_facts();
                if merged_count == 0 {
                    assert forall|x2: usize, y2: usize, i2: usize|
                        (x2 < x && y2 < 6) || (x2 == x && y2 < y + 1) implies !#[trigger] group_merge_at(
                        r0,
                        e0,
                        results@,
                        length as nat,
                        paths,
                        mk,
                        x2,
                        y2,
                        i2,
                    ) by {
                        if x2 == x && y2 == y && i2 >= n {
                            assert(i2 >= r0.len());
                        }
                    }
                }
            }
            proof {
                assert((x * 6 + y) * nn + nn == (x * 6 + y + 1) * nn) by (nonlinear_arith);
            }
            y = y + 1;
        }
        proof {
            assert((x * 6 + 6) * nn == ((x + 1) * 6) * nn) by (nonlinear_arith);
        }
        x = x + 1;
    }
    let ghost b2 = *uf;
    let roots = roots_by_size(uf);
    proof {
        UnionFind::lemma_refines_same(uf, &b2, &uf0);
        if merged_count == 0 {
            assert(is_size_order(uf0, roots@));
            lemma_size_order_unique(uf0, roots@);
        }
    }
    let num_rooms = label_observation.get_room_count();
    let (leaders, remains) = pick_leaders(results, &roots, num_rooms, is_different_group);
    let ghost order = size_order(uf0);
    let ghost caps = label_observation.room_counts();
    let ghost lr = leaders_upto(order, results@, length as nat, caps, mk, order.len() as int);
    let ghost phase1_none = merged_count == 0;
    let ghost s2start = *uf;
    proof {
        assert(is_size_order(s2start, roots@));
        lemma_size_order_unique(s2start, roots@);
        assert forall|k: int| 0 <= k < roots@.len() implies 0 <= #[trigger] label_at(results@, length as nat, roots@[k] as int) < 4 by {
            lemma_label_range(results@, length as nat, roots@[k] as int);
        }
        lemma_leaders_len(roots@, results@, length as nat, caps, mk, roots@.len() as int);
        s2start.lemma_count_le_n();
        assert((0 * nn) == 0) by (nonlinear_arith);
    }
    let ghost ord2 = size_order(s2start);
    let ghost lr2 = leaders_upto(ord2, results@, length as nat, caps, mk, ord2.len() as int);
    let ghost d2 = leader_decide(lr2, caps, mk);
    let ghost mut sts2: Seq<UnionFind> = seq![*uf];
    let ghost mut pres2: Seq<UnionFind> = Seq::empty();
    let ghost mut ms2: Seq<int> = Seq::empty();
    proof {
        assert(crate::problem::rows(leaders@) == lr2.0 && crate::problem::rows(remains@) == lr2.1);
    }
    let mut l0: usize = 0;
    while l0 < 4
        invariant
            l0 <= 4,
            n == rows * length,
            length == results@[0]@.len(),
            uf0.wf(),
            uf.wf(),
            uf.refines(&uf0),
            uf.n() == n,
            merged_count + uf.num_classes() == uf0.num_classes(),
            square(is_different_group@, n as nat),
            mk == is_different_group@,
            r0 == uf0.roots(),
            e0 == uf0.edges(),
            num_rooms@ == caps,
            lr == leaders_upto(order, results@, length as nat, caps, mk, order.len() as int),
            phase1_none ==> crate::problem::rows(leaders@) == lr.0 && crate::problem::rows(remains@) == lr.1,
            phase1_none == !some_group_merge(r0, e0, results@, length as nat, paths, mk),
            phase1_none ==> forall|l: int, q2: int|
                l < l0 && #[trigger] leader_join_at(order, results@, length as nat, caps, mk, l, q2) ==> leader_pair(order, results@, length as nat, caps, mk, l, q2).1 < n && uf.roots()[leader_pair(order, results@, length as nat, caps, mk, l, q2).0 as int]
                    == uf.roots()[leader_pair(order, results@, length as nat, caps, mk, l, q2).1 as int],
            leaders@.len() == 4,
            remains@.len() == 4,
            forall|l: int, k: int| 0 <= l < 4 && 0 <= k < leaders@[l]@.len() ==> #[trigger] leaders@[l]@[k] < n,
            forall|l: int, k: int| 0 <= l < 4 && 0 <= k < remains@[l]@.len() ==> #[trigger] remains@[l]@[k] < n,
            merged_count == 0 ==> uf.same_classes(&uf0),
            merged_count == 0 ==> crate::problem::rows(leaders@) == lr.0 && crate::problem::rows(remains@) == lr.1,
            merged_count == 0 ==> !some_group_merge(r0, e0, results@, length as nat, paths, mk),
            merged_count == 0 ==> forall|l: int, q: int|
                l < l0 ==> !#[trigger] leader_merge_at(r0, order, results@, length as nat, caps, mk, l, q),
            merged_count > 0 ==> some_group_merge(r0, e0, results@, length as nat, paths, mk) || some_leader_merge(
                r0,
                order,
                results@,
                length as nat,
                caps,
                mk,
            ),
            nn == n as int,
            d2 == leader_decide(lr2, caps, mk),
            grid_trace(d2, nn, sts2, pres2, ms2, l0 * nn),
            sts2[0] == s2start,
            sts2.last().wf(),
            uf.same_classes(&sts2.last()),
            uf.num_classes() == sts2.last().num_classes(),
            crate::problem::rows(leaders@) == lr2.0,
            crate::problem::rows(remains@) == lr2.1,
            lr2.0.len() == 4,
            lr2.1.len() == 4,
            forall|l: int| 0 <= l < 4 ==> (#[trigger] lr2.1[l]).len() <= nn,
            lr2 == leaders_upto(size_order(s2start), results@, length as nat, caps, mk, size_order(s2start).len() as int),
            grid_trace(d1, nn, sts1, pres1, ms1, 24 * nn),
            sts1[0] == uf0,
            s2start.wf(),
            s2start.same_classes(&sts1.last()),
            s2start.num_classes() == sts1.last().num_classes(),
            d1 == group_decide(r0, e0, results@, length as nat, ul, mk),
            ul == unique_list(*label_observation),
        decreases 4 - l0,
    {
        if leaders[l0].len() >= num_rooms[l0] {
            let mut q: usize = 0;
            while q < remains[l0].len()
                invariant
                    n == rows * length,
                    length == results@[0]@.len(),
                    l0 < 4,
                    leaders@[l0 as int]@.len() >= caps[l0 as int],
                    uf0.wf(),
                    uf.wf(),
                    uf.refines(&uf0),
                    uf.n() == n,
                    merged_count + uf.num_classes() == uf0.num_classes(),
                    square(is_different_group@, n as nat),
                    mk == is_different_group@,
                    r0 == uf0.roots(),
                    e0 == uf0.edges(),
                    num_rooms@ == caps,
                    lr == leaders_upto(order, results@, length as nat, caps, mk, order.len() as int),
                    phase1_none ==> crate::problem::rows(leaders@) == lr.0 && crate::problem::rows(remains@) == lr.1,
                    phase1_none == !some_group_merge(r0, e0, results@, length as nat, paths, mk),
                    phase1_none ==> forall|l: int, q2: int|
                        (l < l0 || (l == l0 && q2 < q)) && #[trigger] leader_join_at(order, results@, length as nat, caps, mk, l, q2) ==> leader_pair(order, results@, length as nat, caps, mk, l, q2).1 < n && uf.roots()[leader_pair(order, results@, length as nat, caps, mk, l, q2).0 as int]
                            == uf.roots()[leader_pair(order, results@, length as nat, caps, mk, l, q2).1 as int],
                    leaders@.len() == 4,
                    remains@.len() == 4,
                    forall|l: int, k: int| 0 <= l < 4 && 0 <= k < leaders@[l]@.len() ==> #[trigger] leaders@[l]@[k] < n,
                    forall|l: int, k: int| 0 <= l < 4 && 0 <= k < remains@[l]@.len() ==> #[trigger] remains@[l]@[k] < n,
                    merged_count == 0 ==> uf.same_classes(&uf0),
                    merged_count == 0 ==> crate::problem::rows(leaders@) == lr.0 && crate::problem::rows(remains@) == lr.1,
                    merged_count == 0 ==> !some_group_merge(r0, e0, results@, length as nat, paths, mk),
                    merged_count == 0 ==> forall|l: int, q2: int|
                        l < l0 || (l == l0 && q2 < q) ==> !#[trigger] leader_merge_at(
                            r0,
                            order,
                            results@,
                            length as nat,
                            caps,
                            mk,
                            l,
                            q2,
                        ),
                    merged_count > 0 ==> some_group_merge(r0, e0, results@, length as nat, paths, mk) || some_leader_merge(
                        r0,
                        order,
                        results@,
                        length as nat,
                        caps,
                        mk,
                    ),
                    nn == n as int,
                    d2 == leader_decide(lr2, caps, mk),
                    grid_trace(d2, nn, sts2, pres2, ms2, l0 * nn + q),
                    sts2[0] == s2start,
                    sts2.last().wf(),
                    uf.same_classes(&sts2.last()),
                    uf.num_classes() == sts2.last().num_classes(),
                    crate::problem::rows(leaders@) == lr2.0,
                    crate::problem::rows(remains@) == lr2.1,
                    lr2.0.len() == 4,
                    lr2.1.len() == 4,
                    forall|l: int| 0 <= l < 4 ==> (#[trigger] lr2.1[l]).len() <= nn,
                    lr2 == leaders_upto(size_order(s2start), results@, length as nat, caps, mk, size_order(s2start).len() as int),
                    grid_trace(d1, nn, sts1, pres1, ms1, 24 * nn),
                    sts1[0] == uf0,
                    s2start.wf(),
                    s2start.same_classes(&sts1.last()),
                    s2start.num_classes() == sts1.last().num_classes(),
                    d1 == group_decide(r0, e0, results@, length as nat, ul, mk),
                    ul == unique_list(*label_observation),
                    q <= remains@[l0 as int]@.len(),
                decreases remains@[l0 as int]@.len() - q,
            {
                let j = remains[l0][q];
                let ghost st_e2 = sts2.last();
                let ghost mut pre2 = sts2.last();
                let ghost mut m2e: int = 0;
                let target = sole_unmarked_member(&leaders[l0], &is_different_group[j]);
                let ghost was0 = merged_count == 0;
                proof {
                    if target != NONE {
                        let c = choose|c: int| 0 <= c < leaders@[l0 as int]@.len() && leaders@[l0 as int]@[c] == target;
                        assert(leaders@[l0 as int]@[c] < n);
                    }
                    if was0 {
                        assert(lr.0[l0 as int] == leaders@[l0 as int]@);
                        assert(lr.1[l0 as int] == remains@[l0 as int]@);
                    }
                }
                proof {
                    if was0 {
                        assert(lr.1[l0 as int][q as int] == j);
                        assert(mk[j as int]@ == is_different_group@[j as int]@);
                        assert(target == sole_unmarked(lr.0[l0 as int], mk[lr.1[l0 as int][q as int] as int]@));
                    }
                }
                if target != NONE {
                    let ghost b3 = *uf;
                    let m = uf.union(j, target);
                    proof {
                        pre2 = b3;
                        m2e = m as int;
                    }
                    proof {
                        UnionFind::lemma_refines_trans(uf, &b3, &uf0);
                        uf0.lemma_count_le_n();
                        if phase1_none {
                            assert(lr.1[l0 as int] == remains@[l0 as int]@);
                            assert(lr.0[l0 as int] == leaders@[l0 as int]@);
                            assert(leader_pair(order, results@, length as nat, caps, mk, l0 as int, q as int) == (j, target));
                            assert forall|l: int, q2: int|
                                (l < l0 || (l == l0 && q2 < q + 1)) && #[trigger] leader_join_at(order, results@, length as nat, caps, mk, l, q2) implies leader_pair(order, results@, length as nat, caps, mk, l, q2).1
                                < n && uf.roots()[leader_pair(order, results@, length as nat, caps, mk, l, q2).0 as int] == uf.roots()[leader_pair(order, results@, length as nat, caps, mk, l, q2).1 as int] by {
                                if !(l == l0 && q2 == q) {
                                    let pr = leader_pair(order, results@, length as nat, caps, mk, l, q2);
                                    assert(lr.1[l] == remains@[l]@);
                                    assert(pr.0 < n);
                                    assert(b3.roots()[pr.0 as int] == b3.roots()[pr.1 as int]);
                                }
                            }
                        }
                        if was0 && m > 0 {
                            assert(b3.roots() == r0);
                            assert(r0[j as int] != r0[target as int]);
                            assert(leader_merge_at(r0, order, results@, length as nat, caps, mk, l0 as int, q as int));
                        }
                    }
                    merged_count = merged_count + m;
                }
                proof {
                    assert(lr2.1[l0 as int] == remains@[l0 as int]@);
                    assert(lr2.0[l0 as int] == leaders@[l0 as int]@);
                    assert(q < nn);
                    lemma_grid_decode(nn, l0 as int, q as int);
                    let k = l0 * nn + q;
                    assert(join_step(st_e2, pre2, *uf, d2(l0 as int, q as int, st_e2).0, d2(l0 as int, q as int, st_e2).1, d2(l0 as int, q as int, st_e2).2, m2e));
                    lemma_grid_push(d2, nn, sts2, pres2, ms2, k, pre2, *uf, m2e);
                    sts2 = sts2.push(*uf);
                    pres2 = pres2.push(pre2);
                    ms2 = ms2.push(m2e);
                }
                q = q + 1;
            }
            proof {
                assert(lr2.1[l0 as int] == remains@[l0 as int]@);
                let rl = remains@[l0 as int]@.len() as int;
                if nn > 0 {
                    assert forall|q2: int| rl <= q2 < rl + (nn - rl) implies !(#[trigger] d2(l0 as int, q2, *uf)).0 && !d2(l0 as int, q2, sts2.last()).0 by {
                    }
                    let r = lemma_grid_pad(d2, nn, sts2, pres2, ms2, l0 as int, rl, nn - rl, *uf);
                    sts2 = r.0;
                    pres2 = r.1;
                    ms2 = r.2;
                }
            }
            proof {
                if merged_count == 0 {
                    assert(lr.1[l0 as int] == remains@[l0 as int]@);
                }
            }
        } else {
            proof {
                assert(lr2.0[l0 as int] == leaders@[l0 as int]@);
                if nn > 0 {
                    assert forall|q2: int| 0 <= q2 < nn implies !(#[trigger] d2(l0 as int, q2, *uf)).0 && !d2(l0 as int, q2, sts2.last()).0 by {
                    }
                    assert(l0 * nn + 0 == l0 * nn);
                    let r = lemma_grid_pad(d2, nn, sts2, pres2, ms2, l0 as int, 0, nn, *uf);
                    sts2 = r.0;
                    pres2 = r.1;
                    ms2 = r.2;
                }
            }
            proof {
                if merged_count == 0 {
                    assert(lr.0[l0 as int] == leaders@[l0 as int]@);
                    assert(lr.0[l0 as int].len() < caps[l0 as int]);
                }
            }
        }
        proof {
            assert(l0 * nn + nn == (l0 + 1) * nn) by (nonlinear_arith);
        }
        l0 = l0 + 1;
    }
    proof {
        lemma_unique_list_views(*label_observation, paths);
        let ul = unique_list(*label_observation);
        assert(ul.len() == entry_views(ul).len() && paths.len() == entry_views(paths).len());
        assert forall|x2: usize, y2: usize, i2: usize|
            #[trigger] group_merge_at(r0, e0, results@, length as nat, ul, mk, x2, y2, i2) == group_merge_at(
                r0,
                e0,
                results@,
                length as nat,
                paths,
                mk,
                x2,
                y2,
                i2,
            ) by {
            lemma_door_group_views(r0, e0, results@, length as nat, ul, paths, x2, y2, ul.len() as int);
        }
        if some_group_merge(r0, e0, results@, length as nat, ul, mk) {
            let (x2, y2, i2) = choose|x2: usize, y2: usize, i2: usize|
                x2 < 4 && y2 < 6 && #[trigger] group_merge_at(r0, e0, results@, length as nat, ul, mk, x2, y2, i2);
            assert(group_merge_at(r0, e0, results@, length as nat, paths, mk, x2, y2, i2));
        }
        if some_group_merge(r0, e0, results@, length as nat, paths, mk) {
            let (x2, y2, i2) = choose|x2: usize, y2: usize, i2: usize|
                x2 < 4 && y2 < 6 && #[trigger] group_merge_at(r0, e0, results@, length as nat, paths, mk, x2, y2, i2);
            assert(group_merge_at(r0, e0, results@, length as nat, ul, mk, x2, y2, i2));
        }
        if merged_count == 0 && some_leader_merge(r0, order, results@, length as nat, caps, mk) {
            let (l, q) = choose|l: int, q: int| #[trigger] leader_merge_at(r0, order, results@, length as nat, caps, mk, l, q);
            assert(!leader_merge_at(r0, order, results@, length as nat, caps, mk, l, q));
        }
    }
    proof {
        assert(grid_trace(d1, nn, sts1, pres1, ms1, 24 * nn));
        assert(grid_trace(d2, nn, sts2, pres2, ms2, 4 * nn));
    }
    merged_count
}

/// `plan` is a sequence of doors, written as digits below 6.
pub open spec fn is_door_plan(plan: Seq<char>) -> bool {
    forall|i: int| 0 <= i < plan.len() ==> '0' <= #[trigger] plan[i] && '6' > plan[i]
}

/// The door that the digit `c` names.
pub open spec fn door_of(c: char) -> usize {
    (c as u32 - 48) as usize
}

/// The doors of a plan, in order.
pub fn door_digits(plan: &String) -> (res: Vec<usize>)
    requires
        is_door_plan(plan@),
    ensures
        res@.len() == plan@.len(),
        forall|i: int| 0 <= i < plan@.len() ==> #[trigger] res@[i] == door_of(plan@[i]) && res@[i] < 6,
{
    let s = plan.as_str();
    let n = s.unicode_len();
    let mut res: Vec<usize> = Vec::new();
    let mut i: usize = 0;
    while i < n
        invariant
            s@ == plan@,
            n == plan@.len(),
            is_door_plan(plan@),
            i <= n,
            res@.len() == i,
            forall|q: int| 0 <= q < i ==> #[trigger] res@[q] == door_of(plan@[q]) && res@[q] < 6,
        decreases n - i,
    {
        let c = s.get_char(i);
        res.push((c as u32 - 48) as usize);
        i = i + 1;
    }
    res
}

/// Position of `x` in `v`, if there.
pub fn index_in(v: &Vec<usize>, x: usize) -> (res: Option<usize>)
    ensures
        res matches Some(i) ==> i < v@.len() && v@[i as int] == x,
        res is None ==> !v@.contains(x),
{
    let mut i: usize = 0;
    while i < v.len()
        invariant
            i <= v@.len(),
            forall|q: int| 0 <= q < i ==> #[trigger] v@[q] != x,
        decreases v@.len() - i,
    {
        if v[i] == x {
            return Some(i);
        }
        i = i + 1;
    }
    None
}

/// A map of `n` rooms with six doors each, all leading to one of them.
pub open spec fn is_graph(graph: Seq<Vec<usize>>, n: nat) -> bool {
    &&& graph.len() == n
    &&& forall|i: int| 0 <= i < n ==> (#[trigger] graph[i])@.len() == 6
    &&& forall|i: int, d: int| 0 <= i < n && 0 <= d < 6 ==> #[trigger] graph[i]@[d] < n
}

/// Door targets of `n` rooms, six each, each `NONE` or one of the rooms.
pub open spec fn is_partial_graph(graph: Seq<Vec<usize>>, n: nat) -> bool {
    &&& graph.len() == n
    &&& forall|i: int| 0 <= i < n ==> (#[trigger] graph[i])@.len() == 6
    &&& forall|i: int, d: int| 0 <= i < n && 0 <= d < 6 ==> #[trigger] graph[i]@[d] == NONE || graph[i]@[d] < n
}

/// Position `q` of walk `k`, the walks being `length` long.
pub open spec fn walk_pos(length: nat, k: int, q: int) -> int {
    k * (length as int) + q
}

/// Every step of every walk joins two classes of `u`: door `plans[k][q]` of the
/// class of position `q` of walk `k` leads to the class of position `q + 1`.
pub open spec fn walks_joined(u: UnionFind, plans: Seq<String>, length: nat) -> bool {
    forall|k: int, q: int|
        #![trigger plans[k]@[q]]
        0 <= k < plans.len() && 0 <= q < plans[k]@.len() ==> {
            &&& class_door(u.roots(), u.edges(), walk_pos(length, k, q), door_of(plans[k]@[q]) as int) != NONE
            &&& u.roots()[class_door(u.roots(), u.edges(), walk_pos(length, k, q), door_of(plans[k]@[q]) as int) as int]
                == u.roots()[walk_pos(length, k, q + 1)]
        }
}

/// All `rows` walks start in the class of position 0.
pub open spec fn starts_joined(u: UnionFind, rows: nat, length: nat) -> bool {
    forall|k: int| 0 <= k < rows ==> u.roots()[#[trigger] walk_pos(length, k, 0)] == u.roots()[0]
}

/// `ord` lists the representatives of the classes of `u`, each once, the larger
/// class first and, among classes of one size, the larger representative first.
pub open spec fn is_size_order(u: UnionFind, ord: Seq<usize>) -> bool {
    &&& ord.no_duplicates()
    &&& ord.len() == u.num_classes()
    &&& forall|k: int| 0 <= k < ord.len() ==> #[trigger] ord[k] < u.n() && u.roots()[ord[k] as int] == ord[k]
    &&& forall|r: int| 0 <= r < u.n() && u.roots()[r] == r ==> #[trigger] ord.contains(r as usize)
    &&& forall|a: int, b: int| 0 <= a < b < ord.len() ==> u.class_size(#[trigger] ord[a]) >= u.class_size(#[trigger] ord[b])
    &&& forall|a: int, b: int|
        0 <= a < b < ord.len() && u.class_size(#[trigger] ord[a]) == u.class_size(#[trigger] ord[b]) ==> ord[a] > ord[b]
}

/// The representative of the class that door `d` of the class whose
/// representative is `r` leads to, or `NONE` when that door is unknown.
pub open spec fn class_target(u: UnionFind, r: int, d: int) -> usize {
    if u.edges()[r][d] == NONE {
        NONE
    } else {
        u.roots()[u.edges()[r][d] as int]
    }
}

/// The door targets, as representatives, of the classes whose representatives are `roots`.
pub open spec fn class_edge_rows(u: UnionFind, roots: Seq<usize>) -> Seq<Seq<usize>> {
    Seq::new(roots.len(), |i: int| Seq::new(6, |d: int| class_target(u, roots[i] as int, d)))
}

proof fn lemma_pos_inj(k1: int, q1: int, k2: int, q2: int, rows: int, length: int)
    requires
        0 <= k1 < rows,
        0 <= k2 < rows,
        0 <= q1 < length,
        0 <= q2 < length,
        k1 * length + q1 == k2 * length + q2,
    ensures
        k1 == k2,
        q1 == q2,
{
    lemma_position(k1, q1, rows, length);
    lemma_position(k2, q2, rows, length);
}

/// Refining the classes keeps every walk step joining the classes of its ends.
pub proof fn lemma_walks_joined_refines(a: UnionFind, b: UnionFind, plans: Seq<String>, rows: nat, length: nat)
    requires
        a.wf(),
        b.wf(),
        b.refines(&a),
        a.n() == rows * length,
        plans.len() <= rows,
        forall|k: int| 0 <= k < plans.len() ==> (#[trigger] plans[k]@).len() < length,
        forall|k: int| 0 <= k < plans.len() ==> is_door_plan(#[trigger] plans[k]@),
        walks_joined(a, plans, length),
    ensures
        walks_joined(b, plans, length),
{
    a.lemma_wf_facts();
    assert forall|k: int, q: int| 0 <= k < plans.len() && 0 <= q < plans[k]@.len() implies {
        &&& class_door(b.roots(), b.edges(), walk_pos(length, k, q), door_of(#[trigger] plans[k]@[q]) as int) != NONE
        &&& b.roots()[class_door(b.roots(), b.edges(), walk_pos(length, k, q), door_of(plans[k]@[q]) as int) as int]
            == b.roots()[walk_pos(length, k, q + 1)]
    } by {
        lemma_position(k, q, rows as int, length as int);
        lemma_position(k, q + 1, rows as int, length as int);
        let p = walk_pos(length, k, q);
        let d = door_of(plans[k]@[q]) as int;
        assert(is_door_plan(plans[k]@));
        assert(0 <= d < 6);
        let t = class_door(a.roots(), a.edges(), p, d);
        assert(t != NONE);
        assert(t < a.n());
        assert(a.roots()[t as int] == a.roots()[p + 1]);
    }
}

/// Refining the classes keeps all walks starting in one class.
pub proof fn lemma_starts_joined_refines(a: UnionFind, b: UnionFind, rows: nat, length: nat)
    requires
        a.wf(),
        b.refines(&a),
        rows * length <= a.n(),
        length >= 1,
        starts_joined(a, rows, length),
    ensures
        starts_joined(b, rows, length),
{
    assert forall|k: int| 0 <= k < rows implies b.roots()[#[trigger] walk_pos(length, k, 0)] == b.roots()[0] by {
        lemma_position(k, 0, rows as int, length as int);
        lemma_position(0, 0, rows as int, length as int);
        assert(a.roots()[walk_pos(length, k, 0)] == a.roots()[0]);
    }
}

/// A step that refines `b` keeps refining what `b` refines.
proof fn lemma_refines_both(c: UnionFind, b: UnionFind, u1: UnionFind, u2: UnionFind)
    requires
        u1.wf(),
        u2.wf(),
        b.wf(),
        b.refines(&u1),
        b.refines(&u2),
        c.refines(&b),
    ensures
        c.refines(&u1),
        c.refines(&u2),
{
    UnionFind::lemma_refines_trans(&c, &b, &u1);
    UnionFind::lemma_refines_trans(&c, &b, &u2);
}

/// Door `plans[k2][q2]` of position `q2` of walk `k2` is recorded as leading to
/// the next position, for every walk before `k` and for the first `q` steps of walk `k`.
spec fn edges_placed(u: UnionFind, plans: Seq<String>, length: nat, k: int, q: int) -> bool {
    forall|k2: int, q2: int|
        #![trigger plans[k2]@[q2]]
        (0 <= k2 < k && 0 <= q2 < plans[k2]@.len()) || (k2 == k && 0 <= q2 < q) ==> u.edges()[walk_pos(length, k2, q2)][door_of(
            plans[k2]@[q2],
        ) as int] == walk_pos(length, k2, q2 + 1)
}

/// The state of the merge loop of `guess_from_walks`: the classes, the
/// observations, the marks of classes told apart, and how many merges are
/// still wanted.
pub type MergeState = (UnionFind, LabelObservation, Seq<Vec<bool>>, int);

/// What one round of the merge loop went through: merges by unique paths
/// (count, classes), then observations (classes, observations), marks (classes,
/// marks), merges by different groups (count, classes), then observations again
/// (classes, observations).
pub type MergeRound = (int, UnionFind, UnionFind, LabelObservation, UnionFind, Seq<Vec<bool>>, int, UnionFind, UnionFind, LabelObservation);

/// One round of the merge loop from `st`, each step as its function's contract
/// gives it (see `unique_merge_step`, `observe_step`, `marks_step`,
/// `group_merge_step`), ending in `next` to go on (`outcome` 0), in `next` to
/// stop (1: the merges wanted are made, or neither kind of merge found any), or
/// in a failure because a step merged more than wanted (2).
pub open spec fn merge_round(
    results: Seq<Vec<i8>>,
    length: nat,
    st: MergeState,
    r: MergeRound,
    next: MergeState,
    outcome: int,
) -> bool {
    let u = st.0;
    let obs = st.1;
    let marks = st.2;
    let wanted = st.3;
    &&& 0 <= r.0
    &&& unique_merge_step(obs, u, r.1, results, length, r.0)
    &&& if r.0 > wanted {
        outcome == 2
    } else if wanted - r.0 == 0 {
        outcome == 1 && next == (r.1, obs, marks, 0int)
    } else {
        &&& observe_step(obs, r.3, r.1, r.2, results, length)
        &&& marks_step(r.2, r.4, marks, r.5, results, length)
        &&& 0 <= r.6
        &&& group_merge_step(r.3, r.4, r.7, r.5, results, length, r.6)
        &&& if r.6 > wanted - r.0 {
            outcome == 2
        } else if (r.0 == 0 && r.6 == 0) || wanted - r.0 - r.6 == 0 {
            outcome == 1 && next == (r.7, r.3, r.5, wanted - r.0 - r.6)
        } else if r.6 != 0 {
            &&& outcome == 0
            &&& observe_step(r.3, r.9, r.7, r.8, results, length)
            &&& next == (r.8, r.9, r.5, wanted - r.0 - r.6)
        } else {
            outcome == 0 && next == (r.7, r.3, r.5, wanted - r.0 - r.6)
        }
    }
}

/// Joining the start of walk `k` to position 0 in classes `st.0`, with `st.1`
/// merges still wanted, as `UnionFind::union` gives it (`r`: its count and
/// classes): going on to `next` (`outcome` 0) or failing for merging more than
/// wanted (2).
pub open spec fn start_round(length: nat, k: int, st: (UnionFind, int), r: (int, UnionFind), next: (UnionFind, int), outcome: int) -> bool {
    &&& 0 <= r.0
    &&& union_step(st.0, r.1, 0, (k * length) as usize, r.0)
    &&& if r.0 > st.1 {
        outcome == 2
    } else {
        outcome == 0 && next == (r.1, st.1 - r.0)
    }
}

/// The marks that tell apart every two positions of different labels.
pub open spec fn label_marks(marks: Seq<Vec<bool>>, results: Seq<Vec<i8>>, length: nat) -> bool {
    &&& square(marks, results.len() * length)
    &&& forall|i: int, j: int|
        0 <= i < results.len() * length && 0 <= j < results.len() * length ==> #[trigger] marks[i]@[j] == (label_at(
            results,
            length,
            i,
        ) != label_at(results, length, j))
}

/// `res` is what `guess_from_walks` gives through the process these witnesses
/// trace: `u0`, the positions with the walks' doors set; the starts of the
/// walks joined in turn (`sa`, `ra`, see `start_round`), failing there if
/// `a_failed`; then the merge rounds from the observations `obs0` and the marks
/// `marks0` (`states`, `rounds`, see `merge_round`), the last ending as
/// `outcome` says; and, when they stop, the map of the `node_count` largest
/// classes in the order `ord`.
pub open spec fn merge_process(
    node_count: nat,
    plans: Seq<String>,
    results: Seq<Vec<i8>>,
    obs0: LabelObservation,
    res: Result<(Vec<i8>, usize, Vec<Vec<usize>>), String>,
    u0: UnionFind,
    sa: Seq<(UnionFind, int)>,
    ra: Seq<(int, UnionFind)>,
    a_failed: bool,
    marks0: Seq<Vec<bool>>,
    states: Seq<MergeState>,
    rounds: Seq<MergeRound>,
    outcome: int,
    ord: Seq<usize>,
) -> bool {
    let length = results[0]@.len();
    let n = results.len() * length;
    &&& u0.wf()
    &&& u0.n() == n
    &&& u0.num_classes() == n
    &&& forall|x: int| 0 <= x < n ==> #[trigger] u0.roots()[x] == x
    &&& walks_joined(u0, plans, length)
    &&& sa.len() == ra.len() + 1
    &&& sa[0] == (u0, n - node_count)
    &&& forall|i: int|
        0 <= i < ra.len() ==> start_round(
            length,
            i + 1,
            sa[i],
            #[trigger] ra[i],
            sa[i + 1],
            if a_failed && i == ra.len() - 1 { 2int } else { 0int },
        )
    &&& if a_failed {
        ra.len() >= 1 && (res matches Err(e) && e@ == "Too many rooms merged"@)
    } else {
        &&& ra.len() == if plans.len() == 0 { 0 } else { plans.len() - 1 }
        &&& label_marks(marks0, results, length)
        &&& rounds.len() >= 1
        &&& states.len() == rounds.len() + 1
        &&& states[0] == (sa.last().0, obs0, marks0, sa.last().1)
        &&& forall|i: int|
            0 <= i < rounds.len() ==> merge_round(
                results,
                length,
                states[i],
                #[trigger] rounds[i],
                states[i + 1],
                if i == rounds.len() - 1 { outcome } else { 0int },
            )
        &&& outcome == 1 || outcome == 2
        &&& outcome == 2 ==> (res matches Err(e) && e@ == "Too many rooms merged"@)
        &&& outcome == 1 ==> {
            &&& is_size_order(states.last().0, ord)
            &&& map_result_is(
                res,
                classes_map(
                    results,
                    ord.take(node_count as int),
                    states.last().0.roots()[0],
                    class_edge_rows(states.last().0, ord.take(node_count as int)),
                ),
            )
        }
    }
}

/// Rebuilds a map of `node_count` rooms from walks: position `i` of walk `k`
/// (doors from `plans[k]`, labels from `results[k]`) is a vertex, each walk's
/// consecutive positions are joined by the door taken, every walk starts in the
/// same room, and positions are merged (see the `merge_group_by_*` functions) until
/// `node_count` classes remain or nothing more merges. The `node_count` largest
/// classes become the rooms; doors still unknown are completed from the counts
/// of doors between two rooms where that leaves no choice. Returns the labels of
/// the rooms, the starting room and the door targets, or why that failed.
///
/// Unless more rooms were merged than the walks leave room for, the result is
/// `classes_map` of the final classes: at least `node_count` of them, each walk
/// step joining the classes of its two ends, all walks starting in one class,
/// ordered as `roots_by_size` orders them.
pub fn guess_from_walks(
    node_count: usize,
    plans: &Vec<String>,
    results: &Vec<Vec<i8>>,
    label_observation: &mut LabelObservation,
) -> (res: Result<(Vec<i8>, usize, Vec<Vec<usize>>), String>)
    requires
        results@.len() == crate::random_walk::QUERY_NUM,
        1 <= results@[0]@.len(),
        walks_ok(results@, results@[0]@.len()),
        labels_ok(results@),
        plans@.len() <= results@.len(),
        forall|k: int| 0 <= k < plans@.len() ==> is_door_plan(#[trigger] plans@[k]@),
        forall|k: int| 0 <= k < plans@.len() ==> (#[trigger] plans@[k]@).len() < results@[0]@.len(),
        node_count <= results@.len() * results@[0]@.len(),
        old(label_observation).wf(),
    ensures
        final(label_observation).wf(),
        res matches Ok((node_label, start_index, graph)) ==> {
            &&& node_label@.len() == node_count
            &&& forall|i: int| 0 <= i < node_count ==> 0 <= #[trigger] node_label@[i] < 4
            &&& start_index < node_count
            &&& is_graph(graph@, node_count as nat)
        },
        (res matches Err(e) && e@ == "Too many rooms merged"@) ==> 1 < node_count,
        exists|u0: UnionFind, sa: Seq<(UnionFind, int)>, ra: Seq<(int, UnionFind)>, a_failed: bool, marks0: Seq<Vec<bool>>, states: Seq<MergeState>, rounds: Seq<MergeRound>, outcome: int, ord: Seq<usize>|
            #[trigger] merge_process(
                node_count as nat,
                plans@,
                results@,
                *old(label_observation),
                res,
                u0,
                sa,
                ra,
                a_failed,
                marks0,
                states,
                rounds,
                outcome,
                ord,
            ),
        (res matches Err(e) && e@ == "Too many rooms merged"@) || exists|u: UnionFind, ord: Seq<usize>|
            #![trigger is_size_order(u, ord)]
            {
                &&& u.wf()
                &&& u.n() == results@.len() * results@[0]@.len()
                &&& u.num_classes() >= node_count
                &&& walks_joined(u, plans@, results@[0]@.len())
                &&& starts_joined(u, plans@.len(), results@[0]@.len())
                &&& is_size_order(u, ord)
                &&& map_result_is(
                    res,
                    classes_map(
                        results@,
                        ord.take(node_count as int),
                        u.roots()[0],
                        class_edge_rows(u, ord.take(node_count as int)),
                    ),
                )
            },
{
    let length = results[0].len();
    let rows = results.len();
    let whole_size = rows * length;
    let mut uf = UnionFind::new(whole_size);
    let mut is_different_group: Vec<Vec<bool>> = Vec::new();
    let mut i: usize = 0;
    while i < whole_size
        invariant
            labels_ok(results@),
            walks_ok(results@, length as nat),
            label_observation.wf(),
            rows == results@.len(),
            whole_size == rows * length,
            i <= whole_size,
            is_different_group@.len() == i,
            forall|q: int| 0 <= q < i ==> (#[trigger] is_different_group@[q])@.len() == whole_size,
            forall|q: int, t: int|
                0 <= q < i && 0 <= t < whole_size ==> #[trigger] is_different_group@[q]@[t] == (label_at(results@, length as nat, q)
                    != label_at(results@, length as nat, t)),
            *label_observation == *old(label_observation),
        decreases whole_size - i,
    {
        let label_i = label_of(results.as_slice(), length, i);
        let mut row: Vec<bool> = Vec::new();
        let mut j: usize = 0;
        while j < whole_size
            invariant
                walks_ok(results@, length as nat),
                labels_ok(results@),
                label_observation.wf(),
                rows == results@.len(),
                whole_size == rows * length,
                j <= whole_size,
                row@.len() == j,
                i < whole_size,
                label_i == label_at(results@, length as nat, i as int),
                forall|t: int| 0 <= t < j ==> #[trigger] row@[t] == (label_i != label_at(results@, length as nat, t)),
            decreases whole_size - j,
        {
            let label_j = label_of(results.as_slice(), length, j);
            row.push(label_i != label_j);
            j = j + 1;
        }
        let ghost before = is_different_group@;
        is_different_group.push(row);
        proof {
            assert forall|q: int, t: int|
                0 <= q < i + 1 && 0 <= t < whole_size implies #[trigger] is_different_group@[q]@[t] == (label_at(
                results@,
                length as nat,
                q,
            ) != label_at(results@, length as nat, t)) by {
                if q < i {
                    assert(is_different_group@[q] == before[q]);
                }
            }
        }
        i = i + 1;
    }
    let ghost marks0 = is_different_group@;
    let ghost obs0 = *label_observation;
    proof {
        assert(label_marks(marks0, results@, length as nat));
    }
    let mut k: usize = 0;
    while k < plans.len()
        invariant
            labels_ok(results@),
            walks_ok(results@, length as nat),
            label_observation.wf(),
            rows == results@.len(),
            whole_size == rows * length,
            plans@.len() <= rows,
            forall|q: int| 0 <= q < plans@.len() ==> is_door_plan(#[trigger] plans@[q]@),
            forall|q: int| 0 <= q < plans@.len() ==> (#[trigger] plans@[q]@).len() < length,
            uf.wf(),
            uf.n() == whole_size,
            uf.num_classes() == whole_size,
            forall|x: int| 0 <= x < whole_size ==> #[trigger] uf.roots()[x] == x,
            edges_placed(uf, plans@, length as nat, k as int, 0),
            *label_observation == obs0,
            obs0 == *old(label_observation),
            is_different_group@ == marks0,
        decreases plans@.len() - k,
    {
        let doors = door_digits(&plans[k]);
        proof {
            assert(is_door_plan(plans@[k as int]@));
        }
        proof {
            lemma_position(k as int, 0, rows as int, length as int);
        }
        let base = k * length;
        let mut q: usize = 0;
        while q < doors.len()
            invariant
                walks_ok(results@, length as nat),
                labels_ok(results@),
                label_observation.wf(),
                rows == results@.len(),
                whole_size == rows * length,
                k < rows,
                k < plans@.len(),
                base == k * length,
                doors@.len() < length,
                forall|r: int| 0 <= r < doors@.len() ==> #[trigger] doors@[r] < 6,
                uf.wf(),
                uf.n() == whole_size,
                uf.num_classes() == whole_size,
                plans@.len() <= rows,
                forall|q: int| 0 <= q < plans@.len() ==> (#[trigger] plans@[q]@).len() < length,
                doors@.len() == plans@[k as int]@.len(),
                forall|r: int| 0 <= r < doors@.len() ==> #[trigger] doors@[r] == door_of(plans@[k as int]@[r]),
                q <= doors@.len(),
                forall|x: int| 0 <= x < whole_size ==> #[trigger] uf.roots()[x] == x,
                edges_placed(uf, plans@, length as nat, k as int, q as int),
            decreases doors@.len() - q,
        {
            proof {
                lemma_position(k as int, q + 1, rows as int, length as int);
                lemma_position(k as int, q as int, rows as int, length as int);
            }
            let ghost before = uf;
            uf.set_edge(base + q, doors[q], base + q + 1);
            proof {
                before.lemma_wf_facts();
                assert forall|k2: int, q2: int|
                    #![trigger plans@[k2]@[q2]]
                    (0 <= k2 < k && 0 <= q2 < plans@[k2]@.len()) || (k2 == k && 0 <= q2 < q + 1) implies uf.edges()[walk_pos(
                    length as nat,
                    k2,
                    q2,
                )][door_of(plans@[k2]@[q2]) as int] == walk_pos(length as nat, k2, q2 + 1) by {
                    if !(k2 == k && q2 == q) {
                        lemma_position(k2, q2, rows as int, length as int);
                        if walk_pos(length as nat, k2, q2) == base + q {
                            lemma_pos_inj(k2, q2, k as int, q as int, rows as int, length as int);
                        }
                        assert(before.edges()[walk_pos(length as nat, k2, q2)][door_of(plans@[k2]@[q2]) as int] == walk_pos(
                            length as nat,
                            k2,
                            q2 + 1,
                        ));
                    } else {
                        assert(doors@[q as int] == door_of(plans@[k as int]@[q as int]));
                    }
                }
            }
            q = q + 1;
        }
        proof {
            assert forall|k2: int, q2: int|
                #![trigger plans@[k2]@[q2]]
                (0 <= k2 < k + 1 && 0 <= q2 < plans@[k2]@.len()) implies uf.edges()[walk_pos(length as nat, k2, q2)][door_of(
                plans@[k2]@[q2],
            ) as int] == walk_pos(length as nat, k2, q2 + 1) by {
                if k2 == k {
                    assert(q2 < q);
                }
            }
        }
        k = k + 1;
    }
    let ghost u1 = uf;
    proof {
        uf.lemma_wf_facts();
        assert forall|k: int, q: int| 0 <= k < plans@.len() && 0 <= q < plans@[k]@.len() implies {
            &&& class_door(u1.roots(), u1.edges(), walk_pos(length as nat, k, q), door_of(#[trigger] plans@[k]@[q]) as int) != NONE
            &&& u1.roots()[class_door(u1.roots(), u1.edges(), walk_pos(length as nat, k, q), door_of(plans@[k]@[q]) as int) as int]
                == u1.roots()[walk_pos(length as nat, k, q + 1)]
        } by {
            lemma_position(k, q, rows as int, length as int);
            lemma_position(k, q + 1, rows as int, length as int);
        }
        assert(walks_joined(u1, plans@, length as nat));
    }
    let mut to_be_connected = whole_size - node_count;
    let ghost mut sa: Seq<(UnionFind, int)> = seq![(u1, (whole_size - node_count) as int)];
    let ghost mut ra: Seq<(int, UnionFind)> = Seq::empty();
    let mut k: usize = 1;
    while k < plans.len()
        invariant
            labels_ok(results@),
            walks_ok(results@, length as nat),
            label_observation.wf(),
            rows == results@.len(),
            whole_size == rows * length,
            plans@.len() <= rows,
            uf.wf(),
            uf.n() == whole_size,
            to_be_connected + node_count == uf.num_classes(),
            whole_size >= 1,
            1 <= k,
            k <= plans@.len() || k == 1,
            u1.wf(),
            u1.n() == whole_size,
            walks_joined(u1, plans@, length as nat),
            uf.refines(&u1),
            forall|k2: int| 0 <= k2 < k ==> uf.roots()[#[trigger] walk_pos(length as nat, k2, 0)] == uf.roots()[0],
            *label_observation == obs0,
            obs0 == *old(label_observation),
            is_different_group@ == marks0,
            label_marks(marks0, results@, length as nat),
            u1.num_classes() == whole_size,
            forall|x: int| 0 <= x < whole_size ==> #[trigger] u1.roots()[x] == x,
            sa.len() == k,
            ra.len() == k - 1,
            sa[0] == (u1, (whole_size - node_count) as int),
            sa.last() == (uf, to_be_connected as int),
            forall|i: int| 0 <= i < ra.len() ==> start_round(length as nat, i + 1, sa[i], #[trigger] ra[i], sa[i + 1], 0int),
        decreases plans@.len() - k,
    {
        proof {
            lemma_position(k as int, 0, rows as int, length as int);
            lemma_position(0, 0, rows as int, length as int);
        }
        let ghost before = uf;
        let merged = uf.union(0, k * length);
        proof {
            UnionFind::lemma_refines_trans(&uf, &before, &u1);
            assert forall|k2: int| 0 <= k2 < k + 1 implies uf.roots()[#[trigger] walk_pos(length as nat, k2, 0)] == uf.roots()[0] by {
                if k2 < k {
                    lemma_position(k2, 0, rows as int, length as int);
                    assert(before.roots()[walk_pos(length as nat, k2, 0)] == before.roots()[0]);
                }
            }
        }
        let ghost rr: (int, UnionFind) = (merged as int, uf);
        proof {
            assert(start_round(length as nat, k as int, sa[k - 1], rr, (uf, to_be_connected - merged), if merged > to_be_connected { 2int } else { 0int }));
        }
        if merged > to_be_connected {
            let res = Err(String::from_str("Too many rooms merged"));
            proof {
                uf.lemma_some_class();
                let ra2 = ra.push(rr);
                let sa2 = sa.push((uf, 0int));
                assert forall|i: int| 0 <= i < ra2.len() implies start_round(
                    length as nat,
                    i + 1,
                    sa2[i],
                    #[trigger] ra2[i],
                    sa2[i + 1],
                    if true && i == ra2.len() - 1 { 2int } else { 0int },
                ) by {
                    if i < ra.len() {
                        assert(ra2[i] == ra[i] && sa2[i] == sa[i] && sa2[i + 1] == sa[i + 1]);
                    }
                }
                reveal_strlit("Too many rooms merged");
                assert(merge_process(node_count as nat, plans@, results@, obs0, res, u1, sa2, ra2, true, marks0, seq![], seq![], 2, seq![]));
            }
            return res;
        }
        to_be_connected = to_be_connected - merged;
        proof {
            let old_ra = ra;
            let old_sa = sa;
            ra = ra.push(rr);
            sa = sa.push((uf, to_be_connected as int));
            assert forall|i: int| 0 <= i < ra.len() implies start_round(length as nat, i + 1, sa[i], #[trigger] ra[i], sa[i + 1], 0int) by {
                if i < old_ra.len() {
                    assert(ra[i] == old_ra[i] && sa[i] == old_sa[i] && sa[i + 1] == old_sa[i + 1]);
                }
            }
        }
        k = k + 1;
    }
    let ghost u2 = uf;
    proof {
        uf.lemma_refines_refl(&uf);
        assert(starts_joined(u2, plans@.len(), length as nat));
        assert(ra.len() == if plans@.len() == 0 { 0 } else { plans@.len() - 1 });
    }
    let ghost mut states: Seq<MergeState> = seq![(uf, *label_observation, is_different_group@, to_be_connected as int)];
    let ghost mut rounds: Seq<MergeRound> = Seq::empty();
    let mut done = false;
    while !done
        invariant
            walks_ok(results@, length as nat),
            labels_ok(results@),
            rows == results@.len(),
            whole_size == rows * length,
            uf.wf(),
            uf.n() == whole_size,
            to_be_connected + node_count == uf.num_classes(),
            whole_size >= 1,
            square(is_different_group@, whole_size as nat),
            label_observation.wf(),
            u1.wf(),
            u2.wf(),
            uf.refines(&u1),
            uf.refines(&u2),
            length == results@[0]@.len(),
            u1.n() == whole_size,
            u1.num_classes() == whole_size,
            forall|x: int| 0 <= x < whole_size ==> #[trigger] u1.roots()[x] == x,
            walks_joined(u1, plans@, length as nat),
            sa.len() == ra.len() + 1,
            sa[0] == (u1, (whole_size - node_count) as int),
            ra.len() == if plans@.len() == 0 { 0 } else { plans@.len() - 1 },
            forall|i: int| 0 <= i < ra.len() ==> start_round(length as nat, i + 1, sa[i], #[trigger] ra[i], sa[i + 1], 0int),
            label_marks(marks0, results@, length as nat),
            states.len() == rounds.len() + 1,
            states[0] == (sa.last().0, obs0, marks0, sa.last().1),
            done ==> rounds.len() >= 1,
            obs0 == *old(label_observation),
            forall|i: int|
                0 <= i < rounds.len() ==> merge_round(
                    results@,
                    length as nat,
                    states[i],
                    #[trigger] rounds[i],
                    states[i + 1],
                    if done && i == rounds.len() - 1 { 1int } else { 0int },
                ),
            states.last() == (uf, *label_observation, is_different_group@, to_be_connected as int),
        decreases uf.num_classes() + if done { 0nat } else { 1nat },
    {
        let mut end = false;
        let ghost s0 = uf;
        let ghost st: MergeState = (uf, *label_observation, is_different_group@, to_be_connected as int);
        let ghost mut gm1: int = 0;
        let ghost mut gu1 = uf;
        let ghost mut gu1b = uf;
        let ghost mut go1 = *label_observation;
        let ghost mut gu1c = uf;
        let ghost mut gmk1 = is_different_group@;
        let ghost mut gm2: int = 0;
        let ghost mut gu2 = uf;
        let ghost mut gu3 = uf;
        let ghost mut go2 = *label_observation;
        let merged_count = merge_group_by_unique_paths(results.as_slice(), &mut uf, label_observation);
        proof {
            lemma_refines_both(uf, s0, u1, u2);
            gm1 = merged_count as int;
            gu1 = uf;
        }
        if merged_count > to_be_connected {
            let res = Err(String::from_str("Too many rooms merged"));
            proof {
                uf.lemma_some_class();
                let r: MergeRound = (gm1, gu1, gu1b, go1, gu1c, gmk1, gm2, gu2, gu3, go2);
                assert(merge_round(results@, length as nat, st, r, st, 2int));
                let states2 = states.push(st);
                let rounds2 = rounds.push(r);
                assert forall|i: int| 0 <= i < rounds2.len() implies merge_round(
                    results@,
                    length as nat,
                    states2[i],
                    #[trigger] rounds2[i],
                    states2[i + 1],
                    if i == rounds2.len() - 1 { 2int } else { 0int },
                ) by {
                    if i < rounds.len() {
                        assert(rounds2[i] == rounds[i] && states2[i] == states[i] && states2[i + 1] == states[i + 1]);
                    }
                }
                reveal_strlit("Too many rooms merged");
                assert(merge_process(node_count as nat, plans@, results@, obs0, res, u1, sa, ra, false, marks0, states2, rounds2, 2, seq![]));
            }
            return res;
        }
        to_be_connected = to_be_connected - merged_count;
        if to_be_connected == 0 {
            done = true;
        } else {
            if merged_count == 0 {
                end = true;
            }
            let ghost s1 = uf;
            update_label_observation(results.as_slice(), &mut uf, label_observation);
            proof {
                uf.lemma_refines_refl(&s1);
                lemma_refines_both(uf, s1, u1, u2);
                gu1b = uf;
                go1 = *label_observation;
            }
            let ghost s2 = uf;
            check_different_group(results.as_slice(), &mut uf, &mut is_different_group);
            proof {
                uf.lemma_refines_refl(&s2);
                lemma_refines_both(uf, s2, u1, u2);
                gu1c = uf;
                gmk1 = is_different_group@;
            }
            let ghost s3 = uf;
            let merged_count2 = merge_group_by_different_group(
                results.as_slice(),
                &mut uf,
                &is_different_group,
                label_observation,
            );
            proof {
                lemma_refines_both(uf, s3, u1, u2);
                gm2 = merged_count2 as int;
                gu2 = uf;
            }
            if merged_count2 > to_be_connected {
                let res = Err(String::from_str("Too many rooms merged"));
                proof {
                    uf.lemma_some_class();
                    let r: MergeRound = (gm1, gu1, gu1b, go1, gu1c, gmk1, gm2, gu2, gu3, go2);
                    assert(merge_round(results@, length as nat, st, r, st, 2int));
                    let states2 = states.push(st);
                    let rounds2 = rounds.push(r);
                    assert forall|i: int| 0 <= i < rounds2.len() implies merge_round(
                        results@,
                        length as nat,
                        states2[i],
                        #[trigger] rounds2[i],
                        states2[i + 1],
                        if i == rounds2.len() - 1 { 2int } else { 0int },
                    ) by {
                        if i < rounds.len() {
                            assert(rounds2[i] == rounds[i] && states2[i] == states[i] && states2[i + 1] == states[i + 1]);
                        }
                    }
                    reveal_strlit("Too many rooms merged");
                    assert(merge_process(node_count as nat, plans@, results@, obs0, res, u1, sa, ra, false, marks0, states2, rounds2, 2, seq![]));
                }
                return res;
            }
            to_be_connected = to_be_connected - merged_count2;
            if (end && merged_count2 == 0) || to_be_connected == 0 {
                done = true;
            } else if merged_count2 != 0 {
                let ghost s4 = uf;
                update_label_observation(results.as_slice(), &mut uf, label_observation);
                proof {
                    uf.lemma_refines_refl(&s4);
                    lemma_refines_both(uf, s4, u1, u2);
                    gu3 = uf;
                    go2 = *label_observation;
                }
            }
        }
        proof {
            let r: MergeRound = (gm1, gu1, gu1b, go1, gu1c, gmk1, gm2, gu2, gu3, go2);
            let next: MergeState = (uf, *label_observation, is_different_group@, to_be_connected as int);
            assert(merge_round(results@, length as nat, st, r, next, if done { 1int } else { 0int }));
            let old_states = states;
            let old_rounds = rounds;
            states = states.push(next);
            rounds = rounds.push(r);
            assert forall|i: int| 0 <= i < rounds.len() implies merge_round(
                results@,
                length as nat,
                states[i],
                #[trigger] rounds[i],
                states[i + 1],
                if done && i == rounds.len() - 1 { 1int } else { 0int },
            ) by {
                if i < old_rounds.len() {
                    assert(rounds[i] == old_rounds[i] && states[i] == old_states[i] && states[i + 1] == old_states[i + 1]);
                } else {
                    assert(states[i] == st);
                }
            }
        }
    }
    let ghost u3 = uf;
    let mut roots = roots_by_size(&mut uf);
    let ghost ord = roots@;
    roots.truncate(node_count);
    proof {
        lemma_position(0, 0, rows as int, length as int);
    }
    let start_root = uf.find(0);
    let ghost u = uf;
    proof {
        u.lemma_refines_refl(&u3);
        lemma_refines_both(u, u3, u1, u2);
        lemma_walks_joined_refines(u1, u, plans@, rows as nat, length as nat);
        assert(plans@.len() * length <= rows * length) by (nonlinear_arith)
            requires
                plans@.len() <= rows,
        ;
        lemma_starts_joined_refines(u2, u, plans@.len(), length as nat);
        u.lemma_wf_facts();
        assert(is_size_order(u, ord));
        assert(roots@ == ord.take(node_count as int));
    }
    let mut class_edges: Vec<Vec<usize>> = Vec::new();
    let mut i: usize = 0;
    while i < node_count
        invariant
            uf.wf(),
            u.wf(),
            uf.n() == whole_size,
            u.n() == whole_size,
            uf.roots() == u.roots(),
            roots@ == ord.take(node_count as int),
            is_size_order(u, ord),
            node_count <= ord.len(),
            i <= node_count,
            forall|x: int|
                0 <= x < whole_size && (forall|q: int| 0 <= q < i ==> roots@[q] != x) ==> #[trigger] uf.edges()[x] == u.edges()[x],
            class_edges@.len() == i,
            forall|q: int| 0 <= q < i ==> (#[trigger] class_edges@[q])@ == class_edge_rows(u, roots@)[q],
        decreases node_count - i,
    {
        let r = roots[i];
        proof {
            assert(ord[i as int] == r);
            assert forall|q: int| 0 <= q < i implies roots@[q] != r by {
                assert(ord[q] == roots@[q]);
            }
            assert(uf.edges()[r as int] == u.edges()[r as int]);
        }
        let ghost before = uf;
        let edges = uf.get_edges(r);
        let row: Vec<usize> = edges.clone();
        proof {
            assert(row@ =~= edges@);
            assert(row@ =~= class_edge_rows(u, roots@)[i as int]);
        }
        proof {
            before.lemma_wf_facts();
            assert forall|x: int|
                0 <= x < whole_size && (forall|q: int| 0 <= q < i + 1 ==> roots@[q] != x) implies #[trigger] uf.edges()[x]
                == u.edges()[x] by {
                assert(roots@[i as int] != x);
                assert(before.edges()[x] == u.edges()[x]);
            }
        }
        class_edges.push(row);
        i = i + 1;
    }
    proof {
        assert(crate::problem::rows(class_edges@) =~= class_edge_rows(u, roots@));
        assert forall|q: int| 0 <= q < roots@.len() implies #[trigger] roots@[q] < whole_size by {
            assert(ord[q] == roots@[q]);
        }
        assert(roots@.no_duplicates()) by {
            assert forall|a: int, b: int| 0 <= a < b < roots@.len() implies roots@[a] != roots@[b] by {
                assert(ord[a] == roots@[a] && ord[b] == roots@[b]);
            }
        }
    }
    let res = map_from_classes(results.as_slice(), &roots, start_root, &class_edges);
    proof {
        reveal_strlit("Too many rooms merged");
        reveal_strlit("Start index not found");
        reveal_strlit("Graph is invalid");
        assert("Too many rooms merged"@[0] != "Start index not found"@[0]);
        assert("Too many rooms merged"@.len() != "Graph is invalid"@.len());
        assert(u.roots()[0] == start_root);
        assert(is_size_order(u, ord) && map_result_is(
            res,
            classes_map(results@, ord.take(node_count as int), u.roots()[0], class_edge_rows(u, ord.take(node_count as int))),
        ));
        assert(u.roots() == u3.roots() && u.edges() == u3.edges() && u.n() == u3.n());
        assert(class_edge_rows(u, ord.take(node_count as int)) =~~= class_edge_rows(u3, ord.take(node_count as int)));
        assert(is_size_order(u3, ord));
        assert(states.last().0 == u3);
        assert(merge_process(node_count as nat, plans@, results@, obs0, res, u1, sa, ra, false, marks0, states, rounds, 1, ord));
    }
    res
}

/// The `s` steps (door taken, label seen next) of walk `k` from its position `j`.
pub open spec fn observed(plans: Seq<String>, results: Seq<Vec<i8>>, k: int, j: int, s: int) -> Seq<(usize, usize)> {
    Seq::new(s as nat, |t: int| (door_of(plans[k]@[j + t]), results[k]@[j + t + 1] as usize))
}

/// The observations after position `j` of walk `k` (up to three steps, as far as
/// the plan and the result go) are recorded in `obs`.
pub open spec fn recorded(obs: LabelObservation, plans: Seq<String>, results: Seq<Vec<i8>>, k: int, j: int) -> bool {
    let l = results[k]@[j] as int;
    &&& j + 1 < results[k]@.len() ==> has_path(obs.node(l), observed(plans, results, k, j, 1))
    &&& j + 2 < results[k]@.len() && j + 1 < plans[k]@.len() ==> has_path(obs.node(l), observed(plans, results, k, j, 2))
    &&& j + 3 < results[k]@.len() && j + 2 < plans[k]@.len() ==> has_path(obs.node(l), observed(plans, results, k, j, 3))
}

/// Walk `k` saw the steps `p` (one to three, as far as its plan and its result
/// go) after its position `q`, which shows label `l`.
pub open spec fn seen_after(plans: Seq<String>, results: Seq<Vec<i8>>, k: int, q: int, l: int, p: Seq<(usize, usize)>) -> bool {
    &&& results[k]@[q] as int == l
    &&& 1 <= p.len() <= 3
    &&& q + p.len() < results[k]@.len()
    &&& q + p.len() <= plans[k]@.len()
    &&& p == observed(plans, results, k, q, p.len() as int)
}

/// Every sequence of steps recorded in `obs` after a label was seen after that
/// label at a position of walk `k < i`, or of walk `i` before position `j`.
pub open spec fn only_seen(obs: LabelObservation, plans: Seq<String>, results: Seq<Vec<i8>>, i: int, j: int) -> bool {
    forall|l: int, p: Seq<(usize, usize)>|
        0 <= l < 4 && p.len() >= 1 && #[trigger] has_path(obs.node(l), p) ==> exists|k: int, q: int|
            ((0 <= k < i && 0 <= q < plans[k]@.len()) || (k == i && 0 <= q < j)) && #[trigger] seen_after(plans, results, k, q, l, p)
}

/// Records, for every position of every walk, the labels seen along the next one,
/// two and three doors of its plan.
pub fn analyze_results(node_count: usize, plans: &Vec<String>, results: &Vec<Vec<i8>>) -> (res: LabelObservation)
    requires
        labels_ok(results@),
        forall|k: int| 0 <= k < plans@.len() && k < results@.len() ==> is_door_plan(#[trigger] plans@[k]@),
        forall|k: int| 0 <= k < plans@.len() && k < results@.len() ==> (#[trigger] plans@[k]@).len() <= results@[k]@.len(),
    ensures
        analysis_step(res, node_count, plans@, results@),
        res.wf(),
        forall|l: int| 0 <= l < 4 ==> #[trigger] res.room_counts()[l] == rooms_with_label(node_count as nat, l as nat),
        forall|k: int, j: int|
            0 <= k < plans@.len() && k < results@.len() && 0 <= j < plans@[k]@.len() ==> #[trigger] recorded(
                res,
                plans@,
                results@,
                k,
                j,
            ),
        forall|l: int, p: Seq<(usize, usize)>|
            0 <= l < 4 && p.len() >= 1 && #[trigger] has_path(res.node(l), p) ==> exists|k: int, q: int|
                0 <= k < plans@.len() && k < results@.len() && 0 <= q < plans@[k]@.len() && #[trigger] seen_after(
                    plans@,
                    results@,
                    k,
                    q,
                    l,
                    p,
                ),
{
    let mut label_observation = LabelObservation::new(node_count);
    proof {
        assert forall|l: int, p: Seq<(usize, usize)>|
            0 <= l < 4 && p.len() >= 1 && #[trigger] has_path(label_observation.node(l), p) implies false by {
            assert(door_index(label_observation.node(l).child@, p[0].0) == -1);
        }
    }
    let mut i: usize = 0;
    while i < results.len() && i < plans.len()
        invariant
            labels_ok(results@),
            forall|k: int| 0 <= k < plans@.len() && k < results@.len() ==> is_door_plan(#[trigger] plans@[k]@),
            forall|k: int| 0 <= k < plans@.len() && k < results@.len() ==> (#[trigger] plans@[k]@).len() <= results@[k]@.len(),
            label_observation.wf(),
            forall|l: int| 0 <= l < 4 ==> #[trigger] label_observation.room_counts()[l] == rooms_with_label(node_count as nat, l as nat),
            forall|k: int, j: int|
                0 <= k < i && 0 <= j < plans@[k]@.len() ==> #[trigger] recorded(label_observation, plans@, results@, k, j),
            i <= plans@.len(),
            i <= results@.len(),
            only_seen(label_observation, plans@, results@, i as int, 0),
        decreases results@.len() - i,
    {
        let result = &results[i];
        let doors = door_digits(&plans[i]);
        let plan_len = doors.len();
        let mut j: usize = 0;
        while j < plan_len
            invariant
                labels_ok(results@),
                i < results@.len(),
                i < plans@.len(),
                forall|k: int| 0 <= k < plans@.len() && k < results@.len() ==> (#[trigger] plans@[k]@).len() <= results@[k]@.len(),
                *result == results@[i as int],
                plan_len == plans@[i as int]@.len(),
                plan_len <= result@.len(),
                doors@.len() == plan_len,
                forall|q: int| 0 <= q < plan_len ==> #[trigger] doors@[q] == door_of(plans@[i as int]@[q]) && doors@[q] < 6,
                label_observation.wf(),
                forall|l: int| 0 <= l < 4 ==> #[trigger] label_observation.room_counts()[l] == rooms_with_label(node_count as nat, l as nat),
                forall|k: int, q: int|
                    0 <= k < i && 0 <= q < plans@[k]@.len() ==> #[trigger] recorded(label_observation, plans@, results@, k, q),
                forall|q: int| 0 <= q < j ==> #[trigger] recorded(label_observation, plans@, results@, i as int, q),
                j <= plan_len,
                only_seen(label_observation, plans@, results@, i as int, j as int),
            decreases plan_len - j,
        {
            proof {
                assert(0 <= result@[j as int] < 4);
            }
            let label = result[j] as usize;
            let door = doors[j];
            let ghost o0 = label_observation;
            if j + 1 < result.len() {
                proof {
                    assert(0 <= result@[j + 1] < 4);
                }
                let next_label = result[j + 1] as usize;
                label_observation.add_child(label, door, next_label);
                proof {
                    assert(observed(plans@, results@, i as int, j as int, 1) =~= seq![(door, next_label)]);
                }
            }
            let ghost o1 = label_observation;
            if result.len() - j > 2 && plan_len - j > 1 {
                proof {
                    assert(0 <= result@[j + 1] < 4);
                    assert(0 <= result@[j + 2] < 4);
                }
                let label2 = result[j + 1] as usize;
                let door2 = doors[j + 1];
                let next_label2 = result[j + 2] as usize;
                label_observation.add_child_2step(label, door, label2, door2, next_label2);
                proof {
                    assert(observed(plans@, results@, i as int, j as int, 2) =~= seq![(door, label2), (door2, next_label2)]);
                }
            }
            let ghost o2 = label_observation;
            if result.len() - j > 3 && plan_len - j > 2 {
                proof {
                    assert(0 <= result@[j + 1] < 4);
                    assert(0 <= result@[j + 2] < 4);
                    assert(0 <= result@[j + 3] < 4);
                }
                let label2 = result[j + 1] as usize;
                let door2 = doors[j + 1];
                let label3 = result[j + 2] as usize;
                let door3 = doors[j + 2];
                let next_label3 = result[j + 3] as usize;
                let labels = [label, label2, label3];
                let ds = [door, door2, door3];
                label_observation.add_child_3step(&labels, &ds, next_label3);
                proof {
                    assert(labels@ == seq![label, label2, label3]);
                    assert(ds@ == seq![door, door2, door3]);
                    assert(observed(plans@, results@, i as int, j as int, 3) =~= seq![(door, label2), (door2, label3), (door3, next_label3)]);
                }
            }
            proof {
                let o3 = label_observation;
                let l0 = label as int;
                assert forall|l: int, p: Seq<(usize, usize)>|
                    0 <= l < 4 && p.len() >= 1 && #[trigger] has_path(o3.node(l), p) implies exists|k: int, q: int|
                    ((0 <= k < i && 0 <= q < plans@[k]@.len()) || (k == i && 0 <= q < j + 1)) && #[trigger] seen_after(
                        plans@,
                        results@,
                        k,
                        q,
                        l,
                        p,
                    ) by {
                    if has_path(o0.node(l), p) {
                        let (k, q) = choose|k: int, q: int|
                            ((0 <= k < i && 0 <= q < plans@[k]@.len()) || (k == i && 0 <= q < j)) && #[trigger] seen_after(
                                plans@,
                                results@,
                                k,
                                q,
                                l,
                                p,
                            );
                        assert(seen_after(plans@, results@, k, q, l, p));
                    } else {
                        let t = p.len() as int;
                        assert(l == l0);
                        assert(p =~= observed(plans@, results@, i as int, j as int, t));
                        assert(seen_after(plans@, results@, i as int, j as int, l, p));
                    }
                }
                assert forall|k: int, q: int|
                    0 <= k < i && 0 <= q < plans@[k]@.len() implies #[trigger] recorded(label_observation, plans@, results@, k, q) by {
                    assert(recorded(o0, plans@, results@, k, q));
                    assert((plans@[k]@).len() <= results@[k]@.len());
                    let l = results@[k]@[q] as int;
                    assert(0 <= results@[k]@[q] < 4);
                    assert forall|s: int| 1 <= s <= 3 && has_path(o0.node(l), observed(plans@, results@, k, q, s)) implies has_path(o3.node(l), observed(plans@, results@, k, q, s)) by {
                        let pth = observed(plans@, results@, k, q, s);
                        assert(has_path(o1.node(l), pth));
                        assert(has_path(o2.node(l), pth));
                    }
                }
                assert forall|q: int| 0 <= q < j + 1 implies #[trigger] recorded(label_observation, plans@, results@, i as int, q) by {
                    let l = results@[i as int]@[q] as int;
                    assert(0 <= results@[i as int]@[q] < 4);
                    if q < j {
                        assert(recorded(o0, plans@, results@, i as int, q));
                    }
                    assert forall|s: int| 1 <= s <= 3 && has_path(o0.node(l), observed(plans@, results@, i as int, q, s)) implies has_path(o3.node(l), observed(plans@, results@, i as int, q, s)) by {
                        let pth = observed(plans@, results@, i as int, q, s);
                        assert(has_path(o1.node(l), pth));
                        assert(has_path(o2.node(l), pth));
                    }
                    assert forall|s: int| 1 <= s <= 3 && has_path(o1.node(l), observed(plans@, results@, i as int, q, s)) implies has_path(o3.node(l), observed(plans@, results@, i as int, q, s)) by {
                        let pth = observed(plans@, results@, i as int, q, s);
                        assert(has_path(o2.node(l), pth));
                    }
                }
            }
            j = j + 1;
        }
        i = i + 1;
    }
    label_observation
}

} // verus!
