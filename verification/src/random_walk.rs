use vstd::prelude::*;
use vstd::string::*;

use crate::random::shuffle_doors;
use crate::text::{digit_char, digit_str};
use crate::walk_data::walks_ok;
use crate::rooms::{classes_map, map_result_is};
use crate::label_observation::LabelObservation;
use crate::union_find::UnionFind;
use crate::walker::{
    analysis_step, analyze_results, class_edge_rows, guess_from_walks, merge_process, MergeRound, MergeState, is_door_plan, is_graph, is_size_order, labels_ok, starts_joined,
    walks_joined,
};

verus! {

broadcast use vstd::seq_lib::group_to_multiset_ensures;

/// How many random walks are explored at once.
pub const QUERY_NUM: usize = 2;

/// Doors `0..i`, each `m` times, in order.
pub open spec fn sorted_doors(m: nat, i: nat) -> Seq<usize>
    decreases i,
{
    if i == 0 {
        Seq::empty()
    } else {
        sorted_doors(m, (i - 1) as nat) + Seq::new(m, |_k: int| (i - 1) as usize)
    }
}

/// The digits that write the doors `doors`.
pub open spec fn door_chars(doors: Seq<usize>) -> Seq<char> {
    doors.map_values(|d: usize| digit_char(d as nat))
}

/// `plan` goes through each of the six doors `m` times, in some order.
pub open spec fn is_walk_plan(plan: Seq<char>, m: nat) -> bool {
    exists|doors: Seq<usize>| #[trigger] doors.to_multiset() == sorted_doors(m, 6).to_multiset() && plan == door_chars(doors)
}

proof fn lemma_sorted_doors(m: nat, i: nat)
    ensures
        sorted_doors(m, i).len() == m * i,
        forall|k: int| 0 <= k < sorted_doors(m, i).len() ==> #[trigger] sorted_doors(m, i)[k] < i,
    decreases i,
{
    if i == 0 {
        assert(m * i == 0) by (nonlinear_arith)
            requires
                i == 0,
        ;
    } else {
        let j = (i - 1) as nat;
        lemma_sorted_doors(m, j);
        assert(m * j + m == m * i) by (nonlinear_arith)
            requires
                j + 1 == i,
        ;
        assert(sorted_doors(m, i).len() == sorted_doors(m, j).len() + m);
        let a = sorted_doors(m, (i - 1) as nat);
        assert forall|k: int| 0 <= k < sorted_doors(m, i).len() implies #[trigger] sorted_doors(m, i)[k] < i by {
            if k < a.len() {
                assert(sorted_doors(m, i)[k] == a[k]);
            }
        }
    }
}

/// A random walk of `6 * (max_plan_length / 6)` doors that goes through each door
/// equally often, in an order drawn at random.
pub fn walk_plan(max_plan_length: usize) -> (plan: String)
    ensures
        is_walk_plan(plan@, (max_plan_length / 6) as nat),
        is_door_plan(plan@),
        plan@.len() == 6 * (max_plan_length / 6),
{
    let m = max_plan_length / 6;
    let mut doors: Vec<usize> = Vec::new();
    let mut i: usize = 0;
    while i < 6
        invariant
            i <= 6,
            m == max_plan_length / 6,
            doors@ == sorted_doors(m as nat, i as nat),
        decreases 6 - i,
    {
        let mut j: usize = 0;
        while j < m
            invariant
                i < 6,
                j <= m,
                doors@ == sorted_doors(m as nat, i as nat) + Seq::new(j as nat, |_k: int| i),
            decreases m - j,
        {
            doors.push(i);
            proof {
                assert(doors@ =~= sorted_doors(m as nat, i as nat) + Seq::new((j + 1) as nat, |_k: int| i));
            }
            j = j + 1;
        }
        proof {
            assert(doors@ =~= sorted_doors(m as nat, (i + 1) as nat));
        }
        i = i + 1;
    }
    let ghost base = doors@;
    proof {
        lemma_sorted_doors(m as nat, 6);
        assert(m * 6 == 6 * m);
    }
    shuffle_doors(&mut doors);
    proof {
        assert forall|k: int| 0 <= k < doors@.len() implies #[trigger] doors@[k] < 6 by {
            let x = doors@[k];
            assert(doors@.contains(x));
            assert(doors@.to_multiset().count(x) > 0);
            assert(base.to_multiset().count(x) > 0);
            assert(base.contains(x));
            let q = choose|q: int| 0 <= q < base.len() && base[q] == x;
            assert(base[q] < 6);
        }
        assert(doors@.len() == base.to_multiset().len());
    }
    let mut plan = String::new();
    let mut k: usize = 0;
    while k < doors.len()
        invariant
            k <= doors@.len(),
            forall|q: int| 0 <= q < doors@.len() ==> #[trigger] doors@[q] < 6,
            plan@ == door_chars(doors@.subrange(0, k as int)),
        decreases doors@.len() - k,
    {
        plan.append(digit_str(doors[k]));
        proof {
            assert(door_chars(doors@.subrange(0, k + 1)) =~= door_chars(doors@.subrange(0, k as int)) + seq![
                digit_char(doors@[k as int] as nat),
            ]);
        }
        k = k + 1;
    }
    proof {
        assert(doors@.subrange(0, doors@.len() as int) =~= doors@);
        assert(doors@.to_multiset() == sorted_doors(m as nat, 6).to_multiset());
        assert(is_walk_plan(plan@, m as nat));
    }
    plan
}

/// The plans of one exploration: `QUERY_NUM` random walks (see `walk_plan`).
pub fn walk_plans(max_plan_length: usize) -> (plans: Vec<String>)
    ensures
        plans@.len() == QUERY_NUM,
        forall|q: int| 0 <= q < plans@.len() ==> is_walk_plan(#[trigger] plans@[q]@, (max_plan_length / 6) as nat),
        forall|q: int| 0 <= q < plans@.len() ==> is_door_plan(#[trigger] plans@[q]@),
        forall|q: int| 0 <= q < plans@.len() ==> (#[trigger] plans@[q]@).len() == 6 * (max_plan_length / 6),
{
    let mut plans: Vec<String> = Vec::new();
    let mut q: usize = 0;
    while q < QUERY_NUM
        invariant
            q <= QUERY_NUM,
            plans@.len() == q,
            forall|i: int| 0 <= i < q ==> is_walk_plan(#[trigger] plans@[i]@, (max_plan_length / 6) as nat),
            forall|i: int| 0 <= i < q ==> is_door_plan(#[trigger] plans@[i]@),
            forall|i: int| 0 <= i < q ==> (#[trigger] plans@[i]@).len() == 6 * (max_plan_length / 6),
        decreases QUERY_NUM - q,
    {
        plans.push(walk_plan(max_plan_length));
        q = q + 1;
    }
    plans
}

/// Whether a string is a plan of doors: digits below 6 only.
pub fn is_door_plan_text(plan: &String) -> (res: bool)
    ensures
        res == is_door_plan(plan@),
{
    let s = plan.as_str();
    let n = s.unicode_len();
    let mut i: usize = 0;
    while i < n
        invariant
            s@ == plan@,
            n == plan@.len(),
            i <= n,
            forall|j: int| 0 <= j < i ==> '0' <= #[trigger] plan@[j] && '6' > plan@[j],
        decreases n - i,
    {
        let c = s.get_char(i);
        if !('0' <= c && '6' > c) {
            return false;
        }
        i = i + 1;
    }
    true
}

/// Whether `plans` and `results` can be taken by `reconstruct_map`: `QUERY_NUM`
/// results, all of one positive length (with every position numbered within a
/// `usize`), labels among the four, one door plan per result, each shorter than
/// the results, and no more than `node_count` rooms asked for than positions.
pub fn walks_fit(node_count: usize, plans: &Vec<String>, results: &Vec<Vec<i8>>) -> (res: bool)
    ensures
        res == (results@.len() == QUERY_NUM && walks_ok(results@, results@[0]@.len()) && labels_ok(results@) && plans@.len()
            == results@.len() && (forall|k: int| 0 <= k < plans@.len() ==> is_door_plan(#[trigger] plans@[k]@)) && (
        forall|k: int| 0 <= k < plans@.len() ==> (#[trigger] plans@[k]@).len() < results@[0]@.len()) && node_count
            <= results@.len() * results@[0]@.len()),
{
    if results.len() != QUERY_NUM || plans.len() != results.len() {
        return false;
    }
    let length = results[0].len();
    if length == 0 {
        return false;
    }
    let total = match results.len().checked_mul(length) {
        Some(t) => t,
        None => {
            return false;
        },
    };
    if total == usize::MAX || node_count > total {
        return false;
    }
    let mut k: usize = 0;
    while k < results.len()
        invariant
            results@.len() >= 1,
            length == results@[0]@.len(),
            plans@.len() == results@.len(),
            k <= results@.len(),
            forall|j: int| 0 <= j < k ==> (#[trigger] results@[j])@.len() == length,
            forall|j: int, i: int| 0 <= j < k && 0 <= i < results@[j]@.len() ==> 0 <= #[trigger] results@[j]@[i] < 4,
            forall|j: int| 0 <= j < k ==> is_door_plan(#[trigger] plans@[j]@),
            forall|j: int| 0 <= j < k ==> (#[trigger] plans@[j]@).len() < length,
        decreases results@.len() - k,
    {
        let row = &results[k];
        if row.len() != length {
            return false;
        }
        let mut i: usize = 0;
        while i < row.len()
            invariant
                k < results@.len(),
                row@ == results@[k as int]@,
                i <= row@.len(),
                forall|t: int| 0 <= t < i ==> 0 <= #[trigger] row@[t] < 4,
            decreases row@.len() - i,
        {
            if row[i] < 0 || row[i] >= 4 {
                assert(!(0 <= results@[k as int]@[i as int] < 4));
                return false;
            }
            i = i + 1;
        }
        if !is_door_plan_text(&plans[k]) {
            return false;
        }
        if plans[k].as_str().unicode_len() >= length {
            return false;
        }
        k = k + 1;
    }
    true
}

/// Rebuilds the map of `node_count` rooms from the results of random walks: the
/// labels seen along them are recorded (see `analyze_results`), then positions are
/// merged into rooms (see `guess_from_walks`).
pub fn reconstruct_map(node_count: usize, plans: &Vec<String>, results: &Vec<Vec<i8>>) -> (res: Result<
    (Vec<i8>, usize, Vec<Vec<usize>>),
    String,
>)
    requires
        results@.len() == QUERY_NUM,
        1 <= results@[0]@.len(),
        walks_ok(results@, results@[0]@.len()),
        labels_ok(results@),
        plans@.len() <= results@.len(),
        forall|k: int| 0 <= k < plans@.len() ==> is_door_plan(#[trigger] plans@[k]@),
        forall|k: int| 0 <= k < plans@.len() ==> (#[trigger] plans@[k]@).len() < results@[0]@.len(),
        node_count <= results@.len() * results@[0]@.len(),
    ensures
        res matches Ok((node_label, start_index, graph)) ==> {
            &&& node_label@.len() == node_count
            &&& forall|i: int| 0 <= i < node_count ==> 0 <= #[trigger] node_label@[i] < 4
            &&& start_index < node_count
            &&& is_graph(graph@, node_count as nat)
        },
        (res matches Err(e) && e@ == "Too many rooms merged"@) ==> 1 < node_count,
        exists|obs: LabelObservation, u0: UnionFind, sa: Seq<(UnionFind, int)>, ra: Seq<(int, UnionFind)>, a_failed: bool, marks0: Seq<Vec<bool>>, states: Seq<MergeState>, rounds: Seq<MergeRound>, outcome: int, ord: Seq<usize>|
            analysis_step(obs, node_count, plans@, results@) && #[trigger] merge_process(
                node_count as nat,
                plans@,
                results@,
                obs,
                res,
                u0,
                sa,
                ra,
                a_failed,
                marks0,
                states,
                rounds,
                outcome,
                ord,
            ),
        (res matches Err(e) && e@ == "Too many rooms merged"@) || exists|u: UnionFind, ord: Seq<usize>|
            #![trigger is_size_order(u, ord)]
            {
                &&& u.wf()
                &&& u.n() == results@.len() * results@[0]@.len()
                &&& u.num_classes() >= node_count
                &&& walks_joined(u, plans@, results@[0]@.len())
                &&& starts_joined(u, plans@.len(), results@[0]@.len())
                &&& is_size_order(u, ord)
                &&& map_result_is(
                    res,
                    classes_map(
                        results@,
                        ord.take(node_count as int),
                        u.roots()[0],
                        class_edge_rows(u, ord.take(node_count as int)),
                    ),
                )
            },
{
    let mut label_observation = analyze_results(node_count, plans, results);
    let ghost obs = label_observation;
    let res = guess_from_walks(node_count, plans, results, &mut label_observation);
    proof {
        assert(analysis_step(obs, node_count, plans@, results@));
    }
    res
}

} // verus!
