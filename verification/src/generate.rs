use vstd::prelude::*;
use vstd::arithmetic::div_mod::lemma_fundamental_div_mod_converse;

use rand::rngs::StdRng;

use crate::random::std_random_range;

verus! {

/// Number of unconnected doors among the first `k` doors of `row`.
pub open spec fn count_free(row: Seq<Option<usize>>, k: int) -> nat
    decreases k,
{
    if k <= 0 {
        0
    } else {
        count_free(row, k - 1) + if row[k - 1] is None {
            1nat
        } else {
            0nat
        }
    }
}

/// Sum of `remain[r]` over the rooms `r < k` already in the tree.
pub open spec fn tree_sum(remain: Seq<usize>, in_tree: Seq<bool>, k: int) -> nat
    decreases k,
{
    if k <= 0 {
        0
    } else {
        tree_sum(remain, in_tree, k - 1) + if in_tree[k - 1] {
            remain[k - 1] as nat
        } else {
            0nat
        }
    }
}

/// Number of rooms `r < k` not yet in the tree.
pub open spec fn count_outside(in_tree: Seq<bool>, k: int) -> nat
    decreases k,
{
    if k <= 0 {
        0
    } else {
        count_outside(in_tree, k - 1) + if in_tree[k - 1] {
            0nat
        } else {
            1nat
        }
    }
}

/// The rows of door slots, as sequences.
pub open spec fn slot_rows(v: Seq<Vec<Option<usize>>>) -> Seq<Seq<Option<usize>>> {
    v.map_values(|row: Vec<Option<usize>>| row@)
}

/// `s` rooms of six door slots; `remain[r]` counts the open slots of room `r`;
/// every connected slot leads to one of the `s` rooms.
pub open spec fn slots_ok(rows: Seq<Seq<Option<usize>>>, remain: Seq<usize>, s: nat) -> bool {
    &&& rows.len() == s
    &&& remain.len() == s
    &&& forall|r: int| 0 <= r < s ==> (#[trigger] rows[r]).len() == 6
    &&& forall|r: int| 0 <= r < s ==> #[trigger] remain[r] == count_free(rows[r], 6)
    &&& forall|r: int, d: int| 0 <= r < s && 0 <= d < 6 && (#[trigger] rows[r][d]) is Some ==> rows[r][d]->0 < s
}

pub proof fn lemma_count_free_bounds(row: Seq<Option<usize>>, k: int)
    requires
        0 <= k,
    ensures
        count_free(row, k) <= k,
    decreases k,
{
    if k > 0 {
        lemma_count_free_bounds(row, k - 1);
    }
}

pub proof fn lemma_count_free_update(row: Seq<Option<usize>>, d: int, x: Option<usize>, k: int)
    requires
        0 <= d < row.len(),
        0 <= k <= row.len(),
    ensures
        count_free(row.update(d, x), k) + (if d < k && row[d] is None { 1nat } else { 0nat })
            == count_free(row, k) + (if d < k && x is None { 1nat } else { 0nat }),
    decreases k,
{
    if k > 0 {
        lemma_count_free_update(row, d, x, k - 1);
    }
}

pub proof fn lemma_count_free_zero(row: Seq<Option<usize>>, k: int)
    requires
        0 <= k <= row.len(),
        count_free(row, k) == 0,
    ensures
        forall|d: int| 0 <= d < k ==> #[trigger] row[d] is Some,
    decreases k,
{
    if k > 0 {
        lemma_count_free_zero(row, k - 1);
    }
}

pub proof fn lemma_count_free_all(row: Seq<Option<usize>>, k: int)
    requires
        0 <= k <= row.len(),
        forall|d: int| 0 <= d < k ==> #[trigger] row[d] is None,
    ensures
        count_free(row, k) == k,
    decreases k,
{
    if k > 0 {
        lemma_count_free_all(row, k - 1);
    }
}

pub proof fn lemma_tree_sum_update(remain: Seq<usize>, in_tree: Seq<bool>, r: int, x: usize, k: int)
    requires
        0 <= r < remain.len(),
        0 <= k <= remain.len(),
        k <= in_tree.len(),
    ensures
        tree_sum(remain.update(r, x), in_tree, k) + (if r < k && in_tree[r] { remain[r] as nat } else { 0nat })
            == tree_sum(remain, in_tree, k) + (if r < k && in_tree[r] { x as nat } else { 0nat }),
    decreases k,
{
    if k > 0 {
        lemma_tree_sum_update(remain, in_tree, r, x, k - 1);
    }
}

pub proof fn lemma_tree_sum_join(remain: Seq<usize>, in_tree: Seq<bool>, r: int, k: int)
    requires
        0 <= r < in_tree.len(),
        0 <= k <= in_tree.len(),
        k <= remain.len(),
        !in_tree[r],
    ensures
        tree_sum(remain, in_tree.update(r, true), k) == tree_sum(remain, in_tree, k) + (if r < k { remain[r] as nat } else { 0nat }),
        count_outside(in_tree.update(r, true), k) + (if r < k { 1nat } else { 0nat }) == count_outside(in_tree, k),
    decreases k,
{
    if k > 0 {
        lemma_tree_sum_join(remain, in_tree, r, k - 1);
    }
}

pub proof fn lemma_tree_sum_prefix(remain: Seq<usize>, in_tree: Seq<bool>, j: int, k: int)
    requires
        0 <= j <= k,
    ensures
        tree_sum(remain, in_tree, j) <= tree_sum(remain, in_tree, k),
        count_outside(in_tree, j) <= count_outside(in_tree, k),
    decreases k,
{
    if k > j {
        lemma_tree_sum_prefix(remain, in_tree, j, k - 1);
    }
}

pub proof fn lemma_count_outside_zero(in_tree: Seq<bool>, k: int)
    requires
        0 <= k <= in_tree.len(),
        count_outside(in_tree, k) == 0,
    ensures
        forall|r: int| 0 <= r < k ==> #[trigger] in_tree[r],
    decreases k,
{
    if k > 0 {
        lemma_count_outside_zero(in_tree, k - 1);
    }
}

pub proof fn lemma_count_outside_all(remain: Seq<usize>, in_tree: Seq<bool>, k: int)
    requires
        0 <= k <= in_tree.len(),
        forall|r: int| 0 <= r < in_tree.len() ==> !#[trigger] in_tree[r],
    ensures
        count_outside(in_tree, k) == k,
        tree_sum(remain, in_tree, k) == 0,
    decreases k,
{
    if k > 0 {
        lemma_count_outside_all(remain, in_tree, k - 1);
    }
}

/// The position `d` of the `index`-th open slot of `row`.
pub fn nth_free_door(row: &Vec<Option<usize>>, index: usize) -> (d: usize)
    requires
        row@.len() == 6,
        index < count_free(row@, 6),
    ensures
        d < 6,
        row@[d as int] is None,
        count_free(row@, d as int) == index,
{
    let mut idx = index;
    let mut d: usize = 0;
    while d < 6
        invariant
            row@.len() == 6,
            d <= 6,
            idx + count_free(row@, d as int) == index,
            index < count_free(row@, 6),
        decreases 6 - d,
    {
        proof {
            lemma_count_free_mono(row@, d as int, 6);
        }
        if row[d].is_none() {
            if idx == 0 {
                return d;
            }
            idx = idx - 1;
        }
        d = d + 1;
    }
    proof {
        assert(false);
    }
    0
}

pub proof fn lemma_count_free_mono(row: Seq<Option<usize>>, j: int, k: int)
    requires
        0 <= j <= k,
    ensures
        count_free(row, j) <= count_free(row, k),
    decreases k,
{
    if k > j {
        lemma_count_free_mono(row, j, k - 1);
    }
}

/// Walks the open slots of the rooms in the tree, in order of their index, and
/// returns the room that holds the `index`-th one, with the position of that slot
/// among the room's own.
pub fn pick_room(in_tree: &Vec<bool>, remain: &Vec<usize>, index: usize) -> (res: (usize, usize))
    requires
        in_tree@.len() == remain@.len(),
        index < tree_sum(remain@, in_tree@, remain@.len() as int),
    ensures
        res.0 < remain@.len(),
        in_tree@[res.0 as int],
        res.1 < remain@[res.0 as int],
        tree_sum(remain@, in_tree@, res.0 as int) + res.1 == index,
{
    let mut idx = index;
    let mut k: usize = 0;
    while k < remain.len()
        invariant
            in_tree@.len() == remain@.len(),
            k <= remain@.len(),
            idx + tree_sum(remain@, in_tree@, k as int) == index,
            index < tree_sum(remain@, in_tree@, remain@.len() as int),
        decreases remain@.len() - k,
    {
        proof {
            lemma_tree_sum_prefix(remain@, in_tree@, k + 1, remain@.len() as int);
        }
        if in_tree[k] {
            if idx < remain[k] {
                return (k, idx);
            }
            idx = idx - remain[k];
        }
        k = k + 1;
    }
    proof {
        assert(false);
    }
    (0, 0)
}

/// The `index`-th room, in order of index, that is not in the tree yet.
pub fn nth_outside(in_tree: &Vec<bool>, index: usize) -> (r: usize)
    requires
        index < count_outside(in_tree@, in_tree@.len() as int),
    ensures
        r < in_tree@.len(),
        !in_tree@[r as int],
        count_outside(in_tree@, r as int) == index,
{
    let mut idx = index;
    let mut k: usize = 0;
    while k < in_tree.len()
        invariant
            k <= in_tree@.len(),
            idx + count_outside(in_tree@, k as int) == index,
            index < count_outside(in_tree@, in_tree@.len() as int),
        decreases in_tree@.len() - k,
    {
        proof {
            lemma_tree_sum_prefix(Seq::<usize>::empty(), in_tree@, k + 1, in_tree@.len() as int);
        }
        if !in_tree[k] {
            if idx == 0 {
                return k;
            }
            idx = idx - 1;
        }
        k = k + 1;
    }
    proof {
        assert(false);
    }
    0
}

pub proof fn lemma_tree_sum_ge(remain: Seq<usize>, in_tree: Seq<bool>, r: int, k: int)
    requires
        0 <= r < k,
        in_tree[r],
    ensures
        tree_sum(remain, in_tree, k) >= remain[r],
    decreases k,
{
    if k > r + 1 {
        lemma_tree_sum_ge(remain, in_tree, r, k - 1);
    }
}

/// Sets door `d` of room `r` to lead to `t`, keeping the count of open doors.
fn connect_slot(
    conns: &mut Vec<Vec<Option<usize>>>,
    remain: &mut Vec<usize>,
    r: usize,
    d: usize,
    t: usize,
    Ghost(s): Ghost<nat>,
)
    requires
        slots_ok(slot_rows(old(conns)@), old(remain)@, s),
        r < s,
        d < 6,
        t < s,
        slot_rows(old(conns)@)[r as int][d as int] is None,
    ensures
        slots_ok(slot_rows(final(conns)@), final(remain)@, s),
        slot_rows(final(conns)@) == slot_rows(old(conns)@).update(
            r as int,
            slot_rows(old(conns)@)[r as int].update(d as int, Some(t)),
        ),
        final(remain)@ == old(remain)@.update(r as int, (old(remain)@[r as int] - 1) as usize),
        old(remain)@[r as int] >= 1,
{
    let ghost rows0 = slot_rows(conns@);
    proof {
        assert(rows0[r as int] == conns@[r as int]@);
        lemma_count_free_update(rows0[r as int], d as int, Some(t), 6);
    }
    conns[r][d] = Some(t);
    let left = remain[r] - 1;
    remain.set(r, left);
    proof {
        let rows1 = slot_rows(conns@);
        assert(rows1 =~= rows0.update(r as int, rows0[r as int].update(d as int, Some(t))));
        assert forall|q: int| 0 <= q < s implies #[trigger] remain@[q] == count_free(rows1[q], 6) by {
            if q != r {
                assert(rows1[q] == rows0[q]);
            }
        }
        assert forall|q: int, e: int|
            0 <= q < s && 0 <= e < 6 && (#[trigger] rows1[q][e]) is Some implies rows1[q][e]->0 < s by {
            if q != r || e != d {
                assert(rows1[q][e] == rows0[q][e]);
            }
        }
    }
}

/// The door slots, open-door counts and tree membership of the rooms while the
/// spanning tree grows.
pub type TreeState = (Seq<Seq<Option<usize>>>, Seq<usize>, Seq<bool>);

/// `s` rooms with all doors open, none in the tree but `start`.
pub open spec fn tree_start(s: nat, start: int) -> TreeState {
    (
        Seq::new(s, |i: int| Seq::new(6, |d: int| None::<usize>)),
        Seq::new(s, |i: int| 6usize),
        Seq::new(s, |i: int| i == start),
    )
}

/// One step of `connect_tree`: the draw `index` names an open door of the tree,
/// counting the open doors of its rooms in order (`from_room`, its `rest`-th open
/// door `from_door`); the draw `k` names the `k`-th room outside the tree
/// (`to_room`), and the draw `to_door` one of its doors; the two doors are
/// joined and `to_room` enters the tree. `step` holds the three draws, then
/// `from_room`, `rest`, `from_door` and `to_room`.
pub open spec fn tree_step(st: TreeState, next: TreeState, s: nat, step: (int, int, int, int, int, int, int)) -> bool {
    let index = step.0;
    let k = step.1;
    let to_door = step.2;
    let from_room = step.3;
    let rest = step.4;
    let from_door = step.5;
    let to_room = step.6;
    let joined = connect_spec(
        connect_spec((st.0, st.1), from_room, from_door, to_room as usize),
        to_room,
        to_door,
        from_room as usize,
    );
    &&& 0 <= index < tree_sum(st.1, st.2, s as int)
    &&& 0 <= from_room < s
    &&& st.2[from_room]
    &&& 0 <= rest < st.1[from_room]
    &&& tree_sum(st.1, st.2, from_room) + rest == index
    &&& 0 <= from_door < 6
    &&& st.0[from_room][from_door] is None
    &&& count_free(st.0[from_room], from_door) == rest
    &&& 0 <= k < count_outside(st.2, s as int)
    &&& 0 <= to_room < s
    &&& !st.2[to_room]
    &&& count_outside(st.2, to_room) == k
    &&& 0 <= to_door < 6
    &&& next == (joined.0, joined.1, st.2.update(to_room, true))
}

/// `states` and `steps` trace the first `k` steps of `connect_tree` from
/// `start` (see `tree_step`).
pub open spec fn tree_trace(
    start: TreeState,
    s: nat,
    states: Seq<TreeState>,
    steps: Seq<(int, int, int, int, int, int, int)>,
    k: int,
) -> bool {
    &&& states.len() == k + 1
    &&& steps.len() == k
    &&& states[0] == start
    &&& forall|i: int| 0 <= i < k ==> tree_step(states[i], states[i + 1], s, #[trigger] steps[i])
}

/// Builds `s` rooms, all of whose doors are open, and links them by a random
/// spanning tree grown from `start`: each new room is drawn among those outside
/// the tree, and joined through a random door of its own to an open door drawn
/// uniformly among the open doors of the tree. Returns the door slots, the
/// number of open doors of each room, and that they total `4 s + 2`.
pub fn connect_tree(s: usize, rng: &mut StdRng, start: usize) -> (res: (Vec<Vec<Option<usize>>>, Vec<usize>, usize))
    requires
        0 < s <= usize::MAX / 8,
        start < s,
    ensures
        slots_ok(slot_rows(res.0@), res.1@, s as nat),
        res.2 == tree_sum(res.1@, Seq::new(s as nat, |i: int| true), s as int),
        res.2 == 4 * s + 2,
        slots_paired(slot_rows(res.0@), s as nat),
        forall|r: int| 0 <= r < s ==> #[trigger] slot_reaches(slot_rows(res.0@), start, r as usize),
        exists|states: Seq<TreeState>, steps: Seq<(int, int, int, int, int, int, int)>|
            #[trigger] tree_trace(tree_start(s as nat, start as int), s as nat, states, steps, s - 1) && states[s - 1].0
                == slot_rows(res.0@) && states[s - 1].1 == res.1@,
{
    let mut conns: Vec<Vec<Option<usize>>> = Vec::new();
    let mut remain: Vec<usize> = Vec::new();
    let mut in_tree: Vec<bool> = Vec::new();
    let mut i: usize = 0;
    while i < s
        invariant
            i <= s,
            conns@.len() == i,
            remain@.len() == i,
            in_tree@.len() == i,
            forall|q: int| 0 <= q < i ==> #[trigger] conns@[q]@ == seq![None::<usize>, None, None, None, None, None],
            forall|q: int| 0 <= q < i ==> #[trigger] remain@[q] == 6,
            forall|q: int| 0 <= q < i ==> !#[trigger] in_tree@[q],
        decreases s - i,
    {
        conns.push(vec![None, None, None, None, None, None]);
        remain.push(6);
        in_tree.push(false);
        i = i + 1;
    }
    proof {
        let rows = slot_rows(conns@);
        assert forall|q: int| 0 <= q < s implies #[trigger] remain@[q] == count_free(rows[q], 6) by {
            assert(rows[q] == conns@[q]@);
            lemma_count_free_all(rows[q], 6);
        }
        lemma_count_outside_all(remain@, in_tree@, s as int);
        lemma_tree_sum_join(remain@, in_tree@, start as int, s as int);
        assert forall|a: int, b: int|
            0 <= a < s && 0 <= b < s && a != b implies #[trigger] count_slot(rows[a], b as usize, 6) == #[trigger] count_slot(
            rows[b],
            a as usize,
            6,
        ) by {
            assert(rows[a] == conns@[a]@);
            assert(rows[b] == conns@[b]@);
            lemma_count_slot_none(rows[a], b as usize, 6);
            lemma_count_slot_none(rows[b], a as usize, 6);
        }
        assert(slot_walk(rows, start, Seq::<usize>::empty()) == Some(start));
        assert(crate::problem::is_door_path(Seq::<usize>::empty()));
        assert(slot_reaches(rows, start, start));
    }
    in_tree.set(start, true);
    let ghost init = tree_start(s as nat, start as int);
    proof {
        assert(slot_rows(conns@) =~= init.0) by {
            assert forall|q: int| 0 <= q < s implies #[trigger] slot_rows(conns@)[q] =~= init.0[q] by {
                assert(slot_rows(conns@)[q] == conns@[q]@);
            }
        }
        assert(remain@ =~= init.1);
        assert(in_tree@ =~= init.2);
    }
    let ghost mut states: Seq<TreeState> = seq![init];
    let ghost mut steps: Seq<(int, int, int, int, int, int, int)> = Seq::empty();
    let mut outside: usize = s - 1;
    let mut available: usize = 6;
    while outside > 0
        invariant
            0 < s <= usize::MAX / 8,
            start < s,
            slots_ok(slot_rows(conns@), remain@, s as nat),
            in_tree@.len() == s,
            in_tree@[start as int],
            forall|q: int| 0 <= q < s && !#[trigger] in_tree@[q] ==> conns@[q]@ == seq![None::<usize>, None, None, None, None, None],
            outside == count_outside(in_tree@, s as int),
            outside < s,
            available == tree_sum(remain@, in_tree@, s as int),
            available == 4 * (s - outside) + 2,
            slots_paired(slot_rows(conns@), s as nat),
            forall|r: int| 0 <= r < s && #[trigger] in_tree@[r] ==> slot_reaches(slot_rows(conns@), start, r as usize),
            init == tree_start(s as nat, start as int),
            tree_trace(init, s as nat, states, steps, s - 1 - outside),
            states.last() == (slot_rows(conns@), remain@, in_tree@),
        decreases outside,
    {
        let ghost rows0 = slot_rows(conns@);
        let ghost tree0 = in_tree@;
        let ghost st0: TreeState = (slot_rows(conns@), remain@, in_tree@);
        let index = std_random_range(rng, 0, available);
        let (from_room, rest) = pick_room(&in_tree, &remain, index);
        proof {
            assert(rows0[from_room as int] == conns@[from_room as int]@);
        }
        let from_door = nth_free_door(&conns[from_room], rest);
        let k = std_random_range(rng, 0, outside);
        let to_room = nth_outside(&in_tree, k);
        let to_door = std_random_range(rng, 0, 6);
        proof {
            assert(rows0[to_room as int] == conns@[to_room as int]@);
            lemma_count_free_all(rows0[to_room as int], 6);
            lemma_tree_sum_join(remain@, in_tree@, to_room as int, s as int);
            lemma_join_step(rows0, s as nat, start, from_room as int, from_door as int, to_room as int, to_door as int);
        }
        in_tree.set(to_room, true);
        outside = outside - 1;
        available = available + 6;
        let ghost in1 = in_tree@;
        let ghost rem0 = remain@;
        connect_slot(&mut conns, &mut remain, from_room, from_door, to_room, Ghost(s as nat));
        proof {
            lemma_tree_sum_update(rem0, in1, from_room as int, remain@[from_room as int], s as int);
            assert(slot_rows(conns@)[to_room as int] == rows0[to_room as int]);
        }
        let ghost rem1 = remain@;
        connect_slot(&mut conns, &mut remain, to_room, to_door, from_room, Ghost(s as nat));
        proof {
            lemma_tree_sum_update(rem1, in1, to_room as int, remain@[to_room as int], s as int);
            assert forall|q: int| 0 <= q < s && !#[trigger] in_tree@[q] implies conns@[q]@ == seq![None::<usize>, None, None, None, None, None] by {
                assert(slot_rows(conns@)[q] == rows0[q]);
            }
            let rows1 = rows0.update(from_room as int, rows0[from_room as int].update(from_door as int, Some(to_room)));
            assert(slot_rows(conns@) == rows1.update(to_room as int, rows1[to_room as int].update(to_door as int, Some(from_room))));
            assert forall|r: int| 0 <= r < s && #[trigger] in_tree@[r] implies slot_reaches(slot_rows(conns@), start, r as usize) by {
                if r != to_room {
                    assert(tree0[r]);
                    assert(slot_reaches(rows0, start, r as usize));
                } else {
                    assert(tree0[from_room as int]);
                    assert(slot_reaches(rows0, start, from_room));
                }
            }
        }
        available = available - 2;
        proof {
            let step = (
                index as int,
                k as int,
                to_door as int,
                from_room as int,
                rest as int,
                from_door as int,
                to_room as int,
            );
            let old_states = states;
            let old_steps = steps;
            let j = s - 1 - (outside + 1);
            assert(tree_step(st0, (slot_rows(conns@), remain@, in_tree@), s as nat, step));
            states = states.push((slot_rows(conns@), remain@, in_tree@));
            steps = steps.push(step);
            assert forall|i: int| 0 <= i < j + 1 implies tree_step(states[i], states[i + 1], s as nat, #[trigger] steps[i]) by {
                if i < j {
                    assert(steps[i] == old_steps[i]);
                    assert(states[i] == old_states[i] && states[i + 1] == old_states[i + 1]);
                    assert(tree_step(old_states[i], old_states[i + 1], s as nat, old_steps[i]));
                } else {
                    assert(states[i] == st0);
                }
            }
        }
    }
    proof {
        lemma_count_outside_zero(in_tree@, s as int);
        assert(in_tree@ =~= Seq::new(s as nat, |i: int| true));
        assert forall|r: int| 0 <= r < s implies #[trigger] slot_reaches(slot_rows(conns@), start, r as usize) by {
            assert(in_tree@[r]);
        }
    }
    proof {
        assert(tree_trace(init, s as nat, states, steps, s - 1));
    }
    (conns, remain, available)
}

/// The door slots and open-door counts of the rooms while doors are connected.
pub type SlotState = (Seq<Seq<Option<usize>>>, Seq<usize>);

/// `st` with door `d` of room `r` connected to room `t`.
pub open spec fn connect_spec(st: SlotState, r: int, d: int, t: usize) -> SlotState {
    (st.0.update(r, st.0[r].update(d, Some(t))), st.1.update(r, (st.1[r] - 1) as usize))
}

/// One step of `fill_doors`, for door `d` of room `r`: an open door is joined to
/// the open door that the draw `index` names, counting the open doors of all
/// rooms in order (`to_room`, its `rest`-th open door `to_door`), both ends at
/// once unless it is the door itself; a connected door is left as it is.
pub open spec fn fill_step(st: SlotState, next: SlotState, s: nat, r: int, d: int, draw: (int, int, int, int)) -> bool {
    let index = draw.0;
    let to_room = draw.1;
    let rest = draw.2;
    let to_door = draw.3;
    if st.0[r][d] is Some {
        next == st
    } else {
        &&& 0 <= index < tree_sum(st.1, Seq::new(s, |i: int| true), s as int)
        &&& 0 <= to_room < s
        &&& 0 <= rest < st.1[to_room]
        &&& tree_sum(st.1, Seq::new(s, |i: int| true), to_room) + rest == index
        &&& 0 <= to_door < 6
        &&& st.0[to_room][to_door] is None
        &&& count_free(st.0[to_room], to_door) == rest
        &&& next == if to_room == r && to_door == d {
            connect_spec(st, r, d, to_room as usize)
        } else {
            connect_spec(connect_spec(st, r, d, to_room as usize), to_room, to_door, r as usize)
        }
    }
}

/// `states` and `draws` trace `fill_doors` from `start` over the first `k` doors
/// (door `d` of room `r` being the `6 r + d`-th), one draw per door.
pub open spec fn fill_trace(start: SlotState, s: nat, states: Seq<SlotState>, draws: Seq<(int, int, int, int)>, k: int) -> bool {
    &&& states.len() == k + 1
    &&& draws.len() == k
    &&& states[0] == start
    &&& forall|i: int| 0 <= i < k ==> fill_step(states[i], states[i + 1], s, i / 6, i % 6, #[trigger] draws[i])
}

/// Connects every door still open, in order of room and door: the other end is
/// drawn uniformly among all open doors (the door itself included, which makes a
/// loop on the same door). Returns the door targets.
pub fn fill_doors(
    conns: Vec<Vec<Option<usize>>>,
    remain: Vec<usize>,
    available: usize,
    s: usize,
    rng: &mut StdRng,
) -> (res: Vec<Vec<usize>>)
    requires
        0 < s,
        slots_ok(slot_rows(conns@), remain@, s as nat),
        available == tree_sum(remain@, Seq::new(s as nat, |i: int| true), s as int),
        slots_paired(slot_rows(conns@), s as nat),
    ensures
        forall|a: int, b: int|
            0 <= a < s && 0 <= b < s && a != b ==> #[trigger] crate::union_find::count_eq(res@[a]@, b as usize, 6)
                == #[trigger] crate::union_find::count_eq(res@[b]@, a as usize, 6),
        res@.len() == s,
        forall|r: int| 0 <= r < s ==> (#[trigger] res@[r])@.len() == 6,
        forall|r: int, d: int| 0 <= r < s && 0 <= d < 6 ==> #[trigger] res@[r]@[d] < s,
        forall|r: int, d: int|
            0 <= r < s && 0 <= d < 6 && #[trigger] slot_rows(conns@)[r][d] is Some ==> res@[r]@[d]
                == slot_rows(conns@)[r][d]->0,
        exists|states: Seq<SlotState>, draws: Seq<(int, int, int, int)>|
            #[trigger] fill_trace((slot_rows(conns@), remain@), s as nat, states, draws, 6 * s) && forall|r: int, d: int|
                0 <= r < s && 0 <= d < 6 ==> #[trigger] res@[r]@[d] == states[6 * s].0[r][d]->0,
{
    let ghost conns0 = slot_rows(conns@);
    let ghost remain0 = remain@;
    let ghost start: SlotState = (slot_rows(conns@), remain@);
    let ghost mut states: Seq<SlotState> = seq![start];
    let ghost mut draws: Seq<(int, int, int, int)> = Seq::empty();
    let mut conns = conns;
    let mut remain = remain;
    let mut available = available;
    let mut in_tree: Vec<bool> = Vec::new();
    let mut i: usize = 0;
    while i < s
        invariant
            i <= s,
            in_tree@ == Seq::new(i as nat, |q: int| true),
        decreases s - i,
    {
        in_tree.push(true);
        i = i + 1;
        proof {
            assert(in_tree@ =~= Seq::new(i as nat, |q: int| true));
        }
    }
    let mut from_room: usize = 0;
    while from_room < s
        invariant
            0 < s,
            from_room <= s,
            slots_ok(slot_rows(conns@), remain@, s as nat),
            in_tree@ == Seq::new(s as nat, |q: int| true),
            available == tree_sum(remain@, in_tree@, s as int),
            slots_paired(slot_rows(conns@), s as nat),
            forall|r: int, d: int| 0 <= r < from_room && 0 <= d < 6 ==> #[trigger] slot_rows(conns@)[r][d] is Some,
            forall|r: int, d: int|
                0 <= r < s && 0 <= d < 6 && #[trigger] conns0[r][d] is Some ==> slot_rows(conns@)[r][d] == conns0[r][d],
            fill_trace(start, s as nat, states, draws, from_room * 6 + 0),
            states.last() == (slot_rows(conns@), remain@),
        decreases s - from_room,
    {
        let mut from_door: usize = 0;
        while from_door < 6
            invariant
                0 < s,
                from_room < s,
                from_door <= 6,
                slots_ok(slot_rows(conns@), remain@, s as nat),
                in_tree@ == Seq::new(s as nat, |q: int| true),
                available == tree_sum(remain@, in_tree@, s as int),
                slots_paired(slot_rows(conns@), s as nat),
                forall|r: int, d: int| 0 <= r < from_room && 0 <= d < 6 ==> #[trigger] slot_rows(conns@)[r][d] is Some,
                forall|d: int| 0 <= d < from_door ==> #[trigger] slot_rows(conns@)[from_room as int][d] is Some,
                forall|r: int, d: int|
                    0 <= r < s && 0 <= d < 6 && #[trigger] conns0[r][d] is Some ==> slot_rows(conns@)[r][d] == conns0[r][d],
                fill_trace(start, s as nat, states, draws, from_room * 6 + from_door),
                states.last() == (slot_rows(conns@), remain@),
            decreases 6 - from_door,
        {
            let ghost rows0 = slot_rows(conns@);
            let ghost st0: SlotState = (slot_rows(conns@), remain@);
            let ghost mut draw: (int, int, int, int) = (0, 0, 0, 0);
            proof {
                assert(rows0[from_room as int] == conns@[from_room as int]@);
                lemma_fundamental_div_mod_converse(from_room * 6 + from_door, 6, from_room as int, from_door as int);
            }
            if conns[from_room][from_door].is_none() {
                proof {
                    lemma_count_free_update(rows0[from_room as int], from_door as int, Some(0), 6);
                    lemma_count_free_bounds(rows0[from_room as int].update(from_door as int, Some(0)), 6);
                    lemma_tree_sum_ge(remain@, in_tree@, from_room as int, s as int);
                }
                let index = std_random_range(rng, 0, available);
                let (to_room, rest) = pick_room(&in_tree, &remain, index);
                proof {
                    assert(rows0[to_room as int] == conns@[to_room as int]@);
                }
                let to_door = nth_free_door(&conns[to_room], rest);
                proof {
                    draw = (index as int, to_room as int, rest as int, to_door as int);
                    lemma_join_step(rows0, s as nat, 0, from_room as int, from_door as int, to_room as int, to_door as int);
                }
                let ghost rem0 = remain@;
                connect_slot(&mut conns, &mut remain, from_room, from_door, to_room, Ghost(s as nat));
                proof {
                    lemma_tree_sum_update(rem0, in_tree@, from_room as int, remain@[from_room as int], s as int);
                }
                available = available - 1;
                if !(from_room == to_room && from_door == to_door) {
                    let ghost rem1 = remain@;
                    proof {
                        assert(slot_rows(conns@)[to_room as int][to_door as int] == rows0[to_room as int][to_door as int]);
                    }
                    connect_slot(&mut conns, &mut remain, to_room, to_door, from_room, Ghost(s as nat));
                    proof {
                        lemma_tree_sum_update(rem1, in_tree@, to_room as int, remain@[to_room as int], s as int);
                    }
                    available = available - 1;
                }
                proof {
                    let rows1 = rows0.update(from_room as int, rows0[from_room as int].update(from_door as int, Some(to_room)));
                    if from_room == to_room && from_door == to_door {
                        assert(slot_rows(conns@) == rows1);
                    } else {
                        assert(slot_rows(conns@) == rows1.update(to_room as int, rows1[to_room as int].update(to_door as int, Some(from_room))));
                    }
                }
            }
            proof {
                let old_states = states;
                let old_draws = draws;
                let k = from_room * 6 + from_door;
                assert(fill_step(st0, (slot_rows(conns@), remain@), s as nat, from_room as int, from_door as int, draw));
                states = states.push((slot_rows(conns@), remain@));
                draws = draws.push(draw);
                assert forall|i: int| 0 <= i < k + 1 implies fill_step(
                    states[i],
                    states[i + 1],
                    s as nat,
                    i / 6,
                    i % 6,
                    #[trigger] draws[i],
                ) by {
                    if i < k {
                        assert(draws[i] == old_draws[i]);
                        assert(states[i] == old_states[i] && states[i + 1] == old_states[i + 1]);
                        assert(fill_step(old_states[i], old_states[i + 1], s as nat, i / 6, i % 6, old_draws[i]));
                    } else {
                        assert(states[i] == st0);
                    }
                }
            }
            from_door = from_door + 1;
        }
        from_room = from_room + 1;
    }
    let mut res: Vec<Vec<usize>> = Vec::new();
    let mut r: usize = 0;
    while r < s
        invariant
            r <= s,
            slots_ok(slot_rows(conns@), remain@, s as nat),
            forall|q: int, d: int| 0 <= q < s && 0 <= d < 6 ==> #[trigger] slot_rows(conns@)[q][d] is Some,
            forall|q: int, d: int|
                0 <= q < s && 0 <= d < 6 && #[trigger] conns0[q][d] is Some ==> slot_rows(conns@)[q][d] == conns0[q][d],
            res@.len() == r,
            fill_trace(start, s as nat, states, draws, 6 * s),
            states[6 * s].0 == slot_rows(conns@),
            start == (conns0, remain0),
            forall|q: int| 0 <= q < r ==> (#[trigger] res@[q])@.len() == 6,
            forall|q: int, d: int| 0 <= q < r && 0 <= d < 6 ==> #[trigger] res@[q]@[d] == slot_rows(conns@)[q][d]->0,
        decreases s - r,
    {
        let ghost row = slot_rows(conns@)[r as int];
        proof {
            assert(row == conns@[r as int]@);
        }
        let mut out: Vec<usize> = Vec::new();
        let mut d: usize = 0;
        while d < 6
            invariant
                r < s,
                d <= 6,
                conns@.len() == s,
                row == conns@[r as int]@,
                row.len() == 6,
                forall|e: int| 0 <= e < 6 ==> #[trigger] row[e] is Some,
                out@.len() == d,
                forall|e: int| 0 <= e < d ==> #[trigger] out@[e] == row[e]->0,
            decreases 6 - d,
        {
            let v = conns[r][d].unwrap();
            out.push(v);
            d = d + 1;
        }
        res.push(out);
        r = r + 1;
    }
    proof {
        let full = crate::problem::rows(res@);
        assert forall|q: int| 0 <= q < s implies (#[trigger] slot_rows(conns@)[q]).len() == 6 && full[q].len() == 6 by {
            assert(full[q] == res@[q]@);
        }
        assert forall|q: int, e: int| 0 <= q < s && 0 <= e < 6 implies (#[trigger] slot_rows(conns@)[q][e]) is Some
            && full[q][e] == slot_rows(conns@)[q][e]->0 by {
            assert(full[q] == res@[q]@);
        }
        lemma_paired_full(slot_rows(conns@), full, s as nat);
        assert(fill_trace(start, s as nat, states, draws, 6 * s));
        assert forall|a: int, b: int|
            0 <= a < s && 0 <= b < s && a != b implies #[trigger] crate::union_find::count_eq(res@[a]@, b as usize, 6)
                == #[trigger] crate::union_find::count_eq(res@[b]@, a as usize, 6) by {
            assert(full[a] == res@[a]@);
            assert(full[b] == res@[b]@);
        }
    }
    res
}

/// The room reached from `start` through the doors `p` along connected slots;
/// `None` where an open slot is met on the way.
pub open spec fn slot_walk(rows: Seq<Seq<Option<usize>>>, start: usize, p: Seq<usize>) -> Option<usize>
    decreases p.len(),
{
    if p.len() == 0 {
        Some(start)
    } else {
        match slot_walk(rows, start, p.drop_last()) {
            Some(r) => rows[r as int][p.last() as int],
            None => None,
        }
    }
}

/// Room `r` can be reached from `start` along connected slots.
pub open spec fn slot_reaches(rows: Seq<Seq<Option<usize>>>, start: usize, r: usize) -> bool {
    exists|p: Seq<usize>| crate::problem::is_door_path(p) && #[trigger] slot_walk(rows, start, p) == Some(r)
}

/// Number of the first `k` slots of `row` connected to room `b`.
pub open spec fn count_slot(row: Seq<Option<usize>>, b: usize, k: int) -> nat
    decreases k,
{
    if k <= 0 {
        0
    } else {
        count_slot(row, b, k - 1) + if row[k - 1] == Some(b) {
            1nat
        } else {
            0nat
        }
    }
}

/// Between any two different rooms, each has as many slots connected to the other
/// as the other has back.
pub open spec fn slots_paired(rows: Seq<Seq<Option<usize>>>, s: nat) -> bool {
    forall|a: int, b: int|
        0 <= a < s && 0 <= b < s && a != b ==> #[trigger] count_slot(rows[a], b as usize, 6) == #[trigger] count_slot(
            rows[b],
            a as usize,
            6,
        )
}

proof fn lemma_count_slot_update(row: Seq<Option<usize>>, d: int, x: Option<usize>, b: usize, k: int)
    requires
        0 <= d < row.len(),
        0 <= k <= row.len(),
    ensures
        count_slot(row.update(d, x), b, k) + (if d < k && row[d] == Some(b) { 1nat } else { 0nat }) == count_slot(
            row,
            b,
            k,
        ) + (if d < k && x == Some(b) { 1nat } else { 0nat }),
    decreases k,
{
    if k > 0 {
        lemma_count_slot_update(row, d, x, b, k - 1);
    }
}

/// Connecting an open slot keeps every walk along connected slots.
proof fn lemma_slot_walk_kept(
    rows: Seq<Seq<Option<usize>>>,
    r: int,
    d: int,
    t: usize,
    start: usize,
    p: Seq<usize>,
)
    requires
        0 <= r < rows.len(),
        0 <= d < 6,
        start < rows.len(),
        forall|q: int| 0 <= q < rows.len() ==> (#[trigger] rows[q]).len() == 6,
        forall|q: int, e: int|
            0 <= q < rows.len() && 0 <= e < 6 && (#[trigger] rows[q][e]) is Some ==> rows[q][e]->0 < rows.len(),
        rows[r][d] is None,
        crate::problem::is_door_path(p),
        slot_walk(rows, start, p) is Some,
    ensures
        slot_walk(rows.update(r, rows[r].update(d, Some(t))), start, p) == slot_walk(rows, start, p),
        slot_walk(rows, start, p)->0 < rows.len(),
    decreases p.len(),
{
    if p.len() > 0 {
        lemma_slot_walk_kept(rows, r, d, t, start, p.drop_last());
    }
}

/// Where all slots are connected and `full` holds their targets, a walk along
/// connected slots is a walk of the map `full`.
pub proof fn lemma_slot_walk_full(
    rows: Seq<Seq<Option<usize>>>,
    full: Seq<Seq<usize>>,
    s: nat,
    start: usize,
    p: Seq<usize>,
)
    requires
        rows.len() == s,
        start < s,
        forall|q: int, e: int| 0 <= q < s && 0 <= e < 6 && (#[trigger] rows[q][e]) is Some ==> rows[q][e]->0 < s,
        forall|q: int, e: int| 0 <= q < s && 0 <= e < 6 && (#[trigger] rows[q][e]) is Some ==> full[q][e] == rows[q][e]->0,
        crate::problem::is_door_path(p),
        slot_walk(rows, start, p) is Some,
    ensures
        crate::problem::walk(full, start, p) == slot_walk(rows, start, p)->0,
        slot_walk(rows, start, p)->0 < s,
    decreases p.len(),
{
    if p.len() > 0 {
        let q = p.drop_last();
        lemma_slot_walk_full(rows, full, s, start, q);
    }
}

proof fn lemma_count_slot_full(row: Seq<Option<usize>>, full: Seq<usize>, b: usize, k: int)
    requires
        0 <= k <= row.len(),
        k <= full.len(),
        forall|e: int| 0 <= e < k ==> (#[trigger] row[e]) is Some && full[e] == row[e]->0,
    ensures
        count_slot(row, b, k) == crate::union_find::count_eq(full, b, k),
    decreases k,
{
    if k > 0 {
        lemma_count_slot_full(row, full, b, k - 1);
    }
}

/// Where every slot is connected, `full` holds their targets and the slots are
/// paired, the doors of `full` are paired too.
pub proof fn lemma_paired_full(rows: Seq<Seq<Option<usize>>>, full: Seq<Seq<usize>>, s: nat)
    requires
        rows.len() == s,
        full.len() == s,
        forall|q: int| 0 <= q < s ==> (#[trigger] rows[q]).len() == 6 && full[q].len() == 6,
        forall|q: int, e: int| 0 <= q < s && 0 <= e < 6 ==> (#[trigger] rows[q][e]) is Some && full[q][e] == rows[q][e]->0,
        slots_paired(rows, s),
    ensures
        forall|a: int, b: int|
            0 <= a < s && 0 <= b < s && a != b ==> #[trigger] crate::union_find::count_eq(full[a], b as usize, 6)
                == #[trigger] crate::union_find::count_eq(full[b], a as usize, 6),
{
    assert forall|a: int, b: int|
        0 <= a < s && 0 <= b < s && a != b implies #[trigger] crate::union_find::count_eq(full[a], b as usize, 6)
            == #[trigger] crate::union_find::count_eq(full[b], a as usize, 6) by {
        lemma_count_slot_full(rows[a], full[a], b as usize, 6);
        lemma_count_slot_full(rows[b], full[b], a as usize, 6);
        assert(count_slot(rows[a], b as usize, 6) == count_slot(rows[b], a as usize, 6));
    }
}

proof fn lemma_count_slot_none(row: Seq<Option<usize>>, b: usize, k: int)
    requires
        0 <= k <= row.len(),
        forall|e: int| 0 <= e < k ==> (#[trigger] row[e]) is None,
    ensures
        count_slot(row, b, k) == 0,
    decreases k,
{
    if k > 0 {
        lemma_count_slot_none(row, b, k - 1);
    }
}

/// Connecting the open slot `fd` of room `from` to room `to` and the open slot
/// `td` of `to` back to `from` keeps the slots paired, and keeps every room
/// reachable from `start`; `to` becomes reachable where `from` was.
proof fn lemma_join_step(rows0: Seq<Seq<Option<usize>>>, s: nat, start: usize, from: int, fd: int, to: int, td: int)
    requires
        rows0.len() == s,
        s <= usize::MAX,
        start < s,
        forall|q: int| 0 <= q < s ==> (#[trigger] rows0[q]).len() == 6,
        forall|q: int, e: int| 0 <= q < s && 0 <= e < 6 && (#[trigger] rows0[q][e]) is Some ==> rows0[q][e]->0 < s,
        0 <= from < s,
        0 <= to < s,
        0 <= fd < 6,
        0 <= td < 6,
        rows0[from][fd] is None,
        !(from == to && fd == td) ==> rows0[to][td] is None,
        slots_paired(rows0, s),
    ensures
        ({
            let rows1 = rows0.update(from, rows0[from].update(fd, Some(to as usize)));
            let rows2 = if from == to && fd == td {
                rows1
            } else {
                rows1.update(to, rows1[to].update(td, Some(from as usize)))
            };
            &&& slots_paired(rows2, s)
            &&& forall|r: usize| #[trigger] slot_reaches(rows0, start, r) ==> slot_reaches(rows2, start, r)
            &&& slot_reaches(rows0, start, from as usize) ==> slot_reaches(rows2, start, to as usize)
        }),
{
    let rows1 = rows0.update(from, rows0[from].update(fd, Some(to as usize)));
    let rows2 = if from == to && fd == td {
        rows1
    } else {
        rows1.update(to, rows1[to].update(td, Some(from as usize)))
    };
    assert(forall|q: int| 0 <= q < s ==> (#[trigger] rows1[q]).len() == 6);
    assert forall|q: int, e: int| 0 <= q < s && 0 <= e < 6 && (#[trigger] rows1[q][e]) is Some implies rows1[q][e]->0 < s by {
        if !(q == from && e == fd) {
            assert(rows1[q][e] == rows0[q][e]);
        }
    }
    if !(from == to && fd == td) {
        assert(rows1[to][td] == rows0[to][td]);
    }
    // pairing
    assert forall|a: int, b: int|
        0 <= a < s && 0 <= b < s && a != b implies #[trigger] count_slot(rows2[a], b as usize, 6) == #[trigger] count_slot(
        rows2[b],
        a as usize,
        6,
    ) by {
        assert(count_slot(rows0[a], b as usize, 6) == count_slot(rows0[b], a as usize, 6));
        lemma_pair_counts(rows0, rows1, rows2, from, fd, to, td, a, b);
        lemma_pair_counts(rows0, rows1, rows2, from, fd, to, td, b, a);
    }
    // reachability
    assert forall|r: usize| #[trigger] slot_reaches(rows0, start, r) implies slot_reaches(rows2, start, r) by {
        let p = choose|p: Seq<usize>| crate::problem::is_door_path(p) && #[trigger] slot_walk(rows0, start, p) == Some(r);
        lemma_slot_walk_kept(rows0, from, fd, to as usize, start, p);
        if !(from == to && fd == td) {
            lemma_slot_walk_kept(rows1, to, td, from as usize, start, p);
        }
        assert(slot_walk(rows2, start, p) == Some(r));
    }
    if slot_reaches(rows0, start, from as usize) {
        let p = choose|p: Seq<usize>| crate::problem::is_door_path(p) && #[trigger] slot_walk(rows0, start, p) == Some(from as usize);
        lemma_slot_walk_kept(rows0, from, fd, to as usize, start, p);
        if !(from == to && fd == td) {
            lemma_slot_walk_kept(rows1, to, td, from as usize, start, p);
        }
        assert(slot_walk(rows2, start, p) == Some(from as usize));
        let p2 = p.push(fd as usize);
        assert(p2.drop_last() =~= p);
        assert(p2.last() == fd as usize);
        assert(rows2[from][fd] == Some(to as usize));
        assert(slot_walk(rows2, start, p2) == rows2[from][fd]);
        assert(crate::problem::is_door_path(p2));
        assert(slot_walk(rows2, start, p2) == Some(to as usize));
    }
}

/// How the count of slots of room `a` toward room `b` changes across the two
/// connections of `lemma_join_step`.
proof fn lemma_pair_counts(
    rows0: Seq<Seq<Option<usize>>>,
    rows1: Seq<Seq<Option<usize>>>,
    rows2: Seq<Seq<Option<usize>>>,
    from: int,
    fd: int,
    to: int,
    td: int,
    a: int,
    b: int,
)
    requires
        rows0.len() <= usize::MAX,
        0 <= from < rows0.len(),
        0 <= to < rows0.len(),
        0 <= a < rows0.len(),
        0 <= b < rows0.len(),
        a != b,
        0 <= fd < 6,
        0 <= td < 6,
        forall|q: int| 0 <= q < rows0.len() ==> (#[trigger] rows0[q]).len() == 6,
        rows0[from][fd] is None,
        !(from == to && fd == td) ==> rows0[to][td] is None,
        rows1 == rows0.update(from, rows0[from].update(fd, Some(to as usize))),
        rows2 == if from == to && fd == td {
            rows1
        } else {
            rows1.update(to, rows1[to].update(td, Some(from as usize)))
        },
    ensures
        count_slot(rows2[a], b as usize, 6) == count_slot(rows0[a], b as usize, 6) + if (a == from && b == to) || (a
            == to && b == from) {
            1nat
        } else {
            0nat
        },
{
    let bb = b as usize;
    lemma_count_slot_update(rows0[from], fd, Some(to as usize), bb, 6);
    assert(rows1[from] == rows0[from].update(fd, Some(to as usize)));
    assert(rows1[from].len() == 6);
    if from == to && fd == td {
        if a == from {
            assert(rows2[a] == rows1[from]);
        } else {
            assert(rows2[a] == rows0[a]);
        }
    } else {
        assert(rows1[to][td] == rows0[to][td]);
        assert(rows1[to].len() == 6);
        lemma_count_slot_update(rows1[to], td, Some(from as usize), bb, 6);
        if a == from && a == to {
            assert(rows2[a] == rows1[to].update(td, Some(from as usize)));
            assert(count_slot(rows2[a], bb, 6) == count_slot(rows1[to], bb, 6));
            assert(count_slot(rows1[to], bb, 6) == count_slot(rows0[a], bb, 6));
        } else if a == from {
            assert(rows2[a] == rows1[from]);
        } else if a == to {
            assert(rows1[to] == rows0[to]);
            assert(rows2[a] == rows1[to].update(td, Some(from as usize)));
        } else {
            assert(rows2[a] == rows0[a]);
        }
    }
}

} // verus!
