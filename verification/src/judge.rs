use vstd::prelude::*;
use vstd::string::*;

use itertools::Itertools;

use crate::problem::{all_reachable, is_embedding, is_map, plan_error_message, rows, Problem};
use crate::types::{ExploreResponse, GuessRequestConnection, GuessRequestMap, GuessResponse};

verus! {

broadcast use vstd::seq_lib::group_to_multiset_ensures;

/// `o` holds the items of `list` in some order.
pub open spec fn is_ordering(list: Seq<usize>, o: Seq<usize>) -> bool {
    o.to_multiset() == list.to_multiset()
}

/// `itertools::Itertools::permutations` of `list` with `k` its length, collected:
/// the itertools documentation promises every ordering of the items (all
/// k-permutations) and nothing else. The order in which they come is not stated.
#[verifier::external_body]
pub(crate) fn orderings_of(list: &Vec<usize>) -> (res: Vec<Vec<usize>>)
    ensures
        forall|k: int| 0 <= k < res@.len() ==> is_ordering(list@, #[trigger] res@[k]@),
        forall|o: Seq<usize>| is_ordering(list@, o) ==> exists|k: int| 0 <= k < res@.len() && #[trigger] res@[k]@ == o,
{
    list.iter().copied().permutations(list.len()).collect()
}

/// `x` is one of the options of list `i`.
pub open spec fn is_option(options: Seq<Seq<Seq<usize>>>, i: int, x: Seq<usize>) -> bool {
    exists|j: int| 0 <= j < options[i].len() && #[trigger] options[i][j] == x
}

/// One option of each list.
pub open spec fn is_pick(options: Seq<Seq<Seq<usize>>>, c: Seq<Seq<usize>>) -> bool {
    &&& c.len() == options.len()
    &&& forall|i: int| 0 <= i < c.len() ==> #[trigger] is_option(options, i, c[i])
}

/// The view of a list of lists.
pub open spec fn views2(v: Seq<Vec<usize>>) -> Seq<Seq<usize>> {
    v.map_values(|y: Vec<usize>| y@)
}

/// The view of a list of lists of lists.
pub open spec fn views3(v: Seq<Vec<Vec<usize>>>) -> Seq<Seq<Seq<usize>>> {
    v.map_values(|x: Vec<Vec<usize>>| views2(x@))
}

/// `itertools::Itertools::multi_cartesian_product` of the option lists, collected:
/// the itertools documentation promises every way to pick one option of each list
/// and nothing else. The order in which they come is not stated.
#[verifier::external_body]
pub(crate) fn picks_of(options: &Vec<Vec<Vec<usize>>>) -> (res: Vec<Vec<Vec<usize>>>)
    ensures
        forall|k: int| 0 <= k < res@.len() ==> is_pick(views3(options@), #[trigger] views2(res@[k]@)),
        forall|c: Seq<Seq<usize>>|
            is_pick(views3(options@), c) ==> exists|k: int|
                0 <= k < res@.len() && #[trigger] views2(res@[k]@) == c,
{
    options.iter().map(|o| o.iter().cloned()).multi_cartesian_product().collect()
}

/// Every option of list `i` orders the rooms of label `i`.
pub open spec fn options_sound(options: Seq<Seq<Seq<usize>>>, rooms: Seq<i8>, i: int) -> bool {
    forall|q: int| 0 <= q < options[i].len() ==> is_ordering(label_lists(rooms)[i], #[trigger] options[i][q])
}

/// Every ordering of the rooms of label `i` is an option of list `i`.
pub open spec fn options_complete(options: Seq<Seq<Seq<usize>>>, rooms: Seq<i8>, i: int) -> bool {
    forall|o: Seq<usize>| is_ordering(label_lists(rooms)[i], o) ==> #[trigger] is_option(options, i, o)
}

/// The rooms of the first `k` of `rooms` whose label is `l`, in order.
pub open spec fn label_positions(rooms: Seq<i8>, l: int, k: int) -> Seq<usize>
    decreases k,
{
    if k <= 0 {
        Seq::empty()
    } else {
        label_positions(rooms, l, k - 1) + if rooms[k - 1] == l {
            seq![(k - 1) as usize]
        } else {
            Seq::empty()
        }
    }
}

/// The rooms of each of the four labels.
pub open spec fn label_lists(rooms: Seq<i8>) -> Seq<Seq<usize>> {
    Seq::new(4, |l: int| label_positions(rooms, l, rooms.len() as int))
}

/// An ordering of the rooms of each label.
pub open spec fn is_choice(rooms: Seq<i8>, c: Seq<Seq<usize>>) -> bool {
    &&& c.len() == 4
    &&& forall|l: int| 0 <= l < 4 ==> is_ordering(label_lists(rooms)[l], #[trigger] c[l])
}

/// Numbers the rooms of `list` (all of label `l`), from `numbers`: the `j`-th of
/// the first `j` becomes `l + 4 * j`.
pub open spec fn place_list(numbers: Seq<usize>, list: Seq<usize>, l: int, j: int) -> Seq<usize>
    decreases j,
{
    if j <= 0 {
        numbers
    } else {
        place_list(numbers, list, l, j - 1).update(list[j - 1] as int, (l + 4 * (j - 1)) as usize)
    }
}

/// The numbering of `n` rooms by the first `l` lists of `c`; rooms not numbered
/// hold `usize::MAX`.
pub open spec fn numbering(c: Seq<Seq<usize>>, n: nat, l: int) -> Seq<usize>
    decreases l,
{
    if l <= 0 {
        Seq::new(n, |i: int| usize::MAX)
    } else {
        place_list(numbering(c, n, l - 1), c[l - 1], l - 1, c[l - 1].len() as int)
    }
}

/// The door targets of `n` rooms after the first `k` connections, with rooms
/// numbered by `m`: each connection sets both of its doors; unset doors hold
/// `usize::MAX`.
pub open spec fn renumbered_doors(m: Seq<usize>, cs: Seq<GuessRequestConnection>, n: nat, k: int) -> Seq<Seq<usize>>
    decreases k,
{
    if k <= 0 {
        Seq::new(n, |i: int| seq![usize::MAX, usize::MAX, usize::MAX, usize::MAX, usize::MAX, usize::MAX])
    } else {
        let prev = renumbered_doors(m, cs, n, k - 1);
        let c = cs[k - 1];
        let a = m[c.from.room as int] as int;
        let b = m[c.to.room as int] as int;
        let p1 = prev.update(a, prev[a].update(c.from.door as int, b as usize));
        p1.update(b, p1[b].update(c.to.door as int, a as usize))
    }
}

/// The hidden map of `p` accepts the map (`labels`, `start`, door targets `conns`):
/// what `Problem::guess` decides.
pub open spec fn problem_accepts(p: Problem, labels: Seq<i8>, start: usize, conns: Seq<Seq<usize>>) -> bool {
    &&& labels.len() == p.rooms().len()
    &&& all_reachable(conns, start)
    &&& exists|m: Seq<usize>| is_embedding(p.rooms(), p.start(), labels, start, conns, m)
}

/// The labels of rooms numbered `0..n`: each number modulo 4.
pub open spec fn number_labels(n: nat) -> Seq<i8> {
    Seq::new(n, |i: int| (i % 4) as i8)
}

/// The submitted map, with its rooms renumbered by the choice `c`, is a map of
/// rooms `0..n` that the hidden map of `p` accepts.
pub open spec fn choice_accepted(p: Problem, map: GuessRequestMap, c: Seq<Seq<usize>>) -> bool {
    let n = map.rooms@.len();
    let m = numbering(c, n, 4);
    let doors = renumbered_doors(m, map.connections@, n, map.connections@.len() as int);
    &&& forall|i: int| 0 <= i < n ==> #[trigger] m[i] < n
    &&& is_map(doors, n)
    &&& problem_accepts(p, number_labels(n), m[map.starting_room as int], doors)
}

/// The submitted map is well formed: its labels are the four, its starting room
/// and every connection's rooms and doors exist, and its rooms can be numbered.
pub open spec fn map_valid(map: GuessRequestMap) -> bool {
    let n = map.rooms@.len();
    &&& n <= usize::MAX / 8
    &&& forall|i: int| 0 <= i < n ==> 0 <= #[trigger] map.rooms@[i] < 4
    &&& map.starting_room < n
    &&& forall|k: int|
        0 <= k < map.connections@.len() ==> (#[trigger] map.connections@[k]).from.room < n
            && map.connections@[k].from.door < 6 && map.connections@[k].to.room < n && map.connections@[k].to.door < 6
}

proof fn lemma_place_len(numbers: Seq<usize>, list: Seq<usize>, l: int, j: int)
    requires
        j <= list.len(),
        forall|t: int| 0 <= t < list.len() ==> #[trigger] list[t] < numbers.len(),
    ensures
        place_list(numbers, list, l, j).len() == numbers.len(),
    decreases j,
{
    if j > 0 {
        lemma_place_len(numbers, list, l, j - 1);
    }
}

proof fn lemma_numbering_len(c: Seq<Seq<usize>>, n: nat, l: int)
    requires
        l <= c.len(),
        forall|i: int, t: int| 0 <= i < c.len() && 0 <= t < c[i].len() ==> #[trigger] c[i][t] < n,
    ensures
        numbering(c, n, l).len() == n,
    decreases l,
{
    if l > 0 {
        lemma_numbering_len(c, n, l - 1);
        assert forall|t: int| 0 <= t < c[l - 1].len() implies #[trigger] c[l - 1][t] < numbering(c, n, l - 1).len() by {
            assert(c[l - 1][t] < n);
        }
        lemma_place_len(numbering(c, n, l - 1), c[l - 1], l - 1, c[l - 1].len() as int);
    }
}

proof fn lemma_positions(rooms: Seq<i8>, l: int, k: int)
    requires
        0 <= k <= rooms.len(),
    ensures
        label_positions(rooms, l, k).len() <= k,
        forall|j: int| 0 <= j < label_positions(rooms, l, k).len() ==> #[trigger] label_positions(rooms, l, k)[j] < k,
    decreases k,
{
    if k > 0 {
        lemma_positions(rooms, l, k - 1);
    }
}

/// The rooms of `rooms` with label `l`, in order.
fn positions_of(rooms: &Vec<i8>, l: i8) -> (res: Vec<usize>)
    ensures
        res@ == label_positions(rooms@, l as int, rooms@.len() as int),
{
    let mut res: Vec<usize> = Vec::new();
    let mut q: usize = 0;
    while q < rooms.len()
        invariant
            q <= rooms@.len(),
            res@ == label_positions(rooms@, l as int, q as int),
        decreases rooms@.len() - q,
    {
        if rooms[q] == l {
            res.push(q);
        }
        q = q + 1;
    }
    res
}

/// Whether the submitted map is well formed (see `map_valid`).
pub fn map_is_valid(map: &GuessRequestMap) -> (res: bool)
    ensures
        res == map_valid(*map),
{
    let n = map.rooms.len();
    if n > usize::MAX / 8 || map.starting_room >= n {
        return false;
    }
    let mut i: usize = 0;
    while i < n
        invariant
            n == map.rooms@.len(),
            i <= n,
            forall|j: int| 0 <= j < i ==> 0 <= #[trigger] map.rooms@[j] < 4,
        decreases n - i,
    {
        if map.rooms[i] < 0 || map.rooms[i] >= 4 {
            return false;
        }
        i = i + 1;
    }
    let mut k: usize = 0;
    while k < map.connections.len()
        invariant
            n == map.rooms@.len(),
            k <= map.connections@.len(),
            forall|j: int|
                0 <= j < k ==> (#[trigger] map.connections@[j]).from.room < n && map.connections@[j].from.door < 6
                    && map.connections@[j].to.room < n && map.connections@[j].to.door < 6,
        decreases map.connections@.len() - k,
    {
        let c = map.connections[k];
        if c.from.room >= n || c.from.door >= 6 || c.to.room >= n || c.to.door >= 6 {
            return false;
        }
        k = k + 1;
    }
    true
}

proof fn lemma_ordering_range(list: Seq<usize>, o: Seq<usize>, bound: int)
    requires
        is_ordering(list, o),
        forall|j: int| 0 <= j < list.len() ==> #[trigger] list[j] < bound,
    ensures
        o.len() == list.len(),
        forall|j: int| 0 <= j < o.len() ==> #[trigger] o[j] < bound,
{
    vstd::seq_lib::to_multiset_len(o);
    vstd::seq_lib::to_multiset_len(list);
    assert forall|j: int| 0 <= j < o.len() implies #[trigger] o[j] < bound by {
        assert(o.contains(o[j]));
        assert(o.to_multiset().count(o[j]) > 0);
        assert(list.contains(o[j]));
    }
}

/// Whether the choice `c` makes the submitted map one that `problem` accepts (see
/// `choice_accepted`).
fn accepts_choice(problem: &Problem, map: &GuessRequestMap, c: &Vec<Vec<usize>>) -> (res: bool)
    requires
        map_valid(*map),
        is_choice(map.rooms@, views2(c@)),
    ensures
        res == choice_accepted(*problem, *map, views2(c@)),
{
    let ghost cv = views2(c@);
    let n = map.rooms.len();
    let mut m: Vec<usize> = Vec::new();
    let mut i: usize = 0;
    while i < n
        invariant
            i <= n,
            m@ == Seq::new(i as nat, |x: int| usize::MAX),
        decreases n - i,
    {
        m.push(usize::MAX);
        proof {
            assert(m@ =~= Seq::new((i + 1) as nat, |x: int| usize::MAX));
        }
        i = i + 1;
    }
    proof {
        assert forall|i: int, t: int| 0 <= i < cv.len() && 0 <= t < cv[i].len() implies #[trigger] cv[i][t] < n by {
            lemma_positions(map.rooms@, i, n as int);
            assert(label_lists(map.rooms@)[i] == label_positions(map.rooms@, i, n as int));
            assert(is_ordering(label_lists(map.rooms@)[i], cv[i]));
            lemma_ordering_range(label_lists(map.rooms@)[i], cv[i], n as int);
        }
    }
    let mut l: usize = 0;
    while l < 4
        invariant
            n == map.rooms@.len(),
            n <= usize::MAX / 8,
            cv.len() == 4,
            forall|i: int, t: int| 0 <= i < cv.len() && 0 <= t < cv[i].len() ==> #[trigger] cv[i][t] < n,
            cv == views2(c@),
            is_choice(map.rooms@, cv),
            l <= 4,
            m@ == numbering(cv, n as nat, l as int),
        decreases 4 - l,
    {
        let list = &c[l];
        assert(list@ == cv[l as int]);
        proof {
            lemma_positions(map.rooms@, l as int, n as int);
            assert(label_lists(map.rooms@)[l as int] == label_positions(map.rooms@, l as int, n as int));
            lemma_ordering_range(label_lists(map.rooms@)[l as int], list@, n as int);
        }
        proof {
            lemma_numbering_len(cv, n as nat, l as int);
        }
        let mut j: usize = 0;
        while j < list.len()
            invariant
                n == map.rooms@.len(),
                n <= usize::MAX / 8,
                l < 4,
                list@.len() <= n,
                forall|t: int| 0 <= t < list@.len() ==> #[trigger] list@[t] < n,
                j <= list@.len(),
                m@.len() == n,
                m@ == place_list(numbering(cv, n as nat, l as int), list@, l as int, j as int),
            decreases list@.len() - j,
        {
            m.set(list[j], l + 4 * j);
            j = j + 1;
        }
        assert(cv[l as int] == list@);
        l = l + 1;
    }
    proof {
        assert forall|i: int, t: int| 0 <= i < cv.len() && 0 <= t < cv[i].len() implies #[trigger] cv[i][t] < n by {
            lemma_positions(map.rooms@, i, n as int);
            assert(label_lists(map.rooms@)[i] == label_positions(map.rooms@, i, n as int));
            assert(is_ordering(label_lists(map.rooms@)[i], cv[i]));
            lemma_ordering_range(label_lists(map.rooms@)[i], cv[i], n as int);
        }
        lemma_numbering_len(cv, n as nat, 4);
    }
    let mut k: usize = 0;
    while k < n
        invariant
            n == map.rooms@.len(),
            cv == views2(c@),
            m@ == numbering(cv, n as nat, 4),
            k <= n,
            m@.len() == n,
            forall|x: int| 0 <= x < k ==> #[trigger] m@[x] < n,
        decreases n - k,
    {
        if m[k] >= n {
            return false;
        }
        k = k + 1;
    }
    let mut doors: Vec<Vec<usize>> = Vec::new();
    let mut i: usize = 0;
    while i < n
        invariant
            i <= n,
            doors@.len() == i,
            rows(doors@) == Seq::new(
                i as nat,
                |x: int| seq![usize::MAX, usize::MAX, usize::MAX, usize::MAX, usize::MAX, usize::MAX],
            ),
        decreases n - i,
    {
        let row: Vec<usize> = vec![usize::MAX, usize::MAX, usize::MAX, usize::MAX, usize::MAX, usize::MAX];
        assert(row@ =~= seq![usize::MAX, usize::MAX, usize::MAX, usize::MAX, usize::MAX, usize::MAX]);
        let ghost before = doors@;
        doors.push(row);
        proof {
            assert forall|x: int| 0 <= x < i + 1 implies #[trigger] rows(doors@)[x] == seq![usize::MAX, usize::MAX, usize::MAX, usize::MAX, usize::MAX, usize::MAX] by {
                if x < i {
                    assert(rows(doors@)[x] == rows(before)[x]);
                }
            }
            assert(rows(doors@) =~= Seq::new(
                (i + 1) as nat,
                |x: int| seq![usize::MAX, usize::MAX, usize::MAX, usize::MAX, usize::MAX, usize::MAX],
            ));
        }
        i = i + 1;
    }
    let ghost mv = m@;
    proof {
        assert forall|x: int| 0 <= x < n implies (#[trigger] doors@[x])@.len() == 6 by {
            assert(rows(doors@)[x] == doors@[x]@);
        }
    }
    let mut k: usize = 0;
    while k < map.connections.len()
        invariant
            cv == views2(c@),
            mv == numbering(cv, n as nat, 4),
            n == map.rooms@.len(),
            map_valid(*map),
            mv == m@,
            m@.len() == n,
            forall|x: int| 0 <= x < n ==> #[trigger] m@[x] < n,
            k <= map.connections@.len(),
            doors@.len() == n,
            forall|x: int| 0 <= x < n ==> (#[trigger] doors@[x])@.len() == 6,
            rows(doors@) == renumbered_doors(mv, map.connections@, n as nat, k as int),
        decreases map.connections@.len() - k,
    {
        let c = map.connections[k];
        let a = m[c.from.room];
        let b = m[c.to.room];
        doors[a][c.from.door] = b;
        doors[b][c.to.door] = a;
        proof {
            assert(rows(doors@) =~= renumbered_doors(mv, map.connections@, n as nat, k + 1));
        }
        k = k + 1;
    }
    let mut x: usize = 0;
    while x < n
        invariant
            n == map.rooms@.len(),
            cv == views2(c@),
            mv == numbering(cv, n as nat, 4),
            mv == m@,
            forall|y: int| 0 <= y < n ==> #[trigger] m@[y] < n,
            rows(doors@) == renumbered_doors(mv, map.connections@, n as nat, map.connections@.len() as int),
            doors@.len() == n,
            forall|y: int| 0 <= y < n ==> (#[trigger] doors@[y])@.len() == 6,
            x <= n,
            forall|y: int, d: int| 0 <= y < x && 0 <= d < 6 ==> #[trigger] rows(doors@)[y][d] < n,
        decreases n - x,
    {
        let mut d: usize = 0;
        while d < 6
            invariant
                n == map.rooms@.len(),
                cv == views2(c@),
                mv == numbering(cv, n as nat, 4),
                mv == m@,
                forall|y: int| 0 <= y < n ==> #[trigger] m@[y] < n,
                rows(doors@) == renumbered_doors(mv, map.connections@, n as nat, map.connections@.len() as int),
                doors@.len() == n,
                forall|y: int| 0 <= y < n ==> (#[trigger] doors@[y])@.len() == 6,
                x < n,
                d <= 6,
                forall|y: int, e: int| 0 <= y < x && 0 <= e < 6 ==> #[trigger] rows(doors@)[y][e] < n,
                forall|e: int| 0 <= e < d ==> #[trigger] rows(doors@)[x as int][e] < n,
            decreases 6 - d,
        {
            if doors[x][d] >= n {
                proof {
                    assert(rows(doors@)[x as int] == doors@[x as int]@);
                    assert(!is_map(rows(doors@), n as nat));
                }
                return false;
            }
            d = d + 1;
        }
        x = x + 1;
    }
    let mut labels: Vec<i8> = Vec::new();
    let mut i: usize = 0;
    while i < n
        invariant
            i <= n,
            labels@ == Seq::new(i as nat, |y: int| (y % 4) as i8),
        decreases n - i,
    {
        labels.push((i % 4) as i8);
        proof {
            assert(labels@ =~= Seq::new((i + 1) as nat, |y: int| (y % 4) as i8));
        }
        i = i + 1;
    }
    let start = m[map.starting_room];
    let verdict = problem.guess(labels, start, doors);
    match verdict {
        Ok(b) => b,
        Err(_) => false,
    }
}

/// Judges a submitted map: whether some numbering of its rooms, in which the rooms
/// of label `l` become `l`, `l + 4`, `l + 8`, ... in some order, turns it into the
/// hidden map of `problem` (see `choice_accepted`). A map that is not well formed
/// is refused with `"Invalid map"`.
pub fn judge_guess(problem: &Problem, map: &GuessRequestMap) -> (res: Result<GuessResponse, String>)
    ensures
        !map_valid(*map) ==> (res matches Err(m) && m@ == "Invalid map"@),
        map_valid(*map) ==> (res matches Ok(r) && r.correct == exists|c: Seq<Seq<usize>>|
            is_choice(map.rooms@, c) && #[trigger] choice_accepted(*problem, *map, c)),
{
    if !map_is_valid(map) {
        return Err(String::from_str("Invalid map"));
    }
    let mut options: Vec<Vec<Vec<usize>>> = Vec::new();
    let mut l: usize = 0;
    while l < 4
        invariant
            l <= 4,
            options@.len() == l,
            forall|i: int| 0 <= i < l ==> #[trigger] options_sound(views3(options@), map.rooms@, i),
            forall|i: int| 0 <= i < l ==> #[trigger] options_complete(views3(options@), map.rooms@, i),
        decreases 4 - l,
    {
        let list = positions_of(&map.rooms, l as i8);
        assert(list@ == label_lists(map.rooms@)[l as int]);
        let ords = orderings_of(&list);
        let ghost before = views3(options@);
        options.push(ords);
        proof {
            let after = views3(options@);
            assert(after =~= before.push(views2(ords@)));
            assert forall|i: int| 0 <= i < l + 1 implies #[trigger] options_sound(after, map.rooms@, i) by {
                if i < l {
                    assert(options_sound(before, map.rooms@, i));
                    assert(after[i] == before[i]);
                }
            }
            assert forall|i: int| 0 <= i < l + 1 implies #[trigger] options_complete(after, map.rooms@, i) by {
                if i < l {
                    assert(options_complete(before, map.rooms@, i));
                    assert(after[i] == before[i]);
                    assert forall|o: Seq<usize>| is_ordering(label_lists(map.rooms@)[i], o) implies #[trigger] is_option(after, i, o) by {
                        assert(is_option(before, i, o));
                        let k = choose|k: int| 0 <= k < before[i].len() && #[trigger] before[i][k] == o;
                        assert(after[i][k] == o);
                    }
                } else {
                    assert forall|o: Seq<usize>| is_ordering(label_lists(map.rooms@)[i], o) implies #[trigger] is_option(after, i, o) by {
                        let k = choose|k: int| 0 <= k < ords@.len() && #[trigger] ords@[k]@ == o;
                        assert(after[i][k] == o);
                    }
                }
            }
        }
        l = l + 1;
    }
    let picks = picks_of(&options);
    let mut k: usize = 0;
    while k < picks.len()
        invariant
            map_valid(*map),
            forall|j: int|
                0 <= j < picks@.len() ==> is_pick(views3(options@), #[trigger] views2(picks@[j]@)),
            options@.len() == 4,
            forall|i: int| 0 <= i < 4 ==> #[trigger] options_sound(views3(options@), map.rooms@, i),
            forall|i: int| 0 <= i < 4 ==> #[trigger] options_complete(views3(options@), map.rooms@, i),
            k <= picks@.len(),
            forall|j: int|
                0 <= j < k ==> !choice_accepted(*problem, *map, #[trigger] views2(picks@[j]@)),
        decreases picks@.len() - k,
    {
        let ghost cv = views2(picks@[k as int]@);
        proof {
            assert(is_pick(views3(options@), cv));
            assert forall|i: int| 0 <= i < 4 implies is_ordering(label_lists(map.rooms@)[i], #[trigger] cv[i]) by {
                assert(is_option(views3(options@), i, cv[i]));
                assert(options_sound(views3(options@), map.rooms@, i));
                let q = choose|q: int| 0 <= q < views3(options@)[i].len() && #[trigger] views3(options@)[i][q] == cv[i];
            }
        }
        if accepts_choice(problem, map, &picks[k]) {
            proof {
                assert(is_choice(map.rooms@, cv) && choice_accepted(*problem, *map, cv));
            }
            return Ok(GuessResponse { correct: true });
        }
        k = k + 1;
    }
    proof {
        assert forall|c: Seq<Seq<usize>>| is_choice(map.rooms@, c) implies !#[trigger] choice_accepted(*problem, *map, c) by {
            assert(is_pick(views3(options@), c)) by {
                assert forall|i: int| 0 <= i < c.len() implies #[trigger] is_option(views3(options@), i, c[i]) by {
                    assert(is_ordering(label_lists(map.rooms@)[i], c[i]));
                    assert(options_complete(views3(options@), map.rooms@, i));
                }
            }
            let j = choose|j: int| 0 <= j < picks@.len() && #[trigger] views2(picks@[j]@) == c;
            assert(!choice_accepted(*problem, *map, views2(picks@[j]@)));
        }
    }
    Ok(GuessResponse { correct: false })
}

/// The labels of a result of `Problem::explore`, each modulo 4.
pub open spec fn labels_mod4(record: Seq<usize>) -> Seq<i8> {
    record.map_values(|v: usize| (v % 4) as i8)
}

/// Answers an exploration: follows each plan on `problem` (see `Problem::explore`)
/// and reports the labels seen, modulo 4, and how many plans there were; the
/// refusal of the first plan refused otherwise.
pub fn explore_plans(problem: &Problem, plans: &Vec<&str>) -> (res: Result<ExploreResponse, String>)
    ensures
        (forall|i: int| 0 <= i < plans@.len() ==> #[trigger] problem.explore_result(plans@[i]@) is Ok) ==> (
        res matches Ok(r) && r.query_count == plans@.len() && r.results@.len() == plans@.len() && forall|i: int|
            0 <= i < plans@.len() ==> #[trigger] r.results@[i]@ == labels_mod4(
                problem.explore_result(plans@[i]@)->Ok_0.record,
            )),
        forall|i: int|
            0 <= i < plans@.len() && (forall|j: int| 0 <= j < i ==> #[trigger] problem.explore_result(plans@[j]@) is Ok)
                && problem.explore_result(plans@[i]@) is Err ==> (res matches Err(m) && m@ == plan_error_message(
                problem.explore_result(plans@[i]@)->Err_0,
                plans@[i],
            )),
{
    let mut results: Vec<Vec<i8>> = Vec::new();
    let mut i: usize = 0;
    while i < plans.len()
        invariant
            i <= plans@.len(),
            results@.len() == i,
            forall|j: int| 0 <= j < i ==> #[trigger] problem.explore_result(plans@[j]@) is Ok,
            forall|j: int|
                0 <= j < i ==> #[trigger] results@[j]@ == labels_mod4(problem.explore_result(plans@[j]@)->Ok_0.record),
        decreases plans@.len() - i,
    {
        let plan = plans[i];
        match problem.explore(plan) {
            Ok(seen) => {
                let mut row: Vec<i8> = Vec::new();
                let mut t: usize = 0;
                while t < seen.len()
                    invariant
                        t <= seen@.len(),
                        row@ == labels_mod4(seen@.subrange(0, t as int)),
                    decreases seen@.len() - t,
                {
                    row.push((seen[t] % 4) as i8);
                    proof {
                        assert(labels_mod4(seen@.subrange(0, t + 1)) =~= labels_mod4(seen@.subrange(0, t as int)).push(
                            (seen@[t as int] % 4) as i8,
                        ));
                    }
                    t = t + 1;
                }
                assert(seen@.subrange(0, seen@.len() as int) =~= seen@);
                results.push(row);
            },
            Err(m) => {
                return Err(m);
            },
        }
        i = i + 1;
    }
    let query_count = results.len();
    Ok(ExploreResponse { results, query_count })
}

/// The hidden map itself, submitted with its own door targets and starting room and
/// each room labelled by its number modulo 4, is accepted wherever every room can be
/// reached from the start.
pub proof fn lemma_own_map_accepted(p: Problem)
    requires
        is_map(p.rooms(), p.rooms().len()),
        p.rooms().len() < usize::MAX,
        p.start() < p.rooms().len(),
        all_reachable(p.rooms(), p.start()),
    ensures
        problem_accepts(p, number_labels(p.rooms().len()), p.start(), p.rooms()),
{
    let n = p.rooms().len();
    let m = Seq::new(n, |i: int| i as usize);
    let labels = number_labels(n);
    assert forall|i: int| 0 <= i < m.len() implies (#[trigger] m[i] % 4) as int == labels[i] as int by {
        assert(m[i] == i);
        assert(labels[i] == (i % 4) as i8);
    }
    assert forall|i: int, d: int| 0 <= i < m.len() && 0 <= d < 6 implies m[#[trigger] p.rooms()[i][d] as int] == p.rooms()[m[i] as int][d] by {
        assert(p.rooms()[i][d] < n);
    }
    assert(is_embedding(p.rooms(), p.start(), labels, p.start(), p.rooms(), m));
}

proof fn lemma_number_positions(n: nat, l: int, k: int)
    requires
        0 <= l < 4,
        0 <= k <= n,
        n <= usize::MAX,
    ensures
        label_positions(number_labels(n), l, k).len() == (k + 3 - l) / 4,
        forall|j: int|
            0 <= j < label_positions(number_labels(n), l, k).len() ==> #[trigger] label_positions(number_labels(n), l, k)[j]
                == l + 4 * j,
    decreases k,
{
    if k > 0 {
        lemma_number_positions(n, l, k - 1);
        let prev = label_positions(number_labels(n), l, k - 1);
        let x = k - 1;
        assert(number_labels(n)[x] == (x % 4) as i8);
        if x % 4 == l {
            assert(prev.len() == (x + 3 - l) / 4);
            assert(x == l + 4 * prev.len());
            assert(label_positions(number_labels(n), l, k) == prev.push(x as usize));
        } else {
            assert(((x % 4) as i8) as int != l);
        }
    }
}

proof fn lemma_place_identity(numbers: Seq<usize>, list: Seq<usize>, l: int, j: int, x: int)
    requires
        0 <= j <= list.len(),
        0 <= x < numbers.len(),
        forall|t: int| 0 <= t < list.len() ==> #[trigger] list[t] == l + 4 * t && list[t] < numbers.len(),
        0 <= l,
    ensures
        place_list(numbers, list, l, j)[x] == if exists|t: int| 0 <= t < j && list[t] == x {
            x as usize
        } else {
            numbers[x]
        },
        place_list(numbers, list, l, j).len() == numbers.len(),
    decreases j,
{
    if j > 0 {
        lemma_place_identity(numbers, list, l, j - 1, x);
        if exists|t: int| 0 <= t < j - 1 && list[t] == x {
            let t = choose|t: int| 0 <= t < j - 1 && list[t] == x;
            assert(list[j - 1] != x);
        }
    }
}

proof fn lemma_numbering_identity(n: nat, l: int, x: int)
    requires
        0 <= l <= 4,
        0 <= x < n,
        n <= usize::MAX / 8,
    ensures
        numbering(label_lists(number_labels(n)), n, l)[x] == if x % 4 < l {
            x as usize
        } else {
            usize::MAX
        },
        numbering(label_lists(number_labels(n)), n, l).len() == n,
    decreases l,
{
    let c = label_lists(number_labels(n));
    if l > 0 {
        lemma_numbering_identity(n, l - 1, x);
        lemma_number_positions(n, l - 1, n as int);
        let list = c[l - 1];
        assert(list == label_positions(number_labels(n), l - 1, n as int));
        assert forall|t: int| 0 <= t < list.len() implies #[trigger] list[t] == (l - 1) + 4 * t && list[t] < n by {
            assert((n + 3 - (l - 1)) / 4 == list.len());
        }
        lemma_place_identity(numbering(c, n, l - 1), list, l - 1, list.len() as int, x);
        if x % 4 == l - 1 {
            let t = x / 4;
            assert(x == (l - 1) + 4 * t);
            assert(t < list.len());
            assert(list[t] == x);
        } else {
            assert forall|t: int| 0 <= t < list.len() implies list[t] != x by {}
        }
    } else {
    }
}

/// Every room keeps its number.
pub open spec fn identity_numbering(n: nat) -> Seq<usize> {
    Seq::new(n, |i: int| i as usize)
}

/// Door `e` of room `x` is one of the doors of the first `k` connections.
pub open spec fn covered_upto(cs: Seq<GuessRequestConnection>, k: int, x: int, e: int) -> bool {
    exists|j: int| 0 <= j < k && #[trigger] crate::pairing::is_endpoint(cs[j], x, e)
}

proof fn lemma_renumber_true(g: Seq<Seq<usize>>, cs: Seq<GuessRequestConnection>, n: nat, k: int)
    requires
        g.len() == n,
        n <= usize::MAX,
        forall|i: int| 0 <= i < n ==> (#[trigger] g[i]).len() == 6,
        forall|j: int| 0 <= j < cs.len() ==> crate::pairing::joins(g, #[trigger] cs[j]),
        0 <= k <= cs.len(),
    ensures
        renumbered_doors(identity_numbering(n), cs, n, k).len() == n,
        forall|x: int| 0 <= x < n ==> (#[trigger] renumbered_doors(identity_numbering(n), cs, n, k)[x]).len() == 6,
        forall|x: int, e: int|
            0 <= x < n && 0 <= e < 6 ==> #[trigger] renumbered_doors(identity_numbering(n), cs, n, k)[x][e] == if covered_upto(
                cs,
                k,
                x,
                e,
            ) {
                g[x][e]
            } else {
                usize::MAX
            },
    decreases k,
{
    let m = identity_numbering(n);
    if k > 0 {
        lemma_renumber_true(g, cs, n, k - 1);
        let prev = renumbered_doors(m, cs, n, k - 1);
        let c = cs[k - 1];
        assert(crate::pairing::joins(g, c));
        let a = m[c.from.room as int] as int;
        let b = m[c.to.room as int] as int;
        assert(a == c.from.room && b == c.to.room);
        let p1 = prev.update(a, prev[a].update(c.from.door as int, b as usize));
        let cur = renumbered_doors(m, cs, n, k);
        assert(cur == p1.update(b, p1[b].update(c.to.door as int, a as usize)));
        assert forall|x: int, e: int| 0 <= x < n && 0 <= e < 6 implies #[trigger] cur[x][e] == if covered_upto(cs, k, x, e) {
            g[x][e]
        } else {
            usize::MAX
        } by {
            if crate::pairing::is_endpoint(c, x, e) {
                assert(covered_upto(cs, k, x, e));
            } else {
                if covered_upto(cs, k, x, e) {
                    let j = choose|j: int| 0 <= j < k && #[trigger] crate::pairing::is_endpoint(cs[j], x, e);
                    assert(j < k - 1);
                    assert(covered_upto(cs, k - 1, x, e));
                }
                if covered_upto(cs, k - 1, x, e) {
                    let j = choose|j: int| 0 <= j < k - 1 && #[trigger] crate::pairing::is_endpoint(cs[j], x, e);
                    assert(covered_upto(cs, k, x, e));
                }
            }
        }
    } else {
    }
}

/// The hidden map of `p` itself, submitted as pairing makes it (each room labelled
/// by its number modulo 4, its own starting room, its doors paired by
/// `pair_doors`), is judged correct wherever every room can be reached from the
/// start and every room has as many doors toward each other room as that room has
/// back, as `Problem::new` makes them with one copy.
pub proof fn lemma_own_map_judged_correct(p: Problem, map: GuessRequestMap)
    requires
        is_map(p.rooms(), p.rooms().len()),
        p.rooms().len() <= usize::MAX / 8,
        p.start() < p.rooms().len(),
        all_reachable(p.rooms(), p.start()),
        forall|a: int, b: int|
            0 <= a < p.rooms().len() && 0 <= b < p.rooms().len() && a != b ==> #[trigger] crate::union_find::count_eq(
                p.rooms()[a],
                b as usize,
                6,
            ) == #[trigger] crate::union_find::count_eq(p.rooms()[b], a as usize, 6),
        map.rooms@ == number_labels(p.rooms().len()),
        map.starting_room == p.start(),
        map.connections@ == crate::pairing::all_pairs(p.rooms(), p.rooms().len() as int),
    ensures
        map_valid(map),
        exists|c: Seq<Seq<usize>>| is_choice(map.rooms@, c) && #[trigger] choice_accepted(p, map, c),
{
    let g = p.rooms();
    let n = g.len();
    let cs = map.connections@;
    assert(map_valid(map)) by {
        crate::pairing::lemma_paired_doors_match(g, n);
        crate::pairing::lemma_pairs_join(g, n as int);
        assert forall|j: int| 0 <= j < cs.len() implies crate::pairing::joins(g, #[trigger] cs[j]) by {}
    }
    let c = label_lists(map.rooms@);
    let m = numbering(c, n, 4);
    assert(m == identity_numbering(n)) by {
        assert forall|x: int| 0 <= x < n implies #[trigger] m[x] == identity_numbering(n)[x] by {
            lemma_numbering_identity(n, 4, x);
        }
        lemma_numbering_identity(n, 4, 0);
        assert(m =~= identity_numbering(n));
    }
    let doors = renumbered_doors(m, cs, n, cs.len() as int);
    assert(doors == g) by {
        crate::pairing::lemma_paired_doors_match(g, n);
        crate::pairing::lemma_pairs_join(g, n as int);
        assert forall|j: int| 0 <= j < cs.len() implies crate::pairing::joins(g, #[trigger] cs[j]) by {}
        lemma_renumber_true(g, cs, n, cs.len() as int);
        crate::pairing::lemma_pairs_cover(g, n);
        assert forall|x: int| 0 <= x < n implies #[trigger] doors[x] == g[x] by {
            assert forall|e: int| 0 <= e < 6 implies doors[x][e] == g[x][e] by {
                assert(crate::pairing::door_covered(cs, x, e));
                let j = choose|j: int| 0 <= j < cs.len() && #[trigger] crate::pairing::is_endpoint(cs[j], x, e);
                assert(covered_upto(cs, cs.len() as int, x, e));
            }
            assert(doors[x] =~= g[x]);
        }
        assert(doors =~= g);
    }
    lemma_own_map_accepted(p);
    assert(is_choice(map.rooms@, c));
    assert(choice_accepted(p, map, c));
}

} // verus!
