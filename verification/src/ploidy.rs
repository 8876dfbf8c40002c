use vstd::prelude::*;
use vstd::string::*;

use crate::problem::{is_door_path, is_map, rows, walk};
use crate::random_walk::door_chars;
use crate::routes::is_first_shortest;
use crate::text::{digit_char, digit_str};
use crate::union_find::NONE;

verus! {

/// Number of `true` among the first `k` flags of `s`.
pub open spec fn count_true(s: Seq<bool>, k: int) -> nat
    decreases k,
{
    if k <= 0 {
        0
    } else {
        count_true(s, k - 1) + if s[k - 1] {
            1nat
        } else {
            0nat
        }
    }
}

proof fn lemma_count_true_update(s: Seq<bool>, i: int, x: bool, k: int)
    requires
        0 <= i < s.len(),
        0 <= k <= s.len(),
    ensures
        count_true(s.update(i, x), k) + (if i < k && s[i] { 1nat } else { 0nat }) == count_true(s, k) + (if i < k
            && x { 1nat } else { 0nat }),
    decreases k,
{
    if k > 0 {
        lemma_count_true_update(s, i, x, k - 1);
    }
}

proof fn lemma_count_true_bound(s: Seq<bool>, k: int)
    requires
        0 <= k <= s.len(),
    ensures
        count_true(s, k) <= k,
        count_true(s, k) < k ==> exists|i: int| 0 <= i < k && !#[trigger] s[i],
        count_true(s, k) > 0 ==> exists|i: int| 0 <= i < k && #[trigger] s[i],
    decreases k,
{
    if k > 0 {
        lemma_count_true_bound(s, k - 1);
        if !s[k - 1] {
            assert(!s[k - 1]);
        }
    }
}

proof fn lemma_count_true_all(s: Seq<bool>, v: bool, k: int)
    requires
        0 <= k <= s.len(),
        forall|i: int| 0 <= i < k ==> s[i] == v,
    ensures
        count_true(s, k) == if v { k as nat } else { 0nat },
    decreases k,
{
    if k > 0 {
        lemma_count_true_all(s, v, k - 1);
    }
}

/// Room `r` is, among the rooms of `0..n` not in `seen`, one nearest to `cur` along
/// `paths`, and the first such by number.
pub open spec fn is_nearest_unseen(paths: Seq<Seq<Seq<usize>>>, n: nat, cur: usize, seen: Seq<usize>, r: int) -> bool {
    &&& 0 <= r < n
    &&& !seen.contains(r as usize)
    &&& forall|x: int|
        0 <= x < n && !seen.contains(x as usize) ==> paths[cur as int][r].len() <= #[trigger] paths[cur as int][x].len()
    &&& forall|x: int|
        0 <= x < r && !seen.contains(x as usize) ==> paths[cur as int][r].len() < #[trigger] paths[cur as int][x].len()
}

/// `order` is the tour of the `n` rooms from `start` that always goes on to the
/// nearest room not yet visited (the first of them by number).
pub open spec fn is_greedy_tour(paths: Seq<Seq<Seq<usize>>>, n: nat, start: usize, order: Seq<usize>) -> bool {
    &&& order.len() == n
    &&& order[0] == start
    &&& forall|k: int|
        0 <= k < n - 1 ==> is_nearest_unseen(paths, n, #[trigger] order[k], order.subrange(0, k + 1), order[k + 1] as int)
}

/// The leg of the tour from its `k`-th room to the next, the last one back to the start.
pub open spec fn tour_leg(paths: Seq<Seq<Seq<usize>>>, order: Seq<usize>, k: int) -> Seq<usize> {
    if k + 1 < order.len() {
        paths[order[k] as int][order[k + 1] as int]
    } else {
        paths[order[k] as int][order[0] as int]
    }
}

/// The text of the first `k` legs of the tour: in each room, a rewrite of its label
/// to the next label (modulo 4), then the doors to the next room.
pub open spec fn painting_text(labels: Seq<i8>, paths: Seq<Seq<Seq<usize>>>, order: Seq<usize>, k: int) -> Seq<char>
    decreases k,
{
    if k <= 0 {
        Seq::empty()
    } else {
        painting_text(labels, paths, order, k - 1) + seq![
            '[',
            digit_char(((labels[order[k - 1] as int] + 1) % 4) as nat),
            ']',
        ] + door_chars(tour_leg(paths, order, k - 1))
    }
}

/// The number of labels the first `k` legs of the tour add to a result: one per
/// rewrite and one per door.
pub open spec fn painting_moves(paths: Seq<Seq<Seq<usize>>>, order: Seq<usize>, k: int) -> nat
    decreases k,
{
    if k <= 0 {
        0
    } else {
        painting_moves(paths, order, k - 1) + 1 + tour_leg(paths, order, k - 1).len()
    }
}

/// Path tables of `n` rooms: `paths[a][b]` is a door path from `a` to `b`.
pub open spec fn paths_ok(g: Seq<Seq<usize>>, n: nat, paths: Seq<Seq<Seq<usize>>>) -> bool {
    &&& paths.len() == n
    &&& forall|a: int| 0 <= a < n ==> (#[trigger] paths[a]).len() == n
    &&& forall|a: int, b: int|
        0 <= a < n && 0 <= b < n ==> is_door_path(#[trigger] paths[a][b]) && walk(g, a as usize, paths[a][b]) == b
}

/// The view of a table of paths.
pub open spec fn path_table(p: Seq<Vec<Vec<usize>>>) -> Seq<Seq<Seq<usize>>> {
    p.map_values(|row: Vec<Vec<usize>>| row@.map_values(|q: Vec<usize>| q@))
}

/// The greedy tour of the `n` rooms from `start` (see `is_greedy_tour`).
pub fn greedy_tour(paths: &Vec<Vec<Vec<usize>>>, n: usize, start: usize) -> (order: Vec<usize>)
    requires
        path_table(paths@).len() == n,
        forall|a: int| 0 <= a < n ==> (#[trigger] path_table(paths@)[a]).len() == n,
        start < n,
    ensures
        is_greedy_tour(path_table(paths@), n as nat, start, order@),
        forall|k: int| 0 <= k < order@.len() ==> #[trigger] order@[k] < n,
{
    let ghost pt = path_table(paths@);
    let mut visited: Vec<bool> = Vec::new();
    let mut r: usize = 0;
    while r < n
        invariant
            r <= n,
            visited@.len() == r,
            forall|q: int| 0 <= q < r ==> !visited@[q],
        decreases n - r,
    {
        visited.push(false);
        r = r + 1;
    }
    proof {
        lemma_count_true_all(visited@, false, n as int);
        lemma_count_true_update(visited@, start as int, true, n as int);
    }
    visited.set(start, true);
    let mut order: Vec<usize> = Vec::new();
    order.push(start);
    proof {
        assert forall|x: int| 0 <= x < n implies (#[trigger] visited@[x] <==> order@.contains(x as usize)) by {
            if x == start {
                assert(order@[0] == start);
            } else {
                if order@.contains(x as usize) {
                    let j = choose|j: int| 0 <= j < order@.len() && order@[j] == x;
                    assert(j == 0);
                }
            }
        }
    }
    while order.len() < n
        invariant
            pt == path_table(paths@),
            pt.len() == n,
            forall|a: int| 0 <= a < n ==> (#[trigger] pt[a]).len() == n,
            start < n,
            visited@.len() == n,
            1 <= order@.len() <= n,
            order@[0] == start,
            count_true(visited@, n as int) == order@.len(),
            forall|k: int| 0 <= k < order@.len() ==> #[trigger] order@[k] < n,
            forall|x: int| 0 <= x < n ==> (#[trigger] visited@[x] <==> order@.contains(x as usize)),
            forall|k: int|
                0 <= k < order@.len() - 1 ==> is_nearest_unseen(
                    pt,
                    n as nat,
                    #[trigger] order@[k],
                    order@.subrange(0, k + 1),
                    order@[k + 1] as int,
                ),
        decreases n - order@.len(),
    {
        let cur = order[order.len() - 1];
        assert(pt[cur as int] == paths@[cur as int]@.map_values(|q: Vec<usize>| q@));
        let row = &paths[cur];
        let mut best: usize = n;
        let mut x: usize = 0;
        while x < n
            invariant
                pt == path_table(paths@),
                pt.len() == n,
                forall|a: int| 0 <= a < n ==> (#[trigger] pt[a]).len() == n,
                cur < n,
                row@.len() == n,
                forall|y: int| 0 <= y < n ==> (#[trigger] row@[y])@ == pt[cur as int][y],
                visited@.len() == n,
                x <= n,
                best == n || (best < x && !visited@[best as int]),
                best == n ==> forall|y: int| 0 <= y < x ==> #[trigger] visited@[y],
                best < n ==> forall|y: int|
                    0 <= y < x && !visited@[y] ==> pt[cur as int][best as int].len() <= #[trigger] pt[cur as int][y].len(),
                best < n ==> forall|y: int|
                    0 <= y < best && !visited@[y] ==> pt[cur as int][best as int].len() < #[trigger] pt[cur as int][y].len(),
            decreases n - x,
        {
            if !visited[x] {
                if best == n || row[x].len() < row[best].len() {
                    best = x;
                }
            }
            x = x + 1;
        }
        proof {
            lemma_count_true_bound(visited@, n as int);
            if best == n {
                let y = choose|y: int| 0 <= y < n && !#[trigger] visited@[y];
                assert(visited@[y]);
            }
        }
        assert(best < n);
        let ghost prev = order@;
        proof {
            lemma_count_true_update(visited@, best as int, true, n as int);
        }
        visited.set(best, true);
        order.push(best);
        proof {
            let k = prev.len() - 1;
            assert(prev =~= order@.subrange(0, k + 1));
            assert forall|y: int| 0 <= y < n implies (#[trigger] visited@[y] <==> order@.contains(y as usize)) by {
                if y != best {
                    if prev.contains(y as usize) {
                        let j = choose|j: int| 0 <= j < prev.len() && prev[j] == y;
                        assert(order@[j] == y);
                    }
                    if order@.contains(y as usize) {
                        let j = choose|j: int| 0 <= j < order@.len() && order@[j] == y;
                        assert(j < prev.len());
                        assert(prev[j] == y);
                    }
                } else {
                    assert(order@[prev.len() as int] == best);
                }
            }
            assert(is_nearest_unseen(pt, n as nat, order@[k], order@.subrange(0, k + 1), order@[k + 1] as int));
            assert forall|j: int|
                0 <= j < order@.len() - 1 implies is_nearest_unseen(
                pt,
                n as nat,
                #[trigger] order@[j],
                order@.subrange(0, j + 1),
                order@[j + 1] as int,
            ) by {
                if j < k {
                    assert(order@.subrange(0, j + 1) =~= prev.subrange(0, j + 1));
                }
            }
        }
    }
    order
}

/// `f` is the first flag of `s` that is set.
pub open spec fn is_first_true(s: Seq<bool>, f: int) -> bool {
    &&& 0 <= f < s.len()
    &&& s[f]
    &&& forall|j: int| 0 <= j < f ==> !s[j]
}

/// Going through the first `j` doors of `np` from room `cur`: the door flags with
/// each door taken cleared (door `d` of room `r` is flag `6 * r + d`), and the room
/// reached.
pub open spec fn mark_along(g: Seq<Seq<usize>>, unv: Seq<bool>, cur: usize, np: Seq<usize>, j: int) -> (
    Seq<bool>,
    usize,
)
    decreases j,
{
    if j <= 0 {
        (unv, cur)
    } else {
        let m = mark_along(g, unv, cur, np, j - 1);
        (m.0.update(m.1 * 6 + np[j - 1], false), g[m.1 as int][np[j - 1] as int])
    }
}

/// One plan of door visits, from room `cur` with the doors `path` taken so far and
/// `rem` doors of budget left: again and again, go along `paths` to the room of the
/// first door not yet taken and take that door, as long as the budget allows. Gives
/// the door flags after the plan and its doors.
pub open spec fn round_run(
    g: Seq<Seq<usize>>,
    paths: Seq<Seq<Seq<usize>>>,
    unv: Seq<bool>,
    cur: usize,
    path: Seq<usize>,
    rem: nat,
) -> (Seq<bool>, Seq<usize>)
    decreases rem,
{
    if exists|f: int| is_first_true(unv, f) {
        let f = choose|f: int| is_first_true(unv, f);
        let np = paths[cur as int][f / 6];
        if np.len() > rem {
            (unv, path)
        } else {
            let m = mark_along(g, unv, cur, np, np.len() as int);
            let rem1 = (rem - np.len()) as nat;
            if rem1 == 0 {
                (m.0, path + np)
            } else {
                let d = (f % 6) as usize;
                round_run(
                    g,
                    paths,
                    m.0.update(m.1 * 6 + d, false),
                    g[m.1 as int][d as int],
                    path + np + seq![d],
                    (rem1 - 1) as nat,
                )
            }
        }
    } else {
        (unv, path)
    }
}

/// The door parts of the plans that together take every door still flagged in
/// `unv`, each from `start` within `budget` doors (see `round_run`); `None` where a
/// plan would take no new door, so that no set of such plans takes them all.
pub open spec fn cover_rounds(
    g: Seq<Seq<usize>>,
    paths: Seq<Seq<Seq<usize>>>,
    start: usize,
    unv: Seq<bool>,
    budget: nat,
) -> Option<Seq<Seq<usize>>>
    decreases count_true(unv, unv.len() as int),
{
    if count_true(unv, unv.len() as int) == 0 {
        Some(Seq::empty())
    } else {
        let r = round_run(g, paths, unv, start, Seq::empty(), budget);
        if count_true(r.0, r.0.len() as int) < count_true(unv, unv.len() as int) {
            match cover_rounds(g, paths, start, r.0, budget) {
                Some(rest) => Some(seq![r.1] + rest),
                None => None,
            }
        } else {
            None
        }
    }
}

/// Door `d` of room `r` is taken at some point of the door path `dp` from `start`.
pub open spec fn traversed(g: Seq<Seq<usize>>, start: usize, dp: Seq<usize>, r: int, d: int) -> bool {
    exists|p: int| 0 <= p < dp.len() && #[trigger] walk(g, start, dp.subrange(0, p)) == r && dp[p] == d
}

proof fn lemma_traversed_prefix(g: Seq<Seq<usize>>, start: usize, a: Seq<usize>, b: Seq<usize>, r: int, d: int)
    requires
        traversed(g, start, a, r, d),
        a.len() <= b.len(),
        b.subrange(0, a.len() as int) == a,
    ensures
        traversed(g, start, b, r, d),
{
    let p = choose|p: int| 0 <= p < a.len() && #[trigger] walk(g, start, a.subrange(0, p)) == r && a[p] == d;
    assert(b.subrange(0, p) =~= a.subrange(0, p));
    assert(b[p] == a[p]);
}

proof fn lemma_flag_index(r: int, d: int, n: int)
    requires
        0 <= r < n,
        0 <= d < 6,
    ensures
        0 <= r * 6 + d < 6 * n,
        (r * 6 + d) / 6 == r,
        (r * 6 + d) % 6 == d,
{
}

proof fn lemma_mark(
    g: Seq<Seq<usize>>,
    n: nat,
    start: usize,
    unv: Seq<bool>,
    path: Seq<usize>,
    np: Seq<usize>,
    j: int,
)
    requires
        is_map(g, n),
        start < n,
        is_door_path(path),
        is_door_path(np),
        walk(g, start, path) < n,
        unv.len() == 6 * n,
        0 <= j <= np.len(),
    ensures
        mark_along(g, unv, walk(g, start, path), np, j).1 == walk(g, start, path + np.subrange(0, j)),
        mark_along(g, unv, walk(g, start, path), np, j).1 < n,
        mark_along(g, unv, walk(g, start, path), np, j).0.len() == 6 * n,
        forall|x: int| 0 <= x < 6 * n && #[trigger] mark_along(g, unv, walk(g, start, path), np, j).0[x] ==> unv[x],
        forall|x: int|
            0 <= x < 6 * n && unv[x] && !#[trigger] mark_along(g, unv, walk(g, start, path), np, j).0[x] ==> traversed(
                g,
                start,
                path + np.subrange(0, j),
                x / 6,
                x % 6,
            ),
    decreases j,
{
    let cur = walk(g, start, path);
    if j == 0 {
        assert(path + np.subrange(0, 0) =~= path);
    } else {
        lemma_mark(g, n, start, unv, path, np, j - 1);
        let m = mark_along(g, unv, cur, np, j - 1);
        let e = np[j - 1];
        let prev = path + np.subrange(0, j - 1);
        let next = path + np.subrange(0, j);
        assert(next =~= prev.push(e));
        crate::problem::lemma_walk_push(g, start, prev, e);
        lemma_flag_index(m.1 as int, e as int, n as int);
        let u = mark_along(g, unv, cur, np, j).0;
        assert forall|x: int| 0 <= x < 6 * n && unv[x] && !#[trigger] u[x] implies traversed(g, start, next, x / 6, x % 6) by {
            if x == m.1 * 6 + e {
                assert(next.subrange(0, prev.len() as int) =~= prev);
                assert(walk(g, start, next.subrange(0, prev.len() as int)) == m.1);
            } else {
                assert(!m.0[x]);
                assert(next.subrange(0, prev.len() as int) =~= prev);
                lemma_traversed_prefix(g, start, prev, next, x / 6, x % 6);
            }
        }
    }
}

/// A plan clears only door flags of doors it takes, and keeps the doors taken before.
proof fn lemma_round(
    g: Seq<Seq<usize>>,
    n: nat,
    paths: Seq<Seq<Seq<usize>>>,
    start: usize,
    unv: Seq<bool>,
    path: Seq<usize>,
    rem: nat,
)
    requires
        is_map(g, n),
        paths_ok(g, n, paths),
        start < n,
        is_door_path(path),
        unv.len() == 6 * n,
    ensures
        ({
            let r = round_run(g, paths, unv, walk(g, start, path), path, rem);
            &&& r.0.len() == 6 * n
            &&& is_door_path(r.1)
            &&& path.len() <= r.1.len()
            &&& r.1.subrange(0, path.len() as int) == path
            &&& forall|x: int| 0 <= x < 6 * n && #[trigger] r.0[x] ==> unv[x]
            &&& forall|x: int| 0 <= x < 6 * n && unv[x] && !#[trigger] r.0[x] ==> traversed(g, start, r.1, x / 6, x % 6)
        }),
    decreases rem,
{
    crate::problem::lemma_walk_in_map(g, n, start, path);
    let cur = walk(g, start, path);
    let r = round_run(g, paths, unv, cur, path, rem);
    if exists|f: int| is_first_true(unv, f) {
        let f = choose|f: int| is_first_true(unv, f);
        let tr = f / 6;
        let np = paths[cur as int][tr];
        if np.len() > rem {
            assert(r.1.subrange(0, path.len() as int) =~= path);
        } else {
            assert(0 <= tr < n);
            assert(is_door_path(np));
            lemma_mark(g, n, start, unv, path, np, np.len() as int);
            let m = mark_along(g, unv, cur, np, np.len() as int);
            let rem1 = (rem - np.len()) as nat;
            let pn = path + np;
            assert(np.subrange(0, np.len() as int) =~= np);
            assert(pn.subrange(0, path.len() as int) =~= path);
            if rem1 == 0 {
            } else {
                let d = (f % 6) as usize;
                let u2 = m.0.update(m.1 * 6 + d, false);
                let p2 = pn.push(d);
                assert(path + np + seq![d] =~= p2);
                crate::problem::lemma_walk_push(g, start, pn, d);
                lemma_flag_index(m.1 as int, d as int, n as int);
                lemma_round(g, n, paths, start, u2, p2, (rem1 - 1) as nat);
                assert(walk(g, start, p2) == g[m.1 as int][d as int]);
                let r2 = round_run(g, paths, u2, walk(g, start, p2), p2, (rem1 - 1) as nat);
                assert(r == r2);
                assert(r.1.subrange(0, p2.len() as int) == p2);
                assert(r.1.subrange(0, path.len() as int) =~= p2.subrange(0, path.len() as int));
                assert(p2.subrange(0, path.len() as int) =~= path);
                assert(r.1.subrange(0, pn.len() as int) =~= p2.subrange(0, pn.len() as int));
                assert(p2.subrange(0, pn.len() as int) =~= pn);
                assert forall|x: int| 0 <= x < 6 * n && unv[x] && !#[trigger] r.0[x] implies traversed(
                    g,
                    start,
                    r.1,
                    x / 6,
                    x % 6,
                ) by {
                    if u2[x] {
                    } else if x == m.1 * 6 + d {
                        assert(p2.subrange(0, pn.len() as int) =~= pn);
                        assert(walk(g, start, p2.subrange(0, pn.len() as int)) == m.1);
                        assert(p2[pn.len() as int] == d);
                        assert(traversed(g, start, p2, x / 6, x % 6));
                        lemma_traversed_prefix(g, start, p2, r.1, x / 6, x % 6);
                    } else {
                        assert(!m.0[x]);
                        lemma_traversed_prefix(g, start, pn, r.1, x / 6, x % 6);
                    }
                }
            }
        }
    } else {
        assert(r.1.subrange(0, path.len() as int) =~= path);
    }
}

/// Every door flagged in `unv` is taken by one of the plans of `cover_rounds`.
proof fn lemma_rounds_cover(
    g: Seq<Seq<usize>>,
    n: nat,
    paths: Seq<Seq<Seq<usize>>>,
    start: usize,
    unv: Seq<bool>,
    budget: nat,
)
    requires
        is_map(g, n),
        paths_ok(g, n, paths),
        start < n,
        unv.len() == 6 * n,
        cover_rounds(g, paths, start, unv, budget) is Some,
    ensures
        forall|q: int|
            0 <= q < cover_rounds(g, paths, start, unv, budget)->0.len() ==> is_door_path(
                #[trigger] cover_rounds(g, paths, start, unv, budget)->0[q],
            ),
        forall|x: int|
            0 <= x < 6 * n && #[trigger] unv[x] ==> exists|q: int|
                0 <= q < cover_rounds(g, paths, start, unv, budget)->0.len() && traversed(
                    g,
                    start,
                    #[trigger] cover_rounds(g, paths, start, unv, budget)->0[q],
                    x / 6,
                    x % 6,
                ),
    decreases count_true(unv, unv.len() as int),
{
    let ps = cover_rounds(g, paths, start, unv, budget)->0;
    if count_true(unv, unv.len() as int) == 0 {
        assert forall|x: int| 0 <= x < 6 * n && #[trigger] unv[x] implies false by {
            lemma_count_true_bound(unv, unv.len() as int);
            lemma_count_true_pos(unv, x, unv.len() as int);
        }
    } else {
        let r = round_run(g, paths, unv, start, Seq::empty(), budget);
        assert(walk(g, start, Seq::<usize>::empty()) == start);
        lemma_round(g, n, paths, start, unv, Seq::empty(), budget);
        lemma_rounds_cover(g, n, paths, start, r.0, budget);
        let rest = cover_rounds(g, paths, start, r.0, budget)->0;
        assert(ps =~= seq![r.1] + rest);
        assert forall|q: int| 0 <= q < ps.len() implies is_door_path(#[trigger] ps[q]) by {
            if q > 0 {
                assert(ps[q] == rest[q - 1]);
            }
        }
        assert forall|x: int| 0 <= x < 6 * n && #[trigger] unv[x] implies exists|q: int|
            0 <= q < ps.len() && traversed(g, start, #[trigger] ps[q], x / 6, x % 6) by {
            if r.0[x] {
                let q = choose|q: int| 0 <= q < rest.len() && traversed(g, start, #[trigger] rest[q], x / 6, x % 6);
                assert(ps[q + 1] == rest[q]);
            } else {
                assert(ps[0] == r.1);
            }
        }
    }
}

proof fn lemma_count_true_pos(s: Seq<bool>, x: int, k: int)
    requires
        0 <= x < k <= s.len(),
        s[x],
    ensures
        count_true(s, k) > 0,
    decreases k,
{
    if x < k - 1 {
        lemma_count_true_pos(s, x, k - 1);
    }
}

/// The first door still flagged, if any.
fn first_open(unv: &Vec<bool>) -> (res: Option<usize>)
    ensures
        match res {
            Some(f) => is_first_true(unv@, f as int),
            None => !exists|f: int| is_first_true(unv@, f),
        },
{
    let mut i: usize = 0;
    while i < unv.len()
        invariant
            i <= unv@.len(),
            forall|j: int| 0 <= j < i ==> !unv@[j],
        decreases unv@.len() - i,
    {
        if unv[i] {
            return Some(i);
        }
        i = i + 1;
    }
    None
}

/// How many doors are still flagged.
fn count_open(unv: &Vec<bool>) -> (c: usize)
    ensures
        c == count_true(unv@, unv@.len() as int),
{
    let mut c: usize = 0;
    let mut i: usize = 0;
    while i < unv.len()
        invariant
            i <= unv@.len(),
            c == count_true(unv@, i as int),
        decreases unv@.len() - i,
    {
        proof {
            lemma_count_true_bound(unv@, i as int);
        }
        if unv[i] {
            c = c + 1;
        }
        i = i + 1;
    }
    c
}

/// One plan of door visits from `start` within `budget` doors (see `round_run`).
fn run_round(
    g: &Vec<Vec<usize>>,
    paths: &Vec<Vec<Vec<usize>>>,
    n: usize,
    start: usize,
    unv: &mut Vec<bool>,
    budget: usize,
) -> (path: Vec<usize>)
    requires
        n == g@.len(),
        is_map(rows(g@), n as nat),
        paths_ok(rows(g@), n as nat, path_table(paths@)),
        start < n,
        old(unv)@.len() == 6 * n,
        6 * n <= usize::MAX,
    ensures
        (final(unv)@, path@) == round_run(rows(g@), path_table(paths@), old(unv)@, start, Seq::empty(), budget as nat),
{
    let ghost gs = rows(g@);
    let ghost pt = path_table(paths@);
    let ghost target = round_run(gs, pt, unv@, start, Seq::empty(), budget as nat);
    let mut cur = start;
    let mut path: Vec<usize> = Vec::new();
    let mut rem = budget;
    let mut done = false;
    while !done
        invariant
            gs == rows(g@),
            pt == path_table(paths@),
            n == g@.len(),
            is_map(gs, n as nat),
            paths_ok(gs, n as nat, pt),
            cur < n,
            unv@.len() == 6 * n,
            6 * n <= usize::MAX,
            !done ==> target == round_run(gs, pt, unv@, cur, path@, rem as nat),
            done ==> target == (unv@, path@),
        decreases rem + if done { 0int } else { 1int },
    {
        match first_open(unv) {
            None => {
                done = true;
            },
            Some(f) => {
                let ghost unv_start = unv@;
                let ghost cur_start = cur;
                let ghost path_start = path@;
                let ghost rem_start = rem;
                proof {
                    assert forall|f2: int| is_first_true(unv_start, f2) implies f2 == f by {
                        if f2 < f {
                            assert(!unv_start[f2]);
                        } else if f < f2 {
                            assert(!unv_start[f as int]);
                        }
                    }
                    assert((choose|f2: int| is_first_true(unv_start, f2)) == f);
                }
                let tr = f / 6;
                let td = f % 6;
                assert(tr < n);
                assert(pt[cur as int] == paths@[cur as int]@.map_values(|q: Vec<usize>| q@));
                let np = &paths[cur][tr];
                assert(np@ == pt[cur as int][tr as int]);
                if np.len() > rem {
                    done = true;
                } else {
                    rem = rem - np.len();
                    let ghost unv0 = unv@;
                    let ghost cur0 = cur;
                    let ghost path0 = path@;
                    let mut j: usize = 0;
                    while j < np.len()
                        invariant
                            gs == rows(g@),
                            n == g@.len(),
                            is_map(gs, n as nat),
                            np@ == pt[cur0 as int][tr as int],
                            is_door_path(np@),
                            cur < n,
                            cur0 < n,
                            unv@.len() == 6 * n,
                            6 * n <= usize::MAX,
                            j <= np@.len(),
                            (unv@, cur) == mark_along(gs, unv0, cur0, np@, j as int),
                            path@ == path0 + np@.subrange(0, j as int),
                        decreases np@.len() - j,
                    {
                        let door = np[j];
                        assert(g@[cur as int]@ == gs[cur as int]);
                        proof {
                            lemma_flag_index(cur as int, door as int, n as int);
                        }
                        unv.set(cur * 6 + door, false);
                        path.push(door);
                        cur = g[cur][door];
                        proof {
                            assert(path@ =~= path0 + np@.subrange(0, j + 1));
                        }
                        j = j + 1;
                    }
                    assert(np@.subrange(0, np@.len() as int) =~= np@);
                    if rem == 0 {
                        done = true;
                    } else {
                        rem = rem - 1;
                        assert(g@[cur as int]@ == gs[cur as int]);
                        proof {
                            lemma_flag_index(cur as int, td as int, n as int);
                        }
                        unv.set(cur * 6 + td, false);
                        path.push(td);
                        cur = g[cur][td];
                        proof {
                            assert(path@ =~= path_start + np@ + seq![td]);
                        }
                    }
                }
            },
        }
    }
    path
}

/// The door parts of the plans of `cover_rounds` from all doors flagged, or `None`.
fn cover_plans(g: &Vec<Vec<usize>>, paths: &Vec<Vec<Vec<usize>>>, n: usize, start: usize, budget: usize) -> (res: Option<
    Vec<Vec<usize>>,
>)
    requires
        n == g@.len(),
        is_map(rows(g@), n as nat),
        paths_ok(rows(g@), n as nat, path_table(paths@)),
        start < n,
        6 * n <= usize::MAX,
    ensures
        match res {
            Some(ps) => cover_rounds(rows(g@), path_table(paths@), start, Seq::new(6 * n as nat, |x: int| true), budget as nat)
                == Some(ps@.map_values(|p: Vec<usize>| p@)),
            None => cover_rounds(rows(g@), path_table(paths@), start, Seq::new(6 * n as nat, |x: int| true), budget as nat)
                is None,
        },
{
    let ghost gs = rows(g@);
    let ghost pt = path_table(paths@);
    let ghost init = Seq::new(6 * n as nat, |x: int| true);
    let mut unv: Vec<bool> = Vec::new();
    let mut i: usize = 0;
    while i < 6 * n
        invariant
            6 * n <= usize::MAX,
            i <= 6 * n,
            unv@ == Seq::new(i as nat, |x: int| true),
        decreases 6 * n - i,
    {
        unv.push(true);
        proof {
            assert(unv@ =~= Seq::new((i + 1) as nat, |x: int| true));
        }
        i = i + 1;
    }
    let mut plans: Vec<Vec<usize>> = Vec::new();
    let mut open = count_open(&unv);
    while open > 0
        invariant
            gs == rows(g@),
            pt == path_table(paths@),
            n == g@.len(),
            is_map(gs, n as nat),
            paths_ok(gs, n as nat, pt),
            start < n,
            6 * n <= usize::MAX,
            init == Seq::new(6 * n as nat, |x: int| true),
            unv@.len() == 6 * n,
            open == count_true(unv@, unv@.len() as int),
            match cover_rounds(gs, pt, start, unv@, budget as nat) {
                Some(rest) => cover_rounds(gs, pt, start, init, budget as nat) == Some(
                    plans@.map_values(|p: Vec<usize>| p@) + rest,
                ),
                None => cover_rounds(gs, pt, start, init, budget as nat) is None,
            },
        decreases open,
    {
        let ghost before = unv@;
        let p = run_round(g, paths, n, start, &mut unv, budget);
        let open2 = count_open(&unv);
        proof {
            assert(walk(gs, start, Seq::<usize>::empty()) == start);
            lemma_round(gs, n as nat, pt, start, before, Seq::empty(), budget as nat);
        }
        if open2 >= open {
            proof {
                assert(cover_rounds(gs, pt, start, before, budget as nat) is None);
            }
            return None;
        }
        proof {
            assert(cover_rounds(gs, pt, start, before, budget as nat) == match cover_rounds(gs, pt, start, unv@, budget as nat) {
                Some(rest) => Some(seq![p@] + rest),
                None => None,
            });
        }
        let ghost shown = plans@.map_values(|p: Vec<usize>| p@);
        plans.push(p);
        proof {
            assert(plans@.map_values(|p: Vec<usize>| p@) =~= shown.push(p@));
            match cover_rounds(gs, pt, start, unv@, budget as nat) {
                Some(rest) => {
                    assert(shown + (seq![p@] + rest) =~= shown.push(p@) + rest);
                },
                None => {},
            }
        }
        open = open2;
    }
    proof {
        assert(plans@.map_values(|p: Vec<usize>| p@) + Seq::<Seq<usize>>::empty() =~= plans@.map_values(
            |p: Vec<usize>| p@,
        ));
    }
    Some(plans)
}

/// The table of first shortest paths of a map whose rooms all reach each other
/// (unique, see `lemma_first_shortest_unique`).
pub open spec fn first_shortest_table(g: Seq<Seq<usize>>, n: nat) -> Seq<Seq<Seq<usize>>> {
    choose|pt: Seq<Seq<Seq<usize>>>|
        {
            &&& pt.len() == n
            &&& forall|a: int| 0 <= a < n ==> (#[trigger] pt[a]).len() == n
            &&& forall|a: int, b: int|
                0 <= a < n && 0 <= b < n ==> is_first_shortest(g, a as usize, b as usize, #[trigger] pt[a][b])
        }
}

/// The greedy tour of `n` rooms from `start` along `pt` (unique, see
/// `lemma_greedy_tour_unique`).
pub open spec fn greedy_order(pt: Seq<Seq<Seq<usize>>>, n: nat, start: usize) -> Seq<usize> {
    choose|o: Seq<usize>| is_greedy_tour(pt, n, start, o)
}

/// Every room of `g` can be reached from every room.
pub open spec fn strongly_connected(g: Seq<Seq<usize>>, n: nat) -> bool {
    forall|a: int, r: int| 0 <= a < n && 0 <= r < n ==> #[trigger] crate::problem::reachable(g, a as usize, r)
}

/// All `6 * n` door flags set.
pub open spec fn all_doors(n: nat) -> Seq<bool> {
    Seq::new(6 * n, |x: int| true)
}

pub proof fn lemma_first_shortest_unique(g: Seq<Seq<usize>>, a: usize, r: usize, p: Seq<usize>, q: Seq<usize>)
    requires
        is_first_shortest(g, a, r, p),
        is_first_shortest(g, a, r, q),
    ensures
        p == q,
{
    assert(p.len() == q.len());
    crate::routes::lemma_lex_total(p, q, 0);
}

pub proof fn lemma_greedy_tour_unique(pt: Seq<Seq<Seq<usize>>>, n: nat, start: usize, o1: Seq<usize>, o2: Seq<usize>)
    requires
        is_greedy_tour(pt, n, start, o1),
        is_greedy_tour(pt, n, start, o2),
    ensures
        o1 == o2,
{
    assert forall|k: int| 0 <= k < n implies o1[k] == o2[k] by {
        lemma_greedy_prefix(pt, n, start, o1, o2, k);
        assert(o1.subrange(0, k + 1)[k] == o1[k]);
        assert(o2.subrange(0, k + 1)[k] == o2[k]);
    }
    assert(o1 =~= o2);
}

proof fn lemma_greedy_prefix(pt: Seq<Seq<Seq<usize>>>, n: nat, start: usize, o1: Seq<usize>, o2: Seq<usize>, k: int)
    requires
        is_greedy_tour(pt, n, start, o1),
        is_greedy_tour(pt, n, start, o2),
        0 <= k < n,
    ensures
        o1.subrange(0, k + 1) == o2.subrange(0, k + 1),
    decreases k,
{
    if k == 0 {
        assert(o1.subrange(0, 1) =~= o2.subrange(0, 1));
    } else {
        lemma_greedy_prefix(pt, n, start, o1, o2, k - 1);
        let seen = o1.subrange(0, k);
        assert(o1[k - 1] == seen[k - 1]);
        assert(o2.subrange(0, k)[k - 1] == o2[k - 1]);
        assert(o1[k - 1] == o2[k - 1]);
        assert(is_nearest_unseen(pt, n, o1[k - 1], o1.subrange(0, k), o1[k] as int));
        assert(is_nearest_unseen(pt, n, o2[k - 1], o2.subrange(0, k), o2[k] as int));
        let x = o1[k] as int;
        let y = o2[k] as int;
        if x < y {
            assert(pt[o1[k - 1] as int][y].len() < pt[o1[k - 1] as int][x].len());
        } else if y < x {
            assert(pt[o1[k - 1] as int][x].len() < pt[o1[k - 1] as int][y].len());
        }
        assert(o1.subrange(0, k + 1) =~= o2.subrange(0, k + 1));
    }
}

/// The shift of copies seen at position `p` of door path `q`: how far (modulo 4) the
/// label seen there, `results[q][pl + p]`, lies behind the label of the room reached.
pub open spec fn offset_at(
    g: Seq<Seq<usize>>,
    labels: Seq<i8>,
    start: usize,
    dps: Seq<Seq<usize>>,
    results: Seq<Vec<i8>>,
    pl: nat,
    q: int,
    p: int,
) -> int {
    (4 + labels[walk(g, start, dps[q].subrange(0, p)) as int] - results[q]@[pl + p]) % 4
}

/// Position `p` of door path `q` takes door `d` of room `r`.
pub open spec fn traversal_at(g: Seq<Seq<usize>>, start: usize, dps: Seq<Seq<usize>>, q: int, p: int, r: int, d: int) -> bool {
    &&& 0 <= q < dps.len()
    &&& 0 <= p < dps[q].len()
    &&& walk(g, start, dps[q].subrange(0, p)) == r
    &&& dps[q][p] == d
}

/// Position `p` of door path `q` is the first (by path, then by position) to take
/// door `d` of room `r`.
pub open spec fn first_traversal(g: Seq<Seq<usize>>, start: usize, dps: Seq<Seq<usize>>, q: int, p: int, r: int, d: int) -> bool {
    &&& traversal_at(g, start, dps, q, p, r, d)
    &&& forall|q2: int, p2: int|
        (q2 < q || (q2 == q && p2 < p)) ==> !#[trigger] traversal_at(g, start, dps, q2, p2, r, d)
}

/// `s` is the shift of door `d` of room `r`: the change of the shift of copies
/// across that door, at its first traversal.
pub open spec fn is_door_shift(
    g: Seq<Seq<usize>>,
    labels: Seq<i8>,
    start: usize,
    dps: Seq<Seq<usize>>,
    results: Seq<Vec<i8>>,
    pl: nat,
    r: int,
    d: int,
    s: int,
) -> bool {
    exists|q: int, p: int|
        #[trigger] first_traversal(g, start, dps, q, p, r, d) && s == (4 + offset_at(g, labels, start, dps, results, pl, q, p)
            - offset_at(g, labels, start, dps, results, pl, q, p + 1)) % 4
}

/// Door `d` of room `r` is taken by one of the door paths `dps` from `start`.
pub open spec fn covered_by(g: Seq<Seq<usize>>, start: usize, dps: Seq<Seq<usize>>, r: int, d: int) -> bool {
    exists|q: int| 0 <= q < dps.len() && #[trigger] traversed(g, start, dps[q], r, d)
}

/// What expanding a reconstructed map to the copies it stands for asks for.
pub enum Expansion {
    /// There is one copy: the map as it was.
    Unchanged(Vec<i8>, usize, Vec<Vec<usize>>),
    /// Plans to explore; their results go to `ExpansionPlan::finish`.
    Explore(ExpansionPlan),
}

/// The plans that tell the two copies of a reconstructed map apart: each first
/// tours all rooms from the start, rewriting every label to the next one, then
/// takes doors from the start until every door of the map has been taken once.
pub struct ExpansionPlan {
    node_label: Vec<i8>,
    start: usize,
    graph: Vec<Vec<usize>>,
    paths: Vec<Vec<Vec<usize>>>,
    order: Vec<usize>,
    painting_length: usize,
    door_paths: Vec<Vec<usize>>,
    plans: Vec<String>,
}

impl ExpansionPlan {
    pub closed spec fn labels(&self) -> Seq<i8> {
        self.node_label@
    }

    pub closed spec fn start(&self) -> usize {
        self.start
    }

    pub closed spec fn graph(&self) -> Seq<Seq<usize>> {
        rows(self.graph@)
    }

    /// The first shortest path between every two rooms.
    pub closed spec fn paths(&self) -> Seq<Seq<Seq<usize>>> {
        path_table(self.paths@)
    }

    /// The rooms in the order of the painting tour.
    pub closed spec fn order(&self) -> Seq<usize> {
        self.order@
    }

    /// Number of labels the painting tour adds to a result.
    pub closed spec fn painting_length(&self) -> nat {
        self.painting_length as nat
    }

    /// The door part of each plan, after the painting tour.
    pub closed spec fn door_paths(&self) -> Seq<Seq<usize>> {
        self.door_paths@.map_values(|p: Vec<usize>| p@)
    }

    /// The plans, as text.
    pub closed spec fn plans(&self) -> Seq<Seq<char>> {
        self.plans@.map_values(|p: String| p@)
    }

    pub closed spec fn wf(&self) -> bool {
        let n = self.graph@.len();
        let g = rows(self.graph@);
        let pt = path_table(self.paths@);
        &&& n >= 1
        &&& 6 * n <= usize::MAX
        &&& is_map(g, n as nat)
        &&& self.node_label@.len() == n
        &&& forall|r: int| 0 <= r < n ==> 0 <= #[trigger] self.node_label@[r] < 4
        &&& self.start < n
        &&& paths_ok(g, n as nat, pt)
        &&& pt == first_shortest_table(g, n as nat)
        &&& self.order@ == greedy_order(pt, n as nat, self.start)
        &&& is_greedy_tour(pt, n as nat, self.start, self.order@)
        &&& self.painting_length == painting_moves(pt, self.order@, n as int)
        &&& self.plans@.len() == self.door_paths@.len()
        &&& forall|q: int| 0 <= q < self.door_paths@.len() ==> is_door_path(#[trigger] self.door_paths@[q]@)
        &&& forall|q: int|
            0 <= q < self.plans@.len() ==> (#[trigger] self.plans@[q])@ == painting_text(
                self.node_label@,
                pt,
                self.order@,
                n as int,
            ) + door_chars(self.door_paths@[q]@)
        &&& forall|r: int, d: int|
            0 <= r < n && 0 <= d < 6 ==> #[trigger] covered_by(g, self.start, self.door_paths(), r, d)
    }

    /// The plans to explore.
    pub fn plans_to_explore(&self) -> (res: &Vec<String>)
        ensures
            res@.map_values(|p: String| p@) == self.plans(),
    {
        &self.plans
    }

    /// Whether `results` are results of the plans: one per plan, with a label for
    /// the start, each rewrite and each door, every label one of the four.
    pub fn results_fit(&self, results: &Vec<Vec<i8>>) -> (res: bool)
        requires
            self.wf(),
        ensures
            res == (results@.len() == self.door_paths().len() && forall|q: int|
                0 <= q < results@.len() ==> (#[trigger] results@[q])@.len() == self.painting_length() + 1
                    + self.door_paths()[q].len() && forall|p: int| 0 <= p < results@[q]@.len() ==> 0 <= #[trigger] results@[q]@[p] < 4),
    {
        if results.len() != self.door_paths.len() {
            return false;
        }
        let mut q: usize = 0;
        while q < results.len()
            invariant
                results@.len() == self.door_paths@.len(),
                q <= results@.len(),
                forall|j: int|
                    0 <= j < q ==> (#[trigger] results@[j])@.len() == self.painting_length + 1 + self.door_paths@[j]@.len()
                        && forall|p: int| 0 <= p < results@[j]@.len() ==> 0 <= #[trigger] results@[j]@[p] < 4,
            decreases results@.len() - q,
        {
            let res = &results[q];
            let dl = self.door_paths[q].len();
            proof {
                assert(self.door_paths()[q as int] == self.door_paths@[q as int]@);
            }
            if !(res.len() > self.painting_length && res.len() - self.painting_length - 1 == dl) {
                proof {
                    assert(!((results@[q as int])@.len() == self.painting_length() + 1 + self.door_paths()[q as int].len()));
                }
                return false;
            }
            let mut p: usize = 0;
            while p < res.len()
                invariant
                    q < results@.len(),
                    res@ == results@[q as int]@,
                    p <= res@.len(),
                    forall|t: int| 0 <= t < p ==> 0 <= #[trigger] res@[t] < 4,
                decreases res@.len() - p,
            {
                if res[p] < 0 || res[p] >= 4 {
                    proof {
                        assert(!(0 <= results@[q as int]@[p as int] < 4));
                    }
                    return false;
                }
                p = p + 1;
            }
            q = q + 1;
        }
        proof {
            assert(self.door_paths().len() == self.door_paths@.len());
            assert forall|j: int| 0 <= j < self.door_paths@.len() implies self.door_paths()[j] == self.door_paths@[j]@ by {}
        }
        true
    }
}

/// The painting part of the plans for the tour `order` (see `painting_text`), and
/// the number of labels it adds to a result; `None` where that number does not fit
/// in a `usize`.
fn painting(labels: &Vec<i8>, paths: &Vec<Vec<Vec<usize>>>, order: &Vec<usize>, n: usize) -> (res: Option<(String, usize)>)
    requires
        labels@.len() == n,
        forall|r: int| 0 <= r < n ==> 0 <= #[trigger] labels@[r] < 4,
        path_table(paths@).len() == n,
        forall|a: int| 0 <= a < n ==> (#[trigger] path_table(paths@)[a]).len() == n,
        forall|a: int, b: int| 0 <= a < n && 0 <= b < n ==> is_door_path(#[trigger] path_table(paths@)[a][b]),
        order@.len() == n,
        forall|k: int| 0 <= k < n ==> #[trigger] order@[k] < n,
    ensures
        match res {
            Some((text, moves)) => text@ == painting_text(labels@, path_table(paths@), order@, n as int) && moves
                == painting_moves(path_table(paths@), order@, n as int),
            None => painting_moves(path_table(paths@), order@, n as int) > usize::MAX,
        },
{
    let ghost pt = path_table(paths@);
    let mut text = String::new();
    let mut moves: usize = 0;
    let mut k: usize = 0;
    while k < n
        invariant
            pt == path_table(paths@),
            labels@.len() == n,
            forall|r: int| 0 <= r < n ==> 0 <= #[trigger] labels@[r] < 4,
            pt.len() == n,
            forall|a: int| 0 <= a < n ==> (#[trigger] pt[a]).len() == n,
            forall|a: int, b: int| 0 <= a < n && 0 <= b < n ==> is_door_path(#[trigger] pt[a][b]),
            order@.len() == n,
            forall|j: int| 0 <= j < n ==> #[trigger] order@[j] < n,
            k <= n,
            text@ == painting_text(labels@, pt, order@, k as int),
            moves == painting_moves(pt, order@, k as int),
        decreases n - k,
    {
        let room = order[k];
        let next = if k + 1 < n {
            order[k + 1]
        } else {
            order[0]
        };
        assert(pt[room as int] == paths@[room as int]@.map_values(|q: Vec<usize>| q@));
        let leg = &paths[room][next];
        assert(leg@ == tour_leg(pt, order@, k as int));
        let ghost before = text@;
        proof {
            reveal_strlit("[");
            reveal_strlit("]");
        }
        text.append("[");
        let label = labels[room];
        text.append(digit_str(((label as usize) + 1) % 4));
        text.append("]");
        assert(text@ =~= before + seq!['[', digit_char(((labels@[room as int] + 1) % 4) as nat), ']']);
        let ghost mid = text@;
        let mut j: usize = 0;
        while j < leg.len()
            invariant
                j <= leg@.len(),
                is_door_path(leg@),
                text@ == mid + door_chars(leg@.subrange(0, j as int)),
            decreases leg@.len() - j,
        {
            text.append(digit_str(leg[j]));
            proof {
                assert(door_chars(leg@.subrange(0, j + 1)) =~= door_chars(leg@.subrange(0, j as int)) + seq![
                    digit_char(leg@[j as int] as nat),
                ]);
            }
            j = j + 1;
        }
        assert(leg@.subrange(0, leg@.len() as int) =~= leg@);
        let m1 = moves.checked_add(1);
        match m1 {
            None => {
                proof {
                    assert(painting_moves(pt, order@, k + 1) == moves + 1 + leg@.len());
                    lemma_moves_mono(pt, order@, k + 1, n as int);
                }
                return None;
            },
            Some(a) => {
                match a.checked_add(leg.len()) {
                    None => {
                        proof {
                            lemma_moves_mono(pt, order@, k + 1, n as int);
                        }
                        return None;
                    },
                    Some(b) => {
                        moves = b;
                    },
                }
            },
        }
        k = k + 1;
    }
    Some((text, moves))
}

proof fn lemma_moves_mono(pt: Seq<Seq<Seq<usize>>>, order: Seq<usize>, j: int, k: int)
    requires
        0 <= j <= k,
    ensures
        painting_moves(pt, order, j) <= painting_moves(pt, order, k),
    decreases k - j,
{
    if j < k {
        lemma_moves_mono(pt, order, j, k - 1);
    }
}

/// Starts expanding a map of `graph.len()` rooms reconstructed for a problem of
/// `ploidy` copies: with one copy there is nothing to do; with more than two the
/// expansion is not implemented; with two, the plans that tell the copies apart
/// (see `ExpansionPlan`), within `max_plan_length` doors each. Fails where some
/// room cannot be reached from another, or where the plans cannot fit.
pub fn expand_ploidy(
    ploidy: usize,
    max_plan_length: usize,
    node_label: Vec<i8>,
    start_index: usize,
    graph: Vec<Vec<usize>>,
) -> (res: Result<Expansion, String>)
    requires
        ploidy >= 1,
        ploidy == 2 ==> 1 <= graph@.len(),
        ploidy == 2 ==> 6 * graph@.len() <= usize::MAX,
        ploidy == 2 ==> is_map(rows(graph@), graph@.len() as nat),
        ploidy == 2 ==> node_label@.len() == graph@.len(),
        ploidy == 2 ==> forall|r: int| 0 <= r < graph@.len() ==> 0 <= #[trigger] node_label@[r] < 4,
        ploidy == 2 ==> start_index < graph@.len(),
    ensures
        ploidy == 1 ==> (res matches Ok(Expansion::Unchanged(l, s, g)) && l@ == node_label@ && s == start_index && g@
            == graph@),
        ploidy > 2 ==> (res matches Err(m) && m@ == "Not implemented yet!"@),
        ploidy == 2 ==> {
            let g = rows(graph@);
            let n = graph@.len() as nat;
            let pt = first_shortest_table(g, n);
            let order = greedy_order(pt, n, start_index);
            let pl = painting_moves(pt, order, n as int);
            if !strongly_connected(g, n) {
                (res matches Err(m) && m@ == "Some room cannot be reached from another"@)
            } else if pl > max_plan_length || cover_rounds(g, pt, start_index, all_doors(n), (max_plan_length - pl) as nat) is None {
                (res matches Err(m) && m@ == "Plan length is too short"@)
            } else {
                (res matches Ok(Expansion::Explore(plan)) && {
                    &&& plan.wf()
                    &&& plan.labels() == node_label@
                    &&& plan.start() == start_index
                    &&& plan.graph() == g
                    &&& plan.paths() == pt
                    &&& plan.order() == order
                    &&& plan.painting_length() == pl
                    &&& Some(plan.door_paths()) == cover_rounds(g, pt, start_index, all_doors(n), (max_plan_length - pl) as nat)
                    &&& plan.plans().len() == plan.door_paths().len()
                    &&& forall|q: int|
                        0 <= q < plan.plans().len() ==> #[trigger] plan.plans()[q] == painting_text(node_label@, pt, order, n as int)
                            + door_chars(plan.door_paths()[q])
                })
            }
        },
{
    if ploidy == 1 {
        return Ok(Expansion::Unchanged(node_label, start_index, graph));
    }
    if ploidy > 2 {
        return Err(String::from_str("Not implemented yet!"));
    }
    let ghost g = rows(graph@);
    let n = graph.len();
    let paths = match crate::routes::shortest_paths(&graph) {
        Some(p) => p,
        None => {
            proof {
                let (a, r) = choose|a: int, r: int| 0 <= a < n && 0 <= r < n && !#[trigger] crate::problem::reachable(g, a as usize, r);
                assert(!crate::problem::reachable(g, a as usize, r));
            }
            return Err(String::from_str("Some room cannot be reached from another"));
        },
    };
    let ghost pt = path_table(paths@);
    proof {
        assert(pt.len() == n);
        assert forall|a: int| 0 <= a < n implies (#[trigger] pt[a]).len() == n by {
            assert(pt[a] == paths@[a]@.map_values(|q: Vec<usize>| q@));
        }
        assert forall|a: int, b: int| 0 <= a < n && 0 <= b < n implies is_first_shortest(g, a as usize, b as usize, #[trigger] pt[a][b]) by {
            assert(pt[a] == paths@[a]@.map_values(|q: Vec<usize>| q@));
            assert(pt[a][b] == paths@[a]@[b]@);
        }
        assert(strongly_connected(g, n as nat)) by {
            assert forall|a: int, r: int| 0 <= a < n && 0 <= r < n implies #[trigger] crate::problem::reachable(g, a as usize, r) by {
                assert(is_first_shortest(g, a as usize, r as usize, pt[a][r]));
                assert(crate::problem::is_door_path(pt[a][r]) && walk(g, a as usize, pt[a][r]) == r);
            }
        }
        let c = first_shortest_table(g, n as nat);
        assert forall|a: int| 0 <= a < n implies #[trigger] c[a] == pt[a] by {
            assert forall|b: int| 0 <= b < n implies c[a][b] == pt[a][b] by {
                assert(is_first_shortest(g, a as usize, b as usize, c[a][b]));
                lemma_first_shortest_unique(g, a as usize, b as usize, c[a][b], pt[a][b]);
            }
            assert(c[a] =~= pt[a]);
        }
        assert(c =~= pt);
    }
    let order = greedy_tour(&paths, n, start_index);
    proof {
        lemma_greedy_tour_unique(pt, n as nat, start_index, order@, greedy_order(pt, n as nat, start_index));
    }
    let (text, pl) = match painting(&node_label, &paths, &order, n) {
        Some(x) => x,
        None => {
            proof {
                reveal_strlit("Plan length is too short");
            }
            return Err(String::from_str("Plan length is too short"));
        },
    };
    if pl > max_plan_length {
        return Err(String::from_str("Plan length is too short"));
    }
    proof {
        assert(paths_ok(g, n as nat, pt));
    }
    let door_paths = match cover_plans(&graph, &paths, n, start_index, max_plan_length - pl) {
        Some(d) => d,
        None => {
            proof {
                assert(Seq::new(6 * n as nat, |x: int| true) == all_doors(n as nat));
            }
            return Err(String::from_str("Plan length is too short"));
        },
    };
    let ghost dps = door_paths@.map_values(|p: Vec<usize>| p@);
    proof {
        assert(Seq::new(6 * n as nat, |x: int| true) == all_doors(n as nat));
        lemma_rounds_cover(g, n as nat, pt, start_index, all_doors(n as nat), (max_plan_length - pl) as nat);
        assert forall|r: int, d: int| 0 <= r < n && 0 <= d < 6 implies #[trigger] covered_by(g, start_index, dps, r, d) by {
            lemma_flag_index(r, d, n as int);
            let x = r * 6 + d;
            assert(all_doors(n as nat)[x]);
            let q = choose|q: int| 0 <= q < dps.len() && traversed(g, start_index, #[trigger] dps[q], x / 6, x % 6);
            assert(traversed(g, start_index, dps[q], r, d));
        }
    }
    let mut plans: Vec<String> = Vec::new();
    let mut q: usize = 0;
    while q < door_paths.len()
        invariant
            q <= door_paths@.len(),
            dps == door_paths@.map_values(|p: Vec<usize>| p@),
            forall|j: int| 0 <= j < dps.len() ==> is_door_path(#[trigger] dps[j]),
            plans@.len() == q,
            forall|j: int| 0 <= j < q ==> (#[trigger] plans@[j])@ == text@ + door_chars(dps[j]),
        decreases door_paths@.len() - q,
    {
        let dp = &door_paths[q];
        assert(dp@ == dps[q as int]);
        let mut plan = text.clone();
        let mut j: usize = 0;
        while j < dp.len()
            invariant
                j <= dp@.len(),
                is_door_path(dp@),
                plan@ == text@ + door_chars(dp@.subrange(0, j as int)),
            decreases dp@.len() - j,
        {
            plan.append(digit_str(dp[j]));
            proof {
                assert(door_chars(dp@.subrange(0, j + 1)) =~= door_chars(dp@.subrange(0, j as int)) + seq![
                    digit_char(dp@[j as int] as nat),
                ]);
            }
            j = j + 1;
        }
        assert(dp@.subrange(0, dp@.len() as int) =~= dp@);
        plans.push(plan);
        q = q + 1;
    }
    let plan = ExpansionPlan {
        node_label,
        start: start_index,
        graph,
        paths,
        order,
        painting_length: pl,
        door_paths,
        plans,
    };
    proof {
        assert(plan.door_paths() == dps);
        assert forall|j: int| 0 <= j < plan.plans().len() implies #[trigger] plan.plans()[j] == painting_text(
            plan.node_label@,
            pt,
            plan.order@,
            n as int,
        ) + door_chars(plan.door_paths()[j]) by {
            assert(plan.plans()[j] == plan.plans@[j]@);
        }
    }
    assert(plan.door_paths().len() == plan.plans().len());
    assert forall|j: int| 0 <= j < plan.door_paths@.len() implies is_door_path(#[trigger] plan.door_paths@[j]@) by {
        assert(dps[j] == plan.door_paths@[j]@);
    }
    assert(plan.painting_length == painting_moves(pt, plan.order@, n as int));
    assert(plan.order@ == greedy_order(pt, n as nat, start_index));
    assert(forall|r: int, d: int| 0 <= r < n && 0 <= d < 6 ==> #[trigger] covered_by(g, start_index, plan.door_paths(), r, d));
    assert(plan.wf());
    Ok(Expansion::Explore(plan))
}

/// The shift of door `d` of room `r` (see `is_door_shift`; unique, see
/// `lemma_first_traversal_unique`).
pub open spec fn door_shift(
    g: Seq<Seq<usize>>,
    labels: Seq<i8>,
    start: usize,
    dps: Seq<Seq<usize>>,
    results: Seq<Vec<i8>>,
    pl: nat,
    r: int,
    d: int,
) -> int {
    choose|s: int| is_door_shift(g, labels, start, dps, results, pl, r, d, s)
}

/// Door `d` of room `r` is taken by some position of the door paths before position
/// `p` of path `q`.
pub open spec fn seen_before(g: Seq<Seq<usize>>, start: usize, dps: Seq<Seq<usize>>, r: int, d: int, q: int, p: int) -> bool {
    exists|q2: int, p2: int| (q2 < q || (q2 == q && p2 < p)) && #[trigger] traversal_at(g, start, dps, q2, p2, r, d)
}

pub proof fn lemma_first_traversal_unique(
    g: Seq<Seq<usize>>,
    start: usize,
    dps: Seq<Seq<usize>>,
    q1: int,
    p1: int,
    q2: int,
    p2: int,
    r: int,
    d: int,
)
    requires
        first_traversal(g, start, dps, q1, p1, r, d),
        first_traversal(g, start, dps, q2, p2, r, d),
    ensures
        q1 == q2 && p1 == p2,
{
    if q1 < q2 || (q1 == q2 && p1 < p2) {
        assert(!traversal_at(g, start, dps, q1, p1, r, d));
    } else if q2 < q1 || (q1 == q2 && p2 < p1) {
        assert(!traversal_at(g, start, dps, q2, p2, r, d));
    }
}


/// Two copies of the map `graph` of `n` rooms: door `d` of room `x` of copy `c`
/// (room `c * n + x`) leads to the copy `(c + shifts[x][d]) % 2` of its target.
fn build_copies(graph: Vec<Vec<usize>>, shifts: &Vec<Vec<usize>>, n: usize) -> (new_graph: Vec<Vec<usize>>)
    requires
        n == graph@.len(),
        n >= 1,
        6 * n <= usize::MAX,
        is_map(rows(graph@), n as nat),
        shifts@.len() == n,
        forall|x: int| 0 <= x < n ==> (#[trigger] shifts@[x])@.len() == 6,
        forall|x: int, d: int| 0 <= x < n && 0 <= d < 6 ==> #[trigger] shifts@[x]@[d] < 4,
    ensures
        new_graph@.len() == 2 * n,
        forall|x: int| 0 <= x < 2 * n ==> (#[trigger] new_graph@[x])@.len() == 6,
        forall|c2: int, x: int, d: int|
            0 <= c2 < 2 && 0 <= x < n && 0 <= d < 6 ==> #[trigger] new_graph@[c2 * n + x]@[d] == rows(graph@)[x][d] + ((c2
                + shifts@[x]@[d]) % 2) * n,
{
    let ghost g = rows(graph@);
    let copies = crate::copies::repeat_rows(graph, 2);
    let mut new_graph: Vec<Vec<usize>> = Vec::new();
    let mut c: usize = 0;
    while c < 2
        invariant
            n >= 1,
            6 * n <= usize::MAX,
            is_map(g, n as nat),
            copies@.len() == 2,
            forall|j: int| 0 <= j < 2 ==> rows(#[trigger] copies@[j]@) == g,
            shifts@.len() == n,
            forall|x: int| 0 <= x < n ==> (#[trigger] shifts@[x])@.len() == 6,
            forall|x: int, d: int| 0 <= x < n && 0 <= d < 6 ==> #[trigger] shifts@[x]@[d] < 4,
            c <= 2,
            new_graph@.len() == c * n,
            forall|x: int| 0 <= x < c * n ==> (#[trigger] new_graph@[x])@.len() == 6,
            forall|c2: int, x: int, d: int|
                0 <= c2 < c && 0 <= x < n && 0 <= d < 6 ==> #[trigger] new_graph@[c2 * n + x]@[d] == g[x][d] + ((c2
                    + shifts@[x]@[d]) % 2) * n,
        decreases 2 - c,
    {
        let copy = &copies[c];
        let mut x: usize = 0;
        while x < n
            invariant
                n >= 1,
                6 * n <= usize::MAX,
                is_map(g, n as nat),
                c < 2,
                rows(copy@) == g,
                shifts@.len() == n,
                forall|y: int| 0 <= y < n ==> (#[trigger] shifts@[y])@.len() == 6,
                forall|y: int, d: int| 0 <= y < n && 0 <= d < 6 ==> #[trigger] shifts@[y]@[d] < 4,
                x <= n,
                new_graph@.len() == c * n + x,
                forall|y: int| 0 <= y < c * n + x ==> (#[trigger] new_graph@[y])@.len() == 6,
                forall|c2: int, y: int, d: int|
                    0 <= c2 < c && 0 <= y < n && 0 <= d < 6 ==> #[trigger] new_graph@[c2 * n + y]@[d] == g[y][d] + ((c2
                        + shifts@[y]@[d]) % 2) * n,
                forall|y: int, d: int|
                    0 <= y < x && 0 <= d < 6 ==> #[trigger] new_graph@[c * n + y]@[d] == g[y][d] + ((c + shifts@[y]@[d])
                        % 2) * n,
            decreases n - x,
        {
            assert(copy@[x as int]@ == g[x as int]);
            let src = &copy[x];
            let mut row: Vec<usize> = Vec::new();
            let mut d: usize = 0;
            while d < 6
                invariant
                    n >= 1,
                    6 * n <= usize::MAX,
                    is_map(g, n as nat),
                    c < 2,
                    x < n,
                    src@ == g[x as int],
                    shifts@.len() == n,
                    shifts@[x as int]@.len() == 6,
                    forall|e: int| 0 <= e < 6 ==> #[trigger] shifts@[x as int]@[e] < 4,
                    d <= 6,
                    row@.len() == d,
                    forall|e: int| 0 <= e < d ==> #[trigger] row@[e] == g[x as int][e] + ((c + shifts@[x as int]@[e]) % 2) * n,
                decreases 6 - d,
            {
                let sh = shifts[x][d];
                let k = (c + sh) % 2;
                assert(k * n <= n) by (nonlinear_arith)
                    requires
                        k <= 1,
                ;
                assert(src@[d as int] < n);
                let v = src[d] + k * n;
                row.push(v);
                d = d + 1;
            }
            let ghost before = new_graph@;
            new_graph.push(row);
            proof {
                assert forall|c2: int, y: int, e: int|
                    0 <= c2 < c && 0 <= y < n && 0 <= e < 6 implies #[trigger] new_graph@[c2 * n + y]@[e] == g[y][e] + ((c2
                        + shifts@[y]@[e]) % 2) * n by {
                    assert(c2 * n + y < c * n) by (nonlinear_arith)
                        requires
                            c2 < c,
                            y < n,
                    ;
                    assert(new_graph@[c2 * n + y] == before[c2 * n + y]);
                }
            }
            x = x + 1;
        }
        proof {
            assert((c + 1) * n == c * n + n) by (nonlinear_arith);
            assert forall|c2: int, y: int, e: int|
                0 <= c2 < c + 1 && 0 <= y < n && 0 <= e < 6 implies #[trigger] new_graph@[c2 * n + y]@[e] == g[y][e] + ((c2
                    + shifts@[y]@[e]) % 2) * n by {}
        }
        c = c + 1;
    }
    proof {
        assert(2 * n == 2 * n);
    }
    new_graph
}

/// Two copies of the labels of `n` rooms, one after the other.
fn copy_labels(node_label: Vec<i8>, n: usize) -> (new_labels: Vec<i8>)
    requires
        node_label@.len() == n,
    ensures
        new_labels@.len() == 2 * n,
        forall|c2: int, x: int| 0 <= c2 < 2 && 0 <= x < n ==> #[trigger] new_labels@[c2 * n + x] == node_label@[x],
{
    let ghost labels = node_label@;
    let label_copies = crate::copies::repeat_labels(node_label, 2);
    let mut new_labels: Vec<i8> = Vec::new();
    let mut c: usize = 0;
    while c < 2
        invariant
            label_copies@.len() == 2,
            forall|j: int| 0 <= j < 2 ==> (#[trigger] label_copies@[j])@ == labels,
            labels.len() == n,
            c <= 2,
            new_labels@.len() == c * n,
            forall|c2: int, x: int| 0 <= c2 < c && 0 <= x < n ==> #[trigger] new_labels@[c2 * n + x] == labels[x],
        decreases 2 - c,
    {
        let copy = &label_copies[c];
        let mut x: usize = 0;
        while x < n
            invariant
                c < 2,
                copy@ == labels,
                labels.len() == n,
                x <= n,
                new_labels@.len() == c * n + x,
                forall|c2: int, y: int| 0 <= c2 < c && 0 <= y < n ==> #[trigger] new_labels@[c2 * n + y] == labels[y],
                forall|y: int| 0 <= y < x ==> #[trigger] new_labels@[c * n + y] == labels[y],
            decreases n - x,
        {
            let ghost before = new_labels@;
            new_labels.push(copy[x]);
            proof {
                assert forall|c2: int, y: int| 0 <= c2 < c && 0 <= y < n implies #[trigger] new_labels@[c2 * n + y] == labels[y] by {
                    assert(c2 * n + y < c * n) by (nonlinear_arith)
                        requires
                            c2 < c,
                            y < n,
                    ;
                    assert(new_labels@[c2 * n + y] == before[c2 * n + y]);
                }
            }
            x = x + 1;
        }
        proof {
            assert((c + 1) * n == c * n + n) by (nonlinear_arith);
        }
        c = c + 1;
    }
    new_labels
}

impl ExpansionPlan {
    /// Builds the map of both copies from the results of the plans. The painting tour
    /// rewrote the labels of one copy, so the label seen in a room tells which copy
    /// the walk is in, relative to where it started; each door gets the change of
    /// copy across it at its first traversal (see `is_door_shift`). Room `r` of copy
    /// `c` is room `c * n + r`, with the label of `r`, and its door `d` leads to the
    /// copy `(c + shift) % 2` of the room that door `d` of `r` leads to.
    pub fn finish(self, results: &Vec<Vec<i8>>) -> (res: (Vec<i8>, usize, Vec<Vec<usize>>))
        requires
            self.wf(),
            results@.len() == self.door_paths().len(),
            forall|q: int|
                0 <= q < results@.len() ==> (#[trigger] results@[q])@.len() == self.painting_length() + 1
                    + self.door_paths()[q].len(),
            forall|q: int, p: int| 0 <= q < results@.len() && 0 <= p < results@[q]@.len() ==> 0 <= #[trigger] results@[q]@[p] < 4,
        ensures
            res.1 == self.start(),
            res.0@.len() == 2 * self.graph().len(),
            forall|c: int, r: int|
                0 <= c < 2 && 0 <= r < self.graph().len() ==> #[trigger] res.0@[c * self.graph().len() + r] == self.labels()[r],
            is_map(rows(res.2@), 2 * self.graph().len()),
            forall|c: int, r: int, d: int|
                0 <= c < 2 && 0 <= r < self.graph().len() && 0 <= d < 6 ==> {
                    let s = door_shift(
                        self.graph(),
                        self.labels(),
                        self.start(),
                        self.door_paths(),
                        results@,
                        self.painting_length(),
                        r,
                        d,
                    );
                    &&& is_door_shift(
                        self.graph(),
                        self.labels(),
                        self.start(),
                        self.door_paths(),
                        results@,
                        self.painting_length(),
                        r,
                        d,
                        s,
                    )
                    &&& #[trigger] rows(res.2@)[c * self.graph().len() + r][d] == self.graph()[r][d] + ((c + s) % 2)
                        * self.graph().len()
                },
    {
        let ghost g = rows(self.graph@);
        let ghost labels = self.node_label@;
        let ghost dps = self.door_paths();
        let ghost pl = self.painting_length as nat;
        let ghost st = self.start;
        let n = self.graph.len();
        let mut shifts: Vec<Vec<usize>> = Vec::new();
        let mut r: usize = 0;
        while r < n
            invariant
                r <= n,
                shifts@.len() == r,
                forall|x: int| 0 <= x < r ==> (#[trigger] shifts@[x])@.len() == 6,
                forall|x: int, d: int| 0 <= x < r && 0 <= d < 6 ==> #[trigger] shifts@[x]@[d] == NONE,
            decreases n - r,
        {
            shifts.push(vec![NONE, NONE, NONE, NONE, NONE, NONE]);
            r = r + 1;
        }
        let mut q: usize = 0;
        while q < self.door_paths.len()
            invariant
                self.wf(),
                g == rows(self.graph@),
                labels == self.node_label@,
                dps == self.door_paths(),
                pl == self.painting_length,
                st == self.start,
                n == self.graph@.len(),
                results@.len() == dps.len(),
                forall|j: int| 0 <= j < results@.len() ==> (#[trigger] results@[j])@.len() == pl + 1 + dps[j].len(),
                forall|j: int, p: int| 0 <= j < results@.len() && 0 <= p < results@[j]@.len() ==> 0 <= #[trigger] results@[j]@[p] < 4,
                q <= dps.len(),
                shifts@.len() == n,
                forall|x: int| 0 <= x < n ==> (#[trigger] shifts@[x])@.len() == 6,
                forall|x: int, d: int|
                    0 <= x < n && 0 <= d < 6 ==> (#[trigger] shifts@[x]@[d] != NONE) == seen_before(g, st, dps, x, d, q as int, 0),
                forall|x: int, d: int|
                    0 <= x < n && 0 <= d < 6 && #[trigger] shifts@[x]@[d] != NONE ==> is_door_shift(
                        g,
                        labels,
                        st,
                        dps,
                        results@,
                        pl,
                        x,
                        d,
                        shifts@[x]@[d] as int,
                    ),
            decreases dps.len() - q,
        {
            let dp = &self.door_paths[q];
            assert(dp@ == dps[q as int]);
            let res = &results[q];
            let mut cur = self.start;
            assert(dp@.subrange(0, 0) =~= Seq::<usize>::empty());
            let mut cs: usize = ((4 + self.node_label[cur] as usize - res[self.painting_length] as usize) % 4) as usize;
            let mut p: usize = 0;
            while p < dp.len()
                invariant
                    self.wf(),
                    g == rows(self.graph@),
                    labels == self.node_label@,
                    dps == self.door_paths(),
                    pl == self.painting_length,
                    st == self.start,
                    n == self.graph@.len(),
                    results@.len() == dps.len(),
                    q < dps.len(),
                    dp@ == dps[q as int],
                    res@ == results@[q as int]@,
                    res@.len() == pl + 1 + dp@.len(),
                    forall|t: int| 0 <= t < res@.len() ==> 0 <= #[trigger] res@[t] < 4,
                    p <= dp@.len(),
                    cur < n,
                    cur == walk(g, st, dp@.subrange(0, p as int)),
                    cs == offset_at(g, labels, st, dps, results@, pl, q as int, p as int),
                    shifts@.len() == n,
                    forall|x: int| 0 <= x < n ==> (#[trigger] shifts@[x])@.len() == 6,
                    forall|x: int, d: int|
                        0 <= x < n && 0 <= d < 6 ==> (#[trigger] shifts@[x]@[d] != NONE) == seen_before(g, st, dps, x, d, q as int, p as int),
                    forall|x: int, d: int|
                        0 <= x < n && 0 <= d < 6 && #[trigger] shifts@[x]@[d] != NONE ==> is_door_shift(
                            g,
                            labels,
                            st,
                            dps,
                            results@,
                            pl,
                            x,
                            d,
                            shifts@[x]@[d] as int,
                        ),
                decreases dp@.len() - p,
            {
                let door = dp[p];
                assert(is_door_path(dp@));
                assert(self.graph@[cur as int]@ == g[cur as int]);
                let nr = self.graph[cur][door];
                assert(self.painting_length + 1 + p < res.len());
                let ns = (4 + self.node_label[nr] as usize - res[self.painting_length + 1 + p] as usize) % 4;
                proof {
                    let sub = dp@.subrange(0, p as int);
                    assert(dp@.subrange(0, p + 1) =~= sub.push(door));
                    crate::problem::lemma_walk_push(g, st, sub, door);
                }
                let ghost old_shifts = shifts@;
                if shifts[cur][door] == NONE {
                    proof {
                        assert(!seen_before(g, st, dps, cur as int, door as int, q as int, p as int));
                        assert(first_traversal(g, st, dps, q as int, p as int, cur as int, door as int)) by {
                            assert forall|q2: int, p2: int| (q2 < q || (q2 == q && p2 < p)) implies !#[trigger] traversal_at(
                                g,
                                st,
                                dps,
                                q2,
                                p2,
                                cur as int,
                                door as int,
                            ) by {}
                        }
                    }
                    shifts[cur][door] = (4 + cs - ns) % 4;
                }
                proof {
                    assert(traversal_at(g, st, dps, q as int, p as int, cur as int, door as int));
                    assert forall|x: int, d: int|
                        0 <= x < n && 0 <= d < 6 implies (#[trigger] shifts@[x]@[d] != NONE) == seen_before(
                        g,
                        st,
                        dps,
                        x,
                        d,
                        q as int,
                        p + 1,
                    ) by {
                        if seen_before(g, st, dps, x, d, q as int, p + 1) && !(x == cur && d == door) {
                            let (q2, p2) = choose|q2: int, p2: int|
                                (q2 < q || (q2 == q && p2 < p + 1)) && #[trigger] traversal_at(g, st, dps, q2, p2, x, d);
                            if q2 == q && p2 == p {
                                assert(false);
                            }
                            assert(seen_before(g, st, dps, x, d, q as int, p as int));
                        }
                        if seen_before(g, st, dps, x, d, q as int, p as int) {
                            let (q2, p2) = choose|q2: int, p2: int|
                                (q2 < q || (q2 == q && p2 < p)) && #[trigger] traversal_at(g, st, dps, q2, p2, x, d);
                            assert(seen_before(g, st, dps, x, d, q as int, p + 1));
                        }
                        if x == cur && d == door {
                            assert(seen_before(g, st, dps, x, d, q as int, p + 1));
                        }
                    }
                }
                cur = nr;
                cs = ns;
                p = p + 1;
            }
            proof {
                assert forall|x: int, d: int|
                    0 <= x < n && 0 <= d < 6 implies (#[trigger] shifts@[x]@[d] != NONE) == seen_before(g, st, dps, x, d, q + 1, 0) by {
                    if seen_before(g, st, dps, x, d, q + 1, 0) {
                        let (q2, p2) = choose|q2: int, p2: int|
                            (q2 < q + 1 || (q2 == q + 1 && p2 < 0)) && #[trigger] traversal_at(g, st, dps, q2, p2, x, d);
                        assert(seen_before(g, st, dps, x, d, q as int, dp@.len() as int));
                    }
                    if seen_before(g, st, dps, x, d, q as int, dp@.len() as int) {
                        let (q2, p2) = choose|q2: int, p2: int|
                            (q2 < q || (q2 == q && p2 < dp@.len())) && #[trigger] traversal_at(g, st, dps, q2, p2, x, d);
                        assert(seen_before(g, st, dps, x, d, q + 1, 0));
                    }
                }
            }
            q = q + 1;
        }
        proof {
            assert forall|x: int, d: int| 0 <= x < n && 0 <= d < 6 implies #[trigger] shifts@[x]@[d] != NONE by {
                assert(covered_by(g, st, dps, x, d));
                let q2 = choose|q2: int| 0 <= q2 < dps.len() && #[trigger] traversed(g, st, dps[q2], x, d);
                let p2 = choose|p2: int| 0 <= p2 < dps[q2].len() && #[trigger] walk(g, st, dps[q2].subrange(0, p2)) == x && dps[q2][p2] == d;
                assert(traversal_at(g, st, dps, q2, p2, x, d));
                assert(seen_before(g, st, dps, x, d, dps.len() as int, 0));
            }
        }
        let ExpansionPlan { node_label, start, graph, .. } = self;
        let new_graph = build_copies(graph, &shifts, n);
        let new_labels = copy_labels(node_label, n);
        proof {
            assert forall|x: int, d: int| 0 <= x < n && 0 <= d < 6 implies door_shift(g, labels, st, dps, results@, pl, x, d)
                == shifts@[x]@[d] as int by {
                let s0 = shifts@[x]@[d] as int;
                assert(is_door_shift(g, labels, st, dps, results@, pl, x, d, s0));
                let s1 = door_shift(g, labels, st, dps, results@, pl, x, d);
                assert(is_door_shift(g, labels, st, dps, results@, pl, x, d, s1));
                let (q1, p1) = choose|q1: int, p1: int| #[trigger] first_traversal(g, st, dps, q1, p1, x, d) && s0 == (4
                    + offset_at(g, labels, st, dps, results@, pl, q1, p1) - offset_at(g, labels, st, dps, results@, pl, q1, p1 + 1)) % 4;
                let (q2, p2) = choose|q2: int, p2: int| #[trigger] first_traversal(g, st, dps, q2, p2, x, d) && s1 == (4
                    + offset_at(g, labels, st, dps, results@, pl, q2, p2) - offset_at(g, labels, st, dps, results@, pl, q2, p2 + 1)) % 4;
                lemma_first_traversal_unique(g, st, dps, q1, p1, q2, p2, x, d);
            }
            assert forall|x: int, d: int| 0 <= x < 2 * n && 0 <= d < 6 implies #[trigger] rows(new_graph@)[x][d] < 2 * n by {
                let c2 = x / (n as int);
                let y = x % (n as int);
                assert(x == c2 * n + y && 0 <= c2 < 2 && 0 <= y < n) by (nonlinear_arith)
                    requires
                        0 <= x < 2 * n,
                        n >= 1,
                        c2 == x / (n as int),
                        y == x % (n as int),
                ;
                assert(g[y][d] < n);
                assert(new_graph@[c2 * n + y]@[d] == g[y][d] + ((c2 + shifts@[y]@[d]) % 2) * n);
            }
            assert forall|x: int| 0 <= x < 2 * n implies (#[trigger] rows(new_graph@)[x]).len() == 6 by {}
            assert forall|c2: int, x: int, d: int|
                0 <= c2 < 2 && 0 <= x < n && 0 <= d < 6 implies {
                    let s = door_shift(g, labels, st, dps, results@, pl, x, d);
                    &&& is_door_shift(g, labels, st, dps, results@, pl, x, d, s)
                    &&& #[trigger] rows(new_graph@)[c2 * n + x][d] == g[x][d] + ((c2 + s) % 2) * n
                } by {
                assert(door_shift(g, labels, st, dps, results@, pl, x, d) == shifts@[x]@[d] as int);
                assert(is_door_shift(g, labels, st, dps, results@, pl, x, d, shifts@[x]@[d] as int));
                assert(c2 * n + x < 2 * n) by (nonlinear_arith)
                    requires
                        0 <= c2 < 2,
                        0 <= x < n,
                ;
                assert(rows(new_graph@)[c2 * n + x] == new_graph@[c2 * n + x]@);
                assert(new_graph@[c2 * n + x]@[d] == g[x][d] + ((c2 + shifts@[x]@[d]) % 2) * n);
            }
        }
        (new_labels, start, new_graph)
    }
}

/// The greedy tour visits every room of `0..n` exactly once.
pub proof fn lemma_tour_visits_each_room(pt: Seq<Seq<Seq<usize>>>, n: nat, start: usize, order: Seq<usize>)
    requires
        n >= 1,
        start < n,
        is_greedy_tour(pt, n, start, order),
    ensures
        order.no_duplicates(),
        forall|r: int| 0 <= r < n ==> #[trigger] order.contains(r as usize),
{
    assert forall|i: int, j: int| 0 <= i < order.len() && 0 <= j < order.len() && i != j implies order[i] != order[j] by {
        let (a, b) = if i < j { (i, j) } else { (j, i) };
        assert(is_nearest_unseen(pt, n, order[b - 1], order.subrange(0, b), order[b] as int));
        assert(order.subrange(0, b)[a] == order[a]);
    }
    assert forall|k: int| 0 <= k < order.len() implies #[trigger] order[k] < n by {
        if k > 0 {
            assert(is_nearest_unseen(pt, n, order[k - 1], order.subrange(0, k), order[k] as int));
        }
    }
    let s = order.to_set();
    order.unique_seq_to_set();
    assert forall|r: int| 0 <= r < n implies #[trigger] order.contains(r as usize) by {
        let full = Set::new(|x: usize| x < n);
        assert(s.subset_of(full));
        vstd::set_lib::lemma_set_empty_equivalency_len(Set::<usize>::empty());
        lemma_full_range(n);
        if !s.contains(r as usize) {
            vstd::set_lib::lemma_len_subset(s.insert(r as usize), full);
        }
    }
}

proof fn lemma_full_range(n: nat)
    ensures
        Set::new(|x: usize| x < n).finite(),
        Set::new(|x: usize| x < n).len() <= n,
    decreases n,
{
    if n == 0 {
        assert(Set::new(|x: usize| x < 0) =~= Set::<usize>::empty());
    } else {
        lemma_full_range((n - 1) as nat);
        let prev = Set::new(|x: usize| x < (n - 1) as nat);
        if n - 1 <= usize::MAX {
            assert(Set::new(|x: usize| x < n) =~= prev.insert((n - 1) as usize));
        } else {
            assert(Set::new(|x: usize| x < n) =~= prev);
        }
    }
}

proof fn lemma_round_within(
    g: Seq<Seq<usize>>,
    paths: Seq<Seq<Seq<usize>>>,
    unv: Seq<bool>,
    cur: usize,
    path: Seq<usize>,
    rem: nat,
)
    ensures
        round_run(g, paths, unv, cur, path, rem).1.len() <= path.len() + rem,
    decreases rem,
{
    if exists|f: int| is_first_true(unv, f) {
        let f = choose|f: int| is_first_true(unv, f);
        let np = paths[cur as int][f / 6];
        if np.len() <= rem {
            let m = mark_along(g, unv, cur, np, np.len() as int);
            let rem1 = (rem - np.len()) as nat;
            if rem1 != 0 {
                let d = (f % 6) as usize;
                lemma_round_within(g, paths, m.0.update(m.1 * 6 + d, false), g[m.1 as int][d as int], path + np + seq![d], (rem1 - 1) as nat);
            }
        }
    }
}

/// Every door part of the plans of `cover_rounds` takes at most `budget` doors.
pub proof fn lemma_plans_within_budget(
    g: Seq<Seq<usize>>,
    paths: Seq<Seq<Seq<usize>>>,
    start: usize,
    unv: Seq<bool>,
    budget: nat,
)
    requires
        cover_rounds(g, paths, start, unv, budget) is Some,
    ensures
        forall|q: int|
            0 <= q < cover_rounds(g, paths, start, unv, budget)->0.len() ==> (#[trigger] cover_rounds(g, paths, start, unv, budget)->0[q]).len() <= budget,
    decreases count_true(unv, unv.len() as int),
{
    if count_true(unv, unv.len() as int) != 0 {
        let r = round_run(g, paths, unv, start, Seq::empty(), budget);
        lemma_round_within(g, paths, unv, start, Seq::empty(), budget);
        lemma_plans_within_budget(g, paths, start, r.0, budget);
        let ps = cover_rounds(g, paths, start, unv, budget)->0;
        let rest = cover_rounds(g, paths, start, r.0, budget)->0;
        assert(ps =~= seq![r.1] + rest);
        assert forall|q: int| 0 <= q < ps.len() implies (#[trigger] ps[q]).len() <= budget by {
            if q > 0 {
                assert(ps[q] == rest[q - 1]);
            }
        }
    }
}

} // verus!
