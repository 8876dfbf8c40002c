use vstd::prelude::*;
use vstd::string::*;

use crate::problem::rows;
use crate::text::{decimal, push_decimal};
use crate::types::{GuessRequestConnection, GuessRequestMap, GuessRequestRoom};
use crate::union_find::{count_eq, NONE};
use crate::walker::is_partial_graph;

verus! {

/// How many of the doors `0..=d` of `row` lead where door `d` leads.
pub open spec fn rank(row: Seq<usize>, d: int) -> nat {
    count_eq(row, row[d], d + 1)
}

/// How many of the six doors of `row` lead to room `r`.
pub open spec fn doors_to(row: Seq<usize>, r: usize) -> nat {
    count_eq(row, r, 6)
}

/// Door `d` of room `r` leads to another room `t`, and among the doors of `r`
/// toward `t` it comes after as many as `t` has doors back to `r`: no door of `t`
/// is left for it.
pub open spec fn unmatched(g: Seq<Seq<usize>>, r: int, d: int) -> bool {
    let t = g[r][d];
    &&& t != NONE
    &&& t != r
    &&& rank(g[r], d) > doors_to(g[t as int], r as usize)
}

/// No door of room `r` below `d` is unmatched.
pub open spec fn row_matched(g: Seq<Seq<usize>>, r: int, d: int) -> bool {
    forall|e: int| 0 <= e < d ==> !#[trigger] unmatched(g, r, e)
}

/// No door of the rooms below `r` is unmatched.
pub open spec fn rooms_matched(g: Seq<Seq<usize>>, r: int) -> bool {
    forall|q: int, e: int| 0 <= q < r && 0 <= e < 6 ==> !#[trigger] unmatched(g, q, e)
}

/// The first door of `row`, from `e` on, that is the `k`-th door of `row` toward
/// `target`; `row.len()` where there is none.
pub open spec fn kth_door_from(row: Seq<usize>, target: usize, k: nat, e: int) -> int
    decreases row.len() - e,
{
    if e < 0 || e >= row.len() {
        row.len() as int
    } else if row[e] == target && count_eq(row, target, e + 1) == k {
        e
    } else {
        kth_door_from(row, target, k, e + 1)
    }
}

/// Door `d` of room `r` opens a pair: it leads to a room no earlier than `r`.
pub open spec fn opens_pair(g: Seq<Seq<usize>>, r: int, d: int) -> bool {
    g[r][d] != NONE && g[r][d] >= r
}

/// The connection that door `d` of room `r` opens: to the door of its target that
/// has the same rank among the doors back to `r`.
pub open spec fn door_pair(g: Seq<Seq<usize>>, r: int, d: int) -> GuessRequestConnection {
    let t = g[r][d];
    GuessRequestConnection {
        from: GuessRequestRoom { room: r as usize, door: d as usize },
        to: GuessRequestRoom {
            room: t,
            door: kth_door_from(g[t as int], r as usize, rank(g[r], d), 0) as usize,
        },
    }
}

/// The connections opened by the doors of room `r` below `d`, in door order.
pub open spec fn row_pairs(g: Seq<Seq<usize>>, r: int, d: int) -> Seq<GuessRequestConnection>
    decreases d,
{
    if d <= 0 {
        Seq::empty()
    } else {
        row_pairs(g, r, d - 1) + if opens_pair(g, r, d - 1) {
            seq![door_pair(g, r, d - 1)]
        } else {
            Seq::empty()
        }
    }
}

/// The connections opened by the doors of the rooms below `r`, room by room.
pub open spec fn all_pairs(g: Seq<Seq<usize>>, r: int) -> Seq<GuessRequestConnection>
    decreases r,
{
    if r <= 0 {
        Seq::empty()
    } else {
        all_pairs(g, r - 1) + row_pairs(g, r - 1, 6)
    }
}

/// The message with which pairing stops at door `d` of room `r`, which leads to `t`.
pub open spec fn pairing_error(r: usize, d: usize, t: usize) -> Seq<char> {
    "Failed to find connection from room "@ + decimal(r as nat) + "."@ + decimal(d as nat) + " to room "@
        + decimal(t as nat)
}

proof fn lemma_count_bound(row: Seq<usize>, v: usize, k: int)
    requires
        0 <= k,
    ensures
        count_eq(row, v, k) <= k,
    decreases k,
{
    if k > 0 {
        lemma_count_bound(row, v, k - 1);
    }
}

/// Where `row` has at least `k >= 1` doors toward `target` among its first `m`,
/// the `k`-th of them is found at or after any `e` up to it.
proof fn lemma_kth_found(row: Seq<usize>, target: usize, k: nat, e: int, m: int)
    requires
        1 <= k,
        0 <= e <= m <= row.len(),
        count_eq(row, target, e) < k <= count_eq(row, target, m),
    ensures
        0 <= kth_door_from(row, target, k, e) < m,
        row[kth_door_from(row, target, k, e)] == target,
        count_eq(row, target, kth_door_from(row, target, k, e) + 1) == k,
    decreases m - e,
{
    if e == m {
    } else if row[e] == target && count_eq(row, target, e + 1) == k {
    } else {
        lemma_kth_found(row, target, k, e + 1, m);
    }
}

/// Door `e` of the row of room `t` is the door that `door_pair` picks.
pub proof fn lemma_pair_joins(g: Seq<Seq<usize>>, n: nat, r: int, d: int)
    requires
        g.len() == n,
        forall|i: int| 0 <= i < n ==> (#[trigger] g[i]).len() == 6,
        forall|i: int, e: int| 0 <= i < n && 0 <= e < 6 ==> #[trigger] g[i][e] == NONE || g[i][e] < n,
        0 <= r < n,
        0 <= d < 6,
        opens_pair(g, r, d),
        !unmatched(g, r, d),
    ensures
        door_pair(g, r, d).to.door < 6,
        g[g[r][d] as int][door_pair(g, r, d).to.door as int] == r,
{
    let t = g[r][d];
    let k = rank(g[r], d);
    lemma_count_bound(g[r], t, d);
    if t == r {
        assert(count_eq(g[r], t, d + 1) >= 1);
        lemma_count_mono(g[r], t, d + 1, 6);
    }
    assert(count_eq(g[t as int], r as usize, 0) == 0);
    lemma_kth_found(g[t as int], r as usize, k, 0, 6);
}

proof fn lemma_count_mono(row: Seq<usize>, v: usize, j: int, k: int)
    requires
        0 <= j <= k,
    ensures
        count_eq(row, v, j) <= count_eq(row, v, k),
    decreases k - j,
{
    if j < k {
        lemma_count_mono(row, v, j, k - 1);
    }
}

/// Connection `c` joins two doors of `g` that lead to each other.
pub open spec fn joins(g: Seq<Seq<usize>>, c: GuessRequestConnection) -> bool {
    &&& c.from.room < g.len()
    &&& c.from.door < 6
    &&& c.to.room < g.len()
    &&& c.to.door < 6
    &&& g[c.from.room as int][c.from.door as int] == c.to.room
    &&& g[c.to.room as int][c.to.door as int] == c.from.room
}

/// Where no door is unmatched, every connection that pairing makes joins two doors
/// that lead to each other.
pub proof fn lemma_pairs_join(g: Seq<Seq<usize>>, r: int)
    requires
        forall|i: int| 0 <= i < g.len() ==> (#[trigger] g[i]).len() == 6,
        forall|i: int, e: int| 0 <= i < g.len() && 0 <= e < 6 ==> #[trigger] g[i][e] == NONE || g[i][e] < g.len(),
        0 <= r <= g.len(),
        rooms_matched(g, r),
    ensures
        forall|i: int| 0 <= i < all_pairs(g, r).len() ==> joins(g, #[trigger] all_pairs(g, r)[i]),
    decreases r,
{
    if r > 0 {
        lemma_pairs_join(g, r - 1);
        lemma_row_pairs_join(g, r - 1, 6);
        let a = all_pairs(g, r - 1);
        let b = row_pairs(g, r - 1, 6);
        assert forall|i: int| 0 <= i < all_pairs(g, r).len() implies joins(g, #[trigger] all_pairs(g, r)[i]) by {
            if i < a.len() {
                assert(all_pairs(g, r)[i] == a[i]);
            } else {
                assert(all_pairs(g, r)[i] == b[i - a.len()]);
            }
        }
    }
}

proof fn lemma_row_pairs_join(g: Seq<Seq<usize>>, r: int, d: int)
    requires
        forall|i: int| 0 <= i < g.len() ==> (#[trigger] g[i]).len() == 6,
        forall|i: int, e: int| 0 <= i < g.len() && 0 <= e < 6 ==> #[trigger] g[i][e] == NONE || g[i][e] < g.len(),
        0 <= r < g.len(),
        0 <= d <= 6,
        row_matched(g, r, d),
    ensures
        forall|i: int| 0 <= i < row_pairs(g, r, d).len() ==> joins(g, #[trigger] row_pairs(g, r, d)[i]),
    decreases d,
{
    if d > 0 {
        lemma_row_pairs_join(g, r, d - 1);
        let a = row_pairs(g, r, d - 1);
        if opens_pair(g, r, d - 1) {
            lemma_pair_joins(g, g.len(), r, d - 1);
            assert forall|i: int| 0 <= i < row_pairs(g, r, d).len() implies joins(g, #[trigger] row_pairs(g, r, d)[i]) by {
                if i < a.len() {
                    assert(row_pairs(g, r, d)[i] == a[i]);
                } else {
                    assert(row_pairs(g, r, d)[i] == door_pair(g, r, d - 1));
                }
            }
        } else {
            assert(row_pairs(g, r, d) =~= a);
        }
    }
}

/// How many of the first `k` doors of `row` lead to `v`.
fn count_to(row: &Vec<usize>, v: usize, k: usize) -> (c: usize)
    requires
        k <= row@.len(),
    ensures
        c == count_eq(row@, v, k as int),
{
    let mut c: usize = 0;
    let mut i: usize = 0;
    while i < k
        invariant
            k <= row@.len(),
            i <= k,
            c == count_eq(row@, v, i as int),
        decreases k - i,
    {
        proof {
            lemma_count_bound(row@, v, i as int);
        }
        if row[i] == v {
            c = c + 1;
        }
        i = i + 1;
    }
    c
}

/// The first door of `row` that is the `k`-th door toward `target`, or 6.
fn kth_door(row: &Vec<usize>, target: usize, k: usize) -> (e: usize)
    requires
        row@.len() == 6,
    ensures
        e == kth_door_from(row@, target, k as nat, 0),
{
    let mut e: usize = 0;
    let mut c: usize = 0;
    while e < 6
        invariant
            row@.len() == 6,
            e <= 6,
            c == count_eq(row@, target, e as int),
            kth_door_from(row@, target, k as nat, 0) == kth_door_from(row@, target, k as nat, e as int),
        decreases 6 - e,
    {
        proof {
            lemma_count_bound(row@, target, e as int);
        }
        if row[e] == target {
            c = c + 1;
            if c == k {
                return e;
            }
        }
        e = e + 1;
    }
    6
}

fn pairing_message(r: usize, d: usize, t: usize) -> (msg: String)
    ensures
        msg@ == pairing_error(r, d, t),
{
    let mut msg = String::from_str("Failed to find connection from room ");
    push_decimal(&mut msg, r);
    msg.append(".");
    push_decimal(&mut msg, d);
    msg.append(" to room ");
    push_decimal(&mut msg, t);
    proof {
        reveal_strlit("Failed to find connection from room ");
        reveal_strlit(".");
        reveal_strlit(" to room ");
    }
    msg
}

/// Pairs the doors of `graph` (six per room, `NONE` where unknown) into the
/// connections of a map, going through the doors in order: each door that leads to
/// a room no earlier than its own is joined to the door of that room that has the
/// same rank among the doors leading back; a self-loop door is joined to itself.
/// Stops with a message at the first door that finds no door left to join, which is
/// exactly the first door of a room that has more doors toward another room than
/// that room has back.
pub fn pair_doors(graph: &Vec<Vec<usize>>) -> (res: Result<Vec<GuessRequestConnection>, String>)
    requires
        is_partial_graph(graph@, graph@.len()),
    ensures
        match res {
            Ok(c) => rooms_matched(rows(graph@), graph@.len() as int) && c@ == all_pairs(
                rows(graph@),
                graph@.len() as int,
            ),
            Err(m) => exists|r: int, d: int|
                0 <= r < graph@.len() && 0 <= d < 6 && rooms_matched(rows(graph@), r) && row_matched(
                    rows(graph@),
                    r,
                    d,
                ) && #[trigger] unmatched(rows(graph@), r, d) && m@ == pairing_error(
                    r as usize,
                    d as usize,
                    graph@[r]@[d],
                ),
        },
{
    let ghost g = rows(graph@);
    let n = graph.len();
    let mut conns: Vec<GuessRequestConnection> = Vec::new();
    let mut r: usize = 0;
    while r < n
        invariant
            g == rows(graph@),
            n == graph@.len(),
            is_partial_graph(graph@, n as nat),
            r <= n,
            rooms_matched(g, r as int),
            conns@ == all_pairs(g, r as int),
        decreases n - r,
    {
        let mut d: usize = 0;
        while d < 6
            invariant
                g == rows(graph@),
                n == graph@.len(),
                is_partial_graph(graph@, n as nat),
                r < n,
                d <= 6,
                rooms_matched(g, r as int),
                row_matched(g, r as int, d as int),
                conns@ == all_pairs(g, r as int) + row_pairs(g, r as int, d as int),
            decreases 6 - d,
        {
            let row = &graph[r];
            let t = row[d];
            assert(g[r as int] == graph@[r as int]@);
            assert(g[r as int][d as int] == t);
            if t != NONE {
                let k = count_to(row, t, d + 1);
                if t != r {
                    let back = count_to(&graph[t], r, 6);
                    assert(g[t as int] == graph@[t as int]@);
                    if k > back {
                        assert(unmatched(g, r as int, d as int));
                        return Err(pairing_message(r, d, t));
                    }
                }
                assert(!unmatched(g, r as int, d as int));
                if t >= r {
                    assert(g[t as int] == graph@[t as int]@);
                    let e = kth_door(&graph[t], r, k);
                    let c = GuessRequestConnection {
                        from: GuessRequestRoom { room: r, door: d },
                        to: GuessRequestRoom { room: t, door: e },
                    };
                    assert(c == door_pair(g, r as int, d as int));
                    conns.push(c);
                }
            }
            assert(!unmatched(g, r as int, d as int));
            assert(conns@ == all_pairs(g, r as int) + row_pairs(g, r as int, d + 1));
            d = d + 1;
        }
        assert(rooms_matched(g, r + 1)) by {
            assert forall|q: int, e: int| 0 <= q < r + 1 && 0 <= e < 6 implies !#[trigger] unmatched(g, q, e) by {
                if q < r {
                } else {
                    assert(row_matched(g, r as int, 6));
                }
            }
        }
        assert(all_pairs(g, r + 1) == all_pairs(g, r as int) + row_pairs(g, r as int, 6));
        r = r + 1;
    }
    Ok(conns)
}

/// The map to submit for a reconstruction: the labels, the starting room and the
/// doors of `graph` paired by `pair_doors`, or the message with which pairing stopped.
pub fn guess_map(rooms: Vec<i8>, starting_room: usize, graph: &Vec<Vec<usize>>) -> (res: Result<GuessRequestMap, String>)
    requires
        is_partial_graph(graph@, graph@.len()),
    ensures
        match res {
            Ok(m) => m.rooms@ == rooms@ && m.starting_room == starting_room && rooms_matched(
                rows(graph@),
                graph@.len() as int,
            ) && m.connections@ == all_pairs(rows(graph@), graph@.len() as int),
            Err(m) => exists|r: int, d: int|
                0 <= r < graph@.len() && 0 <= d < 6 && rooms_matched(rows(graph@), r) && row_matched(
                    rows(graph@),
                    r,
                    d,
                ) && #[trigger] unmatched(rows(graph@), r, d) && m@ == pairing_error(
                    r as usize,
                    d as usize,
                    graph@[r]@[d],
                ),
        },
{
    match pair_doors(graph) {
        Ok(connections) => Ok(GuessRequestMap { rooms, starting_room, connections }),
        Err(m) => Err(m),
    }
}

/// Where every room has as many doors toward each other room as that room has
/// back, no door is unmatched: pairing the doors never fails.
pub proof fn lemma_paired_doors_match(g: Seq<Seq<usize>>, n: nat)
    requires
        g.len() == n,
        n <= usize::MAX,
        forall|i: int| 0 <= i < n ==> (#[trigger] g[i]).len() == 6,
        forall|i: int, e: int| 0 <= i < n && 0 <= e < 6 ==> #[trigger] g[i][e] == NONE || g[i][e] < n,
        forall|a: int, b: int|
            0 <= a < n && 0 <= b < n && a != b ==> #[trigger] count_eq(g[a], b as usize, 6) == #[trigger] count_eq(
                g[b],
                a as usize,
                6,
            ),
    ensures
        rooms_matched(g, n as int),
{
    assert forall|q: int, e: int| 0 <= q < n && 0 <= e < 6 implies !#[trigger] unmatched(g, q, e) by {
        let t = g[q][e];
        if t != NONE && t != q {
            lemma_count_mono(g[q], t, e + 1, 6);
            let b = t as int;
            assert(count_eq(g[q], b as usize, 6) == count_eq(g[b], q as usize, 6));
        }
    }
}

/// Door `d` of room `r` is one of the two doors of connection `c`.
pub open spec fn is_endpoint(c: GuessRequestConnection, r: int, d: int) -> bool {
    (c.from.room == r && c.from.door == d) || (c.to.room == r && c.to.door == d)
}

/// Door `d` of room `r` is one of the doors of some connection of `cs`.
pub open spec fn door_covered(cs: Seq<GuessRequestConnection>, r: int, d: int) -> bool {
    exists|k: int| 0 <= k < cs.len() && #[trigger] is_endpoint(cs[k], r, d)
}

proof fn lemma_row_pairs_contains(g: Seq<Seq<usize>>, r: int, d: int, e: int)
    requires
        0 <= e < d,
        opens_pair(g, r, e),
    ensures
        exists|k: int| 0 <= k < row_pairs(g, r, d).len() && #[trigger] row_pairs(g, r, d)[k] == door_pair(g, r, e),
    decreases d,
{
    let a = row_pairs(g, r, d - 1);
    if e == d - 1 {
        assert(row_pairs(g, r, d)[a.len() as int] == door_pair(g, r, e));
    } else {
        lemma_row_pairs_contains(g, r, d - 1, e);
        let k = choose|k: int| 0 <= k < a.len() && #[trigger] a[k] == door_pair(g, r, e);
        assert(row_pairs(g, r, d)[k] == a[k]);
    }
}

proof fn lemma_all_pairs_contains(g: Seq<Seq<usize>>, rr: int, r: int, e: int)
    requires
        0 <= r < rr,
        0 <= e < 6,
        opens_pair(g, r, e),
    ensures
        exists|k: int| 0 <= k < all_pairs(g, rr).len() && #[trigger] all_pairs(g, rr)[k] == door_pair(g, r, e),
    decreases rr,
{
    let a = all_pairs(g, rr - 1);
    if r == rr - 1 {
        lemma_row_pairs_contains(g, r, 6, e);
        let k = choose|k: int| 0 <= k < row_pairs(g, r, 6).len() && #[trigger] row_pairs(g, r, 6)[k] == door_pair(g, r, e);
        assert(all_pairs(g, rr)[a.len() + k] == row_pairs(g, r, 6)[k]);
    } else {
        lemma_all_pairs_contains(g, rr - 1, r, e);
        let k = choose|k: int| 0 <= k < a.len() && #[trigger] a[k] == door_pair(g, r, e);
        assert(all_pairs(g, rr)[k] == a[k]);
    }
}

/// The `k`-th door of `row` toward `target` is the one `kth_door_from` finds.
proof fn lemma_kth_is(row: Seq<usize>, target: usize, k: nat, e: int, i: int)
    requires
        0 <= i <= e < row.len(),
        row[e] == target,
        count_eq(row, target, e + 1) == k,
        count_eq(row, target, i) < k,
    ensures
        kth_door_from(row, target, k, i) == e,
    decreases e - i,
{
    if i < e {
        if row[i] == target {
            lemma_count_mono(row, target, i + 1, e);
            assert(count_eq(row, target, i + 1) < k);
        }
        lemma_kth_is(row, target, k, e, i + 1);
    }
}

/// Where doors are paired, every door of a map is one of the two doors of some
/// connection that pairing makes.
pub proof fn lemma_pairs_cover(g: Seq<Seq<usize>>, n: nat)
    requires
        g.len() == n,
        n <= usize::MAX,
        forall|i: int| 0 <= i < n ==> (#[trigger] g[i]).len() == 6,
        forall|i: int, e: int| 0 <= i < n && 0 <= e < 6 ==> #[trigger] g[i][e] < n,
        forall|a: int, b: int|
            0 <= a < n && 0 <= b < n && a != b ==> #[trigger] count_eq(g[a], b as usize, 6) == #[trigger] count_eq(
                g[b],
                a as usize,
                6,
            ),
    ensures
        forall|x: int, e: int| 0 <= x < n && 0 <= e < 6 ==> #[trigger] door_covered(all_pairs(g, n as int), x, e),
{
    assert forall|x: int, e: int| 0 <= x < n && 0 <= e < 6 implies #[trigger] door_covered(all_pairs(g, n as int), x, e) by {
        let t = g[x][e];
        if t >= x {
            lemma_all_pairs_contains(g, n as int, x, e);
            let k = choose|k: int| 0 <= k < all_pairs(g, n as int).len() && #[trigger] all_pairs(g, n as int)[k] == door_pair(g, x, e);
            assert(is_endpoint(all_pairs(g, n as int)[k], x, e));
        } else {
            let ti = t as int;
            let kk = rank(g[x], e);
            lemma_count_mono(g[x], t, e + 1, 6);
            assert(count_eq(g[ti], x as usize, 6) == count_eq(g[x], ti as usize, 6));
            assert(count_eq(g[ti], x as usize, 0) == 0);
            lemma_kth_found(g[ti], x as usize, kk, 0, 6);
            let e2 = kth_door_from(g[ti], x as usize, kk, 0);
            assert(opens_pair(g, ti, e2));
            lemma_all_pairs_contains(g, n as int, ti, e2);
            let k = choose|k: int| 0 <= k < all_pairs(g, n as int).len() && #[trigger] all_pairs(g, n as int)[k] == door_pair(g, ti, e2);
            assert(rank(g[ti], e2) == kk);
            assert(count_eq(g[x], t, 0) == 0);
            lemma_kth_is(g[x], t, kk, e, 0);
            assert(door_pair(g, ti, e2).to.room == x);
            assert(door_pair(g, ti, e2).to.door == e);
            assert(is_endpoint(all_pairs(g, n as int)[k], x, e));
        }
    }
}

} // verus!
