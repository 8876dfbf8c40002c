use vstd::prelude::*;

use crate::problem::{is_door_path, is_map, reachable, rows, walk};
use crate::union_find::{count_eq, lemma_count_update, NONE};

verus! {

/// `a` and `b` agree on their first `j` doors.
pub open spec fn agree(a: Seq<usize>, b: Seq<usize>, j: int) -> bool {
    forall|t: int| 0 <= t < j ==> a[t] == b[t]
}

/// `a` and `b` first differ at `j`, where `a` has the smaller door.
pub open spec fn lex_at(a: Seq<usize>, b: Seq<usize>, j: int) -> bool {
    &&& 0 <= j < a.len()
    &&& j < b.len()
    &&& agree(a, b, j)
    &&& a[j] < b[j]
}

/// `a` comes before `b` in dictionary order of doors.
pub open spec fn lex_less(a: Seq<usize>, b: Seq<usize>) -> bool {
    exists|j: int| #[trigger] lex_at(a, b, j)
}

/// `p` is a shortest door path from `i` to `r`, and the first such in dictionary
/// order of doors.
pub open spec fn is_first_shortest(g: Seq<Seq<usize>>, i: usize, r: usize, p: Seq<usize>) -> bool {
    &&& is_door_path(p)
    &&& walk(g, i, p) == r
    &&& forall|q: Seq<usize>|
        is_door_path(q) && #[trigger] walk(g, i, q) == r ==> p.len() <= q.len() && (p.len() == q.len() ==> !lex_less(
            q,
            p,
        ))
}

pub proof fn lemma_lex_irrefl(a: Seq<usize>)
    ensures
        !lex_less(a, a),
{
}

pub proof fn lemma_lex_asym(a: Seq<usize>, b: Seq<usize>)
    requires
        lex_less(a, b),
    ensures
        !lex_less(b, a),
{
    let j = choose|j: int| lex_at(a, b, j);
    if lex_less(b, a) {
        let j2 = choose|j2: int| lex_at(b, a, j2);
        if j2 < j {
            assert(a[j2] == b[j2]);
        } else if j < j2 {
            assert(b[j] == a[j]);
        }
    }
}

pub proof fn lemma_lex_trans(a: Seq<usize>, b: Seq<usize>, c: Seq<usize>)
    requires
        lex_less(a, b),
        lex_less(b, c),
        a.len() == b.len(),
        b.len() == c.len(),
    ensures
        lex_less(a, c),
{
    let j1 = choose|j: int| lex_at(a, b, j);
    let j2 = choose|j: int| lex_at(b, c, j);
    let j = if j1 <= j2 { j1 } else { j2 };
    assert(lex_at(a, c, j));
}

pub proof fn lemma_lex_push(a: Seq<usize>, b: Seq<usize>, d: usize, e: usize)
    requires
        lex_less(a, b),
        a.len() == b.len(),
    ensures
        lex_less(a.push(d), b.push(e)),
{
    let j = choose|j: int| lex_at(a, b, j);
    assert(lex_at(a.push(d), b.push(e), j));
}

/// `a` is `b` or comes before it.
pub open spec fn lex_le(a: Seq<usize>, b: Seq<usize>) -> bool {
    a == b || lex_less(a, b)
}

proof fn lemma_le_trans(a: Seq<usize>, b: Seq<usize>, c: Seq<usize>)
    requires
        lex_le(a, b),
        lex_le(b, c),
        a.len() == b.len(),
        b.len() == c.len(),
    ensures
        lex_le(a, c),
{
    if a != b && b != c {
        lemma_lex_trans(a, b, c);
    }
}

proof fn lemma_le_push(a: Seq<usize>, b: Seq<usize>, d: usize)
    requires
        lex_le(a, b),
        a.len() == b.len(),
    ensures
        lex_le(a.push(d), b.push(d)),
{
    if a != b {
        lemma_lex_push(a, b, d, d);
    }
}

/// Two door paths of one length that agree up to `j` are equal or one comes first.
pub proof fn lemma_lex_total(a: Seq<usize>, b: Seq<usize>, j: int)
    requires
        a.len() == b.len(),
        0 <= j <= a.len(),
        agree(a, b, j),
    ensures
        a == b || lex_less(a, b) || lex_less(b, a),
    decreases a.len() - j,
{
    if j == a.len() {
        assert(a =~= b);
    } else if a[j] < b[j] {
        assert(lex_at(a, b, j));
    } else if b[j] < a[j] {
        assert(lex_at(b, a, j));
    } else {
        lemma_lex_total(a, b, j + 1);
    }
}

/// Whether `a` comes before `b` in dictionary order of doors.
fn lex_less_exec(a: &Vec<usize>, b: &Vec<usize>) -> (res: bool)
    requires
        a@.len() == b@.len(),
    ensures
        res == lex_less(a@, b@),
{
    let mut j: usize = 0;
    while j < a.len()
        invariant
            a@.len() == b@.len(),
            j <= a@.len(),
            agree(a@, b@, j as int),
        decreases a@.len() - j,
    {
        if a[j] != b[j] {
            if a[j] < b[j] {
                assert(lex_at(a@, b@, j as int));
                return true;
            } else {
                assert(lex_at(b@, a@, j as int));
                proof {
                    lemma_lex_asym(b@, a@);
                }
                return false;
            }
        }
        j = j + 1;
    }
    assert(a@ =~= b@);
    false
}

/// Every door path from `i` ends on a room already reached, no shorter than the
/// distance recorded for it, where every room reached is closed under doors.
proof fn lemma_walk_reached(g: Seq<Seq<usize>>, n: nat, i: usize, dist: Seq<usize>, q: Seq<usize>)
    requires
        is_map(g, n),
        i < n,
        dist.len() == n,
        dist[i as int] == 0,
        forall|y: int, d: int|
            0 <= y < n && 0 <= d < 6 && #[trigger] dist[y] != NONE ==> dist[#[trigger] g[y][d] as int] != NONE
                && dist[g[y][d] as int] <= dist[y] + 1,
        is_door_path(q),
    ensures
        walk(g, i, q) < n,
        dist[walk(g, i, q) as int] != NONE,
        dist[walk(g, i, q) as int] <= q.len(),
    decreases q.len(),
{
    if q.len() > 0 {
        let q0 = q.drop_last();
        lemma_walk_reached(g, n, i, dist, q0);
        let y = walk(g, i, q0);
        let d = q.last();
        assert(dist[y as int] != NONE);
        assert(dist[g[y as int][d as int] as int] != NONE);
    }
}

/// The first shortest door path from room `i` to every room of `graph`, or `None`
/// where some room cannot be reached from `i`. Rooms are found layer by layer
/// (breadth first); a room of the next layer keeps the first in dictionary order
/// of the paths through the rooms of the current layer.
pub fn shortest_paths_from(graph: &Vec<Vec<usize>>, i: usize) -> (res: Option<Vec<Vec<usize>>>)
    requires
        is_map(rows(graph@), graph@.len()),
        i < graph@.len(),
        graph@.len() < usize::MAX,
    ensures
        match res {
            Some(paths) => paths@.len() == graph@.len() && forall|r: int|
                0 <= r < graph@.len() ==> is_first_shortest(rows(graph@), i, r as usize, #[trigger] paths@[r]@),
            None => exists|r: int| 0 <= r < graph@.len() && !#[trigger] reachable(rows(graph@), i, r),
        },
{
    let ghost g = rows(graph@);
    let n = graph.len();
    let mut dist: Vec<usize> = Vec::new();
    let mut best: Vec<Vec<usize>> = Vec::new();
    let mut r: usize = 0;
    while r < n
        invariant
            r <= n,
            dist@.len() == r,
            best@.len() == r,
            forall|q: int| 0 <= q < r ==> dist@[q] == NONE,
            forall|q: int| 0 <= q < r ==> (#[trigger] best@[q])@.len() == 0,
        decreases n - r,
    {
        dist.push(NONE);
        best.push(Vec::new());
        r = r + 1;
    }
    proof {
        crate::union_find::lemma_count_const(dist@, NONE, n as int);
        lemma_count_update(dist@, i as int, 0, NONE, n as int);
    }
    dist.set(i, 0);
    let mut frontier: Vec<usize> = Vec::new();
    frontier.push(i);
    let mut k: usize = 0;
    proof {
        assert(frontier@[0] == i);
        assert forall|q: Seq<usize>| is_door_path(q) && q.len() <= 0 implies walk(g, i, q) < n && dist@[walk(g, i, q) as int] != NONE
            && dist@[walk(g, i, q) as int] <= q.len() by {
            assert(q.len() == 0);
        }
        assert forall|r: int| 0 <= r < n && #[trigger] dist@[r] == 0 implies frontier@.contains(r as usize) by {
            assert(r == i);
        }
        assert(best@[i as int]@.len() == 0);
        assert(walk(g, i, best@[i as int]@) == i);
        assert forall|r: int, q: Seq<usize>|
            0 <= r < n && #[trigger] dist@[r] != NONE && is_door_path(q) && #[trigger] walk(g, i, q) == r
                implies dist@[r] <= q.len() && (dist@[r] == q.len() ==> lex_le(best@[r]@, q)) by {
            assert(r == i);
            if q.len() == 0 {
                assert(best@[r]@ =~= q);
            }
        }
    }
    while frontier.len() > 0
        invariant
            g == rows(graph@),
            is_map(g, n as nat),
            n == graph@.len(),
            n < usize::MAX,
            i < n,
            dist@.len() == n,
            best@.len() == n,
            dist@[i as int] == 0,
            frontier@.len() > 0 ==> k + count_eq(dist@, NONE, n as int) < n,
            forall|r: int|
                0 <= r < n && #[trigger] dist@[r] != NONE ==> {
                    &&& dist@[r] <= k
                    &&& best@[r]@.len() == dist@[r]
                    &&& is_door_path(best@[r]@)
                    &&& walk(g, i, best@[r]@) == r
                },
            forall|y: int, d: int|
                0 <= y < n && 0 <= d < 6 && #[trigger] dist@[y] != NONE && dist@[y] < k ==> dist@[#[trigger] g[y][d]
                    as int] != NONE && dist@[g[y][d] as int] <= dist@[y] + 1,
            forall|a: int| 0 <= a < frontier@.len() ==> #[trigger] frontier@[a] < n && dist@[frontier@[a] as int] == k,
            forall|r: int| 0 <= r < n && #[trigger] dist@[r] == k ==> frontier@.contains(r as usize),
            forall|q: Seq<usize>|
                is_door_path(q) && q.len() <= k ==> #[trigger] walk(g, i, q) < n && dist@[walk(g, i, q) as int] != NONE && dist@[walk(
                    g,
                    i,
                    q,
                ) as int] <= q.len(),
            forall|r: int, q: Seq<usize>|
                0 <= r < n && #[trigger] dist@[r] != NONE && is_door_path(q) && #[trigger] walk(g, i, q) == r
                    ==> dist@[r] <= q.len() && (dist@[r] == q.len() ==> lex_le(best@[r]@, q)),
        decreases count_eq(dist@, NONE, n as int) + if frontier@.len() > 0 { 1int } else { 0int },
    {
        let ghost dist0 = dist@;
        let ghost best0 = best@;
        let mut next: Vec<usize> = Vec::new();
        proof {
            assert forall|r: int| 0 <= r < n implies #[trigger] dist@[r] != k + 1 by {
                if dist@[r] != NONE {
                    assert(dist@[r] <= k);
                }
            }
        }
        let mut xi: usize = 0;
        while xi < frontier.len()
            invariant
                g == rows(graph@),
                is_map(g, n as nat),
                n == graph@.len(),
                i < n,
                dist@.len() == n,
                best@.len() == n,
                dist0.len() == n,
                best0.len() == n,
                frontier@.len() > 0,
                k + count_eq(dist0, NONE, n as int) < n,
                count_eq(dist@, NONE, n as int) + next@.len() == count_eq(dist0, NONE, n as int),
                xi <= frontier@.len(),
                forall|a: int| 0 <= a < frontier@.len() ==> #[trigger] frontier@[a] < n && dist0[frontier@[a] as int] == k,
                // rooms known before the layer keep their distance and path
                forall|r: int| 0 <= r < n && #[trigger] dist0[r] != NONE ==> dist@[r] == dist0[r] && best@[r] == best0[r],
                forall|r: int| 0 <= r < n && dist0[r] == NONE ==> #[trigger] dist@[r] == NONE || dist@[r] == k + 1,
                forall|r: int|
                    0 <= r < n && #[trigger] dist0[r] != NONE ==> {
                        &&& dist0[r] <= k
                        &&& best0[r]@.len() == dist0[r]
                        &&& is_door_path(best0[r]@)
                        &&& walk(g, i, best0[r]@) == r
                    },
                forall|r: int|
                    0 <= r < n && #[trigger] dist@[r] == k + 1 ==> {
                        &&& best@[r]@.len() == k + 1
                        &&& is_door_path(best@[r]@)
                        &&& walk(g, i, best@[r]@) == r
                        &&& next@.contains(r as usize)
                    },
                forall|a: int| 0 <= a < next@.len() ==> #[trigger] next@[a] < n && dist@[next@[a] as int] == k + 1,
                // every door of the rooms handled so far leads to a known room
                forall|a: int, d: int|
                    0 <= a < xi && 0 <= d < 6 ==> dist@[#[trigger] g[#[trigger] frontier@[a] as int][d] as int] != NONE
                        && dist@[g[frontier@[a] as int][d] as int] <= k + 1,
                // a room of the next layer keeps the first of the paths through them
                forall|a: int, d: int|
                    0 <= a < xi && 0 <= d < 6 && dist@[#[trigger] g[#[trigger] frontier@[a] as int][d] as int] == k + 1
                        ==> lex_le(best@[g[frontier@[a] as int][d] as int]@, best0[frontier@[a] as int]@.push(d as usize)),
            decreases frontier@.len() - xi,
        {
            let x = frontier[xi];
            let mut d: usize = 0;
            while d < 6
                invariant
                    g == rows(graph@),
                    is_map(g, n as nat),
                    n == graph@.len(),
                    i < n,
                    dist@.len() == n,
                    best@.len() == n,
                    dist0.len() == n,
                    best0.len() == n,
                    frontier@.len() > 0,
                    k + count_eq(dist0, NONE, n as int) < n,
                    count_eq(dist@, NONE, n as int) + next@.len() == count_eq(dist0, NONE, n as int),
                    xi < frontier@.len(),
                    x == frontier@[xi as int],
                    d <= 6,
                    forall|a: int| 0 <= a < frontier@.len() ==> #[trigger] frontier@[a] < n && dist0[frontier@[a] as int] == k,
                    forall|r: int| 0 <= r < n && #[trigger] dist0[r] != NONE ==> dist@[r] == dist0[r] && best@[r] == best0[r],
                    forall|r: int| 0 <= r < n && dist0[r] == NONE ==> #[trigger] dist@[r] == NONE || dist@[r] == k + 1,
                    forall|r: int|
                        0 <= r < n && #[trigger] dist0[r] != NONE ==> {
                            &&& dist0[r] <= k
                            &&& best0[r]@.len() == dist0[r]
                            &&& is_door_path(best0[r]@)
                            &&& walk(g, i, best0[r]@) == r
                        },
                    forall|r: int|
                        0 <= r < n && #[trigger] dist@[r] == k + 1 ==> {
                            &&& best@[r]@.len() == k + 1
                            &&& is_door_path(best@[r]@)
                            &&& walk(g, i, best@[r]@) == r
                            &&& next@.contains(r as usize)
                        },
                    forall|a: int| 0 <= a < next@.len() ==> #[trigger] next@[a] < n && dist@[next@[a] as int] == k + 1,
                    forall|a: int, e: int|
                        0 <= a < frontier@.len() && 0 <= e < 6 && (a < xi || (a == xi && e < d)) ==> dist@[
                            #[trigger] g[#[trigger] frontier@[a] as int][e] as int] != NONE
                            && dist@[g[frontier@[a] as int][e] as int] <= k + 1,
                    forall|a: int, e: int|
                        0 <= a < frontier@.len() && 0 <= e < 6 && (a < xi || (a == xi && e < d))
                            && dist@[#[trigger] g[#[trigger] frontier@[a] as int][e] as int] == k + 1
                            ==> lex_le(best@[g[frontier@[a] as int][e] as int]@, best0[frontier@[a] as int]@.push(e as usize)),
                decreases 6 - d,
            {
                assert(g[x as int] == graph@[x as int]@);
                assert(graph@[x as int]@.len() == 6);
                let c = graph[x][d];
                assert(c == g[x as int][d as int]);
                assert(dist0[x as int] == k);
                let mut cand = best[x].clone();
                assert(cand@ == best0[x as int]@);
                cand.push(d);
                proof {
                    assert(cand@.drop_last() =~= best0[x as int]@);
                    crate::problem::lemma_walk_push(g, i, best0[x as int]@, d);
                }
                if dist[c] == NONE {
                    proof {
                        lemma_count_update(dist@, c as int, (k + 1) as usize, NONE, n as int);
                        crate::union_find::lemma_count_le(dist@, NONE, n as int);
                        // no door handled so far leads to `c`
                        assert forall|a: int, e: int|
                            0 <= a < frontier@.len() && 0 <= e < 6 && (a < xi || (a == xi && e < d)) implies #[trigger] g[
                                #[trigger] frontier@[a] as int][e] != c by {}
                    }
                    let ghost next_before = next@;
                    dist.set(c, k + 1);
                    best.set(c, cand);
                    next.push(c);
                    proof {
                        assert(next@[next@.len() - 1] == c);
                        assert forall|r: int| 0 <= r < n && #[trigger] dist@[r] == k + 1 implies next@.contains(r as usize) by {
                            if r != c {
                                let a = choose|a: int| 0 <= a < next_before.len() && next_before[a] == r;
                                assert(next@[a] == r);
                            }
                        }
                    }
                } else if dist[c] == k + 1 {
                    if lex_less_exec(&cand, &best[c]) {
                        proof {
                            let old_best = best@[c as int]@;
                            assert forall|a: int, e: int|
                                0 <= a < frontier@.len() && 0 <= e < 6 && (a < xi || (a == xi && e < d))
                                    && #[trigger] g[#[trigger] frontier@[a] as int][e] == c implies lex_le(
                                cand@,
                                best0[frontier@[a] as int]@.push(e as usize),
                            ) by {
                                assert(lex_le(old_best, best0[frontier@[a] as int]@.push(e as usize)));
                                assert(best0[frontier@[a] as int]@.len() == k);
                                lemma_le_trans(cand@, old_best, best0[frontier@[a] as int]@.push(e as usize));
                            }
                        }
                        best.set(c, cand);
                    }
                }
                proof {
                    assert(is_door_path(cand@));
                    if dist@[c as int] == k + 1 && best@[c as int]@ != cand@ {
                        lemma_lex_total(best@[c as int]@, cand@, 0);
                    }
                    assert(dist@[c as int] != NONE);
                    if dist@[c as int] == k + 1 {
                        assert(lex_le(best@[c as int]@, best0[x as int]@.push(d)));
                    }
                }
                d = d + 1;
            }
            xi = xi + 1;
        }
        proof {
            let dist1 = dist@;
            let best1 = best@;
            // every room of the next layer now holds the first of its shortest paths
            assert forall|r: int, q: Seq<usize>|
                0 <= r < n && #[trigger] dist1[r] != NONE && is_door_path(q) && #[trigger] walk(g, i, q) == r
                    implies dist1[r] <= q.len() && (dist1[r] == q.len() ==> lex_le(best1[r]@, q)) by {
                if dist0[r] != NONE {
                } else {
                    // `r` was out of reach within `k` doors
                    assert(dist1[r] == k + 1);
                    if q.len() <= k {
                        assert(dist0[walk(g, i, q) as int] != NONE);
                    }
                    if q.len() == k + 1 {
                        let q0 = q.drop_last();
                        let e = q.last();
                        crate::problem::lemma_walk_push(g, i, q0, e);
                        assert(q0.push(e) =~= q);
                        let y = walk(g, i, q0);
                        crate::problem::lemma_walk_in_map(g, n as nat, i, q0);
                        assert(dist0[y as int] != NONE && dist0[y as int] <= k);
                        if dist0[y as int] < k {
                            assert(dist0[g[y as int][e as int] as int] != NONE);
                        }
                        assert(dist0[y as int] == k);
                        assert(frontier@.contains(y));
                        let a = choose|a: int| 0 <= a < frontier@.len() && frontier@[a] == y;
                        assert(g[frontier@[a] as int][e as int] == r);
                        assert(lex_le(best1[r]@, best0[y as int]@.push(e)));
                        assert(lex_le(best0[y as int]@, q0));
                        lemma_le_push(best0[y as int]@, q0, e);
                        lemma_le_trans(best1[r]@, best0[y as int]@.push(e), q);
                    }
                }
            }
            assert forall|q: Seq<usize>| is_door_path(q) && q.len() <= k + 1 implies #[trigger] walk(
                g,
                i,
                q,
            ) < n && dist1[walk(g, i, q) as int] != NONE && dist1[walk(g, i, q) as int] <= q.len() by {
                if q.len() <= k {
                    assert(dist0[walk(g, i, q) as int] != NONE);
                } else {
                    let q0 = q.drop_last();
                    let e = q.last();
                    crate::problem::lemma_walk_push(g, i, q0, e);
                    assert(q0.push(e) =~= q);
                    let y = walk(g, i, q0);
                    crate::problem::lemma_walk_in_map(g, n as nat, i, q0);
                    crate::problem::lemma_walk_in_map(g, n as nat, i, q);
                    assert(dist0[y as int] != NONE && dist0[y as int] <= k);
                    if dist0[y as int] < k {
                        assert(dist0[g[y as int][e as int] as int] != NONE);
                    } else {
                        assert(frontier@.contains(y));
                        let a = choose|a: int| 0 <= a < frontier@.len() && frontier@[a] == y;
                        assert(dist1[g[frontier@[a] as int][e as int] as int] != NONE);
                    }
                }
            }
            assert forall|y: int, e: int|
                0 <= y < n && 0 <= e < 6 && #[trigger] dist1[y] != NONE && dist1[y] < k + 1 implies dist1[
                    #[trigger] g[y][e] as int] != NONE && dist1[g[y][e] as int] <= dist1[y] + 1 by {
                assert(dist0[y] != NONE);
                if dist0[y] < k {
                    assert(dist0[g[y][e] as int] != NONE);
                } else {
                    assert(frontier@.contains(y as usize));
                    let a = choose|a: int| 0 <= a < frontier@.len() && frontier@[a] == y;
                    assert(dist1[g[frontier@[a] as int][e] as int] != NONE);
                }
            }
            assert forall|r: int| 0 <= r < n && #[trigger] dist1[r] == k + 1 implies next@.contains(r as usize) by {}
            if next@.len() > 0 {
                assert(next@[0] < n);
            }
        }
        frontier = next;
        k = k + 1;
    }
    proof {
        // the frontier is empty, so every room reached is closed under doors
        assert forall|y: int, e: int|
            0 <= y < n && 0 <= e < 6 && #[trigger] dist@[y] != NONE implies dist@[#[trigger] g[y][e] as int] != NONE
                && dist@[g[y][e] as int] <= dist@[y] + 1 by {
            if dist@[y] == k {
                assert(frontier@.contains(y as usize));
            }
        }
    }
    let mut r: usize = 0;
    while r < n
        invariant
            g == rows(graph@),
            is_map(g, n as nat),
            n == graph@.len(),
            i < n,
            dist@.len() == n,
            dist@[i as int] == 0,
            best@.len() == n,
            r <= n,
            forall|q: int| 0 <= q < r ==> #[trigger] dist@[q] != NONE,
            forall|r: int|
                0 <= r < n && #[trigger] dist@[r] != NONE ==> {
                    &&& best@[r]@.len() == dist@[r]
                    &&& is_door_path(best@[r]@)
                    &&& walk(g, i, best@[r]@) == r
                },
            forall|r: int, q: Seq<usize>|
                0 <= r < n && #[trigger] dist@[r] != NONE && is_door_path(q) && #[trigger] walk(g, i, q) == r
                    ==> dist@[r] <= q.len() && (dist@[r] == q.len() ==> lex_le(best@[r]@, q)),
            forall|y: int, e: int|
                0 <= y < n && 0 <= e < 6 && #[trigger] dist@[y] != NONE ==> dist@[#[trigger] g[y][e] as int] != NONE
                    && dist@[g[y][e] as int] <= dist@[y] + 1,
        decreases n - r,
    {
        if dist[r] == NONE {
            proof {
                assert forall|p: Seq<usize>| is_door_path(p) implies #[trigger] walk(g, i, p) != r by {
                    lemma_walk_reached(g, n as nat, i, dist@, p);
                }
                assert(!reachable(g, i, r as int));
            }
            return None;
        }
        r = r + 1;
    }
    proof {
        assert forall|r: int| 0 <= r < n implies is_first_shortest(g, i, r as usize, #[trigger] best@[r]@) by {
            assert(dist@[r] != NONE);
            assert forall|q: Seq<usize>| is_door_path(q) && #[trigger] walk(g, i, q) == r implies best@[r]@.len()
                <= q.len() && (best@[r]@.len() == q.len() ==> !lex_less(q, best@[r]@)) by {
                if best@[r]@.len() == q.len() {
                    assert(lex_le(best@[r]@, q));
                    if best@[r]@ != q {
                        lemma_lex_asym(best@[r]@, q);
                    } else {
                        lemma_lex_irrefl(q);
                    }
                }
            }
        }
    }
    Some(best)
}

/// The first shortest door path from every room to every room of `graph`
/// (`shortest_paths_from` for each room), or `None` where some room cannot be
/// reached from another.
pub fn shortest_paths(graph: &Vec<Vec<usize>>) -> (res: Option<Vec<Vec<Vec<usize>>>>)
    requires
        is_map(rows(graph@), graph@.len()),
        graph@.len() < usize::MAX,
    ensures
        match res {
            Some(paths) => paths@.len() == graph@.len() && forall|a: int|
                0 <= a < graph@.len() ==> (#[trigger] paths@[a])@.len() == graph@.len() && forall|r: int|
                    0 <= r < graph@.len() ==> is_first_shortest(rows(graph@), a as usize, r as usize, #[trigger] paths@[a]@[r]@),
            None => exists|a: int, r: int|
                0 <= a < graph@.len() && 0 <= r < graph@.len() && !#[trigger] reachable(rows(graph@), a as usize, r),
        },
{
    let n = graph.len();
    let mut paths: Vec<Vec<Vec<usize>>> = Vec::new();
    let mut a: usize = 0;
    while a < n
        invariant
            is_map(rows(graph@), graph@.len()),
            n == graph@.len(),
            n < usize::MAX,
            a <= n,
            paths@.len() == a,
            forall|b: int|
                0 <= b < a ==> (#[trigger] paths@[b])@.len() == n && forall|r: int|
                    0 <= r < n ==> is_first_shortest(rows(graph@), b as usize, r as usize, #[trigger] paths@[b]@[r]@),
        decreases n - a,
    {
        match shortest_paths_from(graph, a) {
            Some(p) => paths.push(p),
            None => {
                proof {
                    let r = choose|r: int| 0 <= r < graph@.len() && !#[trigger] reachable(rows(graph@), a, r);
                    assert(!reachable(rows(graph@), a as usize, r));
                }
                return None;
            },
        }
        a = a + 1;
    }
    Some(paths)
}

} // verus!
