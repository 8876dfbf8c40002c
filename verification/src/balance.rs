use vstd::prelude::*;
use vstd::arithmetic::div_mod::{lemma_add_mod_noop, lemma_fundamental_div_mod_converse_mod, lemma_mod_bound, lemma_small_mod};

use crate::problem::balanced;
use crate::union_find::{count_eq, lemma_count_update};
use crate::walk_data::{lemma_position, lemma_split_position};

verus! {

/// Where door `d` of room `x` of the map `m` leads.
pub open spec fn door_target(m: Seq<Seq<usize>>, x: int, d: int) -> int {
    m[x][d] as int
}

/// The `p` copies of `s` rooms in `m` agree: door `d` of room `x` leads to the
/// copy of where the same door of room `x % s` leads, shifted by as many copies
/// as `x` lies beyond the first.
pub open spec fn copies_agree(m: Seq<Seq<usize>>, s: int, p: int) -> bool {
    forall|x: int, d: int|
        0 <= x < s * p && 0 <= d < 6 ==> #[trigger] door_target(m, x, d) == (m[x % s][d] + (x / s) * s) % (s * p)
}

/// Moving room `t` of copy `i` by `k` copies forward, or backward, modulo the `p`
/// copies of `s` rooms.
pub proof fn lemma_copy_shift(t: int, i: int, k: int, s: int, p: int)
    requires
        0 <= t < s,
        0 <= i < p,
        0 <= k < p,
    ensures
        0 <= (i + k) % p < p,
        0 <= (i + p - k) % p < p,
        (t + i * s + k * s) % (s * p) == t + ((i + k) % p) * s,
        (t + i * s + s * p - k * s) % (s * p) == t + ((i + p - k) % p) * s,
{
    let j1 = (i + k) % p;
    let q1 = (i + k) / p;
    vstd::arithmetic::div_mod::lemma_fundamental_div_mod(i + k, p);
    lemma_mod_bound(i + k, p);
    assert(0 <= q1 <= 1) by (nonlinear_arith)
        requires
            i + k == p * q1 + j1,
            0 <= j1 < p,
            0 <= i < p,
            0 <= k < p,
    ;
    assert(t + i * s + k * s == q1 * (s * p) + (t + j1 * s) && 0 <= t + j1 * s < s * p) by (nonlinear_arith)
        requires
            i + k == p * q1 + j1,
            0 <= j1 < p,
            0 <= t < s,
    ;
    lemma_fundamental_div_mod_converse_mod(t + i * s + k * s, s * p, q1, t + j1 * s);
    let j2 = (i + p - k) % p;
    let q2 = (i + p - k) / p;
    vstd::arithmetic::div_mod::lemma_fundamental_div_mod(i + p - k, p);
    lemma_mod_bound(i + p - k, p);
    assert(0 <= q2 <= 1) by (nonlinear_arith)
        requires
            i + p - k == p * q2 + j2,
            0 <= j2 < p,
            0 <= i < p,
            0 <= k < p,
    ;
    assert(t + i * s + s * p - k * s == q2 * (s * p) + (t + j2 * s) && 0 <= t + j2 * s < s * p) by (nonlinear_arith)
        requires
            i + p - k == p * q2 + j2,
            0 <= j2 < p,
            0 <= t < s,
    ;
    lemma_fundamental_div_mod_converse_mod(t + i * s + s * p - k * s, s * p, q2, t + j2 * s);
}

/// Room `y` is room `t` of copy `j` exactly when `t` and `j` are its remainder
/// and quotient by `s`.
pub proof fn lemma_room_copy(y: int, t: int, j: int, s: int, p: int)
    requires
        0 <= t < s,
        0 <= j < p,
        0 <= y < s * p,
    ensures
        (y == t + j * s) == (y % s == t && y / s == j),
        0 <= y % s < s,
        0 <= y / s < p,
        y == y % s + (y / s) * s,
{
    assert(s * p == p * s) by (nonlinear_arith);
    lemma_split_position(y, p, s);
    lemma_position(j, t, p, s);
}

/// Going `k` copies forward and `k` back are inverse, modulo `p` copies.
pub proof fn lemma_cyclic(a: int, b: int, k: int, p: int)
    requires
        0 <= a < p,
        0 <= b < p,
        0 <= k < p,
    ensures
        (b == (a + k) % p) == (a == (b + p - k) % p),
{
    if a + k < p {
        lemma_small_mod((a + k) as nat, p as nat);
    } else {
        lemma_fundamental_div_mod_converse_mod(a + k, p, 1, a + k - p);
    }
    if b + p - k < p {
        lemma_small_mod((b + p - k) as nat, p as nat);
    } else {
        lemma_fundamental_div_mod_converse_mod(b + p - k, p, 1, b - k);
    }
}

/// 1 when `b` holds, else 0.
pub open spec fn ind(b: bool) -> int {
    if b {
        1
    } else {
        0
    }
}

/// Door `d` of room `x` after the door `fd` of room `f` and the door `td` of room
/// `t` are moved, in every copy, `k` copies forward and backward respectively.
pub open spec fn shifted(m: Seq<Seq<usize>>, s: int, p: int, f: int, fd: int, t: int, td: int, k: int, x: int, d: int) -> int {
    if x % s == f && d == fd {
        (m[x][d] + k * s) % (s * p)
    } else if x % s == t && d == td {
        (m[x][d] + s * p - k * s) % (s * p)
    } else {
        m[x][d] as int
    }
}

/// How many more doors of room `x` lead to room `y` after such a move.
pub open spec fn shift_delta(s: int, p: int, f: int, t: int, k: int, x: int, y: int) -> int {
    (if x % s == f && y % s == t {
        ind(y / s == (x / s + k) % p) - ind(y / s == x / s)
    } else {
        0
    }) + (if x % s == t && y % s == f {
        ind(y / s == (x / s + p - k) % p) - ind(y / s == x / s)
    } else {
        0
    })
}

/// The facts about the map `m` of `p` copies of `s` rooms and the moved pair of
/// doors `(f, fd)`, `(t, td)` of its first copy, which lead to each other, under
/// which `m2` is `m` after the move.
pub open spec fn shift_setting(
    m: Seq<Seq<usize>>,
    m2: Seq<Seq<usize>>,
    s: int,
    p: int,
    f: int,
    fd: int,
    t: int,
    td: int,
    k: int,
) -> bool {
    &&& 0 < s
    &&& 0 < p
    &&& s * p < usize::MAX
    &&& crate::problem::is_map(m, (s * p) as nat)
    &&& m2.len() == s * p
    &&& forall|x: int| 0 <= x < s * p ==> (#[trigger] m2[x]).len() == 6
    &&& copies_agree(m, s, p)
    &&& 0 <= f < s
    &&& 0 <= t < s
    &&& 0 <= fd < 6
    &&& 0 <= td < 6
    &&& 0 <= k < p
    &&& m[f][fd] == t
    &&& m[t][td] == f
    &&& (f == t ==> fd != td)
    &&& forall|x: int, d: int| 0 <= x < s * p && 0 <= d < 6 ==> #[trigger] m2[x][d] as int == shifted(m, s, p, f, fd, t, td, k, x, d)
}

/// Where the moved doors of room `x` lead, before and after the move.
proof fn lemma_moved_targets(m: Seq<Seq<usize>>, m2: Seq<Seq<usize>>, s: int, p: int, f: int, fd: int, t: int, td: int, k: int, x: int)
    requires
        shift_setting(m, m2, s, p, f, fd, t, td, k),
        0 <= x < s * p,
    ensures
        0 <= x % s < s,
        0 <= x / s < p,
        x % s == f ==> m[x][fd] == t + (x / s) * s && m2[x][fd] == t + ((x / s + k) % p) * s,
        x % s == t ==> m[x][td] == f + (x / s) * s && m2[x][td] == f + ((x / s + p - k) % p) * s,
{
    lemma_room_copy(x, 0, 0, s, p);
    let i = x / s;
    lemma_small_mod(f as nat, s as nat);
    lemma_small_mod(t as nat, s as nat);
    if x % s == f {
        assert(door_target(m, x, fd) == (m[x % s][fd] + (x / s) * s) % (s * p));
        lemma_copy_shift(t, i, 0, s, p);
        assert(t + i * s + 0 * s == t + i * s);
        assert(s * p - 0 * s == s * p);
        lemma_small_mod(0 as nat, p as nat);
        assert((i + 0) % p == i) by {
            lemma_small_mod(i as nat, p as nat);
        }
        lemma_copy_shift(t, i, k, s, p);
    }
    if x % s == t {
        assert(door_target(m, x, td) == (m[x % s][td] + (x / s) * s) % (s * p));
        lemma_copy_shift(f, i, 0, s, p);
        assert((i + 0) % p == i) by {
            lemma_small_mod(i as nat, p as nat);
        }
        lemma_copy_shift(f, i, k, s, p);
    }
}

/// The move changes the number of doors from `x` to `y` by `shift_delta`.
proof fn lemma_row_delta(m: Seq<Seq<usize>>, m2: Seq<Seq<usize>>, s: int, p: int, f: int, fd: int, t: int, td: int, k: int, x: int, y: int)
    requires
        shift_setting(m, m2, s, p, f, fd, t, td, k),
        0 <= x < s * p,
        0 <= y < s * p,
    ensures
        count_eq(m2[x], y as usize, 6) as int == count_eq(m[x], y as usize, 6) + shift_delta(s, p, f, t, k, x, y),
{
    lemma_moved_targets(m, m2, s, p, f, fd, t, td, k, x);
    lemma_room_copy(y, 0, 0, s, p);
    let i = x / s;
    let o = m[x];
    let w1 = if x % s == f {
        o.update(fd, m2[x][fd])
    } else {
        o
    };
    let w2 = if x % s == t {
        w1.update(td, m2[x][td])
    } else {
        w1
    };
    assert(w2 =~= m2[x]) by {
        assert forall|d: int| 0 <= d < 6 implies #[trigger] w2[d] == m2[x][d] by {
            assert(m2[x][d] as int == shifted(m, s, p, f, fd, t, td, k, x, d));
        }
    }
    let yu = y as usize;
    let c0 = count_eq(o, yu, 6) as int;
    let c1 = count_eq(w1, yu, 6) as int;
    let c2 = count_eq(w2, yu, 6) as int;
    if x % s == f {
        lemma_count_update(o, fd, m2[x][fd], yu, 6);
        lemma_room_copy(y, t, (i + k) % p, s, p);
        lemma_room_copy(y, t, i, s, p);
        assert((o[fd] == yu) == (y % s == t && y / s == i));
        assert((m2[x][fd] == yu) == (y % s == t && y / s == (i + k) % p));
        assert(c1 == c0 + ind(y % s == t && y / s == (i + k) % p) - ind(y % s == t && y / s == i));
    } else {
        assert(c1 == c0);
    }
    if x % s == t {
        assert(w1[td] == o[td]);
        lemma_count_update(w1, td, m2[x][td], yu, 6);
        lemma_room_copy(y, f, (i + p - k) % p, s, p);
        lemma_room_copy(y, f, i, s, p);
        assert((w1[td] == yu) == (y % s == f && y / s == i));
        assert((m2[x][td] == yu) == (y % s == f && y / s == (i + p - k) % p));
        assert(c2 == c1 + ind(y % s == f && y / s == (i + p - k) % p) - ind(y % s == f && y / s == i));
    } else {
        assert(c2 == c1);
    }
    assert(count_eq(m2[x], yu, 6) as int == c2);
}

/// The change is the same both ways between two rooms.
proof fn lemma_delta_symmetric(s: int, p: int, f: int, t: int, k: int, x: int, y: int)
    requires
        0 < s,
        0 < p,
        0 <= k < p,
        0 <= x < s * p,
        0 <= y < s * p,
    ensures
        shift_delta(s, p, f, t, k, x, y) == shift_delta(s, p, f, t, k, y, x),
{
    lemma_room_copy(x, 0, 0, s, p);
    lemma_room_copy(y, 0, 0, s, p);
    lemma_cyclic(x / s, y / s, k, p);
    lemma_cyclic(y / s, x / s, k, p);
}

/// Moving a pair of doors that lead to each other keeps every two rooms
/// balanced and the copies in agreement.
pub proof fn lemma_shift_keeps_balanced(
    m: Seq<Seq<usize>>,
    m2: Seq<Seq<usize>>,
    s: int,
    p: int,
    f: int,
    fd: int,
    t: int,
    td: int,
    k: int,
)
    requires
        shift_setting(m, m2, s, p, f, fd, t, td, k),
        balanced(m, (s * p) as nat),
    ensures
        balanced(m2, (s * p) as nat),
{
    assert forall|a: int, b: int|
        0 <= a < s * p && 0 <= b < s * p && a != b implies #[trigger] count_eq(m2[a], b as usize, 6) == #[trigger] count_eq(
        m2[b],
        a as usize,
        6,
    ) by {
        lemma_row_delta(m, m2, s, p, f, fd, t, td, k, a, b);
        lemma_row_delta(m, m2, s, p, f, fd, t, td, k, b, a);
        lemma_delta_symmetric(s, p, f, t, k, a, b);
        assert(count_eq(m[a], b as usize, 6) == count_eq(m[b], a as usize, 6));
    }
}

/// After the move, the copies still agree.
pub proof fn lemma_shift_keeps_agreement(
    m: Seq<Seq<usize>>,
    m2: Seq<Seq<usize>>,
    s: int,
    p: int,
    f: int,
    fd: int,
    t: int,
    td: int,
    k: int,
)
    requires
        shift_setting(m, m2, s, p, f, fd, t, td, k),
    ensures
        copies_agree(m2, s, p),
{
    let n = s * p;
    assert forall|x: int, d: int| 0 <= x < n && 0 <= d < 6 implies #[trigger] door_target(m2, x, d) == (m2[x % s][d] + (x / s)
        * s) % n by {
        lemma_room_copy(x, 0, 0, s, p);
        let r = x % s;
        let i = x / s;
        lemma_small_mod(r as nat, s as nat);
        assert(i * s < n && 0 <= i * s) by (nonlinear_arith)
            requires
                0 <= i < p,
                0 < s,
                n == s * p,
        ;
        lemma_small_mod((i * s) as nat, n as nat);
        assert(m2[r][d] as int == shifted(m, s, p, f, fd, t, td, k, r, d));
        assert(m2[x][d] as int == shifted(m, s, p, f, fd, t, td, k, x, d));
        assert(door_target(m, x, d) == (m[x % s][d] + (x / s) * s) % n);
        lemma_small_mod(m[x][d] as nat, n as nat);
        if r == f && d == fd {
            lemma_add_mod_noop(t + k * s, i * s, n);
            assert(m[x][d] == t + i * s) by {
                lemma_small_mod(f as nat, s as nat);
                assert(m[r][d] == t);
                assert(t + i * s < n) by (nonlinear_arith)
                    requires
                        0 <= t < s,
                        0 <= i < p,
                        n == s * p,
                ;
                lemma_small_mod((t + i * s) as nat, n as nat);
            }
            assert(t + k * s + i * s == m[x][d] + k * s);
        } else if r == t && d == td {
            lemma_add_mod_noop(f + n - k * s, i * s, n);
            assert(m[x][d] == f + i * s) by {
                assert(m[r][d] == f);
                assert(f + i * s < n) by (nonlinear_arith)
                    requires
                        0 <= f < s,
                        0 <= i < p,
                        n == s * p,
                ;
                lemma_small_mod((f + i * s) as nat, n as nat);
            }
            assert(f + n - k * s + i * s == m[x][d] + n - k * s);
        } else {
            assert(m2[r][d] == m[r][d]);
        }
    }
}

/// Doors of copy `i` of a room lead to room `y` as often as the base doors
/// lead to `y`'s room within its copy, when `y` lies in copy `i`, else never.
proof fn lemma_count_copy(row: Seq<usize>, row2: Seq<usize>, i: int, s: int, p: int, y: int, k: int)
    requires
        0 <= k <= 6,
        row.len() == 6,
        row2.len() == 6,
        0 < s,
        0 <= i < p,
        0 <= y < s * p,
        s * p < usize::MAX,
        forall|q: int| 0 <= q < 6 ==> #[trigger] row[q] < s && row2[q] == row[q] + i * s,
    ensures
        count_eq(row2, y as usize, k) == if y / s == i {
            count_eq(row, (y % s) as usize, k)
        } else {
            0
        },
    decreases k,
{
    if k > 0 {
        lemma_count_copy(row, row2, i, s, p, y, k - 1);
        lemma_room_copy(y, row[k - 1] as int, i, s, p);
    }
}

/// Stacking `p` copies of a balanced map of `s` rooms, the doors of each copy
/// leading within it, gives a balanced map whose copies agree.
pub proof fn lemma_stack_balanced(base: Seq<Seq<usize>>, stacked: Seq<Seq<usize>>, s: int, p: int)
    requires
        0 < s,
        0 < p,
        s * p < usize::MAX,
        crate::problem::is_map(base, s as nat),
        balanced(base, s as nat),
        stacked.len() == s * p,
        forall|x: int| 0 <= x < s * p ==> (#[trigger] stacked[x]).len() == 6,
        forall|i: int, r: int, d: int|
            0 <= i < p && 0 <= r < s && 0 <= d < 6 ==> #[trigger] stacked[i * s + r][d] == base[r][d] + i * s,
    ensures
        copies_agree(stacked, s, p),
        balanced(stacked, (s * p) as nat),
{
    let n = s * p;
    assert forall|x: int, d: int| 0 <= x < n && 0 <= d < 6 implies #[trigger] door_target(stacked, x, d) == (stacked[x % s][d] + (x
        / s) * s) % n by {
        lemma_room_copy(x, 0, 0, s, p);
        let i = x / s;
        let r = x % s;
        assert(x == i * s + r);
        assert(stacked[i * s + r][d] == base[r][d] + i * s);
        assert(stacked[0 * s + r][d] == base[r][d] + 0 * s);
        assert(base[r][d] + i * s < n) by (nonlinear_arith)
            requires
                base[r][d] < s,
                0 <= i < p,
                n == s * p,
        ;
        lemma_small_mod((base[r][d] + i * s) as nat, n as nat);
    }
    assert forall|a: int, b: int|
        0 <= a < n && 0 <= b < n && a != b implies #[trigger] count_eq(stacked[a], b as usize, 6) == #[trigger] count_eq(
        stacked[b],
        a as usize,
        6,
    ) by {
        lemma_room_copy(a, 0, 0, s, p);
        lemma_room_copy(b, 0, 0, s, p);
        let ia = a / s;
        let ra = a % s;
        let ib = b / s;
        let rb = b % s;
        assert forall|q: int| 0 <= q < 6 implies #[trigger] base[ra][q] < s && stacked[a][q] == base[ra][q] + ia * s by {
            assert(stacked[ia * s + ra][q] == base[ra][q] + ia * s);
        }
        assert forall|q: int| 0 <= q < 6 implies #[trigger] base[rb][q] < s && stacked[b][q] == base[rb][q] + ib * s by {
            assert(stacked[ib * s + rb][q] == base[rb][q] + ib * s);
        }
        lemma_count_copy(base[ra], stacked[a], ia, s, p, b, 6);
        lemma_count_copy(base[rb], stacked[b], ib, s, p, a, 6);
        if ia == ib {
            assert(ra != rb);
            assert(count_eq(base[ra], rb as usize, 6) == count_eq(base[rb], ra as usize, 6));
        }
    }
}

} // verus!
