use vstd::prelude::*;
use vstd::arithmetic::div_mod::{
    lemma_fundamental_div_mod, lemma_fundamental_div_mod_converse, lemma_fundamental_div_mod_converse_mod, lemma_mod_bound, lemma_mod_mod,
    lemma_mod_multiples_vanish, lemma_small_mod,
};

use rand::rngs::StdRng;

use crate::balance::{
    copies_agree, lemma_room_copy, lemma_shift_keeps_agreement, lemma_shift_keeps_balanced, shift_setting, shifted,
};
use crate::problem::{balanced, is_map, rows};
use crate::random::std_random_range;

verus! {

/// `itertools::repeat_n`, collected into a `Vec`: `n` clones of `value`. Cloning a
/// matrix of numbers copies the numbers, so each item equals `value`.
#[verifier::external_body]
pub(crate) fn repeat_rows(value: Vec<Vec<usize>>, n: usize) -> (res: Vec<Vec<Vec<usize>>>)
    ensures
        res@.len() == n,
        forall|i: int| 0 <= i < n ==> rows(#[trigger] res@[i]@) == rows(value@),
{
    itertools::repeat_n(value, n).collect()
}

/// `itertools::repeat_n`, collected into a `Vec`: `n` clones of `value`. Cloning a
/// list of numbers copies the numbers, so each item equals `value`.
#[verifier::external_body]
pub(crate) fn repeat_labels(value: Vec<i8>, n: usize) -> (res: Vec<Vec<i8>>)
    ensures
        res@.len() == n,
        forall|i: int| 0 <= i < n ==> (#[trigger] res@[i])@ == value@,
{
    itertools::repeat_n(value, n).collect()
}

pub proof fn lemma_copy_index(i: int, r: int, s: int, p: int)
    requires
        0 <= i < p,
        0 <= r < s,
    ensures
        0 <= i * s + r < s * p,
        i * s + r < (i + 1) * s,
        (i + 1) * s <= s * p,
        (i + 1) * s == i * s + s,
        i * s >= 0,
        i >= 1 ==> i * s >= s,
        p * s == s * p,
{
    assert(i >= 1 ==> i * s >= s) by (nonlinear_arith)
        requires
            0 < s,
    ;
    assert(p * s == s * p) by (nonlinear_arith);
    assert(i * s >= 0) by (nonlinear_arith)
        requires
            0 <= i,
            0 <= r < s,
    ;
    assert((i + 1) * s <= p * s) by (nonlinear_arith)
        requires
            i + 1 <= p,
            0 < s,
    ;
    assert((i + 1) * s == i * s + s) by (nonlinear_arith);
}

/// `p` copies of the map `conns` of `s` rooms: room `r` of copy `i` is room
/// `i * s + r`, and its doors lead within the same copy.
pub fn stack_copies(conns: Vec<Vec<usize>>, s: usize, p: usize) -> (res: Vec<Vec<usize>>)
    requires
        is_map(rows(conns@), s as nat),
        0 < s,
        0 < p,
        s * p <= usize::MAX / 8,
    ensures
        res@.len() == s * p,
        forall|i: int, r: int, d: int|
            0 <= i < p && 0 <= r < s && 0 <= d < 6 ==> #[trigger] rows(res@)[i * s + r][d] == rows(conns@)[r][d]
                + i * s,
        is_map(rows(res@), (s * p) as nat),
{
    let ghost orig = rows(conns@);
    let copies = repeat_rows(conns, p);
    let mut res: Vec<Vec<usize>> = Vec::new();
    let mut i: usize = 0;
    while i < p
        invariant
            0 < s,
            0 < p,
            s * p <= usize::MAX / 8,
            i <= p,
            is_map(orig, s as nat),
            copies@.len() == p,
            forall|j: int| 0 <= j < p ==> rows(#[trigger] copies@[j]@) == orig,
            res@.len() == i * s,
            forall|j: int, r: int, d: int|
                0 <= j < i && 0 <= r < s && 0 <= d < 6 ==> #[trigger] rows(res@)[j * s + r][d] == orig[r][d] + j * s,
            forall|q: int| 0 <= q < i * s ==> (#[trigger] rows(res@)[q]).len() == 6,
        decreases p - i,
    {
        proof {
            lemma_copy_index(i as int, 0, s as int, p as int);
        }
        let offset = i * s;
        proof {
            assert(offset + s == (i + 1) * s);
        }
        let copy = &copies[i];
        let mut r: usize = 0;
        while r < s
            invariant
                0 < s,
                i < p,
                r <= s,
                offset == i * s,
                (i + 1) * s <= s * p,
                offset + s <= s * p,
                s * p <= usize::MAX / 8,
                is_map(orig, s as nat),
                rows(copy@) == orig,
                res@.len() == offset + r,
                forall|j: int, q: int, d: int|
                    0 <= j < i && 0 <= q < s && 0 <= d < 6 ==> #[trigger] rows(res@)[j * s + q][d] == orig[q][d] + j * s,
                forall|q: int, d: int| 0 <= q < r && 0 <= d < 6 ==> #[trigger] rows(res@)[offset + q][d] == orig[q][d] + offset,
                forall|q: int| 0 <= q < offset + r ==> (#[trigger] rows(res@)[q]).len() == 6,
            decreases s - r,
        {
            proof {
                assert(rows(copy@)[r as int] == copy@[r as int]@);
            }
            let src = &copy[r];
            let mut row: Vec<usize> = Vec::new();
            let mut d: usize = 0;
            while d < 6
                invariant
                    d <= 6,
                    r < s,
                    offset + s <= usize::MAX / 8,
                    src@ == orig[r as int],
                    is_map(orig, s as nat),
                    row@.len() == d,
                    forall|e: int| 0 <= e < d ==> #[trigger] row@[e] == src@[e] + offset,
                decreases 6 - d,
            {
                row.push(src[d] + offset);
                d = d + 1;
            }
            let ghost before = res@;
            res.push(row);
            proof {
                assert(rows(res@)[offset + r] == row@);
                assert forall|q: int, d: int| 0 <= q < r + 1 && 0 <= d < 6 implies #[trigger] rows(res@)[offset + q][d] == orig[q][d] + offset by {
                    if q < r {
                        assert(rows(res@)[offset + q] == rows(before)[offset + q]);
                    }
                }
                assert forall|q: int| 0 <= q < offset + r + 1 implies (#[trigger] rows(res@)[q]).len() == 6 by {
                    if q < offset + r {
                        assert(rows(res@)[q] == rows(before)[q]);
                    }
                }
                assert forall|j: int, q: int, d: int|
                    0 <= j < i && 0 <= q < s && 0 <= d < 6 implies #[trigger] rows(res@)[j * s + q][d] == orig[q][d] + j * s by {
                    lemma_copy_index(j, q, s as int, i as int);
                    assert(rows(res@)[j * s + q] == rows(before)[j * s + q]);
                }
            }
            r = r + 1;
        }
        i = i + 1;
        proof {
            assert((i - 1) * s + s == i * s) by (nonlinear_arith);
        }
    }
    proof {
        assert(p * s == s * p) by (nonlinear_arith);
        assert forall|q: int, d: int| 0 <= q < s * p && 0 <= d < 6 implies #[trigger] rows(res@)[q][d] < s * p by {
            let si = s as int;
            let j = q / si;
            let r = q % si;
            lemma_fundamental_div_mod(q, si);
            lemma_mod_bound(q, si);
            assert(0 <= j < p) by (nonlinear_arith)
                requires
                    0 <= q < si * p,
                    0 < si,
                    q == si * j + r,
                    0 <= r < si,
            ;
            assert(q == j * si + r) by (nonlinear_arith)
                requires
                    q == si * j + r,
            ;
            lemma_copy_index(j, r, s as int, p as int);
            assert(rows(res@)[j * s + r][d] == orig[r][d] + j * s);
        }
    }
    res
}

/// Shifting one end of a door by `k` copies and the other back lands, modulo the
/// `p` copies of `s` rooms, on the same room of another copy.
pub proof fn lemma_shift_back(from: int, k: int, s: int, p: int)
    requires
        0 <= from < s,
        0 <= k < p,
    ensures
        0 <= k * s < s * p,
        ((from + s * p - k * s) % (s * p)) % s == from,
        (from + s * p - k * s) % (s * p) < s * p,
{
    let n = s * p;
    assert(s <= s * p) by (nonlinear_arith)
        requires
            0 <= k < p,
            0 < s,
    ;
    assert(0 <= k * s < s * p) by (nonlinear_arith)
        requires
            0 <= k < p,
            0 < s,
    ;
    if k == 0 {
        assert(k * s == 0) by (nonlinear_arith)
            requires
                k == 0,
        ;
        lemma_fundamental_div_mod_converse_mod(from + n, n, 1, from);
        lemma_small_mod(from as nat, s as nat);
    } else {
        let x = from + n - k * s;
        assert(x == (p - k) * s + from && x < n) by (nonlinear_arith)
            requires
                x == from + n - k * s,
                n == s * p,
                0 < k < p,
                0 <= from < s,
        ;
        lemma_fundamental_div_mod_converse_mod(x, n, 0, x);
        lemma_fundamental_div_mod_converse_mod(x, s, p - k, from);
    }
    lemma_mod_bound(from + n - k * s, n);
}

/// Moving a door's target by `k` whole copies, modulo the `p` copies of `s`
/// rooms, keeps the room it leads to within its copy.
pub proof fn lemma_shift_keeps_base(v: int, k: int, s: int, p: int)
    requires
        0 <= v,
        0 <= k,
        0 < s,
        0 < p,
    ensures
        ((v + k * s) % (s * p)) % s == v % s,
{
    lemma_mod_mod(v + k * s, s, p);
    assert(k * s == s * k) by (nonlinear_arith);
    lemma_mod_multiples_vanish(k, v, s);
}

/// Each door of `a` leads to a copy of the room that the same door of `b` leads
/// to: the same room modulo the `s` rooms of one copy.
pub open spec fn same_base(a: Seq<Seq<usize>>, b: Seq<Seq<usize>>, n: int, s: int) -> bool {
    forall|r: int, d: int| 0 <= r < n && 0 <= d < 6 ==> (#[trigger] a[r][d] as int) % s == (b[r][d] as int) % s
}

/// After `p` copies of a map of `s` rooms are stacked and then rewired keeping
/// each door's room within a copy, every door of every copy leads, modulo `s`,
/// where the same door of the base room leads.
pub proof fn lemma_copies_fold(full: Seq<Seq<usize>>, stacked: Seq<Seq<usize>>, mixed: Seq<Seq<usize>>, s: int, p: int)
    requires
        is_map(full, s as nat),
        0 < s,
        0 < p,
        forall|i: int, r: int, d: int|
            0 <= i < p && 0 <= r < s && 0 <= d < 6 ==> #[trigger] stacked[i * s + r][d] == full[r][d] + i * s,
        same_base(mixed, stacked, s * p, s),
    ensures
        forall|r: int, d: int| 0 <= r < s * p && 0 <= d < 6 ==> (#[trigger] mixed[r][d] as int) % s == full[r % s][d],
{
    assert forall|r: int, d: int| 0 <= r < s * p && 0 <= d < 6 implies (#[trigger] mixed[r][d] as int) % s == full[r
        % s][d] by {
        let i = r / s;
        let q = r % s;
        lemma_fundamental_div_mod(r, s);
        lemma_mod_bound(r, s);
        assert(0 <= i < p) by (nonlinear_arith)
            requires
                r == s * i + q,
                0 <= q < s,
                0 <= r < s * p,
                0 < s,
        ;
        assert(i * s == s * i) by (nonlinear_arith);
        assert(stacked[i * s + q][d] == full[q][d] + i * s);
        assert(stacked[r][d] == full[q][d] + i * s);
        lemma_mod_multiples_vanish(i, full[q][d] as int, s);
        lemma_small_mod(full[q][d] as nat, s as nat);
    }
}

/// The doors of the first copy not handled yet lead into the first copy, or to a
/// room whose position within its copy comes before theirs.
pub open spec fn pending_ok(conns: Seq<Seq<usize>>, s: int, from: int, door: int) -> bool {
    forall|r: int, d: int|
        0 <= r < s && 0 <= d < 6 && (r > from || (r == from && d >= door)) ==> #[trigger] conns[r][d] < s
            || (conns[r][d] as int) % s < r
}

/// `m` after the doors `fd` of the copies of room `f`, and `td` of the copies of
/// room `t`, are moved by `k` copies, forward and backward (see `shifted`).
pub open spec fn shift_all(m: Seq<Seq<usize>>, s: int, p: int, f: int, fd: int, t: int, td: int, k: int) -> Seq<Seq<usize>> {
    Seq::new(m.len(), |x: int| Seq::new(6, |d: int| shifted(m, s, p, f, fd, t, td, k, x, d) as usize))
}

/// The first door of room `t`, from `td` on, that leads back to room `f` and is
/// not door `fd` itself or an earlier door of the same room; 6 when there is none.
pub open spec fn back_door(m: Seq<Seq<usize>>, f: int, fd: int, t: int, td: int) -> int
    decreases 6 - td,
{
    if td >= 6 {
        6
    } else if !(f == t && fd <= td) && m[t][td] as int == f {
        td
    } else {
        back_door(m, f, fd, t, td + 1)
    }
}

/// One step of the rewiring, for door `j % 6` of room `j / 6` of the first copy:
/// when it leads to a room no earlier in its copy and a door of that room leads
/// back (see `back_door`), both are moved by `k` copies in every copy.
pub open spec fn mix_step(m: Seq<Seq<usize>>, s: int, p: int, j: int, k: int) -> Seq<Seq<usize>> {
    let f = j / 6;
    let fd = j % 6;
    let t = m[f][fd] as int;
    if t % s < f {
        m
    } else if back_door(m, f, fd, t, 0) >= 6 {
        m
    } else {
        shift_all(m, s, p, f, fd, t, back_door(m, f, fd, t, 0), k)
    }
}

/// `m` after the steps of the rewiring for the first `ks.len()` doors of the
/// first copy, the step for door `j` moving by `ks[j]` copies.
pub open spec fn mix_all(m: Seq<Seq<usize>>, s: int, p: int, ks: Seq<int>) -> Seq<Seq<usize>>
    decreases ks.len(),
{
    if ks.len() == 0 {
        m
    } else {
        mix_step(mix_all(m, s, p, ks.drop_last()), s, p, ks.len() - 1, ks.last())
    }
}

/// Rewires the `p` copies of a map of `s` rooms: for each door of the first copy
/// that leads to a room no earlier in its copy, and for the first door of that room
/// (other than itself or an earlier door of the same room) that leads back, both
/// ends are shifted by a random number of copies, in opposite directions, in every
/// copy at once. The result is that of the steps of `mix_all` for every door of
/// the first copy in turn, for some number of copies below `p` per door.
pub fn mix_copies(conns: Vec<Vec<usize>>, s: usize, p: usize, rng: &mut StdRng) -> (res: Vec<Vec<usize>>)
    requires
        is_map(rows(conns@), (s * p) as nat),
        0 < s,
        1 < p,
        s * p <= usize::MAX / 8,
        pending_ok(rows(conns@), s as int, 0, 0),
        balanced(rows(conns@), (s * p) as nat),
        copies_agree(rows(conns@), s as int, p as int),
    ensures
        is_map(rows(res@), (s * p) as nat),
        balanced(rows(res@), (s * p) as nat),
        same_base(rows(res@), rows(conns@), s * p, s as int),
        copies_agree(rows(res@), s as int, p as int),
        exists|ks: Seq<int>|
            ks.len() == 6 * s && (forall|i: int| 0 <= i < ks.len() ==> 0 <= #[trigger] ks[i] < p) && rows(res@)
                == #[trigger] mix_all(rows(conns@), s as int, p as int, ks),
{
    let ghost orig = rows(conns@);
    let n = s * p;
    proof {
        assert(s < n) by (nonlinear_arith)
            requires
                n == s * p,
                1 < p,
                0 < s,
        ;
    }
    let mut conns = conns;
    let ghost mut ks: Seq<int> = Seq::empty();
    let mut from_room: usize = 0;
    while from_room < s
        invariant
            n == s * p,
            0 < s,
            s < n,
            1 < p,
            n <= usize::MAX / 8,
            from_room <= s,
            is_map(rows(conns@), n as nat),
            same_base(rows(conns@), orig, n as int, s as int),
            balanced(rows(conns@), n as nat),
            copies_agree(rows(conns@), s as int, p as int),
            pending_ok(rows(conns@), s as int, from_room as int, 0),
            ks.len() == from_room * 6 + 0,
            forall|i: int| 0 <= i < ks.len() ==> 0 <= #[trigger] ks[i] < p,
            rows(conns@) == mix_all(orig, s as int, p as int, ks),
        decreases s - from_room,
    {
        let mut from_door: usize = 0;
        while from_door < 6
            invariant
                n == s * p,
                0 < s,
                s < n,
                1 < p,
                n <= usize::MAX / 8,
                from_room < s,
                from_door <= 6,
                is_map(rows(conns@), n as nat),
                same_base(rows(conns@), orig, n as int, s as int),
                balanced(rows(conns@), n as nat),
                copies_agree(rows(conns@), s as int, p as int),
                pending_ok(rows(conns@), s as int, from_room as int, from_door as int),
                ks.len() == from_room * 6 + from_door,
                forall|i: int| 0 <= i < ks.len() ==> 0 <= #[trigger] ks[i] < p,
                rows(conns@) == mix_all(orig, s as int, p as int, ks),
            decreases 6 - from_door,
        {
            let ghost rows0 = rows(conns@);
            let ghost mut kk: int = 0;
            proof {
                assert(rows0[from_room as int] == conns@[from_room as int]@);
                lemma_small_mod(from_room as nat, s as nat);
                lemma_fundamental_div_mod_converse(ks.len() as int, 6, from_room as int, from_door as int);
            }
            let to_room = conns[from_room][from_door];
            if !(to_room % s < from_room % s) {
                proof {
                    assert(rows0[from_room as int][from_door as int] == to_room);
                    assert(to_room < s);
                    lemma_small_mod(to_room as nat, s as nat);
                    assert(rows0[to_room as int] == conns@[to_room as int]@);
                }
                let mut to_door: usize = 0;
                let mut done = false;
                while to_door < 6 && !done
                    invariant
                        n == s * p,
                        0 < s,
                        s < n,
                        1 < p,
                        n <= usize::MAX / 8,
                        from_room < s,
                        from_door < 6,
                        to_room < s,
                        to_room >= from_room,
                        to_door <= 6,
                        rows0[from_room as int][from_door as int] == to_room,
                        is_map(rows(conns@), n as nat),
                        same_base(rows(conns@), orig, n as int, s as int),
                        balanced(rows(conns@), n as nat),
                        copies_agree(rows(conns@), s as int, p as int),
                        !done ==> rows(conns@) == rows0,
                        pending_ok(rows0, s as int, from_room as int, from_door as int),
                        done ==> pending_ok(rows(conns@), s as int, from_room as int, from_door as int + 1),
                        !done ==> back_door(rows0, from_room as int, from_door as int, to_room as int, 0) == back_door(
                            rows0,
                            from_room as int,
                            from_door as int,
                            to_room as int,
                            to_door as int,
                        ),
                        !done ==> kk == 0,
                        done ==> 0 <= kk < p && back_door(rows0, from_room as int, from_door as int, to_room as int, 0) < 6
                            && rows(conns@) == shift_all(
                            rows0,
                            s as int,
                            p as int,
                            from_room as int,
                            from_door as int,
                            to_room as int,
                            back_door(rows0, from_room as int, from_door as int, to_room as int, 0),
                            kk,
                        ),
                    decreases 6 - to_door,
                {
                    proof {
                        assert(rows(conns@)[to_room as int] == conns@[to_room as int]@);
                    }
                    if !(from_room == to_room && from_door <= to_door) && conns[to_room][to_door] == from_room {
                        let k = std_random_range(rng, 0, p);
                        proof {
                            assert(back_door(rows0, from_room as int, from_door as int, to_room as int, to_door as int)
                                == to_door);
                            lemma_shift_back(from_room as int, k as int, s as int, p as int);
                        }
                        let delta = k * s;
                        let ghost back: int = (from_room + n - delta) as int % (n as int);
                        let mut i: usize = 0;
                        while i < p
                            invariant
                                n == s * p,
                                0 < s,
                                s < n,
                                1 < p,
                                n <= usize::MAX / 8,
                                from_room < s,
                                from_door < 6,
                                to_room < s,
                                to_door < 6,
                                to_room >= from_room,
                                to_room == from_room ==> to_door < from_door,
                                delta < n,
                                back == (from_room + n - delta) as int % (n as int),
                                delta == k * s,
                                k < p,
                                back % (s as int) == from_room,
                                0 <= back,
                                back < n,
                                rows0[to_room as int][to_door as int] == from_room,
                                i <= p,
                                is_map(rows(conns@), n as nat),
                                same_base(rows(conns@), orig, n as int, s as int),
                                forall|r: int, d: int|
                                    0 <= r < s && 0 <= d < 6 && !(r == from_room && d == from_door) && !(r == to_room
                                        && d == to_door) ==> #[trigger] rows(conns@)[r][d] == rows0[r][d],
                                i == 0 ==> rows(conns@)[to_room as int][to_door as int] == from_room,
                                i > 0 ==> rows(conns@)[to_room as int][to_door as int] == back,
                                is_map(rows0, n as nat),
                                forall|x: int, d: int|
                                    0 <= x < n && 0 <= d < 6 ==> #[trigger] rows(conns@)[x][d] as int == if x / (s as int) < i {
                                        shifted(
                                            rows0,
                                            s as int,
                                            p as int,
                                            from_room as int,
                                            from_door as int,
                                            to_room as int,
                                            to_door as int,
                                            k as int,
                                            x,
                                            d,
                                        )
                                    } else {
                                        rows0[x][d] as int
                                    },
                            decreases p - i,
                        {
                            proof {
                                lemma_copy_index(i as int, from_room as int, s as int, p as int);
                                lemma_copy_index(i as int, to_room as int, s as int, p as int);
                            }
                            let a = from_room + i * s;
                            let b = to_room + i * s;
                            let ghost r1 = rows(conns@);
                            proof {
                                assert(r1[a as int] == conns@[a as int]@);
                            }
                            let va = conns[a][from_door];
                            let na = (va + delta) % n;
                            conns[a][from_door] = na;
                            proof {
                                assert(rows(conns@) =~= r1.update(a as int, r1[a as int].update(from_door as int, na)));
                                lemma_shift_keeps_base(va as int, k as int, s as int, p as int);
                                assert(r1[a as int][from_door as int] == va);
                                assert forall|r: int, d: int| 0 <= r < n && 0 <= d < 6 implies (#[trigger] rows(conns@)[r][d] as int) % (
                                s as int) == (orig[r][d] as int) % (s as int) by {
                                    if r != a || d != from_door {
                                        assert(rows(conns@)[r][d] == r1[r][d]);
                                    }
                                }
                            }
                            let ghost r2 = rows(conns@);
                            proof {
                                assert(r2[b as int] == conns@[b as int]@);
                            }
                            let vb = conns[b][to_door];
                            let nb = (vb + n - delta) % n;
                            conns[b][to_door] = nb;
                            proof {
                                assert(rows(conns@) =~= r2.update(b as int, r2[b as int].update(to_door as int, nb)));
                                assert((n - delta) as int == (p - k) * s) by (nonlinear_arith)
                                    requires
                                        n == s * p,
                                        delta == k * s,
                                        k < p,
                                ;
                                lemma_shift_keeps_base(vb as int, (p - k) as int, s as int, p as int);
                                assert(r2[b as int][to_door as int] == vb);
                                assert forall|r: int, d: int| 0 <= r < n && 0 <= d < 6 implies (#[trigger] rows(conns@)[r][d] as int) % (
                                s as int) == (orig[r][d] as int) % (s as int) by {
                                    if r != b || d != to_door {
                                        assert(rows(conns@)[r][d] == r2[r][d]);
                                    }
                                }
                                if i == 0 {
                                    assert(vb == from_room);
                                    assert(nb as int == (vb + n - delta) as int % (n as int));
                                    assert((vb + n - delta) as int == (from_room + n - delta) as int);
                                    assert(nb == back);
                                    assert(rows(conns@)[to_room as int][to_door as int] == nb);
                                } else {
                                    assert(a >= s && b >= s);
                                    assert(rows(conns@)[to_room as int] == r2[to_room as int]);
                                    assert(r2[to_room as int] == r1[to_room as int]);
                                }
                                assert forall|r: int, d: int| 0 <= r < n && 0 <= d < 6 implies #[trigger] rows(conns@)[r][d] < n by {
                                }
                                lemma_room_copy(a as int, from_room as int, i as int, s as int, p as int);
                                lemma_room_copy(b as int, to_room as int, i as int, s as int, p as int);
                                assert(va == rows0[a as int][from_door as int]);
                                assert(vb == rows0[b as int][to_door as int]);
                                assert forall|x: int, d: int| 0 <= x < n && 0 <= d < 6 implies #[trigger] rows(conns@)[x][d] as int
                                    == if x / (s as int) < i + 1 {
                                    shifted(
                                        rows0,
                                        s as int,
                                        p as int,
                                        from_room as int,
                                        from_door as int,
                                        to_room as int,
                                        to_door as int,
                                        k as int,
                                        x,
                                        d,
                                    )
                                } else {
                                    rows0[x][d] as int
                                } by {
                                    lemma_room_copy(x, 0, 0, s as int, p as int);
                                    if x / (s as int) == i {
                                        if x % (s as int) == from_room {
                                            lemma_room_copy(x, from_room as int, i as int, s as int, p as int);
                                        }
                                        if x % (s as int) == to_room {
                                            lemma_room_copy(x, to_room as int, i as int, s as int, p as int);
                                        }
                                        if x == a && d == from_door {
                                        } else if x == b && d == to_door {
                                        } else {
                                            assert(rows(conns@)[x][d] == r1[x][d]);
                                        }
                                    } else {
                                        if x == a || x == b {
                                            assert(false);
                                        }
                                        assert(rows(conns@)[x][d] == r1[x][d]);
                                    }
                                }
                            }
                            i = i + 1;
                        }
                        proof {
                            assert forall|x: int| 0 <= x < n implies (#[trigger] rows(conns@)[x]).len() == 6 by {}
                            lemma_room_copy(0, 0, 0, s as int, p as int);
                            assert(shift_setting(
                                rows0,
                                rows(conns@),
                                s as int,
                                p as int,
                                from_room as int,
                                from_door as int,
                                to_room as int,
                                to_door as int,
                                k as int,
                            )) by {
                                assert forall|x: int, d: int| 0 <= x < n && 0 <= d < 6 implies #[trigger] rows(conns@)[x][d] as int
                                    == shifted(
                                    rows0,
                                    s as int,
                                    p as int,
                                    from_room as int,
                                    from_door as int,
                                    to_room as int,
                                    to_door as int,
                                    k as int,
                                    x,
                                    d,
                                ) by {
                                    lemma_room_copy(x, 0, 0, s as int, p as int);
                                }
                            }
                            lemma_shift_keeps_balanced(
                                rows0,
                                rows(conns@),
                                s as int,
                                p as int,
                                from_room as int,
                                from_door as int,
                                to_room as int,
                                to_door as int,
                                k as int,
                            );
                            lemma_shift_keeps_agreement(
                                rows0,
                                rows(conns@),
                                s as int,
                                p as int,
                                from_room as int,
                                from_door as int,
                                to_room as int,
                                to_door as int,
                                k as int,
                            );
                            assert forall|r: int, d: int|
                                0 <= r < s && 0 <= d < 6 && (r > from_room || (r == from_room && d >= from_door + 1))
                                    implies #[trigger] rows(conns@)[r][d] < s || (rows(conns@)[r][d] as int) % (s as int) < r by {
                                if r == to_room && d == to_door {
                                    assert(rows(conns@)[r][d] == back);
                                } else {
                                    assert(rows(conns@)[r][d] == rows0[r][d]);
                                }
                            }
                        }
                        proof {
                            kk = k as int;
                            assert(rows(conns@) =~~= shift_all(
                                rows0,
                                s as int,
                                p as int,
                                from_room as int,
                                from_door as int,
                                to_room as int,
                                to_door as int,
                                kk,
                            )) by {
                                assert forall|x: int, d: int| 0 <= x < n && 0 <= d < 6 implies #[trigger] rows(conns@)[x][d]
                                    == shifted(
                                    rows0,
                                    s as int,
                                    p as int,
                                    from_room as int,
                                    from_door as int,
                                    to_room as int,
                                    to_door as int,
                                    kk,
                                    x,
                                    d,
                                ) as usize by {
                                    lemma_room_copy(x, 0, 0, s as int, p as int);
                                }
                            }
                        }
                        done = true;
                    }
                    to_door = to_door + 1;
                }
                if !done {
                    proof {
                        assert forall|r: int, d: int|
                            0 <= r < s && 0 <= d < 6 && (r > from_room || (r == from_room && d >= from_door + 1))
                                implies #[trigger] rows(conns@)[r][d] < s || (rows(conns@)[r][d] as int) % (s as int) < r by {
                            assert(rows(conns@)[r][d] == rows0[r][d]);
                        }
                    }
                }
            }
            proof {
                let ghost old_ks = ks;
                assert(0 <= kk < p);
                ks = ks.push(kk);
                assert(ks.drop_last() =~= old_ks);
                assert(mix_all(orig, s as int, p as int, ks) == mix_step(rows0, s as int, p as int, old_ks.len() as int, kk));
            }
            from_door = from_door + 1;
        }
        from_room = from_room + 1;
    }
    proof {
        assert(ks.len() == 6 * s);
    }
    conns
}

} // verus!
