use vstd::prelude::*;
use vstd::string::*;

use crate::balance::lemma_stack_balanced;
use crate::copies::{lemma_copies_fold, lemma_copy_index, mix_copies, stack_copies};
use vstd::arithmetic::div_mod::{lemma_mod_multiples_vanish, lemma_small_mod};
use crate::generate::{connect_tree, fill_doors};
use crate::random::{seeded_rng, std_random_range, thread_random_range_u64};
use crate::text::{decimal, digit_char, push_decimal};
use crate::union_find::{count_eq, lemma_count_update};

verus! {

/// Number of doors of every room.
pub const DOOR_COUNT: usize = 6;

/// `conns` describes `n` rooms of six doors each, every door leading to one of them.
pub open spec fn is_map(conns: Seq<Seq<usize>>, n: nat) -> bool {
    &&& conns.len() == n
    &&& forall|r: int| 0 <= r < n ==> (#[trigger] conns[r]).len() == 6
    &&& forall|r: int, d: int| 0 <= r < n && 0 <= d < 6 ==> #[trigger] conns[r][d] < n
}

/// The room reached from `start` through the doors `path`.
pub open spec fn walk(conns: Seq<Seq<usize>>, start: usize, path: Seq<usize>) -> usize
    decreases path.len(),
{
    if path.len() == 0 {
        start
    } else {
        conns[walk(conns, start, path.drop_last()) as int][path.last() as int]
    }
}

/// Every door of `path` is one of the six.
pub open spec fn is_door_path(path: Seq<usize>) -> bool {
    forall|i: int| 0 <= i < path.len() ==> #[trigger] path[i] < 6
}

/// State of an exploration after a prefix of the plan.
pub struct WalkState {
    pub room: usize,
    pub digits: Seq<usize>,
    pub writing: bool,
    pub remaining: nat,
    pub record: Seq<usize>,
}

/// Why a plan is refused.
pub enum PlanError {
    /// A character that is not a door (or, inside brackets, not a digit below 4).
    Invalid,
    /// More moves than the problem allows.
    TooLong,
}

/// The effect of one plan character.
pub open spec fn walk_step(conns: Seq<Seq<usize>>, st: WalkState, c: char) -> Result<WalkState, PlanError> {
    if c == '[' {
        Ok(
            WalkState {
                room: st.room,
                digits: st.digits,
                writing: true,
                remaining: st.remaining,
                record: st.record,
            },
        )
    } else if c == ']' {
        Ok(
            WalkState {
                room: st.room,
                digits: st.digits,
                writing: false,
                remaining: st.remaining,
                record: st.record,
            },
        )
    } else if st.writing {
        if '0' <= c && '4' > c {
            let d = (c as u32 - 48) as usize;
            Ok(
                WalkState {
                    room: st.room,
                    digits: st.digits.update(st.room as int, d),
                    writing: true,
                    remaining: st.remaining,
                    record: st.record.push(d),
                },
            )
        } else {
            Err(PlanError::Invalid)
        }
    } else if '0' <= c && '6' > c {
        let next = conns[st.room as int][c as u32 - 48];
        if st.remaining == 0 {
            Err(PlanError::TooLong)
        } else {
            Ok(
                WalkState {
                    room: next,
                    digits: st.digits,
                    writing: false,
                    remaining: (st.remaining - 1) as nat,
                    record: st.record.push(st.digits[next as int]),
                },
            )
        }
    } else {
        Err(PlanError::Invalid)
    }
}

/// The state after the first `k` characters of `plan`, or the first refusal.
pub open spec fn walk_prefix(
    conns: Seq<Seq<usize>>,
    start: usize,
    max_moves: nat,
    plan: Seq<char>,
    k: int,
) -> Result<WalkState, PlanError>
    decreases k,
{
    if k <= 0 {
        Ok(
            WalkState {
                room: start,
                digits: Seq::new(conns.len(), |i: int| i as usize),
                writing: false,
                remaining: max_moves,
                record: seq![start],
            },
        )
    } else {
        match walk_prefix(conns, start, max_moves, plan, k - 1) {
            Ok(st) => walk_step(conns, st, plan[k - 1]),
            Err(e) => Err(e),
        }
    }
}

pub proof fn lemma_walk_error_sticks(
    conns: Seq<Seq<usize>>,
    start: usize,
    max_moves: nat,
    plan: Seq<char>,
    k: int,
    m: int,
)
    requires
        0 <= k <= m,
        walk_prefix(conns, start, max_moves, plan, k) is Err,
    ensures
        walk_prefix(conns, start, max_moves, plan, m) == walk_prefix(conns, start, max_moves, plan, k),
    decreases m - k,
{
    if m > k {
        lemma_walk_error_sticks(conns, start, max_moves, plan, k, m - 1);
    }
}

/// The first `k` characters of a plan are walked alike whether the plan is cut
/// after them or not.
proof fn lemma_walk_take(conns: Seq<Seq<usize>>, start: usize, max_moves: nat, plan: Seq<char>, n: int, k: int)
    requires
        0 <= k <= n <= plan.len(),
    ensures
        walk_prefix(conns, start, max_moves, plan.take(n), k) == walk_prefix(conns, start, max_moves, plan, k),
    decreases k,
{
    if k > 0 {
        lemma_walk_take(conns, start, max_moves, plan, n, k - 1);
        assert(plan.take(n)[k - 1] == plan[k - 1]);
    }
}

/// Walking on only adds to the record.
proof fn lemma_walk_record_grows(conns: Seq<Seq<usize>>, start: usize, max_moves: nat, plan: Seq<char>, k: int, m: int)
    requires
        0 <= k <= m,
        walk_prefix(conns, start, max_moves, plan, m) is Ok,
    ensures
        walk_prefix(conns, start, max_moves, plan, k) is Ok,
        ({
            let a = walk_prefix(conns, start, max_moves, plan, k)->Ok_0.record;
            let b = walk_prefix(conns, start, max_moves, plan, m)->Ok_0.record;
            a.len() <= b.len() && b.take(a.len() as int) == a
        }),
    decreases m - k,
{
    if walk_prefix(conns, start, max_moves, plan, k) is Err {
        lemma_walk_error_sticks(conns, start, max_moves, plan, k, m);
    }
    if k < m {
        lemma_walk_record_grows(conns, start, max_moves, plan, k + 1, m);
        let a = walk_prefix(conns, start, max_moves, plan, k)->Ok_0.record;
        let a1 = walk_prefix(conns, start, max_moves, plan, k + 1)->Ok_0.record;
        let b = walk_prefix(conns, start, max_moves, plan, m)->Ok_0.record;
        assert(a1 == a || a1 == a.push(a1.last()));
        assert(b.take(a.len() as int) =~= b.take(a1.len() as int).take(a.len() as int));
        if a1 != a {
            assert(a1.take(a.len() as int) =~= a);
        }
    } else {
        let b = walk_prefix(conns, start, max_moves, plan, m)->Ok_0.record;
        assert(b.take(b.len() as int) =~= b);
    }
}

/// The message with which a plan is refused.
pub open spec fn plan_error_message(e: PlanError, plan: &str) -> Seq<char> {
    match e {
        PlanError::Invalid => "Invalid plan: "@ + plan@,
        PlanError::TooLong => "Plan length is too long: "@ + decimal(plan.len() as nat),
    }
}



/// Whether `connections` has `n` rows of six doors, each leading to one of them.
pub fn map_shape_ok(connections: &Vec<Vec<usize>>, n: usize) -> (res: bool)
    ensures
        res == is_map(rows(connections@), n as nat),
{
    if connections.len() != n {
        return false;
    }
    let mut r: usize = 0;
    while r < n
        invariant
            connections@.len() == n,
            r <= n,
            forall|q: int| 0 <= q < r ==> (#[trigger] rows(connections@)[q]).len() == 6,
            forall|q: int, d: int| 0 <= q < r && 0 <= d < 6 ==> #[trigger] rows(connections@)[q][d] < n,
        decreases n - r,
    {
        proof {
            assert(rows(connections@)[r as int] == connections@[r as int]@);
        }
        if connections[r].len() != 6 {
            return false;
        }
        let mut d: usize = 0;
        while d < 6
            invariant
                connections@.len() == n,
                r < n,
                d <= 6,
                rows(connections@)[r as int] == connections@[r as int]@,
                connections@[r as int]@.len() == 6,
                forall|e: int| 0 <= e < d ==> #[trigger] rows(connections@)[r as int][e] < n,
            decreases 6 - d,
        {
            if connections[r][d] >= n {
                return false;
            }
            d = d + 1;
        }
        r = r + 1;
    }
    true
}

/// The rows of a matrix of door targets, as sequences.
pub open spec fn rows(v: Seq<Vec<usize>>) -> Seq<Seq<usize>> {
    v.map_values(|row: Vec<usize>| row@)
}

/// Room `c` of `conns` can be reached from `start`.
pub open spec fn reachable(conns: Seq<Seq<usize>>, start: usize, c: int) -> bool {
    exists|p: Seq<usize>| is_door_path(p) && #[trigger] walk(conns, start, p) == c
}

/// Every room of `conns` can be reached from `start`.
pub open spec fn all_reachable(conns: Seq<Seq<usize>>, start: usize) -> bool {
    forall|c: int| 0 <= c < conns.len() ==> #[trigger] reachable(conns, start, c)
}

/// Between any two distinct rooms of `conns`, as many doors lead one way as the other.
pub open spec fn balanced(conns: Seq<Seq<usize>>, n: nat) -> bool {
    forall|a: int, b: int|
        0 <= a < n && 0 <= b < n && a != b ==> #[trigger] count_eq(conns[a], b as usize, 6) == #[trigger] count_eq(
            conns[b],
            a as usize,
            6,
        )
}

/// The map of `s` rooms that `conns` folds onto when rooms equal modulo `s` are
/// taken as one: each door of room `r` leads to its target modulo `s`.
pub open spec fn folded(conns: Seq<Seq<usize>>, s: nat) -> Seq<Seq<usize>> {
    Seq::new(s, |r: int| Seq::new(6, |d: int| ((conns[r][d] as int) % (s as int)) as usize))
}

/// `m` sends the rooms of a submitted map (`labels`, `start`, `conns`) onto the rooms
/// of the hidden map (`rooms`, `room0`) so that the starting rooms, the labels
/// (a room's index modulo 4) and every door agree.
pub open spec fn is_embedding(
    rooms: Seq<Seq<usize>>,
    room0: usize,
    labels: Seq<i8>,
    start: usize,
    conns: Seq<Seq<usize>>,
    m: Seq<usize>,
) -> bool {
    &&& m.len() == labels.len()
    &&& forall|i: int| 0 <= i < m.len() ==> #[trigger] m[i] < rooms.len()
    &&& m[start as int] == room0
    &&& forall|i: int| 0 <= i < m.len() ==> (#[trigger] m[i] % 4) as int == labels[i] as int
    &&& forall|i: int, d: int|
        0 <= i < m.len() && 0 <= d < 6 ==> m[#[trigger] conns[i][d] as int] == rooms[m[i] as int][d]
}

/// Each room that `m` has placed is reached from `start` by a walk whose copy in the
/// hidden map, from `room0`, ends where `m` placed it.
pub open spec fn placed_by_walks(
    rooms: Seq<Seq<usize>>,
    room0: usize,
    start: usize,
    conns: Seq<Seq<usize>>,
    m: Seq<usize>,
) -> bool {
    forall|c: int|
        0 <= c < m.len() && #[trigger] m[c] != usize::MAX ==> exists|p: Seq<usize>|
            is_door_path(p) && walk(conns, start, p) == c && #[trigger] walk(rooms, room0, p) == m[c]
}

pub proof fn lemma_walk_push(conns: Seq<Seq<usize>>, start: usize, p: Seq<usize>, d: usize)
    ensures
        walk(conns, start, p.push(d)) == conns[walk(conns, start, p) as int][d as int],
{
    assert(p.push(d).drop_last() =~= p);
}

pub proof fn lemma_walk_in_map(conns: Seq<Seq<usize>>, n: nat, start: usize, p: Seq<usize>)
    requires
        is_map(conns, n),
        start < n,
        is_door_path(p),
    ensures
        walk(conns, start, p) < n,
    decreases p.len(),
{
    if p.len() > 0 {
        lemma_walk_in_map(conns, n, start, p.drop_last());
    }
}

/// An embedding carries every walk of the submitted map onto the same walk of the
/// hidden map.
pub proof fn lemma_embedding_follows_walks(
    rooms: Seq<Seq<usize>>,
    room0: usize,
    labels: Seq<i8>,
    start: usize,
    conns: Seq<Seq<usize>>,
    m: Seq<usize>,
    p: Seq<usize>,
)
    requires
        is_map(conns, labels.len()),
        start < labels.len(),
        is_embedding(rooms, room0, labels, start, conns, m),
        is_door_path(p),
    ensures
        m[walk(conns, start, p) as int] == walk(rooms, room0, p),
    decreases p.len(),
{
    if p.len() > 0 {
        let q = p.drop_last();
        lemma_embedding_follows_walks(rooms, room0, labels, start, conns, m, q);
        lemma_walk_in_map(conns, labels.len(), start, q);
        let c = walk(conns, start, q);
        assert(m[conns[c as int][p.last() as int] as int] == rooms[m[c as int] as int][p.last() as int]);
    }
}

/// When every placed room has all its door targets placed, every walk from a placed
/// `start` ends on a placed room.
pub proof fn lemma_closed_reaches(conns: Seq<Seq<usize>>, start: usize, m: Seq<usize>, p: Seq<usize>)
    requires
        is_map(conns, m.len()),
        start < m.len(),
        m[start as int] != usize::MAX,
        forall|c: int, d: int|
            0 <= c < m.len() && 0 <= d < 6 && #[trigger] m[c] != usize::MAX ==> m[#[trigger] conns[c][d] as int]
                != usize::MAX,
        is_door_path(p),
    ensures
        m[walk(conns, start, p) as int] != usize::MAX,
    decreases p.len(),
{
    if p.len() > 0 {
        let q = p.drop_last();
        lemma_closed_reaches(conns, start, m, q);
        lemma_walk_in_map(conns, m.len(), start, q);
        let c = walk(conns, start, q);
        assert(m[c as int] != usize::MAX);
        assert(m[conns[c as int][p.last() as int] as int] != usize::MAX);
    }
}


/// " a b c ..." for the first `k` entries of `row`.
pub open spec fn cells_text(row: Seq<usize>, k: int) -> Seq<char>
    decreases k,
{
    if k <= 0 {
        Seq::empty()
    } else {
        cells_text(row, k - 1) + " "@ + decimal(row[k - 1] as nat)
    }
}

/// One line per room for the first `k` rooms: a newline, the index, a colon and the door targets.
pub open spec fn rows_text(conns: Seq<Seq<usize>>, k: int) -> Seq<char>
    decreases k,
{
    if k <= 0 {
        Seq::empty()
    } else {
        rows_text(conns, k - 1) + "\n"@ + decimal((k - 1) as nat) + ":"@ + cells_text(
            conns[k - 1],
            conns[k - 1].len() as int,
        )
    }
}

/// The text that shows a map: its starting room, then one line per room.
pub open spec fn map_text(start: usize, conns: Seq<Seq<usize>>) -> Seq<char> {
    "Starting room: "@ + decimal(start as nat) + rows_text(conns, conns.len() as int)
}

/// A hidden map: rooms with six doors each, a starting room, and a limit on the
/// number of moves of one plan.
pub struct Problem {
    starting_room: usize,
    connections: Vec<Vec<usize>>,
    max_plan_length: usize,
}

impl Problem {
    #[verifier::type_invariant]
    spec fn inv(&self) -> bool {
        &&& is_map(self.rooms(), self.connections@.len())
        &&& self.starting_room < self.connections@.len()
        &&& self.connections@.len() < usize::MAX
    }

    /// Door targets of every room.
    pub closed spec fn rooms(&self) -> Seq<Seq<usize>> {
        self.connections@.map_values(|row: Vec<usize>| row@)
    }

    pub closed spec fn start(&self) -> usize {
        self.starting_room
    }

    pub closed spec fn max_moves(&self) -> nat {
        self.max_plan_length as nat
    }

    /// What exploring `plan` gives: the labels seen, or why the plan is refused.
    pub open spec fn explore_result(&self, plan: Seq<char>) -> Result<WalkState, PlanError> {
        walk_prefix(self.rooms(), self.start(), self.max_moves(), plan, plan.len() as int)
    }


    /// Generates a map of `size / ploidy` rooms, repeated `ploidy` times: a random
    /// spanning tree from a random starting room, every other door then joined to a
    /// random open door, and, with several copies, doors rewired across copies. The
    /// draws come from a generator seeded by `seed`, or by a fresh random seed.
    pub fn new(size: usize, max_plan_length: usize, ploidy: usize, seed: Option<u64>) -> (res: Self)
        requires
            0 < ploidy <= size,
            size <= usize::MAX / 8,
        ensures
            res.rooms().len() == (size / ploidy) * ploidy,
            is_map(res.rooms(), res.rooms().len()),
            res.start() < res.rooms().len(),
            res.max_moves() == max_plan_length,
            ploidy == 1 ==> all_reachable(res.rooms(), res.start()),
            ploidy == 1 ==> forall|a: int, b: int|
                0 <= a < res.rooms().len() && 0 <= b < res.rooms().len() && a != b ==> #[trigger] count_eq(
                    res.rooms()[a],
                    b as usize,
                    6,
                ) == #[trigger] count_eq(res.rooms()[b], a as usize, 6),
            forall|r: int, d: int|
                0 <= r < res.rooms().len() && 0 <= d < 6 ==> (#[trigger] res.rooms()[r][d] as int) % ((size / ploidy) as int)
                    == folded(res.rooms(), (size / ploidy) as nat)[r % ((size / ploidy) as int)][d],
            all_reachable(folded(res.rooms(), (size / ploidy) as nat), (res.start() % (size / ploidy)) as usize),
            balanced(folded(res.rooms(), (size / ploidy) as nat), (size / ploidy) as nat),
            balanced(res.rooms(), res.rooms().len()),
    {
        let s = size / ploidy;
        proof {
            assert(s * ploidy <= size && s >= 1) by (nonlinear_arith)
                requires
                    s == size / ploidy,
                    0 < ploidy <= size,
            ;
        }
        let seed = match seed {
            Some(v) => v,
            None => thread_random_range_u64(0, u64::MAX),
        };
        let mut random = seeded_rng(seed);
        let mut starting_room = std_random_range(&mut random, 0, s);
        let (conns, remain, available) = connect_tree(s, &mut random, starting_room);
        let ghost tree = crate::generate::slot_rows(conns@);
        let mut connections = fill_doors(conns, remain, available, s, &mut random);
        proof {
            assert(is_map(rows(connections@), s as nat));
            let full = rows(connections@);
            assert forall|c: int| 0 <= c < s implies #[trigger] reachable(full, starting_room, c) by {
                assert(crate::generate::slot_reaches(tree, starting_room, c as usize));
                let p = choose|p: Seq<usize>| is_door_path(p) && #[trigger] crate::generate::slot_walk(tree, starting_room, p) == Some(
                    c as usize,
                );
                assert forall|q: int, e: int| 0 <= q < s && 0 <= e < 6 && (#[trigger] tree[q][e]) is Some implies full[q][e]
                    == tree[q][e]->0 by {
                    assert(full[q] == connections@[q]@);
                }
                crate::generate::lemma_slot_walk_full(tree, full, s as nat, starting_room, p);
            }
            assert forall|a: int, b: int|
                0 <= a < s && 0 <= b < s && a != b implies #[trigger] count_eq(full[a], b as usize, 6) == #[trigger] count_eq(
                full[b],
                a as usize,
                6,
            ) by {
                assert(full[a] == connections@[a]@);
                assert(full[b] == connections@[b]@);
            }
        }
        let ghost full = rows(connections@);
        let ghost start0 = starting_room;
        if ploidy > 1 {
            let k = std_random_range(&mut random, 0, ploidy);
            proof {
                lemma_copy_index(k as int, starting_room as int, s as int, ploidy as int);
            }
            starting_room = starting_room + k * s;
            connections = stack_copies(connections, s, ploidy);
            proof {
                assert forall|r: int, d: int|
                    0 <= r < s && 0 <= d < 6 implies #[trigger] rows(connections@)[r][d] < s || (
                    rows(connections@)[r][d] as int) % (s as int) < r by {
                    assert(rows(connections@)[0 * s + r][d] == rows(connections@)[r][d]);
                }
            }
            let ghost stacked = rows(connections@);
            proof {
                assert(balanced(full, s as nat));
                lemma_stack_balanced(full, stacked, s as int, ploidy as int);
            }
            connections = mix_copies(connections, s, ploidy, &mut random);
            proof {
                lemma_copies_fold(full, stacked, rows(connections@), s as int, ploidy as int);
                assert(starting_room as int % (s as int) == start0) by {
                    lemma_mod_multiples_vanish(k as int, start0 as int, s as int);
                    lemma_small_mod(start0 as nat, s as nat);
                    assert(k * s == s * k) by (nonlinear_arith);
                }
            }
        } else {
            proof {
                assert(s == s * ploidy) by (nonlinear_arith)
                    requires
                        ploidy == 1,
                ;
                lemma_small_mod(start0 as nat, s as nat);
                assert forall|r: int, d: int| 0 <= r < s * ploidy && 0 <= d < 6 implies (#[trigger] rows(connections@)[r][d]
                    as int) % (s as int) == full[r % (s as int)][d] by {
                    lemma_small_mod(r as nat, s as nat);
                    lemma_small_mod(full[r][d] as nat, s as nat);
                }
            }
        }
        proof {
            let fin = rows(connections@);
            assert(folded(fin, s as nat) =~= full) by {
                assert forall|r: int| 0 <= r < s implies #[trigger] folded(fin, s as nat)[r] =~= full[r] by {
                    lemma_small_mod(r as nat, s as nat);
                    assert(s <= s * ploidy) by (nonlinear_arith)
                        requires
                            0 < ploidy,
                    ;
                    assert forall|d: int| 0 <= d < 6 implies #[trigger] folded(fin, s as nat)[r][d] == full[r][d] by {
                        assert((fin[r][d] as int) % (s as int) == full[r % (s as int)][d]);
                    }
                }
            }
        }
        let res = Problem { starting_room, connections, max_plan_length };
        proof {
            if ploidy == 1 {
                assert(s * ploidy == s) by (nonlinear_arith)
                    requires
                        ploidy == 1,
                ;
            }
            assert(res.rooms() == rows(res.connections@));
        }
        res
    }

    /// Follows `plan` from the starting room. A digit below 6 takes that door; a
    /// digit below 4 between `[` and `]` rewrites the label of the current room.
    /// Every room starts labelled with its own index. Returns the labels seen: the
    /// first room's, then one per character that moved or rewrote.
    pub fn explore(&self, plan: &str) -> (res: Result<Vec<usize>, String>)
        ensures
            match self.explore_result(plan@) {
                Ok(st) => res matches Ok(v) && v@ == st.record,
                Err(e) => res matches Err(m) && m@ == plan_error_message(e, plan),
            },
    {
        proof {
            use_type_invariant(self);
        }
        let n = self.connections.len();
        let mut room_digits: Vec<usize> = Vec::new();
        let mut i: usize = 0;
        while i < n
            invariant
                i <= n,
                room_digits@ == Seq::new(i as nat, |j: int| j as usize),
            decreases n - i,
        {
            room_digits.push(i);
            i = i + 1;
            proof {
                assert(room_digits@ =~= Seq::new(i as nat, |j: int| j as usize));
            }
        }
        let mut result: Vec<usize> = Vec::new();
        let mut current_room = self.starting_room;
        result.push(room_digits[current_room]);
        let mut remaining_plan = self.max_plan_length;
        let mut writing_mode = false;
        let ghost conns = self.rooms();
        proof {
            assert(result@ =~= seq![self.start()]);
        }
        for c in it: plan.chars()
            invariant
                conns == self.rooms(),
                is_map(conns, n as nat),
                n == conns.len(),
                it.seq() == plan@,
                current_room < n,
                room_digits@.len() == n,
                walk_prefix(conns, self.start(), self.max_moves(), plan@, it.index() as int) == Ok::<
                    WalkState,
                    PlanError,
                >(
                    WalkState {
                        room: current_room,
                        digits: room_digits@,
                        writing: writing_mode,
                        remaining: remaining_plan as nat,
                        record: result@,
                    },
                ),
        {
            let ghost k = it.index() as int;
            let ghost st = WalkState {
                room: current_room,
                digits: room_digits@,
                writing: writing_mode,
                remaining: remaining_plan as nat,
                record: result@,
            };
            assert(c == plan@[k]);
            if c == '[' {
                writing_mode = true;
            } else if c == ']' {
                writing_mode = false;
            } else if writing_mode {
                if !('0' <= c && '4' > c) {
                    proof {
                        lemma_walk_error_sticks(conns, self.start(), self.max_moves(), plan@, k + 1, plan@.len() as int);
                    }
                    let mut msg = String::from_str("Invalid plan: ");
                    msg.append(plan);
                    return Err(msg);
                }
                let d = (c as u32 - 48) as usize;
                room_digits.set(current_room, d);
                result.push(d);
            } else {
                if !('0' <= c && '6' > c) {
                    proof {
                        lemma_walk_error_sticks(conns, self.start(), self.max_moves(), plan@, k + 1, plan@.len() as int);
                    }
                    let mut msg = String::from_str("Invalid plan: ");
                    msg.append(plan);
                    return Err(msg);
                }
                let door = (c as u32 - 48) as usize;
                current_room = self.connections[current_room][door];
                result.push(room_digits[current_room]);
                if remaining_plan == 0 {
                    proof {
                        lemma_walk_error_sticks(conns, self.start(), self.max_moves(), plan@, k + 1, plan@.len() as int);
                    }
                    let mut msg = String::from_str("Plan length is too long: ");
                    push_decimal(&mut msg, plan.len());
                    return Err(msg);
                }
                remaining_plan = remaining_plan - 1;
            }
        }
        Ok(result)
    }



    /// The map as text: "Starting room: s", then for each room a line "i: t0 t1 ...".
    pub fn pretty_print(&self) -> (res: String)
        ensures
            res@ == map_text(self.start(), self.rooms()),
    {
        let mut result = String::from_str("Starting room: ");
        push_decimal(&mut result, self.starting_room);
        let ghost head = result@;
        let mut i: usize = 0;
        while i < self.connections.len()
            invariant
                i <= self.connections@.len(),
                head == "Starting room: "@ + decimal(self.start() as nat),
                result@ == head + rows_text(self.rooms(), i as int),
            decreases self.connections@.len() - i,
        {
            result.append("\n");
            push_decimal(&mut result, i);
            result.append(":");
            let row = &self.connections[i];
            let ghost line_head = result@;
            let mut j: usize = 0;
            while j < row.len()
                invariant
                    j <= row@.len(),
                    result@ == line_head + cells_text(row@, j as int),
                decreases row@.len() - j,
            {
                result.append(" ");
                push_decimal(&mut result, row[j]);
                proof {
                    assert(cells_text(row@, j + 1) == cells_text(row@, j as int) + " "@ + decimal(row@[j as int] as nat));
                }
                j = j + 1;
            }
            proof {
                assert(self.rooms()[i as int] == row@);
                assert(rows_text(self.rooms(), i + 1) == rows_text(self.rooms(), i as int) + "\n"@ + decimal(i as nat) + ":"@ + cells_text(row@, row@.len() as int));
            }
            i = i + 1;
        }
        result
    }

    /// An embedding agrees with every placement found by walking both maps in step.
    proof fn lemma_no_embedding(
        &self,
        labels: Seq<i8>,
        start: usize,
        conns: Seq<Seq<usize>>,
        mp: Seq<usize>,
        i: int,
        d: int,
    )
        requires
            is_map(conns, labels.len()),
            is_map(self.rooms(), labels.len()),
            start < labels.len(),
            mp.len() == labels.len(),
            placed_by_walks(self.rooms(), self.start(), start, conns, mp),
            0 <= i < labels.len(),
            mp[i] != usize::MAX,
            -1 <= d < 6,
            d == -1 ==> (mp[i] % 4) as int != labels[i] as int,
            0 <= d ==> mp[conns[i][d] as int] != usize::MAX && mp[conns[i][d] as int] != self.rooms()[mp[i] as int][d],
        ensures
            !exists|m: Seq<usize>| is_embedding(self.rooms(), self.start(), labels, start, conns, m),
    {
        if exists|m: Seq<usize>| is_embedding(self.rooms(), self.start(), labels, start, conns, m) {
            let m = choose|m: Seq<usize>| is_embedding(self.rooms(), self.start(), labels, start, conns, m);
            let p = choose|p: Seq<usize>|
                is_door_path(p) && walk(conns, start, p) == i && #[trigger] walk(self.rooms(), self.start(), p) == mp[i];
            lemma_embedding_follows_walks(self.rooms(), self.start(), labels, start, conns, m, p);
            assert(m[i] == mp[i]);
            if d >= 0 {
                let t = conns[i][d] as int;
                let q = choose|q: Seq<usize>|
                    is_door_path(q) && walk(conns, start, q) == t && #[trigger] walk(self.rooms(), self.start(), q) == mp[t];
                lemma_embedding_follows_walks(self.rooms(), self.start(), labels, start, conns, m, q);
                assert(m[t] == mp[t]);
                assert(m[conns[i][d] as int] == self.rooms()[m[i] as int][d]);
            }
        }
    }

    /// Places the submitted room `current_room` (and, depth first, every room reached
    /// from it) on `guessed_room` of the hidden map, walking both maps in step.
    fn guess_visit(
        &self,
        connections: &Vec<Vec<usize>>,
        current_room: usize,
        guessed_room: usize,
        mapping: &mut Vec<usize>,
        Ghost(start): Ghost<usize>,
    )
        requires
            is_map(rows(connections@), self.rooms().len()),
            start < self.rooms().len(),
            old(mapping)@.len() == self.rooms().len(),
            guessed_room < self.rooms().len(),
            current_room < self.rooms().len(),
            exists|p: Seq<usize>|
                is_door_path(p) && walk(rows(connections@), start, p) == current_room && #[trigger] walk(
                    self.rooms(),
                    self.start(),
                    p,
                ) == guessed_room,
            forall|c: int| 0 <= c < old(mapping)@.len() ==> #[trigger] old(mapping)@[c] == usize::MAX || old(mapping)@[c] < self.rooms().len(),
            placed_by_walks(self.rooms(), self.start(), start, rows(connections@), old(mapping)@),
        ensures
            final(mapping)@.len() == old(mapping)@.len(),
            forall|c: int| 0 <= c < final(mapping)@.len() ==> #[trigger] final(mapping)@[c] == usize::MAX || final(mapping)@[c] < self.rooms().len(),
            placed_by_walks(self.rooms(), self.start(), start, rows(connections@), final(mapping)@),
            forall|c: int|
                0 <= c < old(mapping)@.len() && old(mapping)@[c] != usize::MAX ==> #[trigger] final(mapping)@[c]
                    == old(mapping)@[c],
            final(mapping)@[current_room as int] != usize::MAX,
            old(mapping)@[current_room as int] == usize::MAX ==> final(mapping)@[current_room as int] == guessed_room,
            forall|c: int, d: int|
                0 <= c < old(mapping)@.len() && 0 <= d < 6 && old(mapping)@[c] == usize::MAX
                    && #[trigger] final(mapping)@[c] != usize::MAX ==> final(mapping)@[#[trigger] rows(connections@)[c][d] as int]
                    != usize::MAX,
            count_eq(final(mapping)@, usize::MAX, final(mapping)@.len() as int) <= count_eq(
                old(mapping)@,
                usize::MAX,
                old(mapping)@.len() as int,
            ),
        decreases count_eq(old(mapping)@, usize::MAX, old(mapping)@.len() as int),
    {
        proof {
            use_type_invariant(self);
        }
        let ghost conns = rows(connections@);
        let ghost n = self.rooms().len();
        if current_room >= connections.len() {
            return;
        }
        if mapping[current_room] != usize::MAX {
            return;
        }
        let ghost m0 = mapping@;
        mapping.set(current_room, guessed_room);
        proof {
            lemma_count_update(m0, current_room as int, guessed_room, usize::MAX, n as int);
            let p = choose|p: Seq<usize>|
                is_door_path(p) && walk(conns, start, p) == current_room && #[trigger] walk(
                    self.rooms(),
                    self.start(),
                    p,
                ) == guessed_room;
            assert forall|c: int|
                0 <= c < mapping@.len() && #[trigger] mapping@[c] != usize::MAX implies exists|q: Seq<usize>|
                    is_door_path(q) && walk(conns, start, q) == c && #[trigger] walk(self.rooms(), self.start(), q)
                        == mapping@[c] by {
                if c == current_room {
                    assert(walk(self.rooms(), self.start(), p) == mapping@[c]);
                } else {
                    assert(m0[c] != usize::MAX);
                }
            }
        }
        let ghost m1 = mapping@;
        let mut i: usize = 0;
        while i < 6
            invariant
                conns == rows(connections@),
                is_map(conns, n),
                n == self.rooms().len(),
                is_map(self.rooms(), n),
                start < n,
                current_room < n,
                guessed_room < n,
                i <= 6,
                mapping@.len() == n,
                m0.len() == n,
                m0 == old(mapping)@,
                n < usize::MAX,
                m0[current_room as int] == usize::MAX,
                mapping@[current_room as int] == guessed_room,
                exists|p: Seq<usize>|
                    is_door_path(p) && walk(conns, start, p) == current_room && #[trigger] walk(
                        self.rooms(),
                        self.start(),
                        p,
                    ) == guessed_room,
                forall|c: int| 0 <= c < n ==> #[trigger] mapping@[c] == usize::MAX || mapping@[c] < n,
                placed_by_walks(self.rooms(), self.start(), start, conns, mapping@),
                forall|c: int| 0 <= c < n && m0[c] != usize::MAX ==> #[trigger] mapping@[c] == m0[c],
                forall|c: int, d: int|
                    0 <= c < n && 0 <= d < 6 && c != current_room && m0[c] == usize::MAX
                        && #[trigger] mapping@[c] != usize::MAX ==> mapping@[#[trigger] conns[c][d] as int]
                        != usize::MAX,
                forall|d: int| 0 <= d < i ==> mapping@[#[trigger] conns[current_room as int][d] as int] != usize::MAX,
                count_eq(mapping@, usize::MAX, n as int) < count_eq(m0, usize::MAX, n as int),
            decreases 6 - i,
        {
            proof {
                assert(conns[current_room as int] == connections@[current_room as int]@);
                assert(self.rooms()[guessed_room as int] == self.connections@[guessed_room as int]@);
            }
            let next_room = connections[current_room][i];
            let next_guess = self.connections[guessed_room][i];
            proof {
                assert(next_room == conns[current_room as int][i as int]);
                assert(next_guess == self.rooms()[guessed_room as int][i as int]);
                let p = choose|p: Seq<usize>|
                    is_door_path(p) && walk(conns, start, p) == current_room && #[trigger] walk(
                        self.rooms(),
                        self.start(),
                        p,
                    ) == guessed_room;
                lemma_walk_push(conns, start, p, i);
                lemma_walk_push(self.rooms(), self.start(), p, i);
                let q = p.push(i);
                assert(is_door_path(q));
                assert(walk(self.rooms(), self.start(), q) == next_guess);
            }
            let ghost before = mapping@;
            self.guess_visit(connections, next_room, next_guess, mapping, Ghost(start));
            proof {
                assert(mapping@[current_room as int] == before[current_room as int]);
                assert forall|c: int, d: int|
                    0 <= c < n && 0 <= d < 6 && c != current_room && m0[c] == usize::MAX
                        && #[trigger] mapping@[c] != usize::MAX implies mapping@[#[trigger] conns[c][d] as int]
                        != usize::MAX by {
                    if before[c] != usize::MAX {
                        let t = conns[c][d] as int;
                        assert(before[t] != usize::MAX);
                    }
                }
                assert forall|d: int| 0 <= d < i + 1 implies mapping@[#[trigger] conns[current_room as int][d] as int] != usize::MAX by {
                    if d < i {
                        let t = conns[current_room as int][d] as int;
                        assert(before[t] != usize::MAX);
                    }
                }
            }
            i = i + 1;
        }
        proof {
            assert forall|c: int, d: int|
                0 <= c < n && 0 <= d < 6 && m0[c] == usize::MAX
                    && #[trigger] mapping@[c] != usize::MAX implies mapping@[#[trigger] conns[c][d] as int]
                    != usize::MAX by {
                if c == current_room {
                    assert(mapping@[conns[current_room as int][d] as int] != usize::MAX);
                }
            }
        }
    }

    /// Whether the submitted map (`rooms` as labels, `starting_room`, door targets
    /// `connections`) describes the hidden map: it has as many rooms, each with six
    /// doors leading to its rooms, every room can
    /// be reached from its start, and its rooms can be placed on the hidden rooms so
    /// that start, labels and doors agree.
    pub fn guess(&self, rooms: Vec<i8>, starting_room: usize, connections: Vec<Vec<usize>>) -> (res: Result<
        bool,
        String,
    >)
        ensures
            res == Ok::<bool, String>(
                {
                    &&& rooms@.len() == self.rooms().len()
                    &&& starting_room < rooms@.len()
                    &&& is_map(rows(connections@), rooms@.len())
                    &&& all_reachable(rows(connections@), starting_room)
                    &&& exists|m: Seq<usize>|
                        is_embedding(self.rooms(), self.start(), rooms@, starting_room, rows(connections@), m)
                },
            ),
    {
        proof {
            use_type_invariant(self);
        }
        let ghost conns = rows(connections@);
        if rooms.len() != self.connections.len() || starting_room >= rooms.len() || !map_shape_ok(&connections, rooms.len()) {
            return Ok(false);
        }
        let n = rooms.len();
        let ghost sn = self.rooms().len();
        let mut mapping: Vec<usize> = Vec::new();
        let mut i: usize = 0;
        while i < n
            invariant
                i <= n,
                mapping@.len() == i,
                forall|c: int| 0 <= c < i ==> #[trigger] mapping@[c] == usize::MAX,
            decreases n - i,
        {
            mapping.push(usize::MAX);
            i = i + 1;
        }
        proof {
            assert(walk(conns, starting_room, Seq::<usize>::empty()) == starting_room);
            assert(walk(self.rooms(), self.start(), Seq::<usize>::empty()) == self.start());
            assert(is_door_path(Seq::<usize>::empty()));
        }
        self.guess_visit(&connections, starting_room, self.starting_room, &mut mapping, Ghost(starting_room));
        let ghost mp = mapping@;
        proof {
            assert forall|c: int, d: int|
                0 <= c < n && 0 <= d < 6 && #[trigger] mp[c] != usize::MAX implies mp[#[trigger] conns[c][d] as int]
                    != usize::MAX by {
            }
        }
        let mut i: usize = 0;
        while i < n
            invariant
                i <= n,
                n == rooms@.len(),
                n == sn,
                mapping@ == mp,
                mp.len() == n,
                conns == rows(connections@),
                is_map(conns, n as nat),
                is_map(self.rooms(), n as nat),
                starting_room < n,
                mp[starting_room as int] != usize::MAX,
                placed_by_walks(self.rooms(), self.start(), starting_room, conns, mp),
                forall|c: int| 0 <= c < n ==> #[trigger] mp[c] == usize::MAX || mp[c] < n,
                forall|c: int, d: int|
                    0 <= c < n && 0 <= d < 6 && #[trigger] mp[c] != usize::MAX ==> mp[#[trigger] conns[c][d] as int]
                        != usize::MAX,
                forall|c: int| 0 <= c < i ==> #[trigger] mp[c] != usize::MAX,
                forall|c: int| 0 <= c < i ==> (#[trigger] mp[c] % 4) as int == rooms@[c] as int,
            decreases n - i,
        {
            let v = mapping[i];
            if v == usize::MAX {
                proof {
                    assert forall|p: Seq<usize>| is_door_path(p) implies walk(conns, starting_room, p) != i by {
                        lemma_closed_reaches(conns, starting_room, mp, p);
                    }
                    assert(!reachable(conns, starting_room, i as int));
                }
                return Ok(false);
            }
            let label = rooms[i];
            if label < 0 || v % 4 != label as usize {
                proof {
                    self.lemma_no_embedding(rooms@, starting_room, conns, mp, i as int, -1);
                }
                return Ok(false);
            }
            i = i + 1;
        }
        let mut i: usize = 0;
        while i < n
            invariant
                i <= n,
                n == rooms@.len(),
                n == sn,
                conns == rows(connections@),
                is_map(conns, n as nat),
                is_map(self.rooms(), n as nat),
                mapping@ == mp,
                mp.len() == n,
                starting_room < n,
                placed_by_walks(self.rooms(), self.start(), starting_room, conns, mp),
                forall|c: int| 0 <= c < n ==> #[trigger] mp[c] != usize::MAX,
                forall|c: int| 0 <= c < n ==> #[trigger] mp[c] < n,
                forall|c: int, d: int|
                    0 <= c < i && 0 <= d < 6 ==> mp[#[trigger] conns[c][d] as int] == self.rooms()[mp[c] as int][d],
            decreases n - i,
        {
            let mut j: usize = 0;
            while j < 6
                invariant
                    i < n,
                    j <= 6,
                    n == rooms@.len(),
                    n == sn,
                    conns == rows(connections@),
                    is_map(conns, n as nat),
                    is_map(self.rooms(), n as nat),
                    mapping@ == mp,
                    mp.len() == n,
                    starting_room < n,
                    placed_by_walks(self.rooms(), self.start(), starting_room, conns, mp),
                    forall|c: int| 0 <= c < n ==> #[trigger] mp[c] != usize::MAX,
                    forall|c: int| 0 <= c < n ==> #[trigger] mp[c] < n,
                    forall|c: int, d: int|
                        0 <= c < i && 0 <= d < 6 ==> mp[#[trigger] conns[c][d] as int] == self.rooms()[mp[c] as int][d],
                    forall|d: int| 0 <= d < j ==> mp[#[trigger] conns[i as int][d] as int] == self.rooms()[mp[i as int] as int][d],
                decreases 6 - j,
            {
                proof {
                    assert(conns[i as int] == connections@[i as int]@);
                    assert(self.rooms()[mp[i as int] as int] == self.connections@[mp[i as int] as int]@);
                }
                let c = connections[i][j];
                if mapping[c] != self.connections[mapping[i]][j] {
                    proof {
                        self.lemma_no_embedding(rooms@, starting_room, conns, mp, i as int, j as int);
                    }
                    return Ok(false);
                }
                j = j + 1;
            }
            i = i + 1;
        }
        proof {
            assert(is_embedding(self.rooms(), self.start(), rooms@, starting_room, conns, mp));
            assert forall|c: int| 0 <= c < conns.len() implies #[trigger] reachable(conns, starting_room, c) by {
                assert(mp[c] != usize::MAX);
                let p = choose|p: Seq<usize>|
                    is_door_path(p) && walk(conns, starting_room, p) == c && #[trigger] walk(self.rooms(), self.start(), p) == mp[c];
            }
        }
        Ok(true)
    }
}

/// Exploring a prefix of a plan that the problem accepts is accepted too, and
/// sees the beginning of what the whole plan sees.
pub proof fn lemma_explore_prefix(p: Problem, plan: Seq<char>, k: int)
    requires
        0 <= k <= plan.len(),
        p.explore_result(plan) is Ok,
    ensures
        p.explore_result(plan.take(k)) is Ok,
        ({
            let a = p.explore_result(plan.take(k))->Ok_0.record;
            let b = p.explore_result(plan)->Ok_0.record;
            a.len() <= b.len() && b.take(a.len() as int) == a
        }),
{
    lemma_walk_take(p.rooms(), p.start(), p.max_moves(), plan, k, k);
    lemma_walk_record_grows(p.rooms(), p.start(), p.max_moves(), plan, k, plan.len() as int);
}

/// Every room reached by an accepted prefix is a room of the map, and there is one
/// label per room.
proof fn lemma_walk_in_bounds(conns: Seq<Seq<usize>>, start: usize, max_moves: nat, plan: Seq<char>, k: int)
    requires
        is_map(conns, conns.len()),
        start < conns.len(),
        walk_prefix(conns, start, max_moves, plan, k) is Ok,
    ensures
        walk_prefix(conns, start, max_moves, plan, k)->Ok_0.room < conns.len(),
        walk_prefix(conns, start, max_moves, plan, k)->Ok_0.digits.len() == conns.len(),
    decreases k,
{
    if k > 0 {
        if walk_prefix(conns, start, max_moves, plan, k - 1) is Err {
            lemma_walk_error_sticks(conns, start, max_moves, plan, k - 1, k);
        }
        lemma_walk_in_bounds(conns, start, max_moves, plan, k - 1);
        let st = walk_prefix(conns, start, max_moves, plan, k - 1)->Ok_0;
        let c = plan[k - 1];
        if c != '[' && c != ']' && !st.writing && '0' <= c && '6' > c {
            assert(conns[st.room as int].len() == 6);
            assert(conns[st.room as int][c as u32 - 48] < conns.len());
        }
    }
}

/// The doors that the characters of a move-only plan open.
pub open spec fn plan_doors(path: Seq<char>) -> Seq<usize> {
    path.map_values(|c: char| (c as u32 - 48) as usize)
}

/// Moves that follow a written label: the labels stay as they were, and the walk
/// stands where the doors lead.
proof fn lemma_moves_after_label(
    conns: Seq<Seq<usize>>,
    start: usize,
    max_moves: nat,
    full: Seq<char>,
    base: int,
    path: Seq<char>,
    j: int,
)
    requires
        0 <= base,
        0 <= j <= path.len(),
        full.len() == base + path.len(),
        forall|i: int| 0 <= i < path.len() ==> full[base + i] == path[i],
        forall|i: int| 0 <= i < path.len() ==> '0' <= #[trigger] path[i] && '6' > path[i],
        walk_prefix(conns, start, max_moves, full, base) is Ok,
        !walk_prefix(conns, start, max_moves, full, base)->Ok_0.writing,
        walk_prefix(conns, start, max_moves, full, full.len() as int) is Ok,
    ensures
        walk_prefix(conns, start, max_moves, full, base + j) is Ok,
        ({
            let s0 = walk_prefix(conns, start, max_moves, full, base)->Ok_0;
            let sj = walk_prefix(conns, start, max_moves, full, base + j)->Ok_0;
            &&& sj.digits == s0.digits
            &&& !sj.writing
            &&& sj.room == walk(conns, s0.room, plan_doors(path.take(j)))
            &&& j > 0 ==> sj.record.last() == s0.digits[sj.room as int]
        }),
    decreases j,
{
    if walk_prefix(conns, start, max_moves, full, base + j) is Err {
        lemma_walk_error_sticks(conns, start, max_moves, full, base + j, full.len() as int);
    }
    if j == 0 {
        assert(plan_doors(path.take(0)) =~= Seq::<usize>::empty());
    } else {
        lemma_moves_after_label(conns, start, max_moves, full, base, path, j - 1);
        let c = path[j - 1];
        assert(full[base + j - 1] == c);
        assert('0' <= c && '6' > c);
        assert(plan_doors(path.take(j)).drop_last() =~= plan_doors(path.take(j - 1)));
        assert(plan_doors(path.take(j)).last() == (c as u32 - 48) as usize);
    }
}

/// A label written in brackets stays on its room: once a digit `d` below 4 has been
/// written in the room where the plan stands, any run of moves that comes back to
/// that room sees `d` there, whatever `d` is and whatever label the room had.
pub proof fn lemma_written_label_is_seen_again(p: Problem, plan: Seq<char>, d: nat, path: Seq<char>)
    requires
        is_map(p.rooms(), p.rooms().len()),
        p.start() < p.rooms().len(),
        d < 4,
        path.len() >= 1,
        forall|i: int| 0 <= i < path.len() ==> '0' <= #[trigger] path[i] && '6' > path[i],
        p.explore_result(plan) is Ok,
        !p.explore_result(plan)->Ok_0.writing,
        p.explore_result(plan + seq!['[', digit_char(d), ']'] + path) is Ok,
        walk(p.rooms(), p.explore_result(plan)->Ok_0.room, plan_doors(path)) == p.explore_result(plan)->Ok_0.room,
    ensures
        p.explore_result(plan + seq!['[', digit_char(d), ']'] + path)->Ok_0.record.last() == d,
{
    let conns = p.rooms();
    let s = p.start();
    let mm = p.max_moves();
    let full = plan + seq!['[', digit_char(d), ']'] + path;
    let n0 = plan.len() as int;
    assert(full.take(n0) =~= plan);
    lemma_walk_take(conns, s, mm, full, n0, n0);
    let st0 = p.explore_result(plan)->Ok_0;
    assert(walk_prefix(conns, s, mm, full, n0) == Ok::<WalkState, PlanError>(st0));
    lemma_walk_in_bounds(conns, s, mm, plan, n0);
    assert(full[n0] == '[');
    assert(full[n0 + 1] == digit_char(d));
    assert(full[n0 + 2] == ']');
    let c = digit_char(d);
    assert(c as u32 == 48 + d);
    let st3 = WalkState {
        room: st0.room,
        digits: st0.digits.update(st0.room as int, d as usize),
        writing: false,
        remaining: st0.remaining,
        record: st0.record.push(d as usize),
    };
    let st1 = WalkState { writing: true, ..st0 };
    assert(walk_prefix(conns, s, mm, full, n0 + 1) == Ok::<WalkState, PlanError>(st1));
    assert('0' <= c && '4' > c);
    assert((c as u32 - 48) as usize == d as usize);
    let st2 = WalkState { writing: true, ..st3 };
    assert(walk_prefix(conns, s, mm, full, n0 + 2) == Ok::<WalkState, PlanError>(st2));
    assert(walk_prefix(conns, s, mm, full, n0 + 3) == Ok::<WalkState, PlanError>(st3));
    assert forall|i: int| 0 <= i < path.len() implies full[n0 + 3 + i] == path[i] by {
        assert(full[n0 + 3 + i] == path[i]);
    }
    lemma_moves_after_label(conns, s, mm, full, n0 + 3, path, path.len() as int);
    assert(path.take(path.len() as int) =~= path);
    assert(full.len() == n0 + 3 + path.len());
}

} // verus!

