use vstd::prelude::*;
use vstd::string::*;

use crate::pairing::{all_pairs, guess_map, pairing_error, rooms_matched, row_matched, unmatched};
use crate::problem::rows;
use crate::problem_definition::ProblemDefinition;
use crate::random::thread_random_range;
use crate::text::{digit_char, digit_str};
use crate::types::GuessRequestMap;
use crate::union_find::NONE;
use crate::walker::is_partial_graph;

verus! {

/// The requests of the survey round over rooms `u0..u1`: the starting room itself
/// (`None`) in the first round, then door `j % 6` of room `u0 + j / 6` for each `j`.
pub open spec fn round(u0: nat, u1: nat) -> Seq<Option<(usize, usize)>> {
    (if u0 == 0 {
        seq![None]
    } else {
        Seq::empty()
    }) + Seq::new(((u1 - u0) * 6) as nat, |j: int| Some(((u0 + j / 6) as usize, (j % 6) as usize)))
}

/// The plan sent for a request: the prefix, the path to the room and the door
/// (none for the starting room), then the suffix whose labels identify a room.
pub open spec fn request_plan(
    prefix: Seq<char>,
    paths: Seq<Seq<char>>,
    req: Option<(usize, usize)>,
    suffix: Seq<char>,
) -> Seq<char> {
    match req {
        None => prefix + suffix,
        Some((r, d)) => prefix + paths[r as int] + seq![digit_char(d as nat)] + suffix,
    }
}

/// The last `l + 1` labels of a result: the label of the room reached and those
/// seen along the suffix, which stand for that room.
pub open spec fn room_hash(res: Seq<i8>, l: nat) -> Seq<i8> {
    res.subrange(res.len() - l - 1, res.len() as int)
}

/// `i` is the first room found with hash `h`.
pub open spec fn is_first(hashes: Seq<Seq<i8>>, h: Seq<i8>, i: int) -> bool {
    &&& 0 <= i < hashes.len()
    &&& hashes[i] == h
    &&& forall|q: int| 0 <= q < i ==> hashes[q] != h
}

/// Door `d` of room `r` leads to room `id`; the row of `r` is added, all unknown,
/// when `r` has none yet.
pub open spec fn set_door(conns: Seq<Seq<usize>>, r: usize, d: usize, id: usize) -> Seq<Seq<usize>> {
    let c = if conns.len() <= r {
        conns.push(seq![NONE, NONE, NONE, NONE, NONE, NONE])
    } else {
        conns
    };
    c.update(r as int, c[r as int].update(d as int, id))
}

/// What the survey knows: the hash, the path and the label of each room found, and
/// the door targets of the rooms surveyed.
pub type SurveyState = (Seq<Seq<i8>>, Seq<Seq<char>>, Seq<i8>, Seq<Seq<usize>>);

/// The survey after the result `res` of request `req`, with suffixes of `l` doors;
/// `None` where the prefix rewrote the starting room's label to the label it had,
/// which leaves that room indistinguishable.
pub open spec fn survey_step(st: SurveyState, req: Option<(usize, usize)>, res: Seq<i8>, l: nat, rewritable: bool) -> Option<
    SurveyState,
> {
    let (hashes, paths, digits, conns) = st;
    let h = room_hash(res, l);
    let digit = res[res.len() - l - 1];
    match req {
        None => if rewritable && digit == res[0] {
            None
        } else {
            Some((hashes.push(h), paths, digits.push(res[0]), conns))
        },
        Some((r, d)) => if exists|i: int| is_first(hashes, h, i) {
            let id = choose|i: int| is_first(hashes, h, i);
            Some((hashes, paths, digits, set_door(conns, r, d, id as usize)))
        } else {
            Some(
                (
                    hashes.push(h),
                    paths.push(paths[r as int] + seq![digit_char(d as nat)]),
                    digits.push(digit),
                    set_door(conns, r, d, hashes.len() as usize),
                ),
            )
        },
    }
}

/// The survey after the first `i` results of a round.
pub open spec fn survey_fold(
    st: SurveyState,
    reqs: Seq<Option<(usize, usize)>>,
    results: Seq<Vec<i8>>,
    l: nat,
    rewritable: bool,
    i: int,
) -> Option<SurveyState>
    decreases i,
{
    if i <= 0 {
        Some(st)
    } else {
        match survey_fold(st, reqs, results, l, rewritable, i - 1) {
            None => None,
            Some(s) => survey_step(s, reqs[i - 1], results[i - 1]@, l, rewritable),
        }
    }
}

/// A survey of a problem's map room by room: the starting room and then, round after
/// round, every door of each room found in the previous round. A room is told apart
/// by the labels seen along one fixed random suffix of plan that follows it.
pub struct BruteForce {
    definition: ProblemDefinition,
    prefix: String,
    suffix: String,
    suffix_length: usize,
    hashes: Vec<Vec<i8>>,
    room_paths: Vec<String>,
    room_digits: Vec<i8>,
    connections: Vec<Vec<usize>>,
    unprocessed: usize,
    round_start: usize,
    requests: Vec<Option<(usize, usize)>>,
}

/// A step of the survey keeps the labels of the rooms found before it, and
/// adds at most one.
proof fn lemma_step_keeps_labels(st: SurveyState, req: Option<(usize, usize)>, res: Seq<i8>, l: nat, rw: bool)
    requires
        survey_step(st, req, res, l, rw) is Some,
    ensures
        survey_step(st, req, res, l, rw).unwrap().2.len() >= st.2.len(),
        forall|i: int| 0 <= i < st.2.len() ==> #[trigger] survey_step(st, req, res, l, rw).unwrap().2[i] == st.2[i],
{
}

/// The starting room keeps, through the rest of the round, the label that its
/// own request gave it.
proof fn lemma_fold_first_label(
    st0: SurveyState,
    reqs: Seq<Option<(usize, usize)>>,
    results: Seq<Vec<i8>>,
    l: nat,
    rw: bool,
    k: int,
)
    requires
        st0.2.len() == 0,
        1 <= k <= reqs.len(),
        k <= results.len(),
        reqs[0] is None,
        survey_fold(st0, reqs, results, l, rw, k) is Some,
    ensures
        survey_fold(st0, reqs, results, l, rw, k).unwrap().2.len() >= 1,
        survey_fold(st0, reqs, results, l, rw, k).unwrap().2[0] == results[0]@[0],
    decreases k,
{
    if k > 1 {
        lemma_fold_first_label(st0, reqs, results, l, rw, k - 1);
        let s = survey_fold(st0, reqs, results, l, rw, k - 1).unwrap();
        lemma_step_keeps_labels(s, reqs[k - 1], results[k - 1]@, l, rw);
    } else {
        assert(survey_fold(st0, reqs, results, l, rw, 0) == Some(st0));
    }
}

/// In the first round of a survey (no room found yet, the first request being
/// the starting room), whenever the round is taken the starting room, room 0,
/// gets the first label of the first result: the label it shows before the
/// prefix writes anything. Where labels can be rewritten, that label differs
/// from the one seen after the prefix, as the round is refused otherwise.
pub proof fn lemma_first_room_gets_its_label_before_rewrite(
    st0: SurveyState,
    reqs: Seq<Option<(usize, usize)>>,
    results: Seq<Vec<i8>>,
    l: nat,
    rw: bool,
)
    requires
        st0.2.len() == 0,
        1 <= reqs.len() == results.len(),
        reqs[0] is None,
        results[0]@.len() > l,
        survey_fold(st0, reqs, results, l, rw, results.len() as int) is Some,
    ensures
        survey_fold(st0, reqs, results, l, rw, results.len() as int).unwrap().2[0] == results[0]@[0],
        rw ==> results[0]@[0] != results[0]@[results[0]@.len() - l - 1],
{
    lemma_fold_first_label(st0, reqs, results, l, rw, results.len() as int);
    if survey_fold(st0, reqs, results, l, rw, 1) is None {
        lemma_fold_stays_none(st0, reqs, results, l, rw, 1, results.len() as int);
    }
    assert(survey_fold(st0, reqs, results, l, rw, 0) == Some(st0));
}

proof fn lemma_fold_stays_none(
    st: SurveyState,
    reqs: Seq<Option<(usize, usize)>>,
    results: Seq<Vec<i8>>,
    l: nat,
    rw: bool,
    i: int,
    j: int,
)
    requires
        0 <= i <= j,
        survey_fold(st, reqs, results, l, rw, i) is None,
    ensures
        survey_fold(st, reqs, results, l, rw, j) is None,
    decreases j - i,
{
    if j > i {
        lemma_fold_stays_none(st, reqs, results, l, rw, i, j - 1);
    }
}

proof fn lemma_round_index(u0: nat, u1: nat, j: int)
    requires
        u0 <= u1,
        0 <= j < (u1 - u0) * 6,
    ensures
        u0 + j / 6 < u1,
        j % 6 < 6,
        j % 6 == 0 ==> (j + 5) / 6 == j / 6,
        j % 6 != 0 ==> (j + 5) / 6 == j / 6 + 1,
        (j + 6) / 6 == j / 6 + 1,
{
}

impl BruteForce {
    /// The survey so far: hashes, paths and labels of the rooms, and door targets.
    pub closed spec fn state(&self) -> SurveyState {
        (
            self.hashes@.map_values(|h: Vec<i8>| h@),
            self.room_paths@.map_values(|p: String| p@),
            self.room_digits@,
            rows(self.connections@),
        )
    }

    /// The requests of the round in progress (empty between rounds).
    pub closed spec fn requests(&self) -> Seq<Option<(usize, usize)>> {
        self.requests@
    }

    /// The rooms below this one have been asked for (or are being asked for).
    pub closed spec fn unprocessed(&self) -> nat {
        self.unprocessed as nat
    }

    pub closed spec fn prefix(&self) -> Seq<char> {
        self.prefix@
    }

    pub closed spec fn suffix(&self) -> Seq<char> {
        self.suffix@
    }

    pub closed spec fn problem(&self) -> ProblemDefinition {
        self.definition
    }

    /// Between rounds.
    pub closed spec fn idle(&self) -> bool {
        self.requests@.len() == 0
    }

    /// The survey is complete: every door of every room found has been asked for.
    pub open spec fn finished(&self) -> bool {
        self.idle() && self.unprocessed() == self.state().1.len()
    }

    pub closed spec fn wf(&self) -> bool {
        let n = self.room_paths@.len();
        let h = self.hashes@.len();
        &&& self.suffix@.len() == self.suffix_length
        &&& self.suffix_length == self.definition.max_plan_length / 2
        &&& n >= 1
        &&& self.room_digits@.len() == h
        &&& self.unprocessed <= n
        &&& self.round_start <= self.unprocessed
        &&& forall|i: int| 0 <= i < self.connections@.len() ==> (#[trigger] self.connections@[i])@.len() == 6
        &&& forall|i: int, d: int|
            0 <= i < self.connections@.len() && 0 <= d < 6 ==> #[trigger] self.connections@[i]@[d] == NONE
                || self.connections@[i]@[d] < h
        &&& if self.requests@.len() == 0 {
            &&& self.connections@.len() == self.unprocessed
            &&& self.unprocessed == 0 ==> n == 1 && h == 0
            &&& self.unprocessed > 0 ==> h == n
        } else {
            &&& self.requests@ == round(self.round_start as nat, self.unprocessed as nat)
            &&& self.unprocessed == n
            &&& self.round_start < self.unprocessed
            &&& self.connections@.len() == self.round_start
            &&& self.round_start == 0 ==> n == 1 && h == 0
            &&& self.round_start > 0 ==> h == n
        }
    }

    /// Starts a survey of `definition`: draws the suffix, `max_plan_length / 2` random
    /// doors, and, where labels can be rewritten, a prefix that rewrites the starting
    /// room's label to a random one, so that the starting room is told apart.
    pub fn new(definition: ProblemDefinition) -> (res: Self)
        ensures
            res.wf(),
            res.idle(),
            res.problem() == definition,
            res.suffix().len() == definition.max_plan_length / 2,
            forall|k: int| 0 <= k < res.suffix().len() ==> '0' <= #[trigger] res.suffix()[k] && '6' > res.suffix()[k],
            definition.label_rewritable ==> res.prefix().len() == 3 && res.prefix()[0] == '[' && '0'
                <= res.prefix()[1] && '4' > res.prefix()[1] && res.prefix()[2] == ']',
            !definition.label_rewritable ==> res.prefix().len() == 0,
            res.state() == (Seq::<Seq<i8>>::empty(), seq![Seq::<char>::empty()], Seq::<i8>::empty(), Seq::<
                Seq<usize>,
            >::empty()),
            res.unprocessed() == 0,
    {
        let suffix_length = definition.max_plan_length / 2;
        let mut suffix = String::new();
        let mut i: usize = 0;
        while i < suffix_length
            invariant
                i <= suffix_length,
                suffix@.len() == i,
                forall|k: int| 0 <= k < i ==> '0' <= #[trigger] suffix@[k] && '6' > suffix@[k],
            decreases suffix_length - i,
        {
            let d = thread_random_range(0, 6);
            suffix.append(digit_str(d));
            i = i + 1;
        }
        let mut prefix = String::new();
        if definition.label_rewritable {
            proof {
                reveal_strlit("[");
                reveal_strlit("]");
            }
            prefix.append("[");
            prefix.append(digit_str(thread_random_range(0, 4)));
            prefix.append("]");
        }
        let mut room_paths: Vec<String> = Vec::new();
        room_paths.push(String::new());
        let res = BruteForce {
            definition,
            prefix,
            suffix,
            suffix_length,
            hashes: Vec::new(),
            room_paths,
            room_digits: Vec::new(),
            connections: Vec::new(),
            unprocessed: 0,
            round_start: 0,
            requests: Vec::new(),
        };
        proof {
            assert(res.state().1 =~= seq![Seq::<char>::empty()]);
            assert(res.state().0 =~= Seq::<Seq<i8>>::empty());
            assert(res.state().3 =~= Seq::<Seq<usize>>::empty());
        }
        res
    }

    fn request_string(&self, req: Option<(usize, usize)>) -> (res: String)
        requires
            self.wf(),
            req matches Some((r, d)) ==> r < self.room_paths@.len() && d < 6,
        ensures
            res@ == request_plan(self.prefix(), self.state().1, req, self.suffix()),
    {
        let mut p = String::new();
        p.append(self.prefix.as_str());
        match req {
            None => {},
            Some((r, d)) => {
                p.append(self.room_paths[r].as_str());
                p.append(digit_str(d));
            },
        }
        p.append(self.suffix.as_str());
        proof {
            match req {
                None => {
                    assert(p@ =~= self.prefix@ + self.suffix@);
                },
                Some((r, d)) => {
                    assert(self.state().1[r as int] == self.room_paths@[r as int]@);
                },
            }
        }
        p
    }

    /// The plans of the next round, or `None` when the survey is complete. A round
    /// asks, through a plan each, for the starting room (in the first round) and for
    /// every door of the rooms found since the last round.
    pub fn next_plans(&mut self) -> (res: Option<Vec<String>>)
        requires
            old(self).wf(),
            old(self).idle(),
        ensures
            final(self).wf(),
            final(self).problem() == old(self).problem(),
            final(self).prefix() == old(self).prefix(),
            final(self).suffix() == old(self).suffix(),
            final(self).state() == old(self).state(),
            old(self).unprocessed() >= old(self).state().1.len() ==> res is None && final(self).idle()
                && final(self).unprocessed() == old(self).unprocessed(),
            old(self).unprocessed() < old(self).state().1.len() ==> {
                &&& final(self).requests() == round(old(self).unprocessed(), old(self).state().1.len())
                &&& final(self).unprocessed() == old(self).state().1.len()
                &&& res matches Some(plans) && plans@.len() == final(self).requests().len() && forall|i: int|
                    0 <= i < plans@.len() ==> (#[trigger] plans@[i])@ == request_plan(
                        old(self).prefix(),
                        old(self).state().1,
                        final(self).requests()[i],
                        old(self).suffix(),
                    )
            },
    {
        let n = self.room_paths.len();
        if self.unprocessed >= n {
            return None;
        }
        let u0 = self.unprocessed;
        let mut requests: Vec<Option<(usize, usize)>> = Vec::new();
        if u0 == 0 {
            requests.push(None);
        }
        let ghost head = requests@;
        let mut room = u0;
        while room < n
            invariant
                u0 <= room <= n,
                head == (if u0 == 0 {
                    seq![None]
                } else {
                    Seq::<Option<(usize, usize)>>::empty()
                }),
                requests@ == head + Seq::new(
                    ((room - u0) * 6) as nat,
                    |j: int| Some(((u0 + j / 6) as usize, (j % 6) as usize)),
                ),
            decreases n - room,
        {
            let mut door: usize = 0;
            while door < 6
                invariant
                    u0 <= room < n,
                    door <= 6,
                    requests@ == head + Seq::new(
                        ((room - u0) * 6 + door) as nat,
                        |j: int| Some(((u0 + j / 6) as usize, (j % 6) as usize)),
                    ),
                decreases 6 - door,
            {
                requests.push(Some((room, door)));
                proof {
                    let j = (room - u0) * 6 + door;
                    assert(j / 6 == room - u0 && j % 6 == door);
                    assert(requests@ =~= head + Seq::new(
                        ((room - u0) * 6 + door + 1) as nat,
                        |j: int| Some(((u0 + j / 6) as usize, (j % 6) as usize)),
                    ));
                }
                door = door + 1;
            }
            room = room + 1;
        }
        proof {
            assert(requests@ =~= round(u0 as nat, n as nat));
        }
        let mut plans: Vec<String> = Vec::new();
        let mut i: usize = 0;
        while i < requests.len()
            invariant
                self.wf(),
                self.idle(),
                n == self.room_paths@.len(),
                u0 == self.unprocessed,
                requests@ == round(u0 as nat, n as nat),
                u0 < n,
                i <= requests@.len(),
                plans@.len() == i,
                forall|q: int| 0 <= q < i ==> (#[trigger] plans@[q])@ == request_plan(
                    self.prefix(),
                    self.state().1,
                    requests@[q],
                    self.suffix(),
                ),
            decreases requests@.len() - i,
        {
            let req = requests[i];
            proof {
                let off: int = if u0 == 0 { 1 } else { 0 };
                if i >= off {
                    lemma_round_index(u0 as nat, n as nat, i - off);
                }
            }
            let p = self.request_string(req);
            plans.push(p);
            i = i + 1;
        }
        self.round_start = u0;
        self.unprocessed = n;
        self.requests = requests;
        Some(plans)
    }

    /// Position of the first room with hash `h`.
    fn find_room(&self, h: &Vec<i8>) -> (res: Option<usize>)
        ensures
            match res {
                Some(i) => is_first(self.state().0, h@, i as int),
                None => forall|i: int| 0 <= i < self.state().0.len() ==> self.state().0[i] != h@,
            },
    {
        let ghost hs = self.state().0;
        let mut i: usize = 0;
        while i < self.hashes.len()
            invariant
                hs == self.state().0,
                hs.len() == self.hashes@.len(),
                i <= hs.len(),
                forall|q: int| 0 <= q < i ==> hs[q] != h@,
            decreases hs.len() - i,
        {
            let cand = &self.hashes[i];
            assert(hs[i as int] == cand@);
            if same_labels(cand, h) {
                return Some(i);
            }
            i = i + 1;
        }
        None
    }

    /// Takes the result `res` of request `req` into the survey; false where the
    /// survey stops (see `survey_step`).
    fn absorb(&mut self, req: Option<(usize, usize)>, res: &Vec<i8>) -> (ok: bool)
        requires
            old(self).suffix@.len() == old(self).suffix_length,
            res@.len() > old(self).suffix_length,
            old(self).room_digits@.len() == old(self).hashes@.len(),
            forall|q: int| 0 <= q < old(self).connections@.len() ==> (#[trigger] old(self).connections@[q])@.len() == 6,
            forall|q: int, d: int|
                0 <= q < old(self).connections@.len() && 0 <= d < 6 ==> #[trigger] old(self).connections@[q]@[d]
                    == NONE || old(self).connections@[q]@[d] < old(self).hashes@.len(),
            req matches Some((r, d)) ==> r < old(self).room_paths@.len() && d < 6 && r <= old(self).connections@.len(),
        ensures
            match survey_step(old(self).state(), req, res@, old(self).suffix@.len(), old(self).definition.label_rewritable) {
                None => !ok,
                Some(st) => ok && final(self).state() == st,
            },
            ok && req is None ==> final(self).state().2 == old(self).state().2.push(res@[0]),
            ok ==> {
                &&& final(self).room_digits@.len() == final(self).hashes@.len()
                &&& forall|q: int| 0 <= q < final(self).connections@.len() ==> (#[trigger] final(self).connections@[q])@.len() == 6
                &&& forall|q: int, d: int|
                    0 <= q < final(self).connections@.len() && 0 <= d < 6 ==> #[trigger] final(self).connections@[q]@[d]
                        == NONE || final(self).connections@[q]@[d] < final(self).hashes@.len()
                &&& req is None ==> final(self).hashes@.len() == old(self).hashes@.len() + 1 && final(self).room_paths@.len()
                    == old(self).room_paths@.len() && final(self).connections@.len() == old(self).connections@.len()
                &&& req matches Some((r, d)) ==> {
                    &&& final(self).hashes@.len() - old(self).hashes@.len() == final(self).room_paths@.len()
                        - old(self).room_paths@.len()
                    &&& final(self).hashes@.len() >= old(self).hashes@.len()
                    &&& final(self).connections@.len() == if old(self).connections@.len() <= r {
                        old(self).connections@.len() + 1
                    } else {
                        old(self).connections@.len()
                    }
                }
            },
            final(self).definition == old(self).definition,
            final(self).prefix == old(self).prefix,
            final(self).suffix == old(self).suffix,
            final(self).suffix_length == old(self).suffix_length,
            final(self).unprocessed == old(self).unprocessed,
            final(self).round_start == old(self).round_start,
            final(self).requests == old(self).requests,
    {
        let ghost s = self.state();
        let ghost l = self.suffix@.len();
        let len = res.len();
        let l_exec = self.suffix_length;
        let mut h: Vec<i8> = Vec::new();
        let mut k: usize = len - l_exec - 1;
        while k < len
            invariant
                len == res@.len(),
                len > l_exec,
                len - l_exec - 1 <= k <= len,
                h@ == res@.subrange(len - l_exec - 1, k as int),
            decreases len - k,
        {
            h.push(res[k]);
            proof {
                assert(h@ =~= res@.subrange(len - l_exec - 1, k + 1));
            }
            k = k + 1;
        }
        let digit = res[len - l_exec - 1];
        assert(h@ == room_hash(res@, l));
        match req {
            None => {
                if self.definition.label_rewritable && digit == res[0] {
                    return false;
                }
                self.hashes.push(h);
                self.room_digits.push(res[0]);
                proof {
                    assert(self.state().0 =~= s.0.push(room_hash(res@, l)));
                    assert(self.state().1 =~= s.1);
                    assert(self.state().3 =~= s.3);
                }
                true
            },
            Some((r, d)) => {
                let found = self.find_room(&h);
                let id = match found {
                    Some(id) => id,
                    None => {
                        let id = self.hashes.len();
                        let mut p = String::new();
                        p.append(self.room_paths[r].as_str());
                        p.append(digit_str(d));
                        self.room_paths.push(p);
                        self.hashes.push(h);
                        self.room_digits.push(digit);
                        id
                    },
                };
                if self.connections.len() <= r {
                    self.connections.push(vec![NONE, NONE, NONE, NONE, NONE, NONE]);
                }
                self.connections[r][d] = id;
                proof {
                    let hs = s.0;
                    let hv = room_hash(res@, l);
                    match found {
                        Some(j) => {
                            assert(exists|q: int| is_first(hs, hv, q));
                            let c = choose|q: int| is_first(hs, hv, q);
                            assert(c == j);
                            assert(self.state().0 =~= s.0);
                            assert(self.state().1 =~= s.1);
                        },
                        None => {
                            assert(!exists|q: int| is_first(hs, hv, q));
                            assert(self.state().0 =~= s.0.push(hv));
                            assert(self.state().1 =~= s.1.push(s.1[r as int] + seq![digit_char(d as nat)]));
                        },
                    }
                    assert(self.state().3 =~= set_door(s.3, r, d, id));
                }
                true
            },
        }
    }

    /// Takes the results of the round's plans, in order: the starting room gets its
    /// label, each door gets the room whose hash its result ends with, and a hash
    /// not seen before is a new room, reached by the door's path. Fails with
    /// `"Bad luck!"` where the prefix rewrote the starting room's label to the one it
    /// had.
    pub fn record(&mut self, results: &Vec<Vec<i8>>) -> (res: Result<(), String>)
        requires
            old(self).wf(),
            !old(self).idle(),
            results@.len() == old(self).requests().len(),
            forall|k: int| 0 <= k < results@.len() ==> (#[trigger] results@[k])@.len() > old(self).suffix().len(),
        ensures
            match survey_fold(
                old(self).state(),
                old(self).requests(),
                results@,
                old(self).suffix().len(),
                old(self).problem().label_rewritable,
                results@.len() as int,
            ) {
                Some(st) => {
                    &&& res is Ok
                    &&& final(self).wf()
                    &&& final(self).idle()
                    &&& final(self).state() == st
                    &&& final(self).unprocessed() == old(self).unprocessed()
                    &&& final(self).problem() == old(self).problem()
                    &&& final(self).prefix() == old(self).prefix()
                    &&& final(self).suffix() == old(self).suffix()
                },
                None => res matches Err(m) && m@ == "Bad luck!"@,
            },
            res is Ok && old(self).state().2.len() == 0 && old(self).requests().len() >= 1 && old(self).requests()[0] is None
                ==> final(self).state().2[0] == results@[0]@[0],
    {
        let ghost st0 = self.state();
        let ghost reqs = self.requests@;
        let ghost l = self.suffix@.len();
        let ghost rw = self.definition.label_rewritable;
        let u0 = self.round_start;
        let u1 = self.unprocessed;
        let ghost off: int = if u0 == 0 { 1 } else { 0 };
        let count = self.requests.len();
        let mut i: usize = 0;
        while i < count
            invariant
                st0 == old(self).state(),
                reqs == old(self).requests(),
                count == reqs.len(),
                results@.len() == count,
                forall|k: int| 0 <= k < results@.len() ==> (#[trigger] results@[k])@.len() > l,
                reqs == round(u0 as nat, u1 as nat),
                off == (if u0 == 0 { 1int } else { 0int }),
                reqs.len() == off + (u1 - u0) * 6,
                u0 < u1,
                self.requests@ == reqs,
                self.round_start == u0,
                self.unprocessed == u1,
                l == self.suffix@.len(),
                l == self.suffix_length,
                self.suffix_length == self.definition.max_plan_length / 2,
                rw == self.definition.label_rewritable,
                self.prefix@ == old(self).prefix@,
                self.suffix@ == old(self).suffix@,
                self.definition == old(self).definition,
                i <= count,
                survey_fold(st0, reqs, results@, l, rw, i as int) == Some(self.state()),
                self.room_digits@.len() == self.hashes@.len(),
                self.room_paths@.len() >= u1,
                i as int >= off ==> self.hashes@.len() == self.room_paths@.len(),
                (i as int) < off ==> self.hashes@.len() == 0 && self.room_paths@.len() == 1,
                i as int >= off ==> self.connections@.len() == u0 + (i - off + 5) / 6,
                (i as int) < off ==> self.connections@.len() == u0,
                forall|q: int| 0 <= q < self.connections@.len() ==> (#[trigger] self.connections@[q])@.len() == 6,
                forall|q: int, d: int|
                    0 <= q < self.connections@.len() && 0 <= d < 6 ==> #[trigger] self.connections@[q]@[d] == NONE
                        || self.connections@[q]@[d] < self.hashes@.len(),
            decreases count - i,
        {
            let req = self.requests[i];
            proof {
                if i >= off {
                    lemma_round_index(u0 as nat, u1 as nat, i - off);
                    assert(reqs[i as int] == Some(((u0 + (i - off) / 6) as usize, ((i - off) % 6) as usize)));
                } else {
                    assert(reqs[i as int] is None);
                }
            }
            let ghost s = self.state();
            let ok = self.absorb(req, &results[i]);
            proof {
                assert(survey_fold(st0, reqs, results@, l, rw, i + 1) == survey_step(
                    s,
                    reqs[i as int],
                    results@[i as int]@,
                    l,
                    rw,
                ));
            }
            if !ok {
                proof {
                    assert(survey_step(s, reqs[i as int], results@[i as int]@, l, rw) is None);
                    assert(survey_fold(st0, reqs, results@, l, rw, i + 1) is None);
                    reveal_strlit("Bad luck!");
                    lemma_fold_stays_none(st0, reqs, results@, l, rw, i + 1, count as int);
                }
                return Err(String::from_str("Bad luck!"));
            }
            i = i + 1;
        }
        self.requests = Vec::new();
        proof {
            if st0.2.len() == 0 && reqs.len() >= 1 && reqs[0] is None {
                lemma_first_room_gets_its_label_before_rewrite(st0, reqs, results@, l, rw);
            }
        }
        Ok(())
    }

    /// Ends the survey: the map of the rooms found, starting in room 0, with the
    /// doors paired as `pair_doors` does.
    pub fn guess_map(self) -> (res: Result<GuessRequestMap, String>)
        requires
            self.wf(),
            self.finished(),
        ensures
            match res {
                Ok(m) => m.rooms@ == self.state().2 && m.starting_room == 0 && rooms_matched(
                    self.state().3,
                    self.state().3.len() as int,
                ) && m.connections@ == all_pairs(self.state().3, self.state().3.len() as int),
                Err(m) => exists|r: int, d: int|
                    0 <= r < self.state().3.len() && 0 <= d < 6 && rooms_matched(self.state().3, r)
                        && row_matched(self.state().3, r, d) && #[trigger] unmatched(self.state().3, r, d)
                        && m@ == pairing_error(r as usize, d as usize, self.state().3[r][d]),
            },
    {
        assert(is_partial_graph(self.connections@, self.connections@.len()));
        let ghost g = self.state().3;
        assert(g == rows(self.connections@));
        let res = guess_map(self.room_digits, 0, &self.connections);
        res
    }
}

/// Two label sequences are equal.
fn same_labels(a: &Vec<i8>, b: &Vec<i8>) -> (res: bool)
    ensures
        res == (a@ == b@),
{
    if a.len() != b.len() {
        return false;
    }
    let mut i: usize = 0;
    while i < a.len()
        invariant
            a@.len() == b@.len(),
            i <= a@.len(),
            forall|q: int| 0 <= q < i ==> a@[q] == b@[q],
        decreases a@.len() - i,
    {
        if a[i] != b[i] {
            return false;
        }
        i = i + 1;
    }
    assert(a@ =~= b@);
    true
}

} // verus!
