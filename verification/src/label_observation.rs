use vstd::prelude::*;

use crate::union_find::Action;

verus! {

/// The rooms seen after one door, by the label they showed.
pub struct LabelBranch {
    pub label: usize,
    pub node: LabelObservationNode,
}

/// The rooms seen after taking one door.
pub struct DoorBranch {
    pub door: usize,
    pub labels: Vec<LabelBranch>,
}

/// A node of the tree of observed (door, label) sequences.
pub struct LabelObservationNode {
    pub child: Vec<DoorBranch>,
}

impl LabelObservationNode {
    /// How many rooms this node must stand for at least: the largest, over the
    /// doors, of the sum of the sizes of the children behind that door; 1 for a leaf.
    pub open spec fn size(self) -> nat
        decreases self,
    {
        let m = max_door_sum(self.child@);
        if m > 1 {
            m
        } else {
            1
        }
    }
}

/// The largest sum of child sizes over the door branches `bs`.
pub open spec fn max_door_sum(bs: Seq<DoorBranch>) -> nat
    decreases bs,
{
    if bs.len() == 0 {
        0
    } else {
        let a = max_door_sum(bs.drop_last());
        let b = label_sum(bs.last().labels@);
        if a > b {
            a
        } else {
            b
        }
    }
}

/// The sum of the sizes of the children `ls`.
pub open spec fn label_sum(ls: Seq<LabelBranch>) -> nat
    decreases ls,
{
    if ls.len() == 0 {
        0
    } else {
        label_sum(ls.drop_last()) + ls.last().node.size()
    }
}

/// Upper bound of the size of a node of height `h`.
pub open spec fn size_cap(h: nat) -> nat
    decreases h,
{
    if h == 0 {
        1
    } else {
        4 * size_cap((h - 1) as nat)
    }
}

/// Index of the branch of door `d` among `bs` (the last one), or -1.
pub open spec fn door_index(bs: Seq<DoorBranch>, d: usize) -> int
    decreases bs.len(),
{
    if bs.len() == 0 {
        -1
    } else if bs.last().door == d {
        bs.len() - 1
    } else {
        door_index(bs.drop_last(), d)
    }
}

/// Index of the child of label `l` among `ls` (the last one), or -1.
pub open spec fn label_index(ls: Seq<LabelBranch>, l: usize) -> int
    decreases ls.len(),
{
    if ls.len() == 0 {
        -1
    } else if ls.last().label == l {
        ls.len() - 1
    } else {
        label_index(ls.drop_last(), l)
    }
}

/// Doors below 6, labels below 4, each at most once, and at most `h` levels below.
pub open spec fn node_wf(n: LabelObservationNode, h: nat) -> bool
    decreases h,
{
    &&& h == 0 ==> n.child@.len() == 0
    &&& forall|i: int| 0 <= i < n.child@.len() ==> #[trigger] n.child@[i].door < 6
    &&& forall|i: int, j: int| 0 <= i < j < n.child@.len() ==> n.child@[i].door != n.child@[j].door
    &&& forall|i: int| 0 <= i < n.child@.len() ==> (#[trigger] n.child@[i]).labels@.len() <= 4
    &&& forall|i: int, j: int|
        0 <= i < n.child@.len() && 0 <= j < n.child@[i].labels@.len() ==> #[trigger] n.child@[i].labels@[j].label < 4
    &&& forall|i: int, j: int, k: int|
        0 <= i < n.child@.len() && 0 <= j < k < n.child@[i].labels@.len() ==> n.child@[i].labels@[j].label
            != n.child@[i].labels@[k].label
    &&& h > 0 ==> forall|i: int, j: int|
        0 <= i < n.child@.len() && 0 <= j < n.child@[i].labels@.len() ==> node_wf(
            #[trigger] n.child@[i].labels@[j].node,
            (h - 1) as nat,
        )
}

pub proof fn lemma_door_index(bs: Seq<DoorBranch>, d: usize)
    ensures
        -1 <= door_index(bs, d) < bs.len(),
        door_index(bs, d) >= 0 ==> bs[door_index(bs, d)].door == d,
        door_index(bs, d) < 0 ==> forall|i: int| 0 <= i < bs.len() ==> #[trigger] bs[i].door != d,
    decreases bs.len(),
{
    if bs.len() > 0 {
        lemma_door_index(bs.drop_last(), d);
        assert forall|i: int| 0 <= i < bs.len() - 1 implies bs.drop_last()[i] == #[trigger] bs[i] by {}
    }
}

pub proof fn lemma_door_index_unique(bs: Seq<DoorBranch>, d: usize, i: int)
    requires
        0 <= i < bs.len(),
        bs[i].door == d,
        forall|a: int, b: int| 0 <= a < b < bs.len() ==> bs[a].door != bs[b].door,
    ensures
        door_index(bs, d) == i,
    decreases bs.len(),
{
    if i < bs.len() - 1 {
        assert(bs.drop_last()[i] == bs[i]);
        lemma_door_index_unique(bs.drop_last(), d, i);
    }
}

pub proof fn lemma_label_index(ls: Seq<LabelBranch>, l: usize)
    ensures
        -1 <= label_index(ls, l) < ls.len(),
        label_index(ls, l) >= 0 ==> ls[label_index(ls, l)].label == l,
        label_index(ls, l) < 0 ==> forall|i: int| 0 <= i < ls.len() ==> #[trigger] ls[i].label != l,
    decreases ls.len(),
{
    if ls.len() > 0 {
        lemma_label_index(ls.drop_last(), l);
        assert forall|i: int| 0 <= i < ls.len() - 1 implies ls.drop_last()[i] == #[trigger] ls[i] by {}
    }
}

pub proof fn lemma_label_index_unique(ls: Seq<LabelBranch>, l: usize, i: int)
    requires
        0 <= i < ls.len(),
        ls[i].label == l,
        forall|a: int, b: int| 0 <= a < b < ls.len() ==> ls[a].label != ls[b].label,
    ensures
        label_index(ls, l) == i,
    decreases ls.len(),
{
    if i < ls.len() - 1 {
        assert(ls.drop_last()[i] == ls[i]);
        lemma_label_index_unique(ls.drop_last(), l, i);
    }
}



/// The child of `n` through door `d` showing label `l`, when `n` is there.
pub open spec fn child_of(n: Option<LabelObservationNode>, d: usize, l: usize) -> Option<LabelObservationNode> {
    match n {
        Some(m) => m.child_at(d, l),
        None => None,
    }
}


/// The sequence of (door, label) steps `p` has been observed below `n`.
pub open spec fn has_path(n: LabelObservationNode, p: Seq<(usize, usize)>) -> bool
    decreases p.len(),
{
    if p.len() == 0 {
        true
    } else {
        match n.child_at(p[0].0, p[0].1) {
            Some(c) => has_path(c, p.drop_first()),
            None => false,
        }
    }
}

/// Adding a leaf keeps every observed sequence.
pub proof fn lemma_adds_leaf_keeps(o: LabelObservationNode, nw: LabelObservationNode, d: usize, l: usize, p: Seq<(usize, usize)>)
    requires
        adds_leaf(Some(o), nw, d, l),
        has_path(o, p),
    ensures
        has_path(nw, p),
{
    if p.len() > 0 {
        if !(p[0].0 == d && p[0].1 == l) {
            assert(nw.child_at(p[0].0, p[0].1) == o.child_at(p[0].0, p[0].1));
        }
    }
}

/// After a leaf is added, a sequence observed below the node was observed before
/// or is the new step alone.
pub proof fn lemma_adds_leaf_only(old: Option<LabelObservationNode>, nw: LabelObservationNode, d: usize, l: usize, p: Seq<(usize, usize)>)
    requires
        adds_leaf(old, nw, d, l),
        has_path(nw, p),
    ensures
        p.len() == 0 || (old matches Some(o) && has_path(o, p)) || p == seq![(d, l)],
{
    if p.len() > 0 {
        if p[0].0 == d && p[0].1 == l {
            let c = nw.child_at(d, l)->0;
            if child_of(old, d, l) is None {
                if p.len() > 1 {
                    let q = p.drop_first();
                    assert(has_path(c, q));
                    assert(c.child@.len() == 0);
                    assert(door_index(c.child@, q[0].0) == -1);
                    assert(c.child_at(q[0].0, q[0].1) is None);
                    assert(false);
                }
                assert(p =~= seq![(d, l)]);
            }
        } else {
            assert(nw.child_at(p[0].0, p[0].1) == child_of(old, p[0].0, p[0].1));
        }
    }
}

/// `p` is a non-empty beginning of `q`.
pub open spec fn starts_path(p: Seq<(usize, usize)>, q: Seq<(usize, usize)>) -> bool {
    1 <= p.len() <= q.len() && p == q.take(p.len() as int)
}

/// Every prefix of an observed sequence is observed.
pub proof fn lemma_has_path_prefix(n: LabelObservationNode, q: Seq<(usize, usize)>, k: int)
    requires
        has_path(n, q),
        0 <= k <= q.len(),
    ensures
        has_path(n, q.take(k)),
    decreases q.len(),
{
    if k > 0 {
        let c = n.child_at(q[0].0, q[0].1).unwrap();
        lemma_has_path_prefix(c, q.drop_first(), k - 1);
        assert(q.take(k).drop_first() =~= q.drop_first().take(k - 1));
    }
}

/// `new` records the same sequences as `old`, after every label.
pub open spec fn same_paths(old: LabelObservation, new: LabelObservation) -> bool {
    forall|l: int, p: Seq<(usize, usize)>| 0 <= l < 4 ==> #[trigger] has_path(new.node(l), p) == has_path(old.node(l), p)
}

/// `new` records what `old` does and the sequence `q` after label `l0`, and
/// nothing more than `q`'s beginnings.
pub open spec fn path_recorded(old: LabelObservation, new: LabelObservation, l0: int, q: Seq<(usize, usize)>) -> bool {
    &&& forall|l: int, p: Seq<(usize, usize)>| 0 <= l < 4 && has_path(old.node(l), p) ==> #[trigger] has_path(new.node(l), p)
    &&& has_path(new.node(l0), q)
    &&& forall|l: int, p: Seq<(usize, usize)>|
        0 <= l < 4 && #[trigger] has_path(new.node(l), p) ==> has_path(old.node(l), p) || (l == l0 && starts_path(p, q))
}

/// Recording a sequence that is already recorded (as a second call of
/// `LabelObservation::add_child`, `add_child_2step` or `add_child_3step` with the
/// same arguments does, or a call with a beginning of a sequence recorded before)
/// leaves the recorded sequences as they were.
pub proof fn lemma_recording_again_keeps_paths(
    old: LabelObservation,
    new: LabelObservation,
    l0: int,
    q: Seq<(usize, usize)>,
)
    requires
        0 <= l0 < 4,
        path_recorded(old, new, l0, q),
        has_path(old.node(l0), q),
    ensures
        same_paths(old, new),
{
    assert forall|l: int, p: Seq<(usize, usize)>| 0 <= l < 4 implies #[trigger] has_path(new.node(l), p) == has_path(
        old.node(l),
        p,
    ) by {
        if has_path(new.node(l), p) && !has_path(old.node(l), p) {
            assert(l == l0 && starts_path(p, q));
            lemma_has_path_prefix(old.node(l0), q, p.len() as int);
        }
    }
}

/// Calling `LabelObservation::add_child_2step` (or `add_child` or
/// `add_child_3step`) twice with the same arguments records the same sequences
/// as calling it once.
pub proof fn lemma_record_twice(
    o0: LabelObservation,
    o1: LabelObservation,
    o2: LabelObservation,
    l0: int,
    q: Seq<(usize, usize)>,
)
    requires
        0 <= l0 < 4,
        path_recorded(o0, o1, l0, q),
        path_recorded(o1, o2, l0, q),
    ensures
        same_paths(o1, o2),
{
    lemma_recording_again_keeps_paths(o1, o2, l0, q);
}

/// After `LabelObservation::add_child_2step` records two steps after `l0`, a call
/// of `add_child` for the first of them records nothing new.
pub proof fn lemma_first_step_already_recorded(
    o0: LabelObservation,
    o1: LabelObservation,
    o2: LabelObservation,
    l0: int,
    d0: usize,
    l1: usize,
    d1: usize,
    x: usize,
)
    requires
        0 <= l0 < 4,
        path_recorded(o0, o1, l0, seq![(d0, l1), (d1, x)]),
        path_recorded(o1, o2, l0, seq![(d0, l1)]),
    ensures
        same_paths(o1, o2),
{
    let q = seq![(d0, l1), (d1, x)];
    lemma_has_path_prefix(o1.node(l0), q, 1);
    assert(q.take(1) =~= seq![(d0, l1)]);
    lemma_recording_again_keeps_paths(o1, o2, l0, seq![(d0, l1)]);
}

/// `new` is `old` (or an empty node when `old` is `None`) with a leaf added through
/// door `d` showing label `l`, if no such child was there.
pub open spec fn adds_leaf(old: Option<LabelObservationNode>, new: LabelObservationNode, d: usize, l: usize) -> bool {
    &&& new.child_at(d, l) is Some
    &&& forall|d2: usize, l2: usize|
        !(d2 == d && l2 == l) ==> #[trigger] new.child_at(d2, l2) == match old {
            Some(o) => o.child_at(d2, l2),
            None => None,
        }
    &&& child_of(old, d, l) is Some ==> new.child_at(d, l) == child_of(old, d, l)
    &&& child_of(old, d, l) is None ==> (new.child_at(d, l) matches Some(c) && c.child@.len() == 0)
}


/// Replacing the grandchild at branch `i`, position `j` keeps the shape and
/// changes only the child behind that branch.
pub proof fn lemma_replace_child(ob_node: LabelObservationNode, nb_node: LabelObservationNode, i: int, j: int, h: nat)
    requires
        node_wf(ob_node, h),
        h > 0,
        0 <= i < ob_node.child@.len(),
        0 <= j < ob_node.child@[i].labels@.len(),
        nb_node.child@.len() == ob_node.child@.len(),
        forall|k: int| 0 <= k < nb_node.child@.len() && k != i ==> #[trigger] nb_node.child@[k] == ob_node.child@[k],
        nb_node.child@[i].door == ob_node.child@[i].door,
        nb_node.child@[i].labels@.len() == ob_node.child@[i].labels@.len(),
        forall|m: int|
            0 <= m < nb_node.child@[i].labels@.len() && m != j ==> #[trigger] nb_node.child@[i].labels@[m]
                == ob_node.child@[i].labels@[m],
        nb_node.child@[i].labels@[j].label == ob_node.child@[i].labels@[j].label,
        node_wf(nb_node.child@[i].labels@[j].node, (h - 1) as nat),
    ensures
        node_wf(nb_node, h),
        forall|d: usize, l: usize| #[trigger] nb_node.child_at(d, l) == if d == ob_node.child@[i].door && l
            == ob_node.child@[i].labels@[j].label {
            Some(nb_node.child@[i].labels@[j].node)
        } else {
            ob_node.child_at(d, l)
        },
{
    let bs = nb_node.child@;
    let ob = ob_node.child@;
    let d0 = ob[i].door;
    let l0 = ob[i].labels@[j].label;
    let ls = bs[i].labels@;
    let ols = ob[i].labels@;
    assert forall|a: int, b: int| 0 <= a < b < bs.len() implies bs[a].door != bs[b].door by {
        assert(bs[a].door == ob[a].door && bs[b].door == ob[b].door);
    }
    assert forall|k: int| 0 <= k < bs.len() implies #[trigger] bs[k].door < 6 by {
        assert(bs[k].door == ob[k].door);
    }
    assert forall|k: int| 0 <= k < bs.len() implies (#[trigger] bs[k]).labels@.len() <= 4 by {
        assert(bs[k].labels@.len() == ob[k].labels@.len());
    }
    assert forall|k: int, m: int|
        0 <= k < bs.len() && 0 <= m < bs[k].labels@.len() implies #[trigger] bs[k].labels@[m].label < 4 by {
        assert(bs[k].labels@[m].label == ob[k].labels@[m].label);
    }
    assert forall|k: int, m: int, q: int|
        0 <= k < bs.len() && 0 <= m < q < bs[k].labels@.len() implies bs[k].labels@[m].label
            != bs[k].labels@[q].label by {
        assert(bs[k].labels@[m].label == ob[k].labels@[m].label);
        assert(bs[k].labels@[q].label == ob[k].labels@[q].label);
    }
    assert forall|k: int, m: int|
        0 <= k < bs.len() && 0 <= m < bs[k].labels@.len() implies node_wf(
        #[trigger] bs[k].labels@[m].node,
        (h - 1) as nat,
    ) by {
        if k != i || m != j {
            assert(bs[k].labels@[m] == ob[k].labels@[m]);
        }
    }
    assert(node_wf(nb_node, h));
    assert forall|d: usize, l: usize| #[trigger] nb_node.child_at(d, l) == if d == d0 && l == l0 {
        Some(bs[i].labels@[j].node)
    } else {
        ob_node.child_at(d, l)
    } by {
        lemma_door_index(bs, d);
        lemma_door_index(ob, d);
        lemma_door_index_unique(ob, d0, i);
        lemma_door_index_unique(bs, d0, i);
        lemma_label_index_unique(ols, l0, j);
        lemma_label_index_unique(ls, l0, j);
        let di = door_index(bs, d);
        if di >= 0 {
            lemma_door_index_unique(ob, d, di);
            if di != i {
                assert(bs[di] == ob[di]);
            } else {
                lemma_label_index(ls, l);
                lemma_label_index(ols, l);
                let li = label_index(ls, l);
                if li >= 0 {
                    lemma_label_index_unique(ols, l, li);
                    if li != j {
                        assert(ls[li] == ols[li]);
                    }
                } else if label_index(ols, l) >= 0 {
                    assert(ls[label_index(ols, l)].label == l);
                }
            }
        } else if door_index(ob, d) >= 0 {
            assert(bs[door_index(ob, d)].door == d);
        }
    }
}

pub proof fn lemma_size_cap_pos(h: nat)
    ensures
        size_cap(h) >= 1,
    decreases h,
{
    if h > 0 {
        lemma_size_cap_pos((h - 1) as nat);
    }
}

/// A node of height at most `h` stands for at most `4^h` rooms.
pub proof fn lemma_size_bound(n: LabelObservationNode, h: nat)
    requires
        node_wf(n, h),
    ensures
        n.size() <= size_cap(h),
    decreases h, 2nat, 0nat,
{
    lemma_size_cap_pos(h);
    if h == 0 {
        assert(n.child@.len() == 0);
    } else {
        lemma_max_door_bound(n.child@, h);
    }
}

pub proof fn lemma_max_door_bound(bs: Seq<DoorBranch>, h: nat)
    requires
        h > 0,
        forall|i: int| 0 <= i < bs.len() ==> (#[trigger] bs[i]).labels@.len() <= 4,
        forall|i: int, j: int|
            0 <= i < bs.len() && 0 <= j < bs[i].labels@.len() ==> node_wf(#[trigger] bs[i].labels@[j].node, (h - 1) as nat),
    ensures
        max_door_sum(bs) <= size_cap(h),
    decreases h, 1nat, bs.len(),
{
    if bs.len() > 0 {
        let last = bs.last();
        assert(last == bs[bs.len() - 1]);
        assert forall|i: int, j: int|
            0 <= i < bs.drop_last().len() && 0 <= j < bs.drop_last()[i].labels@.len() implies node_wf(
            #[trigger] bs.drop_last()[i].labels@[j].node,
            (h - 1) as nat,
        ) by {
            assert(bs.drop_last()[i] == bs[i]);
        }
        assert forall|i: int| 0 <= i < bs.drop_last().len() implies (#[trigger] bs.drop_last()[i]).labels@.len() <= 4 by {
            assert(bs.drop_last()[i] == bs[i]);
        }
        lemma_max_door_bound(bs.drop_last(), h);
        assert forall|j: int| 0 <= j < last.labels@.len() implies node_wf(#[trigger] last.labels@[j].node, (h - 1) as nat) by {
            assert(last.labels@[j] == bs[bs.len() - 1].labels@[j]);
        }
        lemma_label_sum_bound(last.labels@, h);
        lemma_size_cap_pos((h - 1) as nat);
        assert(last.labels@.len() * size_cap((h - 1) as nat) <= 4 * size_cap((h - 1) as nat)) by (nonlinear_arith)
            requires
                last.labels@.len() <= 4,
        ;
    }
}

pub proof fn lemma_label_sum_bound(ls: Seq<LabelBranch>, h: nat)
    requires
        h > 0,
        forall|j: int| 0 <= j < ls.len() ==> node_wf(#[trigger] ls[j].node, (h - 1) as nat),
    ensures
        label_sum(ls) <= ls.len() * size_cap((h - 1) as nat),
    decreases h, 0nat, ls.len(),
{
    if ls.len() > 0 {
        assert forall|j: int| 0 <= j < ls.drop_last().len() implies node_wf(#[trigger] ls.drop_last()[j].node, (h - 1) as nat) by {
            assert(ls.drop_last()[j] == ls[j]);
        }
        lemma_label_sum_bound(ls.drop_last(), h);
        assert(ls.last() == ls[ls.len() - 1]);
        lemma_size_bound(ls.last().node, (h - 1) as nat);
        assert((ls.len() - 1) * size_cap((h - 1) as nat) + size_cap((h - 1) as nat) == ls.len() * size_cap((h - 1) as nat)) by (nonlinear_arith);
    }
}

/// Four distinct labels below 4 leave no label below 4 unseen.
pub proof fn lemma_four_labels(ls: Seq<LabelBranch>, l: usize)
    requires
        l < 4,
        forall|j: int| 0 <= j < ls.len() ==> #[trigger] ls[j].label < 4,
        forall|j: int, k: int| 0 <= j < k < ls.len() ==> ls[j].label != ls[k].label,
        forall|j: int| 0 <= j < ls.len() ==> #[trigger] ls[j].label != l,
    ensures
        ls.len() < 4,
{
    if ls.len() >= 4 {
        let a = ls[0].label;
        let b = ls[1].label;
        let c = ls[2].label;
        let d = ls[3].label;
        assert(a != b && a != c && a != d && b != c && b != d && c != d);
        assert(false);
    }
}

pub proof fn lemma_size_cap_values()
    ensures
        size_cap(0) == 1,
        size_cap(1) == 4,
        size_cap(2) == 16,
        size_cap(3) == 64,
{
    assert(size_cap(0) == 1);
    assert(size_cap(1) == 4);
    assert(size_cap(2) == 16);
    assert(size_cap(3) == 64);
}

pub proof fn lemma_size_cap_mono(a: nat, b: nat)
    requires
        a <= b,
    ensures
        size_cap(a) <= size_cap(b),
    decreases b,
{
    if b > a {
        lemma_size_cap_mono(a, (b - 1) as nat);
        lemma_size_cap_pos((b - 1) as nat);
    }
}

impl LabelObservationNode {
    pub fn new() -> (res: Self)
        ensures
            res.child@.len() == 0,
            forall|h: nat| node_wf(res, h),
    {
        Self { child: Vec::new() }
    }

    /// The size of this node (see `size`).
    pub fn get_size(&self, Ghost(h): Ghost<nat>) -> (res: usize)
        requires
            node_wf(*self, h),
            h <= 3,
        ensures
            res == self.size(),
        decreases h,
    {
        proof {
            lemma_size_bound(*self, h);
            lemma_size_cap_values();
            if h > 0 {
                lemma_size_cap_pos((h - 1) as nat);
                lemma_size_cap_mono((h - 1) as nat, 2);
            }
        }
        let mut res: usize = 1;
        let mut i: usize = 0;
        while i < self.child.len()
            invariant
                node_wf(*self, h),
                h <= 3,
                i <= self.child@.len(),
                res == if max_door_sum(self.child@.take(i as int)) > 1 {
                    max_door_sum(self.child@.take(i as int))
                } else {
                    1
                },
                h > 0 ==> size_cap((h - 1) as nat) <= 16,
            decreases self.child@.len() - i,
        {
            let branch = &self.child[i];
            let mut sum: usize = 0;
            let mut j: usize = 0;
            while j < branch.labels.len()
                invariant
                    node_wf(*self, h),
                    h > 0,
                    h <= 3,
                    size_cap((h - 1) as nat) <= 16,
                    i < self.child@.len(),
                    *branch == self.child@[i as int],
                    j <= branch.labels@.len(),
                    branch.labels@.len() <= 4,
                    sum == label_sum(branch.labels@.take(j as int)),
                    sum <= j * 16,
                decreases branch.labels@.len() - j,
            {
                let node = &branch.labels[j].node;
                proof {
                    assert(node_wf(*node, (h - 1) as nat));
                    lemma_size_bound(*node, (h - 1) as nat);
                    assert(branch.labels@.take(j + 1).drop_last() =~= branch.labels@.take(j as int));
                }
                let c = node.get_size(Ghost((h - 1) as nat));
                sum = sum + c;
                j = j + 1;
            }
            proof {
                assert(branch.labels@.take(j as int) =~= branch.labels@);
                assert(self.child@.take(i + 1).drop_last() =~= self.child@.take(i as int));
                assert(self.child@.take(i + 1).last() == self.child@[i as int]);
            }
            if sum > res {
                res = sum;
            }
            i = i + 1;
        }
        proof {
            assert(self.child@.take(i as int) =~= self.child@);
        }
        res
    }

    pub fn is_unique(&self, Ghost(h): Ghost<nat>) -> (res: bool)
        requires
            node_wf(*self, h),
            h <= 3,
        ensures
            res == (self.size() == 1),
    {
        self.get_size(Ghost(h)) == 1
    }

    /// Whether the children behind `door` add up to the most rooms among all doors.
    pub fn is_max_selection(&self, door: usize, Ghost(h): Ghost<nat>) -> (res: bool)
        requires
            node_wf(*self, h),
            h <= 3,
        ensures
            res == (self.door_sum(door) == max_door_sum(self.child@)),
    {
        proof {
            lemma_size_cap_pos(h);
            lemma_size_cap_values();
            if h > 0 {
                lemma_size_cap_pos((h - 1) as nat);
                lemma_size_cap_mono((h - 1) as nat, 2);
            }
        }
        let mut max_size: usize = 0;
        let mut cur_size: usize = 0;
        let mut i: usize = 0;
        while i < self.child.len()
            invariant
                node_wf(*self, h),
                h <= 3,
                i <= self.child@.len(),
                max_size == max_door_sum(self.child@.take(i as int)),
                cur_size == if door_index(self.child@.take(i as int), door) < 0 {
                    0
                } else {
                    label_sum(self.child@.take(i as int)[door_index(self.child@.take(i as int), door)].labels@)
                },
                h > 0 ==> size_cap((h - 1) as nat) <= 16,
                max_size <= 64,
            decreases self.child@.len() - i,
        {
            let branch = &self.child[i];
            proof {
                assert(h > 0);
            }
            let mut sum: usize = 0;
            let mut j: usize = 0;
            while j < branch.labels.len()
                invariant
                    node_wf(*self, h),
                    h > 0,
                    h <= 3,
                    size_cap((h - 1) as nat) <= 16,
                    i < self.child@.len(),
                    *branch == self.child@[i as int],
                    j <= branch.labels@.len(),
                    branch.labels@.len() <= 4,
                    sum == label_sum(branch.labels@.take(j as int)),
                    sum <= j * 16,
                decreases branch.labels@.len() - j,
            {
                let node = &branch.labels[j].node;
                proof {
                    assert(node_wf(*node, (h - 1) as nat));
                    lemma_size_bound(*node, (h - 1) as nat);
                    assert(branch.labels@.take(j + 1).drop_last() =~= branch.labels@.take(j as int));
                }
                let c = node.get_size(Ghost((h - 1) as nat));
                sum = sum + c;
                j = j + 1;
            }
            proof {
                assert(branch.labels@.take(j as int) =~= branch.labels@);
                let t = self.child@.take(i + 1);
                assert(t.drop_last() =~= self.child@.take(i as int));
                assert(t.last() == self.child@[i as int]);
                if door_index(self.child@.take(i as int), door) >= 0 {
                    let k = door_index(self.child@.take(i as int), door);
                    lemma_door_index(self.child@.take(i as int), door);
                    assert(t[k] == self.child@.take(i as int)[k]);
                }
            }
            if sum > max_size {
                max_size = sum;
            }
            if branch.door == door {
                cur_size = sum;
            }
            i = i + 1;
        }
        proof {
            assert(self.child@.take(i as int) =~= self.child@);
        }
        cur_size == max_size
    }


    /// Positions of the branch of `door` and, within it, of `label`, if observed.
    fn find(&self, door: usize, label: usize, Ghost(h): Ghost<nat>) -> (res: (Option<usize>, Option<usize>))
        requires
            node_wf(*self, h),
        ensures
            res.0 is None <==> door_index(self.child@, door) < 0,
            res.0 matches Some(i) ==> i == door_index(self.child@, door) && (res.1 is None <==> label_index(
                self.child@[i as int].labels@,
                label,
            ) < 0),
            res.0 matches Some(i) ==> (res.1 matches Some(j) ==> j == label_index(self.child@[i as int].labels@, label)),
            res.0 is None ==> res.1 is None,
    {
        proof {
            lemma_door_index(self.child@, door);
        }
        let mut i: usize = 0;
        while i < self.child.len()
            invariant
                node_wf(*self, h),
                i <= self.child@.len(),
                forall|k: int| 0 <= k < i ==> #[trigger] self.child@[k].door != door,
            decreases self.child@.len() - i,
        {
            if self.child[i].door == door {
                proof {
                    lemma_door_index_unique(self.child@, door, i as int);
                    lemma_label_index(self.child@[i as int].labels@, label);
                }
                let labels = &self.child[i].labels;
                let mut j: usize = 0;
                while j < labels.len()
                    invariant
                        node_wf(*self, h),
                        i < self.child@.len(),
                        *labels == self.child@[i as int].labels,
                        door_index(self.child@, door) == i,
                        label_index(labels@, label) < 0 ==> forall|k: int| 0 <= k < labels@.len() ==> #[trigger] labels@[k].label != label,
                        j <= labels@.len(),
                        forall|k: int| 0 <= k < j ==> #[trigger] labels@[k].label != label,
                    decreases labels@.len() - j,
                {
                    if labels[j].label == label {
                        proof {
                            lemma_label_index_unique(labels@, label, j as int);
                        }
                        return (Some(i), Some(j));
                    }
                    j = j + 1;
                }
                return (Some(i), None);
            }
            i = i + 1;
        }
        (None, None)
    }

    /// The child reached through `door` showing `label`, if observed.
    pub fn get_child(&self, door: usize, label: usize, Ghost(h): Ghost<nat>) -> (res: Option<&LabelObservationNode>)
        requires
            node_wf(*self, h),
        ensures
            match self.child_at(door, label) {
                Some(c) => res matches Some(r) && *r == c,
                None => res is None,
            },
            h > 0 ==> (res matches Some(r) ==> node_wf(*r, (h - 1) as nat)),
    {
        match self.find(door, label, Ghost(h)) {
            (Some(i), Some(j)) => {
                proof {
                    lemma_door_index(self.child@, door);
                    lemma_label_index(self.child@[i as int].labels@, label);
                }
                Some(&self.child[i].labels[j].node)
            },
            _ => None,
        }
    }

    /// Records a leaf reached through `door` showing `label`, unless already observed.
    pub fn add_child(&mut self, door: usize, label: usize, Ghost(h): Ghost<nat>)
        requires
            node_wf(*old(self), h),
            h > 0,
            door < 6,
            label < 4,
        ensures
            node_wf(*final(self), h),
            final(self).child_at(door, label) is Some,
            old(self).child_at(door, label) is Some ==> *final(self) == *old(self),
            old(self).child_at(door, label) is None ==> (final(self).child_at(door, label) matches Some(c)
                && c.child@.len() == 0),
            forall|d: usize, l: usize|
                !(d == door && l == label) ==> #[trigger] final(self).child_at(d, l) == old(self).child_at(d, l),
            adds_leaf(Some(*old(self)), *final(self), door, label),
    {
        proof {
            lemma_door_index(self.child@, door);
        }
        match self.find(door, label, Ghost(h)) {
            (Some(_), Some(_)) => {
            },
            (Some(i), None) => {
                proof {
                    lemma_label_index(self.child@[i as int].labels@, label);
                    lemma_four_labels(self.child@[i as int].labels@, label);
                }
                let leaf = LabelObservationNode::new();
                let ghost old_self = *self;
                self.child[i].labels.push(LabelBranch { label, node: leaf });
                proof {
                    let bs = self.child@;
                    let ob = old_self.child@;
                    assert(bs.len() == ob.len());
                    assert(forall|k: int| 0 <= k < bs.len() && k != i ==> #[trigger] bs[k] == ob[k]);
                    assert(bs[i as int].door == ob[i as int].door);
                    assert(bs[i as int].labels@ == ob[i as int].labels@.push(LabelBranch { label, node: leaf }));
                    assert forall|k: int| 0 <= k < bs.len() implies #[trigger] bs[k].door == ob[k].door by {}
                    assert forall|a: int, b: int| 0 <= a < b < bs.len() implies bs[a].door != bs[b].door by {
                        assert(bs[a].door == ob[a].door && bs[b].door == ob[b].door);
                    }
                    assert forall|k: int, j: int|
                        0 <= k < bs.len() && 0 <= j < bs[k].labels@.len() implies #[trigger] bs[k].labels@[j].label < 4 by {
                        if k != i {
                            assert(bs[k] == ob[k]);
                        } else if j < ob[i as int].labels@.len() {
                            assert(bs[k].labels@[j] == ob[k].labels@[j]);
                        }
                    }
                    assert forall|k: int, j: int, m: int|
                        0 <= k < bs.len() && 0 <= j < m < bs[k].labels@.len() implies bs[k].labels@[j].label
                            != bs[k].labels@[m].label by {
                        if k != i {
                            assert(bs[k] == ob[k]);
                        } else {
                            assert(bs[k].labels@[j] == ob[k].labels@[j]);
                            if m < ob[i as int].labels@.len() {
                                assert(bs[k].labels@[m] == ob[k].labels@[m]);
                            }
                        }
                    }
                    assert forall|k: int, j: int|
                        0 <= k < bs.len() && 0 <= j < bs[k].labels@.len() implies node_wf(
                        #[trigger] bs[k].labels@[j].node,
                        (h - 1) as nat,
                    ) by {
                        if k != i {
                            assert(bs[k] == ob[k]);
                        } else if j < ob[i as int].labels@.len() {
                            assert(bs[k].labels@[j] == ob[k].labels@[j]);
                        }
                    }
                    assert forall|k: int| 0 <= k < bs.len() implies (#[trigger] bs[k]).labels@.len() <= 4 by {
                        if k != i {
                            assert(bs[k] == ob[k]);
                        }
                    }
                    assert(node_wf(*self, h));
                    lemma_door_index_unique(bs, door, i as int);
                    lemma_label_index_unique(bs[i as int].labels@, label, ob[i as int].labels@.len() as int);
                    assert forall|d: usize, l: usize|
                        !(d == door && l == label) implies #[trigger] self.child_at(d, l) == old_self.child_at(d, l) by {
                        lemma_door_index(bs, d);
                        lemma_door_index(ob, d);
                        let di = door_index(bs, d);
                        if di >= 0 {
                            lemma_door_index_unique(ob, d, di);
                            if di != i {
                                assert(bs[di] == ob[di]);
                            } else {
                                let ls = bs[i as int].labels@;
                                let ols = ob[i as int].labels@;
                                lemma_label_index(ls, l);
                                lemma_label_index(ols, l);
                                let li = label_index(ls, l);
                                if li >= 0 {
                                    assert(li < ols.len());
                                    assert(ls[li] == ols[li]);
                                    lemma_label_index_unique(ols, l, li);
                                } else {
                                    assert forall|k: int| 0 <= k < ols.len() implies #[trigger] ols[k].label != l by {
                                        assert(ls[k] == ols[k]);
                                    }
                                    if label_index(ols, l) >= 0 {
                                        assert(ols[label_index(ols, l)].label == l);
                                    }
                                }
                            }
                        } else {
                            if door_index(ob, d) >= 0 {
                                let oi = door_index(ob, d);
                                assert(bs[oi].door == ob[oi].door);
                            }
                        }
                    }
                }
            },
            _ => {
                let ghost old_self = *self;
                let leaf = LabelObservationNode::new();
                let mut labels: Vec<LabelBranch> = Vec::new();
                labels.push(LabelBranch { label, node: leaf });
                self.child.push(DoorBranch { door, labels });
                proof {
                    let bs = self.child@;
                    let ob = old_self.child@;
                    assert(bs == ob.push(DoorBranch { door, labels }));
                    assert forall|k: int| 0 <= k < ob.len() implies #[trigger] bs[k] == ob[k] by {}
                    assert forall|a: int, b: int| 0 <= a < b < bs.len() implies bs[a].door != bs[b].door by {
                        if b == ob.len() {
                            assert(bs[a] == ob[a]);
                        } else {
                            assert(bs[a] == ob[a] && bs[b] == ob[b]);
                        }
                    }
                    assert forall|k: int, j: int|
                        0 <= k < bs.len() && 0 <= j < bs[k].labels@.len() implies node_wf(
                        #[trigger] bs[k].labels@[j].node,
                        (h - 1) as nat,
                    ) by {
                        if k < ob.len() {
                            assert(bs[k] == ob[k]);
                        }
                    }
                    assert(node_wf(*self, h));
                    lemma_door_index_unique(bs, door, ob.len() as int);
                    lemma_label_index_unique(labels@, label, 0);
                    assert forall|d: usize, l: usize|
                        !(d == door && l == label) implies #[trigger] self.child_at(d, l) == old_self.child_at(d, l) by {
                        lemma_door_index(bs, d);
                        lemma_door_index(ob, d);
                        let di = door_index(bs, d);
                        if di >= 0 && di < ob.len() {
                            lemma_door_index_unique(ob, d, di);
                            assert(bs[di] == ob[di]);
                        } else if di == ob.len() {
                            assert(d == door);
                            lemma_label_index(labels@, l);
                        } else {
                            if door_index(ob, d) >= 0 {
                                let oi = door_index(ob, d);
                                assert(bs[oi] == ob[oi]);
                            }
                        }
                    }
                }
            },
        }
    }


    /// Records the two steps (`d0`, `l0`), (`d1`, `l1`) below this node.
    pub fn add_grandchild(&mut self, d0: usize, l0: usize, d1: usize, l1: usize, Ghost(h): Ghost<nat>)
        requires
            node_wf(*old(self), h),
            h > 1,
            d0 < 6,
            l0 < 4,
            d1 < 6,
            l1 < 4,
        ensures
            node_wf(*final(self), h),
            final(self).child_at(d0, l0) matches Some(c) && adds_leaf(old(self).child_at(d0, l0), c, d1, l1),
            forall|d: usize, l: usize|
                !(d == d0 && l == l0) ==> #[trigger] final(self).child_at(d, l) == old(self).child_at(d, l),
    {
        let ghost s0 = *self;
        self.add_child(d0, l0, Ghost(h));
        let ghost s1 = *self;
        match self.find(d0, l0, Ghost(h)) {
            (Some(i), Some(j)) => {
                proof {
                    lemma_door_index(self.child@, d0);
                    lemma_label_index(self.child@[i as int].labels@, l0);
                    assert(node_wf(self.child@[i as int].labels@[j as int].node, (h - 1) as nat));
                }
                self.child[i].labels[j].node.add_child(d1, l1, Ghost((h - 1) as nat));
                proof {
                    lemma_door_index_unique(s1.child@, d0, i as int);
                    lemma_label_index_unique(s1.child@[i as int].labels@, l0, j as int);
                    lemma_replace_child(s1, *self, i as int, j as int, h);
                }
            },
            _ => {
                proof {
                    assert(false);
                }
            },
        }
    }


    /// Records the three steps (`d0`, `l0`), (`d1`, `l1`), (`d2`, `l2`) below this node.
    pub fn add_great_grandchild(
        &mut self,
        d0: usize,
        l0: usize,
        d1: usize,
        l1: usize,
        d2: usize,
        l2: usize,
        Ghost(h): Ghost<nat>,
    )
        requires
            node_wf(*old(self), h),
            h > 2,
            d0 < 6,
            l0 < 4,
            d1 < 6,
            l1 < 4,
            d2 < 6,
            l2 < 4,
        ensures
            node_wf(*final(self), h),
            final(self).child_at(d0, l0) matches Some(c) && (c.child_at(d1, l1) matches Some(g) && adds_leaf(
                child_of(old(self).child_at(d0, l0), d1, l1),
                g,
                d2,
                l2,
            ) && forall|d: usize, l: usize|
                !(d == d1 && l == l1) ==> #[trigger] c.child_at(d, l) == child_of(old(self).child_at(d0, l0), d, l)),
            forall|d: usize, l: usize|
                !(d == d0 && l == l0) ==> #[trigger] final(self).child_at(d, l) == old(self).child_at(d, l),
    {
        self.add_grandchild(d0, l0, d1, l1, Ghost(h));
        let ghost s1 = *self;
        match self.find(d0, l0, Ghost(h)) {
            (Some(i), Some(j)) => {
                proof {
                    lemma_door_index(self.child@, d0);
                    lemma_label_index(self.child@[i as int].labels@, l0);
                    assert(node_wf(self.child@[i as int].labels@[j as int].node, (h - 1) as nat));
                }
                let ghost c1 = self.child@[i as int].labels@[j as int].node;
                self.child[i].labels[j].node.add_grandchild(d1, l1, d2, l2, Ghost((h - 1) as nat));
                proof {
                    lemma_door_index_unique(s1.child@, d0, i as int);
                    lemma_label_index_unique(s1.child@[i as int].labels@, l0, j as int);
                    lemma_replace_child(s1, *self, i as int, j as int, h);
                    let c = self.child@[i as int].labels@[j as int].node;
                    assert(c1.child_at(d1, l1) is Some);
                    assert(c.child_at(d1, l1) matches Some(g) && adds_leaf(c1.child_at(d1, l1), g, d2, l2));
                    assert(adds_leaf(old(self).child_at(d0, l0), c1, d1, l1));
                    let g1 = c1.child_at(d1, l1)->0;
                    if child_of(old(self).child_at(d0, l0), d1, l1) is Some {
                        assert(g1 == child_of(old(self).child_at(d0, l0), d1, l1)->0);
                    } else {
                        assert(g1.child@.len() == 0);
                        assert(forall|d: usize, l: usize| #[trigger] g1.child_at(d, l) is None);
                    }
                }
            },
            _ => {
                proof {
                    assert(false);
                }
            },
        }
    }

    /// The child reached through door `d` showing label `l`, if observed.
    pub open spec fn child_at(self, d: usize, l: usize) -> Option<LabelObservationNode> {
        let i = door_index(self.child@, d);
        if i < 0 {
            None
        } else {
            let j = label_index(self.child@[i].labels@, l);
            if j < 0 {
                None
            } else {
                Some(self.child@[i].labels@[j].node)
            }
        }
    }

    /// The sum of the sizes of the children behind door `d` (0 if never taken).
    pub open spec fn door_sum(self, d: usize) -> nat {
        let i = door_index(self.child@, d);
        if i < 0 {
            0
        } else {
            label_sum(self.child@[i].labels@)
        }
    }
}


/// The children behind door `d` add up to the most rooms among the doors of `n`.
pub open spec fn is_max_door(n: LabelObservationNode, d: usize) -> bool {
    n.door_sum(d) == max_door_sum(n.child@)
}

/// Number of rooms among `n` whose index is `l` modulo 4 (for `l < 4`).
pub open spec fn rooms_with_label(n: nat, l: nat) -> nat {
    ((n + 3 - l) / 4) as nat
}

/// For each starting label, the tree of (door, label) sequences seen after it, up
/// to three steps, and how many rooms carry that label.
pub struct LabelObservation {
    nodes: [LabelObservationNode; 4],
    room_count: [usize; 4],
}

impl LabelObservation {
    /// The tree of observations after label `l`.
    pub closed spec fn node(&self, l: int) -> LabelObservationNode {
        self.nodes@[l]
    }

    /// How many rooms carry each label.
    pub closed spec fn room_counts(&self) -> Seq<usize> {
        self.room_count@
    }

    pub closed spec fn wf(&self) -> bool {
        &&& self.nodes@.len() == 4
        &&& self.room_count@.len() == 4
        &&& forall|l: int| 0 <= l < 4 ==> node_wf(#[trigger] self.nodes@[l], 3)
    }


    pub open spec fn unique_1step(&self, l: usize, d: usize, dl: usize) -> bool {
        &&& self.room_counts()[l as int] == self.node(l as int).size()
        &&& is_max_door(self.node(l as int), d)
        &&& self.node(l as int).child_at(d, dl) matches Some(c) && c.size() == 1
    }

    pub open spec fn unique_2step(&self, l0: usize, d0: usize, l1: usize, d1: usize, dl: usize) -> bool {
        &&& self.room_counts()[l0 as int] == self.node(l0 as int).size()
        &&& is_max_door(self.node(l0 as int), d0)
        &&& self.node(l0 as int).child_at(d0, l1) matches Some(c) && {
            &&& is_max_door(c, d1)
            &&& c.child_at(d1, dl) matches Some(g) && g.size() == 1
        }
    }

    pub open spec fn unique_3step(&self, l: Seq<usize>, d: Seq<usize>, dl: usize) -> bool {
        &&& self.room_counts()[l[0] as int] == self.node(l[0] as int).size()
        &&& is_max_door(self.node(l[0] as int), d[0])
        &&& self.node(l[0] as int).child_at(d[0], l[1]) matches Some(c0) && {
            &&& is_max_door(c0, d[1])
            &&& c0.child_at(d[1], l[2]) matches Some(c1) && {
                &&& is_max_door(c1, d[2])
                &&& c1.child_at(d[2], dl) matches Some(c2) && c2.size() == 1
            }
        }
    }

    pub fn get_room_count(&self) -> (res: &[usize; 4])
        requires
            self.wf(),
        ensures
            res@ == self.room_counts(),
    {
        &self.room_count
    }

    /// How many rooms the observations after `label` call for at least.
    pub fn get_size(&self, label: usize) -> (res: usize)
        requires
            self.wf(),
            label < 4,
        ensures
            res == self.node(label as int).size(),
            res <= 64,
    {
        proof {
            lemma_size_bound(self.nodes@[label as int], 3);
            lemma_size_cap_values();
        }
        self.nodes[label].get_size(Ghost(3))
    }

    /// The sizes of the four trees, added up.
    pub fn get_sum_size(&self) -> (res: usize)
        requires
            self.wf(),
        ensures
            res == self.node(0).size() + self.node(1).size() + self.node(2).size() + self.node(3).size(),
    {
        let a = self.get_size(0);
        let b = self.get_size(1);
        let c = self.get_size(2);
        let d = self.get_size(3);
        a + b + c + d
    }

    /// Records that a room labelled `label` led through `door` to one labelled `destination_label`.
    pub fn add_child(&mut self, label: usize, door: usize, destination_label: usize)
        requires
            old(self).wf(),
            label < 4,
            door < 6,
            destination_label < 4,
        ensures
            final(self).wf(),
            final(self).room_counts() == old(self).room_counts(),
            forall|l: int| 0 <= l < 4 && l != label ==> #[trigger] final(self).node(l) == old(self).node(l),
            adds_leaf(Some(old(self).node(label as int)), final(self).node(label as int), door, destination_label),
            forall|l: int, p: Seq<(usize, usize)>|
                0 <= l < 4 && has_path(old(self).node(l), p) ==> #[trigger] has_path(final(self).node(l), p),
            has_path(final(self).node(label as int), seq![(door, destination_label)]),
            path_recorded(*old(self), *final(self), label as int, seq![(door, destination_label)]),
            forall|l: int, p: Seq<(usize, usize)>|
                0 <= l < 4 && #[trigger] has_path(final(self).node(l), p) ==> has_path(old(self).node(l), p) || (l == label
                    && starts_path(p, seq![(door, destination_label)])),
    {
        self.nodes[label].add_child(door, destination_label, Ghost(3));
        proof {
            assert forall|l: int, p: Seq<(usize, usize)>|
                0 <= l < 4 && #[trigger] has_path(self.node(l), p) implies has_path(old(self).node(l), p) || (l == label
                    && starts_path(p, seq![(door, destination_label)])) by {
                if l == label {
                    lemma_adds_leaf_only(Some(old(self).node(l)), self.node(l), door, destination_label, p);
                    if p.len() == 0 {
                        assert(has_path(old(self).node(l), p));
                    }
                    if p == seq![(door, destination_label)] {
                        assert(p =~= seq![(door, destination_label)].take(1));
                    }
                }
            }
            assert forall|l: int, p: Seq<(usize, usize)>|
                0 <= l < 4 && has_path(old(self).node(l), p) implies #[trigger] has_path(self.node(l), p) by {
                if l == label {
                    lemma_adds_leaf_keeps(old(self).node(l), self.node(l), door, destination_label, p);
                }
            }
            let q = seq![(door, destination_label)];
            assert(q.drop_first() =~= Seq::<(usize, usize)>::empty());
            let c = self.node(label as int).child_at(door, destination_label)->0;
            assert(has_path(c, q.drop_first()));
        }
    }


    /// Records a room labelled `label0` that led through `door0` to one labelled
    /// `label1`, which led through `door1` to one labelled `destination_label`.
    pub fn add_child_2step(
        &mut self,
        label0: usize,
        door0: usize,
        label1: usize,
        door1: usize,
        destination_label: usize,
    )
        requires
            old(self).wf(),
            label0 < 4,
            door0 < 6,
            label1 < 4,
            door1 < 6,
            destination_label < 4,
        ensures
            final(self).wf(),
            final(self).room_counts() == old(self).room_counts(),
            forall|l: int| 0 <= l < 4 && l != label0 ==> #[trigger] final(self).node(l) == old(self).node(l),
            final(self).node(label0 as int).child_at(door0, label1) matches Some(c) && adds_leaf(
                old(self).node(label0 as int).child_at(door0, label1),
                c,
                door1,
                destination_label,
            ),
            forall|d: usize, l: usize|
                !(d == door0 && l == label1) ==> #[trigger] final(self).node(label0 as int).child_at(d, l) == old(
                    self,
                ).node(label0 as int).child_at(d, l),
            forall|l: int, p: Seq<(usize, usize)>|
                0 <= l < 4 && has_path(old(self).node(l), p) ==> #[trigger] has_path(final(self).node(l), p),
            has_path(final(self).node(label0 as int), seq![(door0, label1), (door1, destination_label)]),
            path_recorded(*old(self), *final(self), label0 as int, seq![(door0, label1), (door1, destination_label)]),
            forall|l: int, p: Seq<(usize, usize)>|
                0 <= l < 4 && #[trigger] has_path(final(self).node(l), p) ==> has_path(old(self).node(l), p) || (l == label0
                    && starts_path(p, seq![(door0, label1), (door1, destination_label)])),
    {
        self.nodes[label0].add_grandchild(door0, label1, door1, destination_label, Ghost(3));
        proof {
            let added = seq![(door0, label1), (door1, destination_label)];
            assert forall|l: int, p: Seq<(usize, usize)>|
                0 <= l < 4 && #[trigger] has_path(self.node(l), p) implies has_path(old(self).node(l), p) || (l == label0
                    && starts_path(p, added)) by {
                if l == label0 {
                    if p.len() == 0 {
                        assert(has_path(old(self).node(l), p));
                    } else if p[0].0 == door0 && p[0].1 == label1 {
                        let oc = old(self).node(l).child_at(door0, label1);
                        let c = self.node(l).child_at(door0, label1)->0;
                        let rest = p.drop_first();
                        assert(has_path(c, rest));
                        lemma_adds_leaf_only(oc, c, door1, destination_label, rest);
                        if rest.len() == 0 {
                            assert(p =~= added.take(1));
                        } else if rest == seq![(door1, destination_label)] {
                            assert(p =~= added.take(2));
                        } else {
                            assert(oc matches Some(o) && has_path(o, rest));
                            assert(has_path(old(self).node(l), p));
                        }
                    } else {
                        assert(self.node(l).child_at(p[0].0, p[0].1) == old(self).node(l).child_at(p[0].0, p[0].1));
                    }
                }
            }
            assert forall|l: int, p: Seq<(usize, usize)>|
                0 <= l < 4 && has_path(old(self).node(l), p) implies #[trigger] has_path(self.node(l), p) by {
                if l == label0 && p.len() > 0 {
                    if p[0].0 == door0 && p[0].1 == label1 {
                        let o = old(self).node(l).child_at(door0, label1)->0;
                        let c = self.node(l).child_at(door0, label1)->0;
                        lemma_adds_leaf_keeps(o, c, door1, destination_label, p.drop_first());
                    } else {
                        assert(self.node(l).child_at(p[0].0, p[0].1) == old(self).node(l).child_at(p[0].0, p[0].1));
                    }
                }
            }
            let q = seq![(door0, label1), (door1, destination_label)];
            assert(q.drop_first() =~= seq![(door1, destination_label)]);
            assert(q.drop_first().drop_first() =~= Seq::<(usize, usize)>::empty());
            let c = self.node(label0 as int).child_at(door0, label1)->0;
            let g = c.child_at(door1, destination_label)->0;
            assert(has_path(g, q.drop_first().drop_first()));
            assert(has_path(c, q.drop_first()));
        }
    }

    /// Records three steps from a room labelled `label[0]`: through `door[0]` to
    /// `label[1]`, through `door[1]` to `label[2]`, through `door[2]` to `destination_label`.
    pub fn add_child_3step(&mut self, label: &[usize], door: &[usize], destination_label: usize)
        requires
            old(self).wf(),
            label@.len() >= 3,
            door@.len() >= 3,
            label@[0] < 4,
            label@[1] < 4,
            label@[2] < 4,
            door@[0] < 6,
            door@[1] < 6,
            door@[2] < 6,
            destination_label < 4,
        ensures
            final(self).wf(),
            final(self).room_counts() == old(self).room_counts(),
            forall|l: int| 0 <= l < 4 && l != label@[0] ==> #[trigger] final(self).node(l) == old(self).node(l),
            final(self).node(label@[0] as int).child_at(door@[0], label@[1]) matches Some(c) && (c.child_at(
                door@[1],
                label@[2],
            ) matches Some(g) && adds_leaf(
                child_of(old(self).node(label@[0] as int).child_at(door@[0], label@[1]), door@[1], label@[2]),
                g,
                door@[2],
                destination_label,
            ) && forall|d: usize, l: usize|
                !(d == door@[1] && l == label@[2]) ==> #[trigger] c.child_at(d, l) == child_of(
                    old(self).node(label@[0] as int).child_at(door@[0], label@[1]),
                    d,
                    l,
                )),
            forall|d: usize, l: usize|
                !(d == door@[0] && l == label@[1]) ==> #[trigger] final(self).node(label@[0] as int).child_at(d, l)
                    == old(self).node(label@[0] as int).child_at(d, l),
            forall|l: int, p: Seq<(usize, usize)>|
                0 <= l < 4 && has_path(old(self).node(l), p) ==> #[trigger] has_path(final(self).node(l), p),
            has_path(
                final(self).node(label@[0] as int),
                seq![(door@[0], label@[1]), (door@[1], label@[2]), (door@[2], destination_label)],
            ),
            forall|l: int, p: Seq<(usize, usize)>|
                0 <= l < 4 && #[trigger] has_path(final(self).node(l), p) ==> has_path(old(self).node(l), p) || (l
                    == label@[0] && starts_path(
                    p,
                    seq![(door@[0], label@[1]), (door@[1], label@[2]), (door@[2], destination_label)],
                )),
            path_recorded(
                *old(self),
                *final(self),
                label@[0] as int,
                seq![(door@[0], label@[1]), (door@[1], label@[2]), (door@[2], destination_label)],
            ),
    {
        self.nodes[label[0]].add_great_grandchild(
            door[0],
            label[1],
            door[1],
            label[2],
            door[2],
            destination_label,
            Ghost(3),
        );
        proof {
            let l0 = label@[0];
            assert forall|l: int, p: Seq<(usize, usize)>|
                0 <= l < 4 && has_path(old(self).node(l), p) implies #[trigger] has_path(self.node(l), p) by {
                if l == l0 && p.len() > 0 {
                    if p[0].0 == door@[0] && p[0].1 == label@[1] {
                        let o = old(self).node(l).child_at(door@[0], label@[1])->0;
                        let c = self.node(l).child_at(door@[0], label@[1])->0;
                        let r = p.drop_first();
                        assert(has_path(o, r));
                        if r.len() > 0 {
                            if r[0].0 == door@[1] && r[0].1 == label@[2] {
                                assert(o.child_at(r[0].0, r[0].1) is Some);
                                let og = o.child_at(door@[1], label@[2])->0;
                                let g = c.child_at(door@[1], label@[2])->0;
                                assert(has_path(og, r.drop_first()));
                                assert(child_of(old(self).node(l).child_at(door@[0], label@[1]), door@[1], label@[2]) == Some(og));
                                lemma_adds_leaf_keeps(og, g, door@[2], destination_label, r.drop_first());
                            } else {
                                assert(c.child_at(r[0].0, r[0].1) == o.child_at(r[0].0, r[0].1));
                                assert(o.child_at(r[0].0, r[0].1) is Some);
                                assert(has_path(o.child_at(r[0].0, r[0].1)->0, r.drop_first()));
                            }
                        }
                        assert(has_path(c, r));
                    } else {
                        assert(self.node(l).child_at(p[0].0, p[0].1) == old(self).node(l).child_at(p[0].0, p[0].1));
                    }
                }
            }
            let q = seq![(door@[0], label@[1]), (door@[1], label@[2]), (door@[2], destination_label)];
            assert(q.drop_first() =~= seq![(door@[1], label@[2]), (door@[2], destination_label)]);
            assert(q.drop_first().drop_first() =~= seq![(door@[2], destination_label)]);
            assert(q.drop_first().drop_first().drop_first() =~= Seq::<(usize, usize)>::empty());
            let c = self.node(l0 as int).child_at(door@[0], label@[1])->0;
            let g = c.child_at(door@[1], label@[2])->0;
            let e = g.child_at(door@[2], destination_label)->0;
            assert(has_path(e, q.drop_first().drop_first().drop_first()));
            assert(has_path(g, q.drop_first().drop_first()));
            assert(has_path(c, q.drop_first()));
            assert forall|l: int, p: Seq<(usize, usize)>|
                0 <= l < 4 && #[trigger] has_path(self.node(l), p) implies has_path(old(self).node(l), p) || (l == l0
                    && starts_path(p, q)) by {
                if l == l0 {
                    if p.len() == 0 {
                        assert(has_path(old(self).node(l), p));
                    } else if p[0].0 == door@[0] && p[0].1 == label@[1] {
                        let oc = old(self).node(l).child_at(door@[0], label@[1]);
                        let r = p.drop_first();
                        assert(has_path(c, r));
                        if r.len() == 0 {
                            assert(p =~= q.take(1));
                        } else if r[0].0 == door@[1] && r[0].1 == label@[2] {
                            let rr = r.drop_first();
                            assert(has_path(g, rr));
                            lemma_adds_leaf_only(child_of(oc, door@[1], label@[2]), g, door@[2], destination_label, rr);
                            if rr.len() == 0 {
                                assert(p =~= q.take(2));
                            } else if rr == seq![(door@[2], destination_label)] {
                                assert(p =~= q.take(3));
                            } else {
                                let o = oc->0;
                                assert(has_path(o, r));
                                assert(has_path(old(self).node(l), p));
                            }
                        } else {
                            assert(c.child_at(r[0].0, r[0].1) == child_of(oc, r[0].0, r[0].1));
                            let o = oc->0;
                            assert(has_path(o, r));
                            assert(has_path(old(self).node(l), p));
                        }
                    } else {
                        assert(self.node(l).child_at(p[0].0, p[0].1) == old(self).node(l).child_at(p[0].0, p[0].1));
                    }
                }
            }
        }
    }

    /// Whether, from a label whose rooms are all told apart, the door with the most
    /// rooms behind it leads to exactly one room showing `destination_label`.
    pub fn is_unique_1step(&self, label: usize, door: usize, destination_label: usize) -> (res: bool)
        requires
            self.wf(),
            label < 4,
        ensures
            res == self.unique_1step(label, door, destination_label),
    {
        let node = &self.nodes[label];
        if self.room_count[label] != self.get_size(label) {
            return false;
        }
        if !node.is_max_selection(door, Ghost(3)) {
            return false;
        }
        match node.get_child(door, destination_label, Ghost(3)) {
            Some(c) => c.is_unique(Ghost(2)),
            None => false,
        }
    }

    /// Like `is_unique_1step`, two steps deep.
    pub fn is_unique_2step(
        &self,
        label0: usize,
        door0: usize,
        label1: usize,
        door1: usize,
        destination_label: usize,
    ) -> (res: bool)
        requires
            self.wf(),
            label0 < 4,
        ensures
            res == self.unique_2step(label0, door0, label1, door1, destination_label),
    {
        if self.room_count[label0] != self.get_size(label0) {
            return false;
        }
        let node = &self.nodes[label0];
        if !node.is_max_selection(door0, Ghost(3)) {
            return false;
        }
        let child = node.get_child(door0, label1, Ghost(3));
        if child.is_none() {
            return false;
        }
        let child = child.unwrap();
        if !child.is_max_selection(door1, Ghost(2)) {
            return false;
        }
        let child = child.get_child(door1, destination_label, Ghost(2));
        if child.is_none() {
            return false;
        }
        let child = child.unwrap();
        child.is_unique(Ghost(1))
    }

    /// Like `is_unique_1step`, three steps deep.
    pub fn is_unique_3step(&self, label: &[usize], door: &[usize], destination_label: usize) -> (res: bool)
        requires
            self.wf(),
            label@.len() >= 3,
            door@.len() >= 3,
            label@[0] < 4,
        ensures
            res == self.unique_3step(label@, door@, destination_label),
    {
        if self.room_count[label[0]] != self.get_size(label[0]) {
            return false;
        }
        let node = &self.nodes[label[0]];
        if !node.is_max_selection(door[0], Ghost(3)) {
            return false;
        }
        let child0 = node.get_child(door[0], label[1], Ghost(3));
        if child0.is_none() {
            return false;
        }
        let child0 = child0.unwrap();
        if !child0.is_max_selection(door[1], Ghost(2)) {
            return false;
        }
        let child1 = child0.get_child(door[1], label[2], Ghost(2));
        if child1.is_none() {
            return false;
        }
        let child1 = child1.unwrap();
        if !child1.is_max_selection(door[2], Ghost(1)) {
            return false;
        }
        let child2 = child1.get_child(door[2], destination_label, Ghost(1));
        if child2.is_none() {
            return false;
        }
        let child2 = child2.unwrap();
        child2.is_unique(Ghost(0))
    }


    /// `actions`, followed by `dest`, is a shortest walk (of at most three steps)
    /// whose end is told apart by the observations: every shorter prefix is not.
    pub open spec fn unique_entry(&self, actions: Seq<Action>, dest: usize) -> bool {
        &&& 1 <= actions.len() <= 3
        &&& forall|i: int| 0 <= i < actions.len() ==> #[trigger] actions[i].label < 4 && actions[i].door < 6
        &&& dest < 4
        &&& actions.len() == 1 ==> self.unique_1step(actions[0].label, actions[0].door, dest)
        &&& actions.len() == 2 ==> !self.unique_1step(actions[0].label, actions[0].door, actions[1].label)
            && self.unique_2step(actions[0].label, actions[0].door, actions[1].label, actions[1].door, dest)
        &&& actions.len() == 3 ==> !self.unique_1step(actions[0].label, actions[0].door, actions[1].label)
            && !self.unique_2step(actions[0].label, actions[0].door, actions[1].label, actions[1].door, actions[2].label)
            && self.unique_3step(
            seq![actions[0].label, actions[1].label, actions[2].label],
            seq![actions[0].door, actions[1].door, actions[2].door],
            dest,
        )
    }

    /// Every walk of at most three steps whose end the observations tell apart,
    /// the shortest form of each, with its final label; in the order of its labels
    /// and doors, and nothing else.
    pub fn get_unique_paths(&self) -> (res: Vec<(Vec<Action>, usize)>)
        requires
            self.wf(),
        ensures
            forall|k: int| 0 <= k < res@.len() ==> self.unique_entry((#[trigger] res@[k]).0@, res@[k].1),
            forall|actions: Seq<Action>, dest: usize| #[trigger] self.unique_entry(actions, dest) ==> in_found(res@, actions, dest),
            sorted_codes(res@),
    {
        let mut res: Vec<(Vec<Action>, usize)> = Vec::new();
        let mut label0: usize = 0;
        while label0 < 4
            invariant
                self.wf(),
                label0 <= 4,
                forall|k: int| 0 <= k < res@.len() ==> self.unique_entry((#[trigger] res@[k]).0@, res@[k].1),
                found_before(*self, res@, position_code(label0 as int, 0, 0, 0, 0, 0, 0)),
                codes_below(res@, position_code(label0 as int, 0, 0, 0, 0, 0, 0)),
                sorted_codes(res@),
            decreases 4 - label0,
        {
            let mut door0: usize = 0;
            while door0 < 6
                invariant
                    self.wf(),
                    label0 < 4,
                    door0 <= 6,
                    forall|k: int| 0 <= k < res@.len() ==> self.unique_entry((#[trigger] res@[k]).0@, res@[k].1),
                    found_before(*self, res@, position_code(label0 as int, door0 as int, 0, 0, 0, 0, 0)),
                    codes_below(res@, position_code(label0 as int, door0 as int, 0, 0, 0, 0, 0)),
                    sorted_codes(res@),
                decreases 6 - door0,
            {
                let mut label1: usize = 0;
                while label1 < 4
                    invariant
                        self.wf(),
                        label0 < 4,
                        door0 < 6,
                        label1 <= 4,
                        forall|k: int| 0 <= k < res@.len() ==> self.unique_entry((#[trigger] res@[k]).0@, res@[k].1),
                        found_before(*self, res@, position_code(label0 as int, door0 as int, label1 as int, 0, 0, 0, 0)),
                        codes_below(res@, position_code(label0 as int, door0 as int, label1 as int, 0, 0, 0, 0)),
                        sorted_codes(res@),
                    decreases 4 - label1,
                {
                    if self.is_unique_1step(label0, door0, label1) {
                        let path = vec![Action::new(label0, door0)];
                        let ghost before = res@;
                        res.push((path, label1));
                        proof {
                            lemma_found_push(*self, before, res@, position_code(label0 as int, door0 as int, label1 as int, 0, 0, 0, 0));
                            assert forall|actions: Seq<Action>, dest: usize|
                                #[trigger] self.unique_entry(actions, dest) && entry_code(actions, dest) < position_code(
                                    label0 as int,
                                    door0 as int,
                                    label1 as int + 1,
                                    0,
                                    0,
                                    0,
                                    0,
                                ) implies in_found(res@, actions, dest) by {
                                if entry_code(actions, dest) >= position_code(label0 as int, door0 as int, label1 as int, 0, 0, 0, 0) {
                                    lemma_level1(*self, actions, dest, label0 as int, door0 as int, label1 as int);
                                    assert(actions =~= res@[res@.len() - 1].0@);
                                    assert(res@[res@.len() - 1].1 == dest);
                                }
                            }
                        }
                    } else {
                        let mut door1: usize = 0;
                        while door1 < 6
                            invariant
                                self.wf(),
                                label0 < 4,
                                door0 < 6,
                                label1 < 4,
                                door1 <= 6,
                                !self.unique_1step(label0, door0, label1),
                                forall|k: int| 0 <= k < res@.len() ==> self.unique_entry((#[trigger] res@[k]).0@, res@[k].1),
                                found_before(*self, res@, position_code(label0 as int, door0 as int, label1 as int, door1 as int, 0, 0, 0)),
                                codes_below(res@, position_code(label0 as int, door0 as int, label1 as int, door1 as int, 0, 0, 0)),
                                sorted_codes(res@),
                            decreases 6 - door1,
                        {
                            let mut label2: usize = 0;
                            while label2 < 4
                                invariant
                                    self.wf(),
                                    label0 < 4,
                                    door0 < 6,
                                    label1 < 4,
                                    door1 < 6,
                                    label2 <= 4,
                                    !self.unique_1step(label0, door0, label1),
                                    forall|k: int| 0 <= k < res@.len() ==> self.unique_entry((#[trigger] res@[k]).0@, res@[k].1),
                                    found_before(
                                        *self,
                                        res@,
                                        position_code(label0 as int, door0 as int, label1 as int, door1 as int, label2 as int, 0, 0),
                                    ),
                                    codes_below(
                                        res@,
                                        position_code(label0 as int, door0 as int, label1 as int, door1 as int, label2 as int, 0, 0),
                                    ),
                                    sorted_codes(res@),
                                decreases 4 - label2,
                            {
                                if self.is_unique_2step(label0, door0, label1, door1, label2) {
                                    let path = vec![Action::new(label0, door0), Action::new(label1, door1)];
                                    let ghost before = res@;
                                    res.push((path, label2));
                                    proof {
                                        lemma_found_push(
                                            *self,
                                            before,
                                            res@,
                                            position_code(label0 as int, door0 as int, label1 as int, door1 as int, label2 as int, 0, 0),
                                        );
                                        assert forall|actions: Seq<Action>, dest: usize|
                                            #[trigger] self.unique_entry(actions, dest) && entry_code(actions, dest) < position_code(
                                                label0 as int,
                                                door0 as int,
                                                label1 as int,
                                                door1 as int,
                                                label2 as int + 1,
                                                0,
                                                0,
                                            ) implies in_found(res@, actions, dest) by {
                                            if entry_code(actions, dest) >= position_code(
                                                label0 as int,
                                                door0 as int,
                                                label1 as int,
                                                door1 as int,
                                                label2 as int,
                                                0,
                                                0,
                                            ) {
                                                lemma_level2(
                                                    *self,
                                                    actions,
                                                    dest,
                                                    label0 as int,
                                                    door0 as int,
                                                    label1 as int,
                                                    door1 as int,
                                                    label2 as int,
                                                );
                                                assert(actions =~= res@[res@.len() - 1].0@);
                                                assert(res@[res@.len() - 1].1 == dest);
                                            }
                                        }
                                    }
                                } else {
                                    let mut door2: usize = 0;
                                    while door2 < 6
                                        invariant
                                            self.wf(),
                                            label0 < 4,
                                            door0 < 6,
                                            label1 < 4,
                                            door1 < 6,
                                            label2 < 4,
                                            door2 <= 6,
                                            !self.unique_1step(label0, door0, label1),
                                            !self.unique_2step(label0, door0, label1, door1, label2),
                                            forall|k: int| 0 <= k < res@.len() ==> self.unique_entry((#[trigger] res@[k]).0@, res@[k].1),
                                            found_before(
                                                *self,
                                                res@,
                                                position_code(
                                                    label0 as int,
                                                    door0 as int,
                                                    label1 as int,
                                                    door1 as int,
                                                    label2 as int,
                                                    door2 as int,
                                                    0,
                                                ),
                                            ),
                                            codes_below(
                                                res@,
                                                position_code(
                                                    label0 as int,
                                                    door0 as int,
                                                    label1 as int,
                                                    door1 as int,
                                                    label2 as int,
                                                    door2 as int,
                                                    0,
                                                ),
                                            ),
                                            sorted_codes(res@),
                                        decreases 6 - door2,
                                    {
                                        let mut label3: usize = 0;
                                        while label3 < 4
                                            invariant
                                                self.wf(),
                                                label0 < 4,
                                                door0 < 6,
                                                label1 < 4,
                                                door1 < 6,
                                                label2 < 4,
                                                door2 < 6,
                                                label3 <= 4,
                                                !self.unique_1step(label0, door0, label1),
                                                !self.unique_2step(label0, door0, label1, door1, label2),
                                                forall|k: int| 0 <= k < res@.len() ==> self.unique_entry((#[trigger] res@[k]).0@, res@[k].1),
                                                found_before(
                                                    *self,
                                                    res@,
                                                    position_code(
                                                        label0 as int,
                                                        door0 as int,
                                                        label1 as int,
                                                        door1 as int,
                                                        label2 as int,
                                                        door2 as int,
                                                        label3 as int,
                                                    ),
                                                ),
                                                codes_below(
                                                    res@,
                                                    position_code(
                                                        label0 as int,
                                                        door0 as int,
                                                        label1 as int,
                                                        door1 as int,
                                                        label2 as int,
                                                        door2 as int,
                                                        label3 as int,
                                                    ),
                                                ),
                                                sorted_codes(res@),
                                            decreases 4 - label3,
                                        {
                                            let labels = [label0, label1, label2];
                                            let doors = [door0, door1, door2];
                                            let ghost before = res@;
                                            let ghost here = position_code(
                                                label0 as int,
                                                door0 as int,
                                                label1 as int,
                                                door1 as int,
                                                label2 as int,
                                                door2 as int,
                                                label3 as int,
                                            );
                                            if self.is_unique_3step(&labels, &doors, label3) {
                                                let path = vec![
                                                    Action::new(label0, door0),
                                                    Action::new(label1, door1),
                                                    Action::new(label2, door2),
                                                ];
                                                proof {
                                                    assert(labels@ == seq![label0, label1, label2]);
                                                    assert(doors@ == seq![door0, door1, door2]);
                                                }
                                                res.push((path, label3));
                                                proof {
                                                    lemma_found_push(*self, before, res@, here);
                                                }
                                            }
                                            proof {
                                                assert forall|actions: Seq<Action>, dest: usize|
                                                    #[trigger] self.unique_entry(actions, dest) && entry_code(actions, dest) < here + 1
                                                    implies in_found(res@, actions, dest) by {
                                                    if entry_code(actions, dest) == here {
                                                        lemma_level3(
                                                            *self,
                                                            actions,
                                                            dest,
                                                            label0 as int,
                                                            door0 as int,
                                                            label1 as int,
                                                            door1 as int,
                                                            label2 as int,
                                                            door2 as int,
                                                            label3 as int,
                                                        );
                                                        assert(labels@ == seq![label0, label1, label2]);
                                                        assert(doors@ == seq![door0, door1, door2]);
                                                        assert(actions =~= res@[res@.len() - 1].0@);
                                                        assert(res@[res@.len() - 1].1 == dest);
                                                    }
                                                }
                                            }
                                            label3 = label3 + 1;
                                        }
                                        door2 = door2 + 1;
                                    }
                                }
                                label2 = label2 + 1;
                            }
                            door1 = door1 + 1;
                        }
                        proof {
                            assert forall|actions: Seq<Action>, dest: usize|
                                #[trigger] self.unique_entry(actions, dest) && entry_code(actions, dest) < position_code(
                                    label0 as int,
                                    door0 as int,
                                    label1 as int + 1,
                                    0,
                                    0,
                                    0,
                                    0,
                                ) implies in_found(res@, actions, dest) by {
                                assert(position_code(label0 as int, door0 as int, label1 as int, 6, 0, 0, 0) == position_code(
                                    label0 as int,
                                    door0 as int,
                                    label1 as int + 1,
                                    0,
                                    0,
                                    0,
                                    0,
                                ));
                            }
                        }
                    }
                    label1 = label1 + 1;
                }
                door0 = door0 + 1;
            }
            label0 = label0 + 1;
        }
        proof {
            assert forall|actions: Seq<Action>, dest: usize| #[trigger] self.unique_entry(actions, dest) implies in_found(
                res@,
                actions,
                dest,
            ) by {
                lemma_entry_bounds(*self, actions, dest);
            }
        }
        res
    }

    /// No observation yet, for a map of `node_count` rooms labelled by index modulo 4.
    pub fn new(node_count: usize) -> (res: Self)
        ensures
            res.wf(),
            forall|l: int| 0 <= l < 4 ==> (#[trigger] res.node(l)).child@.len() == 0,
            res.room_counts().len() == 4,
            forall|l: int| 0 <= l < 4 ==> #[trigger] res.room_counts()[l] == rooms_with_label(node_count as nat, l as nat),
    {
        let q = node_count / 4;
        let r = node_count % 4;
        let res = Self {
            nodes: [
                LabelObservationNode::new(),
                LabelObservationNode::new(),
                LabelObservationNode::new(),
                LabelObservationNode::new(),
            ],
            room_count: [
                if r == 0 { q } else { q + 1 },
                if r >= 2 { q + 1 } else { q },
                if r >= 3 { q + 1 } else { q },
                q,
            ],
        };
        proof {
            let n = node_count as int;
            assert(n == 4 * q + r && 0 <= r < 4) by (nonlinear_arith)
                requires
                    q == n / 4,
                    r == n % 4,
                    n >= 0,
            ;
            assert forall|l: int| 0 <= l < 4 implies #[trigger] res.room_counts()[l] == rooms_with_label(n as nat, l as nat) by {
                assert((n + 3 - l) / 4 == q + if r + 3 - l >= 4 { 1int } else { 0int }) by (nonlinear_arith)
                    requires
                        n == 4 * q + r,
                        0 <= r < 4,
                        0 <= l < 4,
                        q >= 0,
                ;
            }
        }
        res
    }
}

/// The rooms of the four labels, numbered `0..n` and labelled by their number
/// modulo 4, add up to all `n` rooms.
pub proof fn lemma_room_counts_total(n: nat)
    ensures
        rooms_with_label(n, 0) + rooms_with_label(n, 1) + rooms_with_label(n, 2) + rooms_with_label(n, 3) == n,
{
    let q = n / 4;
    let r = n % 4;
    assert(n == 4 * q + r);
}

/// The place of a loop position of `get_unique_paths` in its order: labels and
/// doors of the walk, then the final label.
pub open spec fn position_code(l0: int, d0: int, l1: int, d1: int, l2: int, d2: int, l3: int) -> int {
    (((((l0 * 6 + d0) * 4 + l1) * 6 + d1) * 4 + l2) * 6 + d2) * 4 + l3
}

/// The place of an entry in that order: the last position of the loop iteration
/// that finds it.
pub open spec fn entry_code(actions: Seq<Action>, dest: usize) -> int {
    if actions.len() == 1 {
        position_code(actions[0].label as int, actions[0].door as int, dest as int, 5, 3, 5, 3)
    } else if actions.len() == 2 {
        position_code(
            actions[0].label as int,
            actions[0].door as int,
            actions[1].label as int,
            actions[1].door as int,
            dest as int,
            5,
            3,
        )
    } else {
        position_code(
            actions[0].label as int,
            actions[0].door as int,
            actions[1].label as int,
            actions[1].door as int,
            actions[2].label as int,
            actions[2].door as int,
            dest as int,
        )
    }
}

/// `(actions, dest)` is one of the entries of `res`.
pub open spec fn in_found(res: Seq<(Vec<Action>, usize)>, actions: Seq<Action>, dest: usize) -> bool {
    exists|k: int| 0 <= k < res.len() && #[trigger] res[k].0@ == actions && res[k].1 == dest
}

/// Every entry of `res` is placed before `code`.
pub open spec fn codes_below(res: Seq<(Vec<Action>, usize)>, code: int) -> bool {
    forall|k: int| 0 <= k < res.len() ==> entry_code((#[trigger] res[k]).0@, res[k].1) < code
}

/// The entries of `res` come in the order of their places.
pub open spec fn sorted_codes(res: Seq<(Vec<Action>, usize)>) -> bool {
    forall|a: int, b: int| 0 <= a < b < res.len() ==> entry_code((#[trigger] res[a]).0@, res[a].1) < entry_code(
        (#[trigger] res[b]).0@,
        res[b].1,
    )
}

/// Every entry placed before `code` is in `res`.
pub open spec fn found_before(obs: LabelObservation, res: Seq<(Vec<Action>, usize)>, code: int) -> bool {
    forall|actions: Seq<Action>, dest: usize|
        #[trigger] obs.unique_entry(actions, dest) && entry_code(actions, dest) < code ==> in_found(res, actions, dest)
}

proof fn lemma_found_push(obs: LabelObservation, before: Seq<(Vec<Action>, usize)>, after: Seq<(Vec<Action>, usize)>, code: int)
    requires
        found_before(obs, before, code),
        after.len() == before.len() + 1,
        forall|k: int| 0 <= k < before.len() ==> after[k] == before[k],
    ensures
        found_before(obs, after, code),
{
    assert forall|actions: Seq<Action>, dest: usize|
        #[trigger] obs.unique_entry(actions, dest) && entry_code(actions, dest) < code implies in_found(after, actions, dest) by {
        let k = choose|k: int| 0 <= k < before.len() && #[trigger] before[k].0@ == actions && before[k].1 == dest;
        assert(after[k] == before[k]);
    }
}

proof fn lemma_entry_bounds(obs: LabelObservation, actions: Seq<Action>, dest: usize)
    requires
        obs.unique_entry(actions, dest),
    ensures
        actions.len() == 1 || actions.len() == 2 || actions.len() == 3,
        actions[0].label < 4 && actions[0].door < 6,
        actions.len() >= 2 ==> actions[1].label < 4 && actions[1].door < 6,
        actions.len() >= 3 ==> actions[2].label < 4 && actions[2].door < 6,
        dest < 4,
        entry_code(actions, dest) < position_code(4, 0, 0, 0, 0, 0, 0),
{
    assert(actions[0].label < 4 && actions[0].door < 6);
    if actions.len() >= 2 {
        assert(actions[1].label < 4 && actions[1].door < 6);
    }
    if actions.len() >= 3 {
        assert(actions[2].label < 4 && actions[2].door < 6);
    }
}

proof fn lemma_code_prefix3(a0: int, a1: int, a2: int, a3: int, a4: int, a5: int, a6: int, p0: int, p1: int, p2: int)
    requires
        0 <= a0 < 4, 0 <= a1 < 6, 0 <= a2 < 4, 0 <= a3 < 6, 0 <= a4 < 4, 0 <= a5 < 6, 0 <= a6 < 4,
        0 <= p0 < 4, 0 <= p1 < 6, 0 <= p2 < 4,
        position_code(p0, p1, p2, 0, 0, 0, 0) <= position_code(a0, a1, a2, a3, a4, a5, a6),
        position_code(a0, a1, a2, a3, a4, a5, a6) < position_code(p0, p1, p2 + 1, 0, 0, 0, 0),
    ensures
        a0 == p0 && a1 == p1 && a2 == p2,
{
    let x = (a0 * 6 + a1) * 4 + a2;
    let y = (p0 * 6 + p1) * 4 + p2;
    let r = ((a3 * 4 + a4) * 6 + a5) * 4 + a6;
    assert(0 <= r < 576);
    assert(position_code(a0, a1, a2, a3, a4, a5, a6) == x * 576 + r);
    assert(position_code(p0, p1, p2, 0, 0, 0, 0) == y * 576);
    assert(position_code(p0, p1, p2 + 1, 0, 0, 0, 0) == (y + 1) * 576);
    assert(x == y) by (nonlinear_arith)
        requires
            y * 576 <= x * 576 + r,
            x * 576 + r < (y + 1) * 576,
            0 <= r < 576,
    ;
}

proof fn lemma_code_prefix5(
    a0: int, a1: int, a2: int, a3: int, a4: int, a5: int, a6: int,
    p0: int, p1: int, p2: int, p3: int, p4: int,
)
    requires
        0 <= a0 < 4, 0 <= a1 < 6, 0 <= a2 < 4, 0 <= a3 < 6, 0 <= a4 < 4, 0 <= a5 < 6, 0 <= a6 < 4,
        0 <= p0 < 4, 0 <= p1 < 6, 0 <= p2 < 4, 0 <= p3 < 6, 0 <= p4 < 4,
        position_code(p0, p1, p2, p3, p4, 0, 0) <= position_code(a0, a1, a2, a3, a4, a5, a6),
        position_code(a0, a1, a2, a3, a4, a5, a6) < position_code(p0, p1, p2, p3, p4 + 1, 0, 0),
    ensures
        a0 == p0 && a1 == p1 && a2 == p2 && a3 == p3 && a4 == p4,
{
    let x = (((a0 * 6 + a1) * 4 + a2) * 6 + a3) * 4 + a4;
    let y = (((p0 * 6 + p1) * 4 + p2) * 6 + p3) * 4 + p4;
    let r = a5 * 4 + a6;
    assert(x == y) by (nonlinear_arith)
        requires
            y * 24 <= x * 24 + r,
            x * 24 + r < (y + 1) * 24,
            0 <= r < 24,
    ;
    lemma_code_prefix3(a0, a1, a2, a3, a4, a5, a6, p0, p1, p2);
    assert(a3 * 4 + a4 == p3 * 4 + p4);
}

proof fn lemma_code_exact(
    a0: int, a1: int, a2: int, a3: int, a4: int, a5: int, a6: int,
    p0: int, p1: int, p2: int, p3: int, p4: int, p5: int, p6: int,
)
    requires
        0 <= a0 < 4, 0 <= a1 < 6, 0 <= a2 < 4, 0 <= a3 < 6, 0 <= a4 < 4, 0 <= a5 < 6, 0 <= a6 < 4,
        0 <= p0 < 4, 0 <= p1 < 6, 0 <= p2 < 4, 0 <= p3 < 6, 0 <= p4 < 4, 0 <= p5 < 6, 0 <= p6 < 4,
        position_code(a0, a1, a2, a3, a4, a5, a6) == position_code(p0, p1, p2, p3, p4, p5, p6),
    ensures
        a0 == p0 && a1 == p1 && a2 == p2 && a3 == p3 && a4 == p4 && a5 == p5 && a6 == p6,
{
    lemma_code_prefix5(a0, a1, a2, a3, a4, a5, a6, p0, p1, p2, p3, p4);
    assert(a5 * 4 + a6 == p5 * 4 + p6);
}

proof fn lemma_level1(obs: LabelObservation, actions: Seq<Action>, dest: usize, l0: int, d0: int, l1: int)
    requires
        obs.unique_entry(actions, dest),
        0 <= l0 < 4, 0 <= d0 < 6, 0 <= l1 < 4,
        position_code(l0, d0, l1, 0, 0, 0, 0) <= entry_code(actions, dest) < position_code(l0, d0, l1 + 1, 0, 0, 0, 0),
    ensures
        actions[0].label == l0 && actions[0].door == d0,
        actions.len() == 1 ==> dest == l1 && obs.unique_1step(l0 as usize, d0 as usize, l1 as usize),
        actions.len() >= 2 ==> actions[1].label == l1 && !obs.unique_1step(l0 as usize, d0 as usize, l1 as usize),
{
    lemma_entry_bounds(obs, actions, dest);
    if actions.len() == 1 {
        lemma_code_prefix3(actions[0].label as int, actions[0].door as int, dest as int, 5, 3, 5, 3, l0, d0, l1);
    } else if actions.len() == 2 {
        lemma_code_prefix3(
            actions[0].label as int, actions[0].door as int, actions[1].label as int, actions[1].door as int,
            dest as int, 5, 3, l0, d0, l1,
        );
    } else {
        lemma_code_prefix3(
            actions[0].label as int, actions[0].door as int, actions[1].label as int, actions[1].door as int,
            actions[2].label as int, actions[2].door as int, dest as int, l0, d0, l1,
        );
    }
}

proof fn lemma_level2(obs: LabelObservation, actions: Seq<Action>, dest: usize, l0: int, d0: int, l1: int, d1: int, l2: int)
    requires
        obs.unique_entry(actions, dest),
        0 <= l0 < 4, 0 <= d0 < 6, 0 <= l1 < 4, 0 <= d1 < 6, 0 <= l2 < 4,
        position_code(l0, d0, l1, d1, l2, 0, 0) <= entry_code(actions, dest) < position_code(l0, d0, l1, d1, l2 + 1, 0, 0),
    ensures
        actions.len() == 1 ==> obs.unique_1step(l0 as usize, d0 as usize, l1 as usize),
        actions.len() == 2 ==> actions[0].label == l0 && actions[0].door == d0 && actions[1].label == l1
            && actions[1].door == d1 && dest == l2,
        actions.len() == 3 ==> !obs.unique_2step(l0 as usize, d0 as usize, l1 as usize, d1 as usize, l2 as usize),
{
    lemma_entry_bounds(obs, actions, dest);
    if actions.len() == 1 {
        lemma_code_prefix5(actions[0].label as int, actions[0].door as int, dest as int, 5, 3, 5, 3, l0, d0, l1, d1, l2);
    } else if actions.len() == 2 {
        lemma_code_prefix5(
            actions[0].label as int, actions[0].door as int, actions[1].label as int, actions[1].door as int,
            dest as int, 5, 3, l0, d0, l1, d1, l2,
        );
    } else {
        lemma_code_prefix5(
            actions[0].label as int, actions[0].door as int, actions[1].label as int, actions[1].door as int,
            actions[2].label as int, actions[2].door as int, dest as int, l0, d0, l1, d1, l2,
        );
    }
}

proof fn lemma_level3(
    obs: LabelObservation,
    actions: Seq<Action>,
    dest: usize,
    l0: int, d0: int, l1: int, d1: int, l2: int, d2: int, l3: int,
)
    requires
        obs.unique_entry(actions, dest),
        0 <= l0 < 4, 0 <= d0 < 6, 0 <= l1 < 4, 0 <= d1 < 6, 0 <= l2 < 4, 0 <= d2 < 6, 0 <= l3 < 4,
        entry_code(actions, dest) == position_code(l0, d0, l1, d1, l2, d2, l3),
    ensures
        actions.len() == 1 ==> obs.unique_1step(l0 as usize, d0 as usize, l1 as usize),
        actions.len() == 2 ==> obs.unique_2step(l0 as usize, d0 as usize, l1 as usize, d1 as usize, l2 as usize),
        actions.len() == 3 ==> actions[0].label == l0 && actions[0].door == d0 && actions[1].label == l1
            && actions[1].door == d1 && actions[2].label == l2 && actions[2].door == d2 && dest == l3,
{
    lemma_entry_bounds(obs, actions, dest);
    if actions.len() == 1 {
        lemma_code_exact(actions[0].label as int, actions[0].door as int, dest as int, 5, 3, 5, 3, l0, d0, l1, d1, l2, d2, l3);
    } else if actions.len() == 2 {
        lemma_code_exact(
            actions[0].label as int, actions[0].door as int, actions[1].label as int, actions[1].door as int,
            dest as int, 5, 3, l0, d0, l1, d1, l2, d2, l3,
        );
    } else {
        lemma_code_exact(
            actions[0].label as int, actions[0].door as int, actions[1].label as int, actions[1].door as int,
            actions[2].label as int, actions[2].door as int, dest as int, l0, d0, l1, d1, l2, d2, l3,
        );
    }
}

} // verus!
