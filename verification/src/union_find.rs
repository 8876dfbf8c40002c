use vstd::prelude::*;

verus! {

/// The value that marks "no parent" and "no known door target".
pub const NONE: usize = usize::MAX;

/// Number of doors of every room.
pub const DOORS: usize = 6;

/// One step of a walk: the label seen in the room and the door taken from it.
pub struct Action {
    pub label: usize,
    pub door: usize,
}

impl Action {
    pub fn new(label: usize, door: usize) -> (res: Self)
        ensures
            res.label == label,
            res.door == door,
    {
        Self { label, door }
    }
}

/// Number of positions `i < k` with `s[i] == v`.
pub open spec fn count_eq(s: Seq<usize>, v: usize, k: int) -> nat
    decreases k,
{
    if k <= 0 {
        0
    } else {
        count_eq(s, v, k - 1) + if s[k - 1] == v {
            1nat
        } else {
            0nat
        }
    }
}

pub proof fn lemma_count_le(s: Seq<usize>, v: usize, k: int)
    requires
        0 <= k,
    ensures
        count_eq(s, v, k) <= k,
    decreases k,
{
    if k > 0 {
        lemma_count_le(s, v, k - 1);
    }
}

pub proof fn lemma_count_pair_le(s: Seq<usize>, a: usize, b: usize, k: int)
    requires
        0 <= k,
        a != b,
    ensures
        count_eq(s, a, k) + count_eq(s, b, k) <= k,
    decreases k,
{
    if k > 0 {
        lemma_count_pair_le(s, a, b, k - 1);
    }
}

pub proof fn lemma_count_update(s: Seq<usize>, i: int, x: usize, v: usize, k: int)
    requires
        0 <= i < s.len(),
        0 <= k <= s.len(),
    ensures
        count_eq(s.update(i, x), v, k) + (if i < k && s[i] == v { 1nat } else { 0nat })
            == count_eq(s, v, k) + (if i < k && x == v { 1nat } else { 0nat }),
    decreases k,
{
    if k > 0 {
        lemma_count_update(s, i, x, v, k - 1);
    }
}

pub proof fn lemma_count_ext(s: Seq<usize>, t: Seq<usize>, v: usize, k: int)
    requires
        0 <= k <= s.len(),
        k <= t.len(),
        forall|i: int| 0 <= i < k ==> (s[i] == v) == (t[i] == v),
    ensures
        count_eq(s, v, k) == count_eq(t, v, k),
    decreases k,
{
    if k > 0 {
        lemma_count_ext(s, t, v, k - 1);
    }
}

/// Redirecting every `a` to `b` in `s` adds the count of `a` to that of `b`.
pub proof fn lemma_count_redirect(s: Seq<usize>, t: Seq<usize>, a: usize, b: usize, k: int)
    requires
        0 <= k <= s.len(),
        k <= t.len(),
        a != b,
        forall|i: int| 0 <= i < k ==> t[i] == if s[i] == a { b } else { s[i] },
    ensures
        count_eq(t, b, k) == count_eq(s, b, k) + count_eq(s, a, k),
        count_eq(t, a, k) == 0,
        forall|c: usize| c != a && c != b ==> count_eq(t, c, k) == count_eq(s, c, k),
    decreases k,
{
    if k > 0 {
        lemma_count_redirect(s, t, a, b, k - 1);
        assert forall|c: usize| c != a && c != b implies count_eq(t, c, k) == count_eq(s, c, k) by {
            assert(count_eq(t, c, k - 1) == count_eq(s, c, k - 1));
        }
    }
}

pub proof fn lemma_count_identity(s: Seq<usize>, r: usize, k: int)
    requires
        0 <= k <= s.len(),
        forall|i: int| 0 <= i < s.len() ==> s[i] == i,
    ensures
        count_eq(s, r, k) == if r < k { 1nat } else { 0nat },
    decreases k,
{
    if k > 0 {
        lemma_count_identity(s, r, k - 1);
    }
}

pub proof fn lemma_count_const(s: Seq<usize>, v: usize, k: int)
    requires
        0 <= k <= s.len(),
        forall|i: int| 0 <= i < s.len() ==> s[i] == v,
    ensures
        count_eq(s, v, k) == k,
    decreases k,
{
    if k > 0 {
        lemma_count_const(s, v, k - 1);
    }
}

/// A union-find over the positions of explored walks. Besides the classes it keeps,
/// for every position, the position reached through each of the six doors (`NONE`
/// while unknown). Merging two classes merges their door targets too, so the
/// classes stay closed under "same door leads to the same class".
pub struct UnionFind {
    parent: Vec<usize>,
    edge: Vec<Vec<usize>>,
    size: Vec<usize>,
    repr: Ghost<Seq<usize>>,
    rank: Ghost<Seq<nat>>,
}

/// The door target of the class of `a` in a state given by its roots and edges.
pub open spec fn class_door(roots: Seq<usize>, edges: Seq<Seq<usize>>, a: int, d: int) -> usize {
    edges[roots[a] as int][d]
}

impl UnionFind {
    /// Number of positions.
    pub closed spec fn n(&self) -> nat {
        self.parent@.len()
    }

    /// The representative of each position's class.
    pub closed spec fn roots(&self) -> Seq<usize> {
        self.repr@
    }

    /// The stored door targets of each position.
    pub closed spec fn edges(&self) -> Seq<Seq<usize>> {
        self.edge@.map_values(|row: Vec<usize>| row@)
    }

    /// The stored class sizes.
    pub closed spec fn sizes(&self) -> Seq<usize> {
        self.size@
    }

    /// Number of classes.
    pub closed spec fn num_classes(&self) -> nat {
        count_roots(self.repr@, self.n() as int)
    }

    /// Number of positions in the class whose representative is `r`.
    pub open spec fn class_size(&self, r: usize) -> nat {
        count_eq(self.roots(), r, self.n() as int)
    }

    /// The classes of `self` are unions of classes of `old`, and every door target
    /// known for a class of `old` is still known, up to the class, in `self`.
    pub open spec fn refines(&self, old: &Self) -> bool {
        &&& self.n() == old.n()
        &&& forall|a: int, b: int|
            0 <= a < old.n() && 0 <= b < old.n() && old.roots()[a] == old.roots()[b]
                ==> #[trigger] self.roots()[a] == #[trigger] self.roots()[b]
        &&& forall|a: int, d: int|
            0 <= a < old.n() && 0 <= d < 6 && class_door(old.roots(), old.edges(), a, d) != NONE
                ==> {
                &&& #[trigger] class_door(self.roots(), self.edges(), a, d) != NONE
                &&& self.roots()[class_door(self.roots(), self.edges(), a, d) as int]
                    == self.roots()[class_door(old.roots(), old.edges(), a, d) as int]
            }
    }

    /// Same classes, door targets and sizes: only the internal paths differ.
    pub open spec fn same_classes(&self, old: &Self) -> bool {
        &&& self.n() == old.n()
        &&& self.roots() == old.roots()
        &&& self.edges() == old.edges()
        &&& self.sizes() == old.sizes()
    }

    /// Internal bookkeeping that only `union` changes.
    pub closed spec fn same_ranks(&self, old: &Self) -> bool {
        self.rank@ == old.rank@
    }

    /// Bound on the length of the parent path from `x`.
    pub closed spec fn depth(&self, x: int) -> int {
        self.rank@[self.repr@[x] as int] - self.rank@[x]
    }

    pub closed spec fn wf(&self) -> bool {
        let n = self.parent@.len();
        &&& n < NONE
        &&& self.edge@.len() == n
        &&& self.size@.len() == n
        &&& self.repr@.len() == n
        &&& self.rank@.len() == n
        &&& forall|x: int| 0 <= x < n ==> (#[trigger] self.edge@[x])@.len() == 6
        &&& forall|x: int, d: int|
            0 <= x < n && 0 <= d < 6 ==> #[trigger] self.edge@[x]@[d] == NONE || self.edge@[x]@[d] < n
        &&& forall|x: int| 0 <= x < n ==> #[trigger] self.repr@[x] < n
        &&& forall|x: int|
            0 <= x < n ==> self.parent@[#[trigger] self.repr@[x] as int] == NONE
        &&& forall|x: int|
            0 <= x < n && #[trigger] self.parent@[x] == NONE ==> self.repr@[x] == x
        &&& forall|x: int|
            0 <= x < n && #[trigger] self.parent@[x] != NONE ==> {
                &&& self.parent@[x] < n
                &&& self.repr@[self.parent@[x] as int] == self.repr@[x]
                &&& self.rank@[x] < self.rank@[self.parent@[x] as int]
                &&& self.rank@[x] < self.rank@[self.repr@[x] as int]
            }
        &&& forall|r: int|
            0 <= r < n && #[trigger] self.parent@[r] == NONE ==> self.size@[r] == count_eq(
                self.repr@,
                r as usize,
                n as int,
            )
    }
}


impl UnionFind {
    pub proof fn lemma_wf_facts(&self)
        requires
            self.wf(),
        ensures
            self.n() < NONE,
            self.roots().len() == self.n(),
            self.edges().len() == self.n(),
            self.sizes().len() == self.n(),
            forall|x: int| 0 <= x < self.n() ==> #[trigger] self.roots()[x] < self.n(),
            forall|x: int| 0 <= x < self.n() ==> self.roots()[#[trigger] self.roots()[x] as int] == self.roots()[x],
            forall|x: int| 0 <= x < self.n() ==> (#[trigger] self.edges()[x]).len() == 6,
            forall|x: int, d: int|
                0 <= x < self.n() && 0 <= d < 6 ==> #[trigger] self.edges()[x][d] == NONE
                    || self.edges()[x][d] < self.n(),
            forall|r: int|
                0 <= r < self.n() && #[trigger] self.roots()[r] == r ==> self.sizes()[r]
                    == self.class_size(r as usize),
    {
        assert forall|x: int| 0 <= x < self.n() implies self.roots()[#[trigger] self.roots()[x] as int]
            == self.roots()[x] by {
            let r = self.repr@[x] as int;
            assert(self.parent@[r] == NONE);
        }
        assert forall|r: int|
            0 <= r < self.n() && #[trigger] self.roots()[r] == r implies self.sizes()[r]
                == self.class_size(r as usize) by {
            if self.parent@[r] != NONE {
                assert(self.rank@[r] < self.rank@[self.repr@[r] as int]);
            }
        }
    }

    /// `n` positions, each in a class of its own, with no door target known.
    pub fn new(n: usize) -> (res: Self)
        requires
            n < NONE,
        ensures
            res.wf(),
            res.n() == n,
            forall|x: int| 0 <= x < n ==> #[trigger] res.roots()[x] == x,
            forall|x: int, d: int| 0 <= x < n && 0 <= d < 6 ==> #[trigger] res.edges()[x][d] == NONE,
            forall|x: int| 0 <= x < n ==> #[trigger] res.sizes()[x] == 1,
            res.num_classes() == n,
    {
        let mut parent: Vec<usize> = Vec::new();
        let mut edge: Vec<Vec<usize>> = Vec::new();
        let mut size: Vec<usize> = Vec::new();
        let mut i: usize = 0;
        while i < n
            invariant
                i <= n,
                parent@.len() == i,
                edge@.len() == i,
                size@.len() == i,
                forall|x: int| 0 <= x < i ==> #[trigger] parent@[x] == NONE,
                forall|x: int| 0 <= x < i ==> #[trigger] size@[x] == 1,
                forall|x: int| 0 <= x < i ==> (#[trigger] edge@[x])@ == seq![NONE, NONE, NONE, NONE, NONE, NONE],
            decreases n - i,
        {
            parent.push(NONE);
            edge.push(vec![NONE, NONE, NONE, NONE, NONE, NONE]);
            size.push(1);
            i = i + 1;
        }
        let ghost repr = Seq::new(n as nat, |x: int| x as usize);
        let ghost rank = Seq::new(n as nat, |x: int| 0nat);
        let res = UnionFind { parent, edge, size, repr: Ghost(repr), rank: Ghost(rank) };
        proof {
            assert forall|r: int| 0 <= r < n implies #[trigger] count_eq(repr, r as usize, n as int) == 1 by {
                lemma_count_identity(repr, r as usize, n as int);
            }
            lemma_count_roots_identity(repr, n as int);
        }
        res
    }

    pub fn whole_size(&self) -> (res: usize)
        requires
            self.wf(),
        ensures
            res == self.n(),
    {
        self.parent.len()
    }

    /// The representative of `x`'s class; shortens the path from `x` on the way.
    pub fn find(&mut self, x: usize) -> (r: usize)
        requires
            old(self).wf(),
            x < old(self).n(),
        ensures
            final(self).wf(),
            final(self).same_classes(old(self)),
            final(self).num_classes() == old(self).num_classes(),
            r == old(self).roots()[x as int],
            final(self).same_ranks(old(self)),
        decreases old(self).depth(x as int),
    {
        if self.parent[x] == NONE {
            x
        } else {
            let p = self.parent[x];
            proof {
                assert(self.parent@[x as int] != NONE);
                assert(self.depth(p as int) < self.depth(x as int));
                if self.parent@[p as int] == NONE {
                    assert(self.depth(p as int) == 0);
                } else {
                    assert(self.depth(p as int) > 0);
                }
            }
            let r = self.find(p);
            self.parent.set(x, r);
            proof {
                assert(self.edges() =~= old(self).edges());
            }
            r
        }
    }
}


/// Where door `door` leads from position `start`, as a representative; `NONE` when
/// `start` is `NONE` or the door is not known.
pub open spec fn next_of(roots: Seq<usize>, edges: Seq<Seq<usize>>, start: usize, door: usize) -> usize {
    if start == NONE || edges[start as int][door as int] == NONE {
        NONE
    } else {
        roots[edges[start as int][door as int] as int]
    }
}

/// The position reached after the steps `0..=i` of `doors` from `start`.
pub open spec fn walk_at(roots: Seq<usize>, edges: Seq<Seq<usize>>, start: usize, doors: Seq<usize>, i: int) -> usize
    decreases i,
{
    if i <= 0 {
        next_of(roots, edges, start, doors[0])
    } else {
        next_of(roots, edges, walk_at(roots, edges, start, doors, i - 1), doors[i])
    }
}

impl UnionFind {
    /// The classes are counted by their representatives.
    pub proof fn lemma_num_classes(&self)
        ensures
            self.num_classes() == count_roots(self.roots(), self.n() as int),
    {
    }

    pub proof fn lemma_refines_refl(&self, old: &Self)
        requires
            old.wf(),
            self.same_classes(old),
        ensures
            self.refines(old),
    {
        old.lemma_wf_facts();
    }

    /// A nonempty union-find has a class.
    pub proof fn lemma_some_class(&self)
        requires
            self.wf(),
            self.n() > 0,
        ensures
            self.num_classes() >= 1,
    {
        self.lemma_wf_facts();
        let r = self.roots()[0];
        lemma_count_roots_pos(self.repr@, self.n() as int, r as int);
    }

    pub proof fn lemma_count_le_n(&self)
        requires
            self.wf(),
        ensures
            self.num_classes() <= self.n(),
            self.n() < NONE,
    {
        lemma_count_roots_le(self.repr@, self.n() as int);
    }

    /// `c` has the classes of `b`, which refines `a`: then `c` refines `a`.
    pub proof fn lemma_refines_same(c: &Self, b: &Self, a: &Self)
        requires
            a.wf(),
            b.wf(),
            b.refines(a),
            c.same_classes(b),
        ensures
            c.refines(a),
    {
        c.lemma_refines_refl(b);
        UnionFind::lemma_refines_trans(c, b, a);
    }

    pub proof fn lemma_refines_trans(c: &Self, b: &Self, a: &Self)
        requires
            a.wf(),
            b.wf(),
            b.refines(a),
            c.refines(b),
        ensures
            c.refines(a),
    {
        b.lemma_wf_facts();
        a.lemma_wf_facts();
        assert forall|x: int, d: int|
            0 <= x < a.n() && 0 <= d < 6 && class_door(a.roots(), a.edges(), x, d) != NONE implies {
            &&& #[trigger] class_door(c.roots(), c.edges(), x, d) != NONE
            &&& c.roots()[class_door(c.roots(), c.edges(), x, d) as int] == c.roots()[class_door(
                a.roots(),
                a.edges(),
                x,
                d,
            ) as int]
        } by {
            let ea = class_door(a.roots(), a.edges(), x, d);
            let eb = class_door(b.roots(), b.edges(), x, d);
            assert(eb != NONE);
            assert(b.roots()[eb as int] == b.roots()[ea as int]);
            assert(c.roots()[eb as int] == c.roots()[ea as int]);
        }
    }

    /// Records that door `door` of position `src` leads to the class of `dst`.
    pub fn set_edge(&mut self, src: usize, door: usize, dst: usize)
        requires
            old(self).wf(),
            src < old(self).n(),
            door < 6,
            dst < old(self).n(),
        ensures
            final(self).wf(),
            final(self).n() == old(self).n(),
            final(self).roots() == old(self).roots(),
            final(self).sizes() == old(self).sizes(),
            final(self).num_classes() == old(self).num_classes(),
            final(self).edges() == old(self).edges().update(
                src as int,
                old(self).edges()[src as int].update(door as int, old(self).roots()[dst as int]),
            ),
    {
        let r = self.find(dst);
        let ghost mid = self.edges();
        self.edge[src][door] = r;
        proof {
            assert(self.edges() =~= mid.update(src as int, mid[src as int].update(door as int, r)));
        }
    }

    /// The size of `x`'s class.
    pub fn get_size(&mut self, x: usize) -> (res: usize)
        requires
            old(self).wf(),
            x < old(self).n(),
        ensures
            final(self).wf(),
            final(self).same_classes(old(self)),
            final(self).num_classes() == old(self).num_classes(),
            res == old(self).class_size(old(self).roots()[x as int]),
    {
        let r = self.find(x);
        proof {
            self.lemma_wf_facts();
            assert(self.roots()[r as int] == r);
        }
        self.size[r]
    }

    /// Where door `door` leads from `start`, as a representative, or `NONE`.
    pub fn get_next(&mut self, start: usize, door: usize) -> (res: usize)
        requires
            old(self).wf(),
            start == NONE || start < old(self).n(),
            start == NONE || door < 6,
        ensures
            final(self).wf(),
            final(self).same_classes(old(self)),
            final(self).num_classes() == old(self).num_classes(),
            res == next_of(old(self).roots(), old(self).edges(), start, door),
            res == NONE || res < old(self).n(),
    {
        proof {
            self.lemma_wf_facts();
        }
        if start != NONE && self.edge[start][door] != NONE {
            let e = self.edge[start][door];
            self.find(e)
        } else {
            NONE
        }
    }

    /// The positions visited when taking the doors of `actions` in turn from `start`.
    pub fn get_path(&mut self, start: usize, actions: &[Action]) -> (res: Vec<usize>)
        requires
            old(self).wf(),
            start == NONE || start < old(self).n(),
            forall|i: int| 0 <= i < actions@.len() ==> #[trigger] actions@[i].door < 6,
        ensures
            final(self).wf(),
            final(self).same_classes(old(self)),
            final(self).num_classes() == old(self).num_classes(),
            res@.len() == actions@.len(),
            forall|i: int|
                0 <= i < actions@.len() ==> #[trigger] res@[i] == walk_at(
                    old(self).roots(),
                    old(self).edges(),
                    start,
                    actions@.map_values(|a: Action| a.door),
                    i,
                ),
            forall|i: int| 0 <= i < actions@.len() ==> #[trigger] res@[i] == NONE || res@[i] < old(self).n(),
    {
        let ghost doors = actions@.map_values(|a: Action| a.door);
        let mut res: Vec<usize> = Vec::new();
        let mut cur = start;
        let mut i: usize = 0;
        while i < actions.len()
            invariant
                self.wf(),
                self.same_classes(old(self)),
                self.num_classes() == old(self).num_classes(),
                doors == actions@.map_values(|a: Action| a.door),
                forall|j: int| 0 <= j < actions@.len() ==> #[trigger] actions@[j].door < 6,
                i <= actions@.len(),
                res@.len() == i,
                cur == NONE || cur < old(self).n(),
                i == 0 ==> cur == start,
                i > 0 ==> cur == res@[i - 1],
                forall|j: int|
                    0 <= j < i ==> #[trigger] res@[j] == walk_at(old(self).roots(), old(self).edges(), start, doors, j),
                forall|j: int| 0 <= j < i ==> #[trigger] res@[j] == NONE || res@[j] < old(self).n(),
            decreases actions@.len() - i,
        {
            let door = actions[i].door;
            cur = self.get_next(cur, door);
            res.push(cur);
            i = i + 1;
        }
        res
    }

    /// The door targets of `x`, each replaced by its representative (and stored so).
    pub fn get_edges(&mut self, x: usize) -> (res: &Vec<usize>)
        requires
            old(self).wf(),
            x < old(self).n(),
        ensures
            final(self).wf(),
            final(self).n() == old(self).n(),
            final(self).roots() == old(self).roots(),
            final(self).sizes() == old(self).sizes(),
            final(self).num_classes() == old(self).num_classes(),
            res@.len() == 6,
            forall|d: int|
                0 <= d < 6 ==> #[trigger] res@[d] == if old(self).edges()[x as int][d] == NONE {
                    NONE
                } else {
                    old(self).roots()[old(self).edges()[x as int][d] as int]
                },
            final(self).edges() == old(self).edges().update(x as int, res@),
    {
        let mut i: usize = 0;
        while i < 6
            invariant
                self.wf(),
                x < self.n(),
                self.n() == old(self).n(),
                self.roots() == old(self).roots(),
                self.sizes() == old(self).sizes(),
                self.num_classes() == old(self).num_classes(),
                i <= 6,
                self.edges().len() == old(self).edges().len(),
                forall|y: int| 0 <= y < self.n() && y != x ==> #[trigger] self.edges()[y] == old(self).edges()[y],
                self.edges()[x as int].len() == 6,
                forall|d: int|
                    0 <= d < i ==> #[trigger] self.edges()[x as int][d] == if old(self).edges()[x as int][d] == NONE {
                        NONE
                    } else {
                        old(self).roots()[old(self).edges()[x as int][d] as int]
                    },
                forall|d: int| i <= d < 6 ==> #[trigger] self.edges()[x as int][d] == old(self).edges()[x as int][d],
            decreases 6 - i,
        {
            proof {
                self.lemma_wf_facts();
            }
            if self.edge[x][i] != NONE {
                let e = self.edge[x][i];
                let r = self.find(e);
                let ghost mid = self.edges();
                self.edge[x][i] = r;
                proof {
                    assert(self.edges() =~= mid.update(x as int, mid[x as int].update(i as int, r)));
                }
            }
            i = i + 1;
        }
        proof {
            self.lemma_wf_facts();
            assert(self.edges() =~= old(self).edges().update(x as int, self.edge@[x as int]@));
        }
        &self.edge[x]
    }
}


impl UnionFind {
    /// Merges the classes of `x` and `y`, then, door by door, the classes that the
    /// two merged classes reach through the same door. Returns how many merges
    /// took place, which is by how much the number of classes fell.
    /// Gives class `root_x` the door targets that only class `root_y` knows, and
    /// lists the pairs of targets that both know, door by door.
    #[verifier::spinoff_prover]
    fn merge_doors(&mut self, root_x: usize, root_y: usize) -> (res: (Vec<(usize, usize)>, Ghost<Seq<int>>))
        requires
            old(self).wf(),
            root_x < old(self).n(),
            root_y < old(self).n(),
            root_x != root_y,
        ensures
            final(self).wf(),
            final(self).n() == old(self).n(),
            final(self).roots() == old(self).roots(),
            final(self).sizes() == old(self).sizes(),
            final(self).num_classes() == old(self).num_classes(),
            final(self).edges().len() == old(self).n(),
            forall|q: int| 0 <= q < old(self).n() && q != root_x ==> #[trigger] final(self).edges()[q] == old(self).edges()[q],
            forall|d: int|
                0 <= d < 6 ==> #[trigger] final(self).edges()[root_x as int][d] == if old(self).edges()[root_x as int][d] == NONE {
                    old(self).edges()[root_y as int][d]
                } else {
                    old(self).edges()[root_x as int][d]
                },
            res.1@.len() == res.0@.len(),
            forall|k: int|
                0 <= k < res.0@.len() ==> (#[trigger] res.0@[k]).0 < old(self).n() && res.0@[k].1 < old(self).n(),
            forall|k: int|
                0 <= k < res.0@.len() ==> {
                    let d = #[trigger] res.1@[k];
                    &&& 0 <= d < 6
                    &&& old(self).edges()[root_x as int][d] != NONE
                    &&& old(self).edges()[root_y as int][d] != NONE
                    &&& res.0@[k] == (old(self).edges()[root_x as int][d], old(self).edges()[root_y as int][d])
                },
            forall|d: int|
                0 <= d < 6 && old(self).edges()[root_x as int][d] != NONE && old(self).edges()[root_y as int][d] != NONE
                    ==> exists|k: int|
                    0 <= k < res.0@.len() && #[trigger] res.0@[k] == (
                        old(self).edges()[root_x as int][d],
                        old(self).edges()[root_y as int][d],
                    ),
    {
        let ghost s0 = *self;
        let n = self.edge.len();
        proof {
            self.lemma_wf_facts();
        }
        let mut additional: Vec<(usize, usize)> = Vec::new();
        let ghost mut from: Seq<int> = Seq::empty();
        let mut i: usize = 0;
        while i < 6
            invariant
                self.wf(),
                s0.wf(),
                self.n() == s0.n(),
                n == s0.n(),
                root_x < n,
                root_y < n,
                root_x != root_y,
                self.roots() == s0.roots(),
                self.sizes() == s0.sizes(),
                self.num_classes() == s0.num_classes(),
                i <= 6,
                self.edges().len() == n,
                forall|q: int| 0 <= q < n && q != root_x ==> #[trigger] self.edges()[q] == s0.edges()[q],
                forall|d: int|
                    0 <= d < i ==> #[trigger] self.edges()[root_x as int][d] == if s0.edges()[root_x as int][d] == NONE {
                        s0.edges()[root_y as int][d]
                    } else {
                        s0.edges()[root_x as int][d]
                    },
                forall|d: int| i <= d < 6 ==> #[trigger] self.edges()[root_x as int][d] == s0.edges()[root_x as int][d],
                forall|k: int| 0 <= k < additional@.len() ==> (#[trigger] additional@[k]).0 < n && additional@[k].1 < n,
                from.len() == additional@.len(),
                forall|k: int|
                    0 <= k < additional@.len() ==> {
                        let d = #[trigger] from[k];
                        &&& 0 <= d < 6
                        &&& s0.edges()[root_x as int][d] != NONE
                        &&& s0.edges()[root_y as int][d] != NONE
                        &&& additional@[k] == (s0.edges()[root_x as int][d], s0.edges()[root_y as int][d])
                    },
                forall|d: int|
                    0 <= d < i && s0.edges()[root_x as int][d] != NONE && s0.edges()[root_y as int][d] != NONE
                        ==> exists|k: int|
                        0 <= k < additional@.len() && #[trigger] additional@[k] == (
                            s0.edges()[root_x as int][d],
                            s0.edges()[root_y as int][d],
                        ),
            decreases 6 - i,
        {
            proof {
                self.lemma_wf_facts();
                s0.lemma_wf_facts();
            }
            let ey = self.edge[root_y][i];
            let ex = self.edge[root_x][i];
            proof {
                assert(self.edges()[root_y as int] == s0.edges()[root_y as int]);
                assert(ey == self.edges()[root_y as int][i as int]);
                assert(ex == self.edges()[root_x as int][i as int]);
            }
            if ey != NONE {
                if ex == NONE {
                    let ghost mid = self.edges();
                    self.edge[root_x][i] = ey;
                    proof {
                        assert(self.edges() =~= mid.update(root_x as int, mid[root_x as int].update(i as int, ey)));
                        assert(self.wf());
                    }
                } else {
                    let ghost before = additional@;
                    let ghost from0 = from;
                    additional.push((ex, ey));
                    proof {
                        from = from.push(i as int);
                        assert forall|k: int| 0 <= k < additional@.len() implies {
                            let d = #[trigger] from[k];
                            &&& 0 <= d < 6
                            &&& s0.edges()[root_x as int][d] != NONE
                            &&& s0.edges()[root_y as int][d] != NONE
                            &&& additional@[k] == (s0.edges()[root_x as int][d], s0.edges()[root_y as int][d])
                        } by {
                            if k < before.len() {
                                assert(additional@[k] == before[k]);
                                assert(from[k] == from0[k]);
                            }
                        }
                        assert forall|d: int|
                            0 <= d < i + 1 && s0.edges()[root_x as int][d] != NONE && s0.edges()[root_y as int][d]
                                != NONE implies exists|k: int|
                            0 <= k < additional@.len() && #[trigger] additional@[k] == (
                                s0.edges()[root_x as int][d],
                                s0.edges()[root_y as int][d],
                            ) by {
                            if d == i {
                                assert(additional@[before.len() as int] == (ex, ey));
                            } else {
                                let k = choose|k: int|
                                    0 <= k < before.len() && #[trigger] before[k] == (
                                        s0.edges()[root_x as int][d],
                                        s0.edges()[root_y as int][d],
                                    );
                                assert(additional@[k] == before[k]);
                            }
                        }
                    }
                }
            }
            i = i + 1;
        }
        (additional, Ghost(from))
    }

    pub fn union(&mut self, x: usize, y: usize) -> (merged: usize)
        requires
            old(self).wf(),
            x < old(self).n(),
            y < old(self).n(),
        ensures
            final(self).wf(),
            final(self).refines(old(self)),
            final(self).roots()[x as int] == final(self).roots()[y as int],
            merged + final(self).num_classes() == old(self).num_classes(),
            (merged == 0) == (old(self).roots()[x as int] == old(self).roots()[y as int]),
            merged == 0 ==> final(self).same_classes(old(self)),
            forall|d: int|
                0 <= d < 6 && class_door(old(self).roots(), old(self).edges(), x as int, d) != NONE
                    && class_door(old(self).roots(), old(self).edges(), y as int, d) != NONE
                    ==> final(self).roots()[#[trigger] class_door(old(self).roots(), old(self).edges(), x as int, d) as int]
                    == final(self).roots()[class_door(old(self).roots(), old(self).edges(), y as int, d) as int],
        doors_inherited(*final(self), *old(self)),
        union_step(*old(self), *final(self), x, y, merged as int),
        forall|q: spec_fn(int) -> int| #[trigger] closed_above(*old(self), q, x as int, y as int) ==> below(*final(self), q),
        decreases old(self).num_classes(),
    {
        let root_x = self.find(x);
        let root_y = self.find(y);
        proof {
            self.lemma_refines_refl(old(self));
            old(self).lemma_wf_facts();
        }
        if root_x == root_y {
            proof {
                assert forall|a: int, d: int|
                    0 <= a < old(self).n() && 0 <= d < 6 && #[trigger] class_door(self.roots(), self.edges(), a, d) != NONE implies exists|b: int|
                    0 <= b < old(self).n() && self.roots()[b] == self.roots()[a] && #[trigger] class_door(
                        old(self).roots(),
                        old(self).edges(),
                        b,
                        d,
                    ) == class_door(self.roots(), self.edges(), a, d) by {
                    assert(class_door(old(self).roots(), old(self).edges(), a, d) == class_door(self.roots(), self.edges(), a, d));
                }
                assert forall|q: spec_fn(int) -> int| #[trigger] closed_above(*old(self), q, x as int, y as int) implies below(
                    *self,
                    q,
                ) by {
                    assert forall|a: int, b: int|
                        0 <= a < self.n() && 0 <= b < self.n() && #[trigger] self.roots()[a] == #[trigger] self.roots()[b] implies q(a)
                        == q(b) by {
                        assert(old(self).roots()[a] == old(self).roots()[b]);
                    }
                }
            }
            return 0;
        }
        let ghost s0 = *self;
        let ghost n = self.n();
        proof {
            self.lemma_wf_facts();
            assert(self.parent@[root_x as int] == NONE);
            assert(self.parent@[root_y as int] == NONE);
        }
        // Hang the class of `root_y` below `root_x`.
        self.parent.set(root_y, root_x);
        let ghost roots1 = Seq::new(n, |i: int| if s0.repr@[i] == root_y { root_x } else { s0.repr@[i] });
        let ghost rank_x = if s0.rank@[root_x as int] > s0.rank@[root_y as int] {
            s0.rank@[root_x as int]
        } else {
            s0.rank@[root_y as int] + 1
        };
        proof {
            lemma_count_redirect(s0.repr@, roots1, root_y, root_x, n as int);
            lemma_count_pair_le(s0.repr@, root_x, root_y, n as int);
            lemma_count_roots_redirect(s0.repr@, roots1, root_y, root_x, n as int);
        }
        let size_y = self.size[root_y];
        let size_x = self.size[root_x];
        self.size.set(root_x, size_x + size_y);
        self.repr = Ghost(roots1);
        self.rank = Ghost(s0.rank@.update(root_x as int, rank_x));
        proof {
            assert forall|r: int|
                0 <= r < n && #[trigger] self.parent@[r] == NONE implies self.size@[r] == count_eq(
                self.repr@,
                r as usize,
                n as int,
            ) by {
                assert(s0.parent@[r] == NONE);
            }
            assert forall|q: int|
                0 <= q < n && #[trigger] self.parent@[q] != NONE implies {
                &&& self.parent@[q] < n
                &&& self.repr@[self.parent@[q] as int] == self.repr@[q]
                &&& self.rank@[q] < self.rank@[self.parent@[q] as int]
                &&& self.rank@[q] < self.rank@[self.repr@[q] as int]
            } by {
                if q != root_y {
                    assert(s0.parent@[q] != NONE);
                }
            }
            assert forall|q: int| 0 <= q < n implies self.parent@[#[trigger] self.repr@[q] as int] == NONE by {
                assert(s0.parent@[s0.repr@[q] as int] == NONE);
            }
            assert forall|q: int| 0 <= q < n && #[trigger] self.parent@[q] == NONE implies self.repr@[q] == q by {
                assert(s0.parent@[q] == NONE);
            }
            assert(self.wf());
            assert(self.num_classes() + 1 == s0.num_classes());
        }
        // Give `root_x` the doors that only `root_y` knew; pair up the others.
        let ghost s_merged = *self;
        proof {
            assert(s_merged.edges() == s0.edges());
        }
        let (additional, Ghost(from)) = self.merge_doors(root_x, root_y);
        let ghost s1 = *self;
        proof {
            self.lemma_refines_refl(&s1);
            lemma_count_roots_le(old(self).repr@, n as int);
            s0.lemma_wf_facts();
            assert forall|a: int, d: int|
                0 <= a < n && 0 <= d < 6 && #[trigger] class_door(s1.roots(), s1.edges(), a, d) != NONE implies exists|b: int|
                0 <= b < n && s1.roots()[b] == s1.roots()[a] && #[trigger] class_door(old(self).roots(), old(self).edges(), b, d)
                    == class_door(s1.roots(), s1.edges(), a, d) by {
                let r = s1.roots()[a];
                if r == root_x {
                    if s0.edges()[root_x as int][d] != NONE {
                        assert(class_door(old(self).roots(), old(self).edges(), root_x as int, d) == s0.edges()[root_x as int][d]);
                        assert(s1.roots()[root_x as int] == root_x);
                    } else {
                        assert(class_door(old(self).roots(), old(self).edges(), root_y as int, d) == s0.edges()[root_y as int][d]);
                        assert(s1.roots()[root_y as int] == root_x);
                    }
                } else {
                    assert(s0.roots()[a] == r);
                    assert(s1.edges()[r as int] == s0.edges()[r as int]);
                    assert(class_door(old(self).roots(), old(self).edges(), a, d) == class_door(s1.roots(), s1.edges(), a, d));
                }
            }
            assert forall|q: spec_fn(int) -> int| #[trigger] closed_above(*old(self), q, x as int, y as int) implies below(s1, q) by {
                assert forall|a: int, b: int|
                    0 <= a < n && 0 <= b < n && #[trigger] s1.roots()[a] == #[trigger] s1.roots()[b] implies q(a) == q(b) by {
                    if s0.roots()[a] != s0.roots()[b] {
                        if s0.roots()[a] == root_y {
                            assert(old(self).roots()[a] == old(self).roots()[y as int]);
                            assert(old(self).roots()[b] == old(self).roots()[x as int]);
                        } else {
                            assert(old(self).roots()[a] == old(self).roots()[x as int]);
                            assert(old(self).roots()[b] == old(self).roots()[y as int]);
                        }
                    } else {
                        assert(old(self).roots()[a] == old(self).roots()[b]);
                    }
                }
            }
        }
        let mut merged_count: usize = 1;
        let mut k: usize = 0;
        while k < additional.len()
            invariant
                self.wf(),
                s1.wf(),
                self.refines(&s1),
                s1.n() == n,
                k <= additional@.len(),
                merged_count + self.num_classes() == old(self).num_classes(),
                merged_count >= 1,
                old(self).num_classes() <= n,
                n < NONE,
                forall|j: int|
                    0 <= j < additional@.len() ==> (#[trigger] additional@[j]).0 < n && additional@[j].1 < n,
                forall|j: int|
                    0 <= j < k ==> self.roots()[(#[trigger] additional@[j]).0 as int] == self.roots()[additional@[j].1 as int],
                doors_inherited(*self, *old(self)),
                old(self).n() == n,
                old(self).wf(),
                x < n,
                y < n,
                s0.roots() == old(self).roots(),
                s0.edges() == old(self).edges(),
                s0.roots()[x as int] == root_x,
                s0.roots()[y as int] == root_y,
                from.len() == additional@.len(),
                forall|j: int|
                    0 <= j < additional@.len() ==> {
                        let d = #[trigger] from[j];
                        &&& 0 <= d < 6
                        &&& s0.edges()[root_x as int][d] != NONE
                        &&& s0.edges()[root_y as int][d] != NONE
                        &&& additional@[j] == (s0.edges()[root_x as int][d], s0.edges()[root_y as int][d])
                    },
                forall|q: spec_fn(int) -> int| #[trigger] closed_above(*old(self), q, x as int, y as int) ==> below(*self, q),
            decreases additional@.len() - k,
        {
            let (a, b) = additional[k];
            let ghost before = *self;
            let m = self.union(a, b);
            proof {
                UnionFind::lemma_refines_trans(self, &before, &s1);
                lemma_inherited_trans(*self, before, *old(self));
                let dk = from[k as int];
                assert(class_door(old(self).roots(), old(self).edges(), x as int, dk) == a);
                assert(class_door(old(self).roots(), old(self).edges(), y as int, dk) == b);
                assert forall|q: spec_fn(int) -> int| #[trigger] closed_above(*old(self), q, x as int, y as int) implies below(*self, q) by {
                    assert(below(before, q));
                    lemma_closed_transfer(*old(self), before, q, x as int, y as int, dk);
                    assert(closed_above(before, q, a as int, b as int));
                }
                assert forall|j: int|
                    0 <= j < k + 1 implies self.roots()[(#[trigger] additional@[j]).0 as int] == self.roots()[additional@[j].1 as int] by {
                    if j < k {
                        assert(before.roots()[additional@[j].0 as int] == before.roots()[additional@[j].1 as int]);
                    }
                }
            }
            proof {
                assert(merged_count + m <= n);
            }
            merged_count = merged_count + m;
            k = k + 1;
        }
        proof {
            self.lemma_wf_facts();
            s0.lemma_wf_facts();
            s1.lemma_wf_facts();
            assert(s1.roots() == roots1);
            // classes only grow
            assert forall|a: int, b: int|
                0 <= a < n && 0 <= b < n && old(self).roots()[a] == old(self).roots()[b]
                    implies #[trigger] self.roots()[a] == #[trigger] self.roots()[b] by {
                assert(s1.roots()[a] == s1.roots()[b]);
            }
            // door targets of classes are kept
            assert forall|a: int, d: int|
                0 <= a < n && 0 <= d < 6 && class_door(old(self).roots(), old(self).edges(), a, d) != NONE
                    implies {
                &&& #[trigger] class_door(self.roots(), self.edges(), a, d) != NONE
                &&& self.roots()[class_door(self.roots(), self.edges(), a, d) as int]
                    == self.roots()[class_door(old(self).roots(), old(self).edges(), a, d) as int]
            } by {
                let e = class_door(old(self).roots(), old(self).edges(), a, d);
                assert(e == class_door(s0.roots(), s0.edges(), a, d));
                let ra = s0.roots()[a];
                if ra == root_y && s0.edges()[root_x as int][d] != NONE {
                    let e1 = s0.edges()[root_x as int][d];
                    assert(class_door(s1.roots(), s1.edges(), a, d) == e1);
                    let kk = choose|kk: int| 0 <= kk < additional@.len() && #[trigger] additional@[kk] == (e1, e);
                    assert(self.roots()[additional@[kk].0 as int] == self.roots()[additional@[kk].1 as int]);
                } else {
                    assert(class_door(s1.roots(), s1.edges(), a, d) == e);
                }
            }
            assert(self.refines(old(self)));
            assert(s1.roots()[x as int] == s1.roots()[y as int]);
            assert forall|d: int|
                0 <= d < 6 && class_door(old(self).roots(), old(self).edges(), x as int, d) != NONE
                    && class_door(old(self).roots(), old(self).edges(), y as int, d) != NONE
                    implies self.roots()[#[trigger] class_door(old(self).roots(), old(self).edges(), x as int, d) as int]
                    == self.roots()[class_door(old(self).roots(), old(self).edges(), y as int, d) as int] by {
                let e1 = s0.edges()[root_x as int][d];
                let e2 = s0.edges()[root_y as int][d];
                let kk = choose|kk: int| 0 <= kk < additional@.len() && #[trigger] additional@[kk] == (e1, e2);
                assert(self.roots()[additional@[kk].0 as int] == self.roots()[additional@[kk].1 as int]);
            }
        }
        merged_count
    }
}

/// `q` (a name for each position) puts together any two positions that `u` puts
/// in one class.
pub open spec fn below(u: UnionFind, q: spec_fn(int) -> int) -> bool {
    forall|a: int, b: int|
        0 <= a < u.n() && 0 <= b < u.n() && #[trigger] u.roots()[a] == #[trigger] u.roots()[b] ==> q(a) == q(b)
}

/// `q` puts together what `u` does, and `x` with `y`, and the targets of a door
/// known for two positions it puts together.
pub open spec fn closed_above(u: UnionFind, q: spec_fn(int) -> int, x: int, y: int) -> bool {
    &&& below(u, q)
    &&& q(x) == q(y)
    &&& forall|a: int, b: int, d: int|
        0 <= a < u.n() && 0 <= b < u.n() && 0 <= d < 6 && q(a) == q(b) && #[trigger] class_door(u.roots(), u.edges(), a, d)
            != NONE && #[trigger] class_door(u.roots(), u.edges(), b, d) != NONE ==> q(class_door(u.roots(), u.edges(), a, d) as int)
            == q(class_door(u.roots(), u.edges(), b, d) as int)
}

/// Every door target known for a class of `new` is the target known, in `old`,
/// for the same door of some position of that class.
pub open spec fn doors_inherited(new: UnionFind, old: UnionFind) -> bool {
    forall|a: int, d: int|
        0 <= a < old.n() && 0 <= d < 6 && #[trigger] class_door(new.roots(), new.edges(), a, d) != NONE ==> exists|b: int|
            0 <= b < old.n() && new.roots()[b] == new.roots()[a] && #[trigger] class_door(old.roots(), old.edges(), b, d)
                == class_door(new.roots(), new.edges(), a, d)
}

/// If `q` is closed above `old` joining `x` and `y`, and puts together what `s`
/// does, where `s` only inherits doors of `old`, then `q` is closed above `s`
/// joining the targets of a door known for both `x` and `y`.
pub proof fn lemma_closed_transfer(old: UnionFind, s: UnionFind, q: spec_fn(int) -> int, x: int, y: int, d: int)
    requires
        s.n() == old.n(),
        0 <= x < old.n(),
        0 <= y < old.n(),
        0 <= d < 6,
        closed_above(old, q, x, y),
        below(s, q),
        doors_inherited(s, old),
        class_door(old.roots(), old.edges(), x, d) != NONE,
        class_door(old.roots(), old.edges(), y, d) != NONE,
    ensures
        closed_above(
            s,
            q,
            class_door(old.roots(), old.edges(), x, d) as int,
            class_door(old.roots(), old.edges(), y, d) as int,
        ),
{
    assert forall|a: int, b: int, e: int|
        0 <= a < s.n() && 0 <= b < s.n() && 0 <= e < 6 && q(a) == q(b) && #[trigger] class_door(s.roots(), s.edges(), a, e)
            != NONE && #[trigger] class_door(s.roots(), s.edges(), b, e) != NONE implies q(
        class_door(s.roots(), s.edges(), a, e) as int,
    ) == q(class_door(s.roots(), s.edges(), b, e) as int) by {
        let c1 = choose|c: int|
            0 <= c < old.n() && s.roots()[c] == s.roots()[a] && #[trigger] class_door(old.roots(), old.edges(), c, e)
                == class_door(s.roots(), s.edges(), a, e);
        let c2 = choose|c: int|
            0 <= c < old.n() && s.roots()[c] == s.roots()[b] && #[trigger] class_door(old.roots(), old.edges(), c, e)
                == class_door(s.roots(), s.edges(), b, e);
        assert(q(c1) == q(a));
        assert(q(c2) == q(b));
    }
}

/// Inherited doors compose along refinements.
pub proof fn lemma_inherited_trans(c: UnionFind, b: UnionFind, a: UnionFind)
    requires
        b.wf(),
        c.refines(&b),
        b.n() == a.n(),
        doors_inherited(c, b),
        doors_inherited(b, a),
    ensures
        doors_inherited(c, a),
{
    assert forall|x: int, d: int|
        0 <= x < a.n() && 0 <= d < 6 && #[trigger] class_door(c.roots(), c.edges(), x, d) != NONE implies exists|z: int|
        0 <= z < a.n() && c.roots()[z] == c.roots()[x] && #[trigger] class_door(a.roots(), a.edges(), z, d) == class_door(
            c.roots(),
            c.edges(),
            x,
            d,
        ) by {
        let y = choose|y: int|
            0 <= y < b.n() && c.roots()[y] == c.roots()[x] && #[trigger] class_door(b.roots(), b.edges(), y, d) == class_door(
                c.roots(),
                c.edges(),
                x,
                d,
            );
        let z = choose|z: int|
            0 <= z < a.n() && b.roots()[z] == b.roots()[y] && #[trigger] class_door(a.roots(), a.edges(), z, d) == class_door(
                b.roots(),
                b.edges(),
                y,
                d,
            );
        assert(c.roots()[z] == c.roots()[y]);
    }
}

/// Number of positions `i < k` that are their own representative.
/// Every method of `UnionFind` keeps the number of positions, so along any
/// sequence of states each made from the one before by such a call, the number
/// of positions (`whole_size`) stays the one the first state was made with.
pub proof fn lemma_size_kept_along(states: Seq<UnionFind>)
    requires
        forall|i: int| 0 <= i < states.len() - 1 ==> #[trigger] states[i + 1].n() == states[i].n(),
    ensures
        forall|i: int| 0 <= i < states.len() ==> #[trigger] states[i].n() == states[0].n(),
    decreases states.len(),
{
    if states.len() > 1 {
        let init = states.drop_last();
        assert forall|i: int| 0 <= i < init.len() - 1 implies #[trigger] init[i + 1].n() == init[i].n() by {
            assert(init[i + 1] == states[i + 1] && init[i] == states[i]);
        }
        lemma_size_kept_along(init);
        assert forall|i: int| 0 <= i < states.len() implies #[trigger] states[i].n() == states[0].n() by {
            if i < states.len() - 1 {
                assert(init[i] == states[i]);
            } else {
                assert(states[i - 1].n() == states[0].n()) by {
                    assert(init[i - 1] == states[i - 1]);
                }
                assert(states[(i - 1) + 1].n() == states[i - 1].n());
            }
        }
    }
}

/// A door that `set_edge` sets on a class representative keeps leading into the
/// class of its destination in every later state that refines the one it made
/// (as `union` and all other methods give).
pub proof fn lemma_set_edge_kept(before: UnionFind, after: UnionFind, later: UnionFind, src: usize, door: usize, dst: usize)
    requires
        before.wf(),
        after.wf(),
        src < before.n(),
        door < 6,
        dst < before.n(),
        before.roots()[src as int] == src,
        after.n() == before.n(),
        after.roots() == before.roots(),
        after.edges() == before.edges().update(src as int, before.edges()[src as int].update(door as int, before.roots()[dst as int])),
        later.refines(&after),
    ensures
        class_door(later.roots(), later.edges(), src as int, door as int) != NONE,
        later.roots()[class_door(later.roots(), later.edges(), src as int, door as int) as int] == later.roots()[dst as int],
{
    before.lemma_wf_facts();
    after.lemma_wf_facts();
    let t = before.roots()[dst as int];
    assert(class_door(after.roots(), after.edges(), src as int, door as int) == t);
    assert(after.roots()[t as int] == after.roots()[dst as int]);
}

/// After a union of `x` and `y`, every door known for the class of `x` or of `y`
/// before is known for the joined class.
pub proof fn lemma_union_doors_known(old: UnionFind, new: UnionFind, x: usize, y: usize)
    requires
        old.wf(),
        new.wf(),
        x < old.n(),
        y < old.n(),
        new.refines(&old),
        new.roots()[x as int] == new.roots()[y as int],
    ensures
        forall|d: int|
            0 <= d < 6 && (class_door(old.roots(), old.edges(), x as int, d) != NONE || class_door(
                old.roots(),
                old.edges(),
                y as int,
                d,
            ) != NONE) ==> #[trigger] class_door(new.roots(), new.edges(), x as int, d) != NONE,
{
    assert forall|d: int|
        0 <= d < 6 && (class_door(old.roots(), old.edges(), x as int, d) != NONE || class_door(old.roots(), old.edges(), y as int, d)
            != NONE) implies #[trigger] class_door(new.roots(), new.edges(), x as int, d) != NONE by {
        if class_door(old.roots(), old.edges(), y as int, d) != NONE {
            assert(class_door(new.roots(), new.edges(), y as int, d) != NONE);
        }
    }
}

/// What `UnionFind::union` makes of `u` (into `u2`, merging `merged`) for `x` and `y`.
pub open spec fn union_step(u: UnionFind, u2: UnionFind, x: usize, y: usize, merged: int) -> bool {
    &&& u2.wf()
    &&& u2.refines(&u)
    &&& u2.roots()[x as int] == u2.roots()[y as int]
    &&& merged + u2.num_classes() == u.num_classes()
    &&& (merged == 0) == (u.roots()[x as int] == u.roots()[y as int])
    &&& merged == 0 ==> u2.same_classes(&u)
    &&& forall|d: int|
                0 <= d < 6 && class_door(u.roots(), u.edges(), x as int, d) != NONE
                    && class_door(u.roots(), u.edges(), y as int, d) != NONE
                    ==> u2.roots()[#[trigger] class_door(u.roots(), u.edges(), x as int, d) as int]
                    == u2.roots()[class_door(u.roots(), u.edges(), y as int, d) as int]
    &&& doors_inherited(u2, u)
    &&& forall|q: spec_fn(int) -> int| #[trigger] closed_above(u, q, x as int, y as int) ==> below(u2, q)
}

pub open spec fn count_roots(roots: Seq<usize>, k: int) -> nat
    decreases k,
{
    if k <= 0 {
        0
    } else {
        count_roots(roots, k - 1) + if roots[k - 1] == k - 1 {
            1nat
        } else {
            0nat
        }
    }
}

/// Redirecting the class `a` into the class `b` removes exactly one representative.
pub proof fn lemma_count_roots_redirect(s: Seq<usize>, t: Seq<usize>, a: usize, b: usize, k: int)
    requires
        0 <= k <= s.len(),
        k <= t.len(),
        a != b,
        a < s.len(),
        b < s.len(),
        s[a as int] == a,
        s[b as int] == b,
        forall|i: int| 0 <= i < k ==> t[i] == if s[i] == a { b } else { s[i] },
    ensures
        count_roots(t, k) + (if a < k { 1nat } else { 0nat }) == count_roots(s, k),
    decreases k,
{
    if k > 0 {
        lemma_count_roots_redirect(s, t, a, b, k - 1);
    }
}

pub proof fn lemma_count_roots_identity(s: Seq<usize>, k: int)
    requires
        0 <= k <= s.len(),
        forall|i: int| 0 <= i < s.len() ==> s[i] == i,
    ensures
        count_roots(s, k) == k,
    decreases k,
{
    if k > 0 {
        lemma_count_roots_identity(s, k - 1);
    }
}

pub proof fn lemma_count_roots_pos(s: Seq<usize>, k: int, r: int)
    requires
        0 <= r < k,
        s[r] == r,
    ensures
        count_roots(s, k) >= 1,
    decreases k,
{
    if r < k - 1 {
        lemma_count_roots_pos(s, k - 1, r);
    }
}

pub proof fn lemma_count_roots_le(s: Seq<usize>, k: int)
    requires
        0 <= k,
    ensures
        count_roots(s, k) <= k,
    decreases k,
{
    if k > 0 {
        lemma_count_roots_le(s, k - 1);
    }
}

} // verus!
