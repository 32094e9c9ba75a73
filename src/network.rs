use vstd::prelude::*;

verus! {

/// Why a conditional table cannot be attached to a new node.
#[derive(PartialEq, Eq, Structural, Clone, Copy, Debug)]
pub enum ShapeError {
    /// The table's rank is not one more than the number of parents.
    RankMismatch { rank: usize, n_parents: usize },
    /// The parent at `position` of the parent list is not a node of the network.
    UnknownParent { position: usize, parent: usize },
    /// Axis `axis` of the table has `got` entries, but its parent has `expected` values.
    AxisMismatch { axis: usize, got: usize, parent: usize, expected: usize },
}

/// The structure of a discrete Bayesian network: for each node, its parents
/// (in the order of the axes of its conditional table), its children, the
/// shape of its conditional table, and its observed value, if any.
///
/// Nodes are numbered densely in order of creation, and a node's parents
/// exist before it, so the graph has no cycle.
pub struct Graph {
    parents: Vec<Vec<usize>>,
    children: Vec<Vec<usize>>,
    shapes: Vec<Vec<usize>>,
    evidence: Vec<Option<usize>>,
}

/// How often `v` occurs in `s`.
pub open spec fn count_of(s: Seq<usize>, v: usize) -> nat
    decreases s.len(),
{
    if s.len() == 0 {
        0
    } else {
        count_of(s.drop_last(), v) + if s.last() == v {
            1nat
        } else {
            0nat
        }
    }
}

/// The value that the last pair naming `node` gives it, if any pair does.
pub open spec fn last_value(ev: Seq<(usize, usize)>, node: usize) -> Option<usize>
    decreases ev.len(),
{
    if ev.len() == 0 {
        None
    } else if ev.last().0 == node {
        Some(ev.last().1)
    } else {
        last_value(ev.drop_last(), node)
    }
}

/// The positions of `s`, in increasing order, that do not hold `v`.
pub open spec fn positions_other(s: Seq<usize>, v: usize) -> Seq<usize>
    decreases s.len(),
{
    if s.len() == 0 {
        Seq::empty()
    } else if s.last() != v {
        positions_other(s.drop_last(), v).push((s.len() - 1) as usize)
    } else {
        positions_other(s.drop_last(), v)
    }
}

/// Whether `k` is the first position of `v` in `s`.
pub open spec fn is_first_position(s: Seq<usize>, v: usize, k: usize) -> bool {
    &&& k < s.len()
    &&& s[k as int] == v
    &&& forall|j: int| 0 <= j < k ==> s[j] != v
}

/// Whether value `v` of a variable with `n` values is possible under the
/// observation `observed`: every value is when nothing is observed, only the
/// observed one otherwise.
pub open spec fn possible(n: nat, observed: Option<usize>, v: int) -> bool {
    match observed {
        None => 0 <= v < n,
        Some(o) => v == o && o < n,
    }
}

/// Observing a value settles a node: when the last pair that names `node`
/// observes the in-range value `v`, `v` is the only value of `node` that its
/// evidence leaves possible.
pub proof fn lemma_evidence_pins_value(g: Graph, evidence: Seq<(usize, usize)>, node: usize, v: usize)
    requires
        g.wf(),
        node < g.len(),
        g.evidence(node as int) == last_value(evidence, node),
        last_value(evidence, node) == Some(v),
        v < g.card(node as int),
    ensures
        forall|w: int| #[trigger] possible(g.card(node as int) as nat, g.evidence(node as int), w) <==> w == v,
{
}

/// Out-of-range evidence leaves nothing possible: observing `i` on a variable
/// with `n <= i` values rules out every value.
pub proof fn lemma_out_of_range_evidence_is_impossible(n: nat, i: usize)
    requires
        n <= i,
    ensures
        forall|w: int| !#[trigger] possible(n, Some(i), w),
{
}

/// A message travelling along an edge: it is written into slot `slot` of the
/// adjacency list of node `to` that refers back to node `from`.
#[derive(PartialEq, Eq, Structural, Clone, Copy, Debug)]
pub struct Delivery {
    pub from: usize,
    pub to: usize,
    pub slot: usize,
}

/// The first position of `v` in `s`, which holds it.
fn first_slot(s: &Vec<usize>, v: usize) -> (k: usize)
    requires
        s@.contains(v),
    ensures
        is_first_position(s@, v, k),
{
    let n = s.len();
    let mut k: usize = 0;
    while s[k] != v
        invariant
            n == s@.len(),
            s@.contains(v),
            k < s@.len(),
            forall|j: int| 0 <= j < k ==> s@[j] != v,
        decreases s@.len() - k,
    {
        assert(k + 1 < s@.len()) by {
            let w = choose|w: int| 0 <= w < s@.len() && s@[w] == v;
            assert(w > k);
        }
        k = k + 1;
    }
    k
}

/// The first position of `v` in `s`, if `v` occurs there.
fn find_slot(s: &Vec<usize>, v: usize) -> (r: Option<usize>)
    ensures
        match r {
            Some(k) => is_first_position(s@, v, k),
            None => !s@.contains(v),
        },
{
    let mut k: usize = 0;
    while k < s.len()
        invariant
            k <= s@.len(),
            forall|j: int| 0 <= j < k ==> s@[j] != v,
        decreases s@.len() - k,
    {
        if s[k] == v {
            return Some(k);
        }
        k = k + 1;
    }
    None
}

/// The positions of `s` that do not hold `v`.
fn positions_without(s: &Vec<usize>, v: usize) -> (r: Vec<usize>)
    ensures
        r@ == positions_other(s@, v),
{
    let mut r: Vec<usize> = Vec::new();
    let mut k: usize = 0;
    while k < s.len()
        invariant
            k <= s@.len(),
            r@ == positions_other(s@.take(k as int), v),
        decreases s@.len() - k,
    {
        assert(s@.take(k + 1).drop_last() =~= s@.take(k as int));
        if s[k] != v {
            r.push(k);
        }
        k = k + 1;
    }
    assert(s@.take(k as int) =~= s@);
    r
}

/// The values of a variable with `n` values that the observation `observed`
/// leaves possible, as one flag per value.
pub fn support(n: usize, observed: Option<usize>) -> (r: Vec<bool>)
    ensures
        r@.len() == n,
        forall|v: int| 0 <= v < n ==> r@[v] == possible(n as nat, observed, v),
{
    let mut r: Vec<bool> = Vec::new();
    let mut k: usize = 0;
    while k < n
        invariant
            k <= n,
            r@.len() == k,
            forall|v: int| 0 <= v < k ==> r@[v] == possible(n as nat, observed, v),
        decreases n - k,
    {
        let flag = match observed {
            None => true,
            Some(o) => o == k,
        };
        r.push(flag);
        k = k + 1;
    }
    r
}

/// The values that observing value `i` of a variable with `n` values leaves
/// possible: `i` alone, or none at all when `i` is out of range.
pub fn deterministic_support(n: usize, i: usize) -> (r: Vec<bool>)
    ensures
        r@.len() == n,
        forall|v: int| 0 <= v < n ==> r@[v] == (v == i),
        i >= n ==> forall|v: int| 0 <= v < n ==> !r@[v],
{
    support(n, Some(i))
}

proof fn lemma_count_contains(s: Seq<usize>, v: usize)
    ensures
        count_of(s, v) > 0 <==> s.contains(v),
    decreases s.len(),
{
    if s.len() > 0 {
        let init = s.drop_last();
        lemma_count_contains(init, v);
        if init.contains(v) {
            let j = choose|j: int| 0 <= j < init.len() && init[j] == v;
            assert(s[j] == v);
        }
        if s.contains(v) && s.last() != v {
            let j = choose|j: int| 0 <= j < s.len() && s[j] == v;
            assert(init[j] == v);
        }
    }
}

proof fn lemma_contains_extend(a: Seq<usize>, b: Seq<usize>, v: usize)
    requires
        a.contains(v),
    ensures
        (a + b).contains(v),
{
    let j = choose|j: int| 0 <= j < a.len() && a[j] == v;
    assert((a + b)[j] == v);
}

/// A copy of `s`.
fn copy_slice(s: &[usize]) -> (r: Vec<usize>)
    ensures
        r@ == s@,
{
    let mut r: Vec<usize> = Vec::new();
    let mut k: usize = 0;
    while k < s.len()
        invariant
            k <= s.len(),
            r@ == s@.take(k as int),
        decreases s.len() - k,
    {
        r.push(s[k]);
        k = k + 1;
        assert(r@ =~= s@.take(k as int));
    }
    assert(s@.take(k as int) =~= s@);
    r
}

impl Graph {
    pub closed spec fn len(&self) -> nat {
        self.shapes@.len()
    }

    pub closed spec fn parents(&self, i: int) -> Seq<usize> {
        self.parents@[i]@
    }

    pub closed spec fn children(&self, i: int) -> Seq<usize> {
        self.children@[i]@
    }

    pub closed spec fn shape(&self, i: int) -> Seq<usize> {
        self.shapes@[i]@
    }

    pub closed spec fn evidence(&self, i: int) -> Option<usize> {
        self.evidence@[i]
    }

    /// The number of values of node `i`: the size of axis 0 of its table.
    pub open spec fn card(&self, i: int) -> usize {
        self.shape(i)[0]
    }

    /// Whether axis `k + 1` of a table for a new node fits its parent `k`.
    pub open spec fn axis_fits(&self, parents: Seq<usize>, shape: Seq<usize>, k: int) -> bool {
        parents[k] < self.len() && shape[k + 1] == self.card(parents[k] as int)
    }

    /// Whether a table of shape `shape` can be attached to a new node with parents `parents`.
    pub open spec fn table_fits(&self, parents: Seq<usize>, shape: Seq<usize>) -> bool {
        &&& shape.len() == parents.len() + 1
        &&& forall|k: int| 0 <= k < parents.len() ==> self.axis_fits(parents, shape, k)
    }

    pub open spec fn wf(&self) -> bool {
        &&& self.wf_sizes()
        &&& forall|i: int| 0 <= i < self.len() ==> #[trigger] self.node_wf(i)
    }

    pub closed spec fn wf_sizes(&self) -> bool {
        &&& self.parents@.len() == self.len()
        &&& self.children@.len() == self.len()
        &&& self.evidence@.len() == self.len()
    }

    /// Node `i`'s table has one axis per parent after its own, each as long as
    /// that parent has values; its parents come before it; and each edge is
    /// listed at both of its ends.
    pub open spec fn node_wf(&self, i: int) -> bool {
        &&& self.shape(i).len() == self.parents(i).len() + 1
        &&& forall|k: int|
            0 <= k < self.parents(i).len() ==> {
                let p = #[trigger] self.parents(i)[k];
                &&& p < i
                &&& self.shape(i)[k + 1] == self.card(p as int)
                &&& self.children(p as int).contains(i as usize)
            }
        &&& forall|k: int|
            0 <= k < self.children(i).len() ==> {
                let c = #[trigger] self.children(i)[k];
                &&& i < c < self.len()
                &&& self.parents(c as int).contains(i as usize)
            }
    }

    /// An empty network.
    pub fn new() -> (g: Graph)
        ensures
            g.wf(),
            g.len() == 0,
    {
        Graph { parents: Vec::new(), children: Vec::new(), shapes: Vec::new(), evidence: Vec::new() }
    }

    /// What adding a node with `parents` and a table of shape `shape` to
    /// `self` leads to: `r` and the network `new` after the call.
    pub open spec fn add_node_outcome(
        &self,
        parents: Seq<usize>,
        shape: Seq<usize>,
        r: Result<usize, ShapeError>,
        new: Graph,
    ) -> bool {
        &&& (r is Ok <==> self.table_fits(parents, shape))
        &&& match r {
            Ok(id) => {
                &&& id == self.len()
                &&& new.len() == self.len() + 1
                &&& new.parents(id as int) == parents
                &&& new.shape(id as int) == shape
                &&& new.children(id as int) == Seq::<usize>::empty()
                &&& new.evidence(id as int) == None::<usize>
                &&& forall|i: int|
                    0 <= i < self.len() ==> {
                        &&& new.parents(i) == self.parents(i)
                        &&& new.shape(i) == self.shape(i)
                        &&& new.evidence(i) == self.evidence(i)
                        &&& #[trigger] new.children(i) == self.children(i)
                            + Seq::new(count_of(parents, i as usize), |_j: int| id)
                    }
            },
            Err(e) => {
                &&& new == *self
                &&& match e {
                    ShapeError::RankMismatch { rank, n_parents } => {
                        &&& shape.len() != parents.len() + 1
                        &&& rank == shape.len()
                        &&& n_parents == parents.len()
                    },
                    ShapeError::UnknownParent { position, parent } => {
                        &&& shape.len() == parents.len() + 1
                        &&& position < parents.len()
                        &&& parent == parents[position as int]
                        &&& parent >= self.len()
                        &&& forall|j: int| 0 <= j < position ==> self.axis_fits(parents, shape, j)
                    },
                    ShapeError::AxisMismatch { axis, got, parent, expected } => {
                        &&& shape.len() == parents.len() + 1
                        &&& 1 <= axis <= parents.len()
                        &&& parent == parents[axis - 1]
                        &&& parent < self.len()
                        &&& got == shape[axis as int]
                        &&& expected == self.card(parent as int)
                        &&& got != expected
                        &&& forall|j: int| 0 <= j < axis - 1 ==> self.axis_fits(parents, shape, j)
                    },
                }
            },
        }
    }

    /// Adds a node whose conditional table has shape `shape` and whose
    /// parents are `parents`, in the order of the table's axes 1, 2, ...
    /// Axis 0 counts the new node's values. The new node is registered as a
    /// child of each parent (once per time it is listed) and gets the next
    /// identifier. A table that does not fit its parents is refused, with the
    /// first mismatch, and the network is left as it was.
    pub fn add_node(&mut self, parents: &[usize], shape: &[usize]) -> (r: Result<usize, ShapeError>)
        requires
            old(self).wf(),
        ensures
            final(self).wf(),
            old(self).add_node_outcome(parents@, shape@, r, *final(self)),
    {
        let id = self.shapes.len();
        if shape.len() == 0 || shape.len() - 1 != parents.len() {
            return Err(ShapeError::RankMismatch { rank: shape.len(), n_parents: parents.len() });
        }
        let mut k: usize = 0;
        while k < parents.len()
            invariant
                self.wf(),
                id == self.len(),
                shape@.len() == parents@.len() + 1,
                k <= parents@.len(),
                forall|j: int| 0 <= j < k ==> self.axis_fits(parents@, shape@, j),
            decreases parents@.len() - k,
        {
            let p = parents[k];
            if p >= id {
                assert(!self.axis_fits(parents@, shape@, k as int));
                return Err(ShapeError::UnknownParent { position: k, parent: p });
            }
            assert(self.node_wf(p as int));
            let expected = self.shapes[p][0];
            if shape[k + 1] != expected {
                assert(!self.axis_fits(parents@, shape@, k as int));
                return Err(
                    ShapeError::AxisMismatch { axis: k + 1, got: shape[k + 1], parent: p, expected },
                );
            }
            k = k + 1;
        }
        let ghost g0 = *self;
        k = 0;
        while k < parents.len()
            invariant
                g0.wf(),
                g0.table_fits(parents@, shape@),
                id == g0.len(),
                k <= parents@.len(),
                self.shapes == g0.shapes,
                self.parents == g0.parents,
                self.evidence == g0.evidence,
                self.children@.len() == g0.len(),
                forall|i: int|
                    0 <= i < g0.len() ==> #[trigger] self.children(i) == g0.children(i) + Seq::new(
                        count_of(parents@.take(k as int), i as usize),
                        |_j: int| id,
                    ),
            decreases parents@.len() - k,
        {
            let p = parents[k];
            assert(g0.axis_fits(parents@, shape@, k as int));
            let ghost ch = self.children@;
            let ghost s0 = *self;
            self.children[p].push(id);
            proof {
                assert(self.children@ == ch.update(p as int, self.children@[p as int]));
                assert(self.children@[p as int]@ == ch[p as int]@.push(id));
                assert(parents@.take(k + 1).drop_last() =~= parents@.take(k as int));
                assert forall|i: int| 0 <= i < g0.len() implies #[trigger] self.children(i)
                    == g0.children(i) + Seq::new(
                    count_of(parents@.take(k + 1), i as usize),
                    |_j: int| id,
                ) by {
                    let before = Seq::new(count_of(parents@.take(k as int), i as usize), |_j: int| id);
                    let after = Seq::new(count_of(parents@.take(k + 1), i as usize), |_j: int| id);
                    assert(s0.children(i) == g0.children(i) + before);
                    if i == p {
                        assert(after =~= before.push(id));
                        assert(self.children(i) =~= g0.children(i) + after);
                    } else {
                        assert(after =~= before);
                        assert(self.children@[i] == ch[i]);
                    }
                }
            }
            k = k + 1;
        }
        assert(parents@.take(k as int) =~= parents@);
        let ghost ch = self.children@;
        let ghost s1 = *self;
        self.parents.push(copy_slice(parents));
        self.shapes.push(copy_slice(shape));
        self.children.push(Vec::new());
        self.evidence.push(None);
        proof {
            assert(self.len() == id + 1);
            assert forall|i: int| 0 <= i < id implies self.children(i) == g0.children(i) + Seq::new(
                count_of(parents@, i as usize),
                |_j: int| id,
            ) by {
                assert(self.children@[i] == ch[i]);
                assert(s1.children(i) == g0.children(i) + Seq::new(
                    count_of(parents@.take(parents@.len() as int), i as usize),
                    |_j: int| id,
                ));
            }
            assert forall|i: int| 0 <= i < self.len() implies #[trigger] self.node_wf(i) by {
                if i < id {
                    assert(g0.node_wf(i));
                    assert forall|k: int| 0 <= k < self.parents(i).len() implies {
                        let p = #[trigger] self.parents(i)[k];
                        &&& p < i
                        &&& self.shape(i)[k + 1] == self.card(p as int)
                        &&& self.children(p as int).contains(i as usize)
                    } by {
                        let p = self.parents(i)[k];
                        assert(g0.parents(i)[k] == p);
                        assert(g0.children(p as int).contains(i as usize));
                        lemma_contains_extend(
                            g0.children(p as int),
                            Seq::new(count_of(parents@, p), |_j: int| id),
                            i as usize,
                        );
                    }
                    assert forall|k: int| 0 <= k < self.children(i).len() implies {
                        let c = #[trigger] self.children(i)[k];
                        &&& i < c < self.len()
                        &&& self.parents(c as int).contains(i as usize)
                    } by {
                        let c = self.children(i)[k];
                        let extra = Seq::new(count_of(parents@, i as usize), |_j: int| id);
                        assert(self.children(i) == g0.children(i) + extra);
                        if k < g0.children(i).len() {
                            assert(g0.children(i)[k] == c);
                        } else {
                            assert(c == id);
                            assert(count_of(parents@, i as usize) > 0);
                            lemma_count_contains(parents@, i as usize);
                        }
                    }
                } else {
                    assert forall|k: int| 0 <= k < self.parents(i).len() implies {
                        let p = #[trigger] self.parents(i)[k];
                        &&& p < i
                        &&& self.shape(i)[k + 1] == self.card(p as int)
                        &&& self.children(p as int).contains(i as usize)
                    } by {
                        let p = self.parents(i)[k];
                        assert(g0.axis_fits(parents@, shape@, k));
                        assert(parents@.contains(p));
                        lemma_count_contains(parents@, p);
                        let extra = Seq::new(count_of(parents@, p), |_j: int| id);
                        assert((g0.children(p as int) + extra)[g0.children(p as int).len() as int] == id);
                    }
                }
            }
        }
        Ok(id)
    }

    /// Whether `self` and `o` have the same nodes, edges and tables.
    pub open spec fn same_structure(&self, o: &Graph) -> bool {
        &&& self.len() == o.len()
        &&& forall|i: int|
            0 <= i < self.len() ==> {
                &&& #[trigger] self.parents(i) == o.parents(i)
                &&& self.children(i) == o.children(i)
                &&& self.shape(i) == o.shape(i)
            }
    }

    /// Replaces all observations: each pair `(node, value)` observes `value`
    /// on `node`, the last pair naming a node wins, and every node named by no
    /// pair becomes unobserved. Out-of-range values are kept as they are.
    pub fn set_evidence(&mut self, evidence: &[(usize, usize)])
        requires
            old(self).wf(),
            forall|j: int| 0 <= j < evidence@.len() ==> (#[trigger] evidence@[j]).0 < old(self).len(),
        ensures
            final(self).wf(),
            final(self).same_structure(old(self)),
            forall|i: int|
                0 <= i < final(self).len() ==> #[trigger] final(self).evidence(i) == last_value(
                    evidence@,
                    i as usize,
                ),
    {
        let ghost g0 = *self;
        let mut i: usize = 0;
        while i < self.evidence.len()
            invariant
                self.parents == g0.parents,
                self.children == g0.children,
                self.shapes == g0.shapes,
                self.evidence@.len() == g0.len(),
                i <= g0.len(),
                forall|j: int| 0 <= j < i ==> self.evidence@[j] == None::<usize>,
            decreases g0.len() - i,
        {
            self.evidence.set(i, None);
            i = i + 1;
        }
        let mut k: usize = 0;
        while k < evidence.len()
            invariant
                g0.wf(),
                forall|j: int| 0 <= j < evidence@.len() ==> (#[trigger] evidence@[j]).0 < g0.len(),
                self.parents == g0.parents,
                self.children == g0.children,
                self.shapes == g0.shapes,
                self.evidence@.len() == g0.len(),
                k <= evidence@.len(),
                forall|j: int|
                    0 <= j < g0.len() ==> self.evidence@[j] == last_value(
                        evidence@.take(k as int),
                        j as usize,
                    ),
            decreases evidence@.len() - k,
        {
            let (node, value) = evidence[k];
            assert(evidence@[k as int].0 < g0.len());
            let ghost before = self.evidence@;
            self.evidence.set(node, Some(value));
            let n = self.evidence.len();
            proof {
                let t = evidence@.take(k + 1);
                assert(t.drop_last() =~= evidence@.take(k as int));
                assert(t.last() == (node, value));
                assert forall|j: int| 0 <= j < g0.len() implies self.evidence@[j] == last_value(
                    t,
                    j as usize,
                ) by {
                    assert(t.len() > 0);
                    assert(last_value(t, j as usize) == if t.last().0 == j as usize {
                        Some(t.last().1)
                    } else {
                        last_value(t.drop_last(), j as usize)
                    });
                    if j != node {
                        assert(self.evidence@[j] == before[j]);
                        assert(before[j] == last_value(evidence@.take(k as int), j as usize));
                    } else {
                        assert(self.evidence@[j] == Some(value));
                        assert(t.last().0 == j as usize);
                    }
                }
            }
            k = k + 1;
        }
        assert(evidence@.take(k as int) =~= evidence@);
        assert(self.parents@ == g0.parents@);
        assert(self.children@ == g0.children@);
        assert(self.shapes@ == g0.shapes@);
        assert forall|i: int| 0 <= i < self.len() implies #[trigger] self.node_wf(i) by {
            assert(g0.node_wf(i));
            assert forall|j: int| 0 <= j < self.len() implies self.parents(j) == g0.parents(j)
                && self.children(j) == g0.children(j) && self.shape(j) == g0.shape(j) by {}
        }
    }

    /// The number of nodes.
    pub fn node_count(&self) -> (r: usize)
        ensures
            r == self.len(),
    {
        self.shapes.len()
    }

    /// The number of values of `node`.
    pub fn cardinality(&self, node: usize) -> (r: usize)
        requires
            self.wf(),
            node < self.len(),
        ensures
            r == self.card(node as int),
    {
        assert(self.node_wf(node as int));
        self.shapes[node][0]
    }

    /// The value observed on `node`, if any.
    pub fn observed(&self, node: usize) -> (r: Option<usize>)
        requires
            self.wf(),
            node < self.len(),
        ensures
            r == self.evidence(node as int),
    {
        self.evidence[node]
    }

    /// The parents of `node`, in the order of its table's axes 1, 2, ...
    pub fn parents_of(&self, node: usize) -> (r: &Vec<usize>)
        requires
            self.wf(),
            node < self.len(),
        ensures
            r@ == self.parents(node as int),
    {
        &self.parents[node]
    }

    /// The children of `node`, in order of creation.
    pub fn children_of(&self, node: usize) -> (r: &Vec<usize>)
        requires
            self.wf(),
            node < self.len(),
        ensures
            r@ == self.children(node as int),
    {
        &self.children[node]
    }

    /// The shape of the conditional table of `node`.
    pub fn shape_of(&self, node: usize) -> (r: &Vec<usize>)
        requires
            self.wf(),
            node < self.len(),
        ensures
            r@ == self.shape(node as int),
    {
        &self.shapes[node]
    }

    /// The values of `node` that its observation leaves possible.
    pub fn evidence_support(&self, node: usize) -> (r: Vec<bool>)
        requires
            self.wf(),
            node < self.len(),
        ensures
            r@.len() == self.card(node as int),
            forall|v: int|
                0 <= v < r@.len() ==> r@[v] == possible(
                    self.card(node as int) as nat,
                    self.evidence(node as int),
                    v,
                ),
    {
        support(self.cardinality(node), self.evidence[node])
    }

    /// The position of `from` in the parent list of `to`, if it is a parent.
    pub fn parent_slot(&self, to: usize, from: usize) -> (r: Option<usize>)
        requires
            self.wf(),
            to < self.len(),
        ensures
            match r {
                Some(k) => is_first_position(self.parents(to as int), from, k),
                None => !self.parents(to as int).contains(from),
            },
    {
        find_slot(&self.parents[to], from)
    }

    /// The position of `from` in the child list of `to`, if it is a child.
    pub fn child_slot(&self, to: usize, from: usize) -> (r: Option<usize>)
        requires
            self.wf(),
            to < self.len(),
        ensures
            match r {
                Some(k) => is_first_position(self.children(to as int), from, k),
                None => !self.children(to as int).contains(from),
            },
    {
        find_slot(&self.children[to], from)
    }

    /// The positions in the child list of `node` whose child is not `child`:
    /// the lambda messages that go into the pi message that `node` sends to `child`.
    pub fn other_children(&self, node: usize, child: usize) -> (r: Vec<usize>)
        requires
            self.wf(),
            node < self.len(),
        ensures
            r@ == positions_other(self.children(node as int), child),
    {
        positions_without(&self.children[node], child)
    }

    /// Where the pi messages of `from` go: one per entry of its child list, in
    /// that order, each into the first slot of the child's parent list that
    /// names `from`. Every child lists `from` as a parent, so none is lost.
    pub fn pi_deliveries(&self, from: usize) -> (r: Vec<Delivery>)
        requires
            self.wf(),
            from < self.len(),
        ensures
            r@.len() == self.children(from as int).len(),
            forall|k: int|
                0 <= k < r@.len() ==> {
                    let d = #[trigger] r@[k];
                    &&& d.from == from
                    &&& d.to == self.children(from as int)[k]
                    &&& d.to < self.len()
                    &&& is_first_position(self.parents(d.to as int), from, d.slot)
                },
    {
        assert(self.node_wf(from as int));
        let children = &self.children[from];
        let mut r: Vec<Delivery> = Vec::new();
        let mut k: usize = 0;
        while k < children.len()
            invariant
                self.wf(),
                from < self.len(),
                self.node_wf(from as int),
                children@ == self.children(from as int),
                k <= children@.len(),
                r@.len() == k,
                forall|j: int|
                    0 <= j < k ==> {
                        let d = #[trigger] r@[j];
                        &&& d.from == from
                        &&& d.to == self.children(from as int)[j]
                        &&& d.to < self.len()
                        &&& is_first_position(self.parents(d.to as int), from, d.slot)
                    },
            decreases children@.len() - k,
        {
            let to = children[k];
            assert(self.children(from as int)[k as int] == to);
            let slot = first_slot(&self.parents[to], from);
            r.push(Delivery { from, to, slot });
            k = k + 1;
        }
        r
    }

    /// Where the lambda messages of `from` go: one per entry of its parent
    /// list, in that order, each into the first slot of the parent's child
    /// list that names `from`. Every parent lists `from` as a child, so none
    /// is lost.
    pub fn lambda_deliveries(&self, from: usize) -> (r: Vec<Delivery>)
        requires
            self.wf(),
            from < self.len(),
        ensures
            r@.len() == self.parents(from as int).len(),
            forall|k: int|
                0 <= k < r@.len() ==> {
                    let d = #[trigger] r@[k];
                    &&& d.from == from
                    &&& d.to == self.parents(from as int)[k]
                    &&& d.to < from
                    &&& is_first_position(self.children(d.to as int), from, d.slot)
                },
    {
        assert(self.node_wf(from as int));
        let parents = &self.parents[from];
        let mut r: Vec<Delivery> = Vec::new();
        let mut k: usize = 0;
        while k < parents.len()
            invariant
                self.wf(),
                from < self.len(),
                self.node_wf(from as int),
                parents@ == self.parents(from as int),
                k <= parents@.len(),
                r@.len() == k,
                forall|j: int|
                    0 <= j < k ==> {
                        let d = #[trigger] r@[j];
                        &&& d.from == from
                        &&& d.to == self.parents(from as int)[j]
                        &&& d.to < from
                        &&& is_first_position(self.children(d.to as int), from, d.slot)
                    },
            decreases parents@.len() - k,
        {
            let to = parents[k];
            assert(self.parents(from as int)[k as int] == to);
            let slot = first_slot(&self.children[to], from);
            r.push(Delivery { from, to, slot });
            k = k + 1;
        }
        r
    }
}

} // verus!
