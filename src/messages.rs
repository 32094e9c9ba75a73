use vstd::prelude::*;

use crate::cache::Cache;
use crate::network::{count_of, last_value, Delivery, Graph, ShapeError};

verus! {

/// The last message of `staged` addressed to slot `slot` of node `to`, if any.
pub open spec fn last_for<M>(staged: Seq<(Delivery, M)>, to: int, slot: int) -> Option<M>
    decreases staged.len(),
{
    if staged.len() == 0 {
        None
    } else if staged.last().0.to == to && staged.last().0.slot == slot {
        Some(staged.last().1)
    } else {
        last_for(staged.drop_last(), to, slot)
    }
}

/// The entries of `msgs` at the positions where `parents` holds `p`, in order.
pub open spec fn entries_for<M>(parents: Seq<usize>, msgs: Seq<M>, p: usize) -> Seq<M>
    decreases parents.len(),
{
    if parents.len() == 0 || msgs.len() == 0 {
        Seq::empty()
    } else if parents.last() == p {
        entries_for(parents.drop_last(), msgs.drop_last(), p).push(msgs.last())
    } else {
        entries_for(parents.drop_last(), msgs.drop_last(), p)
    }
}

/// A staged message that no later staged message overwrites is the one its
/// slot holds after the commit.
pub proof fn lemma_staged_message_arrives<M>(staged: Seq<(Delivery, M)>, j: int)
    requires
        0 <= j < staged.len(),
        forall|l: int| j < l < staged.len() ==> !(#[trigger] staged[l].0.to == staged[j].0.to
            && staged[l].0.slot == staged[j].0.slot),
    ensures
        last_for(staged, staged[j].0.to as int, staged[j].0.slot as int) == Some(staged[j].1),
    decreases staged.len(),
{
    if j < staged.len() - 1 {
        let init = staged.drop_last();
        assert(staged[staged.len() - 1] == staged.last());
        assert forall|l: int| j < l < init.len() implies !(#[trigger] init[l].0.to == init[j].0.to
            && init[l].0.slot == init[j].0.slot) by {
            assert(init[l] == staged[l]);
        }
        lemma_staged_message_arrives(init, j);
    }
}

/// Whether two staged messages go to the same slot.
pub open spec fn same_slot(a: Delivery, b: Delivery) -> bool {
    a.to == b.to && a.slot == b.slot
}

/// The order in which a sweep stages its messages does not matter: swapping
/// two neighbouring staged messages that go to different slots leaves every
/// slot with the same message after the commit.
pub proof fn lemma_commit_order_free<M>(staged: Seq<(Delivery, M)>, j: int, to: int, slot: int)
    requires
        0 <= j,
        j + 1 < staged.len(),
        !same_slot(staged[j].0, staged[j + 1].0),
    ensures
        last_for(staged.update(j, staged[j + 1]).update(j + 1, staged[j]), to, slot)
            == last_for(staged, to, slot),
    decreases staged.len(),
{
    let swapped = staged.update(j, staged[j + 1]).update(j + 1, staged[j]);
    let n = staged.len();
    if j + 1 < n - 1 {
        assert(swapped.last() == staged.last());
        let init = staged.drop_last();
        assert(swapped.drop_last() =~= init.update(j, init[j + 1]).update(j + 1, init[j]));
        lemma_commit_order_free(init, j, to, slot);
    } else {
        let base = staged.take(j);
        assert(staged.drop_last().drop_last() =~= base);
        assert(swapped.drop_last().drop_last() =~= base);
        assert(staged.drop_last().last() == staged[j]);
        assert(swapped.drop_last().last() == staged[j + 1]);
        assert(swapped.last() == staged[j]);
        assert(staged.last() == staged[j + 1]);
        assert(last_for(staged.drop_last(), to, slot) == if staged[j].0.to == to && staged[j].0.slot == slot {
            Some(staged[j].1)
        } else {
            last_for(base, to, slot)
        });
        assert(last_for(swapped.drop_last(), to, slot) == if staged[j + 1].0.to == to && staged[j + 1].0.slot == slot {
            Some(staged[j + 1].1)
        } else {
            last_for(base, to, slot)
        });
    }
}

proof fn lemma_entries_len<M>(parents: Seq<usize>, msgs: Seq<M>, p: usize)
    requires
        parents.len() == msgs.len(),
    ensures
        entries_for(parents, msgs, p).len() == count_of(parents, p),
    decreases parents.len(),
{
    if parents.len() > 0 {
        lemma_entries_len(parents.drop_last(), msgs.drop_last(), p);
    }
}

/// A network together with its messages: for each node, one incoming pi
/// message per entry of its parent list and one incoming lambda message per
/// entry of its child list, plus the node's two memo slots (its aggregated
/// lambda and pi). Each message is stored once, at the node that reads it.
pub struct Network<M> {
    graph: Graph,
    pi_in: Vec<Vec<M>>,
    lambda_in: Vec<Vec<M>>,
    lambda: Vec<Cache<M>>,
    pi: Vec<Cache<M>>,
}

/// The content of slot `j` of node `i` after writing `staged` over `slots`.
pub open spec fn written<M>(slots: Seq<Seq<M>>, staged: Seq<(Delivery, M)>, i: int, j: int) -> M {
    match last_for(staged, i, j) {
        Some(m) => m,
        None => slots[i][j],
    }
}

/// Writes each staged message into the slot its delivery names, in order.
fn write_all<M>(slots: &mut Vec<Vec<M>>, staged: Vec<(Delivery, M)>)
    requires
        forall|j: int| 0 <= j < staged@.len() ==> {
            let d = (#[trigger] staged@[j]).0;
            &&& d.to < old(slots)@.len()
            &&& d.slot < old(slots)@[d.to as int]@.len()
        },
    ensures
        final(slots)@.len() == old(slots)@.len(),
        forall|i: int| 0 <= i < old(slots)@.len() ==> (#[trigger] final(slots)@[i])@.len() == old(slots)@[i]@.len(),
        forall|i: int, j: int| 0 <= i < old(slots)@.len() && 0 <= j < old(slots)@[i]@.len() ==>
            (#[trigger] final(slots)@[i]@[j]) == written(old(slots)@.map_values(|v: Vec<M>| v@), staged@, i, j),
{
    let ghost s0 = slots@.map_values(|v: Vec<M>| v@);
    let n = staged.len();
    let len = slots.len();
    let mut rest = staged;
    let mut k: usize = 0;
    while k < n
        invariant
            n == staged@.len(),
            len == s0.len(),
            s0 == old(slots)@.map_values(|v: Vec<M>| v@),
            forall|j: int| 0 <= j < staged@.len() ==> {
                let d = (#[trigger] staged@[j]).0;
                &&& d.to < old(slots)@.len()
                &&& d.slot < old(slots)@[d.to as int]@.len()
            },
            k <= n,
            rest@ == staged@.subrange(k as int, n as int),
            slots@.len() == s0.len(),
            forall|i: int| 0 <= i < s0.len() ==> (#[trigger] slots@[i])@.len() == s0[i].len(),
            forall|i: int, j: int| 0 <= i < s0.len() && 0 <= j < s0[i].len() ==>
                (#[trigger] slots@[i]@[j]) == written(s0, staged@.take(k as int), i, j),
        decreases n - k,
    {
        let (d, m) = rest.remove(0);
        assert(staged@[k as int] == (d, m));
        let ghost before = slots@;
        slots[d.to].set(d.slot, m);
        proof {
            let t = staged@.take(k + 1);
            assert(t.drop_last() =~= staged@.take(k as int));
            assert(t.last() == (d, m));
            assert(rest@ =~= staged@.subrange(k + 1, n as int));
            assert forall|i: int| 0 <= i < s0.len() implies (#[trigger] slots@[i])@.len() == s0[i].len() by {
                if i != d.to {
                    assert(slots@[i] == before[i]);
                }
            }
            assert forall|i: int, j: int| 0 <= i < s0.len() && 0 <= j < s0[i].len() implies
                (#[trigger] slots@[i]@[j]) == written(s0, t, i, j) by {
                assert(last_for(t, i, j) == if t.last().0.to == i && t.last().0.slot == j {
                    Some(t.last().1)
                } else {
                    last_for(t.drop_last(), i, j)
                });
                if i == d.to && j == d.slot {
                } else {
                    assert(slots@[i]@[j] == before[i]@[j]);
                    assert(before[i]@[j] == written(s0, staged@.take(k as int), i, j));
                }
            }
        }
        k = k + 1;
    }
    assert(staged@.take(k as int) =~= staged@);
}

impl<M> Network<M> {
    pub closed spec fn structure(&self) -> Graph {
        self.graph
    }

    /// The pi messages that node `i` has received, by position in its parent list.
    pub closed spec fn pi_messages(&self, i: int) -> Seq<M> {
        self.pi_in@[i]@
    }

    /// The lambda messages that node `i` has received, by position in its child list.
    pub closed spec fn lambda_messages(&self, i: int) -> Seq<M> {
        self.lambda_in@[i]@
    }

    pub closed spec fn lambda_cache(&self, i: int) -> Cache<M> {
        self.lambda@[i]
    }

    pub closed spec fn pi_cache(&self, i: int) -> Cache<M> {
        self.pi@[i]
    }

    pub closed spec fn wf_sizes(&self) -> bool {
        &&& self.pi_in@.len() == self.graph.len()
        &&& self.lambda_in@.len() == self.graph.len()
        &&& self.lambda@.len() == self.graph.len()
        &&& self.pi@.len() == self.graph.len()
    }

    /// The structure is well formed, and each node holds exactly one message
    /// slot per entry of its parent and child lists.
    pub open spec fn wf(&self) -> bool {
        &&& self.structure().wf()
        &&& self.wf_sizes()
        &&& forall|i: int|
            0 <= i < self.structure().len() ==> {
                &&& #[trigger] self.pi_messages(i).len() == self.structure().parents(i).len()
                &&& self.lambda_messages(i).len() == self.structure().children(i).len()
            }
    }

    /// Whether every memo slot is stale.
    pub open spec fn all_stale(&self) -> bool {
        forall|i: int|
            0 <= i < self.structure().len() ==> #[trigger] self.lambda_cache(i) is Stale
                && self.pi_cache(i) is Stale
    }

    /// An empty network.
    pub fn new() -> (r: Network<M>)
        ensures
            r.wf(),
            r.structure().len() == 0,
    {
        Network {
            graph: Graph::new(),
            pi_in: Vec::new(),
            lambda_in: Vec::new(),
            lambda: Vec::new(),
            pi: Vec::new(),
        }
    }

    /// The structure of the network.
    pub fn graph(&self) -> (r: &Graph)
        ensures
            *r == self.structure(),
    {
        &self.graph
    }
    /// Adds a node, as `Graph::add_node` does. `incoming[k]` becomes the
    /// node's pi message from parent `k`, and `outgoing[k]` is appended to
    /// the lambda messages of parent `k`, beside the child entry that names
    /// the new node. The new node's memo slots are stale. A table that does
    /// not fit its parents leaves the network as it was.
    pub fn add_node(&mut self, parents: &[usize], shape: &[usize], incoming: Vec<M>, outgoing: Vec<M>) -> (r: Result<usize, ShapeError>)
        requires
            old(self).wf(),
            incoming@.len() == parents@.len(),
            outgoing@.len() == parents@.len(),
        ensures
            final(self).wf(),
            old(self).structure().add_node_outcome(parents@, shape@, r, final(self).structure()),
            match r {
                Ok(id) => {
                    &&& final(self).pi_messages(id as int) == incoming@
                    &&& final(self).lambda_messages(id as int) == Seq::<M>::empty()
                    &&& final(self).lambda_cache(id as int) is Stale
                    &&& final(self).pi_cache(id as int) is Stale
                    &&& forall|i: int|
                        0 <= i < old(self).structure().len() ==> {
                            &&& final(self).pi_messages(i) == old(self).pi_messages(i)
                            &&& final(self).lambda_cache(i) == old(self).lambda_cache(i)
                            &&& final(self).pi_cache(i) == old(self).pi_cache(i)
                            &&& #[trigger] final(self).lambda_messages(i) == old(self).lambda_messages(i)
                                + entries_for(parents@, outgoing@, i as usize)
                        }
                },
                Err(_) => *final(self) == *old(self),
            },
    {
        let ghost s0 = *self;
        let r = self.graph.add_node(parents, shape);
        let id = match r {
            Ok(id) => id,
            Err(e) => {
                return Err(e);
            },
        };
        let mut rest = outgoing;
        let mut k: usize = 0;
        while k < parents.len()
            invariant
                s0.wf(),
                self.graph.wf(),
                s0.structure().add_node_outcome(parents@, shape@, r, self.graph),
                r == Ok::<usize, ShapeError>(id),
                k <= parents@.len(),
                outgoing@.len() == parents@.len(),
                rest@ == outgoing@.subrange(k as int, outgoing@.len() as int),
                self.pi_in == s0.pi_in,
                self.lambda == s0.lambda,
                self.pi == s0.pi,
                self.lambda_in@.len() == s0.structure().len(),
                forall|i: int|
                    0 <= i < s0.structure().len() ==> #[trigger] self.lambda_in@[i]@ == s0.lambda_messages(i)
                        + entries_for(parents@.take(k as int), outgoing@.take(k as int), i as usize),
            decreases parents@.len() - k,
        {
            let p = parents[k];
            assert(s0.structure().axis_fits(parents@, shape@, k as int));
            let m = rest.remove(0);
            let ghost before = self.lambda_in@;
            self.lambda_in[p].push(m);
            proof {
                assert(m == outgoing@[k as int]);
                let pk = parents@.take(k + 1);
                let ok = outgoing@.take(k + 1);
                assert(pk.drop_last() =~= parents@.take(k as int));
                assert(ok.drop_last() =~= outgoing@.take(k as int));
                assert(rest@ =~= outgoing@.subrange(k + 1, outgoing@.len() as int));
                assert forall|i: int| 0 <= i < s0.structure().len() implies #[trigger] self.lambda_in@[i]@
                    == s0.lambda_messages(i) + entries_for(pk, ok, i as usize) by {
                    assert(pk.len() > 0 && ok.len() > 0);
                    if i == p {
                        assert(self.lambda_in@[i]@ =~= s0.lambda_messages(i) + entries_for(pk, ok, i as usize));
                    } else {
                        assert(self.lambda_in@[i] == before[i]);
                    }
                }
            }
            k = k + 1;
        }
        assert(parents@.take(k as int) =~= parents@);
        assert(outgoing@.take(k as int) =~= outgoing@);
        let ghost s1 = *self;
        self.pi_in.push(incoming);
        self.lambda_in.push(Vec::new());
        self.lambda.push(Cache::Stale);
        self.pi.push(Cache::Stale);
        proof {
            let g = self.graph;
            assert forall|i: int| 0 <= i < g.len() implies {
                &&& #[trigger] self.pi_messages(i).len() == g.parents(i).len()
                &&& self.lambda_messages(i).len() == g.children(i).len()
            } by {
                if i < id {
                    assert(self.pi_in@[i] == s1.pi_in@[i]);
                    assert(self.lambda_in@[i] == s1.lambda_in@[i]);
                    assert(s1.lambda_in@[i]@ == s0.lambda_messages(i) + entries_for(parents@, outgoing@, i as usize));
                    lemma_entries_len(parents@, outgoing@, i as usize);
                    assert(g.children(i) == s0.structure().children(i) + Seq::new(count_of(parents@, i as usize), |_j: int| id));
                    assert(s0.pi_messages(i).len() == s0.structure().parents(i).len());
                }
            }
            assert forall|i: int| 0 <= i < s0.structure().len() implies {
                &&& self.pi_messages(i) == s0.pi_messages(i)
                &&& self.lambda_cache(i) == s0.lambda_cache(i)
                &&& self.pi_cache(i) == s0.pi_cache(i)
                &&& #[trigger] self.lambda_messages(i) == s0.lambda_messages(i) + entries_for(parents@, outgoing@, i as usize)
            } by {
                assert(self.lambda_in@[i] == s1.lambda_in@[i]);
                assert(self.pi_in@[i] == s1.pi_in@[i]);
            }
        }
        Ok(id)
    }
    proof fn lemma_wf_same_lengths(a: &Self, b: &Self)
        requires
            a.wf(),
            b.graph == a.graph,
            b.wf_sizes(),
            forall|i: int| 0 <= i < a.structure().len() ==> {
                &&& #[trigger] b.pi_in@[i]@.len() == a.pi_in@[i]@.len()
                &&& b.lambda_in@[i]@.len() == a.lambda_in@[i]@.len()
            },
        ensures
            b.wf(),
    {
        assert forall|i: int| 0 <= i < b.structure().len() implies {
            &&& #[trigger] b.pi_messages(i).len() == b.structure().parents(i).len()
            &&& b.lambda_messages(i).len() == b.structure().children(i).len()
        } by {
            assert(a.pi_messages(i).len() == a.structure().parents(i).len());
            assert(b.pi_in@[i]@.len() == a.pi_in@[i]@.len());
        }
    }

    /// The pi message that `node` received from the parent at position `k`.
    pub fn pi_message(&self, node: usize, k: usize) -> (r: &M)
        requires
            self.wf(),
            node < self.structure().len(),
            k < self.structure().parents(node as int).len(),
        ensures
            *r == self.pi_messages(node as int)[k as int],
    {
        assert(self.pi_messages(node as int).len() == self.structure().parents(node as int).len());
        &self.pi_in[node][k]
    }

    /// The lambda message that `node` received from the child at position `k`.
    pub fn lambda_message(&self, node: usize, k: usize) -> (r: &M)
        requires
            self.wf(),
            node < self.structure().len(),
            k < self.structure().children(node as int).len(),
        ensures
            *r == self.lambda_messages(node as int)[k as int],
    {
        assert(self.pi_messages(node as int).len() == self.structure().parents(node as int).len());
        assert(self.lambda_messages(node as int).len() == self.structure().children(node as int).len());
        &self.lambda_in[node][k]
    }

    /// The lambda messages that `node` has received, by child position.
    pub fn lambda_messages_of(&self, node: usize) -> (r: &Vec<M>)
        requires
            self.wf(),
            node < self.structure().len(),
        ensures
            r@ == self.lambda_messages(node as int),
    {
        &self.lambda_in[node]
    }

    /// The pi messages that `node` has received, by parent position.
    pub fn pi_messages_of(&self, node: usize) -> (r: &Vec<M>)
        requires
            self.wf(),
            node < self.structure().len(),
        ensures
            r@ == self.pi_messages(node as int),
    {
        &self.pi_in[node]
    }

    /// The memoized lambda of `node`, unless stale.
    pub fn cached_lambda(&self, node: usize) -> (r: Option<&M>)
        requires
            self.wf(),
            node < self.structure().len(),
        ensures
            match self.lambda_cache(node as int) {
                Cache::Stale => r is None,
                Cache::Cached(v) => r == Some(&v),
            },
    {
        self.lambda[node].get()
    }

    /// The memoized pi of `node`, unless stale.
    pub fn cached_pi(&self, node: usize) -> (r: Option<&M>)
        requires
            self.wf(),
            node < self.structure().len(),
        ensures
            match self.pi_cache(node as int) {
                Cache::Stale => r is None,
                Cache::Cached(v) => r == Some(&v),
            },
    {
        self.pi[node].get()
    }

    /// Memoizes the lambda of `node`; nothing else changes.
    pub fn store_lambda(&mut self, node: usize, value: M)
        requires
            old(self).wf(),
            node < old(self).structure().len(),
        ensures
            final(self).wf(),
            final(self).structure() == old(self).structure(),
            final(self).lambda_cache(node as int) == Cache::Cached(value),
            forall|i: int| 0 <= i < old(self).structure().len() && i != node ==>
                #[trigger] final(self).lambda_cache(i) == old(self).lambda_cache(i),
            forall|i: int| 0 <= i < old(self).structure().len() ==>
                #[trigger] final(self).pi_messages(i) == old(self).pi_messages(i),
            forall|i: int| 0 <= i < old(self).structure().len() ==>
                #[trigger] final(self).lambda_messages(i) == old(self).lambda_messages(i),
            forall|i: int| 0 <= i < old(self).structure().len() ==>
                #[trigger] final(self).pi_cache(i) == old(self).pi_cache(i),
    {
        let ghost s0 = *self;
        self.lambda.set(node, Cache::Cached(value));
        proof {
            Self::lemma_wf_same_lengths(&s0, self);
        }
    }

    /// Memoizes the pi of `node`; nothing else changes.
    pub fn store_pi(&mut self, node: usize, value: M)
        requires
            old(self).wf(),
            node < old(self).structure().len(),
        ensures
            final(self).wf(),
            final(self).structure() == old(self).structure(),
            final(self).pi_cache(node as int) == Cache::Cached(value),
            forall|i: int| 0 <= i < old(self).structure().len() && i != node ==>
                #[trigger] final(self).pi_cache(i) == old(self).pi_cache(i),
            forall|i: int| 0 <= i < old(self).structure().len() ==>
                #[trigger] final(self).pi_messages(i) == old(self).pi_messages(i),
            forall|i: int| 0 <= i < old(self).structure().len() ==>
                #[trigger] final(self).lambda_messages(i) == old(self).lambda_messages(i),
            forall|i: int| 0 <= i < old(self).structure().len() ==>
                #[trigger] final(self).lambda_cache(i) == old(self).lambda_cache(i),
    {
        let ghost s0 = *self;
        self.pi.set(node, Cache::Cached(value));
        proof {
            Self::lemma_wf_same_lengths(&s0, self);
        }
    }

    /// Replaces the pi message that `node` holds from its parent at position
    /// `k`, and marks every memo slot stale.
    pub fn set_pi_message(&mut self, node: usize, k: usize, value: M)
        requires
            old(self).wf(),
            node < old(self).structure().len(),
            k < old(self).structure().parents(node as int).len(),
        ensures
            final(self).wf(),
            final(self).all_stale(),
            final(self).structure() == old(self).structure(),
            final(self).pi_messages(node as int) == old(self).pi_messages(node as int).update(k as int, value),
            forall|i: int| 0 <= i < old(self).structure().len() && i != node ==>
                #[trigger] final(self).pi_messages(i) == old(self).pi_messages(i),
            forall|i: int| 0 <= i < old(self).structure().len() ==>
                #[trigger] final(self).lambda_messages(i) == old(self).lambda_messages(i),
    {
        assert(self.pi_messages(node as int).len() == self.structure().parents(node as int).len());
        let ghost s0 = *self;
        self.pi_in[node].set(k, value);
        proof {
            assert forall|i: int| 0 <= i < self.graph.len() implies {
                &&& #[trigger] self.pi_in@[i]@.len() == s0.pi_in@[i]@.len()
                &&& self.lambda_in@[i]@.len() == s0.lambda_in@[i]@.len()
                &&& i != node ==> self.pi_in@[i] == s0.pi_in@[i]
            } by {}
            Self::lemma_wf_same_lengths(&s0, self);
        }
        self.invalidate_all();
    }

    /// Replaces the lambda message that `node` holds from its child at
    /// position `k`, and marks every memo slot stale.
    pub fn set_lambda_message(&mut self, node: usize, k: usize, value: M)
        requires
            old(self).wf(),
            node < old(self).structure().len(),
            k < old(self).structure().children(node as int).len(),
        ensures
            final(self).wf(),
            final(self).all_stale(),
            final(self).structure() == old(self).structure(),
            final(self).lambda_messages(node as int) == old(self).lambda_messages(node as int).update(k as int, value),
            forall|i: int| 0 <= i < old(self).structure().len() && i != node ==>
                #[trigger] final(self).lambda_messages(i) == old(self).lambda_messages(i),
            forall|i: int| 0 <= i < old(self).structure().len() ==>
                #[trigger] final(self).pi_messages(i) == old(self).pi_messages(i),
    {
        assert(self.pi_messages(node as int).len() == self.structure().parents(node as int).len());
        assert(self.lambda_messages(node as int).len() == self.structure().children(node as int).len());
        let ghost s0 = *self;
        self.lambda_in[node].set(k, value);
        proof {
            assert forall|i: int| 0 <= i < self.graph.len() implies {
                &&& #[trigger] self.pi_in@[i]@.len() == s0.pi_in@[i]@.len()
                &&& self.lambda_in@[i]@.len() == s0.lambda_in@[i]@.len()
                &&& i != node ==> self.lambda_in@[i] == s0.lambda_in@[i]
            } by {}
            Self::lemma_wf_same_lengths(&s0, self);
        }
        self.invalidate_all();
    }

    /// Marks every memo slot stale; the messages stay.
    pub fn invalidate_all(&mut self)
        requires
            old(self).wf(),
        ensures
            final(self).wf(),
            final(self).all_stale(),
            final(self).structure() == old(self).structure(),
            forall|i: int| 0 <= i < old(self).structure().len() ==>
                #[trigger] final(self).pi_messages(i) == old(self).pi_messages(i),
            forall|i: int| 0 <= i < old(self).structure().len() ==>
                #[trigger] final(self).lambda_messages(i) == old(self).lambda_messages(i),
    {
        let n = self.lambda.len();
        let mut i: usize = 0;
        while i < n
            invariant
                n == self.graph.len(),
                self.wf_sizes(),
                self.graph == old(self).graph,
                self.pi_in == old(self).pi_in,
                self.lambda_in == old(self).lambda_in,
                old(self).wf(),
                i <= n,
                forall|j: int| 0 <= j < i ==> #[trigger] self.lambda@[j] is Stale && self.pi@[j] is Stale,
            decreases n - i,
        {
            self.lambda.set(i, Cache::Stale);
            self.pi.set(i, Cache::Stale);
            i = i + 1;
        }
        proof {
            Self::lemma_wf_same_lengths(old(self), self);
        }
    }
    /// Ends a sweep: writes the staged messages into their slots, each pi
    /// message into the pi slot its delivery names and each lambda message
    /// into the lambda slot, the last one staged for a slot staying; the other
    /// slots keep their messages. Every memo slot becomes stale.
    pub fn commit(&mut self, pi_staged: Vec<(Delivery, M)>, lambda_staged: Vec<(Delivery, M)>)
        requires
            old(self).wf(),
            forall|j: int| 0 <= j < pi_staged@.len() ==> {
                let d = (#[trigger] pi_staged@[j]).0;
                &&& d.to < old(self).structure().len()
                &&& d.slot < old(self).structure().parents(d.to as int).len()
            },
            forall|j: int| 0 <= j < lambda_staged@.len() ==> {
                let d = (#[trigger] lambda_staged@[j]).0;
                &&& d.to < old(self).structure().len()
                &&& d.slot < old(self).structure().children(d.to as int).len()
            },
        ensures
            final(self).wf(),
            final(self).all_stale(),
            final(self).structure() == old(self).structure(),
            forall|i: int, k: int| 0 <= i < old(self).structure().len() && 0 <= k < old(self).structure().parents(i).len() ==>
                #[trigger] final(self).pi_messages(i)[k] == match last_for(pi_staged@, i, k) {
                    Some(m) => m,
                    None => old(self).pi_messages(i)[k],
                },
            forall|i: int, k: int| 0 <= i < old(self).structure().len() && 0 <= k < old(self).structure().children(i).len() ==>
                #[trigger] final(self).lambda_messages(i)[k] == match last_for(lambda_staged@, i, k) {
                    Some(m) => m,
                    None => old(self).lambda_messages(i)[k],
                },
    {
        let ghost s0 = *self;
        proof {
            assert forall|j: int| 0 <= j < pi_staged@.len() implies {
                let d = (#[trigger] pi_staged@[j]).0;
                &&& d.to < self.pi_in@.len()
                &&& d.slot < self.pi_in@[d.to as int]@.len()
            } by {
                let d = pi_staged@[j].0;
                assert(self.pi_messages(d.to as int).len() == self.structure().parents(d.to as int).len());
            }
            assert forall|j: int| 0 <= j < lambda_staged@.len() implies {
                let d = (#[trigger] lambda_staged@[j]).0;
                &&& d.to < self.lambda_in@.len()
                &&& d.slot < self.lambda_in@[d.to as int]@.len()
            } by {
                let d = lambda_staged@[j].0;
                assert(self.pi_messages(d.to as int).len() == self.structure().parents(d.to as int).len());
            }
        }
        write_all(&mut self.pi_in, pi_staged);
        write_all(&mut self.lambda_in, lambda_staged);
        proof {
            assert forall|i: int| 0 <= i < self.graph.len() implies {
                &&& #[trigger] self.pi_in@[i]@.len() == s0.pi_in@[i]@.len()
                &&& self.lambda_in@[i]@.len() == s0.lambda_in@[i]@.len()
            } by {}
            Self::lemma_wf_same_lengths(&s0, self);
            assert forall|i: int, k: int| 0 <= i < s0.structure().len() && 0 <= k < s0.structure().parents(i).len() implies
                #[trigger] self.pi_messages(i)[k] == match last_for(pi_staged@, i, k) {
                    Some(m) => m,
                    None => s0.pi_messages(i)[k],
                } by {
                assert(s0.pi_messages(i).len() == s0.structure().parents(i).len());
                assert(self.pi_in@[i]@[k] == written(s0.pi_in@.map_values(|v: Vec<M>| v@), pi_staged@, i, k));
            }
            assert forall|i: int, k: int| 0 <= i < s0.structure().len() && 0 <= k < s0.structure().children(i).len() implies
                #[trigger] self.lambda_messages(i)[k] == match last_for(lambda_staged@, i, k) {
                    Some(m) => m,
                    None => s0.lambda_messages(i)[k],
                } by {
                assert(s0.pi_messages(i).len() == s0.structure().parents(i).len());
                assert(self.lambda_in@[i]@[k] == written(s0.lambda_in@.map_values(|v: Vec<M>| v@), lambda_staged@, i, k));
            }
        }
        let ghost s1 = *self;
        self.invalidate_all();
        proof {
            assert forall|i: int, k: int| 0 <= i < s0.structure().len() && 0 <= k < s0.structure().parents(i).len() implies
                #[trigger] self.pi_messages(i)[k] == s1.pi_messages(i)[k] by {
                assert(self.pi_messages(i) == s1.pi_messages(i));
            }
            assert forall|i: int, k: int| 0 <= i < s0.structure().len() && 0 <= k < s0.structure().children(i).len() implies
                #[trigger] self.lambda_messages(i)[k] == s1.lambda_messages(i)[k] by {
                assert(self.lambda_messages(i) == s1.lambda_messages(i));
            }
        }
    }
    /// Replaces all observations, as `Graph::set_evidence` does; the
    /// messages stay and every memo slot becomes stale.
    pub fn set_evidence(&mut self, evidence: &[(usize, usize)])
        requires
            old(self).wf(),
            forall|j: int| 0 <= j < evidence@.len() ==> (#[trigger] evidence@[j]).0 < old(self).structure().len(),
        ensures
            final(self).wf(),
            final(self).all_stale(),
            final(self).structure().same_structure(&old(self).structure()),
            forall|i: int| 0 <= i < final(self).structure().len() ==>
                #[trigger] final(self).structure().evidence(i) == last_value(evidence@, i as usize),
            forall|i: int| 0 <= i < old(self).structure().len() ==>
                #[trigger] final(self).pi_messages(i) == old(self).pi_messages(i),
            forall|i: int| 0 <= i < old(self).structure().len() ==>
                #[trigger] final(self).lambda_messages(i) == old(self).lambda_messages(i),
    {
        let ghost s0 = *self;
        self.graph.set_evidence(evidence);
        proof {
            assert forall|i: int| 0 <= i < self.graph.len() implies {
                &&& #[trigger] self.pi_messages(i).len() == self.structure().parents(i).len()
                &&& self.lambda_messages(i).len() == self.structure().children(i).len()
            } by {
                assert(s0.pi_messages(i).len() == s0.structure().parents(i).len());
                assert(self.structure().parents(i) == s0.structure().parents(i));
            }
        }
        let ghost s1 = *self;
        self.invalidate_all();
        assert forall|i: int| 0 <= i < self.graph.len() implies
            #[trigger] self.structure().evidence(i) == last_value(evidence@, i as usize) by {
            assert(s1.structure().evidence(i) == last_value(evidence@, i as usize));
        }
    }
}

} // verus!
