use vstd::prelude::*;

verus! {

/// Names one axis of a conditional table: the node's own values, or the
/// values of the parent at the given position of the parent list.
#[derive(PartialEq, Eq, Structural, Clone, Copy, Debug)]
pub enum AxisLabel {
    Own,
    Parent(usize),
}

/// The log-vector that a contraction adds along its axis before reducing it.
#[derive(PartialEq, Eq, Structural, Clone, Copy, Debug)]
pub enum Operand {
    /// The incoming message of the parent at this position of the parent list.
    ParentMessage(usize),
    /// The node's own aggregated evidence.
    OwnLambda,
}

/// One log-contraction: add `operand` along axis `axis`, then reduce that axis
/// by log-sum-exp, which removes it from the table.
#[derive(PartialEq, Eq, Structural, Clone, Copy, Debug)]
pub struct Contraction {
    pub operand: Operand,
    pub axis: usize,
}

/// The axes of the conditional table of a node with `n_parents` parents:
/// axis 0 is the node's own, axis `k + 1` that of parent `k`.
pub open spec fn table_axes(n_parents: nat) -> Seq<AxisLabel> {
    Seq::new(
        n_parents + 1,
        |i: int|
            if i == 0 {
                AxisLabel::Own
            } else {
                AxisLabel::Parent((i - 1) as usize)
            },
    )
}

/// The axis that an operand belongs on.
pub open spec fn label_of(op: Operand) -> AxisLabel {
    match op {
        Operand::ParentMessage(k) => AxisLabel::Parent(k),
        Operand::OwnLambda => AxisLabel::Own,
    }
}

/// The axes left after one contraction, or `None` where the axis does not
/// exist or carries another variable than the operand.
pub open spec fn apply_step(axes: Seq<AxisLabel>, c: Contraction) -> Option<Seq<AxisLabel>> {
    if c.axis < axes.len() && axes[c.axis as int] == label_of(c.operand) {
        Some(axes.remove(c.axis as int))
    } else {
        None
    }
}

/// The axes left after a sequence of contractions, or `None` where one of
/// them is ill-placed.
pub open spec fn run_plan(axes: Seq<AxisLabel>, plan: Seq<Contraction>) -> Option<
    Seq<AxisLabel>,
>
    decreases plan.len(),
{
    if plan.len() == 0 {
        Some(axes)
    } else {
        match apply_step(axes, plan[0]) {
            Some(next) => run_plan(next, plan.drop_first()),
            None => None,
        }
    }
}

/// Contracting parents `hi - 1` down to `lo`, each on its own (last remaining) axis.
pub open spec fn descending(hi: nat, lo: nat) -> Seq<Contraction> {
    Seq::new(
        (hi - lo) as nat,
        |i: int|
            Contraction {
                operand: Operand::ParentMessage((hi - 1 - i) as usize),
                axis: (hi - i) as usize,
            },
    )
}

proof fn lemma_run_concat(axes: Seq<AxisLabel>, p1: Seq<Contraction>, p2: Seq<Contraction>)
    ensures
        run_plan(axes, p1 + p2) == match run_plan(axes, p1) {
            Some(mid) => run_plan(mid, p2),
            None => None,
        },
    decreases p1.len(),
{
    if p1.len() > 0 {
        assert((p1 + p2).drop_first() =~= p1.drop_first() + p2);
        assert((p1 + p2)[0] == p1[0]);
        if let Some(next) = apply_step(axes, p1[0]) {
            lemma_run_concat(next, p1.drop_first(), p2);
        }
    } else {
        assert(p1 + p2 =~= p2);
    }
}

proof fn lemma_descending(hi: nat, lo: nat, tail: Seq<AxisLabel>)
    requires
        lo <= hi,
        hi < usize::MAX,
    ensures
        run_plan(table_axes(hi) + tail, descending(hi, lo)) == Some(table_axes(lo) + tail),
    decreases hi - lo,
{
    let plan = descending(hi, lo);
    if hi > lo {
        let axes = table_axes(hi) + tail;
        assert(plan[0] == Contraction {
            operand: Operand::ParentMessage((hi - 1) as usize),
            axis: hi as usize,
        });
        assert(axes[hi as int] == AxisLabel::Parent((hi - 1) as usize));
        assert(axes.remove(hi as int) =~= table_axes((hi - 1) as nat) + tail);
        assert(plan.drop_first() =~= descending((hi - 1) as nat, lo));
        lemma_descending((hi - 1) as nat, lo, tail);
    } else {
        assert(plan =~= Seq::<Contraction>::empty());
    }
}

/// The contractions that turn a node's conditional table into its prior
/// belief: every parent's message, from the last parent to the first, each on
/// the last remaining axis, so that only the node's own axis is left.
pub fn pi_plan(n_parents: usize) -> (plan: Vec<Contraction>)
    requires
        n_parents < usize::MAX,
    ensures
        plan@ == descending(n_parents as nat, 0),
        run_plan(table_axes(n_parents as nat), plan@) == Some(seq![AxisLabel::Own]),
{
    let mut plan: Vec<Contraction> = Vec::new();
    let mut k: usize = n_parents;
    while k > 0
        invariant
            k <= n_parents,
            plan@ == descending(n_parents as nat, k as nat),
        decreases k,
    {
        k = k - 1;
        plan.push(Contraction { operand: Operand::ParentMessage(k), axis: k + 1 });
        assert(plan@ =~= descending(n_parents as nat, k as nat));
    }
    proof {
        let empty = Seq::<AxisLabel>::empty();
        lemma_descending(n_parents as nat, 0, empty);
        assert(table_axes(n_parents as nat) + empty =~= table_axes(n_parents as nat));
        assert(table_axes(0) + empty =~= seq![AxisLabel::Own]);
    }
    plan
}

/// The contractions that give a node's message to its parent at position
/// `target`: every other parent's message, from the last parent to the first,
/// each removing that parent's own axis, then the node's own evidence on axis
/// 0, so that only the axis of parent `target` is left.
pub fn lambda_plan(n_parents: usize, target: usize) -> (plan: Vec<Contraction>)
    requires
        target < n_parents,
        n_parents < usize::MAX,
    ensures
        plan@ == descending(n_parents as nat, (target + 1) as nat) + descending(target as nat, 0) + seq![
            Contraction { operand: Operand::OwnLambda, axis: 0 },
        ],
        run_plan(table_axes(n_parents as nat), plan@) == Some(seq![AxisLabel::Parent(target)]),
{
    let mut plan: Vec<Contraction> = Vec::new();
    let mut k: usize = n_parents;
    while k > target + 1
        invariant
            target + 1 <= k <= n_parents,
            plan@ == descending(n_parents as nat, k as nat),
        decreases k,
    {
        k = k - 1;
        plan.push(Contraction { operand: Operand::ParentMessage(k), axis: k + 1 });
        assert(plan@ =~= descending(n_parents as nat, k as nat));
    }
    let ghost upper = plan@;
    k = target;
    while k > 0
        invariant
            k <= target < n_parents < usize::MAX,
            upper == descending(n_parents as nat, (target + 1) as nat),
            plan@ == upper + descending(target as nat, k as nat),
        decreases k,
    {
        k = k - 1;
        plan.push(Contraction { operand: Operand::ParentMessage(k), axis: k + 1 });
        assert(plan@ =~= upper + descending(target as nat, k as nat));
    }
    let ghost middle = plan@;
    plan.push(Contraction { operand: Operand::OwnLambda, axis: 0 });
    proof {
        let n = n_parents as nat;
        let j = target as nat;
        let last = seq![Contraction { operand: Operand::OwnLambda, axis: 0 }];
        let lower = descending(j, 0);
        let empty = Seq::<AxisLabel>::empty();
        let pj = seq![AxisLabel::Parent(target)];
        assert(plan@ =~= upper + lower + last);
        lemma_run_concat(table_axes(n), upper + lower, last);
        lemma_run_concat(table_axes(n), upper, lower);
        lemma_descending(n, j + 1, empty);
        assert(table_axes(n) + empty =~= table_axes(n));
        assert(table_axes(j + 1) + empty =~= table_axes(j) + pj);
        lemma_descending(j, 0, pj);
        let two = table_axes(0) + pj;
        assert(two =~= seq![AxisLabel::Own, AxisLabel::Parent(target)]);
        assert(two.remove(0) =~= pj);
        assert(last.drop_first() =~= Seq::<Contraction>::empty());
        assert(two[0] == AxisLabel::Own);
        assert(apply_step(two, last[0]) == Some(pj));
        assert(run_plan(pj, last.drop_first()) == Some(pj));
        assert(run_plan(two, last) == Some(pj));
        assert(run_plan(table_axes(n), upper) == Some(table_axes(j + 1)));
        assert(run_plan(table_axes(n), upper + lower) == Some(two));
    }
    plan
}

} // verus!
