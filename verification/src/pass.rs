//! What a backward pass leaves behind.
//!
//! [`carried_by`] is what [`crate::Value::backprop`] promises of the
//! gradients at its end: they come from those at its start by the
//! contributions of the pass, one after the other, each computed by the
//! arithmetic that was handed in. The laws of this module say what follows,
//! first for any arithmetic, then for one that gives one answer to each step.
use vstd::prelude::*;
use crate::node::{Node, ONE, ZERO};
use crate::order::{reaches, sound_from};
use crate::plan::{backward, Push};
use crate::values::{factor_of, step_of, Factor, Step};

verus! {

/// The contribution `push` takes the gradients `before` to the gradients
/// `after`: only the gradient of its target changes, to something that
/// `accumulate` may give for the step.
pub open spec fn stepped<F: Fn(Step) -> u32>(
    push: Push,
    values: Seq<u32>,
    before: Seq<u32>,
    after: Seq<u32>,
    accumulate: F,
) -> bool {
    &&& step_of(push, values, before) matches Some(step) && call_ensures(
        accumulate,
        (step,),
        after[push.to as int],
    )
    &&& after == before.update(push.to as int, after[push.to as int])
}

/// `states` are the gradients before, between and after the contributions
/// of `plan`, carried out one after the other with the arithmetic
/// `accumulate`.
pub open spec fn traced<F: Fn(Step) -> u32>(
    plan: Seq<Push>,
    values: Seq<u32>,
    states: Seq<Seq<u32>>,
    accumulate: F,
) -> bool {
    &&& states.len() == plan.len() + 1
    &&& forall|i: int|
        0 <= i < plan.len() ==> stepped(
            #[trigger] plan[i],
            values,
            states[i],
            states[i + 1],
            accumulate,
        )
}

/// The contributions of `plan`, carried out one after the other with the
/// arithmetic `accumulate`, take the gradients `start` to the gradients `end`.
pub open spec fn carried_by<F: Fn(Step) -> u32>(
    plan: Seq<Push>,
    values: Seq<u32>,
    start: Seq<u32>,
    end: Seq<u32>,
    accumulate: F,
) -> bool {
    exists|states: Seq<Seq<u32>>|
        #![trigger traced(plan, values, states, accumulate)]
        traced(plan, values, states, accumulate) && states[0] == start && states[plan.len() as int]
            == end
}

/// The gradients with that of `root` set to `one`: the start of a pass.
pub open spec fn seeded(root: usize, grads: Seq<u32>, one: u32) -> Seq<u32> {
    if root < grads.len() {
        grads.update(root as int, one)
    } else {
        grads
    }
}

/// The gradients after those of the nodes reached from `root` were set to
/// `zero`.
pub open spec fn cleared(nodes: Seq<Node>, root: usize, grads: Seq<u32>, zero: u32) -> Seq<u32> {
    Seq::new(
        grads.len(),
        |i: int|
            if reaches(nodes, root, i as usize) {
                zero
            } else {
                grads[i]
            },
    )
}

/// Between two points of a pass no gradient changes but at the targets of
/// the contributions in between.
proof fn lemma_traced_elsewhere<F: Fn(Step) -> u32>(
    plan: Seq<Push>,
    values: Seq<u32>,
    states: Seq<Seq<u32>>,
    accumulate: F,
    i: int,
    j: int,
    n: int,
)
    requires
        traced(plan, values, states, accumulate),
        0 <= i <= j <= plan.len(),
        forall|k: int| i <= k < j ==> (#[trigger] plan[k]).to != n,
    ensures
        states[j].len() == states[i].len(),
        0 <= n < states[i].len() ==> states[j][n] == states[i][n],
    decreases j - i,
{
    if i < j {
        lemma_traced_elsewhere(plan, values, states, accumulate, i, j - 1, n);
        assert(stepped(plan[j - 1], values, states[j - 1], states[j], accumulate));
    }
}

/// Whatever the arithmetic, a node passes on a complete gradient: the one
/// that it has when one of its contributions is carried out is the one that
/// it has at the end of the pass.
pub proof fn lemma_passes_on_complete_gradients<F: Fn(Step) -> u32>(
    nodes: Seq<Node>,
    root: usize,
    values: Seq<u32>,
    states: Seq<Seq<u32>>,
    accumulate: F,
    i: int,
)
    requires
        sound_from(nodes, root),
        traced(backward(nodes, root), values, states, accumulate),
        0 <= i < backward(nodes, root).len(),
    ensures
        states[i][backward(nodes, root)[i].from as int] == states[backward(
            nodes,
            root,
        ).len() as int][backward(nodes, root)[i].from as int],
{
    let plan = backward(nodes, root);
    crate::plan::lemma_backward_gathers_first(nodes, root);
    assert forall|k: int| i <= k < plan.len() implies (#[trigger] plan[k]).to != plan[i].from by {
        if plan[k].to == plan[i].from {
            assert(k < i);
        }
    }
    lemma_traced_elsewhere(
        plan,
        values,
        states,
        accumulate,
        i,
        plan.len() as int,
        plan[i].from as int,
    );
    assert(stepped(plan[i], values, states[i], states[i + 1], accumulate));
}

/// Whatever the arithmetic, a backward pass changes no gradient but those
/// of the nodes reached from its root.
pub proof fn lemma_pass_keeps_the_rest<F: Fn(Step) -> u32>(
    nodes: Seq<Node>,
    root: usize,
    values: Seq<u32>,
    start: Seq<u32>,
    end: Seq<u32>,
    accumulate: F,
    n: usize,
)
    requires
        sound_from(nodes, root),
        carried_by(backward(nodes, root), values, start, end, accumulate),
        n < start.len(),
        !reaches(nodes, root, n),
    ensures
        end.len() == start.len(),
        end[n as int] == start[n as int],
{
    let plan = backward(nodes, root);
    let states = choose|states: Seq<Seq<u32>>|
        #![trigger traced(plan, values, states, accumulate)]
        traced(plan, values, states, accumulate) && states[0] == start && states[plan.len() as int]
            == end;
    crate::plan::lemma_backward_gathers_first(nodes, root);
    assert forall|k: int| 0 <= k < plan.len() implies (#[trigger] plan[k]).to != n by {
        assert(reaches(nodes, root, plan[k].to));
    }
    lemma_traced_elsewhere(plan, values, states, accumulate, 0, plan.len() as int, n as int);
}

/// Whatever the arithmetic, clearing the gradients under a root wipes out
/// every trace of a backward pass from it: what is left is what clearing
/// alone would have left.
pub proof fn lemma_clearing_forgets_pass<F: Fn(Step) -> u32>(
    nodes: Seq<Node>,
    root: usize,
    values: Seq<u32>,
    start: Seq<u32>,
    end: Seq<u32>,
    accumulate: F,
    zero: u32,
)
    requires
        sound_from(nodes, root),
        carried_by(backward(nodes, root), values, seeded(root, start, ONE), end, accumulate),
        start.len() == nodes.len() <= usize::MAX,
    ensures
        cleared(nodes, root, end, zero) == cleared(nodes, root, start, zero),
{
    assert forall|i: int| 0 <= i < start.len() implies cleared(nodes, root, end, zero)[i]
        == cleared(nodes, root, start, zero)[i] && end.len() == start.len() by {
        if !reaches(nodes, root, i as usize) {
            lemma_pass_keeps_the_rest(
                nodes,
                root,
                values,
                seeded(root, start, ONE),
                end,
                accumulate,
                i as usize,
            );
        } else {
            lemma_pass_keeps_the_length(nodes, root, values, seeded(root, start, ONE), end, accumulate);
        }
    }
    lemma_pass_keeps_the_length(nodes, root, values, seeded(root, start, ONE), end, accumulate);
    assert(cleared(nodes, root, end, zero) =~= cleared(nodes, root, start, zero));
}

/// A backward pass keeps the number of gradients.
proof fn lemma_pass_keeps_the_length<F: Fn(Step) -> u32>(
    nodes: Seq<Node>,
    root: usize,
    values: Seq<u32>,
    start: Seq<u32>,
    end: Seq<u32>,
    accumulate: F,
)
    requires
        carried_by(backward(nodes, root), values, start, end, accumulate),
    ensures
        end.len() == start.len(),
{
    let plan = backward(nodes, root);
    let states = choose|states: Seq<Seq<u32>>|
        #![trigger traced(plan, values, states, accumulate)]
        traced(plan, values, states, accumulate) && states[0] == start && states[plan.len() as int]
            == end;
    lemma_traced_elsewhere(plan, values, states, accumulate, 0, plan.len() as int, -1);
}

/// The arithmetic adds up: what it gives for a step is the sum, by `plus`,
/// of the target's gradient so far and of the source's gradient scaled, by
/// `scale`, with the factor.
pub open spec fn adds_up<F: Fn(Step) -> u32>(
    accumulate: F,
    plus: spec_fn(u32, u32) -> u32,
    scale: spec_fn(Factor, u32) -> u32,
) -> bool {
    forall|step: Step, sum: u32| #[trigger]
        call_ensures(accumulate, (step,), sum) ==> sum == plus(
            step.sum,
            scale(step.factor, step.gradient),
        )
}

/// The sum that node `m` gathers from the contributions of `plan` into it,
/// in their order, on top of `start`, where each source has the gradient
/// that `sources` gives it.
pub open spec fn gathered(
    plan: Seq<Push>,
    values: Seq<u32>,
    m: usize,
    start: u32,
    sources: Seq<u32>,
    plus: spec_fn(u32, u32) -> u32,
    scale: spec_fn(Factor, u32) -> u32,
) -> u32
    decreases plan.len(),
{
    if plan.len() == 0 {
        start
    } else {
        let so_far = gathered(plan.drop_last(), values, m, start, sources, plus, scale);
        let p = plan.last();
        match factor_of(p.slope, values) {
            Some(factor) if p.to == m => plus(so_far, scale(factor, sources[p.from as int])),
            _ => so_far,
        }
    }
}

/// The chain rule holds after each part of a pass that adds up.
proof fn lemma_gathered_so_far<F: Fn(Step) -> u32>(
    nodes: Seq<Node>,
    root: usize,
    values: Seq<u32>,
    states: Seq<Seq<u32>>,
    accumulate: F,
    plus: spec_fn(u32, u32) -> u32,
    scale: spec_fn(Factor, u32) -> u32,
    m: usize,
    i: int,
)
    requires
        sound_from(nodes, root),
        traced(backward(nodes, root), values, states, accumulate),
        adds_up(accumulate, plus, scale),
        m < states[0].len(),
        0 <= i <= backward(nodes, root).len(),
    ensures
        states[i].len() == states[0].len(),
        states[i][m as int] == gathered(
            backward(nodes, root).take(i),
            values,
            m,
            states[0][m as int],
            states[backward(nodes, root).len() as int],
            plus,
            scale,
        ),
    decreases i,
{
    let plan = backward(nodes, root);
    if i > 0 {
        let part = plan.take(i);
        lemma_gathered_so_far(nodes, root, values, states, accumulate, plus, scale, m, i - 1);
        lemma_passes_on_complete_gradients(nodes, root, values, states, accumulate, i - 1);
        assert(part.drop_last() =~= plan.take(i - 1));
        assert(part.last() == plan[i - 1]);
        assert(stepped(plan[i - 1], values, states[i - 1], states[i], accumulate));
    }
}

/// The gradients of a pass that adds up obey the equations of the chain
/// rule: at the end each node has what it had at the start, with the
/// contributions into it added in their order, each of them the final
/// gradient of its source scaled with its slope.
pub proof fn lemma_gradient_sums<F: Fn(Step) -> u32>(
    nodes: Seq<Node>,
    root: usize,
    values: Seq<u32>,
    start: Seq<u32>,
    end: Seq<u32>,
    accumulate: F,
    plus: spec_fn(u32, u32) -> u32,
    scale: spec_fn(Factor, u32) -> u32,
    m: usize,
)
    requires
        sound_from(nodes, root),
        carried_by(backward(nodes, root), values, start, end, accumulate),
        adds_up(accumulate, plus, scale),
        m < start.len(),
    ensures
        end[m as int] == gathered(
            backward(nodes, root),
            values,
            m,
            start[m as int],
            end,
            plus,
            scale,
        ),
{
    let plan = backward(nodes, root);
    let states = choose|states: Seq<Seq<u32>>|
        #![trigger traced(plan, values, states, accumulate)]
        traced(plan, values, states, accumulate) && states[0] == start && states[plan.len() as int]
            == end;
    lemma_gathered_so_far(
        nodes,
        root,
        values,
        states,
        accumulate,
        plus,
        scale,
        m,
        plan.len() as int,
    );
    assert(plan.take(plan.len() as int) =~= plan);
}

/// Where the arithmetic gives one answer to each step, the one that `kernel`
/// names, the gradients between the contributions of a plan are determined
/// by those at its start.
proof fn lemma_traced_by_one_kernel<F: Fn(Step) -> u32>(
    plan: Seq<Push>,
    values: Seq<u32>,
    one: Seq<Seq<u32>>,
    other: Seq<Seq<u32>>,
    accumulate: F,
    kernel: spec_fn(Step) -> u32,
    i: int,
)
    requires
        traced(plan, values, one, accumulate),
        traced(plan, values, other, accumulate),
        one[0] == other[0],
        forall|step: Step, sum: u32| #[trigger]
            call_ensures(accumulate, (step,), sum) ==> sum == kernel(step),
        0 <= i <= plan.len(),
    ensures
        one[i] == other[i],
    decreases i,
{
    if i > 0 {
        lemma_traced_by_one_kernel(plan, values, one, other, accumulate, kernel, i - 1);
        assert(stepped(plan[i - 1], values, one[i - 1], one[i], accumulate));
        assert(stepped(plan[i - 1], values, other[i - 1], other[i], accumulate));
    }
}

/// Where the arithmetic gives one answer to each step, a pass gives one
/// answer to each start: the same contributions on the same gradients leave
/// the same gradients.
pub proof fn lemma_one_kernel_one_result<F: Fn(Step) -> u32>(
    plan: Seq<Push>,
    values: Seq<u32>,
    start: Seq<u32>,
    one: Seq<u32>,
    other: Seq<u32>,
    accumulate: F,
    kernel: spec_fn(Step) -> u32,
)
    requires
        carried_by(plan, values, start, one, accumulate),
        carried_by(plan, values, start, other, accumulate),
        forall|step: Step, sum: u32| #[trigger]
            call_ensures(accumulate, (step,), sum) ==> sum == kernel(step),
    ensures
        one == other,
{
    let a = choose|states: Seq<Seq<u32>>|
        #![trigger traced(plan, values, states, accumulate)]
        traced(plan, values, states, accumulate) && states[0] == start && states[plan.len() as int]
            == one;
    let b = choose|states: Seq<Seq<u32>>|
        #![trigger traced(plan, values, states, accumulate)]
        traced(plan, values, states, accumulate) && states[0] == start && states[plan.len() as int]
            == other;
    lemma_traced_by_one_kernel(plan, values, a, b, accumulate, kernel, plan.len() as int);
}

/// A pass on fresh gradients, all of them zero, and a pass on what clearing
/// makes of its result leave the same gradients, where the arithmetic gives
/// one answer to each step: nothing of the earlier pass is added to the
/// later one.
pub proof fn lemma_cleared_pass_repeats<F: Fn(Step) -> u32>(
    nodes: Seq<Node>,
    root: usize,
    values: Seq<u32>,
    fresh: Seq<u32>,
    first: Seq<u32>,
    second: Seq<u32>,
    accumulate: F,
    kernel: spec_fn(Step) -> u32,
)
    requires
        sound_from(nodes, root),
        fresh.len() == nodes.len() <= usize::MAX,
        forall|i: int| 0 <= i < fresh.len() ==> fresh[i] == ZERO,
        forall|step: Step, sum: u32| #[trigger]
            call_ensures(accumulate, (step,), sum) ==> sum == kernel(step),
        carried_by(backward(nodes, root), values, seeded(root, fresh, ONE), first, accumulate),
        carried_by(
            backward(nodes, root),
            values,
            seeded(root, cleared(nodes, root, first, ZERO), ONE),
            second,
            accumulate,
        ),
    ensures
        second == first,
{
    lemma_clearing_forgets_pass(nodes, root, values, fresh, first, accumulate, ZERO);
    assert(cleared(nodes, root, fresh, ZERO) =~= fresh);
    lemma_one_kernel_one_result(
        backward(nodes, root),
        values,
        seeded(root, fresh, ONE),
        first,
        second,
        accumulate,
        kernel,
    );
}

} // verus!
