use vstd::prelude::*;
use crate::error::StructuralError;
use crate::node::Node;
use crate::order::{later, reaches, refusal, sound_from, sweep, sweep_order};
use crate::tape::Tape;

verus! {

/// The local derivative of a node with respect to one of its operands, as a
/// formula over forward values. The library names the formula; it does not
/// evaluate it.
#[derive(Clone, Copy, Debug, PartialEq, Eq, Structural)]
pub enum Slope {
    /// One: the gradient passes on unchanged.
    One,
    /// The forward value of the node at this position.
    ValueOf(usize),
    /// `k * x^(k - 1)`, where `x` is the forward value of the node at the
    /// given position and `k` the constant with the given bit pattern.
    Power(usize, u32),
    /// `1 - y^2`, where `y` is the forward value of the node at this position.
    OneMinusSquare(usize),
}

impl Slope {
    /// The node whose forward value the slope is made of, if there is one.
    pub open spec fn reads(self) -> Option<usize> {
        match self {
            Slope::One => None,
            Slope::ValueOf(n) => Some(n),
            Slope::Power(n, _) => Some(n),
            Slope::OneMinusSquare(n) => Some(n),
        }
    }
}

/// One contribution of a backward pass: the gradient of node `to` grows by
/// `slope` times the gradient of node `from`.
#[derive(Clone, Copy, Debug, PartialEq, Eq, Structural)]
pub struct Push {
    pub from: usize,
    pub to: usize,
    pub slope: Slope,
}

/// The contributions that node `n` makes to its operands, in order.
pub open spec fn rule(nodes: Seq<Node>, n: usize) -> Seq<Push> {
    if n >= nodes.len() {
        Seq::empty()
    } else {
        match nodes[n as int] {
            Node::Leaf(_) => Seq::empty(),
            Node::Add(a, b) => seq![
                Push { from: n, to: a, slope: Slope::One },
                Push { from: n, to: b, slope: Slope::One },
            ],
            Node::Mul(a, b) => seq![
                Push { from: n, to: a, slope: Slope::ValueOf(b) },
                Push { from: n, to: b, slope: Slope::ValueOf(a) },
            ],
            Node::Pow(a, k) => seq![Push { from: n, to: a, slope: Slope::Power(a, k) }],
            Node::Tanh(a) => seq![Push { from: n, to: a, slope: Slope::OneMinusSquare(n) }],
            Node::Exp(a) => seq![Push { from: n, to: a, slope: Slope::ValueOf(n) }],
        }
    }
}

/// The contributions of the nodes of `order`, node after node.
pub open spec fn pushes(nodes: Seq<Node>, order: Seq<usize>) -> Seq<Push>
    decreases order.len(),
{
    if order.len() == 0 {
        Seq::empty()
    } else {
        pushes(nodes, order.drop_last()) + rule(nodes, order.last())
    }
}

/// The contributions of a backward pass from `root`, in the order in which
/// they are to be carried out.
pub open spec fn backward(nodes: Seq<Node>, root: usize) -> Seq<Push> {
    pushes(nodes, sweep(nodes, root))
}

/// Every contribution into a node stands before every contribution out of
/// it: a gradient is complete before it is passed on.
pub open spec fn gathers_first(plan: Seq<Push>) -> bool {
    forall|i: int, j: int|
        0 <= i < plan.len() && 0 <= j < plan.len() && (#[trigger] plan[i]).to == (
        #[trigger] plan[j]).from ==> i < j
}

/// Every contribution runs from a node reached from `root` to one of its
/// operands, with a slope made of the forward value of a node reached from
/// `root`.
pub open spec fn stays_under(nodes: Seq<Node>, root: usize, plan: Seq<Push>) -> bool {
    forall|i: int|
        0 <= i < plan.len() ==> {
            &&& reaches(nodes, root, (#[trigger] plan[i]).from)
            &&& plan[i].from < nodes.len()
            &&& nodes[plan[i].from as int].uses(plan[i].to)
            &&& reaches(nodes, root, plan[i].to)
            &&& plan[i].slope.reads() matches Some(x) ==> reaches(nodes, root, x)
        }
}

/// The contributions that node `n` makes to its operands.
pub fn local_rule(tape: &Tape, n: usize) -> (r: Vec<Push>)
    ensures
        r@ == rule(tape@, n),
{
    let mut r: Vec<Push> = Vec::new();
    match tape.get(n) {
        None => {},
        Some(Node::Leaf(_)) => {},
        Some(Node::Add(a, b)) => {
            r.push(Push { from: n, to: a, slope: Slope::One });
            r.push(Push { from: n, to: b, slope: Slope::One });
        },
        Some(Node::Mul(a, b)) => {
            r.push(Push { from: n, to: a, slope: Slope::ValueOf(b) });
            r.push(Push { from: n, to: b, slope: Slope::ValueOf(a) });
        },
        Some(Node::Pow(a, k)) => {
            r.push(Push { from: n, to: a, slope: Slope::Power(a, k) });
        },
        Some(Node::Tanh(a)) => {
            r.push(Push { from: n, to: a, slope: Slope::OneMinusSquare(n) });
        },
        Some(Node::Exp(a)) => {
            r.push(Push { from: n, to: a, slope: Slope::ValueOf(n) });
        },
    }
    assert(r@ =~= rule(tape@, n));
    r
}

/// The contributions of the nodes of `order`, node after node.
pub fn collect(tape: &Tape, order: &Vec<usize>) -> (plan: Vec<Push>)
    ensures
        plan@ == pushes(tape@, order@),
{
    let mut plan: Vec<Push> = Vec::new();
    let mut i: usize = 0;
    while i < order.len()
        invariant
            i <= order@.len(),
            plan@ == pushes(tape@, order@.take(i as int)),
        decreases order@.len() - i,
    {
        let mut part = local_rule(tape, order[i]);
        proof {
            let next = order@.take(i + 1);
            assert(next.drop_last() =~= order@.take(i as int));
            assert(next.last() == order@[i as int]);
        }
        plan.append(&mut part);
        i += 1;
    }
    assert(order@.take(i as int) =~= order@);
    plan
}

/// Every contribution comes from a node of `order`, goes to one of its
/// operands, and stands no earlier than those of the nodes before it.
proof fn lemma_pushes_follow(nodes: Seq<Node>, order: Seq<usize>)
    requires
        order.no_duplicates(),
    ensures
        forall|i: int|
            0 <= i < pushes(nodes, order).len() ==> {
                let p = #[trigger] pushes(nodes, order)[i];
                &&& order.contains(p.from)
                &&& p.from < nodes.len()
                &&& nodes[p.from as int].uses(p.to)
                &&& p.slope.reads() matches Some(x) ==> x == p.from || nodes[p.from as int].uses(x)
            },
        forall|i: int, j: int|
            0 <= i <= j < pushes(nodes, order).len() ==> order.index_of(
                (#[trigger] pushes(nodes, order)[i]).from,
            ) <= order.index_of((#[trigger] pushes(nodes, order)[j]).from),
    decreases order.len(),
{
    if order.len() > 0 {
        let head = order.drop_last();
        let x = order.last();
        let before = pushes(nodes, head);
        let plan = pushes(nodes, order);
        lemma_pushes_follow(nodes, head);
        assert(plan == before + rule(nodes, x));
        assert(order[order.len() - 1] == x);
        assert(order.index_of(x) == order.len() - 1);
        assert forall|i: int| 0 <= i < plan.len() implies ({
            let p = #[trigger] plan[i];
            &&& order.contains(p.from)
            &&& p.from < nodes.len()
            &&& nodes[p.from as int].uses(p.to)
            &&& (p.slope.reads() matches Some(x) ==> x == p.from || nodes[p.from as int].uses(x))
            &&& (i < before.len() ==> order.index_of(p.from) == head.index_of(p.from))
            &&& (i >= before.len() ==> order.index_of(p.from) == order.len() - 1)
        }) by {
            let p = plan[i];
            if i < before.len() {
                assert(p == before[i]);
                let k = head.index_of(p.from);
                assert(head.contains(p.from));
                assert(order[k] == p.from);
            } else {
                assert(p == rule(nodes, x)[i - before.len()]);
                assert(p.from == x);
            }
        }
        assert forall|i: int, j: int| 0 <= i <= j < plan.len() implies order.index_of(
            (#[trigger] plan[i]).from,
        ) <= order.index_of((#[trigger] plan[j]).from) by {
            if j < before.len() {
                assert(plan[i] == before[i]);
                assert(plan[j] == before[j]);
            } else if i < before.len() {
                assert(head.contains(plan[i].from));
            }
        }
    }
}

/// The contributions of a backward pass stay under the root, and those into
/// a node stand before those out of it.
pub proof fn lemma_backward_gathers_first(nodes: Seq<Node>, root: usize)
    requires
        sound_from(nodes, root),
    ensures
        stays_under(nodes, root, backward(nodes, root)),
        gathers_first(backward(nodes, root)),
{
    let order = sweep(nodes, root);
    let plan = backward(nodes, root);
    crate::order::lemma_sweep_consumers_first(nodes, root);
    lemma_pushes_follow(nodes, order);
    assert forall|i: int| 0 <= i < plan.len() implies ({
        &&& reaches(nodes, root, (#[trigger] plan[i]).from)
        &&& plan[i].from < nodes.len()
        &&& nodes[plan[i].from as int].uses(plan[i].to)
        &&& reaches(nodes, root, plan[i].to)
        &&& plan[i].slope.reads() matches Some(x) ==> reaches(nodes, root, x)
    }) by {
        let p = plan[i];
        let k = order.index_of(p.from);
        assert(order.contains(p.from));
        assert(order[k] == p.from);
        assert(later(order, k, p.to));
        let j = choose|j: int| k < j < order.len() && order[j] == p.to;
        assert(order.contains(p.to));
        assert(crate::tape::placed(nodes, order[k]));
        match p.slope.reads() {
            Some(x) => {
                if x != p.from {
                    crate::order::lemma_reaches_operand(nodes, root, p.from, x);
                }
            },
            None => {},
        }
    }
    assert forall|i: int, j: int|
        0 <= i < plan.len() && 0 <= j < plan.len() && (#[trigger] plan[i]).to == (
        #[trigger] plan[j]).from implies i < j by {
        let p = plan[i];
        let k = order.index_of(p.from);
        assert(order.contains(p.from));
        assert(order[k] == p.from);
        assert(later(order, k, p.to));
        let l = choose|l: int| k < l < order.len() && order[l] == p.to;
        assert(order.index_of(p.to) == l);
    }
}

/// The contributions of `plan` that node `n` makes, in their order.
pub open spec fn out_of(plan: Seq<Push>, n: usize) -> Seq<Push> {
    plan.filter(|p: Push| p.from == n)
}

/// Among contributions that all come from node `x`, those of node `n` are
/// all of them or none.
proof fn lemma_out_of_one(part: Seq<Push>, x: usize, n: usize)
    requires
        forall|i: int| 0 <= i < part.len() ==> (#[trigger] part[i]).from == x,
    ensures
        out_of(part, n) == if x == n {
            part
        } else {
            Seq::empty()
        },
    decreases part.len(),
{
    reveal(Seq::filter);
    if part.len() > 0 {
        let head = part.drop_last();
        assert forall|i: int| 0 <= i < head.len() implies (#[trigger] head[i]).from == x by {
            assert(head[i] == part[i]);
        }
        lemma_out_of_one(head, x, n);
        assert(part[part.len() - 1].from == x);
        if x == n {
            assert(head.push(part.last()) =~= part);
        }
    }
}

/// The contributions of the nodes of `order` that node `n` makes are its
/// rule, where it is one of them, and none, where it is not.
proof fn lemma_pushes_out_of(nodes: Seq<Node>, order: Seq<usize>, n: usize)
    requires
        order.no_duplicates(),
    ensures
        out_of(pushes(nodes, order), n) == if order.contains(n) {
            rule(nodes, n)
        } else {
            Seq::empty()
        },
    decreases order.len(),
{
    if order.len() == 0 {
        reveal(Seq::filter);
    } else {
        let head = order.drop_last();
        let x = order.last();
        lemma_pushes_out_of(nodes, head, n);
        lemma_out_of_one(rule(nodes, x), x, n);
        Seq::filter_distributes_over_add(pushes(nodes, head), rule(nodes, x), |p: Push| p.from == n);
        assert(order[order.len() - 1] == x);
        if head.contains(n) {
            let i = choose|i: int| 0 <= i < head.len() && head[i] == n;
            assert(order[i] == n);
            assert(x != n);
            assert(pushes(nodes, head) + Seq::<Push>::empty() =~= pushes(nodes, head));
        } else if x == n {
            assert(Seq::<Push>::empty() + rule(nodes, x) =~= rule(nodes, x));
        } else {
            if order.contains(n) {
                let i = choose|i: int| 0 <= i < order.len() && order[i] == n;
                assert(head[i] == n);
            }
            assert(Seq::<Push>::empty() + Seq::<Push>::empty() =~= Seq::<Push>::empty());
        }
    }
}

/// In a backward pass every node reached from the root applies its rule
/// once, and no other node does: the contributions that a node makes are
/// those of its rule, in one piece of the pass.
pub proof fn lemma_each_rule_once(nodes: Seq<Node>, root: usize, n: usize)
    requires
        sound_from(nodes, root),
    ensures
        out_of(backward(nodes, root), n) == if reaches(nodes, root, n) {
            rule(nodes, n)
        } else {
            Seq::empty()
        },
{
    crate::order::lemma_sweep_consumers_first(nodes, root);
    lemma_pushes_out_of(nodes, sweep(nodes, root), n);
}

/// A power passes its gradient on to its base and to nothing else, with
/// the slope of the power at the base: its exponent is a constant, no node,
/// and has no gradient.
pub proof fn lemma_power_feeds_its_base(nodes: Seq<Node>, root: usize, n: usize, a: usize, k: u32)
    requires
        sound_from(nodes, root),
        reaches(nodes, root, n),
        nodes[n as int] == Node::Pow(a, k),
    ensures
        out_of(backward(nodes, root), n) == seq![
            Push { from: n, to: a, slope: Slope::Power(a, k) },
        ],
{
    lemma_each_rule_once(nodes, root, n);
    assert(crate::tape::placed(nodes, n));
}

/// The rules of nodes that two tapes share are the same on both.
proof fn lemma_pushes_read_below(nodes: Seq<Node>, longer: Seq<Node>, order: Seq<usize>)
    requires
        nodes.len() <= longer.len(),
        forall|i: int| 0 <= i < nodes.len() ==> nodes[i] == longer[i],
        forall|i: int| 0 <= i < order.len() ==> order[i] < nodes.len(),
    ensures
        pushes(nodes, order) == pushes(longer, order),
    decreases order.len(),
{
    if order.len() > 0 {
        let head = order.drop_last();
        assert forall|i: int| 0 <= i < head.len() implies head[i] < nodes.len() by {
            assert(head[i] == order[i]);
        }
        lemma_pushes_read_below(nodes, longer, head);
        assert(order[order.len() - 1] < nodes.len());
        assert(rule(nodes, order.last()) =~= rule(longer, order.last()));
    }
}

/// What is recorded later does not touch the backward pass from a node
/// recorded before: it is refused or not as before, and it is the same pass.
pub proof fn lemma_growth_keeps_pass(nodes: Seq<Node>, longer: Seq<Node>, root: usize)
    requires
        root < nodes.len() <= longer.len(),
        forall|i: int| 0 <= i < nodes.len() ==> nodes[i] == longer[i],
    ensures
        sound_from(longer, root) == sound_from(nodes, root),
        sweep(longer, root) == sweep(nodes, root),
        sound_from(nodes, root) ==> backward(longer, root) == backward(nodes, root),
{
    let none = Set::<usize>::empty();
    crate::postorder::lemma_post_reads_below(nodes, longer, root, none);
    crate::postorder::lemma_clean_is_sound(nodes, root, none);
    crate::postorder::lemma_clean_is_sound(longer, root, none);
    if sound_from(nodes, root) {
        crate::order::lemma_sweep_consumers_first(nodes, root);
        let order = sweep(nodes, root);
        assert forall|i: int| 0 <= i < order.len() implies order[i] < nodes.len() by {
            assert(crate::tape::placed(nodes, order[i]));
        }
        lemma_pushes_read_below(nodes, longer, order);
    }
}

/// The contributions of a backward pass from `root`, in the order in which
/// they are to be carried out: node after node, the root first, every node
/// only after all nodes that use it.
pub fn backward_plan(tape: &Tape, root: usize) -> (r: Result<Vec<Push>, StructuralError>)
    ensures
        match r {
            Ok(plan) => {
                &&& refusal(tape@, root) is None
                &&& plan@ == backward(tape@, root)
                &&& stays_under(tape@, root, plan@)
                &&& gathers_first(plan@)
            },
            Err(e) => refusal(tape@, root) == Some(e),
        },
{
    match sweep_order(tape, root) {
        Ok(order) => {
            let plan = collect(tape, &order);
            proof {
                lemma_backward_gathers_first(tape@, root);
            }
            Ok(plan)
        },
        Err(e) => Err(e),
    }
}

} // verus!
