use vstd::prelude::*;
use crate::gradients::Gradients;
use crate::node::Node;
use crate::plan::{Push, Slope};
use crate::tape::{ordered, placed, Tape};

verus! {

/// The arithmetic that gives a node its forward value, with the forward
/// values of its operands filled in.
#[derive(Clone, Copy, Debug, PartialEq, Eq, Structural)]
pub enum Task {
    /// The sum of the two scalars.
    Add(u32, u32),
    /// The product of the two scalars.
    Mul(u32, u32),
    /// The first scalar raised to the second.
    Pow(u32, u32),
    /// The hyperbolic tangent of the scalar.
    Tanh(u32),
    /// The exponential of the scalar.
    Exp(u32),
}

/// A slope with the forward values filled in that it is made of.
#[derive(Clone, Copy, Debug, PartialEq, Eq, Structural)]
pub enum Factor {
    /// One.
    One,
    /// The scalar itself.
    Times(u32),
    /// `k * x^(k - 1)` for the scalars `x` and `k`, in this order.
    Power(u32, u32),
    /// `1 - y^2` for the scalar `y`.
    OneMinusSquare(u32),
}

/// One contribution of a backward pass, ready to be computed: the target's
/// new gradient is `sum + factor * gradient`.
#[derive(Clone, Copy, Debug, PartialEq, Eq, Structural)]
pub struct Step {
    /// The gradient of the target so far.
    pub sum: u32,
    /// The gradient of the source.
    pub gradient: u32,
    pub factor: Factor,
}

/// The forward value of each node of a tape, as a bit pattern, for as many
/// nodes from the start of the tape as have been settled. A value, once
/// there, stays.
#[derive(Debug)]
pub struct Values {
    bits: Vec<u32>,
}

impl View for Values {
    type V = Seq<u32>;

    closed spec fn view(&self) -> Seq<u32> {
        self.bits@
    }
}

/// The task that gives `node` its value, where it is computed from operands
/// that all have a value.
pub open spec fn task_of(node: Node, values: Seq<u32>) -> Option<Task> {
    match node {
        Node::Leaf(_) => None,
        Node::Add(a, b) => if a < values.len() && b < values.len() {
            Some(Task::Add(values[a as int], values[b as int]))
        } else {
            None
        },
        Node::Mul(a, b) => if a < values.len() && b < values.len() {
            Some(Task::Mul(values[a as int], values[b as int]))
        } else {
            None
        },
        Node::Pow(a, k) => if a < values.len() {
            Some(Task::Pow(values[a as int], k))
        } else {
            None
        },
        Node::Tanh(a) => if a < values.len() {
            Some(Task::Tanh(values[a as int]))
        } else {
            None
        },
        Node::Exp(a) => if a < values.len() {
            Some(Task::Exp(values[a as int]))
        } else {
            None
        },
    }
}

/// The values with those of the leaves added that come next on the tape: a
/// leaf has the scalar that it was recorded with.
pub open spec fn with_leaves(nodes: Seq<Node>, values: Seq<u32>) -> Seq<u32>
    decreases nodes.len() - values.len(),
{
    if values.len() < nodes.len() {
        match nodes[values.len() as int] {
            Node::Leaf(scalar) => with_leaves(nodes, values.push(scalar)),
            _ => values,
        }
    } else {
        values
    }
}

/// No node has a value that is not on the tape, and each leaf among those
/// that have one has the scalar that it was recorded with.
pub open spec fn leaves_hold(nodes: Seq<Node>, values: Seq<u32>) -> bool {
    &&& values.len() <= nodes.len()
    &&& forall|n: int|
        0 <= n < values.len() ==> (#[trigger] nodes[n] matches Node::Leaf(scalar) ==> values[n]
            == scalar)
}

/// Node `n` has the value that is due to it: a leaf the scalar that it was
/// recorded with, any other node what `compute` gives for its task, on the
/// values of its operands.
pub open spec fn valued_by<F: Fn(Task) -> u32>(
    nodes: Seq<Node>,
    values: Seq<u32>,
    n: int,
    compute: F,
) -> bool {
    match nodes[n] {
        Node::Leaf(scalar) => values[n] == scalar,
        node => task_of(node, values.take(n)) matches Some(task) && call_ensures(
            compute,
            (task,),
            values[n],
        ),
    }
}

/// The slope with the forward values filled in, where the nodes that it
/// speaks of have one.
pub open spec fn factor_of(slope: Slope, values: Seq<u32>) -> Option<Factor> {
    match slope {
        Slope::One => Some(Factor::One),
        Slope::ValueOf(n) => if n < values.len() {
            Some(Factor::Times(values[n as int]))
        } else {
            None
        },
        Slope::Power(n, k) => if n < values.len() {
            Some(Factor::Power(values[n as int], k))
        } else {
            None
        },
        Slope::OneMinusSquare(n) => if n < values.len() {
            Some(Factor::OneMinusSquare(values[n as int]))
        } else {
            None
        },
    }
}

/// The contribution `push` ready to be computed, where its nodes have a
/// gradient and the nodes of its slope a value.
pub open spec fn step_of(push: Push, values: Seq<u32>, grads: Seq<u32>) -> Option<Step> {
    if push.from < grads.len() && push.to < grads.len() {
        match factor_of(push.slope, values) {
            Some(factor) => Some(
                Step { sum: grads[push.to as int], gradient: grads[push.from as int], factor },
            ),
            None => None,
        }
    } else {
        None
    }
}

/// Adding the leaves that come next keeps the values that are there and
/// goes on to the first node that is no leaf, or to the end of the tape.
pub proof fn lemma_with_leaves(nodes: Seq<Node>, values: Seq<u32>)
    requires
        values.len() <= nodes.len(),
    ensures
        ({
            let after = with_leaves(nodes, values);
            &&& values.len() <= after.len() <= nodes.len()
            &&& after.take(values.len() as int) == values
            &&& forall|n: int|
                values.len() <= n < after.len() ==> #[trigger] nodes[n] == Node::Leaf(after[n])
            &&& after.len() < nodes.len() ==> !(nodes[after.len() as int] is Leaf)
        }),
    decreases nodes.len() - values.len(),
{
    let after = with_leaves(nodes, values);
    if values.len() < nodes.len() {
        match nodes[values.len() as int] {
            Node::Leaf(scalar) => {
                let more = values.push(scalar);
                lemma_with_leaves(nodes, more);
                assert(after.take(values.len() as int) =~= after.take(more.len() as int).take(
                    values.len() as int,
                ));
                assert(more.take(values.len() as int) =~= values);
                assert forall|n: int| values.len() <= n < after.len() implies #[trigger] nodes[n]
                    == Node::Leaf(after[n]) by {
                    if n == values.len() {
                        assert(after.take(more.len() as int)[n] == more[n]);
                    }
                }
            },
            _ => {
                assert(after.take(values.len() as int) =~= values);
            },
        }
    } else {
        assert(after.take(values.len() as int) =~= values);
    }
}

/// The value of a sum is what the arithmetic makes of the values of its
/// two operands, and so is the value of a product.
pub proof fn lemma_value_of_sum_and_product<F: Fn(Task) -> u32>(
    nodes: Seq<Node>,
    values: Seq<u32>,
    n: int,
    a: usize,
    b: usize,
    compute: F,
)
    requires
        0 <= n < values.len(),
        valued_by(nodes, values, n, compute),
    ensures
        nodes[n] == Node::Add(a, b) ==> a < n && b < n && call_ensures(
            compute,
            (Task::Add(values[a as int], values[b as int]),),
            values[n],
        ),
        nodes[n] == Node::Mul(a, b) ==> a < n && b < n && call_ensures(
            compute,
            (Task::Mul(values[a as int], values[b as int]),),
            values[n],
        ),
{
}

/// What a power passes on to its base is computed from the gradient of
/// the base so far, the gradient of the power, the value of the base and
/// the exponent, and from nothing else.
pub proof fn lemma_step_of_power(
    values: Seq<u32>,
    grads: Seq<u32>,
    n: usize,
    a: usize,
    k: u32,
)
    requires
        n < grads.len(),
        a < grads.len(),
        a < values.len(),
    ensures
        step_of(Push { from: n, to: a, slope: Slope::Power(a, k) }, values, grads) == Some(
            Step {
                sum: grads[a as int],
                gradient: grads[n as int],
                factor: Factor::Power(values[a as int], k),
            },
        ),
{
}

impl Values {
    /// No values yet.
    pub fn new() -> (v: Values)
        ensures
            v@ == Seq::<u32>::empty(),
    {
        Values { bits: Vec::new() }
    }

    /// The number of nodes that have a value.
    pub fn len(&self) -> (n: usize)
        ensures
            n == self@.len(),
    {
        self.bits.len()
    }

    /// The forward value of node `n`, if it has one.
    pub fn get(&self, n: usize) -> (r: Option<u32>)
        ensures
            r == if n < self@.len() {
                Some(self@[n as int])
            } else {
                None
            },
    {
        if n < self.bits.len() {
            Some(self.bits[n])
        } else {
            None
        }
    }

    /// Gives the leaves that come next on the tape their values and says
    /// what is to be computed for the node after them. There is nothing to
    /// compute at the end of the tape, and for a node that names an operand
    /// without a value: one that was not recorded before it.
    pub fn next(&mut self, tape: &Tape) -> (r: Option<Task>)
        ensures
            final(self)@ == with_leaves(tape@, old(self)@),
            r == if final(self)@.len() < tape@.len() {
                task_of(tape@[final(self)@.len() as int], final(self)@)
            } else {
                None
            },
            leaves_hold(tape@, old(self)@) ==> leaves_hold(tape@, final(self)@),
    {
        while self.bits.len() < tape.len()
            invariant
                with_leaves(tape@, self.bits@) == with_leaves(tape@, old(self)@),
                leaves_hold(tape@, old(self)@) ==> leaves_hold(tape@, self.bits@),
            decreases tape@.len() - self.bits@.len(),
        {
            match tape.node(self.bits.len()) {
                Node::Leaf(scalar) => {
                    self.bits.push(scalar);
                },
                Node::Add(a, b) => {
                    return if a < self.bits.len() && b < self.bits.len() {
                        Some(Task::Add(self.bits[a], self.bits[b]))
                    } else {
                        None
                    };
                },
                Node::Mul(a, b) => {
                    return if a < self.bits.len() && b < self.bits.len() {
                        Some(Task::Mul(self.bits[a], self.bits[b]))
                    } else {
                        None
                    };
                },
                Node::Pow(a, k) => {
                    return if a < self.bits.len() {
                        Some(Task::Pow(self.bits[a], k))
                    } else {
                        None
                    };
                },
                Node::Tanh(a) => {
                    return if a < self.bits.len() {
                        Some(Task::Tanh(self.bits[a]))
                    } else {
                        None
                    };
                },
                Node::Exp(a) => {
                    return if a < self.bits.len() {
                        Some(Task::Exp(self.bits[a]))
                    } else {
                        None
                    };
                },
            }
        }
        None
    }

    /// Takes `value` as the forward value of the first node that has none,
    /// and says whether it did. It does where that node is computed from
    /// operands that all have a value: where [`Values::next`], called now,
    /// would ask for it.
    pub fn supply(&mut self, tape: &Tape, value: u32) -> (done: bool)
        ensures
            done == (old(self)@.len() < tape@.len() && task_of(
                tape@[old(self)@.len() as int],
                old(self)@,
            ) is Some),
            final(self)@ == if done {
                old(self)@.push(value)
            } else {
                old(self)@
            },
            leaves_hold(tape@, old(self)@) ==> leaves_hold(tape@, final(self)@),
    {
        let n = self.bits.len();
        let asked = match tape.get(n) {
            None => false,
            Some(Node::Leaf(_)) => false,
            Some(Node::Add(a, b)) => a < n && b < n,
            Some(Node::Mul(a, b)) => a < n && b < n,
            Some(Node::Pow(a, _)) => a < n,
            Some(Node::Tanh(a)) => a < n,
            Some(Node::Exp(a)) => a < n,
        };
        if asked {
            self.bits.push(value);
        }
        asked
    }

    /// Gives every node without a value its value, in the order of the
    /// tape, as far as it gets: a leaf has the scalar that it was recorded
    /// with, any other node what `compute` makes of its task. It stops at
    /// the end of the tape, or before a node that names an operand without a
    /// value: one that was not recorded before it. On a tape whose every
    /// node names only nodes recorded before it, every node gets a value.
    pub fn settle<F: Fn(Task) -> u32>(&mut self, tape: &Tape, compute: F)
        requires
            forall|task: Task| call_requires(compute, (task,)),
        ensures
            old(self)@.len() <= final(self)@.len(),
            final(self)@.len() <= tape@.len() || final(self)@ == old(self)@,
            final(self)@.take(old(self)@.len() as int) == old(self)@,
            forall|n: int|
                old(self)@.len() <= n < final(self)@.len() ==> #[trigger] valued_by(
                    tape@,
                    final(self)@,
                    n,
                    compute,
                ),
            final(self)@.len() < tape@.len() ==> !placed(tape@, final(self)@.len() as usize),
            ordered(tape@) && old(self)@.len() <= tape@.len() ==> final(self)@.len() == tape@.len(),
    {
        loop
            invariant
                old(self)@.len() <= self.bits@.len(),
                self.bits@.len() <= tape@.len() || self.bits@ == old(self)@,
                self.bits@.take(old(self)@.len() as int) == old(self)@,
                forall|task: Task| call_requires(compute, (task,)),
                forall|n: int|
                    old(self)@.len() <= n < self.bits@.len() ==> #[trigger] valued_by(
                        tape@,
                        self.bits@,
                        n,
                        compute,
                    ),
            ensures
                self.bits@.len() < tape@.len() ==> !placed(tape@, self.bits@.len() as usize),
            decreases tape@.len() - self.bits@.len(),
        {
            let ghost before = self.bits@;
            let asked = self.next(tape);
            let ghost leaved = self.bits@;
            proof {
                if before.len() <= tape@.len() {
                    lemma_with_leaves(tape@, before);
                }
                assert(leaved.take(old(self)@.len() as int) =~= leaved.take(
                    before.len() as int,
                ).take(old(self)@.len() as int));
                assert forall|m: int| old(self)@.len() <= m < leaved.len() implies #[trigger] valued_by(
                    tape@,
                    leaved,
                    m,
                    compute,
                ) by {
                    if m < before.len() {
                        assert(leaved.take(m) =~= before.take(m));
                        assert(leaved[m] == leaved.take(before.len() as int)[m]);
                        assert(valued_by(tape@, before, m, compute));
                    } else {
                        assert(tape@[m] == Node::Leaf(leaved[m]));
                    }
                }
            }
            let task = match asked {
                Some(task) => task,
                None => {
                    break ;
                },
            };
            let value = compute(task);
            self.bits.push(value);
            proof {
                let n = leaved.len() as int;
                assert(self.bits@.take(n) =~= leaved);
                assert(self.bits@.take(old(self)@.len() as int) =~= leaved.take(
                    old(self)@.len() as int,
                ));
                assert forall|m: int| old(self)@.len() <= m < self.bits@.len() implies #[trigger] valued_by(
                    tape@,
                    self.bits@,
                    m,
                    compute,
                ) by {
                    if m < n {
                        assert(self.bits@.take(m) =~= leaved.take(m));
                        assert(valued_by(tape@, leaved, m, compute));
                    }
                }
            }
        }
    }

    /// The contribution `push` ready to be computed, from the forward
    /// values and the gradients as they are now.
    pub fn step(&self, push: &Push, grads: &Gradients) -> (r: Option<Step>)
        ensures
            r == step_of(*push, self@, grads@),
    {
        let factor = match push.slope {
            Slope::One => Some(Factor::One),
            Slope::ValueOf(n) => match self.get(n) {
                Some(x) => Some(Factor::Times(x)),
                None => None,
            },
            Slope::Power(n, k) => match self.get(n) {
                Some(x) => Some(Factor::Power(x, k)),
                None => None,
            },
            Slope::OneMinusSquare(n) => match self.get(n) {
                Some(y) => Some(Factor::OneMinusSquare(y)),
                None => None,
            },
        };
        match (grads.get(push.to), grads.get(push.from), factor) {
            (Some(sum), Some(gradient), Some(factor)) => Some(Step { sum, gradient, factor }),
            _ => None,
        }
    }
}

} // verus!
