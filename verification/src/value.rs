use vstd::prelude::*;
use crate::error::StructuralError;
use crate::gradients::{grown, Gradients};
use crate::node::{Node, NEG_ONE, ONE};
use crate::order::{consumers_first, lemma_reaches_below, refusal, sweep, sweep_order};
use crate::pass::{carried_by, seeded, stepped, traced};
use crate::plan::{backward, backward_plan, gathers_first, stays_under, Push};
use crate::tape::{ordered, Tape};
use crate::values::{Step, Values};

verus! {

/// A handle to one node of a tape.
#[derive(Clone, Copy, Debug, PartialEq, Eq, Structural)]
pub struct Value {
    /// The node's position on its tape.
    pub id: usize,
}

impl Value {
    /// Whether the handle names one of `nodes`.
    pub open spec fn on(self, nodes: Seq<Node>) -> bool {
        self.id < nodes.len()
    }

    /// Why a backward pass from `self` is refused, if it is: a walk from
    /// `self` is refused, or `self` has no forward value.
    pub open spec fn refusal(self, nodes: Seq<Node>, values: Seq<u32>) -> Option<StructuralError> {
        match refusal(nodes, self.id) {
            Some(e) => Some(e),
            None => if self.id >= values.len() {
                Some(StructuralError::Unvalued)
            } else {
                None
            },
        }
    }

    /// Records a leaf that holds the scalar with bit pattern `data`.
    pub fn new(tape: &mut Tape, data: u32) -> (v: Value)
        ensures
            final(tape)@ == old(tape)@.push(Node::Leaf(data)),
            v.id == old(tape)@.len(),
            ordered(old(tape)@) ==> ordered(final(tape)@),
    {
        Value { id: tape.record(Node::Leaf(data)) }
    }

    /// Records the sum of `self` and `other`.
    pub fn add(self, tape: &mut Tape, other: Value) -> (v: Value)
        ensures
            final(tape)@ == old(tape)@.push(Node::Add(self.id, other.id)),
            v.id == old(tape)@.len(),
            ordered(old(tape)@) && self.on(old(tape)@) && other.on(old(tape)@) ==> ordered(
                final(tape)@,
            ),
    {
        Value { id: tape.record(Node::Add(self.id, other.id)) }
    }

    /// Records the product of `self` and `other`.
    pub fn mul(self, tape: &mut Tape, other: Value) -> (v: Value)
        ensures
            final(tape)@ == old(tape)@.push(Node::Mul(self.id, other.id)),
            v.id == old(tape)@.len(),
            ordered(old(tape)@) && self.on(old(tape)@) && other.on(old(tape)@) ==> ordered(
                final(tape)@,
            ),
    {
        Value { id: tape.record(Node::Mul(self.id, other.id)) }
    }

    /// Records `self` raised to the constant with bit pattern `exponent`.
    /// The exponent is no node: no gradient flows into it.
    pub fn pow(self, tape: &mut Tape, exponent: u32) -> (v: Value)
        ensures
            final(tape)@ == old(tape)@.push(Node::Pow(self.id, exponent)),
            v.id == old(tape)@.len(),
            ordered(old(tape)@) && self.on(old(tape)@) ==> ordered(final(tape)@),
    {
        Value { id: tape.record(Node::Pow(self.id, exponent)) }
    }

    /// Records the hyperbolic tangent of `self`.
    pub fn tanh(self, tape: &mut Tape) -> (v: Value)
        ensures
            final(tape)@ == old(tape)@.push(Node::Tanh(self.id)),
            v.id == old(tape)@.len(),
            ordered(old(tape)@) && self.on(old(tape)@) ==> ordered(final(tape)@),
    {
        Value { id: tape.record(Node::Tanh(self.id)) }
    }

    /// Records the exponential of `self`.
    pub fn exp(self, tape: &mut Tape) -> (v: Value)
        ensures
            final(tape)@ == old(tape)@.push(Node::Exp(self.id)),
            v.id == old(tape)@.len(),
            ordered(old(tape)@) && self.on(old(tape)@) ==> ordered(final(tape)@),
    {
        Value { id: tape.record(Node::Exp(self.id)) }
    }

    /// Records the sum of `self` and a fresh leaf that holds `scalar`.
    pub fn add_scalar(self, tape: &mut Tape, scalar: u32) -> (v: Value)
        ensures
            final(tape)@ == old(tape)@.push(Node::Leaf(scalar)).push(
                Node::Add(self.id, old(tape)@.len() as usize),
            ),
            v.id == old(tape)@.len() + 1,
            ordered(old(tape)@) && self.on(old(tape)@) ==> ordered(final(tape)@),
    {
        let leaf = Value::new(tape, scalar);
        self.add(tape, leaf)
    }

    /// Records the sum of a fresh leaf that holds `scalar` and `self`.
    pub fn scalar_add(self, tape: &mut Tape, scalar: u32) -> (v: Value)
        ensures
            final(tape)@ == old(tape)@.push(Node::Leaf(scalar)).push(
                Node::Add(old(tape)@.len() as usize, self.id),
            ),
            v.id == old(tape)@.len() + 1,
            ordered(old(tape)@) && self.on(old(tape)@) ==> ordered(final(tape)@),
    {
        let leaf = Value::new(tape, scalar);
        leaf.add(tape, self)
    }

    /// Records the product of `self` and a fresh leaf that holds `scalar`.
    pub fn mul_scalar(self, tape: &mut Tape, scalar: u32) -> (v: Value)
        ensures
            final(tape)@ == old(tape)@.push(Node::Leaf(scalar)).push(
                Node::Mul(self.id, old(tape)@.len() as usize),
            ),
            v.id == old(tape)@.len() + 1,
            ordered(old(tape)@) && self.on(old(tape)@) ==> ordered(final(tape)@),
    {
        let leaf = Value::new(tape, scalar);
        self.mul(tape, leaf)
    }

    /// Records the product of a fresh leaf that holds `scalar` and `self`.
    pub fn scalar_mul(self, tape: &mut Tape, scalar: u32) -> (v: Value)
        ensures
            final(tape)@ == old(tape)@.push(Node::Leaf(scalar)).push(
                Node::Mul(old(tape)@.len() as usize, self.id),
            ),
            v.id == old(tape)@.len() + 1,
            ordered(old(tape)@) && self.on(old(tape)@) ==> ordered(final(tape)@),
    {
        let leaf = Value::new(tape, scalar);
        leaf.mul(tape, self)
    }

    /// Records the negation of `self`: its product with a leaf that holds `-1`.
    pub fn neg(self, tape: &mut Tape) -> (v: Value)
        ensures
            final(tape)@ == old(tape)@.push(Node::Leaf(NEG_ONE)).push(
                Node::Mul(self.id, old(tape)@.len() as usize),
            ),
            v.id == old(tape)@.len() + 1,
            ordered(old(tape)@) && self.on(old(tape)@) ==> ordered(final(tape)@),
    {
        self.mul_scalar(tape, NEG_ONE)
    }

    /// Records the difference of `self` and `other`: the sum of `self` and
    /// the negation of `other`.
    pub fn sub(self, tape: &mut Tape, other: Value) -> (v: Value)
        ensures
            final(tape)@ == old(tape)@.push(Node::Leaf(NEG_ONE)).push(
                Node::Mul(other.id, old(tape)@.len() as usize),
            ).push(Node::Add(self.id, (old(tape)@.len() + 1) as usize)),
            v.id == old(tape)@.len() + 2,
            ordered(old(tape)@) && self.on(old(tape)@) && other.on(old(tape)@) ==> ordered(
                final(tape)@,
            ),
    {
        let minus = other.neg(tape);
        self.add(tape, minus)
    }

    /// Records the quotient of `self` and `other`: the product of `self` and
    /// `other` raised to `-1`.
    pub fn div(self, tape: &mut Tape, other: Value) -> (v: Value)
        ensures
            final(tape)@ == old(tape)@.push(Node::Pow(other.id, NEG_ONE)).push(
                Node::Mul(self.id, old(tape)@.len() as usize),
            ),
            v.id == old(tape)@.len() + 1,
            ordered(old(tape)@) && self.on(old(tape)@) && other.on(old(tape)@) ==> ordered(
                final(tape)@,
            ),
    {
        let inverse = other.pow(tape, NEG_ONE);
        self.mul(tape, inverse)
    }

    /// The node that the handle names, if it is on `tape`.
    pub fn node(self, tape: &Tape) -> (r: Option<Node>)
        ensures
            r == if self.on(tape@) {
                Some(tape@[self.id as int])
            } else {
                None
            },
    {
        tape.get(self.id)
    }

    /// The forward value of the node, if it has one yet.
    pub fn data(self, values: &Values) -> (r: Option<u32>)
        ensures
            r == if self.id < values@.len() {
                Some(values@[self.id as int])
            } else {
                None
            },
    {
        values.get(self.id)
    }

    /// The gradient of the node, if it has one yet: zero before any
    /// backward pass has reached it.
    pub fn grad(self, grads: &Gradients) -> (r: Option<u32>)
        ensures
            r == if self.id < grads@.len() {
                Some(grads@[self.id as int])
            } else {
                None
            },
    {
        grads.get(self.id)
    }

    /// The nodes that a backward pass from `self` visits, in its order: every
    /// node reached from `self`, each once, `self` first and every node
    /// before its operands. These are also the nodes whose gradients are to
    /// be cleared before the pass is run again.
    pub fn ordering(self, tape: &Tape) -> (r: Result<Vec<usize>, StructuralError>)
        ensures
            match r {
                Ok(order) => {
                    &&& refusal(tape@, self.id) is None
                    &&& order@ == sweep(tape@, self.id)
                    &&& consumers_first(tape@, self.id, order@)
                },
                Err(e) => refusal(tape@, self.id) == Some(e),
            },
    {
        sweep_order(tape, self.id)
    }

    /// Starts a backward pass from `self` and says what is left to do.
    ///
    /// Every node of the tape that has no gradient yet gets one of zero, and
    /// the gradient of `self` is set to one. What is returned are the
    /// contributions still to be carried out, in this order: each adds to the
    /// gradient of node `to` the gradient of node `from` times `slope`. The
    /// nodes reached from `self` take their turn in the order of
    /// [`Value::ordering`], each with the contributions to its operands, so
    /// that a gradient is complete before it is passed on.
    ///
    /// Gradients add up over passes: clear them with [`Gradients::clear`]
    /// before the next one. A part of the tape that names operands not
    /// recorded before their users, as every cycle does, is refused, and the
    /// gradients stay as they are.
    pub fn begin(self, tape: &Tape, grads: &mut Gradients) -> (r: Result<
        Vec<Push>,
        StructuralError,
    >)
        ensures
            match r {
                Ok(plan) => {
                    &&& refusal(tape@, self.id) is None
                    &&& plan@ == backward(tape@, self.id)
                    &&& stays_under(tape@, self.id, plan@)
                    &&& gathers_first(plan@)
                    &&& final(grads)@ == seeded(self.id, grown(old(grads)@, tape@.len()), ONE)
                    &&& forall|i: int|
                        0 <= i < plan@.len() ==> (#[trigger] plan@[i]).from < final(grads)@.len()
                            && plan@[i].to < final(grads)@.len()
                },
                Err(e) => refusal(tape@, self.id) == Some(e) && final(grads)@ == old(grads)@,
            },
    {
        let plan = match backward_plan(tape, self.id) {
            Ok(plan) => plan,
            Err(e) => {
                return Err(e);
            },
        };
        grads.grow(tape.len());
        grads.seed(self);
        proof {
            assert forall|i: int| 0 <= i < plan@.len() implies (#[trigger] plan@[i]).from
                < grads@.len() && plan@[i].to < grads@.len() by {
                lemma_reaches_below(tape@, self.id, plan@[i].from);
                lemma_reaches_below(tape@, self.id, plan@[i].to);
            }
        }
        Ok(plan)
    }

    /// Runs a backward pass from `self`, with the arithmetic `accumulate`.
    ///
    /// Every node of the tape that has no gradient yet gets one of zero,
    /// and the gradient of `self` is set to one. Then the contributions of
    /// the pass are carried out in their order: each gives `accumulate` the
    /// gradient of its target, the gradient of its source and the slope,
    /// with the forward values filled in, and stores what comes back as the
    /// target's new gradient.
    ///
    /// Gradients add up over passes: clear them with [`Gradients::clear`]
    /// before the next one. Where the pass cannot be run, the gradients stay
    /// as they are.
    pub fn backprop<F: Fn(Step) -> u32>(
        self,
        tape: &Tape,
        values: &Values,
        grads: &mut Gradients,
        accumulate: F,
    ) -> (r: Result<(), StructuralError>)
        requires
            forall|step: Step| call_requires(accumulate, (step,)),
        ensures
            match r {
                Ok(()) => {
                    &&& self.refusal(tape@, values@) is None
                    &&& carried_by(
                        backward(tape@, self.id),
                        values@,
                        seeded(self.id, grown(old(grads)@, tape@.len()), ONE),
                        final(grads)@,
                        accumulate,
                    )
                },
                Err(e) => self.refusal(tape@, values@) == Some(e) && final(grads)@ == old(grads)@,
            },
    {
        if self.id < tape.len() && self.id >= values.len() {
            return match sweep_order(tape, self.id) {
                Ok(_) => Err(StructuralError::Unvalued),
                Err(e) => Err(e),
            };
        }
        let plan = match self.begin(tape, grads) {
            Ok(plan) => plan,
            Err(e) => {
                return Err(e);
            },
        };
        let ghost start = grads@;
        proof {
            assert forall|i: int| 0 <= i < plan@.len() implies (
            #[trigger] plan@[i]).slope.reads() matches Some(x) ==> x < values@.len() by {
                match plan@[i].slope.reads() {
                    Some(x) => {
                        lemma_reaches_below(tape@, self.id, x);
                    },
                    None => {},
                }
            }
        }
        let ghost mut states: Seq<Seq<u32>> = seq![start];
        let mut i: usize = 0;
        while i < plan.len()
            invariant
                i <= plan@.len(),
                grads@.len() == start.len(),
                forall|step: Step| call_requires(accumulate, (step,)),
                forall|j: int|
                    0 <= j < plan@.len() ==> (#[trigger] plan@[j]).from < start.len() && plan@[j].to
                        < start.len(),
                forall|j: int|
                    0 <= j < plan@.len() ==> ((#[trigger] plan@[j]).slope.reads() matches Some(x)
                        ==> x < values@.len()),
                states.len() == i + 1,
                states[0] == start,
                states[i as int] == grads@,
                forall|j: int|
                    0 <= j < i ==> stepped(
                        #[trigger] plan@[j],
                        values@,
                        states[j],
                        states[j + 1],
                        accumulate,
                    ),
            decreases plan@.len() - i,
        {
            let push = plan[i];
            let ghost before = grads@;
            proof {
                assert(plan@[i as int].from < start.len());
                assert(plan@[i as int].slope.reads() matches Some(x) ==> x < values@.len());
            }
            let step = values.step(&push, grads).unwrap();
            let sum = accumulate(step);
            grads.set(push.to, sum);
            proof {
                assert(plan@[i as int].to < start.len());
                assert(stepped(push, values@, before, grads@, accumulate));
                states = states.push(grads@);
            }
            i += 1;
        }
        proof {
            assert(traced(plan@, values@, states, accumulate));
        }
        Ok(())
    }
}

} // verus!
