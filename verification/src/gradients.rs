use vstd::prelude::*;
use crate::error::StructuralError;
use crate::node::{ONE, ZERO};
use crate::order::{refusal, sweep_order};
use crate::pass::cleared;
use crate::tape::Tape;
use crate::value::Value;

verus! {

/// The gradient of each node of a tape, as a bit pattern: zero until a
/// backward pass flows into it.
#[derive(Debug)]
pub struct Gradients {
    bits: Vec<u32>,
}

impl View for Gradients {
    type V = Seq<u32>;

    closed spec fn view(&self) -> Seq<u32> {
        self.bits@
    }
}

/// The gradients `grads`, with a gradient of zero added for each node from
/// their number up to `len`.
pub open spec fn grown(grads: Seq<u32>, len: nat) -> Seq<u32> {
    if len <= grads.len() {
        grads
    } else {
        grads + Seq::new((len - grads.len()) as nat, |i: int| ZERO)
    }
}

impl Gradients {
    /// A gradient of zero for each of `len` nodes.
    pub fn zeroed(len: usize) -> (g: Gradients)
        ensures
            g@ == Seq::new(len as nat, |i: int| ZERO),
    {
        let mut g = Gradients { bits: Vec::new() };
        g.grow(len);
        proof {
            assert(g@ =~= Seq::new(len as nat, |i: int| ZERO));
        }
        g
    }

    /// The number of nodes that have a gradient.
    pub fn len(&self) -> (n: usize)
        ensures
            n == self@.len(),
    {
        self.bits.len()
    }

    /// Gives the nodes from the present length up to `len` a gradient of
    /// zero: those recorded since the gradients were made.
    pub fn grow(&mut self, len: usize)
        ensures
            final(self)@ == grown(old(self)@, len as nat),
    {
        let ghost start = self.bits@.len();
        while self.bits.len() < len
            invariant
                start == old(self)@.len(),
                start <= self.bits@.len(),
                self.bits@.len() <= len || self.bits@.len() == start,
                self.bits@ == old(self)@ + Seq::new(
                    (self.bits@.len() - start) as nat,
                    |i: int| ZERO,
                ),
            decreases len - self.bits@.len(),
        {
            self.bits.push(ZERO);
            proof {
                assert(self.bits@ =~= old(self)@ + Seq::new(
                    (self.bits@.len() - start) as nat,
                    |i: int| ZERO,
                ));
            }
        }
        proof {
            if len <= start {
                assert(self.bits@ =~= old(self)@);
            }
        }
    }

    /// The gradient of node `n`, if it has one.
    pub fn get(&self, n: usize) -> (r: Option<u32>)
        ensures
            r == if n < self@.len() {
                Some(self@[n as int])
            } else {
                None
            },
    {
        if n < self.bits.len() {
            Some(self.bits[n])
        } else {
            None
        }
    }

    /// Replaces the gradient of node `n`, if it has one, and says whether it has.
    pub fn set(&mut self, n: usize, gradient: u32) -> (done: bool)
        ensures
            done == (n < old(self)@.len()),
            final(self)@ == if done {
                old(self)@.update(n as int, gradient)
            } else {
                old(self)@
            },
    {
        if n < self.bits.len() {
            self.bits.set(n, gradient);
            true
        } else {
            false
        }
    }

    /// Starts a backward pass: the gradient of `root` with respect to
    /// itself is one.
    pub fn seed(&mut self, root: Value) -> (done: bool)
        ensures
            done == (root.id < old(self)@.len()),
            final(self)@ == if done {
                old(self)@.update(root.id as int, ONE)
            } else {
                old(self)@
            },
    {
        self.set(root.id, ONE)
    }

    /// Sets the gradients of the nodes reached from `root` to zero and
    /// leaves the others as they are. Where a backward pass from `root`
    /// would be refused, nothing is changed.
    pub fn clear(&mut self, tape: &Tape, root: Value) -> (r: Result<(), StructuralError>)
        ensures
            match r {
                Ok(()) => refusal(tape@, root.id) is None && final(self)@ == cleared(
                    tape@,
                    root.id,
                    old(self)@,
                    ZERO,
                ),
                Err(e) => refusal(tape@, root.id) == Some(e) && final(self)@ == old(self)@,
            },
    {
        let order = match sweep_order(tape, root.id) {
            Ok(order) => order,
            Err(e) => {
                return Err(e);
            },
        };
        let len = self.bits.len();
        let mut k: usize = 0;
        while k < order.len()
            invariant
                k <= order@.len(),
                len == old(self)@.len(),
                self.bits@.len() == len,
                forall|i: int|
                    0 <= i < len ==> #[trigger] self.bits@[i] == if order@.take(k as int).contains(
                        i as usize,
                    ) {
                        ZERO
                    } else {
                        old(self)@[i]
                    },
            decreases order@.len() - k,
        {
            let n = order[k];
            let ghost before = self.bits@;
            if n < len {
                self.bits.set(n, ZERO);
            }
            proof {
                let head = order@.take(k as int);
                let next = order@.take(k + 1);
                assert(next =~= head.push(n));
                assert forall|i: int| 0 <= i < len implies #[trigger] self.bits@[i] == if next.contains(
                    i as usize,
                ) {
                    ZERO
                } else {
                    old(self)@[i]
                } by {
                    if i == n {
                        assert(next[k as int] == n);
                    } else {
                        if next.contains(i as usize) {
                            let j = choose|j: int| 0 <= j < next.len() && next[j] == i as usize;
                            assert(head[j] == i as usize);
                        }
                        if head.contains(i as usize) {
                            let j = choose|j: int| 0 <= j < head.len() && head[j] == i as usize;
                            assert(next[j] == i as usize);
                        }
                    }
                }
            }
            k += 1;
        }
        proof {
            assert(order@.take(k as int) =~= order@);
            assert(self.bits@ =~= cleared(tape@, root.id, old(self)@, ZERO));
        }
        Ok(())
    }
}

} // verus!
