use vstd::prelude::*;

verus! {

/// Bit pattern of the single-precision scalar `-1.0`.
pub const NEG_ONE: u32 = 0xBF80_0000;

/// Bit pattern of the single-precision scalar `1.0`, the seed of a backward pass.
pub const ONE: u32 = 0x3F80_0000;

/// Bit pattern of the single-precision scalar `0.0`, a gradient nothing has flowed into.
pub const ZERO: u32 = 0;

/// The operation that produced a node.
#[derive(Clone, Copy, Debug, PartialEq, Eq, Structural)]
pub enum Op {
    Leaf,
    Add,
    Mul,
    Pow,
    Tanh,
    Exp,
}

/// One recorded operation. Operands are positions on the tape that holds the node.
#[derive(Clone, Copy, Debug, PartialEq, Eq, Structural)]
pub enum Node {
    /// A scalar given directly, by its bit pattern.
    Leaf(u32),
    /// The sum of two nodes.
    Add(usize, usize),
    /// The product of two nodes.
    Mul(usize, usize),
    /// A node raised to a constant exponent, given by its bit pattern.
    Pow(usize, u32),
    /// The hyperbolic tangent of a node.
    Tanh(usize),
    /// The exponential of a node.
    Exp(usize),
}

impl Node {
    /// The tag of the operation.
    pub open spec fn tag(self) -> Op {
        match self {
            Node::Leaf(_) => Op::Leaf,
            Node::Add(_, _) => Op::Add,
            Node::Mul(_, _) => Op::Mul,
            Node::Pow(_, _) => Op::Pow,
            Node::Tanh(_) => Op::Tanh,
            Node::Exp(_) => Op::Exp,
        }
    }

    /// The first operand, if the operation has one.
    pub open spec fn first(self) -> Option<usize> {
        match self {
            Node::Leaf(_) => None,
            Node::Add(a, _) => Some(a),
            Node::Mul(a, _) => Some(a),
            Node::Pow(a, _) => Some(a),
            Node::Tanh(a) => Some(a),
            Node::Exp(a) => Some(a),
        }
    }

    /// The second operand, if the operation has two.
    pub open spec fn second(self) -> Option<usize> {
        match self {
            Node::Add(_, b) => Some(b),
            Node::Mul(_, b) => Some(b),
            _ => None,
        }
    }

    /// The operands in order: none, one or two.
    pub open spec fn operands(self) -> Seq<usize> {
        match (self.first(), self.second()) {
            (Some(a), Some(b)) => seq![a, b],
            (Some(a), None) => seq![a],
            _ => Seq::empty(),
        }
    }

    /// Whether `c` is an operand of this node.
    pub open spec fn uses(self, c: usize) -> bool {
        self.first() == Some(c) || self.second() == Some(c)
    }

    pub fn op(&self) -> (r: Op)
        ensures
            r == self.tag(),
    {
        match self {
            Node::Leaf(_) => Op::Leaf,
            Node::Add(_, _) => Op::Add,
            Node::Mul(_, _) => Op::Mul,
            Node::Pow(_, _) => Op::Pow,
            Node::Tanh(_) => Op::Tanh,
            Node::Exp(_) => Op::Exp,
        }
    }

    pub fn first_operand(&self) -> (r: Option<usize>)
        ensures
            r == self.first(),
    {
        match self {
            Node::Leaf(_) => None,
            Node::Add(a, _) => Some(*a),
            Node::Mul(a, _) => Some(*a),
            Node::Pow(a, _) => Some(*a),
            Node::Tanh(a) => Some(*a),
            Node::Exp(a) => Some(*a),
        }
    }

    pub fn second_operand(&self) -> (r: Option<usize>)
        ensures
            r == self.second(),
    {
        match self {
            Node::Add(_, b) => Some(*b),
            Node::Mul(_, b) => Some(*b),
            _ => None,
        }
    }

    /// The operands as a vector, in order.
    pub fn operand_list(&self) -> (r: Vec<usize>)
        ensures
            r@ == self.operands(),
    {
        let mut r: Vec<usize> = Vec::new();
        match self.first_operand() {
            Some(a) => {
                r.push(a);
            },
            None => {},
        }
        match self.second_operand() {
            Some(b) => {
                r.push(b);
            },
            None => {},
        }
        proof {
            assert(r@ =~= self.operands());
        }
        r
    }
}

} // verus!
