use vstd::prelude::*;
use crate::draws::Draws;
use crate::node::Node;
use crate::tape::{ordered, Tape};
use crate::value::Value;

verus! {

/// The leaves that hold the given scalars, in order.
pub open spec fn leaves(scalars: Seq<u32>) -> Seq<Node> {
    Seq::new(scalars.len(), |i: int| Node::Leaf(scalars[i]))
}

/// A weight for each input and a bias, all of them leaves of a tape.
#[derive(Debug)]
pub struct Neuron {
    pub w: Vec<Value>,
    pub b: Value,
}

impl Neuron {
    /// The neuron has `nin` weights, which are the nodes from position `base`
    /// on, and the node after them is its bias.
    pub open spec fn stands_at(&self, base: int, nin: int) -> bool {
        &&& self.w@.len() == nin
        &&& forall|i: int| 0 <= i < nin ==> (#[trigger] self.w@[i]).id == base + i
        &&& self.b.id == base + nin
    }

    /// The weights and the bias are among `nodes`.
    pub open spec fn on(&self, nodes: Seq<Node>) -> bool {
        &&& self.b.on(nodes)
        &&& forall|i: int| 0 <= i < self.w@.len() ==> (#[trigger] self.w@[i]).on(nodes)
    }

    /// The handle under which the sum of the bias and the first `i` weighted
    /// inputs is found, when [`Neuron::forward`] records from position `base` on.
    pub open spec fn partial_sum(&self, base: int, i: int) -> usize {
        if i <= 0 {
            self.b.id
        } else {
            (base + 3 * i - 1) as usize
        }
    }

    /// The `j`-th node that [`Neuron::forward`] records from position `base`
    /// on, for `k` inputs `x`: for each input a leaf that holds it, its
    /// product with its weight, and the sum so far; at the end the hyperbolic
    /// tangent of the whole sum.
    pub open spec fn grown(&self, x: Seq<u32>, base: int, k: int, j: int) -> Node {
        if j >= 3 * k {
            Node::Tanh(self.partial_sum(base, k))
        } else if j % 3 == 0 {
            Node::Leaf(x[j / 3])
        } else if j % 3 == 1 {
            Node::Mul(self.w@[j / 3].id, (base + j - 1) as usize)
        } else {
            Node::Add(self.partial_sum(base, j / 3), (base + j - 1) as usize)
        }
    }

    /// The nodes that [`Neuron::forward`] records from position `base` on.
    pub open spec fn growth(&self, x: Seq<u32>, base: int) -> Seq<Node> {
        let k = if self.w@.len() <= x.len() {
            self.w@.len() as int
        } else {
            x.len() as int
        };
        Seq::new((3 * k + 1) as nat, |j: int| self.grown(x, base, k, j))
    }

    /// Records `nin` weights and a bias as leaves, with the next `nin + 1`
    /// scalars of `draws`. Where fewer are left, nothing is recorded or drawn.
    pub fn new(tape: &mut Tape, nin: usize, draws: &mut Draws) -> (r: Option<Neuron>)
        ensures
            match r {
                Some(neuron) => {
                    &&& old(draws)@.len() > nin
                    &&& final(draws)@ == old(draws)@.skip(nin + 1)
                    &&& final(tape)@ == old(tape)@ + leaves(old(draws)@.take(nin + 1))
                    &&& neuron.stands_at(old(tape)@.len() as int, nin as int)
                },
                None => {
                    &&& old(draws)@.len() <= nin
                    &&& final(draws)@ == old(draws)@
                    &&& final(tape)@ == old(tape)@
                },
            },
            ordered(old(tape)@) ==> ordered(final(tape)@),
    {
        if draws.remaining() <= nin {
            return None;
        }
        let ghost base = tape@.len() as int;
        let mut w: Vec<Value> = Vec::new();
        let mut i: usize = 0;
        while i < nin
            invariant
                i <= nin < old(draws)@.len(),
                base == old(tape)@.len(),
                draws@ == old(draws)@.skip(i as int),
                tape@ == old(tape)@ + leaves(old(draws)@.take(i as int)),
                w@.len() == i,
                forall|j: int| 0 <= j < i ==> (#[trigger] w@[j]).id == base + j,
                ordered(old(tape)@) ==> ordered(tape@),
            decreases nin - i,
        {
            let scalar = draws.draw();
            let leaf = Value::new(tape, scalar);
            w.push(leaf);
            proof {
                assert(leaf.id == base + i);
                assert(draws@ =~= old(draws)@.skip(i + 1));
                assert(tape@ =~= old(tape)@ + leaves(old(draws)@.take(i + 1)));
            }
            i += 1;
        }
        let scalar = draws.draw();
        let b = Value::new(tape, scalar);
        proof {
            assert(draws@ =~= old(draws)@.skip(nin + 1));
            assert(tape@ =~= old(tape)@ + leaves(old(draws)@.take(nin + 1)));
        }
        Some(Neuron { w, b })
    }

    /// Records the output of the neuron for the inputs `x`: the hyperbolic
    /// tangent of the bias plus the weighted inputs, summed up from the
    /// first to the last. Each input becomes a fresh leaf. Inputs without a
    /// weight and weights without an input are left out.
    pub fn forward(&self, tape: &mut Tape, x: &[u32]) -> (out: Value)
        ensures
            final(tape)@ == old(tape)@ + self.growth(x@, old(tape)@.len() as int),
            out.id == final(tape)@.len() - 1,
            ordered(old(tape)@) && self.on(old(tape)@) ==> ordered(final(tape)@),
    {
        let ghost base = tape@.len() as int;
        let k: usize = if self.w.len() <= x.len() {
            self.w.len()
        } else {
            x.len()
        };
        let mut sum = self.b;
        let mut i: usize = 0;
        while i < k
            invariant
                i <= k,
                k <= self.w@.len(),
                k <= x@.len(),
                base == old(tape)@.len(),
                tape@ == old(tape)@ + Seq::new(
                    (3 * i) as nat,
                    |j: int| self.grown(x@, base, k as int, j),
                ),
                sum.id == self.partial_sum(base, i as int),
                ordered(old(tape)@) && self.on(old(tape)@) ==> ordered(tape@) && sum.on(tape@),
            decreases k - i,
        {
            assert(self.w@[i as int].on(old(tape)@) ==> self.w@[i as int].on(tape@));
            let input = Value::new(tape, x[i]);
            let term = self.w[i].mul(tape, input);
            sum = sum.add(tape, term);
            proof {
                let j0 = 3 * i as int;
                assert(input.id == base + j0);
                assert(term.id == base + j0 + 1);
                assert(sum.id == base + j0 + 2);
                assert(self.grown(x@, base, k as int, j0) == Node::Leaf(x@[i as int]));
                assert(self.grown(x@, base, k as int, j0 + 1) == Node::Mul(
                    self.w@[i as int].id,
                    input.id,
                ));
                assert(self.grown(x@, base, k as int, j0 + 2) == Node::Add(
                    self.partial_sum(base, i as int),
                    term.id,
                ));
                assert(tape@ =~= old(tape)@ + Seq::new(
                    (3 * (i + 1)) as nat,
                    |j: int| self.grown(x@, base, k as int, j),
                ));
            }
            i += 1;
        }
        let out = sum.tanh(tape);
        proof {
            assert(tape@ =~= old(tape)@ + self.growth(x@, base));
        }
        out
    }
}

/// Neurons that read the same inputs.
#[derive(Debug)]
pub struct Layer {
    pub neurons: Vec<Neuron>,
}

/// The nodes that the given neurons record for the inputs `x` from position
/// `base` on, one neuron after the other.
pub open spec fn layer_growth(neurons: Seq<Neuron>, x: Seq<u32>, base: int) -> Seq<Node>
    decreases neurons.len(),
{
    if neurons.len() == 0 {
        Seq::empty()
    } else {
        let head = layer_growth(neurons.drop_last(), x, base);
        head + neurons.last().growth(x, base + head.len())
    }
}

impl Layer {
    /// The layer has `nout` neurons of `nin` weights each, whose leaves
    /// stand one neuron after the other from position `base` on.
    pub open spec fn stands_at(&self, base: int, nin: int, nout: int) -> bool {
        &&& self.neurons@.len() == nout
        &&& forall|j: int|
            0 <= j < nout ==> (#[trigger] self.neurons@[j]).stands_at(base + j * (nin + 1), nin)
    }

    /// The weights and biases are among `nodes`.
    pub open spec fn on(&self, nodes: Seq<Node>) -> bool {
        forall|j: int| 0 <= j < self.neurons@.len() ==> (#[trigger] self.neurons@[j]).on(nodes)
    }

    /// The number of scalars that a layer of `nout` neurons with `nin`
    /// inputs each is made of, where that number can be held.
    pub fn parameter_count(nin: usize, nout: usize) -> (r: Option<usize>)
        ensures
            match r {
                Some(n) => n == nout * (nin + 1),
                None => nout * (nin + 1) > usize::MAX,
            },
    {
        if nout == 0 {
            return Some(0);
        }
        match nin.checked_add(1) {
            Some(each) => {
                let r = nout.checked_mul(each);
                r
            },
            None => {
                assert(nout * (nin + 1) > usize::MAX) by (nonlinear_arith)
                    requires
                        nout >= 1,
                        nin + 1 > usize::MAX,
                ;
                None
            },
        }
    }

    /// Records `nout` neurons of `nin` weights each, one after the other,
    /// with the next `nout * (nin + 1)` scalars of `draws`. Where fewer are
    /// left, nothing is recorded or drawn.
    pub fn new(tape: &mut Tape, nin: usize, nout: usize, draws: &mut Draws) -> (r: Option<Layer>)
        ensures
            match r {
                Some(layer) => {
                    let need = nout * (nin + 1);
                    &&& old(draws)@.len() >= need
                    &&& final(draws)@ == old(draws)@.skip(need)
                    &&& final(tape)@ == old(tape)@ + leaves(old(draws)@.take(need))
                    &&& layer.stands_at(old(tape)@.len() as int, nin as int, nout as int)
                },
                None => {
                    &&& old(draws)@.len() < nout * (nin + 1)
                    &&& final(draws)@ == old(draws)@
                    &&& final(tape)@ == old(tape)@
                },
            },
            ordered(old(tape)@) ==> ordered(final(tape)@),
    {
        let left = draws.remaining();
        let need = match Layer::parameter_count(nin, nout) {
            Some(n) => n,
            None => {
                return None;
            },
        };
        if left < need {
            return None;
        }
        let ghost base = tape@.len() as int;
        let ghost each = nin + 1;
        let mut neurons: Vec<Neuron> = Vec::new();
        let mut j: usize = 0;
        while j < nout
            invariant
                j <= nout,
                each == nin + 1,
                need == nout * each,
                need <= old(draws)@.len(),
                base == old(tape)@.len(),
                draws@ == old(draws)@.skip(j * each),
                tape@ == old(tape)@ + leaves(old(draws)@.take(j * each)),
                neurons@.len() == j,
                forall|i: int|
                    0 <= i < j ==> (#[trigger] neurons@[i]).stands_at(base + i * each, nin as int),
                ordered(old(tape)@) ==> ordered(tape@),
            decreases nout - j,
        {
            proof {
                assert((j + 1) * each == j * each + each) by (nonlinear_arith);
                assert((j + 1) * each <= nout * each) by (nonlinear_arith)
                    requires
                        j + 1 <= nout,
                        each >= 0,
                ;
                assert(0 <= j * each) by (nonlinear_arith)
                    requires
                        j >= 0,
                        each >= 0,
                ;
            }
            let ghost drawn = draws@;
            let neuron = Neuron::new(tape, nin, draws).unwrap();
            neurons.push(neuron);
            proof {
                assert(draws@ =~= old(draws)@.skip((j + 1) * each));
                assert(drawn.take(each) =~= old(draws)@.subrange(j * each, (j + 1) * each));
                assert(tape@ =~= old(tape)@ + leaves(old(draws)@.take((j + 1) * each)));
            }
            j += 1;
        }
        Some(Layer { neurons })
    }

    /// Records the output of each neuron for the inputs `x`, one neuron
    /// after the other, and returns the outputs in that order.
    pub fn forward(&self, tape: &mut Tape, x: &[u32]) -> (outs: Vec<Value>)
        ensures
            final(tape)@ == old(tape)@ + layer_growth(self.neurons@, x@, old(tape)@.len() as int),
            outs@.len() == self.neurons@.len(),
            forall|j: int|
                0 <= j < outs@.len() ==> (#[trigger] outs@[j]).id == old(tape)@.len()
                    + layer_growth(self.neurons@.take(j + 1), x@, old(tape)@.len() as int).len()
                    - 1,
            ordered(old(tape)@) && self.on(old(tape)@) ==> ordered(final(tape)@),
    {
        let ghost base = tape@.len() as int;
        let mut outs: Vec<Value> = Vec::new();
        let mut j: usize = 0;
        while j < self.neurons.len()
            invariant
                j <= self.neurons@.len(),
                base == old(tape)@.len(),
                tape@ == old(tape)@ + layer_growth(self.neurons@.take(j as int), x@, base),
                outs@.len() == j,
                forall|i: int|
                    0 <= i < j ==> (#[trigger] outs@[i]).id == base + layer_growth(
                        self.neurons@.take(i + 1),
                        x@,
                        base,
                    ).len() - 1,
                ordered(old(tape)@) && self.on(old(tape)@) ==> ordered(tape@),
                old(tape)@.len() <= tape@.len(),
            decreases self.neurons@.len() - j,
        {
            proof {
                let next = self.neurons@.take(j + 1);
                assert(next.drop_last() =~= self.neurons@.take(j as int));
                assert(next.last() == self.neurons@[j as int]);
                if self.on(old(tape)@) {
                    assert(self.neurons@[j as int].on(old(tape)@));
                    assert(self.neurons@[j as int].on(tape@));
                }
            }
            let out = self.neurons[j].forward(tape, x);
            outs.push(out);
            proof {
                let head = layer_growth(self.neurons@.take(j as int), x@, base);
                assert(tape@ =~= old(tape)@ + layer_growth(self.neurons@.take(j + 1), x@, base));
            }
            j += 1;
        }
        assert(self.neurons@.take(j as int) =~= self.neurons@);
        outs
    }
}

/// Layers in a row: each has as many inputs as the one before it has neurons.
#[derive(Debug)]
pub struct MLP {
    pub layers: Vec<Layer>,
}

/// The number of inputs of layer `l` in a network of `nin` inputs whose
/// layers have `nouts` neurons.
pub open spec fn width(nin: usize, nouts: Seq<usize>, l: int) -> int {
    if l <= 0 {
        nin as int
    } else {
        nouts[l - 1] as int
    }
}

/// The number of scalars that the layers before layer `l` are made of.
pub open spec fn offset(nin: usize, nouts: Seq<usize>, l: int) -> int
    decreases l,
{
    if l <= 0 {
        0
    } else {
        offset(nin, nouts, l - 1) + nouts[l - 1] * (width(nin, nouts, l - 1) + 1)
    }
}

/// The layers up to a later one are made of no fewer scalars.
pub proof fn lemma_offset_grows(nin: usize, nouts: Seq<usize>, l: int, m: int)
    requires
        0 <= l <= m <= nouts.len(),
    ensures
        0 <= offset(nin, nouts, l) <= offset(nin, nouts, m),
    decreases m,
{
    if m > 0 {
        assert(0 <= nouts[m - 1] * (width(nin, nouts, m - 1) + 1)) by (nonlinear_arith)
            requires
                0 <= nouts[m - 1],
                0 <= width(nin, nouts, m - 1),
        ;
        if l < m {
            lemma_offset_grows(nin, nouts, l, m - 1);
        } else {
            lemma_offset_grows(nin, nouts, l - 1, m - 1);
        }
    }
}

impl MLP {
    /// The network has a layer for each entry of `nouts`, whose leaves
    /// stand one layer after the other from position `base` on.
    pub open spec fn stands_at(&self, base: int, nin: usize, nouts: Seq<usize>) -> bool {
        &&& self.layers@.len() == nouts.len()
        &&& forall|l: int|
            0 <= l < nouts.len() ==> (#[trigger] self.layers@[l]).stands_at(
                base + offset(nin, nouts, l),
                width(nin, nouts, l),
                nouts[l] as int,
            )
    }

    /// The number of scalars that a network of `nin` inputs is made of
    /// whose layers have `nouts` neurons, where that number can be held.
    pub fn parameter_count(nin: usize, nouts: &[usize]) -> (r: Option<usize>)
        ensures
            match r {
                Some(n) => n == offset(nin, nouts@, nouts@.len() as int),
                None => offset(nin, nouts@, nouts@.len() as int) > usize::MAX,
            },
    {
        let mut total: usize = 0;
        let mut inputs: usize = nin;
        let mut l: usize = 0;
        while l < nouts.len()
            invariant
                l <= nouts@.len(),
                total == offset(nin, nouts@, l as int),
                inputs == width(nin, nouts@, l as int),
            decreases nouts@.len() - l,
        {
            proof {
                lemma_offset_grows(nin, nouts@, l + 1, nouts@.len() as int);
            }
            let more = match Layer::parameter_count(inputs, nouts[l]) {
                Some(n) => n,
                None => {
                    return None;
                },
            };
            total = match total.checked_add(more) {
                Some(n) => n,
                None => {
                    return None;
                },
            };
            inputs = nouts[l];
            l += 1;
        }
        Some(total)
    }

    /// Records a layer for each entry of `nouts`, one after the other, with
    /// as many scalars of `draws` as they are made of; the first layer has
    /// `nin` inputs. Where fewer are left, nothing is recorded or drawn.
    pub fn new(tape: &mut Tape, nin: usize, nouts: &[usize], draws: &mut Draws) -> (r: Option<MLP>)
        ensures
            match r {
                Some(net) => {
                    let need = offset(nin, nouts@, nouts@.len() as int);
                    &&& old(draws)@.len() >= need
                    &&& final(draws)@ == old(draws)@.skip(need)
                    &&& final(tape)@ == old(tape)@ + leaves(old(draws)@.take(need))
                    &&& net.stands_at(old(tape)@.len() as int, nin, nouts@)
                },
                None => {
                    &&& old(draws)@.len() < offset(nin, nouts@, nouts@.len() as int)
                    &&& final(draws)@ == old(draws)@
                    &&& final(tape)@ == old(tape)@
                },
            },
            ordered(old(tape)@) ==> ordered(final(tape)@),
    {
        let left = draws.remaining();
        let need = match MLP::parameter_count(nin, nouts) {
            Some(n) => n,
            None => {
                return None;
            },
        };
        if left < need {
            return None;
        }
        let ghost base = tape@.len() as int;
        let mut layers: Vec<Layer> = Vec::new();
        let mut inputs: usize = nin;
        let mut l: usize = 0;
        proof {
            assert(old(draws)@.skip(0) =~= old(draws)@);
            assert(old(tape)@ + leaves(old(draws)@.take(0)) =~= old(tape)@);
        }
        while l < nouts.len()
            invariant
                l <= nouts@.len(),
                need == offset(nin, nouts@, nouts@.len() as int),
                need <= old(draws)@.len(),
                base == old(tape)@.len(),
                inputs == width(nin, nouts@, l as int),
                draws@ == old(draws)@.skip(offset(nin, nouts@, l as int)),
                tape@ == old(tape)@ + leaves(old(draws)@.take(offset(nin, nouts@, l as int))),
                layers@.len() == l,
                forall|i: int|
                    0 <= i < l ==> (#[trigger] layers@[i]).stands_at(
                        base + offset(nin, nouts@, i),
                        width(nin, nouts@, i),
                        nouts@[i] as int,
                    ),
                ordered(old(tape)@) ==> ordered(tape@),
            decreases nouts@.len() - l,
        {
            let ghost from = offset(nin, nouts@, l as int);
            let ghost upto = offset(nin, nouts@, l + 1);
            proof {
                lemma_offset_grows(nin, nouts@, l as int, l + 1);
                lemma_offset_grows(nin, nouts@, l + 1, nouts@.len() as int);
            }
            let ghost drawn = draws@;
            let layer = Layer::new(tape, inputs, nouts[l], draws).unwrap();
            layers.push(layer);
            proof {
                assert(draws@ =~= old(draws)@.skip(upto));
                assert(drawn.take(upto - from) =~= old(draws)@.subrange(from, upto));
                assert(tape@ =~= old(tape)@ + leaves(old(draws)@.take(upto)));
            }
            inputs = nouts[l];
            l += 1;
        }
        Some(MLP { layers })
    }
}

} // verus!
