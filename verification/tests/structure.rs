//! What is recorded on a tape, and which passes are laid out over it.

use gradtape::node::{NEG_ONE, ONE, ZERO};
use gradtape::plan::{backward_plan, collect, local_rule};
use gradtape::{Draws, Layer, Neuron, Node, Op, Push, Slope, StructuralError, Tape, Value, MLP};

fn push(from: usize, to: usize, slope: Slope) -> Push {
    Push { from, to, slope }
}

#[test]
fn constants_are_the_bit_patterns_of_their_scalars() {
    assert_eq!(NEG_ONE, (-1.0f32).to_bits());
    assert_eq!(ONE, 1.0f32.to_bits());
    assert_eq!(ZERO, 0.0f32.to_bits());
}

#[test]
fn new_tape_is_empty() {
    let tape = Tape::new();
    assert_eq!(tape.len(), 0);
    assert!(tape.is_empty());
    assert_eq!(tape.get(0), None);
    assert!(tape.is_ordered());
}

#[test]
fn operators_record_one_node_each() {
    let mut tape = Tape::new();
    let a = Value::new(&mut tape, 11);
    let b = Value::new(&mut tape, 22);
    assert_eq!((a.id, b.id), (0, 1));
    let s = a.add(&mut tape, b);
    let p = b.mul(&mut tape, a);
    let w = s.pow(&mut tape, 33);
    let t = p.tanh(&mut tape);
    let e = t.exp(&mut tape);
    assert_eq!((s.id, p.id, w.id, t.id, e.id), (2, 3, 4, 5, 6));
    assert_eq!(tape.len(), 7);
    assert_eq!(tape.get(0), Some(Node::Leaf(11)));
    assert_eq!(tape.get(1), Some(Node::Leaf(22)));
    assert_eq!(tape.get(2), Some(Node::Add(0, 1)));
    assert_eq!(tape.get(3), Some(Node::Mul(1, 0)));
    assert_eq!(tape.get(4), Some(Node::Pow(2, 33)));
    assert_eq!(tape.get(5), Some(Node::Tanh(3)));
    assert_eq!(tape.get(6), Some(Node::Exp(5)));
    assert_eq!(tape.get(7), None);
    assert_eq!(e.node(&tape), Some(Node::Exp(5)));
    assert_eq!(Value { id: 7 }.node(&tape), None);
    assert!(!tape.is_empty());
    assert!(tape.is_ordered());
}

#[test]
fn operands_stay_as_they_were() {
    let mut tape = Tape::new();
    let a = Value::new(&mut tape, 11);
    let b = Value::new(&mut tape, 22);
    let before = (tape.get(0), tape.get(1));
    let _ = a.add(&mut tape, b);
    let _ = a.mul(&mut tape, b);
    let _ = a.div(&mut tape, b);
    assert_eq!((tape.get(0), tape.get(1)), before);
}

#[test]
fn derived_operators_are_made_of_the_primitive_ones() {
    let mut tape = Tape::new();
    let a = Value::new(&mut tape, 11);
    let b = Value::new(&mut tape, 22);
    let n = a.neg(&mut tape);
    assert_eq!(n.id, 3);
    assert_eq!(tape.get(2), Some(Node::Leaf(NEG_ONE)));
    assert_eq!(tape.get(3), Some(Node::Mul(0, 2)));
    let d = a.sub(&mut tape, b);
    assert_eq!(d.id, 6);
    assert_eq!(tape.get(4), Some(Node::Leaf(NEG_ONE)));
    assert_eq!(tape.get(5), Some(Node::Mul(1, 4)));
    assert_eq!(tape.get(6), Some(Node::Add(0, 5)));
    let q = a.div(&mut tape, b);
    assert_eq!(q.id, 8);
    assert_eq!(tape.get(7), Some(Node::Pow(1, NEG_ONE)));
    assert_eq!(tape.get(8), Some(Node::Mul(0, 7)));
    assert_eq!(tape.len(), 9);
}

#[test]
fn node_tells_its_operation_and_operands() {
    let nodes = [
        (Node::Leaf(5), Op::Leaf, None, None),
        (Node::Add(1, 2), Op::Add, Some(1), Some(2)),
        (Node::Mul(3, 4), Op::Mul, Some(3), Some(4)),
        (Node::Pow(5, 6), Op::Pow, Some(5), None),
        (Node::Tanh(7), Op::Tanh, Some(7), None),
        (Node::Exp(8), Op::Exp, Some(8), None),
    ];
    for (node, op, first, second) in nodes {
        assert_eq!(node.op(), op);
        assert_eq!(node.first_operand(), first);
        assert_eq!(node.second_operand(), second);
        let list: Vec<usize> = first.into_iter().chain(second).collect();
        assert_eq!(node.operand_list(), list);
    }
}

#[test]
fn ordering_of_a_single_leaf() {
    let mut tape = Tape::new();
    let _ = Value::new(&mut tape, 1);
    let a = Value::new(&mut tape, 2);
    assert_eq!(a.ordering(&tape), Ok(vec![1]));
    assert_eq!(backward_plan(&tape, a.id), Ok(vec![]));
}

#[test]
fn ordering_puts_every_node_before_its_operands() {
    let mut tape = Tape::new();
    let a = Value::new(&mut tape, 1);
    let b = Value::new(&mut tape, 2);
    let c = a.add(&mut tape, b);
    let y = c.mul(&mut tape, c);
    assert_eq!(y.ordering(&tape), Ok(vec![3, 2, 1, 0]));
    assert_eq!(c.ordering(&tape), Ok(vec![2, 1, 0]));
    assert_eq!(b.ordering(&tape), Ok(vec![1]));
}

#[test]
fn ordering_follows_the_walk_not_the_positions() {
    // out = (d * c) + c with d = exp(c): position order would be 4 3 2 1 0,
    // and the walk under the first operand comes last in the pass.
    let mut tape = Tape::new();
    let x = Value::new(&mut tape, 1);
    let z = Value::new(&mut tape, 2);
    let c = x.tanh(&mut tape);
    let d = z.exp(&mut tape);
    let out = d.add(&mut tape, c);
    assert_eq!(out.ordering(&tape), Ok(vec![4, 2, 0, 3, 1]));
}

#[test]
fn ordering_visits_shared_nodes_once() {
    let mut tape = Tape::new();
    let a = Value::new(&mut tape, 1);
    let b = a.mul(&mut tape, a);
    let c = b.mul(&mut tape, a);
    let d = c.add(&mut tape, b);
    let order = d.ordering(&tape).unwrap();
    assert_eq!(order, vec![3, 2, 1, 0]);
    let plan = backward_plan(&tape, d.id).unwrap();
    assert_eq!(
        plan,
        vec![
            push(3, 2, Slope::One),
            push(3, 1, Slope::One),
            push(2, 1, Slope::ValueOf(0)),
            push(2, 0, Slope::ValueOf(1)),
            push(1, 0, Slope::ValueOf(0)),
            push(1, 0, Slope::ValueOf(0)),
        ]
    );
}

#[test]
fn ordering_leaves_out_what_is_not_under_the_root() {
    let mut tape = Tape::new();
    let a = Value::new(&mut tape, 1);
    let b = Value::new(&mut tape, 2);
    let c = a.tanh(&mut tape);
    let _ = b.exp(&mut tape);
    let _ = c.add(&mut tape, b);
    assert_eq!(c.ordering(&tape), Ok(vec![2, 0]));
}

#[test]
fn each_operation_has_its_rule() {
    let mut tape = Tape::new();
    let a = Value::new(&mut tape, 1);
    let b = Value::new(&mut tape, 2);
    let s = a.add(&mut tape, b);
    let p = a.mul(&mut tape, b);
    let w = a.pow(&mut tape, 77);
    let t = a.tanh(&mut tape);
    let e = a.exp(&mut tape);
    assert_eq!(local_rule(&tape, a.id), vec![]);
    assert_eq!(local_rule(&tape, s.id), vec![push(2, 0, Slope::One), push(2, 1, Slope::One)]);
    assert_eq!(
        local_rule(&tape, p.id),
        vec![push(3, 0, Slope::ValueOf(1)), push(3, 1, Slope::ValueOf(0))]
    );
    assert_eq!(local_rule(&tape, w.id), vec![push(4, 0, Slope::Power(0, 77))]);
    assert_eq!(local_rule(&tape, t.id), vec![push(5, 0, Slope::OneMinusSquare(5))]);
    assert_eq!(local_rule(&tape, e.id), vec![push(6, 0, Slope::ValueOf(6))]);
    assert_eq!(local_rule(&tape, 99), vec![]);
}

#[test]
fn plan_of_the_diamond() {
    let mut tape = Tape::new();
    let a = Value::new(&mut tape, 1);
    let b = Value::new(&mut tape, 2);
    let c = a.add(&mut tape, b);
    let y = c.mul(&mut tape, c);
    let plan = backward_plan(&tape, y.id).unwrap();
    assert_eq!(
        plan,
        vec![
            push(3, 2, Slope::ValueOf(2)),
            push(3, 2, Slope::ValueOf(2)),
            push(2, 0, Slope::One),
            push(2, 1, Slope::One),
        ]
    );
}

#[test]
fn every_contribution_into_a_node_comes_before_those_out_of_it() {
    let mut tape = Tape::new();
    let a = Value::new(&mut tape, 1);
    let b = Value::new(&mut tape, 2);
    let c = a.add(&mut tape, b);
    let d = c.tanh(&mut tape);
    let e = d.mul(&mut tape, c);
    let f = e.add(&mut tape, a);
    let g = f.mul(&mut tape, d);
    let plan = backward_plan(&tape, g.id).unwrap();
    for (i, into) in plan.iter().enumerate() {
        for (j, out) in plan.iter().enumerate() {
            if into.to == out.from {
                assert!(i < j);
            }
        }
    }
    let order = g.ordering(&tape).unwrap();
    assert_eq!(order[0], g.id);
    let mut sorted = order.clone();
    sorted.sort();
    sorted.dedup();
    assert_eq!(sorted.len(), order.len());
}

#[test]
fn collect_lists_rules_node_after_node() {
    let mut tape = Tape::new();
    let a = Value::new(&mut tape, 1);
    let t = a.tanh(&mut tape);
    let e = a.exp(&mut tape);
    let plan = collect(&tape, &vec![e.id, t.id, a.id, e.id]);
    assert_eq!(
        plan,
        vec![
            push(2, 0, Slope::ValueOf(2)),
            push(1, 0, Slope::OneMinusSquare(1)),
            push(2, 0, Slope::ValueOf(2)),
        ]
    );
}

#[test]
fn long_chain_is_walked_without_running_out_of_stack() {
    let mut tape = Tape::new();
    let mut v = Value::new(&mut tape, 1);
    let depth = 400_000;
    for _ in 0..depth {
        v = v.tanh(&mut tape);
    }
    let order = v.ordering(&tape).unwrap();
    assert_eq!(order.len(), depth + 1);
    assert!(order.iter().enumerate().all(|(i, n)| *n == depth - i));
    let plan = backward_plan(&tape, v.id).unwrap();
    assert_eq!(plan.len(), depth);
    assert_eq!(plan[0], push(depth, depth - 1, Slope::OneMinusSquare(depth)));
    assert_eq!(plan[depth - 1], push(1, 0, Slope::OneMinusSquare(1)));
}

#[test]
fn ladder_of_shared_nodes_is_walked_once_each() {
    // every node is both operands of the next: the ways from the root to
    // the leaf double with each rung
    let mut tape = Tape::new();
    let mut v = Value::new(&mut tape, 1);
    let rungs = 100_000;
    for _ in 0..rungs {
        v = v.add(&mut tape, v);
    }
    let order = v.ordering(&tape).unwrap();
    assert_eq!(order.len(), rungs + 1);
    assert!(order.iter().enumerate().all(|(i, n)| *n == rungs - i));
    let plan = backward_plan(&tape, v.id).unwrap();
    assert_eq!(plan.len(), 2 * rungs);
    assert_eq!(plan[2 * rungs - 1], push(1, 0, Slope::One));
}

#[test]
fn unknown_root_is_refused() {
    let mut tape = Tape::new();
    assert_eq!(backward_plan(&tape, 0), Err(StructuralError::UnknownRoot));
    let a = Value::new(&mut tape, 1);
    assert_eq!(backward_plan(&tape, 1), Err(StructuralError::UnknownRoot));
    assert_eq!(Value { id: 1 }.ordering(&tape), Err(StructuralError::UnknownRoot));
    assert_eq!(Value { id: usize::MAX }.ordering(&tape), Err(StructuralError::UnknownRoot));
    assert!(backward_plan(&tape, a.id).is_ok());
}

#[test]
fn node_that_names_itself_is_refused() {
    let tape = Tape::from_nodes(vec![Node::Leaf(1), Node::Tanh(1)]);
    assert_eq!(backward_plan(&tape, 1), Err(StructuralError::ForwardReference));
    assert_eq!(Value { id: 1 }.ordering(&tape), Err(StructuralError::ForwardReference));
    assert!(backward_plan(&tape, 0).is_ok());
    assert!(!tape.is_ordered());
}

#[test]
fn cycle_of_two_is_refused() {
    let tape = Tape::from_nodes(vec![
        Node::Leaf(1),
        Node::Add(0, 2),
        Node::Mul(1, 0),
        Node::Exp(2),
        Node::Tanh(0),
    ]);
    assert_eq!(backward_plan(&tape, 3), Err(StructuralError::ForwardReference));
    assert_eq!(backward_plan(&tape, 2), Err(StructuralError::ForwardReference));
    assert_eq!(backward_plan(&tape, 1), Err(StructuralError::ForwardReference));
    // the cycle is not under this root
    assert_eq!(Value { id: 4 }.ordering(&tape), Ok(vec![4, 0]));
}

#[test]
fn missing_operand_is_refused() {
    let tape = Tape::from_nodes(vec![Node::Leaf(1), Node::Add(0, 7)]);
    assert_eq!(backward_plan(&tape, 1), Err(StructuralError::ForwardReference));
    let mut tape = Tape::new();
    let a = Value::new(&mut tape, 1);
    let stray = Value { id: 40 };
    let s = a.mul(&mut tape, stray);
    assert_eq!(backward_plan(&tape, s.id), Err(StructuralError::ForwardReference));
    assert!(!tape.is_ordered());
}

#[test]
fn fault_in_the_second_operand_is_found() {
    let tape = Tape::from_nodes(vec![Node::Leaf(1), Node::Exp(1), Node::Add(0, 1)]);
    assert_eq!(backward_plan(&tape, 2), Err(StructuralError::ForwardReference));
}

#[test]
fn errors_say_what_is_wrong() {
    assert_eq!(StructuralError::UnknownRoot.message(), "the root is not a node of the tape");
    assert_eq!(
        StructuralError::ForwardReference.message(),
        "a node names an operand that was not recorded before it"
    );
    assert_eq!(StructuralError::Unvalued.message(), "the root has no forward value yet");
}

#[test]
fn growing_the_tape_keeps_earlier_passes() {
    let mut tape = Tape::new();
    let a = Value::new(&mut tape, 1);
    let b = Value::new(&mut tape, 2);
    let c = a.add(&mut tape, b);
    let before = backward_plan(&tape, c.id).unwrap();
    let d = c.mul(&mut tape, a);
    let _ = d.tanh(&mut tape);
    assert_eq!(backward_plan(&tape, c.id).unwrap(), before);
}

#[test]
fn draws_hand_out_in_order() {
    let mut draws = Draws::new(vec![5, 6, 7]);
    assert_eq!(draws.remaining(), 3);
    assert_eq!(draws.take(), Some(5));
    assert_eq!(draws.take(), Some(6));
    assert_eq!(draws.remaining(), 1);
    assert_eq!(draws.take(), Some(7));
    assert_eq!(draws.take(), None);
    assert_eq!(draws.remaining(), 0);
}

#[test]
fn neuron_takes_weights_then_bias() {
    let mut tape = Tape::new();
    let _ = Value::new(&mut tape, 99);
    let mut draws = Draws::new(vec![10, 20, 30, 40]);
    let neuron = Neuron::new(&mut tape, 2, &mut draws).unwrap();
    assert_eq!(neuron.w, vec![Value { id: 1 }, Value { id: 2 }]);
    assert_eq!(neuron.b, Value { id: 3 });
    assert_eq!(tape.get(1), Some(Node::Leaf(10)));
    assert_eq!(tape.get(2), Some(Node::Leaf(20)));
    assert_eq!(tape.get(3), Some(Node::Leaf(30)));
    assert_eq!(tape.len(), 4);
    assert_eq!(draws.remaining(), 1);
    assert_eq!(draws.take(), Some(40));
}

#[test]
fn neuron_without_enough_draws_changes_nothing() {
    let mut tape = Tape::new();
    let mut draws = Draws::new(vec![10, 20]);
    assert!(Neuron::new(&mut tape, 2, &mut draws).is_none());
    assert!(Neuron::new(&mut tape, usize::MAX, &mut draws).is_none());
    assert_eq!(tape.len(), 0);
    assert_eq!(draws.remaining(), 2);
    let neuron = Neuron::new(&mut tape, 1, &mut draws).unwrap();
    assert_eq!(neuron.w.len(), 1);
    assert_eq!(draws.remaining(), 0);
    let mut none = Draws::new(vec![]);
    assert!(Neuron::new(&mut tape, 0, &mut none).is_none());
}

#[test]
fn neuron_forward_records_weighted_sum() {
    let mut tape = Tape::new();
    let mut draws = Draws::new(vec![10, 20, 30]);
    let neuron = Neuron::new(&mut tape, 2, &mut draws).unwrap();
    let out = neuron.forward(&mut tape, &[100, 200]);
    assert_eq!(out.id, 9);
    assert_eq!(tape.len(), 10);
    assert_eq!(tape.get(3), Some(Node::Leaf(100)));
    assert_eq!(tape.get(4), Some(Node::Mul(0, 3)));
    assert_eq!(tape.get(5), Some(Node::Add(2, 4)));
    assert_eq!(tape.get(6), Some(Node::Leaf(200)));
    assert_eq!(tape.get(7), Some(Node::Mul(1, 6)));
    assert_eq!(tape.get(8), Some(Node::Add(5, 7)));
    assert_eq!(tape.get(9), Some(Node::Tanh(8)));
    assert!(tape.is_ordered());
    assert!(backward_plan(&tape, out.id).is_ok());
}

#[test]
fn neuron_forward_pairs_weights_and_inputs() {
    let mut tape = Tape::new();
    let mut draws = Draws::new(vec![10, 20, 30]);
    let neuron = Neuron::new(&mut tape, 2, &mut draws).unwrap();
    let short = neuron.forward(&mut tape, &[100]);
    assert_eq!(short.id, 6);
    assert_eq!(tape.get(6), Some(Node::Tanh(5)));
    let long = neuron.forward(&mut tape, &[100, 200, 300]);
    assert_eq!(long.id, 13);
    let none = neuron.forward(&mut tape, &[]);
    assert_eq!(none.id, 14);
    assert_eq!(tape.get(14), Some(Node::Tanh(2)));
}

#[test]
fn layer_counts_its_scalars() {
    assert_eq!(Layer::parameter_count(2, 3), Some(9));
    assert_eq!(Layer::parameter_count(0, 4), Some(4));
    assert_eq!(Layer::parameter_count(7, 0), Some(0));
    assert_eq!(Layer::parameter_count(usize::MAX, 0), Some(0));
    assert_eq!(Layer::parameter_count(usize::MAX, 1), None);
    assert_eq!(Layer::parameter_count(usize::MAX / 2, 2), None);
    assert_eq!(Layer::parameter_count(usize::MAX / 2 - 1, 2), Some(usize::MAX - 1));
}

#[test]
fn layer_records_its_neurons_one_after_the_other() {
    let mut tape = Tape::new();
    let mut draws = Draws::new(vec![1, 2, 3, 4, 5, 6, 7]);
    let layer = Layer::new(&mut tape, 2, 2, &mut draws).unwrap();
    assert_eq!(layer.neurons.len(), 2);
    assert_eq!(layer.neurons[0].w, vec![Value { id: 0 }, Value { id: 1 }]);
    assert_eq!(layer.neurons[0].b, Value { id: 2 });
    assert_eq!(layer.neurons[1].w, vec![Value { id: 3 }, Value { id: 4 }]);
    assert_eq!(layer.neurons[1].b, Value { id: 5 });
    for i in 0..6 {
        assert_eq!(tape.get(i), Some(Node::Leaf(i as u32 + 1)));
    }
    assert_eq!(tape.len(), 6);
    assert_eq!(draws.remaining(), 1);
    let mut few = Draws::new(vec![1, 2, 3, 4, 5]);
    assert!(Layer::new(&mut tape, 2, 2, &mut few).is_none());
    assert_eq!(tape.len(), 6);
    assert_eq!(few.remaining(), 5);
    let empty = Layer::new(&mut tape, 2, 0, &mut few).unwrap();
    assert!(empty.neurons.is_empty());
}

#[test]
fn layer_forward_gives_one_output_for_each_neuron() {
    let mut tape = Tape::new();
    let mut draws = Draws::new(vec![1, 2, 3, 4]);
    let layer = Layer::new(&mut tape, 1, 2, &mut draws).unwrap();
    let outs = layer.forward(&mut tape, &[50]);
    assert_eq!(outs, vec![Value { id: 7 }, Value { id: 11 }]);
    assert_eq!(tape.get(4), Some(Node::Leaf(50)));
    assert_eq!(tape.get(5), Some(Node::Mul(0, 4)));
    assert_eq!(tape.get(6), Some(Node::Add(1, 5)));
    assert_eq!(tape.get(7), Some(Node::Tanh(6)));
    assert_eq!(tape.get(8), Some(Node::Leaf(50)));
    assert_eq!(tape.get(9), Some(Node::Mul(2, 8)));
    assert_eq!(tape.get(10), Some(Node::Add(3, 9)));
    assert_eq!(tape.get(11), Some(Node::Tanh(10)));
    assert_eq!(tape.len(), 12);
}

#[test]
fn network_chains_outputs_to_inputs() {
    assert_eq!(MLP::parameter_count(3, &[4, 4, 1]), Some(16 + 20 + 5));
    assert_eq!(MLP::parameter_count(3, &[]), Some(0));
    assert_eq!(MLP::parameter_count(usize::MAX, &[1]), None);
    assert_eq!(MLP::parameter_count(1, &[usize::MAX / 2, 2]), None);
    let mut tape = Tape::new();
    let mut draws = Draws::new((0..41).collect());
    let net = MLP::new(&mut tape, 3, &[4, 4, 1], &mut draws).unwrap();
    assert_eq!(net.layers.len(), 3);
    assert_eq!(net.layers[0].neurons.len(), 4);
    assert_eq!(net.layers[1].neurons.len(), 4);
    assert_eq!(net.layers[2].neurons.len(), 1);
    assert_eq!(net.layers[0].neurons[0].w.len(), 3);
    assert_eq!(net.layers[1].neurons[0].w.len(), 4);
    assert_eq!(net.layers[2].neurons[0].w.len(), 4);
    assert_eq!(net.layers[1].neurons[1].w[0], Value { id: 16 + 5 });
    assert_eq!(net.layers[2].neurons[0].b, Value { id: 40 });
    assert_eq!(tape.len(), 41);
    assert_eq!(tape.get(40), Some(Node::Leaf(40)));
    assert_eq!(draws.remaining(), 0);
    let mut few = Draws::new((0..40).collect());
    assert!(MLP::new(&mut tape, 3, &[4, 4, 1], &mut few).is_none());
    assert_eq!(tape.len(), 41);
    assert_eq!(few.remaining(), 40);
}
