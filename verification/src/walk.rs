use vstd::prelude::*;
use crate::node::Node;
use crate::order::post;
use crate::postorder::{clean, lemma_parts};
use crate::tape::{placed, Tape};

verus! {

/// The positions at which `flags` holds `true`.
spec fn marked(flags: Seq<bool>) -> Set<usize> {
    Set::new(|i: usize| i < flags.len() && flags[i as int])
}

/// What the walk still has to do for a node: to walk under it, or, once
/// that is done, to list it.
#[derive(Clone, Copy)]
enum Frame {
    Enter(usize),
    Leave(usize),
}

impl Frame {
    spec fn node(self) -> usize {
        match self {
            Frame::Enter(n) => n,
            Frame::Leave(n) => n,
        }
    }

    /// The nodes that the frame will list, given the nodes `seen` so far.
    spec fn part(self, nodes: Seq<Node>, seen: Set<usize>) -> Seq<usize> {
        match self {
            Frame::Enter(n) => post(nodes, n, seen),
            Frame::Leave(n) => seq![n],
        }
    }

    /// The frame will meet no node that names a node recorded at or after itself.
    spec fn part_clean(self, nodes: Seq<Node>, seen: Set<usize>) -> bool {
        match self {
            Frame::Enter(n) => clean(nodes, n, seen),
            Frame::Leave(_) => true,
        }
    }

    /// The number of steps that the frame will take.
    spec fn part_effort(self, nodes: Seq<Node>, seen: Set<usize>) -> nat {
        match self {
            Frame::Enter(n) => effort(nodes, n, seen),
            Frame::Leave(_) => 1,
        }
    }
}

/// The nodes first met under the first operand of `n`.
spec fn under_first(nodes: Seq<Node>, n: usize, seen: Set<usize>) -> Seq<usize> {
    match nodes[n as int].first() {
        Some(a) if a < n => post(nodes, a, seen),
        _ => Seq::empty(),
    }
}

/// The nodes first met under the second operand of `n`, after those under the first.
spec fn under_second(nodes: Seq<Node>, n: usize, seen: Set<usize>) -> Seq<usize> {
    match nodes[n as int].second() {
        Some(b) if b < n => post(nodes, b, seen.union(under_first(nodes, n, seen).to_set())),
        _ => Seq::empty(),
    }
}

/// The number of steps that the walk under `n` takes.
spec fn effort(nodes: Seq<Node>, n: usize, seen: Set<usize>) -> nat
    decreases n,
{
    if n >= nodes.len() || seen.contains(n) {
        1
    } else {
        let first: nat = match nodes[n as int].first() {
            Some(a) if a < n => effort(nodes, a, seen),
            _ => 0,
        };
        let second: nat = match nodes[n as int].second() {
            Some(b) if b < n => effort(
                nodes,
                b,
                seen.union(under_first(nodes, n, seen).to_set()),
            ),
            _ => 0,
        };
        2 + first + second
    }
}

/// The nodes that the frames of `stack` will list, the last frame first.
spec fn pending(nodes: Seq<Node>, stack: Seq<Frame>, seen: Set<usize>) -> Seq<usize>
    decreases stack.len(),
{
    if stack.len() == 0 {
        Seq::empty()
    } else {
        let p = stack.last().part(nodes, seen);
        p + pending(nodes, stack.drop_last(), seen.union(p.to_set()))
    }
}

/// The frames of `stack` will meet no node that names a node recorded at or
/// after itself.
spec fn pending_clean(nodes: Seq<Node>, stack: Seq<Frame>, seen: Set<usize>) -> bool
    decreases stack.len(),
{
    if stack.len() == 0 {
        true
    } else {
        let p = stack.last().part(nodes, seen);
        stack.last().part_clean(nodes, seen) && pending_clean(
            nodes,
            stack.drop_last(),
            seen.union(p.to_set()),
        )
    }
}

/// The number of steps that the frames of `stack` will take.
spec fn pending_effort(nodes: Seq<Node>, stack: Seq<Frame>, seen: Set<usize>) -> nat
    decreases stack.len(),
{
    if stack.len() == 0 {
        0
    } else {
        let p = stack.last().part(nodes, seen);
        stack.last().part_effort(nodes, seen) + pending_effort(
            nodes,
            stack.drop_last(),
            seen.union(p.to_set()),
        )
    }
}

/// What a stack is to do is what its last frame is to do, and then the rest.
proof fn lemma_top(nodes: Seq<Node>, rest: Seq<Frame>, f: Frame, seen: Set<usize>)
    ensures
        pending(nodes, rest.push(f), seen) == f.part(nodes, seen) + pending(
            nodes,
            rest,
            seen.union(f.part(nodes, seen).to_set()),
        ),
        pending_clean(nodes, rest.push(f), seen) == (f.part_clean(nodes, seen) && pending_clean(
            nodes,
            rest,
            seen.union(f.part(nodes, seen).to_set()),
        )),
        pending_effort(nodes, rest.push(f), seen) == f.part_effort(nodes, seen) + pending_effort(
            nodes,
            rest,
            seen.union(f.part(nodes, seen).to_set()),
        ),
{
    let stack = rest.push(f);
    assert(stack.last() == f);
    assert(stack.drop_last() =~= rest);
}

/// To walk under an unseen, well-placed node is to walk under its first
/// operand, then under its second, and then to list the node.
proof fn lemma_enter(nodes: Seq<Node>, rest: Seq<Frame>, n: usize, seen: Set<usize>)
    requires
        placed(nodes, n),
        !seen.contains(n),
    ensures
        ({
            let opened = rest.push(Frame::Leave(n));
            let opened = match nodes[n as int].second() {
                Some(b) => opened.push(Frame::Enter(b)),
                None => opened,
            };
            let opened = match nodes[n as int].first() {
                Some(a) => opened.push(Frame::Enter(a)),
                None => opened,
            };
            let entered = rest.push(Frame::Enter(n));
            &&& pending(nodes, opened, seen) == pending(nodes, entered, seen)
            &&& pending_clean(nodes, opened, seen) == pending_clean(nodes, entered, seen)
            &&& pending_effort(nodes, opened, seen) + 1 == pending_effort(nodes, entered, seen)
        }),
{
    let node = nodes[n as int];
    let l = under_first(nodes, n, seen);
    let seen1 = seen.union(l.to_set());
    let r = under_second(nodes, n, seen);
    let seen2 = seen1.union(r.to_set());
    let seen3 = seen2.union(seq![n].to_set());
    let p = post(nodes, n, seen);
    assert(p == (l + r).push(n));
    assert forall|m: usize| seen3.contains(m) <==> seen.union(p.to_set()).contains(m) by {
        lemma_parts(l, r, n, m);
        assert(seq![n][0] == n);
    }
    assert(seen3 =~= seen.union(p.to_set()));
    let tail = pending(nodes, rest, seen3);
    lemma_top(nodes, rest, Frame::Enter(n), seen);
    let leave = rest.push(Frame::Leave(n));
    lemma_top(nodes, rest, Frame::Leave(n), seen2);
    assert(pending(nodes, leave, seen2) == seq![n] + tail);
    let with_second = match node.second() {
        Some(b) => leave.push(Frame::Enter(b)),
        None => leave,
    };
    match node.second() {
        Some(b) => {
            lemma_top(nodes, leave, Frame::Enter(b), seen1);
        },
        None => {
            assert(seen2 =~= seen1);
        },
    }
    assert(pending(nodes, with_second, seen1) =~= r + (seq![n] + tail));
    let with_first = match node.first() {
        Some(a) => with_second.push(Frame::Enter(a)),
        None => with_second,
    };
    match node.first() {
        Some(a) => {
            lemma_top(nodes, with_second, Frame::Enter(a), seen);
        },
        None => {
            assert(seen1 =~= seen);
        },
    }
    assert(pending(nodes, with_first, seen) =~= l + (r + (seq![n] + tail)));
    assert(p + tail =~= l + (r + (seq![n] + tail)));
}

/// The nodes under `root` in the order of a depth-first walk, operands
/// first, each once; nothing where the walk meets a node that names a node
/// recorded at or after itself. The walk keeps its own stack, so that the
/// depth of the tape does not matter.
pub(crate) fn post_order(tape: &Tape, root: usize) -> (r: Option<Vec<usize>>)
    requires
        root < tape@.len(),
    ensures
        match r {
            Some(out) => clean(tape@, root, Set::empty()) && out@ == post(
                tape@,
                root,
                Set::empty(),
            ),
            None => !clean(tape@, root, Set::empty()),
        },
{
    let len = tape.len();
    let mut seen: Vec<bool> = Vec::new();
    while seen.len() < len
        invariant
            len == tape@.len(),
            seen@.len() <= len,
            forall|i: int| 0 <= i < seen@.len() ==> !seen@[i],
        decreases len - seen@.len(),
    {
        seen.push(false);
    }
    let mut out: Vec<usize> = Vec::new();
    let mut stack: Vec<Frame> = Vec::new();
    stack.push(Frame::Enter(root));
    proof {
        let none = Set::<usize>::empty();
        assert(marked(seen@) =~= none);
        lemma_top(tape@, Seq::empty(), Frame::Enter(root), none);
        assert(stack@ =~= Seq::<Frame>::empty().push(Frame::Enter(root)));
        assert(out@ + pending(tape@, stack@, none) =~= post(tape@, root, none));
    }
    while stack.len() > 0
        invariant
            len == tape@.len(),
            seen@.len() == len,
            forall|i: int| 0 <= i < stack@.len() ==> (#[trigger] stack@[i]).node() < len,
            out@ + pending(tape@, stack@, marked(seen@)) == post(tape@, root, Set::empty()),
            pending_clean(tape@, stack@, marked(seen@)) == clean(tape@, root, Set::empty()),
        decreases pending_effort(tape@, stack@, marked(seen@)),
    {
        let ghost before = stack@;
        let ghost seen0 = marked(seen@);
        let ghost flags = seen@;
        let frame = stack.pop().unwrap();
        let ghost rest = stack@;
        proof {
            assert(before =~= rest.push(frame));
            assert(before[before.len() - 1].node() < len);
            lemma_top(tape@, rest, frame, seen0);
        }
        match frame {
            Frame::Enter(n) => {
                if seen[n] {
                    proof {
                        assert(seen0.contains(n));
                        assert(seen0.union(post(tape@, n, seen0).to_set()) =~= seen0);
                    }
                } else {
                    assert(!seen0.contains(n));
                    let node = tape.node(n);
                    let first = node.first_operand();
                    let second = node.second_operand();
                    let fits = match first {
                        Some(a) => a < n,
                        None => true,
                    } && match second {
                        Some(b) => b < n,
                        None => true,
                    };
                    if !fits {
                        assert(!placed(tape@, n));
                        return None;
                    }
                    proof {
                        lemma_enter(tape@, rest, n, seen0);
                    }
                    stack.push(Frame::Leave(n));
                    match second {
                        Some(b) => {
                            stack.push(Frame::Enter(b));
                        },
                        None => {},
                    }
                    match first {
                        Some(a) => {
                            stack.push(Frame::Enter(a));
                        },
                        None => {},
                    }
                }
            },
            Frame::Leave(n) => {
                seen.set(n, true);
                out.push(n);
                proof {
                    assert(seq![n][0] == n);
                    assert(marked(seen@) =~= seen0.union(seq![n].to_set())) by {
                        assert forall|m: usize|
                            marked(seen@).contains(m) <==> seen0.union(
                                seq![n].to_set(),
                            ).contains(m) by {
                            assert(marked(seen@).contains(m) <==> (marked(flags).contains(m) || m
                                == n));
                            if seq![n].contains(m) {
                                let i = choose|i: int| 0 <= i < seq![n].len() && seq![n][i] == m;
                            }
                        }
                    }
                    assert(out@ + pending(tape@, rest, marked(seen@)) =~= post(
                        tape@,
                        root,
                        Set::empty(),
                    ));
                }
            },
        }
    }
    Some(out)
}

} // verus!
