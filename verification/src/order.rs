use vstd::prelude::*;
use crate::error::StructuralError;
use crate::node::Node;
use crate::postorder::{earlier, kept, lemma_clean_is_sound, lemma_post_walked, walked};
use crate::tape::{ordered, placed, Tape};
use crate::walk::post_order;

verus! {

/// Node `m` is reached from node `n` by following operands, each of them
/// recorded before the node that names it.
pub open spec fn reaches(nodes: Seq<Node>, n: usize, m: usize) -> bool
    decreases n,
{
    n == m || (n < nodes.len() && {
        ||| (nodes[n as int].first() matches Some(a) && a < n && reaches(nodes, a, m))
        ||| (nodes[n as int].second() matches Some(b) && b < n && reaches(nodes, b, m))
    })
}

/// Every node reached from `n` names only nodes recorded before it.
pub open spec fn sound_under(nodes: Seq<Node>, n: usize) -> bool {
    forall|m: usize| reaches(nodes, n, m) ==> placed(nodes, m)
}

/// The part of the tape under `root` is well built: `root` exists, and every
/// node reached from it names only nodes recorded before it.
pub open spec fn sound_from(nodes: Seq<Node>, root: usize) -> bool {
    root < nodes.len() && sound_under(nodes, root)
}

/// Why a walk from `root` is refused, if it is: `root` is no node of the
/// tape, or the part of the tape under it is not well built.
pub open spec fn refusal(nodes: Seq<Node>, root: usize) -> Option<StructuralError> {
    if root >= nodes.len() {
        Some(StructuralError::UnknownRoot)
    } else if !sound_from(nodes, root) {
        Some(StructuralError::ForwardReference)
    } else {
        None
    }
}

/// `c` stands in `p` after position `i`.
pub open spec fn later(p: Seq<usize>, i: int, c: usize) -> bool {
    exists|j: int| i < j < p.len() && p[j] == c
}

/// `order` lists the nodes reached from `root`, each once, `root` first and
/// every node before each of its operands.
pub open spec fn consumers_first(nodes: Seq<Node>, root: usize, order: Seq<usize>) -> bool {
    &&& order.len() > 0 && order[0] == root
    &&& order.no_duplicates()
    &&& forall|m: usize| order.contains(m) <==> reaches(nodes, root, m)
    &&& forall|i: int| 0 <= i < order.len() ==> placed(nodes, #[trigger] order[i])
    &&& forall|i: int, c: usize|
        0 <= i < order.len() && order[i] < nodes.len() && #[trigger] nodes[order[i] as int].uses(c)
            ==> later(order, i, c)
}

/// The nodes that a depth-first walk from `n` meets for the first time, given
/// the set `seen` of nodes met before: first those under the first operand,
/// then those under the second, then `n` itself.
pub open spec fn post(nodes: Seq<Node>, n: usize, seen: Set<usize>) -> Seq<usize>
    decreases n,
{
    if n >= nodes.len() || seen.contains(n) {
        Seq::empty()
    } else {
        let l = match nodes[n as int].first() {
            Some(a) if a < n => post(nodes, a, seen),
            _ => Seq::empty(),
        };
        let r = match nodes[n as int].second() {
            Some(b) if b < n => post(nodes, b, seen.union(l.to_set())),
            _ => Seq::empty(),
        };
        (l + r).push(n)
    }
}

/// The order of a backward pass from `root`: the depth-first post-order,
/// reversed, so that `root` comes first and every node before its operands.
pub open spec fn sweep(nodes: Seq<Node>, root: usize) -> Seq<usize> {
    post(nodes, root, Set::empty()).reverse()
}

/// The order of a backward pass from `root`: every node reached from it,
/// each once, `root` first and every node before its operands.
pub fn sweep_order(tape: &Tape, root: usize) -> (r: Result<Vec<usize>, StructuralError>)
    ensures
        match r {
            Ok(order) => {
                &&& refusal(tape@, root) is None
                &&& order@ == sweep(tape@, root)
                &&& consumers_first(tape@, root, order@)
            },
            Err(e) => refusal(tape@, root) == Some(e),
        },
{
    if root >= tape.len() {
        return Err(StructuralError::UnknownRoot);
    }
    proof {
        lemma_clean_is_sound(tape@, root, Set::empty());
    }
    let out = match post_order(tape, root) {
        Some(out) => out,
        None => {
            return Err(StructuralError::ForwardReference);
        },
    };
    let mut order: Vec<usize> = Vec::new();
    let mut k: usize = out.len();
    while k > 0
        invariant
            k <= out@.len(),
            order@.len() == out@.len() - k,
            forall|i: int| 0 <= i < order@.len() ==> order@[i] == out@[out@.len() - 1 - i],
        decreases k,
    {
        k -= 1;
        order.push(out[k]);
    }
    proof {
        assert(order@ =~= out@.reverse());
        lemma_sweep_consumers_first(tape@, root);
    }
    Ok(order)
}

/// On a well-built part of a tape the order of the backward pass lists the
/// nodes reached from the root, each once, the root first and every node
/// before each of its operands.
pub proof fn lemma_sweep_consumers_first(nodes: Seq<Node>, root: usize)
    requires
        sound_from(nodes, root),
    ensures
        consumers_first(nodes, root, sweep(nodes, root)),
{
    let none = Set::<usize>::empty();
    let p = post(nodes, root, none);
    let o = sweep(nodes, root);
    lemma_clean_is_sound(nodes, root, none);
    lemma_post_walked(nodes, root, none);
    assert(walked(nodes, root, none, p));
    assert(o.len() == p.len());
    assert(forall|i: int| 0 <= i < o.len() ==> o[i] == p[p.len() - 1 - i]);
    assert(o[0] == root);
    assert forall|m: usize| o.contains(m) <==> p.contains(m) by {
        if o.contains(m) {
            let i = choose|i: int| 0 <= i < o.len() && o[i] == m;
            assert(p[p.len() - 1 - i] == m);
        }
        if p.contains(m) {
            let i = choose|i: int| 0 <= i < p.len() && p[i] == m;
            assert(o[p.len() - 1 - i] == m);
        }
    }
    assert forall|i: int| 0 <= i < o.len() implies placed(nodes, #[trigger] o[i]) by {
        assert(p.contains(p[p.len() - 1 - i]));
        assert(kept(nodes, none.union(p.to_set()), o[i]));
    }
    assert forall|i: int, c: usize|
        0 <= i < o.len() && o[i] < nodes.len() && #[trigger] nodes[o[i] as int].uses(
            c,
        ) implies later(o, i, c) by {
        let k = p.len() - 1 - i;
        assert(nodes[p[k] as int].uses(c));
        assert(earlier(p, k, c));
        let j = choose|j: int| 0 <= j < k && p[j] == c;
        assert(o[p.len() - 1 - j] == c);
    }
}

/// A node reaches only itself and nodes recorded before it.
pub proof fn lemma_reaches_below(nodes: Seq<Node>, n: usize, m: usize)
    requires
        reaches(nodes, n, m),
    ensures
        m <= n,
    decreases n,
{
    if n != m {
        match nodes[n as int].first() {
            Some(a) => {
                if a < n && reaches(nodes, a, m) {
                    lemma_reaches_below(nodes, a, m);
                }
            },
            None => {},
        }
        match nodes[n as int].second() {
            Some(b) => {
                if b < n && reaches(nodes, b, m) {
                    lemma_reaches_below(nodes, b, m);
                }
            },
            None => {},
        }
    }
}

/// On a tape whose every node names only nodes recorded before it, the part
/// under any of its nodes is well built: a backward pass from it is not
/// refused.
pub proof fn lemma_ordered_is_sound(nodes: Seq<Node>, root: usize)
    requires
        ordered(nodes),
        root < nodes.len(),
    ensures
        sound_from(nodes, root),
{
    assert forall|m: usize| reaches(nodes, root, m) implies placed(nodes, m) by {
        lemma_reaches_below(nodes, root, m);
    }
}

/// What is reached from a node reaches in turn the operands it names among
/// the nodes recorded before it.
pub proof fn lemma_reaches_operand(nodes: Seq<Node>, n: usize, x: usize, c: usize)
    requires
        reaches(nodes, n, x),
        x < nodes.len(),
        nodes[x as int].uses(c),
        c < x,
    ensures
        reaches(nodes, n, c),
    decreases n,
{
    if n == x {
        assert(reaches(nodes, c, c));
    } else {
        match nodes[n as int].first() {
            Some(a) => {
                if a < n && reaches(nodes, a, x) {
                    lemma_reaches_operand(nodes, a, x, c);
                }
            },
            None => {},
        }
        match nodes[n as int].second() {
            Some(b) => {
                if b < n && reaches(nodes, b, x) {
                    lemma_reaches_operand(nodes, b, x, c);
                }
            },
            None => {},
        }
    }
}

/// `path` follows operands: each of its nodes but the last is on the tape and
/// names the next as an operand.
pub open spec fn trail(nodes: Seq<Node>, path: Seq<usize>) -> bool {
    forall|i: int|
        0 <= i < path.len() - 1 ==> (#[trigger] path[i]) < nodes.len() && nodes[path[i] as int].uses(
            path[i + 1],
        )
}

/// Along operands from the root of a well-built part of a tape, every node
/// met is reached from the root and was recorded before the one that names it.
pub proof fn lemma_trail_descends(nodes: Seq<Node>, root: usize, path: Seq<usize>, i: int)
    requires
        sound_from(nodes, root),
        trail(nodes, path),
        path.len() > 0,
        path[0] == root,
        0 <= i < path.len(),
    ensures
        reaches(nodes, root, path[i]),
        forall|j: int| 0 <= j < i ==> path[i] < #[trigger] path[j],
    decreases i,
{
    if i > 0 {
        lemma_trail_descends(nodes, root, path, i - 1);
        let x = path[i - 1];
        assert(placed(nodes, x));
        assert(nodes[x as int].uses(path[i - 1 + 1]));
        lemma_reaches_operand(nodes, root, x, path[i]);
    }
}

/// A part of a tape in which some way along operands from the root meets a
/// node twice, that is, one that holds a cycle, is not well built: a backward
/// pass from that root is refused.
pub proof fn lemma_cycle_is_refused(
    nodes: Seq<Node>,
    root: usize,
    path: Seq<usize>,
    i: int,
    j: int,
)
    requires
        trail(nodes, path),
        path.len() > 0,
        path[0] == root,
        0 <= i < j < path.len(),
        path[i] == path[j],
    ensures
        !sound_from(nodes, root),
{
    if sound_from(nodes, root) {
        lemma_trail_descends(nodes, root, path, j);
        assert(path[j] < path[i]);
    }
}

} // verus!
