use vstd::prelude::*;
use crate::node::Node;
use crate::order::{post, reaches, sound_under};
use crate::tape::placed;

verus! {

/// The walk from `n` meets no node that names a node recorded at or after
/// itself, given the set `seen` of nodes met before.
pub open spec fn clean(nodes: Seq<Node>, n: usize, seen: Set<usize>) -> bool
    decreases n,
{
    if n >= nodes.len() {
        false
    } else if seen.contains(n) {
        true
    } else if !placed(nodes, n) {
        false
    } else {
        let l = match nodes[n as int].first() {
            Some(a) if a < n => post(nodes, a, seen),
            _ => Seq::empty(),
        };
        &&& nodes[n as int].first() matches Some(a) ==> a < n && clean(nodes, a, seen)
        &&& nodes[n as int].second() matches Some(b) ==> b < n && clean(
            nodes,
            b,
            seen.union(l.to_set()),
        )
    }
}

/// Node `m` is well placed and `seen` holds its operands.
pub open spec fn kept(nodes: Seq<Node>, seen: Set<usize>, m: usize) -> bool {
    &&& placed(nodes, m)
    &&& nodes[m as int].first() matches Some(a) ==> seen.contains(a)
    &&& nodes[m as int].second() matches Some(b) ==> seen.contains(b)
}

/// `seen` holds well-placed nodes only, and with each node its operands.
pub open spec fn closed(nodes: Seq<Node>, seen: Set<usize>) -> bool {
    forall|m: usize| seen.contains(m) ==> #[trigger] kept(nodes, seen, m)
}

/// `c` stands in `p` before position `i`.
pub open spec fn earlier(p: Seq<usize>, i: int, c: usize) -> bool {
    exists|j: int| 0 <= j < i && p[j] == c
}

/// Each operand of a node of `p` is in `seen` or stands in `p` before the node.
pub open spec fn fed(nodes: Seq<Node>, p: Seq<usize>, seen: Set<usize>) -> bool {
    forall|i: int, c: usize|
        0 <= i < p.len() && p[i] < nodes.len() && #[trigger] nodes[p[i] as int].uses(c)
            ==> seen.contains(c) || earlier(p, i, c)
}

/// What holds of the nodes `p` that a clean walk from `n` adds to a closed set.
pub open spec fn walked(nodes: Seq<Node>, n: usize, seen: Set<usize>, p: Seq<usize>) -> bool {
    &&& closed(nodes, seen.union(p.to_set()))
    &&& forall|m: usize| p.contains(m) <==> reaches(nodes, n, m) && !seen.contains(m)
    &&& p.no_duplicates()
    &&& forall|i: int| 0 <= i < p.len() ==> p[i] <= n
    &&& fed(nodes, p, seen)
    &&& !seen.contains(n) ==> p.len() > 0 && p.last() == n
}

/// An element of `(l + r).push(n)` lies in `l`, lies in `r`, or is `n`.
pub proof fn lemma_parts(l: Seq<usize>, r: Seq<usize>, n: usize, m: usize)
    ensures
        (l + r).push(n).contains(m) <==> (l.contains(m) || r.contains(m) || m == n),
{
    let p = (l + r).push(n);
    if p.contains(m) {
        let i = choose|i: int| 0 <= i < p.len() && p[i] == m;
        if i < l.len() {
            assert(l[i] == m);
        } else if i < l.len() + r.len() {
            assert(r[i - l.len()] == m);
        }
    }
    if l.contains(m) {
        let i = choose|i: int| 0 <= i < l.len() && l[i] == m;
        assert(p[i] == m);
    }
    if r.contains(m) {
        let i = choose|i: int| 0 <= i < r.len() && r[i] == m;
        assert(p[l.len() + i] == m);
    }
    if m == n {
        assert(p[p.len() - 1] == m);
    }
}

/// A closed set holds whatever is reached from one of its nodes.
pub proof fn lemma_closed_holds_reached(nodes: Seq<Node>, seen: Set<usize>, n: usize, m: usize)
    requires
        closed(nodes, seen),
        seen.contains(n),
        reaches(nodes, n, m),
    ensures
        seen.contains(m),
    decreases n,
{
    if n != m {
        assert(kept(nodes, seen, n));
        match nodes[n as int].first() {
            Some(a) => {
                if reaches(nodes, a, m) {
                    lemma_closed_holds_reached(nodes, seen, a, m);
                }
            },
            None => {},
        }
        match nodes[n as int].second() {
            Some(b) => {
                if reaches(nodes, b, m) {
                    lemma_closed_holds_reached(nodes, seen, b, m);
                }
            },
            None => {},
        }
    }
}

/// The nodes that a clean walk adds to a closed set are those reached from its
/// start and not seen before, each once and after its operands; with them the
/// set is closed again.
pub proof fn lemma_post_walked(nodes: Seq<Node>, n: usize, seen: Set<usize>)
    requires
        closed(nodes, seen),
        clean(nodes, n, seen),
    ensures
        walked(nodes, n, seen, post(nodes, n, seen)),
    decreases n,
{
    let p = post(nodes, n, seen);
    if seen.contains(n) {
        assert(seen.union(p.to_set()) =~= seen);
        assert forall|m: usize| reaches(nodes, n, m) implies seen.contains(m) by {
            lemma_closed_holds_reached(nodes, seen, n, m);
        }
    } else {
        let node = nodes[n as int];
        let l = match node.first() {
            Some(a) if a < n => post(nodes, a, seen),
            _ => Seq::empty(),
        };
        let seen1 = seen.union(l.to_set());
        let r = match node.second() {
            Some(b) if b < n => post(nodes, b, seen1),
            _ => Seq::empty(),
        };
        let seen2 = seen1.union(r.to_set());
        assert(p == (l + r).push(n));
        // under the first operand
        match node.first() {
            Some(a) => {
                lemma_post_walked(nodes, a, seen);
                assert(seen.contains(a) || l.contains(a));
            },
            None => {
                assert(seen1 =~= seen);
            },
        }
        assert(closed(nodes, seen1));
        assert(fed(nodes, l, seen));
        assert(forall|m: usize|
            l.contains(m) <==> (node.first() matches Some(a) && reaches(nodes, a, m)
                && !seen.contains(m)));
        // under the second operand
        match node.second() {
            Some(b) => {
                lemma_post_walked(nodes, b, seen1);
                assert(seen1.contains(b) || r.contains(b));
            },
            None => {
                assert(seen2 =~= seen1);
            },
        }
        assert(closed(nodes, seen2));
        assert(fed(nodes, r, seen1));
        assert(forall|m: usize|
            r.contains(m) <==> (node.second() matches Some(b) && reaches(nodes, b, m)
                && !seen1.contains(m)));
        assert forall|m: usize| p.contains(m) <==> (l.contains(m) || r.contains(m) || m == n) by {
            lemma_parts(l, r, n, m);
        }
        let all = seen.union(p.to_set());
        assert(all =~= seen2.insert(n));
        assert forall|m: usize| all.contains(m) implies #[trigger] kept(nodes, all, m) by {
            if m != n {
                assert(kept(nodes, seen2, m));
            }
        }
        assert forall|m: usize| p.contains(m) <==> reaches(nodes, n, m) && !seen.contains(m) by {
        }
        assert forall|i: int, j: int| 0 <= i < p.len() && 0 <= j < p.len() && i != j implies p[i]
            != p[j] by {
            lemma_apart(l, r, n, seen1, i, j);
        }
        assert forall|i: int, c: usize|
            0 <= i < p.len() && p[i] < nodes.len() && #[trigger] nodes[p[i] as int].uses(
                c,
            ) implies seen.contains(c) || earlier(p, i, c) by {
            lemma_fed_step(nodes, l, r, n, seen, i, c);
        }
    }
}

/// Two different positions of `(l + r).push(n)` hold different nodes, where
/// `l` and `r` repeat nothing, `r` avoids `l`, and both lie below `n`.
proof fn lemma_apart(l: Seq<usize>, r: Seq<usize>, n: usize, seen1: Set<usize>, i: int, j: int)
    requires
        l.no_duplicates(),
        r.no_duplicates(),
        forall|m: usize| l.contains(m) ==> seen1.contains(m),
        forall|m: usize| r.contains(m) ==> !seen1.contains(m),
        forall|k: int| 0 <= k < l.len() ==> l[k] < n,
        forall|k: int| 0 <= k < r.len() ==> r[k] < n,
        0 <= i < l.len() + r.len() + 1,
        0 <= j < l.len() + r.len() + 1,
        i != j,
    ensures
        (l + r).push(n)[i] != (l + r).push(n)[j],
{
    let p = (l + r).push(n);
    if i < l.len() {
        assert(l.contains(p[i]));
    } else if i < l.len() + r.len() {
        assert(p[i] == r[i - l.len()]);
        assert(r.contains(p[i]));
    }
    if j < l.len() {
        assert(l.contains(p[j]));
    } else if j < l.len() + r.len() {
        assert(p[j] == r[j - l.len()]);
        assert(r.contains(p[j]));
    }
}

/// One position of `(l + r).push(n)` has its operands in `seen` or before it.
proof fn lemma_fed_step(
    nodes: Seq<Node>,
    l: Seq<usize>,
    r: Seq<usize>,
    n: usize,
    seen: Set<usize>,
    i: int,
    c: usize,
)
    requires
        fed(nodes, l, seen),
        fed(nodes, r, seen.union(l.to_set())),
        n < nodes.len(),
        forall|a: usize| nodes[n as int].uses(a) ==> seen.contains(a) || l.contains(a) || r.contains(a),
        0 <= i < l.len() + r.len() + 1,
        (l + r).push(n)[i] < nodes.len(),
        nodes[(l + r).push(n)[i] as int].uses(c),
    ensures
        seen.contains(c) || earlier((l + r).push(n), i, c),
{
    let p = (l + r).push(n);
    if i < l.len() {
        assert(p[i] == l[i]);
        if !seen.contains(c) {
            assert(earlier(l, i, c));
            let j = choose|j: int| 0 <= j < i && l[j] == c;
            assert(p[j] == c);
        }
    } else if i < l.len() + r.len() {
        let k = i - l.len();
        assert(p[i] == r[k]);
        if !seen.contains(c) {
            if l.contains(c) {
                let j = choose|j: int| 0 <= j < l.len() && l[j] == c;
                assert(p[j] == c);
            } else {
                assert(earlier(r, k, c));
                let j = choose|j: int| 0 <= j < k && r[j] == c;
                assert(p[l.len() + j] == c);
            }
        }
    } else {
        assert(p[i] == n);
        if !seen.contains(c) {
            if l.contains(c) {
                let j = choose|j: int| 0 <= j < l.len() && l[j] == c;
                assert(p[j] == c);
            } else {
                let j = choose|j: int| 0 <= j < r.len() && r[j] == c;
                assert(p[l.len() + j] == c);
            }
        }
    }
}

/// A walk from `n` into a closed set is clean exactly if every node reached
/// from `n` is well placed.
pub proof fn lemma_clean_is_sound(nodes: Seq<Node>, n: usize, seen: Set<usize>)
    requires
        n < nodes.len(),
        closed(nodes, seen),
    ensures
        clean(nodes, n, seen) <==> sound_under(nodes, n),
    decreases n,
{
    if seen.contains(n) {
        assert forall|m: usize| reaches(nodes, n, m) implies placed(nodes, m) by {
            lemma_closed_holds_reached(nodes, seen, n, m);
            assert(kept(nodes, seen, m));
        }
    } else if !placed(nodes, n) {
        assert(reaches(nodes, n, n));
    } else {
        let node = nodes[n as int];
        let l = match node.first() {
            Some(a) if a < n => post(nodes, a, seen),
            _ => Seq::empty(),
        };
        let seen1 = seen.union(l.to_set());
        let first_ok = node.first() matches Some(a) ==> clean(nodes, a, seen);
        let second_ok = node.second() matches Some(b) ==> clean(nodes, b, seen1);
        assert(clean(nodes, n, seen) == (first_ok && second_ok));
        match node.first() {
            Some(a) => {
                lemma_clean_is_sound(nodes, a, seen);
                if clean(nodes, a, seen) {
                    lemma_post_walked(nodes, a, seen);
                } else {
                    let m = choose|m: usize| reaches(nodes, a, m) && !placed(nodes, m);
                    assert(reaches(nodes, n, m));
                }
            },
            None => {
                assert(seen1 =~= seen);
            },
        }
        if first_ok {
            assert(closed(nodes, seen1));
            match node.second() {
                Some(b) => {
                    lemma_clean_is_sound(nodes, b, seen1);
                    if !clean(nodes, b, seen1) {
                        let m = choose|m: usize| reaches(nodes, b, m) && !placed(nodes, m);
                        assert(reaches(nodes, n, m));
                    }
                },
                None => {},
            }
            if second_ok {
                assert forall|m: usize| reaches(nodes, n, m) implies placed(nodes, m) by {
                    if m != n {
                        match node.first() {
                            Some(a) => {
                                if reaches(nodes, a, m) {
                                    assert(sound_under(nodes, a));
                                }
                            },
                            None => {},
                        }
                        match node.second() {
                            Some(b) => {
                                if reaches(nodes, b, m) {
                                    assert(sound_under(nodes, b));
                                }
                            },
                            None => {},
                        }
                    }
                }
            }
        }
    }
}

/// The walk under a node reads only the nodes recorded up to it: on two
/// tapes that agree up to `n` it meets the same nodes.
pub proof fn lemma_post_reads_below(
    nodes: Seq<Node>,
    longer: Seq<Node>,
    n: usize,
    seen: Set<usize>,
)
    requires
        n < nodes.len() <= longer.len(),
        forall|i: int| 0 <= i <= n ==> nodes[i] == longer[i],
    ensures
        post(nodes, n, seen) == post(longer, n, seen),
        clean(nodes, n, seen) == clean(longer, n, seen),
    decreases n,
{
    if !seen.contains(n) {
        let node = nodes[n as int];
        assert(node == longer[n as int]);
        let l = match node.first() {
            Some(a) if a < n => post(nodes, a, seen),
            _ => Seq::empty(),
        };
        match node.first() {
            Some(a) => {
                if a < n {
                    lemma_post_reads_below(nodes, longer, a, seen);
                }
            },
            None => {},
        }
        match node.second() {
            Some(b) => {
                if b < n {
                    lemma_post_reads_below(nodes, longer, b, seen.union(l.to_set()));
                }
            },
            None => {},
        }
    }
}

} // verus!
