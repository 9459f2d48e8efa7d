use vstd::prelude::*;

use crate::utils::{is_palindrome, reverse_bytes};
use crate::{Crossword, Direction, Solver};

verus! {

/// One node of the trie arena: an occurrence count and the labelled edges to
/// child nodes, each edge holding the next byte and the child's arena index.
pub struct TrieEntry {
    pub count: usize,
    pub children: Vec<(u8, usize)>,
}

impl TrieEntry {
    pub fn incr(&mut self)
        requires
            old(self).count < usize::MAX,
        ensures
            final(self).count == old(self).count + 1,
            final(self).children == old(self).children,
    {
        self.count = self.count + 1;
    }

    /// Decrements the count, saturating at zero.
    pub fn decr(&mut self)
        ensures
            final(self).count == if old(self).count > 0 {
                (old(self).count - 1) as usize
            } else {
                0
            },
            final(self).children == old(self).children,
    {
        if self.count > 0 {
            self.count = self.count - 1;
        }
    }
}

/// The arena index that the edge labelled `b` points to, from position `e` of
/// the edge list on.
pub open spec fn child_idx_from(ch: Seq<(u8, usize)>, b: u8, e: int) -> Option<usize>
    decreases ch.len() - e,
{
    if e < 0 || e >= ch.len() {
        None
    } else if ch[e].0 == b {
        Some(ch[e].1)
    } else {
        child_idx_from(ch, b, e + 1)
    }
}

/// The arena index that the edge labelled `b` points to, if any.
pub open spec fn child_idx(ch: Seq<(u8, usize)>, b: u8) -> Option<usize> {
    child_idx_from(ch, b, 0)
}

/// A found child is an edge of the list; an absent child means no edge
/// carries the byte.
pub proof fn lemma_child_idx_edge(ch: Seq<(u8, usize)>, b: u8, e: int)
    requires
        0 <= e,
    ensures
        match child_idx_from(ch, b, e) {
            Some(j) => exists|k: int| e <= k < ch.len() && ch[k] == (b, j),
            None => forall|k: int| e <= k < ch.len() ==> (#[trigger] ch[k]).0 != b,
        },
    decreases ch.len() - e,
{
    if e < ch.len() && ch[e].0 != b {
        lemma_child_idx_edge(ch, b, e + 1);
    }
}

/// Arena well-formedness: a root exists, every edge points forward to a node
/// inside the arena (so walks terminate and never revisit a node), no node
/// carries two edges with the same byte, and no node is the target of two
/// edges (the arena is a forest, so each node is reached by one path).
pub open spec fn wf_nodes(nodes: Seq<TrieEntry>) -> bool {
    &&& nodes.len() >= 1
    &&& forall|n: int, e: int|
        0 <= n < nodes.len() && 0 <= e < nodes[n].children@.len() ==> n < (
        #[trigger] nodes[n].children@[e]).1 < nodes.len()
    &&& forall|n: int, e1: int, e2: int|
        0 <= n < nodes.len() && 0 <= e1 < nodes[n].children@.len() && 0 <= e2
            < nodes[n].children@.len() && e1 != e2 ==> (#[trigger] nodes[n].children@[e1]).0 != (
        #[trigger] nodes[n].children@[e2]).0
    &&& forall|n1: int, e1: int, n2: int, e2: int|
        0 <= n1 < nodes.len() && 0 <= e1 < nodes[n1].children@.len() && 0 <= n2 < nodes.len()
            && 0 <= e2 < nodes[n2].children@.len() && (n1 != n2 || e1 != e2) ==> (
        #[trigger] nodes[n1].children@[e1]).1 != (#[trigger] nodes[n2].children@[e2]).1
}

/// Every count in the arena is at most `b`.
pub open spec fn counts_bound(nodes: Seq<TrieEntry>, b: int) -> bool {
    forall|n: int| 0 <= n < nodes.len() ==> (#[trigger] nodes[n]).count <= b
}

/// Nodes strictly above `cur` that already existed in `nodes0` still hold
/// their `nodes0` count.
pub open spec fn untouched_above(nodes: Seq<TrieEntry>, nodes0: Seq<TrieEntry>, cur: int) -> bool {
    forall|n: int|
        cur < n < nodes.len() && n < nodes0.len() ==> (#[trigger] nodes[n]).count
            == nodes0[n].count
}

/// The count stored at the end of `path`, walked from node `n`; 0 when the
/// path leaves the trie.
pub open spec fn trie_count_at(nodes: Seq<TrieEntry>, n: int, path: Seq<u8>) -> nat
    decreases path.len(),
{
    if n < 0 || n >= nodes.len() {
        0
    } else if path.len() == 0 {
        nodes[n].count as nat
    } else {
        match child_idx(nodes[n].children@, path[0]) {
            Some(j) => trie_count_at(nodes, j as int, path.skip(1)),
            None => 0,
        }
    }
}

/// A walk never reads a count above the arena's bound.
pub proof fn lemma_count_at_bound(nodes: Seq<TrieEntry>, n: int, path: Seq<u8>, b: int)
    requires
        counts_bound(nodes, b),
        b >= 0,
    ensures
        trie_count_at(nodes, n, path) <= b,
    decreases path.len(),
{
    if 0 <= n < nodes.len() && path.len() > 0 {
        match child_idx(nodes[n].children@, path[0]) {
            Some(j) => lemma_count_at_bound(nodes, j as int, path.skip(1), b),
            None => {},
        }
    }
}

/// Pushing an edge keeps every existing lookup and adds the new byte's.
pub proof fn lemma_child_idx_push_from(ch: Seq<(u8, usize)>, x: (u8, usize), b: u8, e: int)
    requires
        0 <= e <= ch.len(),
    ensures
        child_idx_from(ch.push(x), b, e) == match child_idx_from(ch, b, e) {
            Some(j) => Some(j),
            None => if b == x.0 {
                Some(x.1)
            } else {
                None
            },
        },
    decreases ch.len() - e,
{
    if e < ch.len() {
        assert(ch.push(x)[e] == ch[e]);
        lemma_child_idx_push_from(ch, x, b, e + 1);
    } else {
        assert(ch.push(x)[e] == x);
        assert(child_idx_from(ch, b, e) is None);
        assert(child_idx_from(ch.push(x), b, e + 1) is None);
    }
}

/// The node reached from `n` by walking `path`; `None` when a byte has no
/// edge or the start lies outside the arena.
pub open spec fn node_at(nodes: Seq<TrieEntry>, n: int, path: Seq<u8>) -> Option<int>
    decreases path.len(),
{
    if n < 0 || n >= nodes.len() {
        None
    } else if path.len() == 0 {
        Some(n)
    } else {
        match child_idx(nodes[n].children@, path[0]) {
            Some(j) => node_at(nodes, j as int, path.skip(1)),
            None => None,
        }
    }
}

/// A reached node is a valid index at or above the start: walks only move
/// forward through the arena.
pub proof fn lemma_node_at_ge(nodes: Seq<TrieEntry>, n: int, path: Seq<u8>)
    requires
        wf_nodes(nodes),
    ensures
        match node_at(nodes, n, path) {
            Some(x) => n <= x < nodes.len(),
            None => true,
        },
    decreases path.len(),
{
    if 0 <= n < nodes.len() && path.len() > 0 {
        match child_idx(nodes[n].children@, path[0]) {
            Some(j) => {
                lemma_child_idx_edge(nodes[n].children@, path[0], 0);
                lemma_node_at_ge(nodes, j as int, path.skip(1));
            },
            None => {},
        }
    }
}

/// The count a walk returns is the count of the node it reaches.
pub proof fn lemma_count_via_node(nodes: Seq<TrieEntry>, n: int, path: Seq<u8>)
    ensures
        match node_at(nodes, n, path) {
            Some(x) => 0 <= x < nodes.len() && trie_count_at(nodes, n, path) == nodes[x].count,
            None => trie_count_at(nodes, n, path) == 0,
        },
    decreases path.len(),
{
    if 0 <= n < nodes.len() && path.len() > 0 {
        match child_idx(nodes[n].children@, path[0]) {
            Some(j) => lemma_count_via_node(nodes, j as int, path.skip(1)),
            None => {},
        }
    }
}

/// Walking one more byte steps from the reached node along that byte's edge.
pub proof fn lemma_node_at_snoc(nodes: Seq<TrieEntry>, n: int, path: Seq<u8>, b: u8)
    ensures
        node_at(nodes, n, path.push(b)) == match node_at(nodes, n, path) {
            Some(y) => match child_idx(nodes[y].children@, b) {
                Some(j) => if 0 <= j < nodes.len() {
                    Some(j as int)
                } else {
                    None
                },
                None => None,
            },
            None => None,
        },
    decreases path.len(),
{
    if n < 0 || n >= nodes.len() {
    } else if path.len() == 0 {
        assert(path.push(b).len() == 1);
        assert(path.push(b)[0] == b);
        assert(path.push(b).skip(1) =~= Seq::<u8>::empty());
        match child_idx(nodes[n].children@, b) {
            Some(j) => {
                assert(node_at(nodes, n, path.push(b)) == node_at(
                    nodes,
                    j as int,
                    path.push(b).skip(1),
                ));
                if 0 <= j < nodes.len() {
                    assert(node_at(nodes, j as int, Seq::<u8>::empty()) == Some(j as int));
                } else {
                    assert(node_at(nodes, j as int, Seq::<u8>::empty()) is None);
                }
            },
            None => {},
        }
    } else {
        assert(path.push(b)[0] == path[0]);
        assert(path.push(b).skip(1) =~= path.skip(1).push(b));
        match child_idx(nodes[n].children@, path[0]) {
            Some(j) => {
                lemma_node_at_snoc(nodes, j as int, path.skip(1), b);
                assert(node_at(nodes, n, path.push(b)) == node_at(
                    nodes,
                    j as int,
                    path.skip(1).push(b),
                ));
            },
            None => {},
        }
    }
}

/// A walk whose path starts with `b0` continues from `b0`'s child.
pub proof fn lemma_node_at_prepend(nodes: Seq<TrieEntry>, n: int, b0: u8, s: Seq<u8>)
    requires
        0 <= n < nodes.len(),
    ensures
        node_at(nodes, n, seq![b0] + s) == match child_idx(nodes[n].children@, b0) {
            Some(j) => node_at(nodes, j as int, s),
            None => None,
        },
{
    assert((seq![b0] + s)[0] == b0);
    assert((seq![b0] + s).skip(1) =~= s);
    assert((seq![b0] + s).len() == 1 + s.len());
}

/// In a forest arena, a node is reached from a given start by at most one
/// path.
pub proof fn lemma_path_unique(nodes: Seq<TrieEntry>, n: int, p1: Seq<u8>, p2: Seq<u8>)
    requires
        wf_nodes(nodes),
        0 <= n < nodes.len(),
        node_at(nodes, n, p1) == node_at(nodes, n, p2),
        node_at(nodes, n, p1) is Some,
    ensures
        p1 == p2,
    decreases p1.len() + p2.len(),
{
    let x = node_at(nodes, n, p1)->Some_0;
    if p1.len() == 0 {
        if p2.len() != 0 {
            let q = p2.drop_last();
            let b = p2.last();
            assert(p2 =~= q.push(b));
            lemma_node_at_snoc(nodes, n, q, b);
            let y = node_at(nodes, n, q)->Some_0;
            lemma_node_at_ge(nodes, n, q);
            lemma_child_idx_edge(nodes[y].children@, b, 0);
            assert(false);
        }
    } else if p2.len() == 0 {
        let q = p1.drop_last();
        let b = p1.last();
        assert(p1 =~= q.push(b));
        lemma_node_at_snoc(nodes, n, q, b);
        let y = node_at(nodes, n, q)->Some_0;
        lemma_node_at_ge(nodes, n, q);
        lemma_child_idx_edge(nodes[y].children@, b, 0);
        assert(false);
    } else {
        let q1 = p1.drop_last();
        let b1 = p1.last();
        let q2 = p2.drop_last();
        let b2 = p2.last();
        assert(p1 =~= q1.push(b1));
        assert(p2 =~= q2.push(b2));
        lemma_node_at_snoc(nodes, n, q1, b1);
        lemma_node_at_snoc(nodes, n, q2, b2);
        let y1 = node_at(nodes, n, q1)->Some_0;
        let y2 = node_at(nodes, n, q2)->Some_0;
        lemma_node_at_ge(nodes, n, q1);
        lemma_node_at_ge(nodes, n, q2);
        let j1 = child_idx(nodes[y1].children@, b1)->Some_0;
        let j2 = child_idx(nodes[y2].children@, b2)->Some_0;
        lemma_child_idx_edge(nodes[y1].children@, b1, 0);
        lemma_child_idx_edge(nodes[y2].children@, b2, 0);
        let k1 = choose|k: int|
            0 <= k < nodes[y1].children@.len() && nodes[y1].children@[k] == (b1, j1);
        let k2 = choose|k: int|
            0 <= k < nodes[y2].children@.len() && nodes[y2].children@[k] == (b2, j2);
        assert(j1 as int == x && j2 as int == x);
        assert((nodes[y1].children@[k1]).1 == (nodes[y2].children@[k2]).1);
        assert(y1 == y2 && k1 == k2);
        assert(b1 == b2);
        lemma_path_unique(nodes, n, q1, q2);
    }
}

/// Walks are driven by the edge lists alone; counts play no part.
pub proof fn lemma_node_at_same_children(
    nodes1: Seq<TrieEntry>,
    nodes2: Seq<TrieEntry>,
    n: int,
    path: Seq<u8>,
)
    requires
        nodes2.len() == nodes1.len(),
        forall|x: int|
            0 <= x < nodes1.len() ==> (#[trigger] nodes2[x]).children == nodes1[x].children,
    ensures
        node_at(nodes2, n, path) == node_at(nodes1, n, path),
    decreases path.len(),
{
    if 0 <= n < nodes1.len() && path.len() > 0 {
        assert(nodes2[n].children == nodes1[n].children);
        match child_idx(nodes1[n].children@, path[0]) {
            Some(j) => lemma_node_at_same_children(nodes1, nodes2, j as int, path.skip(1)),
            None => {},
        }
    }
}

/// Changing one node's count rewrites exactly the counts of the paths that
/// reach it.
pub proof fn lemma_count_update(nodes1: Seq<TrieEntry>, nodes2: Seq<TrieEntry>, j: int, start: int)
    requires
        wf_nodes(nodes1),
        nodes2.len() == nodes1.len(),
        0 <= j < nodes1.len(),
        forall|x: int| 0 <= x < nodes1.len() && x != j ==> #[trigger] nodes2[x] == nodes1[x],
        nodes2[j].children == nodes1[j].children,
    ensures
        forall|p: Seq<u8>|
            #[trigger] trie_count_at(nodes2, start, p) == if node_at(nodes1, start, p) == Some(j) {
                nodes2[j].count as nat
            } else {
                trie_count_at(nodes1, start, p)
            },
{
    assert forall|x: int|
        0 <= x < nodes1.len() implies (#[trigger] nodes2[x]).children == nodes1[x].children by {
        if x != j {
            assert(nodes2[x] == nodes1[x]);
        }
    }
    assert forall|p: Seq<u8>|
        #[trigger] trie_count_at(nodes2, start, p) == if node_at(nodes1, start, p) == Some(j) {
            nodes2[j].count as nat
        } else {
            trie_count_at(nodes1, start, p)
        } by {
        lemma_node_at_same_children(nodes1, nodes2, start, p);
        lemma_count_via_node(nodes1, start, p);
        lemma_count_via_node(nodes2, start, p);
        match node_at(nodes1, start, p) {
            Some(x) => {
                if x != j {
                    assert(nodes2[x] == nodes1[x]);
                }
            },
            None => {},
        }
    }
}

/// A walk that can never reach the retargeted node sees neither the change
/// at that node nor the appended fresh node.
pub proof fn lemma_walk_frame_unreach(
    nodes1: Seq<TrieEntry>,
    nodes2: Seq<TrieEntry>,
    tgt: int,
    m: int,
    p: Seq<u8>,
)
    requires
        wf_nodes(nodes1),
        0 <= m < nodes1.len(),
        nodes2.len() == nodes1.len() + 1,
        forall|x: int| 0 <= x < nodes1.len() && x != tgt ==> #[trigger] nodes2[x] == nodes1[x],
        forall|s: Seq<u8>| #[trigger] node_at(nodes1, m, s) != Some(tgt),
    ensures
        node_at(nodes2, m, p) == node_at(nodes1, m, p),
        trie_count_at(nodes2, m, p) == trie_count_at(nodes1, m, p),
    decreases p.len(),
{
    assert(node_at(nodes1, m, Seq::<u8>::empty()) == Some(m));
    assert(m != tgt);
    assert(nodes2[m] == nodes1[m]);
    if p.len() > 0 {
        match child_idx(nodes1[m].children@, p[0]) {
            Some(j) => {
                lemma_child_idx_edge(nodes1[m].children@, p[0], 0);
                assert forall|s: Seq<u8>| #[trigger] node_at(nodes1, j as int, s)
                    != Some(tgt) by {
                    lemma_node_at_prepend(nodes1, m, p[0], s);
                    assert(node_at(nodes1, m, seq![p[0]] + s) == node_at(nodes1, j as int, s));
                }
                lemma_walk_frame_unreach(nodes1, nodes2, tgt, j as int, p.skip(1));
            },
            None => {},
        }
    }
}

/// Adding a fresh leaf under the node that `q` reaches creates exactly the
/// path `q` extended by the new byte; every other walk is untouched.
pub proof fn lemma_node_at_extend(
    nodes1: Seq<TrieEntry>,
    nodes2: Seq<TrieEntry>,
    tgt: int,
    b: u8,
    n: int,
    q: Seq<u8>,
    p: Seq<u8>,
)
    requires
        wf_nodes(nodes1),
        nodes1.len() <= usize::MAX,
        0 <= n < nodes1.len(),
        node_at(nodes1, n, q) == Some(tgt),
        child_idx(nodes1[tgt].children@, b) is None,
        nodes2.len() == nodes1.len() + 1,
        forall|x: int| 0 <= x < nodes1.len() && x != tgt ==> #[trigger] nodes2[x] == nodes1[x],
        nodes2[tgt].count == nodes1[tgt].count,
        nodes2[tgt].children@ == nodes1[tgt].children@.push((b, nodes1.len() as usize)),
        nodes2[nodes1.len() as int].children@.len() == 0,
    ensures
        node_at(nodes2, n, p) == if p == q.push(b) {
            Some(nodes1.len() as int)
        } else {
            node_at(nodes1, n, p)
        },
    decreases p.len(),
{
    let fresh = nodes1.len() as int;
    lemma_node_at_ge(nodes1, n, q);
    if n == tgt {
        lemma_path_unique(nodes1, n, q, Seq::<u8>::empty());
        assert(q.len() == 0);
        if p.len() == 0 {
            assert(p != q.push(b));
        } else {
            lemma_child_idx_push_from(nodes1[tgt].children@, (b, nodes1.len() as usize), p[0], 0);
            assert(child_idx(nodes2[tgt].children@, p[0]) == child_idx(
                nodes1[tgt].children@.push((b, nodes1.len() as usize)),
                p[0],
            ));
            if p[0] == b {
                assert(child_idx(nodes2[tgt].children@, p[0]) == Some(nodes1.len() as usize));
                if p.len() == 1 {
                    assert(p =~= q.push(b));
                    assert(p.skip(1).len() == 0);
                    assert(node_at(nodes2, fresh, p.skip(1)) == Some(fresh));
                    assert(node_at(nodes2, n, p) == Some(fresh));
                } else {
                    assert(p != q.push(b)) by {
                        if p == q.push(b) {
                            assert(p.len() == q.len() + 1);
                        }
                    }
                    assert(p.skip(1).len() > 0);
                    assert(child_idx_from(nodes2[fresh].children@, p.skip(1)[0], 0) is None);
                    assert(node_at(nodes2, fresh, p.skip(1)) is None);
                    assert(node_at(nodes2, n, p) is None);
                    assert(node_at(nodes1, n, p) is None);
                }
            } else {
                assert(p != q.push(b));
                match child_idx(nodes1[tgt].children@, p[0]) {
                    Some(c) => {
                        lemma_child_idx_edge(nodes1[tgt].children@, p[0], 0);
                        assert(tgt < c < nodes1.len());
                        assert forall|s: Seq<u8>| #[trigger] node_at(nodes1, c as int, s)
                            != Some(tgt) by {
                            lemma_node_at_ge(nodes1, c as int, s);
                        }
                        lemma_walk_frame_unreach(nodes1, nodes2, tgt, c as int, p.skip(1));
                        assert(node_at(nodes2, n, p) == node_at(nodes2, c as int, p.skip(1)));
                        assert(node_at(nodes1, n, p) == node_at(nodes1, c as int, p.skip(1)));
                    },
                    None => {
                        assert(node_at(nodes2, n, p) is None);
                        assert(node_at(nodes1, n, p) is None);
                    },
                }
            }
        }
    } else {
        assert(q.len() != 0);
        assert(nodes2[n] == nodes1[n]);
        if p.len() == 0 {
            assert(p != q.push(b));
        } else {
            assert((q.push(b))[0] == q[0]);
            match child_idx(nodes1[n].children@, p[0]) {
                Some(c) => {
                    lemma_child_idx_edge(nodes1[n].children@, p[0], 0);
                    if p[0] == q[0] {
                        assert(q.skip(1).push(b) =~= q.push(b).skip(1));
                        assert(node_at(nodes1, c as int, q.skip(1)) == Some(tgt));
                        lemma_node_at_extend(nodes1, nodes2, tgt, b, c as int, q.skip(1), p.skip(
                            1,
                        ));
                        if p.skip(1) == q.skip(1).push(b) {
                            assert forall|i: int| 0 <= i < p.len() implies p[i] == q.push(b)[
                                i
                            ] by {
                                if i > 0 {
                                    assert(p[i] == p.skip(1)[i - 1]);
                                    assert(q.push(b)[i] == q.push(b).skip(1)[i - 1]);
                                }
                            }
                            assert(p.len() == q.push(b).len());
                            assert(p =~= q.push(b));
                        } else {
                            assert(p != q.push(b)) by {
                                if p == q.push(b) {
                                    assert(p.skip(1) =~= q.push(b).skip(1));
                                }
                            }
                        }
                    } else {
                        assert(p != q.push(b));
                        assert forall|s: Seq<u8>| #[trigger] node_at(nodes1, c as int, s)
                            != Some(tgt) by {
                            if node_at(nodes1, c as int, s) == Some(tgt) {
                                lemma_node_at_prepend(nodes1, n, p[0], s);
                                lemma_path_unique(nodes1, n, seq![p[0]] + s, q);
                                assert((seq![p[0]] + s)[0] == p[0]);
                                assert(false);
                            }
                        }
                        lemma_walk_frame_unreach(nodes1, nodes2, tgt, c as int, p.skip(1));
                    }
                },
                None => {
                    assert(p != q.push(b)) by {
                        if p == q.push(b) {
                            assert(p[0] == q[0]);
                            assert(child_idx(nodes1[n].children@, q[0]) is Some);
                        }
                    }
                },
            }
        }
    }
}

/// Whether registering the non-empty prefixes of `w` touches path `p`,
/// counting only prefixes of length at most `i`.
pub open spec fn plain_prefix_delta_upto(w: Seq<u8>, p: Seq<u8>, i: int) -> nat {
    if 1 <= p.len() <= i && p.len() <= w.len() && p == w.take(p.len() as int) {
        1
    } else {
        0
    }
}

/// Whether `p` is a non-empty prefix of `w`.
pub open spec fn plain_prefix_delta(w: Seq<u8>, p: Seq<u8>) -> nat {
    plain_prefix_delta_upto(w, p, w.len() as int)
}

/// Finds the child of `node` labelled `b`.
fn find_child(node: &TrieEntry, b: u8) -> (r: Option<usize>)
    ensures
        r == child_idx(node.children@, b),
{
    let mut e: usize = 0;
    loop
        invariant
            e <= node.children@.len(),
            child_idx(node.children@, b) == child_idx_from(node.children@, b, e as int),
        decreases node.children@.len() - e,
    {
        if e >= node.children.len() {
            return None;
        }
        let (eb, ej) = node.children[e];
        if eb == b {
            return Some(ej);
        }
        e += 1;
    }
}

/// A prefix tree over the directional substrings of a grid, stored as a node
/// arena: node 0 is the root, and inserting a word increments the count of
/// every node along its path.
pub struct Trie {
    pub nodes: Vec<TrieEntry>,
}

impl Trie {
    pub open spec fn wf(self) -> bool {
        wf_nodes(self.nodes@)
    }

    /// The count this trie stores for `path`, walked from the root.
    pub open spec fn count_of(self, path: Seq<u8>) -> nat {
        trie_count_at(self.nodes@, 0, path)
    }

    /// Inserts `word`: walks the arena from the root, adding nodes where the
    /// path ends, and increments the count of every node along the path.
    #[verifier::rlimit(60)]
    fn insert(&mut self, word: &[u8])
        requires
            old(self).wf(),
            counts_bound(old(self).nodes@, usize::MAX - 1),
        ensures
            final(self).wf(),
            final(self).nodes@.len() >= old(self).nodes@.len(),
            forall|b: int|
                #[trigger] counts_bound(old(self).nodes@, b) && b >= 0 ==> counts_bound(
                    final(self).nodes@,
                    b + 1,
                ),
            forall|p: Seq<u8>|
                #[trigger] trie_count_at(final(self).nodes@, 0, p) == trie_count_at(
                    old(self).nodes@,
                    0,
                    p,
                ) + plain_prefix_delta(word@, p),
    {
        let ghost nodes0 = self.nodes@;
        let mut cur: usize = 0;
        let mut d: usize = 0;
        proof {
            assert(word@.take(0) =~= Seq::<u8>::empty());
        }
        while d < word.len()
            invariant
                wf_nodes(self.nodes@),
                counts_bound(nodes0, usize::MAX - 1),
                cur < self.nodes@.len(),
                self.nodes@.len() >= nodes0.len(),
                self.nodes@.len() == nodes0.len() || cur as int == self.nodes@.len() - 1,
                d <= word@.len(),
                untouched_above(self.nodes@, nodes0, cur as int),
                forall|b: int|
                    #[trigger] counts_bound(nodes0, b) && b >= 0 ==> counts_bound(
                        self.nodes@,
                        b + 1,
                    ),
                node_at(self.nodes@, 0, word@.take(d as int)) == Some(cur as int),
                forall|p: Seq<u8>|
                    #[trigger] trie_count_at(self.nodes@, 0, p) == trie_count_at(nodes0, 0, p)
                        + plain_prefix_delta_upto(word@, p, d as int),
            decreases word@.len() - d,
        {
            let b = word[d];
            let next = find_child(&self.nodes[cur], b);
            proof {
                lemma_child_idx_edge(self.nodes@[cur as int].children@, b, 0);
            }
            match next {
                Some(j) => {
                    let ghost pre = self.nodes@;
                    proof {
                        assert(cur < j < pre.len());
                        assert(pre.len() == nodes0.len());
                        assert(pre[j as int].count == nodes0[j as int].count);
                        assert(nodes0[j as int].count <= usize::MAX - 1);
                    }
                    let entry = &mut self.nodes[j];
                    entry.incr();
                    proof {
                        assert(self.nodes@ =~= pre.update(j as int, self.nodes@[j as int]));
                        assert(self.nodes@[j as int].count == pre[j as int].count + 1);
                        assert forall|n: int, e: int|
                            0 <= n < self.nodes@.len() && 0 <= e
                                < self.nodes@[n].children@.len() implies n < (
                        #[trigger] self.nodes@[n].children@[e]).1 < self.nodes@.len() by {
                            assert(self.nodes@[n].children == pre[n].children);
                        }
                        assert forall|n: int, e1: int, e2: int|
                            0 <= n < self.nodes@.len() && 0 <= e1 < self.nodes@[n].children@.len()
                                && 0 <= e2 < self.nodes@[n].children@.len() && e1 != e2 implies (
                        #[trigger] self.nodes@[n].children@[e1]).0 != (
                        #[trigger] self.nodes@[n].children@[e2]).0 by {
                            assert(self.nodes@[n].children == pre[n].children);
                        }
                        assert forall|n1: int, e1: int, n2: int, e2: int|
                            0 <= n1 < self.nodes@.len() && 0 <= e1
                                < self.nodes@[n1].children@.len() && 0 <= n2 < self.nodes@.len()
                                && 0 <= e2 < self.nodes@[n2].children@.len() && (n1 != n2 || e1
                                != e2) implies (#[trigger] self.nodes@[n1].children@[e1]).1 != (
                        #[trigger] self.nodes@[n2].children@[e2]).1 by {
                            assert(self.nodes@[n1].children == pre[n1].children);
                            assert(self.nodes@[n2].children == pre[n2].children);
                        }
                        assert forall|n: int|
                            j < n < self.nodes@.len() && n < nodes0.len() implies (
                        #[trigger] self.nodes@[n]).count == nodes0[n].count by {
                            assert(self.nodes@[n] == pre[n]);
                            assert(pre[n].count == nodes0[n].count);
                        }
                        assert forall|bb: int|
                            #[trigger] counts_bound(nodes0, bb) && bb >= 0 implies counts_bound(
                            self.nodes@,
                            bb + 1,
                        ) by {
                            assert(counts_bound(pre, bb + 1));
                            assert forall|n: int|
                                0 <= n < self.nodes@.len() implies (
                            #[trigger] self.nodes@[n]).count <= bb + 1 by {
                                if n == j {
                                    assert(nodes0[j as int].count <= bb);
                                } else {
                                    assert(self.nodes@[n] == pre[n]);
                                    assert(pre[n].count <= bb + 1);
                                }
                            }
                        }
                    }
                    proof {
                        let ghost qd1 = word@.take(d + 1);
                        assert(qd1 =~= word@.take(d as int).push(word@[d as int]));
                        lemma_node_at_snoc(pre, 0, word@.take(d as int), word@[d as int]);
                        assert(node_at(pre, 0, qd1) == Some(j as int));
                        lemma_count_update(pre, self.nodes@, j as int, 0);
                        lemma_count_via_node(pre, 0, qd1);
                        assert(trie_count_at(pre, 0, qd1) == pre[j as int].count);
                        assert(plain_prefix_delta_upto(word@, qd1, d as int) == 0);
                        assert(trie_count_at(pre, 0, qd1) == trie_count_at(nodes0, 0, qd1));
                        assert forall|p: Seq<u8>|
                            #[trigger] trie_count_at(self.nodes@, 0, p) == trie_count_at(
                            nodes0,
                            0,
                            p,
                        ) + plain_prefix_delta_upto(word@, p, d + 1) by {
                            if node_at(pre, 0, p) == Some(j as int) {
                                lemma_path_unique(pre, 0, p, qd1);
                                assert(p == qd1);
                                assert(plain_prefix_delta_upto(word@, p, d + 1) == 1);
                                assert(trie_count_at(self.nodes@, 0, p) == self.nodes@[
                                    j as int
                                ].count);
                            } else {
                                assert(trie_count_at(self.nodes@, 0, p) == trie_count_at(
                                    pre,
                                    0,
                                    p,
                                ));
                                assert(p != qd1);
                                if plain_prefix_delta_upto(word@, p, d + 1)
                                    != plain_prefix_delta_upto(word@, p, d as int) {
                                    assert(p.len() == d + 1 && p == word@.take(p.len() as int));
                                    assert(p =~= qd1);
                                    assert(false);
                                }
                            }
                        }
                        assert forall|x: int|
                            0 <= x < pre.len() implies (#[trigger] self.nodes@[x]).children
                            == pre[x].children by {
                            if x != j {
                                assert(self.nodes@[x] == pre[x]);
                            }
                        }
                        lemma_node_at_same_children(pre, self.nodes@, 0, qd1);
                        assert(node_at(self.nodes@, 0, qd1) == Some(j as int));
                    }
                    cur = j;
                },
                None => {
                    let ghost pre = self.nodes@;
                    let new_idx = self.nodes.len();
                    self.nodes.push(TrieEntry { count: 1, children: Vec::new() });
                    let ghost mid = self.nodes@;
                    let parent = &mut self.nodes[cur];
                    parent.children.push((b, new_idx));
                    proof {
                        assert(self.nodes@ =~= mid.update(cur as int, self.nodes@[cur as int]));
                        let ch = self.nodes@[cur as int].children@;
                        assert(self.nodes@.len() == new_idx + 1);
                        assert(self.nodes@[new_idx as int].children@.len() == 0);
                        assert(ch == pre[cur as int].children@.push((b, new_idx)));
                        assert forall|n: int, e: int|
                            0 <= n < self.nodes@.len() && 0 <= e < self.nodes@[n].children@.len()
                                && !(n == cur as int && e == ch.len() - 1) implies n < pre.len()
                            && e < pre[n].children@.len() && (
                        #[trigger] self.nodes@[n].children@[e]) == pre[n].children@[e] by {
                            if n == new_idx as int {
                                assert(false);
                            } else if n != cur as int {
                                assert(self.nodes@[n].children == mid[n].children);
                                assert(mid[n] == pre[n]);
                            } else {
                                assert(ch[e] == mid[cur as int].children@[e]);
                                assert(mid[cur as int] == pre[cur as int]);
                            }
                        }
                        assert forall|n: int, e: int|
                            0 <= n < self.nodes@.len() && 0 <= e
                                < self.nodes@[n].children@.len() implies n < (
                        #[trigger] self.nodes@[n].children@[e]).1 < self.nodes@.len() by {
                            if n == cur as int && e == ch.len() - 1 {
                                assert(ch[e] == (b, new_idx));
                            } else {
                                assert(self.nodes@[n].children@[e] == pre[n].children@[e]);
                                assert(n < (pre[n].children@[e]).1 < pre.len());
                            }
                        }
                        assert forall|n: int, e1: int, e2: int|
                            0 <= n < self.nodes@.len() && 0 <= e1 < self.nodes@[n].children@.len()
                                && 0 <= e2 < self.nodes@[n].children@.len() && e1 != e2 implies (
                        #[trigger] self.nodes@[n].children@[e1]).0 != (
                        #[trigger] self.nodes@[n].children@[e2]).0 by {
                            let new1 = n == cur as int && e1 == ch.len() - 1;
                            let new2 = n == cur as int && e2 == ch.len() - 1;
                            if new1 {
                                assert(ch[e1] == (b, new_idx));
                                assert(self.nodes@[n].children@[e2] == pre[n].children@[e2]);
                                assert((pre[cur as int].children@[e2]).0 != b);
                            } else if new2 {
                                assert(ch[e2] == (b, new_idx));
                                assert(self.nodes@[n].children@[e1] == pre[n].children@[e1]);
                                assert((pre[cur as int].children@[e1]).0 != b);
                            } else {
                                assert(self.nodes@[n].children@[e1] == pre[n].children@[e1]);
                                assert(self.nodes@[n].children@[e2] == pre[n].children@[e2]);
                                assert((pre[n].children@[e1]).0 != (pre[n].children@[e2]).0);
                            }
                        }
                        assert forall|n1: int, e1: int, n2: int, e2: int|
                            0 <= n1 < self.nodes@.len() && 0 <= e1
                                < self.nodes@[n1].children@.len() && 0 <= n2 < self.nodes@.len()
                                && 0 <= e2 < self.nodes@[n2].children@.len() && (n1 != n2 || e1
                                != e2) implies (#[trigger] self.nodes@[n1].children@[e1]).1 != (
                        #[trigger] self.nodes@[n2].children@[e2]).1 by {
                            let fresh1 = n1 == cur as int && e1 == ch.len() - 1;
                            let fresh2 = n2 == cur as int && e2 == ch.len() - 1;
                            if fresh1 && fresh2 {
                                assert(false);
                            } else if fresh1 {
                                assert((self.nodes@[n1].children@[e1]).1 == new_idx);
                                assert((self.nodes@[n2].children@[e2]).1
                                    == (pre[n2].children@[e2]).1);
                                assert((pre[n2].children@[e2]).1 < pre.len());
                            } else if fresh2 {
                                assert((self.nodes@[n2].children@[e2]).1 == new_idx);
                                assert((self.nodes@[n1].children@[e1]).1
                                    == (pre[n1].children@[e1]).1);
                                assert((pre[n1].children@[e1]).1 < pre.len());
                            } else {
                                assert((self.nodes@[n1].children@[e1])
                                    == pre[n1].children@[e1]);
                                assert((self.nodes@[n2].children@[e2])
                                    == pre[n2].children@[e2]);
                            }
                        }
                        assert forall|bb: int|
                            #[trigger] counts_bound(nodes0, bb) && bb >= 0 implies counts_bound(
                            self.nodes@,
                            bb + 1,
                        ) by {
                            assert(counts_bound(pre, bb + 1));
                            assert forall|n: int|
                                0 <= n < self.nodes@.len() implies (
                            #[trigger] self.nodes@[n]).count <= bb + 1 by {
                                if n == new_idx as int {
                                    assert(self.nodes@[n].count == 1);
                                } else if n == cur as int {
                                    assert(self.nodes@[n].count == pre[n].count);
                                    assert(pre[n].count <= bb + 1);
                                } else {
                                    assert(self.nodes@[n] == pre[n]);
                                    assert(pre[n].count <= bb + 1);
                                }
                            }
                        }
                    }
                    proof {
                        let ghost qd = word@.take(d as int);
                        let ghost qd1 = word@.take(d + 1);
                        assert(qd1 =~= qd.push(word@[d as int]));
                        assert(pre.len() == new_idx);
                        assert forall|x: int|
                            0 <= x < pre.len() && x != cur as int implies #[trigger] self.nodes@[x]
                            == pre[x] by {
                            assert(mid[x] == pre[x]);
                        }
                        assert(self.nodes@[cur as int].count == pre[cur as int].count);
                        assert forall|p: Seq<u8>| true implies #[trigger] node_at(
                            self.nodes@,
                            0,
                            p,
                        ) == if p == qd1 {
                            Some(pre.len() as int)
                        } else {
                            node_at(pre, 0, p)
                        } by {
                            lemma_node_at_extend(pre, self.nodes@, cur as int, b, 0, qd, p);
                        }
                        lemma_node_at_snoc(pre, 0, qd, word@[d as int]);
                        assert(node_at(pre, 0, qd1) is None);
                        lemma_count_via_node(pre, 0, qd1);
                        assert(trie_count_at(nodes0, 0, qd1) + plain_prefix_delta_upto(
                            word@,
                            qd1,
                            d as int,
                        ) == 0);
                        assert forall|p: Seq<u8>|
                            #[trigger] trie_count_at(self.nodes@, 0, p) == trie_count_at(
                            nodes0,
                            0,
                            p,
                        ) + plain_prefix_delta_upto(word@, p, d + 1) by {
                            lemma_count_via_node(self.nodes@, 0, p);
                            lemma_count_via_node(pre, 0, p);
                            if p == qd1 {
                                assert(node_at(self.nodes@, 0, p) == Some(new_idx as int));
                                assert(trie_count_at(self.nodes@, 0, p) == 1);
                                assert(plain_prefix_delta_upto(word@, p, d + 1) == 1);
                            } else {
                                assert(node_at(self.nodes@, 0, p) == node_at(pre, 0, p));
                                match node_at(pre, 0, p) {
                                    Some(x) => {
                                        if x != cur as int {
                                            assert(self.nodes@[x] == pre[x]);
                                        }
                                        assert(self.nodes@[x].count == pre[x].count);
                                    },
                                    None => {},
                                }
                                assert(trie_count_at(self.nodes@, 0, p) == trie_count_at(
                                    pre,
                                    0,
                                    p,
                                ));
                                if plain_prefix_delta_upto(word@, p, d + 1)
                                    != plain_prefix_delta_upto(word@, p, d as int) {
                                    assert(p.len() == d + 1 && p == word@.take(p.len() as int));
                                    assert(p =~= qd1);
                                    assert(false);
                                }
                            }
                        }
                        assert(node_at(self.nodes@, 0, qd1) == Some(new_idx as int));
                    }
                    cur = new_idx;
                },
            }
            d += 1;
        }
    }

    /// Builds the trie of a grid: for every cell and direction it inserts the
    /// longest available run (capped by `word_len_limit`, defaulting to the
    /// larger grid dimension), then corrects the count of each cell's own
    /// byte so a cell entered from several directions is counted once. The
    /// stored counts are pinned: every path's count equals `trie_model`.
    #[verifier::rlimit(100)]
    pub fn new(crossword: &Crossword, word_len_limit: Option<usize>) -> (r: Self)
        requires
            crossword.wf(),
            crossword.fits(),
        ensures
            r.wf(),
            counts_bound(r.nodes@, usize::MAX as int / 2),
            forall|p: Seq<u8>|
                #[trigger] r.count_of(p) == trie_model(
                    *crossword,
                    effective_limit(*crossword, word_len_limit),
                    p,
                ),
    {
        let g = crossword;
        let rows = g.rows();
        let cols = g.cols();
        let max_len = match word_len_limit {
            Some(l) => l,
            None => if rows > cols {
                rows
            } else {
                cols
            },
        };
        let ghost lim = effective_limit(*g, word_len_limit);
        let mut root_nodes: Vec<TrieEntry> = Vec::new();
        root_nodes.push(TrieEntry { count: 0, children: Vec::new() });
        let mut trie = Trie { nodes: root_nodes };
        let ghost mut inserts: int = 0;
        proof {
            assert(max_len as int == lim);
            crate::lemma_cols_le_len(*g);
            vstd::arithmetic::div_mod::lemma_fundamental_div_mod(
                g.data@.len() as int,
                g.rows as int,
            );
            assert forall|p: Seq<u8>| #[trigger] trie_count_at(trie.nodes@, 0, p) + t_grid_delta(
                *g,
                lim,
                0,
                p,
            ) == t_grid_delta(*g, lim, 0, p) by {
                lemma_count_via_node(trie.nodes@, 0, p);
                if p.len() > 0 {
                    assert(child_idx_from(trie.nodes@[0].children@, p[0], 0) is None);
                }
            }
        }
        let mut row: usize = 0;
        while row < rows
            invariant
                g.wf(),
                g.fits(),
                rows == g.rows,
                cols as int == g.spec_cols(),
                max_len as int == lim,
                row <= rows,
                trie.wf(),
                counts_bound(trie.nodes@, inserts),
                0 <= inserts,
                inserts <= 5 * ((row as int) * (cols as int)),
                g.data@.len() == (g.rows as int) * g.spec_cols(),
                forall|p: Seq<u8>|
                    #[trigger] trie_count_at(trie.nodes@, 0, p) + t_grid_delta(
                        *g,
                        lim,
                        row as int,
                        p,
                    ) == t_grid_delta(*g, lim, 0, p),
            decreases rows - row,
        {
            let ghost ri = row as int;
            proof {
                assert forall|p: Seq<u8>| #[trigger] trie_count_at(trie.nodes@, 0, p)
                    + t_row_delta(*g, lim, ri, 0, p) + t_grid_delta(*g, lim, ri + 1, p)
                    == t_grid_delta(*g, lim, 0, p) by {
                    assert(t_grid_delta(*g, lim, ri, p) == t_row_delta(*g, lim, ri, 0, p)
                        + t_grid_delta(*g, lim, ri + 1, p));
                }
            }
            let mut col: usize = 0;
            while col < cols
                invariant
                    g.wf(),
                    g.fits(),
                    rows == g.rows,
                    cols as int == g.spec_cols(),
                    max_len as int == lim,
                    ri == row as int,
                    row < rows,
                    col <= cols,
                    trie.wf(),
                    counts_bound(trie.nodes@, inserts),
                    0 <= inserts,
                    inserts <= 5 * ((row as int) * (cols as int) + col as int),
                    g.data@.len() == (g.rows as int) * g.spec_cols(),
                    forall|p: Seq<u8>|
                        #[trigger] trie_count_at(trie.nodes@, 0, p) + t_row_delta(
                            *g,
                            lim,
                            ri,
                            col as int,
                            p,
                        ) + t_grid_delta(*g, lim, ri + 1, p) == t_grid_delta(*g, lim, 0, p),
                decreases cols - col,
            {
                let ghost ci = col as int;
                proof {
                    lemma_insert_headroom(*g, row as int, col as int, inserts);
                }
                let central_char = g.get(row, col);
                let ghost pc = seq![central_char];
                let ghost t0 = trie.nodes@;
                let i1 = insert_longest(&mut trie, g, row, col, Direction::Right, max_len);
                proof {
                    assert(counts_bound(t0, inserts));
                    assert(counts_bound(trie.nodes@, inserts + 1));
                    assert(counts_bound(trie.nodes@, usize::MAX - 1));
                }
                let ghost t1 = trie.nodes@;
                let i2 = insert_longest(&mut trie, g, row, col, Direction::Down, max_len);
                proof {
                    assert(counts_bound(t1, inserts + 1));
                    assert(counts_bound(trie.nodes@, inserts + 2));
                    assert(counts_bound(trie.nodes@, usize::MAX - 1));
                }
                let ghost t2 = trie.nodes@;
                let i3 = insert_longest(&mut trie, g, row, col, Direction::Diagonal, max_len);
                proof {
                    assert(counts_bound(t2, inserts + 2));
                    assert(counts_bound(trie.nodes@, inserts + 3));
                    assert(counts_bound(trie.nodes@, usize::MAX - 1));
                }
                let ghost t3 = trie.nodes@;
                let i4 = insert_longest(&mut trie, g, row, col, Direction::AntiDiagonal, max_len);
                proof {
                    assert(counts_bound(t3, inserts + 3));
                    assert(counts_bound(trie.nodes@, inserts + 4));
                }
                let mut valid_dirs: usize = 0;
                if i1 {
                    valid_dirs += 1;
                }
                if i2 {
                    valid_dirs += 1;
                }
                if i3 {
                    valid_dirs += 1;
                }
                if i4 {
                    valid_dirs += 1;
                }
                proof {
                    assert forall|dir: Direction| true implies #[trigger] g.run_seq(ri, ci, dir, 1)
                        == pc by {
                        assert(g.run_seq(ri, ci, dir, 1) =~= pc);
                    }
                    lemma_longest_props(*g, ri, ci, Direction::Right, lim);
                    lemma_longest_props(*g, ri, ci, Direction::Down, lim);
                    lemma_longest_props(*g, ri, ci, Direction::Diagonal, lim);
                    lemma_longest_props(*g, ri, ci, Direction::AntiDiagonal, lim);
                    assert(t_dir_delta(*g, lim, ri, ci, Direction::Right, pc) == (if i1 {
                        1nat
                    } else {
                        0nat
                    }));
                    assert(t_dir_delta(*g, lim, ri, ci, Direction::Down, pc) == (if i2 {
                        1nat
                    } else {
                        0nat
                    }));
                    assert(t_dir_delta(*g, lim, ri, ci, Direction::Diagonal, pc) == (if i3 {
                        1nat
                    } else {
                        0nat
                    }));
                    assert(t_dir_delta(*g, lim, ri, ci, Direction::AntiDiagonal, pc) == (if i4 {
                        1nat
                    } else {
                        0nat
                    }));
                }
                let ghost tc = trie.nodes@;
                proof {
                    assert forall|p: Seq<u8>| #[trigger] trie_count_at(tc, 0, p)
                        == trie_count_at(t0, 0, p) + t_dir_delta(*g, lim, ri, ci, Direction::Right, p)
                        + t_dir_delta(*g, lim, ri, ci, Direction::Down, p) + t_dir_delta(
                        *g,
                        lim,
                        ri,
                        ci,
                        Direction::Diagonal,
                        p,
                    ) + t_dir_delta(*g, lim, ri, ci, Direction::AntiDiagonal, p) by {
                        assert(trie_count_at(t1, 0, p) == trie_count_at(t0, 0, p) + t_dir_delta(
                            *g,
                            lim,
                            ri,
                            ci,
                            Direction::Right,
                            p,
                        ));
                        assert(trie_count_at(t2, 0, p) == trie_count_at(t1, 0, p) + t_dir_delta(
                            *g,
                            lim,
                            ri,
                            ci,
                            Direction::Down,
                            p,
                        ));
                        assert(trie_count_at(t3, 0, p) == trie_count_at(t2, 0, p) + t_dir_delta(
                            *g,
                            lim,
                            ri,
                            ci,
                            Direction::Diagonal,
                            p,
                        ));
                        assert(trie_count_at(tc, 0, p) == trie_count_at(t3, 0, p) + t_dir_delta(
                            *g,
                            lim,
                            ri,
                            ci,
                            Direction::AntiDiagonal,
                            p,
                        ));
                    }
                    assert(trie_count_at(tc, 0, pc) == trie_count_at(t0, 0, pc)
                        + valid_dirs as nat);
                }
                if valid_dirs > 1 {
                    let mut k: usize = 0;
                    while k < valid_dirs - 1
                        invariant
                            g.wf(),
                            trie.wf(),
                            counts_bound(trie.nodes@, inserts + 4),
                            0 <= inserts,
                            valid_dirs >= 2,
                            k <= valid_dirs - 1,
                            pc == seq![central_char],
                            trie_count_at(tc, 0, pc) >= valid_dirs,
                            trie_count_at(trie.nodes@, 0, pc) + k == trie_count_at(tc, 0, pc),
                            forall|p: Seq<u8>|
                                p != pc ==> #[trigger] trie_count_at(trie.nodes@, 0, p)
                                    == trie_count_at(tc, 0, p),
                        decreases valid_dirs - 1 - k,
                    {
                        proof {
                            lemma_count_via_node(trie.nodes@, 0, pc);
                        }
                        match find_child(&trie.nodes[0], central_char) {
                            Some(j) => {
                                proof {
                                    lemma_child_idx_edge(trie.nodes@[0].children@, central_char, 0);
                                    assert(0 < j < trie.nodes@.len());
                                    assert(pc[0] == central_char);
                                    assert(pc.len() == 1);
                                    assert(pc.skip(1) =~= Seq::<u8>::empty());
                                    assert(node_at(trie.nodes@, j as int, pc.skip(1)) == Some(
                                        j as int,
                                    ));
                                    assert(node_at(trie.nodes@, 0, pc) == Some(j as int));
                                    assert(trie.nodes@[j as int].count == trie_count_at(
                                        trie.nodes@,
                                        0,
                                        pc,
                                    ));
                                    assert(trie.nodes@[j as int].count > 0);
                                }
                                let ghost pre = trie.nodes@;
                                let entry = &mut trie.nodes[j];
                                entry.decr();
                                proof {
                                    assert(trie.nodes@ =~= pre.update(
                                        j as int,
                                        trie.nodes@[j as int],
                                    ));
                                    assert forall|n: int, e: int|
                                        0 <= n < trie.nodes@.len() && 0 <= e
                                            < trie.nodes@[n].children@.len() implies n < (
                                    #[trigger] trie.nodes@[n].children@[e]).1
                                        < trie.nodes@.len() by {
                                        assert(trie.nodes@[n].children == pre[n].children);
                                    }
                                    assert forall|n: int, e1: int, e2: int|
                                        0 <= n < trie.nodes@.len() && 0 <= e1
                                            < trie.nodes@[n].children@.len() && 0 <= e2
                                            < trie.nodes@[n].children@.len() && e1 != e2 implies (
                                    #[trigger] trie.nodes@[n].children@[e1]).0 != (
                                    #[trigger] trie.nodes@[n].children@[e2]).0 by {
                                        assert(trie.nodes@[n].children == pre[n].children);
                                    }
                                    assert forall|n1: int, e1: int, n2: int, e2: int|
                                        0 <= n1 < trie.nodes@.len() && 0 <= e1
                                            < trie.nodes@[n1].children@.len() && 0 <= n2
                                            < trie.nodes@.len() && 0 <= e2
                                            < trie.nodes@[n2].children@.len() && (n1 != n2 || e1
                                            != e2) implies (
                                    #[trigger] trie.nodes@[n1].children@[e1]).1 != (
                                    #[trigger] trie.nodes@[n2].children@[e2]).1 by {
                                        assert(trie.nodes@[n1].children == pre[n1].children);
                                        assert(trie.nodes@[n2].children == pre[n2].children);
                                    }
                                    assert forall|n: int|
                                        0 <= n < trie.nodes@.len() implies (
                                    #[trigger] trie.nodes@[n]).count <= inserts + 4 by {
                                        if n == j {
                                            assert(trie.nodes@[n].count <= pre[n].count);
                                        } else {
                                            assert(trie.nodes@[n] == pre[n]);
                                        }
                                        assert(pre[n].count <= inserts + 4);
                                    }
                                    lemma_count_update(pre, trie.nodes@, j as int, 0);
                                    assert forall|p: Seq<u8>|
                                        p != pc implies #[trigger] trie_count_at(
                                        trie.nodes@,
                                        0,
                                        p,
                                    ) == trie_count_at(tc, 0, p) by {
                                        if node_at(pre, 0, p) == Some(j as int) {
                                            lemma_path_unique(pre, 0, p, pc);
                                            assert(false);
                                        }
                                        assert(trie_count_at(trie.nodes@, 0, p) == trie_count_at(
                                            pre,
                                            0,
                                            p,
                                        ));
                                    }
                                    assert(trie_count_at(trie.nodes@, 0, pc) == trie.nodes@[
                                        j as int
                                    ].count);
                                }
                            },
                            None => {
                                proof {
                                    lemma_child_idx_edge(trie.nodes@[0].children@, central_char, 0);
                                    assert(pc[0] == central_char);
                                    assert(node_at(trie.nodes@, 0, pc) is None);
                                    assert(trie_count_at(trie.nodes@, 0, pc) == 0);
                                    assert(false);
                                }
                            },
                        }
                        k += 1;
                    }
                    proof {
                        assert(trie_count_at(trie.nodes@, 0, pc) == trie_count_at(t0, 0, pc) + 1);
                    }
                } else if valid_dirs == 0 {
                    let mut single: Vec<u8> = Vec::new();
                    single.push(central_char);
                    proof {
                        assert(counts_bound(tc, inserts + 4));
                        assert(counts_bound(tc, usize::MAX - 1));
                        assert(single@ =~= pc);
                    }
                    trie.insert(single.as_slice());
                    proof {
                        assert(counts_bound(trie.nodes@, inserts + 5));
                        assert forall|p: Seq<u8>| #[trigger] trie_count_at(trie.nodes@, 0, p)
                            == trie_count_at(tc, 0, p) + (if p == pc {
                            1nat
                        } else {
                            0nat
                        }) by {
                            assert(trie_count_at(trie.nodes@, 0, p) == trie_count_at(tc, 0, p)
                                + plain_prefix_delta(single@, p));
                            if p == pc {
                                assert(pc.take(1) =~= pc);
                                assert(plain_prefix_delta(single@, p) == 1);
                            } else {
                                if plain_prefix_delta(single@, p) != 0 {
                                    assert(p.len() == 1 && p == single@.take(1));
                                    assert(single@.take(1) =~= pc);
                                    assert(false);
                                }
                            }
                        }
                    }
                }
                proof {
                    assert forall|p: Seq<u8>| #[trigger] trie_count_at(trie.nodes@, 0, p)
                        == trie_count_at(t0, 0, p) + t_cell_delta(*g, lim, ri, ci, p) by {
                        if p.len() == 1 {
                            if p == pc {
                                assert(p[0] == g.spec_cell(ri, ci));
                                assert(t_cell_delta(*g, lim, ri, ci, p) == 1);
                                assert(trie_count_at(trie.nodes@, 0, p) == trie_count_at(
                                    t0,
                                    0,
                                    p,
                                ) + 1);
                            } else {
                                assert(p =~= p);
                                assert(p[0] != central_char) by {
                                    if p[0] == central_char {
                                        assert(p =~= pc);
                                    }
                                }
                                assert(t_cell_delta(*g, lim, ri, ci, p) == 0);
                                assert forall|dir: Direction| true implies #[trigger] t_dir_delta(
                                    *g,
                                    lim,
                                    ri,
                                    ci,
                                    dir,
                                    p,
                                ) == 0 by {
                                    assert(g.run_seq(ri, ci, dir, 1) == pc);
                                }
                                assert(trie_count_at(trie.nodes@, 0, p) == trie_count_at(
                                    tc,
                                    0,
                                    p,
                                ));
                                assert(trie_count_at(tc, 0, p) == trie_count_at(t0, 0, p));
                            }
                        } else {
                            assert(p != pc);
                            assert(trie_count_at(trie.nodes@, 0, p) == trie_count_at(tc, 0, p));
                        }
                    }
                    assert forall|p: Seq<u8>| #[trigger] trie_count_at(trie.nodes@, 0, p)
                        + t_row_delta(*g, lim, ri, ci + 1, p) + t_grid_delta(*g, lim, ri + 1, p)
                        == t_grid_delta(*g, lim, 0, p) by {
                        assert(t_row_delta(*g, lim, ri, ci, p) == t_cell_delta(*g, lim, ri, ci, p)
                            + t_row_delta(*g, lim, ri, ci + 1, p));
                    }
                    inserts = inserts + 5;
                    assert(5 * ((row as int) * (cols as int) + col as int + 1) == 5 * ((
                    row as int) * (cols as int) + col as int) + 5) by (nonlinear_arith);
                }
                col += 1;
            }
            proof {
                assert(5 * ((row as int + 1) * (cols as int)) == 5 * ((row as int) * (
                cols as int) + cols as int)) by (nonlinear_arith);
                assert forall|p: Seq<u8>| #[trigger] trie_count_at(trie.nodes@, 0, p)
                    + t_grid_delta(*g, lim, ri + 1, p) == t_grid_delta(*g, lim, 0, p) by {
                    assert(t_row_delta(*g, lim, ri, cols as int, p) == 0);
                }
            }
            row += 1;
        }
        proof {
            assert(5 * ((rows as int) * (cols as int)) <= usize::MAX as int / 2)
                by (nonlinear_arith)
                requires
                    g.data@.len() == (rows as int) * (cols as int),
                    g.data@.len() * 32 <= usize::MAX,
            ;
            assert forall|p: Seq<u8>| #[trigger] trie_count_at(trie.nodes@, 0, p) == trie_model(
                *g,
                lim,
                p,
            ) by {
                assert(t_grid_delta(*g, lim, rows as int, p) == 0);
            }
        }
        trie
    }

    /// Walks `word` from the root and returns the count at its end node; 0
    /// when the walk falls off the trie.
    fn walk(&self, word: &[u8]) -> (r: usize)
        requires
            self.wf(),
        ensures
            r as nat == self.count_of(word@),
    {
        let mut cur: usize = 0;
        let mut d: usize = 0;
        proof {
            assert(word@.skip(0) =~= word@);
        }
        while d < word.len()
            invariant
                self.wf(),
                cur < self.nodes@.len(),
                d <= word@.len(),
                self.count_of(word@) == trie_count_at(self.nodes@, cur as int, word@.skip(d as int)),
            decreases word@.len() - d,
        {
            let b = word[d];
            match find_child(&self.nodes[cur], b) {
                Some(j) => {
                    proof {
                        lemma_child_idx_edge(self.nodes@[cur as int].children@, b, 0);
                        assert(word@.skip(d as int).skip(1) =~= word@.skip(d as int + 1));
                    }
                    cur = j;
                    d += 1;
                },
                None => {
                    return 0;
                },
            }
        }
        proof {
            assert(word@.skip(word@.len() as int).len() == 0);
        }
        self.nodes[cur].count
    }
}

/// The length of the run the build inserts at an anchor: the largest length
/// in `[2, l]` whose run stays in the grid, or 0 when none does.
pub open spec fn longest_len(g: Crossword, r: int, c: int, dir: Direction, l: int) -> int
    decreases l,
{
    if l < 2 {
        0
    } else if g.in_bounds_run(r, c, dir, l) {
        l
    } else {
        longest_len(g, r, c, dir, l - 1)
    }
}

/// With no run available strictly above `to`, the search from `from` lands
/// where the search from `to` lands.
pub proof fn lemma_longest_none(g: Crossword, r: int, c: int, dir: Direction, from: int, to: int)
    requires
        1 <= to <= from,
        forall|l: int| to < l <= from ==> !g.in_bounds_run(r, c, dir, l),
    ensures
        longest_len(g, r, c, dir, from) == longest_len(g, r, c, dir, to),
    decreases from - to,
{
    if to < from {
        lemma_longest_none(g, r, c, dir, from - 1, to);
    }
}

/// A positive longest length names an in-bounds run of length at least 2,
/// no longer than the limit.
pub proof fn lemma_longest_props(g: Crossword, r: int, c: int, dir: Direction, l: int)
    ensures
        longest_len(g, r, c, dir, l) == 0 || (2 <= longest_len(g, r, c, dir, l) <= l
            && g.in_bounds_run(r, c, dir, longest_len(g, r, c, dir, l))),
    decreases l,
{
    if l >= 2 && !g.in_bounds_run(r, c, dir, l) {
        lemma_longest_props(g, r, c, dir, l - 1);
    }
}

/// The search finds at least any in-bounds length within the limit.
pub proof fn lemma_longest_ge(g: Crossword, r: int, c: int, dir: Direction, l: int, x: int)
    requires
        2 <= x <= l,
        g.in_bounds_run(r, c, dir, x),
    ensures
        x <= longest_len(g, r, c, dir, l),
    decreases l,
{
    if l > x && !g.in_bounds_run(r, c, dir, l) {
        lemma_longest_ge(g, r, c, dir, l - 1, x);
    }
}

/// What one anchor's insertion adds to the count of path `p`: one for every
/// prefix of the longest inserted run.
pub open spec fn t_dir_delta(
    g: Crossword,
    max_len: int,
    r: int,
    c: int,
    dir: Direction,
    p: Seq<u8>,
) -> nat {
    let ll = longest_len(g, r, c, dir, max_len);
    if 1 <= p.len() <= ll && p == g.run_seq(r, c, dir, p.len() as int) {
        1
    } else {
        0
    }
}

/// What one cell contributes in total: its own byte exactly once (the
/// duplicate-direction correction), and each direction's longer prefixes.
pub open spec fn t_cell_delta(g: Crossword, max_len: int, r: int, c: int, p: Seq<u8>) -> nat {
    if p.len() == 1 {
        if p[0] == g.spec_cell(r, c) {
            1
        } else {
            0
        }
    } else {
        t_dir_delta(g, max_len, r, c, Direction::Right, p) + t_dir_delta(
            g,
            max_len,
            r,
            c,
            Direction::Down,
            p,
        ) + t_dir_delta(g, max_len, r, c, Direction::Diagonal, p) + t_dir_delta(
            g,
            max_len,
            r,
            c,
            Direction::AntiDiagonal,
            p,
        )
    }
}

/// Contributions of row `r`, cells `c..`.
pub open spec fn t_row_delta(g: Crossword, max_len: int, r: int, c: int, p: Seq<u8>) -> nat
    decreases g.spec_cols() - c,
{
    if c < 0 || c >= g.spec_cols() {
        0
    } else {
        t_cell_delta(g, max_len, r, c, p) + t_row_delta(g, max_len, r, c + 1, p)
    }
}

/// Contributions of rows `r..`.
pub open spec fn t_grid_delta(g: Crossword, max_len: int, r: int, p: Seq<u8>) -> nat
    decreases g.rows - r,
{
    if r < 0 || r >= g.rows {
        0
    } else {
        t_row_delta(g, max_len, r, 0, p) + t_grid_delta(g, max_len, r + 1, p)
    }
}

/// The count the finished trie stores for `p`: every cell's own byte once,
/// and one per anchor whose longest inserted run has `p` as a prefix.
pub open spec fn trie_model(g: Crossword, max_len: int, p: Seq<u8>) -> nat {
    t_grid_delta(g, max_len, 0, p)
}

/// The length cap a build uses: the given limit, or the larger grid
/// dimension.
pub open spec fn effective_limit(g: Crossword, lim: Option<usize>) -> int {
    match lim {
        Some(l) => l as int,
        None => if g.rows > g.spec_cols() {
            g.rows as int
        } else {
            g.spec_cols()
        },
    }
}

/// The headroom `inserts + 5 <= usize::MAX - 1` needed before each cell's
/// insertions, from the grid's size bound.
proof fn lemma_insert_headroom(g: Crossword, row: int, col: int, inserts: int)
    requires
        g.wf(),
        g.fits(),
        0 <= inserts,
        0 <= row < g.rows,
        0 <= col < g.spec_cols(),
        inserts <= 5 * (row * g.spec_cols() + col),
        g.data@.len() == (g.rows as int) * g.spec_cols(),
    ensures
        inserts + 5 <= usize::MAX - 1,
{
    crate::lemma_grid_index(g, row, col);
    assert(5 * (row * g.spec_cols() + col) + 5 <= 5 * g.data@.len()) by (nonlinear_arith)
        requires
            0 <= row * g.spec_cols() + col < g.data@.len(),
    ;
}

/// Inserts the longest in-bounds run at `(row, col)` along `dir`, trying
/// lengths from `max_len` down to 2; reports whether any length fit. The
/// trie's counts grow by exactly that run's prefix profile.
fn insert_longest(
    trie: &mut Trie,
    g: &Crossword,
    row: usize,
    col: usize,
    dir: Direction,
    max_len: usize,
) -> (inserted: bool)
    requires
        g.wf(),
        old(trie).wf(),
        counts_bound(old(trie).nodes@, usize::MAX - 1),
    ensures
        final(trie).wf(),
        forall|b: int|
            #[trigger] counts_bound(old(trie).nodes@, b) && b >= 0 ==> counts_bound(
                final(trie).nodes@,
                b + 1,
            ),
        inserted == (longest_len(*g, row as int, col as int, dir, max_len as int) >= 2),
        forall|p: Seq<u8>|
            #[trigger] trie_count_at(final(trie).nodes@, 0, p) == trie_count_at(
                old(trie).nodes@,
                0,
                p,
            ) + t_dir_delta(*g, max_len as int, row as int, col as int, dir, p),
{
    let ghost ri = row as int;
    let ghost ci = col as int;
    let mut len = max_len;
    while len >= 2
        invariant
            g.wf(),
            trie.wf(),
            trie.nodes@ == old(trie).nodes@,
            counts_bound(old(trie).nodes@, usize::MAX - 1),
            ri == row as int,
            ci == col as int,
            len <= max_len,
            forall|l: int| len < l <= max_len ==> !g.in_bounds_run(ri, ci, dir, l),
        decreases len,
    {
        match g.get_word(row, col, dir, len) {
            Some(wvec) => {
                proof {
                    if len < max_len {
                        lemma_longest_none(*g, ri, ci, dir, max_len as int, len as int);
                    }
                    assert(longest_len(*g, ri, ci, dir, max_len as int) == len);
                }
                trie.insert(wvec.as_slice());
                proof {
                    assert forall|p: Seq<u8>|
                        #[trigger] trie_count_at(trie.nodes@, 0, p) == trie_count_at(
                        old(trie).nodes@,
                        0,
                        p,
                    ) + t_dir_delta(*g, max_len as int, ri, ci, dir, p) by {
                        if 0 <= p.len() <= len {
                            crate::hashmap::lemma_run_take(*g, ri, ci, dir, len as int, p.len() as int);
                        }
                        assert(plain_prefix_delta(wvec@, p) == t_dir_delta(
                            *g,
                            max_len as int,
                            ri,
                            ci,
                            dir,
                            p,
                        ));
                    }
                }
                return true;
            },
            None => {},
        }
        len -= 1;
    }
    proof {
        if max_len >= 2 {
            lemma_longest_none(*g, ri, ci, dir, max_len as int, 1);
        }
        assert(longest_len(*g, ri, ci, dir, max_len as int) == 0);
        assert forall|p: Seq<u8>|
            #[trigger] trie_count_at(trie.nodes@, 0, p) == trie_count_at(old(trie).nodes@, 0, p)
                + t_dir_delta(*g, max_len as int, ri, ci, dir, p) by {
            assert(t_dir_delta(*g, max_len as int, ri, ci, dir, p) == 0);
        }
    }
    false
}

/// For word lengths between 2 and the cap, one anchor's contribution is
/// exactly whether the word reads forward there.
proof fn lemma_t_dir_matches(g: Crossword, lim: int, r: int, c: int, dir: Direction, w: Seq<u8>)
    requires
        g.wf(),
        2 <= w.len() <= lim,
    ensures
        t_dir_delta(g, lim, r, c, dir, w) == (if crate::forward_match(g, w, r, c, dir) {
            1nat
        } else {
            0nat
        }),
{
    let lw = w.len() as int;
    lemma_longest_props(g, r, c, dir, lim);
    let ll = longest_len(g, r, c, dir, lim);
    if t_dir_delta(g, lim, r, c, dir, w) == 1 {
        crate::lemma_in_bounds_prefix(g, r, c, dir, ll, lw);
        assert(crate::forward_match(g, w, r, c, dir));
    }
    if crate::forward_match(g, w, r, c, dir) {
        lemma_longest_ge(g, r, c, dir, lim, lw);
        assert(t_dir_delta(g, lim, r, c, dir, w) == 1);
    }
}

proof fn lemma_t_row_matches(g: Crossword, lim: int, w: Seq<u8>, r: int, c: int)
    requires
        g.wf(),
        2 <= w.len() <= lim,
    ensures
        t_row_delta(g, lim, r, c, w) == crate::row_forward_count(g, w, r, c),
    decreases g.spec_cols() - c,
{
    if 0 <= c < g.spec_cols() {
        lemma_t_dir_matches(g, lim, r, c, Direction::Right, w);
        lemma_t_dir_matches(g, lim, r, c, Direction::Down, w);
        lemma_t_dir_matches(g, lim, r, c, Direction::Diagonal, w);
        lemma_t_dir_matches(g, lim, r, c, Direction::AntiDiagonal, w);
        lemma_t_row_matches(g, lim, w, r, c + 1);
    }
}

proof fn lemma_t_grid_matches(g: Crossword, lim: int, w: Seq<u8>, r: int)
    requires
        g.wf(),
        2 <= w.len() <= lim,
    ensures
        t_grid_delta(g, lim, r, w) == crate::grid_forward_count(g, w, r),
    decreases g.rows - r,
{
    if 0 <= r < g.rows {
        lemma_t_row_matches(g, lim, w, r, 0);
        lemma_t_grid_matches(g, lim, w, r + 1);
    }
}

/// For word lengths between 2 and the cap, the trie stores exactly the
/// forward occurrence count.
pub proof fn lemma_trie_model_forward(g: Crossword, lim: int, w: Seq<u8>)
    requires
        g.wf(),
        2 <= w.len() <= lim,
    ensures
        trie_model(g, lim, w) == crate::forward_count(g, w),
{
    lemma_t_grid_matches(g, lim, w, 0);
}

proof fn lemma_t_row_zero(g: Crossword, lim: int, w: Seq<u8>, r: int, c: int)
    requires
        (w.len() > lim && w.len() >= 2) || w.len() == 0,
    ensures
        t_row_delta(g, lim, r, c, w) == 0,
    decreases g.spec_cols() - c,
{
    if 0 <= c < g.spec_cols() {
        lemma_longest_props(g, r, c, Direction::Right, lim);
        lemma_longest_props(g, r, c, Direction::Down, lim);
        lemma_longest_props(g, r, c, Direction::Diagonal, lim);
        lemma_longest_props(g, r, c, Direction::AntiDiagonal, lim);
        lemma_t_row_zero(g, lim, w, r, c + 1);
    }
}

/// Multi-byte words longer than the cap (and the empty word) are stored
/// nowhere: the cap bounds every inserted run. A single byte is exempt: the
/// lone-character fallback stores it regardless of the cap.
pub proof fn lemma_trie_model_capped(g: Crossword, lim: int, w: Seq<u8>)
    requires
        (w.len() > lim && w.len() >= 2) || w.len() == 0,
    ensures
        trie_model(g, lim, w) == 0,
{
    lemma_trie_model_capped_from(g, lim, w, 0);
}

proof fn lemma_trie_model_capped_from(g: Crossword, lim: int, w: Seq<u8>, r: int)
    requires
        (w.len() > lim && w.len() >= 2) || w.len() == 0,
    ensures
        t_grid_delta(g, lim, r, w) == 0,
    decreases g.rows - r,
{
    if 0 <= r < g.rows {
        lemma_t_row_zero(g, lim, w, r, 0);
        lemma_trie_model_capped_from(g, lim, w, r + 1);
    }
}

/// Cells of row `r` (cells `c..`) holding byte `b`.
pub open spec fn byte_row_count(g: Crossword, b: u8, r: int, c: int) -> nat
    decreases g.spec_cols() - c,
{
    if c < 0 || c >= g.spec_cols() {
        0
    } else {
        (if g.spec_cell(r, c) == b {
            1nat
        } else {
            0nat
        }) + byte_row_count(g, b, r, c + 1)
    }
}

/// Cells of rows `r..` holding byte `b`.
pub open spec fn byte_grid_count(g: Crossword, b: u8, r: int) -> nat
    decreases g.rows - r,
{
    if r < 0 || r >= g.rows {
        0
    } else {
        byte_row_count(g, b, r, 0) + byte_grid_count(g, b, r + 1)
    }
}

proof fn lemma_byte_row(g: Crossword, lim: int, b: u8, r: int, c: int)
    ensures
        t_row_delta(g, lim, r, c, seq![b]) == byte_row_count(g, b, r, c),
    decreases g.spec_cols() - c,
{
    if 0 <= c < g.spec_cols() {
        lemma_byte_row(g, lim, b, r, c + 1);
    }
}

/// A single byte is stored once per cell holding it: the central-character
/// correction counts each physical cell exactly once, however many
/// directions started a run there.
pub proof fn lemma_trie_model_single(g: Crossword, lim: int, b: u8)
    ensures
        trie_model(g, lim, seq![b]) == byte_grid_count(g, b, 0),
{
    lemma_trie_model_single_from(g, lim, b, 0);
}

proof fn lemma_trie_model_single_from(g: Crossword, lim: int, b: u8, r: int)
    ensures
        t_grid_delta(g, lim, r, seq![b]) == byte_grid_count(g, b, r),
    decreases g.rows - r,
{
    if 0 <= r < g.rows {
        lemma_byte_row(g, lim, b, r, 0);
        lemma_trie_model_single_from(g, lim, b, r + 1);
    }
}

/// A trie built over `g` answers every query of length 2 up to its cap
/// exactly as the brute-force oracle; with the default cap that is every
/// multi-byte word that can occur at all.
pub proof fn lemma_trie_matches_oracle(t: Trie, g: Crossword, lim: Option<usize>, w: Seq<u8>)
    requires
        g.wf(),
        forall|p: Seq<u8>| #[trigger] t.count_of(p) == trie_model(g, effective_limit(g, lim), p),
        2 <= w.len() <= effective_limit(g, lim),
    ensures
        t.count_spec(w) == crate::naive_count(g, w),
{
    let el = effective_limit(g, lim);
    assert(t.count_of(w) == trie_model(g, el, w));
    assert(t.count_of(w.reverse()) == trie_model(g, el, w.reverse()));
    lemma_trie_model_forward(g, el, w);
    lemma_trie_model_forward(g, el, w.reverse());
    crate::lemma_naive_forward_split(g, w);
}

/// A query longer than the cap counts 0, even when the word occurs in the
/// grid: no inserted run is that long.
pub proof fn lemma_trie_capped_query(t: Trie, g: Crossword, lim: Option<usize>, w: Seq<u8>)
    requires
        forall|p: Seq<u8>| #[trigger] t.count_of(p) == trie_model(g, effective_limit(g, lim), p),
        w.len() > effective_limit(g, lim),
        w.len() >= 2,
    ensures
        t.count_spec(w) == 0,
{
    let el = effective_limit(g, lim);
    assert(t.count_of(w) == trie_model(g, el, w));
    assert(t.count_of(w.reverse()) == trie_model(g, el, w.reverse()));
    lemma_trie_model_capped(g, el, w);
    lemma_trie_model_capped(g, el, w.reverse());
}

/// Building the trie twice over one grid with one cap gives the same answer
/// to every query: the stored counts are a function of the grid and the cap
/// alone.
pub proof fn lemma_trie_build_invariant(
    g: Crossword,
    lim: Option<usize>,
    t1: Trie,
    t2: Trie,
    w: Seq<u8>,
)
    requires
        forall|p: Seq<u8>| #[trigger] t1.count_of(p) == trie_model(g, effective_limit(g, lim), p),
        forall|p: Seq<u8>| #[trigger] t2.count_of(p) == trie_model(g, effective_limit(g, lim), p),
    ensures
        t1.count_spec(w) == t2.count_spec(w),
{
    assert(t1.count_of(w) == trie_model(g, effective_limit(g, lim), w));
    assert(t2.count_of(w) == trie_model(g, effective_limit(g, lim), w));
    assert(t1.count_of(w.reverse()) == trie_model(g, effective_limit(g, lim), w.reverse()));
    assert(t2.count_of(w.reverse()) == trie_model(g, effective_limit(g, lim), w.reverse()));
}

/// A palindromic query walks the trie once: the single walk already stands
/// for both orientations, so the count is not doubled.
pub proof fn lemma_trie_palindrome_once(t: Trie, w: Seq<u8>)
    requires
        w.len() >= 1,
        w == w.reverse(),
    ensures
        t.count_spec(w) == t.count_of(w),
{
}

impl Solver for Trie {
    open spec fn solver_wf(&self) -> bool {
        self.wf() && counts_bound(self.nodes@, usize::MAX as int / 2)
    }

    open spec fn count_spec(&self, word: Seq<u8>) -> nat {
        if word.len() == 0 {
            0
        } else if word == word.reverse() {
            self.count_of(word)
        } else {
            self.count_of(word) + self.count_of(word.reverse())
        }
    }

    fn count_occurrences(&self, word: &[u8]) -> (r: usize) {
        if word.len() == 0 {
            return 0;
        }
        if is_palindrome(word) {
            self.walk(word)
        } else {
            let rev = reverse_bytes(word);
            let a = self.walk(word);
            let b = self.walk(rev.as_slice());
            proof {
                lemma_count_at_bound(self.nodes@, 0, word@, usize::MAX as int / 2);
                lemma_count_at_bound(self.nodes@, 0, word@.reverse(), usize::MAX as int / 2);
            }
            a + b
        }
    }
}

} // verus!
