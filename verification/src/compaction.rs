//! Compacting the tree: a chain of two linked nodes of the same type is
//! merged into one.
//!
//! The shrinking rule: two nodes are merged when they have the same type
//! (label), the first has exactly one way out (`fan_out == 1`), its link
//! leads to the second, and the second has exactly one way in
//! (`fan_in == 1`).  The merged node keeps the id, label and ways in of
//! the first, appends the second's tooltip to the first's, and takes over
//! the links and ways out of the second; it goes to the end of the tree.
//!
//! The scan goes through the tree by position; a position that steps
//! back below zero wraps around, as unsigned arithmetic does.  The scan
//! cannot finish in three situations, which are reported as faults: a
//! node that should have a link has none, a link leads to an id that is
//! not in the tree (the scan would examine the same node forever), or a
//! position falls outside the tree.  Each step reports trace lines, which
//! the shell shows when debugging.

use vstd::prelude::*;
use crate::text::{append_chars, chars_eq, chars_of, string_of};
use crate::graph::{tree_view, CommonInfo, Edge, EdgeView, Node, NodeView};
use crate::building::{find_node, ids_distinct, lemma_find_node_absent, lemma_find_node_bounds, number_line, text_line};
use crate::order::strings_view;
use crate::text::decimal;

verus! {

/// Why a compaction cannot finish.
#[derive(Debug, Clone, Copy, PartialEq, Eq, Structural)]
pub enum CompactFault {
    /// A node with one way out has no link.
    MissingEdge,
    /// A link leads to an id that no node of the tree has.
    NoTarget,
    /// The scan reached a position outside the tree.
    OutOfRange,
}

/// Where a compaction stands.
pub enum CompactStatus {
    Running,
    Done,
    Failed(CompactFault),
}

/// The state of a compaction: the tree, the position scanned, how many
/// merges were made, and whether it goes on.
pub struct CompactState {
    pub tree: Seq<NodeView>,
    pub pos: int,
    pub merges: nat,
    pub status: CompactStatus,
}

/// The node that replaces `current` and `next` when they are merged.
pub open spec fn merged_node(current: NodeView, next: NodeView) -> NodeView {
    NodeView {
        id: current.id,
        label: current.label,
        tooltip: current.tooltip + next.tooltip,
        edges: next.edges.map_values(|e: EdgeView| EdgeView { source: current.id, ..e }),
        fan_in: current.fan_in,
        fan_out: next.fan_out,
        is_visited: false,
        is_merged: false,
    }
}

/// The state that follows when the scan moves to `pos` over `tree`.
pub open spec fn advance(tree: Seq<NodeView>, pos: int, merges: nat) -> CompactState {
    CompactState {
        tree: tree,
        pos: pos,
        merges: merges,
        status: if tree.len() == pos {
            CompactStatus::Done
        } else {
            CompactStatus::Running
        },
    }
}

/// One step of the scan: examine the node at the current position.
pub open spec fn compact_step(s: CompactState) -> CompactState {
    let t = s.tree;
    let p = s.pos;
    if !(0 <= p < t.len()) {
        CompactState { status: CompactStatus::Failed(CompactFault::OutOfRange), ..s }
    } else {
        let c = t[p];
        if c.fan_out == 1 {
            if c.edges.len() == 0 {
                CompactState { status: CompactStatus::Failed(CompactFault::MissingEdge), ..s }
            } else {
                match find_node(t, c.edges[0].target) {
                    None => CompactState {
                        status: CompactStatus::Failed(CompactFault::NoTarget),
                        ..s
                    },
                    Some(q) => {
                        let n = t[q];
                        if n.label == c.label && n.fan_in == 1 {
                            let t1 = t.remove(p);
                            let q2 = if q > p {
                                q - 1
                            } else {
                                q
                            };
                            let p2 = if q > p {
                                p
                            } else {
                                p - 1
                            };
                            if q2 >= t1.len() {
                                CompactState {
                                    tree: t1,
                                    status: CompactStatus::Failed(CompactFault::OutOfRange),
                                    ..s
                                }
                            } else {
                                advance(t1.remove(q2).push(merged_node(c, n)), p2, s.merges + 1)
                            }
                        } else {
                            advance(t, p + 1, s.merges)
                        }
                    },
                }
            }
        } else {
            advance(t, p + 1, s.merges)
        }
    }
}

/// The scan after `n` steps, or when it has stopped.
pub open spec fn compact_steps(s: CompactState, n: nat) -> CompactState
    decreases n,
{
    if n == 0 {
        s
    } else {
        let p = compact_steps(s, (n - 1) as nat);
        if p.status is Running {
            compact_step(p)
        } else {
            p
        }
    }
}

/// The scan of `tree` from its first position.
pub open spec fn compact_start(tree: Seq<NodeView>) -> CompactState {
    CompactState { tree: tree, pos: 0, merges: 0, status: CompactStatus::Running }
}

/// The scan of `tree` stops after `n` steps with the state `s`.
pub open spec fn compact_stops_with(tree: Seq<NodeView>, n: nat, s: CompactState) -> bool {
    compact_steps(compact_start(tree), n) == s && !(s.status is Running)
}

/// The scan of `tree` finishes without a fault.
pub open spec fn compaction_completes(tree: Seq<NodeView>) -> bool {
    exists|n: nat| #[trigger] compact_steps(compact_start(tree), n).status is Done
}

/// Once stopped, the scan stays where it stopped.
pub proof fn lemma_compact_steps_stable(s: CompactState, a: nat, b: nat)
    requires
        a <= b,
        !(compact_steps(s, a).status is Running),
    ensures
        compact_steps(s, b) == compact_steps(s, a),
    decreases b - a,
{
    if a < b {
        lemma_compact_steps_stable(s, a, (b - 1) as nat);
    }
}

/// `n` carries the id, label and ways in of a node of `tree`.
pub open spec fn descends_from(tree: Seq<NodeView>, n: NodeView) -> bool {
    exists|k: int|
        0 <= k < tree.len() && #[trigger] tree[k].id == n.id && tree[k].label == n.label
            && tree[k].fan_in == n.fan_in
}

/// What the scan keeps, however far it has gone: unless it has failed,
/// each merge has taken exactly one node out of the tree; and every node of
/// its tree carries the id, label and ways in of a node it started from.
pub proof fn lemma_compaction_accounts(tree: Seq<NodeView>, n: nat)
    ensures
        ({
            let s = compact_steps(compact_start(tree), n);
            &&& s.status is Failed || s.tree.len() + s.merges == tree.len()
            &&& forall|i: int| 0 <= i < s.tree.len() ==> descends_from(tree, #[trigger] s.tree[i])
        }),
    decreases n,
{
    let s = compact_steps(compact_start(tree), n);
    if n == 0 {
        assert forall|i: int| 0 <= i < s.tree.len() implies descends_from(tree, #[trigger] s.tree[i]) by {
            assert(tree[i].id == s.tree[i].id);
        }
    } else {
        lemma_compaction_accounts(tree, (n - 1) as nat);
        let p = compact_steps(compact_start(tree), (n - 1) as nat);
        if p.status is Running {
            let t = p.tree;
            let pos = p.pos;
            if 0 <= pos < t.len() {
                let c = t[pos];
                if c.fan_out == 1 && c.edges.len() > 0 {
                    crate::building::lemma_find_node_bounds(t, c.edges[0].target);
                    if let Some(q) = find_node(t, c.edges[0].target) {
                        let nn = t[q];
                        if nn.label == c.label && nn.fan_in == 1 {
                            let t1 = t.remove(pos);
                            let q2 = if q > pos {
                                q - 1
                            } else {
                                q
                            };
                            assert forall|i: int| 0 <= i < t1.len() implies descends_from(tree, #[trigger] t1[i]) by {
                                if i < pos {
                                    assert(t1[i] == t[i]);
                                } else {
                                    assert(t1[i] == t[i + 1]);
                                }
                            }
                            if q2 < t1.len() {
                                let t3 = t1.remove(q2);
                                let t2 = t3.push(merged_node(c, nn));
                                assert(descends_from(tree, t[pos]));
                                assert forall|i: int| 0 <= i < t2.len() implies descends_from(tree, #[trigger] t2[i]) by {
                                    if i < t3.len() {
                                        assert(t2[i] == t3[i]);
                                        if i < q2 {
                                            assert(t3[i] == t1[i]);
                                        } else {
                                            assert(t3[i] == t1[i + 1]);
                                        }
                                    } else {
                                        assert(t2[i] == merged_node(c, nn));
                                        let k = choose|k: int|
                                            0 <= k < tree.len() && #[trigger] tree[k].id == t[pos].id
                                                && tree[k].label == t[pos].label
                                                && tree[k].fan_in == t[pos].fan_in;
                                        assert(tree[k].id == t2[i].id);
                                    }
                                }
                            }
                        }
                    }
                }
            }
        }
    }
}

// ---------------------------------------------------------------------------
// Maximal compaction
// ---------------------------------------------------------------------------

/// `x` has one way out, and its link leads to `id`.
pub open spec fn points_singly(x: NodeView, id: Seq<char>) -> bool {
    x.fan_out == 1 && x.edges.len() > 0 && x.edges[0].target == id
}

/// A node with one way in is where the single link of at most one node
/// leads.
pub open spec fn single_ways_in(t: Seq<NodeView>) -> bool {
    forall|y: int, a: int, b: int|
        0 <= y < t.len() && t[y].fan_in == 1 && 0 <= a < b < t.len() ==> !(points_singly(
            #[trigger] t[a],
            #[trigger] t[y].id,
        ) && points_singly(#[trigger] t[b], t[y].id))
}

/// The node at `i` is not merged when the scan looks at it: it has not
/// exactly one way out, or its link leads to a node of the tree that has
/// another label or not exactly one way in.
pub open spec fn settled(t: Seq<NodeView>, i: int) -> bool {
    t[i].fan_out != 1 || (t[i].edges.len() > 0 && match find_node(t, t[i].edges[0].target) {
        Some(q) => !(t[q].label == t[i].label && t[q].fan_in == 1),
        None => false,
    })
}

/// The node at `i` has one way in and its single link leads to itself.
pub open spec fn loops_on_itself(t: Seq<NodeView>, i: int) -> bool {
    0 <= i < t.len() && points_singly(t[i], t[i].id) && t[i].fan_in == 1
}

/// What the scan keeps: ids stay distinct and single ways in stay single;
/// no node before the position links to itself alone; and unless some node
/// does, every node before the position is settled.  A finished scan has
/// looked at every node of a tree that is not empty.
pub open spec fn scan_keeps(s: CompactState) -> bool {
    s.status is Failed || {
        &&& ids_distinct(s.tree)
        &&& single_ways_in(s.tree)
        &&& forall|i: int| 0 <= i < s.pos && i < s.tree.len() ==> !#[trigger] loops_on_itself(s.tree, i)
        &&& (exists|i: int| #[trigger] loops_on_itself(s.tree, i)) || forall|i: int|
            0 <= i < s.pos && i < s.tree.len() ==> #[trigger] settled(s.tree, i)
        &&& s.status is Done ==> s.pos == s.tree.len() && s.tree.len() >= 1
    }
}

proof fn lemma_find_unique(t: Seq<NodeView>, k: int)
    requires
        ids_distinct(t),
        0 <= k < t.len(),
    ensures
        find_node(t, t[k].id) == Some(k),
{
    lemma_find_node_bounds(t, t[k].id);
    match find_node(t, t[k].id) {
        None => {
            lemma_find_node_absent(t, t[k].id);
            assert(t[k].id != t[k].id);
        },
        Some(j) => {
            if j < k {
                assert(t[j].id != t[k].id);
            } else if k < j {
                assert(t[k].id != t[j].id);
            }
        },
    }
}

/// The index in `t` of the node at `i` once the nodes at `a < b` are taken
/// out.
pub open spec fn kept_index(a: int, b: int, i: int) -> int {
    if i < a {
        i
    } else if i + 1 < b {
        i + 1
    } else {
        i + 2
    }
}

proof fn lemma_two_removed(t: Seq<NodeView>, p: int, q: int, m: NodeView)
    requires
        0 <= p < t.len(),
        0 <= q < t.len(),
        p != q,
    ensures
        ({
            let q2 = if q > p { q - 1 } else { q };
            let t2 = t.remove(p).remove(q2).push(m);
            let a = if p < q { p } else { q };
            let b = if p < q { q } else { p };
            &&& t2.len() == t.len() - 1
            &&& t2[t2.len() - 1] == m
            &&& forall|i: int| 0 <= i < t2.len() - 1 ==> #[trigger] t2[i] == t[kept_index(a, b, i)]
        }),
{
    let q2 = if q > p { q - 1 } else { q };
    let t1 = t.remove(p);
    let t3 = t1.remove(q2);
    let t2 = t3.push(m);
    let a = if p < q { p } else { q };
    let b = if p < q { q } else { p };
    assert forall|i: int| 0 <= i < t2.len() - 1 implies #[trigger] t2[i] == t[kept_index(a, b, i)] by {
        assert(t2[i] == t3[i]);
        if i < q2 {
            assert(t3[i] == t1[i]);
        } else {
            assert(t3[i] == t1[i + 1]);
        }
    }
}

/// The tree after two nodes are taken out and `m` is added keeps distinct
/// ids and single ways in, where `m` carries the id and ways in of the node
/// at `p` and links as the node at `src` does.
proof fn lemma_merged_tree_keeps(t: Seq<NodeView>, p: int, q: int, src: int, m: NodeView)
    requires
        0 <= p < t.len(),
        0 <= q < t.len(),
        p != q,
        src == p || src == q,
        ids_distinct(t),
        single_ways_in(t),
        m.id == t[p].id,
        m.fan_in == t[p].fan_in,
        m.fan_out == t[src].fan_out,
        m.edges.len() == t[src].edges.len(),
        m.edges.len() > 0 ==> m.edges[0].target == t[src].edges[0].target,
    ensures
        ids_distinct(t.remove(p).remove(if q > p { q - 1 } else { q }).push(m)),
        single_ways_in(t.remove(p).remove(if q > p { q - 1 } else { q }).push(m)),
{
    let q2 = if q > p { q - 1 } else { q };
    let t2 = t.remove(p).remove(q2).push(m);
    let a = if p < q { p } else { q };
    let b = if p < q { q } else { p };
    lemma_two_removed(t, p, q, m);
    let last = t2.len() - 1;
    assert forall|x: int, z: int| 0 <= x < z < t2.len() implies #[trigger] t2[x].id != #[trigger] t2[z].id by {
        assert(t2[x] == t[kept_index(a, b, x)]);
        if z < last {
            assert(t2[z] == t[kept_index(a, b, z)]);
            let kx = kept_index(a, b, x);
            let kz = kept_index(a, b, z);
            assert(kx < kz);
            assert(t[kx].id != t[kz].id);
        } else {
            let kx = kept_index(a, b, x);
            if kx < p {
                assert(t[kx].id != t[p].id);
            } else {
                assert(t[p].id != t[kx].id);
            }
        }
    }
    // A node of `t2` links as `ptr(i)` of `t` does, and has the id and ways in of `tgt(i)`.
    assert forall|y: int, x: int, z: int|
        0 <= y < t2.len() && t2[y].fan_in == 1 && 0 <= x < z < t2.len() implies !(points_singly(
            #[trigger] t2[x],
            #[trigger] t2[y].id,
        ) && points_singly(#[trigger] t2[z], t2[y].id)) by {
        let ty = if y == last { p } else { kept_index(a, b, y) };
        let px = kept_index(a, b, x);
        let pz = if z == last { src } else { kept_index(a, b, z) };
        assert(t2[y].id == t[ty].id && t2[y].fan_in == t[ty].fan_in);
        assert(t2[x] == t[px]);
        assert(points_singly(t2[z], t2[y].id) == points_singly(t[pz], t[ty].id));
        assert(px != pz);
        if points_singly(t2[x], t2[y].id) && points_singly(t2[z], t2[y].id) {
            if px < pz {
                assert(!(points_singly(t[px], t[ty].id) && points_singly(t[pz], t[ty].id)));
            } else {
                assert(!(points_singly(t[pz], t[ty].id) && points_singly(t[px], t[ty].id)));
            }
        }
    }
}

proof fn lemma_scan_advance_keeps(s: CompactState)
    requires
        scan_keeps(s),
        s.status is Running,
        0 <= s.pos < s.tree.len(),
        !loops_on_itself(s.tree, s.pos),
        settled(s.tree, s.pos),
    ensures
        scan_keeps(advance(s.tree, s.pos + 1, s.merges)),
{
    let t = s.tree;
    let p = s.pos;
    let s2 = advance(t, p + 1, s.merges);
    assert forall|i: int| 0 <= i < s2.pos && i < t.len() implies !#[trigger] loops_on_itself(t, i) by {
        if i < p {
            assert(!loops_on_itself(t, i));
        }
    }
    if !(exists|i: int| #[trigger] loops_on_itself(t, i)) {
        assert forall|i: int| 0 <= i < s2.pos && i < t.len() implies #[trigger] settled(t, i) by {
            if i < p {
                assert(settled(t, i));
            }
        }
    }
}

proof fn lemma_scan_self_merge_keeps(s: CompactState)
    requires
        scan_keeps(s),
        s.status is Running,
        0 <= s.pos < s.tree.len(),
        points_singly(s.tree[s.pos], s.tree[s.pos].id),
        s.tree[s.pos].fan_in == 1,
        s.pos < s.tree.len() - 1,
    ensures
        scan_keeps(
            advance(
                s.tree.remove(s.pos).remove(s.pos).push(merged_node(s.tree[s.pos], s.tree[s.pos])),
                s.pos - 1,
                s.merges + 1,
            ),
        ),
{
    let t = s.tree;
    let p = s.pos;
    let c = t[p];
    let m = merged_node(c, c);
    let t2 = t.remove(p).remove(p).push(m);
    assert(m.edges[0] == EdgeView { source: c.id, ..c.edges[0] });
    lemma_merged_tree_keeps(t, p, p + 1, p, m);
    lemma_two_removed(t, p, p + 1, m);
    let last = t2.len() - 1;
    assert(loops_on_itself(t2, last));
    assert forall|i: int| 0 <= i < p - 1 && i < t2.len() implies !#[trigger] loops_on_itself(t2, i) by {
        assert(t2[i] == t[kept_index(p, p + 1, i)]);
        assert(!loops_on_itself(t, i));
    }
}

proof fn lemma_scan_merge_keeps(s: CompactState, q: int)
    requires
        scan_keeps(s),
        s.status is Running,
        0 <= s.pos < s.tree.len(),
        0 <= q < s.tree.len(),
        q != s.pos,
        points_singly(s.tree[s.pos], s.tree[q].id),
        s.tree[q].label == s.tree[s.pos].label,
        s.tree[q].fan_in == 1,
    ensures
        ({
            let t = s.tree;
            let p = s.pos;
            let q2 = if q > p { q - 1 } else { q };
            let p2 = if q > p { p } else { p - 1 };
            scan_keeps(advance(t.remove(p).remove(q2).push(merged_node(t[p], t[q])), p2, s.merges + 1))
        }),
{
    let t = s.tree;
    let p = s.pos;
    let c = t[p];
    let n = t[q];
    let q2 = if q > p { q - 1 } else { q };
    let p2 = if q > p { p } else { p - 1 };
    let m = merged_node(c, n);
    let t2 = t.remove(p).remove(q2).push(m);
    let a = if p < q { p } else { q };
    let b = if p < q { q } else { p };
    if m.edges.len() > 0 {
        assert(m.edges[0] == EdgeView { source: c.id, ..n.edges[0] });
    }
    lemma_merged_tree_keeps(t, p, q, q, m);
    lemma_two_removed(t, p, q, m);
    let last = t2.len() - 1;
    assert forall|i: int| 0 <= i < p2 && i < t2.len() implies !#[trigger] loops_on_itself(t2, i) by {
        assert(i < last);
        assert(t2[i] == t[kept_index(a, b, i)]);
        assert(!loops_on_itself(t, kept_index(a, b, i)));
    }
    if !(exists|i: int| #[trigger] loops_on_itself(t2, i)) {
        assert forall|j: int| !#[trigger] loops_on_itself(t, j) by {
            if loops_on_itself(t, j) {
                if j == p {
                    lemma_find_unique(t, p);
                    assert(t[q].id == t[p].id);
                    assert(t[p].id != t[q].id) by {
                        if p < q {
                            assert(t[p].id != t[q].id);
                        } else {
                            assert(t[q].id != t[p].id);
                        }
                    }
                } else if j == q {
                    if p < q {
                        assert(!(points_singly(t[p], t[q].id) && points_singly(t[q], t[q].id)));
                    } else {
                        assert(!(points_singly(t[q], t[q].id) && points_singly(t[p], t[q].id)));
                    }
                } else {
                    let i = if j < a { j } else if j < b { j - 1 } else { j - 2 };
                    assert(kept_index(a, b, i) == j);
                    assert(t2[i] == t[j]);
                    assert(loops_on_itself(t2, i));
                }
            }
        }
        assert forall|i: int| 0 <= i < p2 && i < t2.len() implies #[trigger] settled(t2, i) by {
            let k = kept_index(a, b, i);
            assert(t2[i] == t[k]);
            assert(k < p);
            assert(settled(t, k));
            if t[k].fan_out == 1 {
                let target = t[k].edges[0].target;
                lemma_find_node_bounds(t, target);
                let a0 = find_node(t, target)->0;
                if a0 == q {
                    if k < p {
                        assert(!(points_singly(t[k], t[q].id) && points_singly(t[p], t[q].id)));
                    }
                } else if a0 == p {
                    lemma_find_unique(t2, last);
                    assert(t2[last].id == target);
                } else {
                    let i0 = if a0 < a { a0 } else if a0 < b { a0 - 1 } else { a0 - 2 };
                    assert(kept_index(a, b, i0) == a0);
                    assert(t2[i0] == t[a0]);
                    lemma_find_unique(t2, i0);
                }
            }
        }
    }
}

/// One step of the scan keeps what `scan_keeps` states.
proof fn lemma_scan_step_keeps(s: CompactState)
    requires
        scan_keeps(s),
        s.status is Running,
    ensures
        scan_keeps(compact_step(s)),
{
    let t = s.tree;
    let p = s.pos;
    if 0 <= p < t.len() {
        let c = t[p];
        if c.fan_out == 1 {
            if c.edges.len() > 0 {
                lemma_find_node_bounds(t, c.edges[0].target);
                if let Some(q) = find_node(t, c.edges[0].target) {
                    let n = t[q];
                    if n.label == c.label && n.fan_in == 1 {
                        if q == p {
                            if p < t.len() - 1 {
                                lemma_scan_self_merge_keeps(s);
                            }
                        } else {
                            lemma_scan_merge_keeps(s, q);
                        }
                    } else {
                        if loops_on_itself(t, p) {
                            lemma_find_unique(t, p);
                        }
                        lemma_scan_advance_keeps(s);
                    }
                }
            }
        } else {
            lemma_scan_advance_keeps(s);
        }
    }
}

proof fn lemma_scan_keeps_steps(tree: Seq<NodeView>, n: nat)
    requires
        ids_distinct(tree),
        single_ways_in(tree),
    ensures
        scan_keeps(compact_steps(compact_start(tree), n)),
    decreases n,
{
    if n > 0 {
        lemma_scan_keeps_steps(tree, (n - 1) as nat);
        let p = compact_steps(compact_start(tree), (n - 1) as nat);
        if p.status is Running {
            lemma_scan_step_keeps(p);
        }
    }
}

proof fn lemma_settled_scan(f: Seq<NodeView>, k: nat)
    requires
        forall|i: int| 0 <= i < f.len() ==> #[trigger] settled(f, i),
        f.len() >= 1,
        k <= f.len(),
    ensures
        compact_steps(compact_start(f), k) == (CompactState {
            tree: f,
            pos: k as int,
            merges: 0,
            status: if k == f.len() { CompactStatus::Done } else { CompactStatus::Running },
        }),
    decreases k,
{
    if k > 0 {
        lemma_settled_scan(f, (k - 1) as nat);
        let i = k - 1;
        assert(settled(f, i));
        if f[i].fan_out == 1 {
            lemma_find_node_bounds(f, f[i].edges[0].target);
        }
    }
}

/// Compaction is maximal and cannot go further.  On a tree whose ids are
/// distinct and where a node with one way in is the single link of at most
/// one node, a finished scan leaves no two nodes that the shrinking rule
/// would merge (every node with one way out links to a node of the tree
/// with another label or not exactly one way in), and scanning the result
/// again finishes at once, with no merge and the tree unchanged.
pub proof fn lemma_compaction_is_maximal(tree: Seq<NodeView>, n: nat)
    requires
        ids_distinct(tree),
        single_ways_in(tree),
        compact_steps(compact_start(tree), n).status is Done,
    ensures
        ({
            let f = compact_steps(compact_start(tree), n).tree;
            &&& forall|i: int| 0 <= i < f.len() ==> #[trigger] settled(f, i)
            &&& compact_steps(compact_start(f), f.len()) == (CompactState {
                tree: f,
                pos: f.len() as int,
                merges: 0,
                status: CompactStatus::Done,
            })
        }),
{
    lemma_scan_keeps_steps(tree, n);
    let s = compact_steps(compact_start(tree), n);
    let f = s.tree;
    assert forall|i: int| 0 <= i < f.len() implies !#[trigger] loops_on_itself(f, i) by {}
    assert forall|i: int| 0 <= i < f.len() implies #[trigger] settled(f, i) by {
        if !(exists|j: int| #[trigger] loops_on_itself(f, j)) {
        } else {
            let j = choose|j: int| #[trigger] loops_on_itself(f, j);
            assert(!loops_on_itself(f, j));
        }
    }
    lemma_settled_scan(f, f.len());
}

// ---------------------------------------------------------------------------
// Links leave the node that holds them
// ---------------------------------------------------------------------------

/// The merged node of `current` and `next`: the id, label and ways in of
/// `current`, the tooltips of both one after the other, and the links and
/// ways out of `next`, each link now leaving `current`'s id and otherwise
/// as it was.
pub proof fn lemma_merged_node_links(current: NodeView, next: NodeView)
    ensures
        ({
            let m = merged_node(current, next);
            &&& m.id == current.id
            &&& m.label == current.label
            &&& m.tooltip == current.tooltip + next.tooltip
            &&& m.fan_in == current.fan_in
            &&& m.fan_out == next.fan_out
            &&& m.edges.len() == next.edges.len()
            &&& forall|k: int|
                0 <= k < m.edges.len() ==> {
                    &&& #[trigger] m.edges[k].source == current.id
                    &&& m.edges[k].id == next.edges[k].id
                    &&& m.edges[k].label == next.edges[k].label
                    &&& m.edges[k].tooltip == next.edges[k].tooltip
                    &&& m.edges[k].target == next.edges[k].target
                }
        }),
{
}

/// Every link of every node of `t` leaves that node.
pub open spec fn links_leave_their_nodes(t: Seq<NodeView>) -> bool {
    forall|i: int, k: int| 0 <= i < t.len() && 0 <= k < t[i].edges.len() ==> #[trigger] t[i].edges[k].source == t[i].id
}

proof fn lemma_remove_keeps_links(t: Seq<NodeView>, p: int)
    requires
        0 <= p < t.len(),
        links_leave_their_nodes(t),
    ensures
        links_leave_their_nodes(t.remove(p)),
{
    let t1 = t.remove(p);
    assert forall|i: int, k: int| 0 <= i < t1.len() && 0 <= k < t1[i].edges.len() implies #[trigger] t1[i].edges[k].source == t1[i].id by {
        if i < p {
            assert(t1[i] == t[i]);
        } else {
            assert(t1[i] == t[i + 1]);
        }
    }
}

/// However far the scan goes, in a tree whose links leave the nodes that
/// hold them, every link still leaves the node that holds it: a merged node
/// holds its links as its own.
pub proof fn lemma_scan_keeps_link_sources(tree: Seq<NodeView>, n: nat)
    requires
        links_leave_their_nodes(tree),
    ensures
        links_leave_their_nodes(compact_steps(compact_start(tree), n).tree),
    decreases n,
{
    if n > 0 {
        lemma_scan_keeps_link_sources(tree, (n - 1) as nat);
        let s = compact_steps(compact_start(tree), (n - 1) as nat);
        if s.status is Running {
            let t = s.tree;
            let p = s.pos;
            if 0 <= p < t.len() {
                let c = t[p];
                if c.fan_out == 1 && c.edges.len() > 0 {
                    lemma_find_node_bounds(t, c.edges[0].target);
                    if let Some(q) = find_node(t, c.edges[0].target) {
                        let nn = t[q];
                        if nn.label == c.label && nn.fan_in == 1 {
                            let t1 = t.remove(p);
                            lemma_remove_keeps_links(t, p);
                            let q2 = if q > p { q - 1 } else { q };
                            if q2 < t1.len() {
                                lemma_remove_keeps_links(t1, q2);
                                let t3 = t1.remove(q2);
                                let m = merged_node(c, nn);
                                lemma_merged_node_links(c, nn);
                                let t2 = t3.push(m);
                                assert forall|i: int, k: int| 0 <= i < t2.len() && 0 <= k < t2[i].edges.len() implies #[trigger] t2[i].edges[k].source == t2[i].id by {
                                    if i < t3.len() {
                                        assert(t2[i] == t3[i]);
                                    } else {
                                        assert(t2[i] == m);
                                    }
                                }
                            }
                        }
                    }
                }
            }
        }
    }
}

// ---------------------------------------------------------------------------
// The debug trace of the scan
// ---------------------------------------------------------------------------

/// The trace lines of the scan's step at position `p` of `t`.
pub open spec fn scan_step_trace(t: Seq<NodeView>, p: int) -> Seq<Seq<char>> {
    if !(0 <= p < t.len()) {
        Seq::empty()
    } else {
        let c = t[p];
        let head = seq!["### Get current node at position: "@ + decimal(p as nat) + " => "@ + c.id];
        if c.fan_out == 1 && c.edges.len() > 0 {
            let about = seq![
                "### Current Node Id: "@ + c.id,
                "### Current Node Type: "@ + c.label,
                "### Current Node FanOut: "@ + decimal(c.fan_out as nat),
                "### Current Node: edge list length "@ + decimal(c.edges.len()),
            ];
            match find_node(t, c.edges[0].target) {
                None => head + about + seq!["### Current Node: No adjacent node found!"@],
                Some(q) => {
                    let n = t[q];
                    let got = seq!["### Current Node: Got adjacent node: "@ + n.id];
                    if n.label == c.label && n.fan_in == 1 {
                        let merge = seq![
                            "### Current Node: Merge two node current "@ + c.id + " and next"@ + n.id
                                + " and push to tree_stack back"@,
                        ];
                        let q2 = if q > p {
                            q - 1
                        } else {
                            q
                        };
                        if q2 >= t.len() - 1 {
                            head + about + got + merge
                        } else {
                            head + about + got + merge + seq![
                                "Inserting "@ + c.id + " at position "@ + decimal((t.len() - 2) as nat),
                            ]
                        }
                    } else {
                        head + about + got
                    }
                },
            }
        } else {
            head
        }
    }
}

/// The trace lines of the first `n` steps of the scan.
pub open spec fn compact_trace(s0: CompactState, n: nat) -> Seq<Seq<char>>
    decreases n,
{
    if n == 0 {
        Seq::empty()
    } else {
        let p = compact_steps(s0, (n - 1) as nat);
        compact_trace(s0, (n - 1) as nat) + if p.status is Running {
            scan_step_trace(p.tree, p.pos)
        } else {
            Seq::empty()
        }
    }
}

// ---------------------------------------------------------------------------
// Executable scan
// ---------------------------------------------------------------------------

fn same_label(a: &String, b: &String) -> (r: bool)
    ensures
        r == (a@ == b@),
{
    chars_eq(&chars_of(a.as_str()), &chars_of(b.as_str()))
}

fn find_node_index(tree: &Vec<Node>, id: &String) -> (r: Option<usize>)
    ensures
        match r {
            Some(i) => find_node(tree_view(tree@), id@) == Some(i as int),
            None => find_node(tree_view(tree@), id@) is None,
        },
{
    let ghost t = tree_view(tree@);
    let mut i: usize = 0;
    assert(t.take(0) =~= Seq::<NodeView>::empty());
    while i < tree.len()
        invariant
            t == tree_view(tree@),
            i <= t.len(),
            find_node(t.take(i as int), id@) is None,
        decreases tree.len() - i,
    {
        assert(t.take(i + 1).drop_last() =~= t.take(i as int));
        if tree[i].id == *id {
            proof {
                crate::building::lemma_find_node_prefix(t, i as int + 1, id@);
            }
            return Some(i);
        }
        i = i + 1;
    }
    assert(t.take(i as int) =~= t);
    None
}

fn push_lines(v: &mut Vec<String>, w: Vec<String>)
    ensures
        strings_view(final(v)@) == strings_view(old(v)@) + strings_view(w@),
{
    let ghost v0 = strings_view(v@);
    let ghost ws = strings_view(w@);
    let mut k: usize = 0;
    while k < w.len()
        invariant
            k <= ws.len(),
            ws == strings_view(w@),
            strings_view(v@) == v0 + ws.take(k as int),
        decreases w.len() - k,
    {
        let x = w[k].clone();
        assert(x@ == ws[k as int]);
        let ghost before = strings_view(v@);
        v.push(x);
        assert(strings_view(v@) =~= before.push(ws[k as int]));
        assert(ws.take(k + 1) =~= ws.take(k as int).push(ws[k as int]));
        k = k + 1;
    }
    assert(ws.take(k as int) =~= ws);
}

/// The trace lines of the scan's step at position `p`.
fn scan_step_lines(tree: &Vec<Node>, p: usize) -> (r: Vec<String>)
    requires
        p < tree@.len(),
    ensures
        strings_view(r@) == scan_step_trace(tree_view(tree@), p as int),
{
    let ghost t = tree_view(tree@);
    let mut r: Vec<String> = Vec::new();
    let c = &tree[p];
    assert(t[p as int] == c@);
    let mut head = chars_of("### Get current node at position: ");
    crate::text::append_chars(&mut head, &crate::text::decimal_exec(p as u64));
    crate::text::append_chars(&mut head, &chars_of(" => "));
    crate::text::append_chars(&mut head, &chars_of(c.id.as_str()));
    r.push(string_of(head.as_slice()));
    if c.fan_out == 1 && c.outgoing_edge_list.len() > 0 {
        r.push(text_line("### Current Node Id: ", &chars_of(c.id.as_str())));
        r.push(text_line("### Current Node Type: ", &chars_of(c.label.as_str())));
        r.push(number_line("### Current Node FanOut: ", c.fan_out as u64));
        r.push(number_line("### Current Node: edge list length ", c.outgoing_edge_list.len() as u64));
        let ghost about = strings_view(r@);
        proof {
            crate::building::lemma_find_node_bounds(t, t[p as int].edges[0].target);
        }
        assert(c.outgoing_edge_list@[0]@ == t[p as int].edges[0]);
        match find_node_index(tree, &c.outgoing_edge_list[0].target) {
            None => {
                r.push(string_of(chars_of("### Current Node: No adjacent node found!").as_slice()));
                assert(strings_view(r@) =~= scan_step_trace(t, p as int));
            },
            Some(q) => {
                let n = &tree[q];
                assert(t[q as int] == n@);
                r.push(text_line("### Current Node: Got adjacent node: ", &chars_of(n.id.as_str())));
                if same_label(&n.label, &c.label) && n.fan_in == 1 {
                    let mut m = chars_of("### Current Node: Merge two node current ");
                    crate::text::append_chars(&mut m, &chars_of(c.id.as_str()));
                    crate::text::append_chars(&mut m, &chars_of(" and next"));
                    crate::text::append_chars(&mut m, &chars_of(n.id.as_str()));
                    crate::text::append_chars(&mut m, &chars_of(" and push to tree_stack back"));
                    r.push(string_of(m.as_slice()));
                    let q2 = if q > p {
                        q - 1
                    } else {
                        q
                    };
                    if q2 < tree.len() - 1 {
                        let mut ins = chars_of("Inserting ");
                        crate::text::append_chars(&mut ins, &chars_of(c.id.as_str()));
                        crate::text::append_chars(&mut ins, &chars_of(" at position "));
                        crate::text::append_chars(&mut ins, &crate::text::decimal_exec((tree.len() - 2) as u64));
                        r.push(string_of(ins.as_slice()));
                    }
                }
                assert(strings_view(r@) =~= scan_step_trace(t, p as int));
            },
        }
    } else {
        assert(strings_view(r@) =~= scan_step_trace(t, p as int));
    }
    r
}

/// The merged node of `current` and `next`.
fn merge_nodes(current: &Node, next: &Node) -> (r: Node)
    ensures
        r@ == merged_node(current@, next@),
{
    let mut edges: Vec<Edge> = Vec::new();
    let mut k: usize = 0;
    while k < next.outgoing_edge_list.len()
        invariant
            k <= next.outgoing_edge_list@.len(),
            edges@.len() == k,
            forall|j: int|
                0 <= j < k ==> #[trigger] edges@[j]@ == (EdgeView {
                    source: current.id@,
                    ..next.outgoing_edge_list@[j]@
                }),
        decreases next.outgoing_edge_list.len() - k,
    {
        let e = &next.outgoing_edge_list[k];
        edges.push(
            Edge {
                id: e.id.clone(),
                label: e.label.clone(),
                tooltip: e.tooltip.clone(),
                source: current.id.clone(),
                target: e.target.clone(),
            },
        );
        k = k + 1;
    }
    let mut tip = chars_of(current.tooltip.as_str());
    append_chars(&mut tip, &chars_of(next.tooltip.as_str()));
    let r = Node {
        id: current.id.clone(),
        label: current.label.clone(),
        tooltip: string_of(tip.as_slice()),
        outgoing_edge_list: edges,
        fan_in: current.fan_in,
        fan_out: next.fan_out,
        is_visited: false,
        is_merged: false,
    };
    assert(r@.edges =~= merged_node(current@, next@).edges);
    r
}

/// Runs the scan over `tree`: on success the tree is compacted and the
/// number of merges returned; on a fault the tree is left as the scan had
/// made it when it stopped.  The lines the scan reports (shown when
/// debugging) are added to `trace`.
#[verifier::rlimit(80)]
#[verifier::spinoff_prover]
pub fn try_compact(tree: &mut Vec<Node>, trace: &mut Vec<String>) -> (r: Result<usize, CompactFault>)
    ensures
        exists|n: nat|
            {
                let s = #[trigger] compact_steps(compact_start(tree_view(old(tree)@)), n);
                &&& !(s.status is Running)
                &&& s.tree == tree_view(final(tree)@)
                &&& match r {
                    Ok(m) => s.status is Done && s.merges == m,
                    Err(f) => s.status == CompactStatus::Failed(f),
                }
                &&& strings_view(final(trace)@) == strings_view(old(trace)@) + compact_trace(
                    compact_start(tree_view(old(tree)@)),
                    n,
                )
            },
        r matches Ok(m) ==> final(tree)@.len() + m == old(tree)@.len(),
{
    let ghost init = compact_start(tree_view(tree@));
    let ghost t0 = strings_view(trace@);
    let ghost mut steps: nat = 0;
    let mut pos: usize = 0;
    let mut merged_counter: usize = 0;
    assert(init.tree.len() == tree.len());
    if tree.len() == 0 {
        proof {
            steps = 1;
            assert(init.tree.len() == 0);
            assert(compact_steps(init, 0) == init);
            assert(compact_steps(init, 1) == compact_step(init));
            assert(scan_step_trace(init.tree, 0) =~= Seq::<Seq<char>>::empty());
            assert(compact_trace(init, 0) =~= Seq::<Seq<char>>::empty());
            assert(compact_trace(init, 1) =~= Seq::<Seq<char>>::empty());
            assert(t0 + compact_trace(init, 1) =~= t0);
        }
        return Err(CompactFault::OutOfRange);
    }
    while pos < tree.len()
        invariant
            compact_steps(init, steps) == (CompactState {
                tree: tree_view(tree@),
                pos: pos as int,
                merges: merged_counter as nat,
                status: CompactStatus::Running,
            }),
            init == compact_start(tree_view(old(tree)@)),
            pos < tree@.len(),
            init.tree.len() <= usize::MAX,
            merged_counter <= init.tree.len(),
            tree@.len() + merged_counter == init.tree.len(),
            strings_view(trace@) == t0 + compact_trace(init, steps),
            t0 == strings_view(old(trace)@),
        decreases tree@.len(), tree@.len() - pos,
    {
        let ghost pre = compact_steps(init, steps);
        let lines = scan_step_lines(tree, pos);
        push_lines(trace, lines);
        proof {
            assert(compact_trace(init, steps + 1) == compact_trace(init, steps) + scan_step_trace(pre.tree, pre.pos));
            assert(strings_view(trace@) =~= t0 + compact_trace(init, steps + 1));
            steps = steps + 1;
            assert(compact_steps(init, steps) == compact_step(pre));
        }
        let p = pos;
        assert(pre.tree[p as int] == tree@[p as int]@);
        if tree[p].fan_out == 1 {
            if tree[p].outgoing_edge_list.len() == 0 {
                assert(pre.tree[p as int].edges.len() == 0);
                assert(compact_step(pre) == CompactState {
                    status: CompactStatus::Failed(CompactFault::MissingEdge),
                    ..pre
                });
                return Err(CompactFault::MissingEdge);
            }
            let q = match find_node_index(tree, &tree[p].outgoing_edge_list[0].target) {
                Some(q) => q,
                None => {
                    return Err(CompactFault::NoTarget);
                },
            };
            proof {
                crate::building::lemma_find_node_bounds(
                    pre.tree,
                    pre.tree[p as int].edges[0].target,
                );
            }
            assert(pre.tree[q as int] == tree@[q as int]@);
            if same_label(&tree[q].label, &tree[p].label) && tree[q].fan_in == 1 {
                let new_node = merge_nodes(&tree[p], &tree[q]);
                assert(new_node@ == merged_node(pre.tree[p as int], pre.tree[q as int]));
                let ghost t1 = pre.tree.remove(p as int);
                let _ = tree.remove(p);
                assert(tree_view(tree@) =~= t1);
                let q2 = if q > p {
                    q - 1
                } else {
                    q
                };
                if q2 >= tree.len() {
                    return Err(CompactFault::OutOfRange);
                }
                let _ = tree.remove(q2);
                let ghost nv = new_node@;
                tree.push(new_node);
                assert(tree_view(tree@) =~= t1.remove(q2 as int).push(nv));
                merged_counter = merged_counter + 1;
                if q <= p {
                    if p == 0 {
                        proof {
                            let mid = compact_steps(init, steps);
                            assert(mid == advance(tree_view(tree@), -1, merged_counter as nat));
                            assert(mid.pos == -1);
                            assert(compact_trace(init, steps + 1) =~= compact_trace(init, steps));
                            steps = steps + 1;
                            assert(compact_steps(init, steps) == compact_step(mid));
                            assert(compact_step(mid) == CompactState {
                                status: CompactStatus::Failed(CompactFault::OutOfRange),
                                ..mid
                            });
                        }
                        return Err(CompactFault::OutOfRange);
                    }
                    pos = p - 1;
                }
                if tree.len() == pos {
                    return Ok(merged_counter);
                }
                continue;
            }
        }
        pos = p + 1;
        if tree.len() == pos {
            return Ok(merged_counter);
        }
    }
    Ok(merged_counter)
}


/// The `compact` command: merges linked nodes with the same label, as the
/// module documentation describes.  The scan must be one that finishes.
pub fn compact(arg: &str, tree: &mut Vec<Node>, info: &mut CommonInfo)
    requires
        compaction_completes(tree_view(old(tree)@)),
    ensures
        *final(info) == *old(info),
        exists|n: nat|
            {
                let s = #[trigger] compact_steps(compact_start(tree_view(old(tree)@)), n);
                s.status is Done && s.tree == tree_view(final(tree)@)
            },
{
    let ghost start = compact_start(tree_view(tree@));
    let mut trace: Vec<String> = Vec::new();
    let r = try_compact(tree, &mut trace);
    proof {
        let n1 = choose|n: nat| #[trigger] compact_steps(start, n).status is Done;
        let n2 = choose|n: nat|
            {
                let s = #[trigger] compact_steps(start, n);
                &&& !(s.status is Running)
                &&& s.tree == tree_view(tree@)
                &&& match r {
                    Ok(m) => s.status is Done && s.merges == m,
                    Err(f) => s.status == CompactStatus::Failed(f),
                }
                &&& strings_view(trace@) == Seq::<Seq<char>>::empty() + compact_trace(start, n)
            };
        if n1 <= n2 {
            lemma_compact_steps_stable(start, n1, n2);
        } else {
            lemma_compact_steps_stable(start, n2, n1);
        }
    }
}

} // verus!
