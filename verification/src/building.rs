//! Building the tree that hangs from a root, by walking the links of the
//! decision table.
//!
//! The walk keeps a stack of ids still to visit and the list of links
//! (source id, target id) already followed.  Visiting an id whose row
//! exists counts one more way in (`fan_in`), adds the node of the row to
//! the tree the first time, and pushes the targets of the node's links
//! that were not followed before.  Ids without a row are dropped.  Each
//! step reports trace lines, which the shell shows when debugging.

use vstd::prelude::*;
use crate::text::{append_chars, chars_eq, chars_eq_str, chars_of, decimal, decimal_exec, string_of};
use crate::order::strings_view;
use crate::graph::{convert_row2node, row_to_node, tree_view, CommonInfo, Edge, EdgeView, Node, NodeView};
use crate::table::{HtmlTable, TableRowView};

verus! {

/// A link followed during the walk: the id of its source and of its target.
pub type IdPair = (Seq<char>, Seq<char>);

/// The state of the walk.
pub struct WalkState {
    pub tree: Seq<NodeView>,
    pub stack: Seq<Seq<char>>,
    pub visited: Seq<IdPair>,
}

/// Index of the first row whose id is `id`.
pub open spec fn find_row(rows: Seq<TableRowView>, id: Seq<char>) -> Option<int>
    decreases rows.len(),
{
    if rows.len() == 0 {
        None
    } else {
        match find_row(rows.drop_last(), id) {
            Some(j) => Some(j),
            None => if rows.last().id == Some(id) {
                Some(rows.len() - 1)
            } else {
                None
            },
        }
    }
}

/// Index of the first node of the tree whose id is `id`.
pub open spec fn find_node(tree: Seq<NodeView>, id: Seq<char>) -> Option<int>
    decreases tree.len(),
{
    if tree.len() == 0 {
        None
    } else {
        match find_node(tree.drop_last(), id) {
            Some(i) => Some(i),
            None => if tree.last().id == id {
                Some(tree.len() - 1)
            } else {
                None
            },
        }
    }
}

/// Follows the links `edges` out of the node `src`, in order: each link not
/// followed before is recorded and its target pushed on the stack.
pub open spec fn push_edges(
    src: Seq<char>,
    edges: Seq<EdgeView>,
    stack: Seq<Seq<char>>,
    visited: Seq<IdPair>,
) -> (Seq<Seq<char>>, Seq<IdPair>)
    decreases edges.len(),
{
    if edges.len() == 0 {
        (stack, visited)
    } else {
        let p = (src, edges[0].target);
        if visited.contains(p) {
            push_edges(src, edges.drop_first(), stack, visited)
        } else {
            push_edges(src, edges.drop_first(), stack.push(edges[0].target), visited.push(p))
        }
    }
}

/// `n` with one more way in.
pub open spec fn count_visit(n: NodeView) -> NodeView {
    NodeView { fan_in: vstd::wrapping::u32_specs::wrapping_add(n.fan_in, 1), ..n }
}

/// One step of the walk: visit the id on top of the stack.
pub open spec fn walk_step(rows: Seq<TableRowView>, s: WalkState) -> WalkState {
    let id = s.stack.last();
    let stack = s.stack.drop_last();
    match find_row(rows, id) {
        None => WalkState { tree: s.tree, stack: stack, visited: s.visited },
        Some(j) => {
            let tree1 = match find_node(s.tree, id) {
                Some(i) => s.tree,
                None => s.tree.push(row_to_node(true, rows[j])),
            };
            let i = match find_node(s.tree, id) {
                Some(i) => i,
                None => s.tree.len() as int,
            };
            let node = tree1[i];
            let pushed = push_edges(node.id, node.edges, stack, s.visited);
            WalkState { tree: tree1.update(i, count_visit(node)), stack: pushed.0, visited: pushed.1 }
        },
    }
}

/// The walk after `n` steps, or when it has emptied its stack.
pub open spec fn walk_steps(rows: Seq<TableRowView>, s: WalkState, n: nat) -> WalkState
    decreases n,
{
    if n == 0 {
        s
    } else {
        let p = walk_steps(rows, s, (n - 1) as nat);
        if p.stack.len() == 0 {
            p
        } else {
            walk_step(rows, p)
        }
    }
}

/// The walk from `root` over `tree` ends with the tree `result`.
pub open spec fn walk_ends_with(
    rows: Seq<TableRowView>,
    tree: Seq<NodeView>,
    root: Seq<char>,
    result: Seq<NodeView>,
) -> bool {
    exists|n: nat|
        {
            let s = #[trigger] walk_steps(
                rows,
                WalkState { tree: tree, stack: seq![root], visited: Seq::empty() },
                n,
            );
            s.stack.len() == 0 && s.tree == result
        }
}

/// The id of the whole forest.
pub open spec fn forest_root() -> Seq<char> {
    seq!['\\']
}

/// Every row has an id.
pub open spec fn rows_have_ids(rows: Seq<TableRowView>) -> bool {
    forall|j: int| 0 <= j < rows.len() ==> #[trigger] rows[j].id is Some
}

/// Looking for the row of `id` passes a row without an id before it comes
/// to a row with that id.
pub open spec fn search_meets_idless(rows: Seq<TableRowView>, id: Seq<char>) -> bool {
    exists|j: int|
        0 <= j < rows.len() && #[trigger] rows[j].id is None && forall|k: int|
            0 <= k < j ==> rows[k].id != Some(id)
}

/// The state a walk from `root` over `tree` starts in.
pub open spec fn walk_start(tree: Seq<NodeView>, root: Seq<char>) -> WalkState {
    WalkState { tree: tree, stack: seq![root], visited: Seq::empty() }
}

/// After `n` steps the walk does not look for an id past a row without id.
pub open spec fn reads_ids_at(rows: Seq<TableRowView>, s0: WalkState, n: nat) -> bool {
    let s = walk_steps(rows, s0, n);
    s.stack.len() > 0 ==> !search_meets_idless(rows, s.stack.last())
}

/// The walk from `root` over `tree` never looks for an id past a row
/// without an id (reading the id of such a row fails).
pub open spec fn walk_reads_ids(rows: Seq<TableRowView>, tree: Seq<NodeView>, root: Seq<char>) -> bool {
    forall|n: nat| #[trigger] reads_ids_at(rows, walk_start(tree, root), n)
}

/// What `build` makes of `tree`: from the forest root, every row's node
/// appended in order; from another root, the result of the walk.
pub open spec fn built_tree(
    rows: Seq<TableRowView>,
    tree: Seq<NodeView>,
    root: Seq<char>,
    result: Seq<NodeView>,
) -> bool {
    if root == forest_root() {
        result == tree + rows.map_values(|r: TableRowView| row_to_node(false, r))
    } else {
        walk_ends_with(rows, tree, root, result)
    }
}

// ---------------------------------------------------------------------------
// Termination: the links that can ever be followed
// ---------------------------------------------------------------------------

/// The links out of the nodes `nodes`.
pub open spec fn pairs_of_nodes(nodes: Seq<NodeView>) -> Seq<IdPair>
    decreases nodes.len(),
{
    if nodes.len() == 0 {
        Seq::empty()
    } else {
        pairs_of_nodes(nodes.drop_last()) + nodes.last().edges.map_values(
            |e: EdgeView| (nodes.last().id, e.target),
        )
    }
}

/// The nodes a walk may hold: those of the tree it starts from and those
/// of the rows.
pub open spec fn candidates(rows: Seq<TableRowView>, tree: Seq<NodeView>) -> Seq<NodeView> {
    tree + rows.map_values(|r: TableRowView| row_to_node(true, r))
}

/// `n` has the id and links of one of `cands`.
pub open spec fn from_candidates(n: NodeView, cands: Seq<NodeView>) -> bool {
    exists|c: int| 0 <= c < cands.len() && #[trigger] cands[c].id == n.id && cands[c].edges == n.edges
}

proof fn lemma_pairs_of_nodes_contains(nodes: Seq<NodeView>, c: int, k: int)
    requires
        0 <= c < nodes.len(),
        0 <= k < nodes[c].edges.len(),
    ensures
        pairs_of_nodes(nodes).contains((nodes[c].id, nodes[c].edges[k].target)),
    decreases nodes.len(),
{
    let last = nodes.last();
    let tail = last.edges.map_values(|e: EdgeView| (last.id, e.target));
    if c == nodes.len() - 1 {
        let all = pairs_of_nodes(nodes.drop_last()) + tail;
        assert(all[pairs_of_nodes(nodes.drop_last()).len() + k] == tail[k]);
    } else {
        lemma_pairs_of_nodes_contains(nodes.drop_last(), c, k);
        let prev = pairs_of_nodes(nodes.drop_last());
        let i = choose|i: int| 0 <= i < prev.len() && prev[i] == (nodes[c].id, nodes[c].edges[k].target);
        assert((prev + tail)[i] == prev[i]);
    }
}

/// A sequence without repetitions drawn from `b` is no longer than `b`.
proof fn lemma_unique_within_len<A>(a: Seq<A>, b: Seq<A>)
    requires
        a.no_duplicates(),
        forall|i: int| 0 <= i < a.len() ==> b.contains(#[trigger] a[i]),
    ensures
        a.len() <= b.len(),
{
    a.unique_seq_to_set();
    b.lemma_cardinality_of_set();
    assert(a.to_set().subset_of(b.to_set()));
    vstd::set_lib::lemma_len_subset(a.to_set(), b.to_set());
}

// ---------------------------------------------------------------------------
// The debug trace of the walk
// ---------------------------------------------------------------------------

/// `[Current node: <id>]`, the opening of a trace line about a node.
pub open spec fn current_tag(id: Seq<char>) -> Seq<char> {
    "[Current node: "@ + id + "]"@
}

/// The trace lines for the links `edges` out of `src`: one for each link
/// already followed, which is not followed again.
pub open spec fn edges_trace(src: Seq<char>, edges: Seq<EdgeView>, visited: Seq<IdPair>) -> Seq<Seq<char>>
    decreases edges.len(),
{
    if edges.len() == 0 {
        Seq::empty()
    } else {
        let p = (src, edges[0].target);
        if visited.contains(p) {
            seq![current_tag(src) + " Already traversed here ("@ + src + seq![','] + edges[0].target + seq![')']]
                + edges_trace(src, edges.drop_first(), visited)
        } else {
            edges_trace(src, edges.drop_first(), visited.push(p))
        }
    }
}

/// The first trace lines of a step: the size of the stack, and the id
/// taken from it.
pub open spec fn step_head(s: WalkState) -> Seq<Seq<char>> {
    seq!["### Stack size: "@ + decimal(s.stack.len()), "Got node with id: "@ + s.stack.last()]
}

/// The trace lines of one step of the walk.
pub open spec fn step_trace(rows: Seq<TableRowView>, s: WalkState) -> Seq<Seq<char>> {
    let id = s.stack.last();
    match find_row(rows, id) {
        None => step_head(s),
        Some(j) => {
            let tree1 = match find_node(s.tree, id) {
                Some(i) => s.tree,
                None => s.tree.push(row_to_node(true, rows[j])),
            };
            let i = match find_node(s.tree, id) {
                Some(i) => i,
                None => s.tree.len() as int,
            };
            let node = tree1[i];
            step_head(s) + seq![current_tag(id)] + (if find_node(s.tree, id) is None {
                seq![current_tag(id) + " is a new node -> pushed to tree stack"@]
            } else {
                Seq::empty()
            }) + seq![current_tag(id) + " Fan-in increased -> new value: "@ + decimal(count_visit(node).fan_in as nat)]
                + edges_trace(node.id, node.edges, s.visited) + seq![current_tag(id)
                + " Added new outgoing edges to visiting node stack -> length:"@ + decimal(node.fan_out as nat)]
        },
    }
}

/// The trace lines of the first `n` steps of the walk.
pub open spec fn walk_trace(rows: Seq<TableRowView>, s0: WalkState, n: nat) -> Seq<Seq<char>>
    decreases n,
{
    if n == 0 {
        Seq::empty()
    } else {
        let p = walk_steps(rows, s0, (n - 1) as nat);
        walk_trace(rows, s0, (n - 1) as nat) + if p.stack.len() > 0 {
            step_trace(rows, p)
        } else {
            Seq::empty()
        }
    }
}

/// `added` is the trace of building from `root` over `tree`: nothing from
/// the forest root, otherwise the trace of the whole walk.
pub open spec fn build_trace(rows: Seq<TableRowView>, tree: Seq<NodeView>, root: Seq<char>, added: Seq<Seq<char>>) -> bool {
    if root == forest_root() {
        added == Seq::<Seq<char>>::empty()
    } else {
        exists|n: nat|
            {
                let s = #[trigger] walk_steps(rows, walk_start(tree, root), n);
                s.stack.len() == 0 && added == walk_trace(rows, walk_start(tree, root), n)
            }
    }
}

pub(crate) fn text_line(head: &str, v: &Vec<char>) -> (r: String)
    ensures
        r@ == head@ + v@,
{
    let mut w = chars_of(head);
    append_chars(&mut w, v);
    string_of(w.as_slice())
}

pub(crate) fn number_line(head: &str, n: u64) -> (r: String)
    ensures
        r@ == head@ + decimal(n as nat),
{
    text_line(head, &decimal_exec(n))
}

fn tag_chars(id: &Vec<char>) -> (r: Vec<char>)
    ensures
        r@ == current_tag(id@),
{
    let mut w = chars_of("[Current node: ");
    append_chars(&mut w, id);
    append_chars(&mut w, &chars_of("]"));
    w
}

fn tag_line(id: &Vec<char>, tail: &str) -> (r: String)
    ensures
        r@ == current_tag(id@) + tail@,
{
    let mut w = tag_chars(id);
    append_chars(&mut w, &chars_of(tail));
    string_of(w.as_slice())
}

fn tag_number_line(id: &Vec<char>, tail: &str, n: u64) -> (r: String)
    ensures
        r@ == current_tag(id@) + tail@ + decimal(n as nat),
{
    let mut w = tag_chars(id);
    append_chars(&mut w, &chars_of(tail));
    append_chars(&mut w, &decimal_exec(n));
    string_of(w.as_slice())
}

fn traversed_line(src: &Vec<char>, target: &Vec<char>) -> (r: String)
    ensures
        r@ == current_tag(src@) + " Already traversed here ("@ + src@ + seq![','] + target@ + seq![')'],
{
    let mut w = tag_chars(src);
    append_chars(&mut w, &chars_of(" Already traversed here ("));
    append_chars(&mut w, src);
    w.push(',');
    append_chars(&mut w, target);
    w.push(')');
    string_of(w.as_slice())
}

// ---------------------------------------------------------------------------
// Executable walk
// ---------------------------------------------------------------------------

/// Index of the first row whose id is `id`; `Err` when a row without an id
/// comes before it.
fn find_row_checked(table: &HtmlTable, id: &Vec<char>) -> (r: Result<Option<usize>, ()>)
    ensures
        r is Err <==> search_meets_idless(table@, id@),
        r matches Ok(Some(j)) ==> find_row(table@, id@) == Some(j as int),
        r matches Ok(None) ==> find_row(table@, id@) is None,
{
    let ghost rows = table@;
    let mut j: usize = 0;
    assert(rows.take(0) =~= Seq::<TableRowView>::empty());
    while j < table.rows.len()
        invariant
            rows == table@,
            j <= rows.len(),
            find_row(rows.take(j as int), id@) is None,
            forall|k: int| 0 <= k < j ==> #[trigger] rows[k].id is Some && rows[k].id != Some(id@),
        decreases table.rows.len() - j,
    {
        assert(rows.take(j + 1).drop_last() =~= rows.take(j as int));
        match &table.rows[j].id {
            None => {
                assert(rows[j as int].id is None);
                return Err(());
            },
            Some(s) => {
                if chars_eq(&chars_of(s.as_str()), id) {
                    proof {
                        lemma_find_row_prefix(rows, j as int + 1, id@);
                        assert forall|x: int| 0 <= x < rows.len() && #[trigger] rows[x].id is None implies !(forall|k: int|
                            0 <= k < x ==> rows[k].id != Some(id@)) by {
                            assert(x > j);
                            assert(rows[j as int].id == Some(id@));
                        }
                    }
                    return Ok(Some(j));
                }
            },
        }
        j = j + 1;
    }
    assert(rows.take(j as int) =~= rows);
    proof {
        assert forall|x: int| 0 <= x < rows.len() implies !(#[trigger] rows[x].id is None) by {}
    }
    Ok(None)
}

/// The first match in a prefix is the first match in the whole.
proof fn lemma_find_row_prefix(rows: Seq<TableRowView>, k: int, id: Seq<char>)
    requires
        0 <= k <= rows.len(),
        find_row(rows.take(k), id) is Some,
    ensures
        find_row(rows, id) == find_row(rows.take(k), id),
    decreases rows.len() - k,
{
    if k < rows.len() {
        assert(rows.take(k + 1).drop_last() =~= rows.take(k));
        lemma_find_row_prefix(rows, k + 1, id);
    } else {
        assert(rows.take(k) =~= rows);
    }
}

/// The first match in a prefix of the tree is the first match in the
/// whole tree.
pub proof fn lemma_find_node_prefix(tree: Seq<NodeView>, k: int, id: Seq<char>)
    requires
        0 <= k <= tree.len(),
        find_node(tree.take(k), id) is Some,
    ensures
        find_node(tree, id) == find_node(tree.take(k), id),
    decreases tree.len() - k,
{
    if k < tree.len() {
        assert(tree.take(k + 1).drop_last() =~= tree.take(k));
        lemma_find_node_prefix(tree, k + 1, id);
    } else {
        assert(tree.take(k) =~= tree);
    }
}

/// A node found by id is in the tree and has that id.
pub proof fn lemma_find_node_bounds(tree: Seq<NodeView>, id: Seq<char>)
    ensures
        find_node(tree, id) matches Some(i) ==> 0 <= i < tree.len() && tree[i].id == id,
    decreases tree.len(),
{
    if tree.len() > 0 {
        lemma_find_node_bounds(tree.drop_last(), id);
    }
}

proof fn lemma_find_row_bounds(rows: Seq<TableRowView>, id: Seq<char>)
    ensures
        find_row(rows, id) matches Some(j) ==> 0 <= j < rows.len() && rows[j].id == Some(id),
    decreases rows.len(),
{
    if rows.len() > 0 {
        lemma_find_row_bounds(rows.drop_last(), id);
    }
}

/// Index of the first node whose id is `id`.
fn find_node_exec(tree: &Vec<Node>, id: &Vec<char>) -> (r: Option<usize>)
    ensures
        match r {
            Some(i) => find_node(tree_view(tree@), id@) == Some(i as int),
            None => find_node(tree_view(tree@), id@) is None,
        },
{
    let ghost t = tree_view(tree@);
    let mut i: usize = 0;
    assert(t.take(0) =~= Seq::<NodeView>::empty());
    while i < tree.len()
        invariant
            t == tree_view(tree@),
            i <= t.len(),
            find_node(t.take(i as int), id@) is None,
        decreases tree.len() - i,
    {
        assert(t.take(i + 1).drop_last() =~= t.take(i as int));
        if chars_eq(&chars_of(tree[i].id.as_str()), id) {
            proof {
                lemma_find_node_prefix(t, i as int + 1, id@);
            }
            return Some(i);
        }
        i = i + 1;
    }
    assert(t.take(i as int) =~= t);
    None
}

/// Whether the pair `(src, dst)` was followed.
fn visited_contains(visited: &Vec<(Vec<char>, Vec<char>)>, src: &Vec<char>, dst: &Vec<char>) -> (r: bool)
    ensures
        r == pairs_view(visited@).contains((src@, dst@)),
{
    let ghost pv = pairs_view(visited@);
    let mut i: usize = 0;
    while i < visited.len()
        invariant
            pv == pairs_view(visited@),
            i <= visited@.len(),
            forall|j: int| 0 <= j < i ==> pv[j] != (src@, dst@),
        decreases visited.len() - i,
    {
        if chars_eq(&visited[i].0, src) && chars_eq(&visited[i].1, dst) {
            assert(pv[i as int] == (src@, dst@));
            return true;
        }
        i = i + 1;
    }
    false
}

/// The values of recorded pairs.
pub open spec fn pairs_view(v: Seq<(Vec<char>, Vec<char>)>) -> Seq<IdPair> {
    v.map_values(|p: (Vec<char>, Vec<char>)| (p.0@, p.1@))
}

/// The values of the ids on the stack.
pub open spec fn stack_view(v: Seq<Vec<char>>) -> Seq<Seq<char>> {
    v.map_values(|p: Vec<char>| p@)
}


/// The values of the links of a node.
pub open spec fn edges_view(v: Seq<Edge>) -> Seq<EdgeView> {
    v.map_values(|e: Edge| e@)
}

/// Follows the links `edges` out of `src`, as `push_edges` describes.
fn push_edges_exec(
    src: &Vec<char>,
    edges: &Vec<Edge>,
    stack: &mut Vec<Vec<char>>,
    visited: &mut Vec<(Vec<char>, Vec<char>)>,
    trace: &mut Vec<String>,
)
    requires
        pairs_view(old(visited)@).no_duplicates(),
    ensures
        strings_view(final(trace)@) == strings_view(old(trace)@) + edges_trace(
            src@,
            edges_view(edges@),
            pairs_view(old(visited)@),
        ),
        (stack_view(final(stack)@), pairs_view(final(visited)@)) == push_edges(
            src@,
            edges_view(edges@),
            stack_view(old(stack)@),
            pairs_view(old(visited)@),
        ),
        pairs_view(final(visited)@).no_duplicates(),
        final(visited)@.len() >= old(visited)@.len(),
        final(visited)@.len() - old(visited)@.len() == final(stack)@.len() - old(stack)@.len(),
        forall|i: int|
            0 <= i < old(visited)@.len() ==> #[trigger] pairs_view(final(visited)@)[i]
                == pairs_view(old(visited)@)[i],
        forall|i: int|
            old(visited)@.len() <= i < final(visited)@.len() ==> exists|k: int|
                0 <= k < edges@.len() && #[trigger] pairs_view(final(visited)@)[i] == (
                    src@,
                    edges@[k]@.target,
                ),
{
    let ghost ev = edges_view(edges@);
    let ghost st0 = stack_view(stack@);
    let ghost vi0 = pairs_view(visited@);
    let ghost t0 = strings_view(trace@);
    let mut k: usize = 0;
    assert(ev.skip(0) =~= ev);
    assert(t0 + edges_trace(src@, ev, vi0) =~= strings_view(trace@) + edges_trace(src@, ev.skip(0), pairs_view(visited@)));
    while k < edges.len()
        invariant
            ev == edges_view(edges@),
            t0 + edges_trace(src@, ev, vi0) == strings_view(trace@) + edges_trace(
                src@,
                ev.skip(k as int),
                pairs_view(visited@),
            ),
            k <= ev.len(),
            push_edges(src@, ev, st0, vi0) == push_edges(
                src@,
                ev.skip(k as int),
                stack_view(stack@),
                pairs_view(visited@),
            ),
            pairs_view(visited@).no_duplicates(),
            visited@.len() >= vi0.len(),
            visited@.len() - vi0.len() == stack@.len() - st0.len(),
            forall|i: int| 0 <= i < vi0.len() ==> #[trigger] pairs_view(visited@)[i] == vi0[i],
            forall|i: int|
                vi0.len() <= i < visited@.len() ==> exists|k: int|
                    0 <= k < edges@.len() && #[trigger] pairs_view(visited@)[i] == (
                        src@,
                        edges@[k]@.target,
                    ),
        decreases edges.len() - k,
    {
        let target = chars_of(edges[k].target.as_str());
        assert(ev.skip(k as int)[0] == edges@[k as int]@);
        assert(ev.skip(k as int).drop_first() =~= ev.skip(k + 1));
        if !visited_contains(visited, src, &target) {
            let ghost pv = pairs_view(visited@);
            let ghost sv = stack_view(stack@);
            let ghost tv = target@;
            visited.push((src.clone(), target.clone()));
            stack.push(target);
            assert(pairs_view(visited@) =~= pv.push((src@, tv)));
            assert(stack_view(stack@) =~= sv.push(tv));
            assert(pairs_view(visited@)[pv.len() as int] == (src@, edges@[k as int]@.target));
        } else {
            let ghost tb = strings_view(trace@);
            let line = traversed_line(src, &target);
            trace.push(line);
            assert(strings_view(trace@) =~= tb.push(line@));
            assert(edges_trace(src@, ev.skip(k as int), pairs_view(visited@)) == seq![line@]
                + edges_trace(src@, ev.skip(k + 1), pairs_view(visited@)));
            assert(tb + edges_trace(src@, ev.skip(k as int), pairs_view(visited@)) =~= strings_view(trace@)
                + edges_trace(src@, ev.skip(k + 1), pairs_view(visited@)));
        }
        k = k + 1;
    }
    assert(ev.skip(k as int) =~= Seq::<EdgeView>::empty());
    assert(strings_view(trace@) + Seq::<Seq<char>>::empty() =~= strings_view(trace@));
}

proof fn lemma_step_trace_found(
    rows: Seq<TableRowView>,
    pre: WalkState,
    j: int,
    tree1: Seq<NodeView>,
    i: int,
    tb: Seq<Seq<char>>,
    tc: Seq<Seq<char>>,
    td: Seq<Seq<char>>,
    te: Seq<Seq<char>>,
    tf: Seq<Seq<char>>,
    tg: Seq<Seq<char>>,
    fl: Seq<char>,
    al: Seq<char>,
)
    requires
        pre.stack.len() > 0,
        find_row(rows, pre.stack.last()) == Some(j),
        tree1 == (match find_node(pre.tree, pre.stack.last()) {
            Some(k) => pre.tree,
            None => pre.tree.push(row_to_node(true, rows[j])),
        }),
        i == (match find_node(pre.tree, pre.stack.last()) {
            Some(k) => k,
            None => pre.tree.len() as int,
        }),
        tree1[i].id == pre.stack.last(),
        tc == tb + step_head(pre) + seq![current_tag(pre.stack.last())],
        td == tc + (if find_node(pre.tree, pre.stack.last()) is None {
            seq![current_tag(pre.stack.last()) + " is a new node -> pushed to tree stack"@]
        } else {
            Seq::<Seq<char>>::empty()
        }),
        fl == current_tag(pre.stack.last()) + " Fan-in increased -> new value: "@ + decimal(
            count_visit(tree1[i]).fan_in as nat,
        ),
        te == td.push(fl),
        tf == te + edges_trace(tree1[i].id, tree1[i].edges, pre.visited),
        al == current_tag(pre.stack.last()) + " Added new outgoing edges to visiting node stack -> length:"@
            + decimal(tree1[i].fan_out as nat),
        tg == tf.push(al),
    ensures
        tg == tb + step_trace(rows, pre),
{
    assert(tg =~= tb + step_trace(rows, pre));
}

/// Builds the tree hanging from the current root, as `build` does, and
/// says whether it could: `false` when the walk had to look for an id past
/// a row without an id.  The tree is then left as the walk had made it.
/// The lines the walk reports (shown when debugging) are added to `trace`.
#[verifier::rlimit(80)]
#[verifier::spinoff_prover]
pub fn try_build(table: &HtmlTable, info: &mut CommonInfo, tree: &mut Vec<Node>, trace: &mut Vec<String>) -> (ok: bool)
    ensures
        *final(info) == *old(info),
        ok <==> (old(info).current_root@ != forest_root() ==> walk_reads_ids(
            table@,
            tree_view(old(tree)@),
            old(info).current_root@,
        )),
        ok ==> built_tree(table@, tree_view(old(tree)@), old(info).current_root@, tree_view(final(tree)@)),
        ok ==> build_trace(
            table@,
            tree_view(old(tree)@),
            old(info).current_root@,
            strings_view(final(trace)@).skip(old(trace)@.len() as int),
        ),
        final(trace)@.len() >= old(trace)@.len(),
        strings_view(final(trace)@).take(old(trace)@.len() as int) == strings_view(old(trace)@),
        !ok ==> exists|n: nat|
            {
                let s = #[trigger] walk_steps(
                    table@,
                    walk_start(tree_view(old(tree)@), old(info).current_root@),
                    n,
                );
                &&& s.stack.len() > 0
                &&& search_meets_idless(table@, s.stack.last())
                &&& s.tree == tree_view(final(tree)@)
                &&& strings_view(final(trace)@) == strings_view(old(trace)@) + walk_trace(
                    table@,
                    walk_start(tree_view(old(tree)@), old(info).current_root@),
                    n,
                ) + step_head(s)
            },
{
    let ghost t0 = strings_view(trace@);
    let ghost rows = table@;
    let ghost tree0 = tree_view(tree@);
    let root = chars_of(info.current_root.as_str());
    let forest = vec!['\\'];
    assert(forest@ =~= forest_root());
    if chars_eq(&root, &forest) {
        let mut j: usize = 0;
        while j < table.rows.len()
            invariant
                rows == table@,
                j <= rows.len(),
                tree_view(tree@) == tree0 + rows.take(j as int).map_values(
                    |r: TableRowView| row_to_node(false, r),
                ),
            decreases table.rows.len() - j,
        {
            let n = convert_row2node(false, &table.rows[j]);
            let ghost before = tree_view(tree@);
            let ghost nv = n@;
            tree.push(n);
            assert(tree_view(tree@) =~= before.push(nv));
            assert(rows.take(j + 1).map_values(|r: TableRowView| row_to_node(false, r))
                =~= rows.take(j as int).map_values(|r: TableRowView| row_to_node(false, r)).push(
                row_to_node(false, rows[j as int]),
            ));
            j = j + 1;
        }
        assert(rows.take(j as int) =~= rows);
        assert(strings_view(trace@).skip(t0.len() as int) =~= Seq::<Seq<char>>::empty());
        assert(strings_view(trace@).take(t0.len() as int) =~= t0);
        return true;
    }
    let ghost init = WalkState { tree: tree0, stack: seq![root@], visited: Seq::empty() };
    assert(init == walk_start(tree0, root@));
    let ghost cands = candidates(rows, tree0);
    let ghost cp = pairs_of_nodes(cands);
    let mut stack: Vec<Vec<char>> = Vec::new();
    stack.push(root);
    let mut visited: Vec<(Vec<char>, Vec<char>)> = Vec::new();
    let ghost mut steps: nat = 0;
    assert(stack_view(stack@) =~= seq![init.stack[0]]);
    assert(pairs_view(visited@) =~= Seq::<IdPair>::empty());
    proof {
        assert forall|i: int| 0 <= i < tree_view(tree@).len() implies from_candidates(
            #[trigger] tree_view(tree@)[i],
            cands,
        ) by {
            assert(cands[i] == tree0[i]);
        }
    }
    while stack.len() > 0
        invariant
            rows == table@,
            cands == candidates(rows, tree0),
            cp == pairs_of_nodes(cands),
            walk_steps(rows, init, steps) == (WalkState {
                tree: tree_view(tree@),
                stack: stack_view(stack@),
                visited: pairs_view(visited@),
            }),
            pairs_view(visited@).no_duplicates(),
            forall|i: int| 0 <= i < visited@.len() ==> cp.contains(#[trigger] pairs_view(visited@)[i]),
            visited@.len() <= cp.len(),
            forall|i: int| 0 <= i < tree@.len() ==> from_candidates(#[trigger] tree_view(tree@)[i], cands),
            forall|m: nat| m < steps ==> #[trigger] reads_ids_at(rows, init, m),
            init == walk_start(tree0, root@),
            tree0 == tree_view(old(tree)@),
            root@ == old(info).current_root@,
            root@ != forest_root(),
            strings_view(trace@) == t0 + walk_trace(rows, init, steps),
            t0 == strings_view(old(trace)@),
        decreases cp.len() - visited@.len(), stack@.len(),
    {
        let ghost pre = WalkState {
            tree: tree_view(tree@),
            stack: stack_view(stack@),
            visited: pairs_view(visited@),
        };
        let ghost vlen0 = visited@.len();
        let ghost slen0 = stack@.len();
        let ghost tb = strings_view(trace@);
        let size_line = number_line("### Stack size: ", stack.len() as u64);
        trace.push(size_line);
        let id = stack.pop().unwrap();
        assert(stack_view(stack@) =~= pre.stack.drop_last());
        assert(id@ == pre.stack.last());
        let id_line = text_line("Got node with id: ", &id);
        trace.push(id_line);
        assert(strings_view(trace@) =~= tb + step_head(pre));
        let found = find_row_checked(table, &id);
        if found.is_err() {
            proof {
                assert(search_meets_idless(rows, id@));
                assert(walk_steps(rows, init, steps) == pre);
                assert(!reads_ids_at(rows, init, steps));
                assert(init == walk_start(tree_view(old(tree)@), old(info).current_root@));
                assert(walk_steps(rows, walk_start(tree_view(old(tree)@), old(info).current_root@), steps).tree
                    == tree_view(tree@));
            }
            return false;
        }
        assert(reads_ids_at(rows, init, steps));
        match found.unwrap() {
            None => {
                assert(strings_view(trace@) == tb + step_trace(rows, pre));
            },
            Some(j) => {
                proof {
                    lemma_find_row_bounds(rows, id@);
                    lemma_find_node_bounds(pre.tree, id@);
                }
                let tag = string_of(tag_chars(&id).as_slice());
                let ghost tgv = tag@;
                trace.push(tag);
                let ghost tc = strings_view(trace@);
                assert(tgv =~= current_tag(id@));
                assert(tc =~= tb + step_head(pre) + seq![current_tag(pre.stack.last())]);
                let is_new = find_node_exec(tree, &id).is_none();
                if is_new {
                    let l = tag_line(&id, " is a new node -> pushed to tree stack");
                    let ghost lv = l@;
                    trace.push(l);
                    assert(strings_view(trace@) =~= tc.push(lv));
                } else {
                    assert(tc + Seq::<Seq<char>>::empty() =~= tc);
                }
                let ghost td = strings_view(trace@);
                assert(td == tc + (if find_node(pre.tree, id@) is None {
                    seq![current_tag(id@) + " is a new node -> pushed to tree stack"@]
                } else {
                    Seq::<Seq<char>>::empty()
                }));
                let i = match find_node_exec(tree, &id) {
                    Some(i) => i,
                    None => {
                        let n = convert_row2node(true, &table.rows[j]);
                        let ghost nv = n@;
                        tree.push(n);
                        assert(tree_view(tree@) =~= pre.tree.push(nv));
                        proof {
                            let c = tree0.len() + j;
                            assert(cands[c] == row_to_node(true, rows[j as int]));
                            assert(from_candidates(tree_view(tree@)[pre.tree.len() as int], cands));
                        }
                        tree.len() - 1
                    },
                };
                let ghost tree1 = tree_view(tree@);
                let mut node = tree.remove(i);
                let ghost ne = node.outgoing_edge_list@;
                assert(node@ == tree1[i as int]);
                let ghost removed = tree_view(tree@);
                assert(removed =~= tree1.remove(i as int));
                node.fan_in = node.fan_in.wrapping_add(1);
                let fan_line = tag_number_line(&id, " Fan-in increased -> new value: ", node.fan_in as u64);
                let ghost fl = fan_line@;
                trace.push(fan_line);
                let ghost te = strings_view(trace@);
                assert(te =~= td.push(fl));
                let src = chars_of(node.id.as_str());
                let ghost vis_before = pairs_view(visited@);
                push_edges_exec(&src, &node.outgoing_edge_list, &mut stack, &mut visited, trace);
                let ghost tf = strings_view(trace@);
                let added_line = tag_number_line(&id, " Added new outgoing edges to visiting node stack -> length:", node.fan_out as u64);
                let ghost al = added_line@;
                trace.push(added_line);
                proof {
                    let et = edges_trace(src@, edges_view(node.outgoing_edge_list@), vis_before);
                    assert(tf == te + et);
                    assert(strings_view(trace@) =~= tf.push(al));
                    assert(edges_view(node.outgoing_edge_list@) == tree1[i as int].edges);
                    lemma_step_trace_found(rows, pre, j as int, tree1, i as int, tb, tc, td, te, tf, strings_view(trace@), fl, al);
                }
                let ghost nv = node@;
                tree.insert(i, node);
                assert(tree_view(tree@) =~= tree1.update(i as int, nv));
                assert(nv == count_visit(tree1[i as int]));
                proof {
                    // the new links all lead out of a candidate node
                    let c = choose|c: int|
                        0 <= c < cands.len() && #[trigger] cands[c].id == tree1[i as int].id
                            && cands[c].edges == tree1[i as int].edges;
                    assert forall|x: int| 0 <= x < visited@.len() implies cp.contains(
                        #[trigger] pairs_view(visited@)[x],
                    ) by {
                        if x < vis_before.len() {
                            assert(pairs_view(visited@)[x] == vis_before[x]);
                        } else {
                            let k = choose|k: int|
                                0 <= k < ne.len() && #[trigger] pairs_view(visited@)[x] == (
                                    src@,
                                    ne[k]@.target,
                                );
                            assert(tree1[i as int].edges[k] == ne[k]@);
                            lemma_pairs_of_nodes_contains(cands, c, k);
                        }
                    }
                    lemma_unique_within_len(pairs_view(visited@), cp);
                    assert forall|x: int| 0 <= x < tree@.len() implies from_candidates(
                        #[trigger] tree_view(tree@)[x],
                        cands,
                    ) by {
                        if x != i {
                            assert(tree_view(tree@)[x] == tree1[x]);
                        } else {
                            assert(cands[c].id == tree_view(tree@)[x].id);
                        }
                    }
                }
            },
        }
        proof {
            assert(walk_trace(rows, init, steps + 1) == walk_trace(rows, init, steps) + step_trace(rows, pre));
            assert(strings_view(trace@) =~= t0 + walk_trace(rows, init, steps + 1));
            steps = steps + 1;
        }
    }
    proof {
        assert forall|n: nat| #[trigger] reads_ids_at(rows, init, n) by {
            if n >= steps {
                lemma_walk_steps_stable(rows, init, steps, n);
            }
        }
        assert(walk_steps(rows, init, steps).stack.len() == 0);
        assert(strings_view(trace@).skip(t0.len() as int) =~= walk_trace(rows, init, steps));
        assert(strings_view(trace@).take(t0.len() as int) =~= t0);
    }
    true
}

/// Once its stack is empty, the walk stays where it is.
pub proof fn lemma_walk_steps_stable(rows: Seq<TableRowView>, s: WalkState, a: nat, b: nat)
    requires
        a <= b,
        walk_steps(rows, s, a).stack.len() == 0,
    ensures
        walk_steps(rows, s, b) == walk_steps(rows, s, a),
    decreases b - a,
{
    if a < b {
        lemma_walk_steps_stable(rows, s, a, (b - 1) as nat);
    }
}

/// Builds the tree hanging from the current root: from the forest root
/// `\` every row's node is appended in order; from another root the tree
/// is grown by the walk described above.  The walk must not have to look
/// for an id past a row without an id.
pub fn build(table: &HtmlTable, info: &mut CommonInfo, tree: &mut Vec<Node>)
    requires
        old(info).current_root@ != forest_root() ==> walk_reads_ids(
            table@,
            tree_view(old(tree)@),
            old(info).current_root@,
        ),
    ensures
        *final(info) == *old(info),
        built_tree(table@, tree_view(old(tree)@), old(info).current_root@, tree_view(final(tree)@)),
{
    let mut trace: Vec<String> = Vec::new();
    let _ = try_build(table, info, tree, &mut trace);
}

/// A walk over a table whose rows all have ids never meets a row without.
pub proof fn lemma_ids_make_walk_safe(rows: Seq<TableRowView>, tree: Seq<NodeView>, root: Seq<char>)
    requires
        rows_have_ids(rows),
    ensures
        walk_reads_ids(rows, tree, root),
{
    assert forall|n: nat| #[trigger] reads_ids_at(rows, walk_start(tree, root), n) by {
        let s = walk_steps(rows, walk_start(tree, root), n);
        if s.stack.len() > 0 && search_meets_idless(rows, s.stack.last()) {
            let j = choose|j: int|
                0 <= j < rows.len() && #[trigger] rows[j].id is None && forall|k: int|
                    0 <= k < j ==> rows[k].id != Some(s.stack.last());
            assert(rows[j].id is Some);
        }
    }
}


/// The root `cd` moves to: its argument, or the forest root when the
/// argument is empty.
pub open spec fn cd_target(arg: Seq<char>, root: Seq<char>) -> Seq<char> {
    if arg.len() == 0 {
        root
    } else {
        arg
    }
}

/// Moves to the root `cd` names: its argument, or the forest root when the
/// argument is empty; the tree is emptied.
fn move_to(arg: &str, tree: &mut Vec<Node>, info: &mut CommonInfo)
    ensures
        final(info).root == old(info).root,
        final(info).verbosity == old(info).verbosity,
        final(info).current_root@ == cd_target(arg@, old(info).root@),
        final(tree)@.len() == 0,
{
    if arg.is_empty() {
        info.current_root = info.root.clone();
    } else {
        info.current_root = arg.to_owned();
    }
    tree.clear();
}

/// The `cd` command, as `cd` runs it, saying whether the walk could be
/// made: `false` when it had to look for an id past a row without an id.
/// The lines the walk reports (shown when debugging) are added to `trace`.
pub fn try_cd(
    arg: &str,
    table: &HtmlTable,
    tree: &mut Vec<Node>,
    info: &mut CommonInfo,
    trace: &mut Vec<String>,
) -> (ok: bool)
    ensures
        final(info).root == old(info).root,
        final(info).verbosity == old(info).verbosity,
        final(info).current_root@ == cd_target(arg@, old(info).root@),
        ok <==> (final(info).current_root@ != forest_root() ==> walk_reads_ids(
            table@,
            Seq::empty(),
            final(info).current_root@,
        )),
        ok ==> built_tree(table@, Seq::empty(), final(info).current_root@, tree_view(final(tree)@)),
        ok && final(info).current_root@ != forest_root() ==> ids_distinct(tree_view(final(tree)@)),
        final(trace)@.len() >= old(trace)@.len(),
        strings_view(final(trace)@).take(old(trace)@.len() as int) == strings_view(old(trace)@),
        ok ==> build_trace(
            table@,
            Seq::empty(),
            final(info).current_root@,
            strings_view(final(trace)@).skip(old(trace)@.len() as int),
        ),
        !ok ==> exists|n: nat|
            {
                let s = #[trigger] walk_steps(table@, walk_start(Seq::empty(), final(info).current_root@), n);
                &&& s.stack.len() > 0
                &&& search_meets_idless(table@, s.stack.last())
                &&& s.tree == tree_view(final(tree)@)
                &&& strings_view(final(trace)@) == strings_view(old(trace)@) + walk_trace(
                    table@,
                    walk_start(Seq::empty(), final(info).current_root@),
                    n,
                ) + step_head(s)
            },
{
    move_to(arg, tree, info);
    assert(tree_view(tree@) =~= Seq::<NodeView>::empty());
    let ok = try_build(table, info, tree, trace);
    proof {
        if ok && info.current_root@ != forest_root() {
            lemma_build_grows(table@, Seq::empty(), info.current_root@, tree_view(tree@));
        }
    }
    ok
}

/// The `cd` command: moves to another root and builds its tree afresh.
/// The walk must not have to look for an id past a row without an id.
pub fn cd(arg: &str, table: &HtmlTable, tree: &mut Vec<Node>, info: &mut CommonInfo)
    requires
        cd_target(arg@, old(info).root@) != forest_root() ==> walk_reads_ids(
            table@,
            Seq::empty(),
            cd_target(arg@, old(info).root@),
        ),
    ensures
        final(info).root == old(info).root,
        final(info).verbosity == old(info).verbosity,
        final(info).current_root@ == cd_target(arg@, old(info).root@),
        built_tree(table@, Seq::empty(), final(info).current_root@, tree_view(final(tree)@)),
        final(info).current_root@ != forest_root() ==> ids_distinct(tree_view(final(tree)@)),
{
    let mut trace: Vec<String> = Vec::new();
    let _ = try_cd(arg, table, tree, info, &mut trace);
}


// ---------------------------------------------------------------------------
// What the walk keeps
// ---------------------------------------------------------------------------

/// `a` is `b` but for how many ways in it has.
pub open spec fn same_but_fan_in(a: NodeView, b: NodeView) -> bool {
    a == NodeView { fan_in: a.fan_in, ..b }
}

/// No two nodes of `tree` share an id.
pub open spec fn ids_distinct(tree: Seq<NodeView>) -> bool {
    forall|a: int, b: int| 0 <= a < b < tree.len() ==> #[trigger] tree[a].id != #[trigger] tree[b].id
}

/// `t` grew out of `tree0`: the nodes of `tree0` stay in place, changed
/// only in their count of ways in, and each node after them is the node of
/// a row of `rows`, again but for that count.
pub open spec fn grows_from(rows: Seq<TableRowView>, tree0: Seq<NodeView>, t: Seq<NodeView>) -> bool {
    &&& tree0.len() <= t.len()
    &&& forall|i: int| 0 <= i < tree0.len() ==> same_but_fan_in(#[trigger] t[i], tree0[i])
    &&& forall|i: int|
        tree0.len() <= i < t.len() ==> exists|j: int|
            0 <= j < rows.len() && same_but_fan_in(#[trigger] t[i], row_to_node(true, #[trigger] rows[j]))
}

/// An id that the search does not find is the id of no node.
pub proof fn lemma_find_node_absent(tree: Seq<NodeView>, id: Seq<char>)
    requires
        find_node(tree, id) is None,
    ensures
        forall|k: int| 0 <= k < tree.len() ==> #[trigger] tree[k].id != id,
    decreases tree.len(),
{
    if tree.len() > 0 {
        lemma_find_node_absent(tree.drop_last(), id);
        assert forall|k: int| 0 <= k < tree.len() implies #[trigger] tree[k].id != id by {
            if k < tree.len() - 1 {
                assert(tree.drop_last()[k] == tree[k]);
            }
        }
    }
}

/// However far the walk has gone, its tree grew out of the tree it started
/// from, and it adds no node whose id the tree already holds.
pub proof fn lemma_walk_grows(rows: Seq<TableRowView>, tree0: Seq<NodeView>, root: Seq<char>, n: nat)
    ensures
        ({
            let s = walk_steps(rows, WalkState { tree: tree0, stack: seq![root], visited: Seq::empty() }, n);
            &&& grows_from(rows, tree0, s.tree)
            &&& ids_distinct(tree0) ==> ids_distinct(s.tree)
        }),
    decreases n,
{
    let s0 = WalkState { tree: tree0, stack: seq![root], visited: Seq::empty() };
    if n > 0 {
        lemma_walk_grows(rows, tree0, root, (n - 1) as nat);
        let p = walk_steps(rows, s0, (n - 1) as nat);
        if p.stack.len() > 0 {
            let id = p.stack.last();
            lemma_find_row_bounds(rows, id);
            lemma_find_node_bounds(p.tree, id);
            if let Some(j) = find_row(rows, id) {
                let t = p.tree;
                let s = walk_step(rows, p);
                match find_node(t, id) {
                    Some(i) => {
                        assert(s.tree == t.update(i, count_visit(t[i])));
                        assert forall|k: int| 0 <= k < tree0.len() implies same_but_fan_in(#[trigger] s.tree[k], tree0[k]) by {
                            assert(same_but_fan_in(t[k], tree0[k]));
                        }
                        assert forall|k: int| tree0.len() <= k < s.tree.len() implies exists|j2: int|
                            0 <= j2 < rows.len() && same_but_fan_in(#[trigger] s.tree[k], row_to_node(true, #[trigger] rows[j2])) by {
                            let j2 = choose|j2: int| 0 <= j2 < rows.len() && same_but_fan_in(#[trigger] t[k], row_to_node(true, #[trigger] rows[j2]));
                            assert(same_but_fan_in(s.tree[k], row_to_node(true, rows[j2])));
                        }
                    },
                    None => {
                        lemma_find_node_absent(t, id);
                        let node = row_to_node(true, rows[j]);
                        assert(node.id == id);
                        let t1 = t.push(node);
                        assert(s.tree == t1.update(t.len() as int, count_visit(node)));
                        assert forall|k: int| 0 <= k < tree0.len() implies same_but_fan_in(#[trigger] s.tree[k], tree0[k]) by {
                            assert(s.tree[k] == t[k]);
                        }
                        assert forall|k: int| tree0.len() <= k < s.tree.len() implies exists|j2: int|
                            0 <= j2 < rows.len() && same_but_fan_in(#[trigger] s.tree[k], row_to_node(true, #[trigger] rows[j2])) by {
                            if k < t.len() {
                                let j2 = choose|j2: int| 0 <= j2 < rows.len() && same_but_fan_in(#[trigger] t[k], row_to_node(true, #[trigger] rows[j2]));
                                assert(s.tree[k] == t[k]);
                            } else {
                                assert(same_but_fan_in(s.tree[k], row_to_node(true, rows[j])));
                            }
                        }
                        if ids_distinct(tree0) {
                            assert forall|a: int, b: int| 0 <= a < b < s.tree.len() implies #[trigger] s.tree[a].id != #[trigger] s.tree[b].id by {
                                if b < t.len() {
                                    assert(s.tree[a].id == t[a].id);
                                    assert(s.tree[b].id == t[b].id);
                                } else {
                                    assert(s.tree[a].id == t[a].id);
                                    assert(s.tree[b].id == id);
                                }
                            }
                        }
                    },
                }
            }
        }
    }
}

proof fn lemma_push_edges_no_duplicates(
    src: Seq<char>,
    edges: Seq<EdgeView>,
    stack: Seq<Seq<char>>,
    visited: Seq<IdPair>,
)
    requires
        visited.no_duplicates(),
    ensures
        push_edges(src, edges, stack, visited).1.no_duplicates(),
    decreases edges.len(),
{
    if edges.len() > 0 {
        let p = (src, edges[0].target);
        if visited.contains(p) {
            lemma_push_edges_no_duplicates(src, edges.drop_first(), stack, visited);
        } else {
            let v2 = visited.push(p);
            assert forall|a: int, b: int| 0 <= a < v2.len() && 0 <= b < v2.len() && a != b implies v2[a] != v2[b] by {
                if a == visited.len() as int {
                    assert(v2[b] == visited[b]);
                } else if b == visited.len() as int {
                    assert(v2[a] == visited[a]);
                }
            }
            lemma_push_edges_no_duplicates(src, edges.drop_first(), stack.push(edges[0].target), v2);
        }
    }
}

/// However far the walk has gone, it has followed each link at most once.
pub proof fn lemma_walk_follows_links_once(rows: Seq<TableRowView>, tree: Seq<NodeView>, root: Seq<char>, n: nat)
    ensures
        walk_steps(rows, walk_start(tree, root), n).visited.no_duplicates(),
    decreases n,
{
    if n > 0 {
        lemma_walk_follows_links_once(rows, tree, root, (n - 1) as nat);
        let p = walk_steps(rows, walk_start(tree, root), (n - 1) as nat);
        if p.stack.len() > 0 {
            let id = p.stack.last();
            if let Some(j) = find_row(rows, id) {
                let tree1 = match find_node(p.tree, id) {
                    Some(i) => p.tree,
                    None => p.tree.push(row_to_node(true, rows[j])),
                };
                let i = match find_node(p.tree, id) {
                    Some(i) => i,
                    None => p.tree.len() as int,
                };
                let node = tree1[i];
                lemma_push_edges_no_duplicates(node.id, node.edges, p.stack.drop_last(), p.visited);
            }
        }
    }
}

/// A tree built from a root other than the forest root grew out of the
/// tree it started from, with no id twice if it had none twice.
pub proof fn lemma_build_grows(rows: Seq<TableRowView>, tree: Seq<NodeView>, root: Seq<char>, result: Seq<NodeView>)
    requires
        root != forest_root(),
        built_tree(rows, tree, root, result),
    ensures
        grows_from(rows, tree, result),
        ids_distinct(tree) ==> ids_distinct(result),
{
    let n = choose|n: nat|
        {
            let s = #[trigger] walk_steps(
                rows,
                WalkState { tree: tree, stack: seq![root], visited: Seq::empty() },
                n,
            );
            s.stack.len() == 0 && s.tree == result
        };
    lemma_walk_grows(rows, tree, root, n);
}

} // verus!
