//! What holds of every builder and every index, proved from the contracts
//! of the operations.

use crate::builder::{insert_result, insert_state, InsertError};
use crate::bulk::insert_all;
use crate::forest::{
    is_ancestor, is_ancestor_or_self, is_forest, lemma_ancestor_or_self_transitive,
    lemma_ancestor_transitive, lemma_first_ancestor, lemma_linked_is_relinked,
    lemma_relinked_ancestors, lemma_relinked_is_forest, linked, parent_of, Forest,
};
use crate::index::{is_index_of, lemma_index_unique, strictly_ascending_ids, ConsolidatedMap};
use vstd::prelude::*;

verus! {

/// Inserting never leaves the forests: whatever `insert(p, c)` answers, the
/// edges afterwards form a forest again.
pub proof fn lemma_insert_keeps_forest(f: Forest, p: usize, c: usize)
    requires
        is_forest(f),
    ensures
        is_forest(insert_state(f, p, c)),
{
    let g = insert_state(f, p, c);
    if g != f {
        lemma_linked_is_relinked(f, p, c);
        lemma_relinked_is_forest(f, g, p, c);
    }
}

/// A self-loop is accepted and changes nothing, whatever the node.
pub proof fn lemma_self_loop_ignored(f: Forest, x: usize)
    ensures
        insert_result(f, x, x) is Ok,
        insert_state(f, x, x) == f,
{
}

/// An accepted edge from `p` to `c` makes `c` and all that is below `c`
/// descendants of `p` and of all that is above `p`, and changes the
/// descendants of no node otherwise.
pub proof fn lemma_insert_propagates(f: Forest, p: usize, c: usize, a: usize, d: usize)
    requires
        is_forest(f),
        p != c,
        insert_result(f, p, c) is Ok,
    ensures
        is_ancestor(insert_state(f, p, c), a, d) <==> is_ancestor(f, a, d)
            || (is_ancestor_or_self(f, c, d) && is_ancestor_or_self(f, a, p)),
{
    if parent_of(f, c) is None {
        lemma_linked_is_relinked(f, p, c);
        lemma_relinked_ancestors(f, linked(f, p, c), p, c, a, d);
    } else if is_ancestor_or_self(f, c, d) && is_ancestor_or_self(f, a, p) {
        // the edge was there before: `p` is already above `c`
        lemma_first_ancestor(f, c);
        if c != d {
            lemma_ancestor_transitive(f, p, c, d);
        }
        if a != p {
            lemma_ancestor_transitive(f, a, p, d);
        }
    }
}

/// Inserting the same edge a second time is answered like the first time
/// and leaves the edges, and with them the index, as they were after the
/// first time.
pub proof fn lemma_insert_idempotent(f: Forest, p: usize, c: usize)
    requires
        is_forest(f),
    ensures
        insert_state(insert_state(f, p, c), p, c) == insert_state(f, p, c),
        insert_result(insert_state(f, p, c), p, c) == insert_result(f, p, c),
        forall|once: Seq<Seq<usize>>, twice: Seq<Seq<usize>>|
            is_index_of(once, insert_state(f, p, c))
                && is_index_of(twice, insert_state(insert_state(f, p, c), p, c))
                ==> once == twice,
{
    let g = insert_state(f, p, c);
    if g != f {
        lemma_linked_is_relinked(f, p, c);
        lemma_relinked_ancestors(f, g, p, c, c, p);
    }
    lemma_insert_keeps_forest(f, p, c);
    assert forall|once: Seq<Seq<usize>>, twice: Seq<Seq<usize>>|
        is_index_of(once, g) && is_index_of(twice, insert_state(g, p, c))
        implies once == twice by {
        lemma_index_unique(once, twice, g);
    }
}

/// An accepted edge is accepted again, and changes nothing the second time.
pub proof fn lemma_reinsert_accepted(f: Forest, a: usize, c: usize)
    requires
        is_forest(f),
        insert_result(f, a, c) is Ok,
    ensures
        insert_result(insert_state(f, a, c), a, c) is Ok,
        insert_state(insert_state(f, a, c), a, c) == insert_state(f, a, c),
{
    lemma_insert_idempotent(f, a, c);
}

/// A node has one parent: once the edge from `a` to `c` is accepted, an edge
/// to `c` from another node `b` is refused because `c` has a parent, and
/// changes nothing. Left out are the edges that are answered before the
/// parent of `c` is looked at, which are the self-loop and a `b` that is
/// among the descendants of `c` and so closes a cycle; and, where the first
/// edge is itself a self-loop, a `c` that has no parent or has the parent `b`.
pub proof fn lemma_single_parent(f: Forest, a: usize, b: usize, c: usize)
    requires
        is_forest(f),
        insert_result(f, a, c) is Ok,
        b != a,
        b != c,
        !is_ancestor(insert_state(f, a, c), c, b),
        a == c ==> parent_of(f, c) is Some && parent_of(f, c) != Some(b),
    ensures
        insert_result(insert_state(f, a, c), b, c)
            == Err::<(), InsertError>(InsertError::AlreadyHasParent),
        insert_state(insert_state(f, a, c), b, c) == insert_state(f, a, c),
{
    if parent_of(f, c) is None {
        lemma_linked_is_relinked(f, a, c);
    }
}

/// An edge that would make a node the parent of one of its own ancestors is
/// refused as a cycle and changes nothing.
pub proof fn lemma_cycle_refused(f: Forest, p: usize, c: usize)
    requires
        is_forest(f),
        is_ancestor(f, c, p),
    ensures
        insert_result(f, p, c) == Err::<(), InsertError>(InsertError::CircularReference),
        insert_state(f, p, c) == f,
{
}

/// Two edges that are accepted one after the other are also accepted the
/// other way round, and leave the same edges, and with them the same index.
pub proof fn lemma_insert_order_independent(f: Forest, p: usize, c: usize, q: usize, d: usize)
    requires
        is_forest(f),
        insert_result(f, p, c) is Ok,
        insert_result(insert_state(f, p, c), q, d) is Ok,
    ensures
        insert_result(f, q, d) is Ok,
        insert_result(insert_state(f, q, d), p, c) is Ok,
        insert_state(insert_state(f, q, d), p, c)
            == insert_state(insert_state(f, p, c), q, d),
        forall|first: Seq<Seq<usize>>, second: Seq<Seq<usize>>|
            is_index_of(first, insert_state(insert_state(f, p, c), q, d))
                && is_index_of(second, insert_state(insert_state(f, q, d), p, c))
                ==> first == second,
{
    let one = insert_state(f, p, c);
    let there = insert_state(one, q, d);
    let other = insert_state(f, q, d);
    let back = insert_state(other, p, c);
    lemma_insert_keeps_forest(f, p, c);
    lemma_insert_keeps_forest(f, q, d);
    lemma_insert_keeps_forest(one, q, d);
    if p != c && q != d {
        // how the first edge changes what is above what, seen from the second edge
        lemma_insert_propagates(f, p, c, d, q);
        if is_ancestor(f, d, q) {
            assert(is_ancestor(one, d, q));
        }
        if parent_of(f, c) is None {
            lemma_linked_is_relinked(f, p, c);
        }
        // and the other way round
        lemma_insert_propagates(f, q, d, c, p);
        if parent_of(f, d) is None {
            lemma_linked_is_relinked(f, q, d);
        }
        if parent_of(f, c) is Some && parent_of(f, d) is None {
            // the first edge was there before; the second cannot run below it
            // and back up to its own child
            if is_ancestor_or_self(f, d, p) && is_ancestor_or_self(f, c, q) {
                lemma_first_ancestor(f, c);
                lemma_ancestor_or_self_transitive(f, d, p, c);
                lemma_ancestor_or_self_transitive(f, d, c, q);
            }
        }
        assert(back =~= there);
    }
    assert forall|first: Seq<Seq<usize>>, second: Seq<Seq<usize>>|
        is_index_of(first, there) && is_index_of(second, back)
        implies first == second by {
        lemma_index_unique(first, second, there);
    }
}

/// Whatever a sequence of accepted edges leaves behind is a forest.
pub proof fn lemma_insert_all_keeps_forest(f: Forest, edges: Seq<(usize, usize)>)
    requires
        is_forest(f),
        insert_all(f, edges) is Ok,
    ensures
        is_forest(insert_all(f, edges).unwrap()),
    decreases edges.len(),
{
    if edges.len() > 0 {
        lemma_insert_all_keeps_forest(f, edges.drop_last());
        let g = insert_all(f, edges.drop_last()).unwrap();
        lemma_insert_keeps_forest(g, edges.last().0, edges.last().1);
    }
}

/// `edges` with the edges at `i` and behind it in each other's place.
pub open spec fn exchanged(edges: Seq<(usize, usize)>, i: int) -> Seq<(usize, usize)> {
    edges.update(i, edges[i + 1]).update(i + 1, edges[i])
}

/// In a sequence of edges that are all accepted, two neighbours can change
/// places: the edges are all accepted again and leave the same forest. As
/// every order arises from such exchanges, the forest, and with it the
/// index, does not depend on the order in which its edges are inserted.
pub proof fn lemma_insert_all_exchange(f: Forest, edges: Seq<(usize, usize)>, i: int)
    requires
        is_forest(f),
        0 <= i,
        i + 1 < edges.len(),
        insert_all(f, edges) is Ok,
    ensures
        insert_all(f, exchanged(edges, i)) == insert_all(f, edges),
    decreases edges.len(),
{
    let other = exchanged(edges, i);
    if i + 2 == edges.len() {
        // the last two edges change places on what the edges before them leave
        let before = edges.drop_last().drop_last();
        let (p, c) = edges[i];
        let (q, d) = edges[i + 1];
        assert(other.drop_last().drop_last() =~= before);
        assert(edges.drop_last().last() == (p, c) && edges.last() == (q, d));
        assert(other.drop_last().last() == (q, d) && other.last() == (p, c));
        assert(insert_all(f, edges.drop_last()) is Ok);
        assert(insert_all(f, before) is Ok);
        let g = insert_all(f, before).unwrap();
        lemma_insert_all_keeps_forest(f, before);
        lemma_insert_order_independent(g, p, c, q, d);
        let reached = Ok::<Forest, InsertError>(insert_state(g, q, d));
        assert(insert_all(f, other.drop_last()) == reached);
    } else {
        assert(other.drop_last() =~= exchanged(edges.drop_last(), i));
        assert(other.last() == edges.last());
        lemma_insert_all_exchange(f, edges.drop_last(), i);
    }
}

/// In an index the descendants of every node stand in strictly ascending
/// order, and so none of them stands there twice.
pub proof fn lemma_descendants_sorted(blocks: Seq<Seq<usize>>, f: Forest, node: usize)
    requires
        is_index_of(blocks, f),
        node < blocks.len(),
    ensures
        strictly_ascending_ids(blocks[node as int]),
        blocks[node as int].no_duplicates(),
{
}

/// In the index of a forest, what is below a descendant of a node is below
/// the node.
pub proof fn lemma_descendants_transitive(
    blocks: Seq<Seq<usize>>,
    f: Forest,
    a: usize,
    b: usize,
    c: usize,
)
    requires
        is_forest(f),
        is_index_of(blocks, f),
        a < blocks.len(),
        b < blocks.len(),
        blocks[a as int].contains(b),
        blocks[b as int].contains(c),
    ensures
        blocks[a as int].contains(c),
{
    lemma_ancestor_transitive(f, a, b, c);
}

/// The index of the forest without nodes holds no descendants for any node,
/// so that a node is consolidated to itself alone.
pub proof fn lemma_empty_index(map: ConsolidatedMap, node: usize)
    requires
        is_index_of(map@, Forest::empty()),
    ensures
        map.descendants(node) == Seq::<usize>::empty(),
        seq![node] + map.descendants(node) == seq![node],
{
}

} // verus!
