//! The builder: accumulates parent/child edges and keeps, for every node, the
//! list of its transitive descendants known so far.

use crate::forest::{
    grown, is_ancestor, is_forest, lemma_ancestor_in_range, lemma_chain_shorter_than_forest,
    lemma_first_ancestor, lemma_grown_keeps_parents, lemma_nth_ancestor_in_range,
    lemma_nth_ancestor_split, lemma_relinked_ancestors, lemma_relinked_is_forest,
    lemma_same_parents_same_ancestors, linked, nth_ancestor, parent_of, Forest,
};
use crate::index::{
    block_at, block_end, is_index_of, is_packed, strictly_ascending_ids, widened, ConsolidatedMap,
};
use crate::lists::{
    holds_descendants, lemma_linked_list, lemma_list_shorter_than_forest, lemma_way_up_complete,
    on_way_up, same_ids,
};
use crate::sorting::{
    is_strictly_ascending, lemma_ascending_distinct_is_strict, lemma_rearranged, sort_ids,
};
use vstd::prelude::*;

verus! {

/// Why an edge was refused.
#[derive(Debug, Clone, Copy, PartialEq, Eq, Structural)]
pub enum InsertError {
    /// The child is already bound to a different parent.
    AlreadyHasParent,
    /// The parent is among the child's descendants: the edge would close a cycle.
    CircularReference,
}

/// Identifiers are stored in 32 bits and index a vector directly.
pub open spec fn is_node_id(id: usize) -> bool {
    id <= u32::MAX && id < usize::MAX
}

/// What `insert(p, c)` answers on a builder whose edges form `f`.
///
/// A self-loop and the repetition of a recorded edge are accepted. An edge
/// whose parent is among the child's descendants is a cycle, and this is
/// looked at before the child's recorded parent.
pub open spec fn insert_result(f: Forest, p: usize, c: usize) -> Result<(), InsertError> {
    if p == c {
        Ok(())
    } else if is_ancestor(f, c, p) {
        Err(InsertError::CircularReference)
    } else {
        match parent_of(f, c) {
            Some(q) => if q == p {
                Ok(())
            } else {
                Err(InsertError::AlreadyHasParent)
            },
            None => Ok(()),
        }
    }
}

/// The edges after `insert(p, c)` on a builder whose edges form `f`: the edge
/// is recorded when it is new and accepted, and nothing changes otherwise.
pub open spec fn insert_state(f: Forest, p: usize, c: usize) -> Forest {
    if p != c && !is_ancestor(f, c, p) && parent_of(f, c) is None {
        linked(f, p, c)
    } else {
        f
    }
}

/// What the builder keeps for one node.
struct Entry {
    /// The descendants accumulated so far, unordered.
    children: Vec<u32>,
    /// The parent, from the first time the node is used as a child.
    parent: Option<u32>,
}

impl Entry {
    spec fn parent_id(self) -> Option<usize> {
        match self.parent {
            Some(p) => Some(p as usize),
            None => None,
        }
    }
}

/// The parents that a sequence of entries records.
spec fn parents_of(entries: Seq<Entry>) -> Forest {
    Seq::new(entries.len(), |i: int| entries[i].parent_id())
}

/// The entries are within the identifier range, their parents form a forest,
/// and each list holds the descendants that the parents imply.
spec fn entries_wf(entries: Seq<Entry>) -> bool {
    &&& entries.len() <= u32::MAX + 1
    &&& is_forest(parents_of(entries))
    &&& forall|a: int|
        0 <= a < entries.len() ==> holds_descendants(
            (#[trigger] entries[a]).children@,
            parents_of(entries),
            a as usize,
        )
}

/// The length of the array that holds each entry's list behind its length.
spec fn packed_len_of(entries: Seq<Entry>) -> nat
    decreases entries.len(),
{
    if entries.len() == 0 {
        0
    } else {
        packed_len_of(entries.drop_last()) + 1 + entries.last().children@.len()
    }
}

/// A length as a counter holds it: counted up to the largest number it can hold.
pub open spec fn counted(n: nat) -> usize {
    if n > usize::MAX {
        usize::MAX
    } else {
        n as usize
    }
}

/// A further entry adds its list and the length in front of it.
proof fn lemma_packed_len_push(entries: Seq<Entry>, entry: Entry)
    ensures
        packed_len_of(entries.push(entry)) == packed_len_of(entries) + 1 + entry.children@.len(),
{
    assert(entries.push(entry).drop_last() =~= entries);
}

/// Replacing an entry changes the packed length by what its list grows.
proof fn lemma_packed_len_update(entries: Seq<Entry>, i: int, entry: Entry)
    requires
        0 <= i < entries.len(),
    ensures
        packed_len_of(entries.update(i, entry))
            == packed_len_of(entries) - entries[i].children@.len() + entry.children@.len(),
    decreases entries.len(),
{
    if i == entries.len() - 1 {
        assert(entries.update(i, entry).drop_last() =~= entries.drop_last());
    } else {
        assert(entries.update(i, entry).drop_last() =~= entries.drop_last().update(i, entry));
        lemma_packed_len_update(entries.drop_last(), i, entry);
    }
}

/// A staging structure that receives edges one at a time.
pub struct ConsolidatedMapBuilder {
    /// One entry for each node up to the largest identifier seen.
    entries: Vec<Entry>,
    /// The length that the packed descendants will have, as far as it can be counted.
    len: usize,
}

/// Whether `x` occurs in an unordered list.
fn contains_id(list: &Vec<u32>, x: u32) -> (found: bool)
    ensures
        found == list@.contains(x),
{
    let mut i: usize = 0;
    while i < list.len()
        invariant
            i <= list.len(),
            forall|j: int| 0 <= j < i ==> list@[j] != x,
        decreases list.len() - i,
    {
        if list[i] == x {
            return true;
        }
        i += 1;
    }
    false
}

impl ConsolidatedMapBuilder {
    /// The forest of the edges accepted so far: for each node seen, its parent.
    pub closed spec fn view(&self) -> Forest {
        parents_of(self.entries@)
    }

    /// The internal invariant: the descendant lists agree with the edges.
    pub closed spec fn wf(&self) -> bool {
        entries_wf(self.entries@) && self.len == counted(packed_len_of(self.entries@))
    }

    /// The descendants accumulated for `node` so far, in the order in which
    /// they were added.
    pub closed spec fn descendants(&self, node: usize) -> Seq<usize> {
        if node < self.entries@.len() {
            widened(self.entries@[node as int].children@)
        } else {
            Seq::empty()
        }
    }

    /// The length of the array into which the descendants of the first `n`
    /// nodes are packed: for each of them one length and the descendants.
    pub open spec fn packed_len(&self, n: nat) -> nat
        decreases n,
    {
        if n == 0 {
            0
        } else {
            self.packed_len((n - 1) as nat) + 1 + self.descendants((n - 1) as usize).len()
        }
    }

    /// The running count of the length that the packed array will have.
    pub closed spec fn reserved(&self) -> usize {
        self.len
    }

    /// What the internal invariant says of a well-formed builder: its edges
    /// form a forest, the list of each node holds the node's descendants,
    /// each of them once, and the running count is the length that the
    /// packed array will have, as far as a counter can hold it.
    pub proof fn lemma_wf(&self)
        requires
            self.wf(),
        ensures
            is_forest(self@),
            forall|a: usize| (#[trigger] self.descendants(a)).no_duplicates(),
            forall|a: usize, d: usize|
                #![trigger self.descendants(a).contains(d)]
                #![trigger is_ancestor(self@, a, d)]
                self.descendants(a).contains(d) <==> is_ancestor(self@, a, d),
            self.reserved() == counted(self.packed_len(self@.len())),
    {
        self.lemma_packed_len(self.entries@.len());
        assert(self.entries@.take(self.entries@.len() as int) =~= self.entries@);
        assert forall|a: usize, d: usize|
            #![trigger self.descendants(a).contains(d)]
            #![trigger is_ancestor(self@, a, d)]
            self.descendants(a).contains(d) <==> is_ancestor(self@, a, d) by {
            if a < self.entries@.len() {
                let list = self.entries@[a as int].children@;
                if self.descendants(a).contains(d) {
                    let i = choose|i: int| 0 <= i < list.len() && widened(list)[i] == d;
                    assert(list.contains(list[i]));
                }
                if is_ancestor(self@, a, d) {
                    let i = choose|i: int| 0 <= i < list.len() && list[i] == d as u32;
                    assert(widened(list)[i] == d);
                }
            } else if is_ancestor(self@, a, d) {
                lemma_ancestor_in_range(self@, a, d);
            }
        }
        assert forall|a: usize| (#[trigger] self.descendants(a)).no_duplicates() by {
            if a < self.entries@.len() {
                assert(holds_descendants(self.entries@[a as int].children@, self@, a));
            }
        }
    }

    /// The packed length of the first `n` entries is what the lists of the
    /// first `n` nodes add up to.
    proof fn lemma_packed_len(&self, n: nat)
        requires
            n <= self.entries@.len(),
        ensures
            packed_len_of(self.entries@.take(n as int)) == self.packed_len(n),
        decreases n,
    {
        if n > 0 {
            self.lemma_packed_len((n - 1) as nat);
            assert(self.entries@.take(n as int).drop_last() =~= self.entries@.take(n - 1));
            assert(self.entries@.take(n as int).last() == self.entries@[n - 1]);
            assert(self.entries@.len() == self.entries.len());
        }
    }

    /// Whether `id` can name a node: callers that cannot show `is_node_id`
    /// ask here before they hand an edge to `insert`.
    pub fn accepts(id: usize) -> (ok: bool)
        ensures
            ok == is_node_id(id),
    {
        id <= u32::MAX as usize && id < usize::MAX
    }

    /// A builder without edges.
    pub fn new() -> (builder: Self)
        ensures
            builder.wf(),
            builder@ == Forest::empty(),
    {
        ConsolidatedMapBuilder { entries: Vec::new(), len: 0 }
    }

    /// Appends roots without descendants until `v` is a node.
    fn ensure(&mut self, v: usize)
        requires
            old(self).wf(),
            is_node_id(v),
        ensures
            final(self).wf(),
            final(self)@ == grown(old(self)@, (v + 1) as nat),
            final(self).entries@.len() >= old(self).entries@.len(),
            final(self).entries@.len() > v,
            forall|a: int|
                0 <= a < old(self).entries@.len()
                    ==> final(self).entries@[a] == old(self).entries@[a],
            forall|a: int|
                old(self).entries@.len() <= a < final(self).entries@.len()
                    ==> final(self).entries@[a].children@ == Seq::<u32>::empty(),
    {
        let ghost before = self.entries@;
        while self.entries.len() <= v
            invariant
                before.len() <= self.entries@.len() <= if before.len() > v + 1 {
                    before.len()
                } else {
                    (v + 1) as nat
                },
                forall|a: int| 0 <= a < before.len() ==> self.entries@[a] == before[a],
                forall|a: int|
                    before.len() <= a < self.entries@.len() ==> {
                        &&& self.entries@[a].children@ == Seq::<u32>::empty()
                        &&& self.entries@[a].parent is None
                    },
                self.len == counted(packed_len_of(self.entries@)),
            decreases v + 1 - self.entries@.len(),
        {
            let entry = Entry { children: Vec::new(), parent: None };
            proof {
                lemma_packed_len_push(self.entries@, entry);
            }
            self.entries.push(entry);
            self.len = self.len.saturating_add(1);
        }
        proof {
            let f = parents_of(before);
            let g = parents_of(self.entries@);
            assert(g =~= grown(f, (v + 1) as nat));
            lemma_grown_keeps_parents(f, (v + 1) as nat);
            lemma_same_parents_same_ancestors(f, g);
            assert forall|a: int| 0 <= a < self.entries@.len() implies holds_descendants(
                (#[trigger] self.entries@[a]).children@,
                g,
                a as usize,
            ) by {
                if a < before.len() {
                    assert(holds_descendants(before[a].children@, f, a as usize));
                } else {
                    let node = a as usize;
                    assert forall|d: usize| !#[trigger] is_ancestor(g, node, d) by {
                        if is_ancestor(f, node, d) {
                            lemma_ancestor_in_range(f, node, d);
                        }
                    }
                }
            }
        }
    }

    /// Records that `child` stands below `parent`.
    ///
    /// A self-loop and the repetition of a recorded edge change nothing and
    /// succeed. An edge that would close a cycle, or that would give a second
    /// parent to a node, is refused and changes nothing. An accepted new edge
    /// is recorded, and `child` with all its descendants is added to the
    /// descendants of `parent` and of every node above it.
    pub fn insert(&mut self, parent: usize, child: usize) -> (result: Result<(), InsertError>)
        requires
            old(self).wf(),
            is_node_id(parent),
            is_node_id(child),
        ensures
            final(self).wf(),
            result == insert_result(old(self)@, parent, child),
            final(self)@ == insert_state(old(self)@, parent, child),
            parent == child ==> result is Ok && final(self)@ == old(self)@,
    {
        if parent == child {
            return Ok(());
        }
        let ghost f0 = self@;
        let parent_id = parent as u32;
        let child_id = child as u32;
        if child < self.entries.len() {
            let entry = &self.entries[child];
            let closes_cycle = contains_id(&entry.children, parent_id);
            assert(closes_cycle == is_ancestor(f0, child, parent)) by {
                assert(holds_descendants(self.entries@[child as int].children@, f0, child));
            }
            if closes_cycle {
                return Err(InsertError::CircularReference);
            }
            if let Some(p) = entry.parent {
                if p != parent_id {
                    return Err(InsertError::AlreadyHasParent);
                }
                return Ok(());
            }
        } else {
            proof {
                if is_ancestor(f0, child, parent) {
                    lemma_ancestor_in_range(f0, child, parent);
                }
            }
        }
        let top = if parent >= child { parent } else { child };
        self.ensure(top);
        let ghost f1 = self@;
        let ghost grown_entries = self.entries@;
        self.entries[child].parent = Some(parent_id);
        proof {
            let entry = self.entries@[child as int];
            lemma_packed_len_update(grown_entries, child as int, entry);
        }
        let below = self.entries[child].children.clone();
        let ghost base = self.entries@;
        let ghost g = self@;
        proof {
            lemma_grown_keeps_parents(f0, (top + 1) as nat);
            lemma_same_parents_same_ancestors(f0, f1);
            lemma_relinked_is_forest(f1, g, parent, child);
        }
        let mut cur: Option<u32> = Some(parent_id);
        let ghost mut k: nat = 0;
        while cur.is_some()
            invariant
                is_forest(g),
                parent < g.len(),
                g.len() == base.len(),
                base.len() <= usize::MAX,
                self.entries@.len() == base.len(),
                forall|x: int|
                    0 <= x < base.len() ==> (#[trigger] self.entries@[x]).parent == base[x].parent,
                forall|x: int|
                    0 <= x < base.len() ==> (#[trigger] self.entries@[x]).children@
                        == if on_way_up(g, parent, k, x as usize) {
                        base[x].children@ + below@ + seq![child_id]
                    } else {
                        base[x].children@
                    },
                g == parents_of(base),
                self.len == counted(packed_len_of(self.entries@)),
                match cur {
                    Some(a) => nth_ancestor(g, parent, k) == Some(a as usize),
                    None => nth_ancestor(g, parent, k) is None,
                },
            decreases g.len() - k,
        {
            let node = cur.unwrap() as usize;
            proof {
                lemma_chain_shorter_than_forest(g, parent, k);
                if k > 0 {
                    lemma_nth_ancestor_in_range(g, parent, k, node);
                }
                if on_way_up(g, parent, k, node) {
                    let j = choose|j: nat|
                        j < k && #[trigger] nth_ancestor(g, parent, j) == Some(node);
                    lemma_nth_ancestor_split(g, parent, j, (k - j) as nat);
                    assert(is_ancestor(g, node, node));
                }
                lemma_nth_ancestor_split(g, parent, k, 1);
                lemma_first_ancestor(g, node);
            }
            let ghost before = self.entries@;
            self.entries[node].children.extend_from_slice(below.as_slice());
            self.entries[node].children.push(child_id);
            self.len = self.len.saturating_add(below.len()).saturating_add(1);
            cur = self.entries[node].parent;
            proof {
                let entry = self.entries@[node as int];
                lemma_packed_len_update(before, node as int, entry);
                assert(self.entries@ =~= before.update(node as int, entry));
                assert forall|x: int| 0 <= x < base.len()
                    implies (#[trigger] self.entries@[x]).children@
                    == if on_way_up(g, parent, k + 1, x as usize) {
                    base[x].children@ + below@ + seq![child_id]
                } else {
                    base[x].children@
                } by {
                    let id = x as usize;
                    if x == node {
                        // the node that was just reached is on the way now
                        assert(nth_ancestor(g, parent, k) == Some(id));
                    } else {
                        // any other node is on the way if it was before
                        if on_way_up(g, parent, k + 1, id) {
                            let j = choose|j: nat|
                                j < k + 1 && #[trigger] nth_ancestor(g, parent, j) == Some(id);
                            assert(j < k);
                        }
                        if on_way_up(g, parent, k, id) {
                            let j = choose|j: nat|
                                j < k && #[trigger] nth_ancestor(g, parent, j) == Some(id);
                            assert(j < k + 1);
                        }
                    }
                }
                k = k + 1;
            }
        }
        proof {
            assert(parents_of(self.entries@) =~= g);
            assert forall|a: int| 0 <= a < self.entries@.len() implies holds_descendants(
                (#[trigger] self.entries@[a]).children@,
                g,
                a as usize,
            ) by {
                let node = a as usize;
                lemma_way_up_complete(g, parent, k, node);
                lemma_relinked_ancestors(f1, g, parent, child, node, parent);
                let list = base[a].children@;
                let after = self.entries@[a].children@;
                lemma_linked_list(f1, g, parent, child, node, list, below@, after);
            }
        }
        Ok(())
    }

    /// Turns the builder into the index of its forest: each node's descendants
    /// are sorted and written, behind their number, into one shared array.
    pub fn build(self) -> (map: ConsolidatedMap)
        requires
            self.wf(),
        ensures
            is_index_of(map@, self@),
            is_packed(map.data(), map.offsets()),
            map.data().len() == self.packed_len(self@.len()),
    {
        let ghost f = self@;
        let ghost entries = self.entries@;
        proof {
            self.lemma_packed_len(entries.len());
            assert(entries.take(entries.len() as int) =~= entries);
        }
        let mut data: Vec<u32> = Vec::with_capacity(self.len);
        let mut index: Vec<usize> = Vec::with_capacity(self.entries.len());
        for entry in it: self.entries
            invariant
                it.seq() == entries,
                entries_wf(entries),
                f == parents_of(entries),
                is_packed(data@, index@),
                index@.len() == it.index(),
                data@.len() == packed_len_of(entries.take(it.index())),
                forall|a: int|
                    0 <= a < index@.len() ==> same_ids(
                        block_at(data@, (#[trigger] index@[a]) as int),
                        entries[a].children@,
                    ),
        {
            let ghost a = it.index();
            let ghost list = entry.children@;
            let ghost data0 = data@;
            let ghost index0 = index@;
            let mut children = entry.children;
            sort_ids(&mut children);
            proof {
                lemma_list_shorter_than_forest(list, f, a as usize);
                lemma_rearranged(list, children@);
                lemma_ascending_distinct_is_strict(children@);
                lemma_packed_len_push(entries.take(a), entry);
                assert(entries.take(a + 1) =~= entries.take(a).push(entry));
            }
            index.push(data.len());
            data.push(children.len() as u32);
            let ghost sorted = children@;
            data.append(&mut children);
            proof {
                let offset = data0.len() as int;
                assert(block_at(data@, offset) =~= sorted);
                assert forall|i: int| 0 <= i < index@.len() implies {
                    &&& (#[trigger] index@[i]) < data@.len()
                    &&& block_end(data@, index@[i] as int) == if i + 1 < index@.len() {
                        index@[i + 1] as int
                    } else {
                        data@.len() as int
                    }
                    &&& is_strictly_ascending(block_at(data@, index@[i] as int))
                    &&& same_ids(block_at(data@, index@[i] as int), entries[i].children@)
                } by {
                    if i < index0.len() {
                        assert(block_at(data@, index@[i] as int)
                            =~= block_at(data0, index0[i] as int));
                    }
                }
            }
        }
        let map = ConsolidatedMap::from_packed(data, index);
        proof {
            let blocks = map@;
            assert forall|a: int| 0 <= a < blocks.len()
                implies strictly_ascending_ids(#[trigger] blocks[a]) by {
                assert(is_strictly_ascending(block_at(data@, index@[a] as int)));
            }
            assert forall|a: usize, d: usize| a < blocks.len()
                implies (blocks[a as int].contains(d) <==> #[trigger] is_ancestor(f, a, d)) by {
                let stored = block_at(data@, index@[a as int] as int);
                let list = entries[a as int].children@;
                let block = blocks[a as int];
                if block.contains(d) {
                    let i = choose|i: int| 0 <= i < block.len() && block[i] == d;
                    assert(list.contains(stored[i]));
                }
                if is_ancestor(f, a, d) {
                    let i = choose|i: int| 0 <= i < stored.len() && stored[i] == d as u32;
                    assert(block[i] == d);
                }
            }
        }
        map
    }
}

} // verus!
