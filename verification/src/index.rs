//! The consolidated index: every node's descendants, sorted, in two dense arrays.

use crate::forest::{is_ancestor, Forest};
use crate::sorting::is_strictly_ascending;
use vstd::prelude::*;
use vstd::slice::slice_subrange;

verus! {

/// Each identifier is below the ones after it: ascending order without repetition.
pub open spec fn strictly_ascending_ids(s: Seq<usize>) -> bool {
    forall|i: int, j: int| 0 <= i < j < s.len() ==> s[i] < s[j]
}

/// `blocks` is the index of the forest `f`: it has one block for each node,
/// and the block of a node holds the node's descendants in strictly
/// ascending order.
pub open spec fn is_index_of(blocks: Seq<Seq<usize>>, f: Forest) -> bool {
    &&& blocks.len() == f.len()
    &&& forall|a: int| 0 <= a < blocks.len() ==> strictly_ascending_ids(#[trigger] blocks[a])
    &&& forall|a: usize, d: usize|
        #![trigger blocks[a as int].contains(d)]
        #![trigger is_ancestor(f, a, d)]
        a < blocks.len() ==> (blocks[a as int].contains(d) <==> is_ancestor(f, a, d))
}

/// Two strictly ascending sequences with the same identifiers are the same sequence.
pub proof fn lemma_strictly_ascending_unique(s: Seq<usize>, t: Seq<usize>)
    requires
        strictly_ascending_ids(s),
        strictly_ascending_ids(t),
        forall|x: usize| s.contains(x) <==> t.contains(x),
    ensures
        s == t,
    decreases s.len(),
{
    if s.len() == 0 {
        if t.len() > 0 {
            assert(t.contains(t[0]));
        }
    } else if t.len() == 0 {
        assert(s.contains(s[0]));
    } else {
        // the greatest identifier of each is its last, and is in the other
        let a = s.last();
        let b = t.last();
        assert(t.contains(a));
        assert(s.contains(b));
        assert(a == b);
        let s0 = s.drop_last();
        let t0 = t.drop_last();
        assert forall|x: usize| s0.contains(x) <==> t0.contains(x) by {
            if s0.contains(x) {
                let i = choose|i: int| 0 <= i < s0.len() && s0[i] == x;
                assert(s.contains(x));
                let j = choose|j: int| 0 <= j < t.len() && t[j] == x;
                assert(t0[j] == x);
            }
            if t0.contains(x) {
                let i = choose|i: int| 0 <= i < t0.len() && t0[i] == x;
                assert(t.contains(x));
                let j = choose|j: int| 0 <= j < s.len() && s[j] == x;
                assert(s0[j] == x);
            }
        }
        lemma_strictly_ascending_unique(s0, t0);
        assert(s =~= s0.push(a));
        assert(t =~= t0.push(b));
    }
}

/// A forest has one index only.
pub proof fn lemma_index_unique(
    first: Seq<Seq<usize>>,
    second: Seq<Seq<usize>>,
    f: Forest,
)
    requires
        f.len() <= usize::MAX + 1,
        is_index_of(first, f),
        is_index_of(second, f),
    ensures
        first == second,
{
    assert forall|a: int| 0 <= a < first.len() implies first[a] == second[a] by {
        let node = a as usize;
        assert forall|d: usize| first[a].contains(d) <==> second[a].contains(d) by {
            // either holds just where `node` is above `d`
            assert(first[node as int].contains(d) <==> is_ancestor(f, node, d));
        }
        lemma_strictly_ascending_unique(first[a], second[a]);
    }
}

/// The identifiers of a stored block, as they are handed out.
pub open spec fn widened(s: Seq<u32>) -> Seq<usize> {
    Seq::new(s.len(), |i: int| s[i] as usize)
}

/// Where the block that starts at `offset` ends: behind the length stored at
/// `offset` and that many identifiers.
pub open spec fn block_end(data: Seq<u32>, offset: int) -> int {
    offset + 1 + data[offset]
}

/// The identifiers of the block that starts at `offset`.
pub open spec fn block_at(data: Seq<u32>, offset: int) -> Seq<u32> {
    data.subrange(offset + 1, block_end(data, offset))
}

/// `data` is a run of blocks, each a length followed by that many strictly
/// ascending identifiers, and `index` holds the offset of each block in turn,
/// from the first block at offset 0 to the last, which ends `data`.
pub open spec fn is_packed(data: Seq<u32>, index: Seq<usize>) -> bool {
    &&& index.len() == 0 ==> data.len() == 0
    &&& index.len() > 0 ==> index[0] == 0
    &&& forall|i: int|
        0 <= i < index.len() ==> {
            &&& (#[trigger] index[i]) < data.len()
            &&& block_end(data, index[i] as int) == if i + 1 < index.len() {
                index[i + 1] as int
            } else {
                data.len() as int
            }
            &&& is_strictly_ascending(block_at(data, index[i] as int))
        }
}

/// The blocks that packed arrays hold, one per offset.
pub open spec fn blocks_of(data: Seq<u32>, index: Seq<usize>) -> Seq<Seq<usize>> {
    Seq::new(index.len(), |i: int| widened(block_at(data, index[i] as int)))
}

/// An immutable index from each node to its transitive descendants.
///
/// It answers without allocating: the block of a node is found through one
/// offset, and is sorted, so that membership is decided by bisection.
pub struct ConsolidatedMap {
    /// For each node in turn, the number of its descendants and then the
    /// descendants themselves in ascending order.
    data: Vec<u32>,
    /// For each node, where its block starts in `data`.
    index: Vec<usize>,
}

/// A finite walk over a node's descendants, optionally led by the node
/// itself. It borrows from the index and can be taken as often as wanted.
pub struct Children<'a> {
    /// The node that leads the walk, until it was handed out.
    first: Option<usize>,
    /// The descendants that were not handed out yet.
    rest: &'a [u32],
}

impl<'a> Children<'a> {
    #[verifier::type_invariant]
    spec fn inv(self) -> bool {
        self.rest@.len() < usize::MAX
    }

    /// The identifiers still to come, in the order in which they come.
    pub closed spec fn view(&self) -> Seq<usize> {
        match self.first {
            Some(node) => seq![node] + widened(self.rest@),
            None => widened(self.rest@),
        }
    }

    /// Hands out the next identifier, or `None` once all were handed out.
    pub fn next(&mut self) -> (item: Option<usize>)
        ensures
            match item {
                Some(id) => {
                    &&& old(self)@.len() > 0
                    &&& id == old(self)@[0]
                    &&& final(self)@ == old(self)@.drop_first()
                },
                None => old(self)@.len() == 0 && final(self)@ == old(self)@,
            },
    {
        proof {
            use_type_invariant(&*self);
        }
        match self.first {
            Some(node) => {
                self.first = None;
                Some(node)
            },
            None => {
                let n = self.rest.len();
                if n > 0 {
                    let id = self.rest[0] as usize;
                    self.rest = slice_subrange(self.rest, 1, n);
                    Some(id)
                } else {
                    None
                }
            },
        }
    }

    /// The number of identifiers still to come, as the lower and the upper bound.
    pub fn size_hint(&self) -> (hint: (usize, Option<usize>))
        ensures
            hint.0 == self@.len(),
            hint.1 == Some(hint.0),
    {
        proof {
            use_type_invariant(self);
        }
        let led: usize = if self.first.is_some() { 1 } else { 0 };
        let n = self.rest.len() + led;
        (n, Some(n))
    }
}

impl<'a> Clone for Children<'a> {
    /// A second walk over what this one has still to hand out.
    fn clone(&self) -> (copy: Self)
        ensures
            copy@ == self@,
    {
        proof {
            use_type_invariant(self);
        }
        Children { first: self.first, rest: self.rest }
    }
}

impl ConsolidatedMap {
    #[verifier::type_invariant]
    spec fn inv(self) -> bool {
        is_packed(self.data@, self.index@)
    }

    /// The shared array: every block behind its length, one after the other.
    pub closed spec fn data(&self) -> Seq<u32> {
        self.data@
    }

    /// For every node of the identifier range that was seen, where its block
    /// starts in the shared array.
    pub closed spec fn offsets(&self) -> Seq<usize> {
        self.index@
    }

    /// The blocks of the index: for each node of the identifier range that
    /// was seen, its descendants in ascending order.
    pub open spec fn view(&self) -> Seq<Seq<usize>> {
        blocks_of(self.data(), self.offsets())
    }

    /// The descendants that the index holds for `node`: its block, or nothing
    /// for a node outside the range that was seen.
    pub open spec fn descendants(&self, node: usize) -> Seq<usize> {
        if node < self@.len() {
            self@[node as int]
        } else {
            Seq::empty()
        }
    }

    /// Wraps packed arrays.
    pub(crate) fn from_packed(data: Vec<u32>, index: Vec<usize>) -> (map: Self)
        requires
            is_packed(data@, index@),
        ensures
            map.data() == data@,
            map.offsets() == index@,
    {
        ConsolidatedMap { data, index }
    }

    /// The stored block of `parent`, if `parent` is within the range that was seen.
    fn get_children_slice(&self, parent: usize) -> (block: Option<&[u32]>)
        ensures
            match block {
                Some(ids) => {
                    &&& parent < self@.len()
                    &&& widened(ids@) == self@[parent as int]
                    &&& is_strictly_ascending(ids@)
                    &&& ids@.len() < usize::MAX
                },
                None => parent >= self@.len(),
            },
    {
        proof {
            use_type_invariant(self);
        }
        if parent >= self.index.len() {
            return None;
        }
        let offset = self.index[parent];
        let len = self.data[offset] as usize;
        assert(block_end(self.data@, offset as int) <= self.data.len());
        Some(slice_subrange(self.data.as_slice(), offset + 1, offset + 1 + len))
    }

    /// The descendants of `item`, in ascending order.
    pub fn children(&self, item: usize) -> (walk: Children<'_>)
        ensures
            walk@ == self.descendants(item),
            strictly_ascending_ids(walk@),
            walk@.no_duplicates(),
    {
        let rest = match self.get_children_slice(item) {
            Some(ids) => ids,
            None => slice_subrange(self.data.as_slice(), 0, 0),
        };
        Children { first: None, rest }
    }

    /// `item` itself, followed by its descendants in ascending order.
    pub fn consolidated(&self, item: usize) -> (walk: Children<'_>)
        ensures
            walk@ == seq![item] + self.descendants(item),
            strictly_ascending_ids(self.descendants(item)),
            self.descendants(item).no_duplicates(),
    {
        let rest = match self.get_children_slice(item) {
            Some(ids) => ids,
            None => slice_subrange(self.data.as_slice(), 0, 0),
        };
        Children { first: Some(item), rest }
    }

    /// Whether `child` is among the descendants of `parent`.
    pub fn contains_child(&self, parent: usize, child: usize) -> (found: bool)
        ensures
            found == self.descendants(parent).contains(child),
    {
        match self.get_children_slice(parent) {
            Some(ids) => {
                if child > u32::MAX as usize {
                    false
                } else {
                    let found = search(ids, child as u32);
                    proof {
                        if found {
                            let i = choose|i: int| 0 <= i < ids@.len() && ids@[i] == child as u32;
                            assert(widened(ids@)[i] == child);
                        }
                        if widened(ids@).contains(child) {
                            let i = choose|i: int|
                                0 <= i < widened(ids@).len() && widened(ids@)[i] == child;
                            assert(ids@[i] == child as u32);
                        }
                    }
                    found
                }
            },
            None => false,
        }
    }
}

/// Whether `id` occurs in a strictly ascending block, found by bisection.
fn search(ids: &[u32], id: u32) -> (found: bool)
    requires
        is_strictly_ascending(ids@),
    ensures
        found == ids@.contains(id),
{
    let mut lo: usize = 0;
    let mut hi: usize = ids.len();
    while lo < hi
        invariant
            lo <= hi <= ids@.len(),
            is_strictly_ascending(ids@),
            forall|i: int| 0 <= i < lo ==> ids@[i] < id,
            forall|i: int| hi <= i < ids@.len() ==> ids@[i] > id,
        decreases hi - lo,
    {
        let mid = lo + (hi - lo) / 2;
        let probe = ids[mid];
        if probe == id {
            return true;
        } else if probe < id {
            lo = mid + 1;
        } else {
            hi = mid;
        }
    }
    false
}

/// Anything that can hand out a key together with all that is below it.
pub trait ConsolidatedBy {
    /// `key` itself, followed by its descendants.
    fn consolidated_by(&self, key: usize) -> Children<'_>;
}

impl<T: ConsolidatedBy> ConsolidatedBy for &T {
    /// Whatever the value behind the reference hands out.
    fn consolidated_by(&self, key: usize) -> (walk: Children<'_>)
        ensures
            call_ensures(T::consolidated_by, (*self, key), walk),
    {
        (*self).consolidated_by(key)
    }
}

impl ConsolidatedBy for ConsolidatedMap {
    fn consolidated_by(&self, key: usize) -> (walk: Children<'_>)
        ensures
            walk@ == seq![key] + self.descendants(key),
    {
        self.consolidated(key)
    }
}

impl Default for ConsolidatedMap {
    /// The index of the forest without nodes.
    fn default() -> (map: Self)
        ensures
            map.data() == Seq::<u32>::empty(),
            map.offsets() == Seq::<usize>::empty(),
            map@ == Seq::<Seq<usize>>::empty(),
    {
        ConsolidatedMap { data: Vec::new(), index: Vec::new() }
    }
}

impl Clone for ConsolidatedMap {
    /// A full copy with a life of its own.
    fn clone(&self) -> (copy: Self)
        ensures
            copy.data() == self.data(),
            copy.offsets() == self.offsets(),
            copy@ == self@,
    {
        proof {
            use_type_invariant(self);
        }
        let data = self.data.clone();
        let index = self.index.clone();
        ConsolidatedMap { data, index }
    }
}

} // verus!
