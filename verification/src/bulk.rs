//! Bulk construction: folding a sequence of edges through the builder.

use crate::builder::{insert_result, insert_state, is_node_id, ConsolidatedMapBuilder, InsertError};
use crate::forest::Forest;
use crate::index::{is_index_of, ConsolidatedMap};
use vstd::prelude::*;

verus! {

/// What inserting `edges` one after the other leads to on a builder whose
/// edges form `f`: the edges afterwards, or the answer to the first edge
/// that is refused.
pub open spec fn insert_all(f: Forest, edges: Seq<(usize, usize)>) -> Result<Forest, InsertError>
    decreases edges.len(),
{
    if edges.len() == 0 {
        Ok(f)
    } else {
        match insert_all(f, edges.drop_last()) {
            Ok(g) => match insert_result(g, edges.last().0, edges.last().1) {
                Ok(_) => Ok(insert_state(g, edges.last().0, edges.last().1)),
                Err(e) => Err(e),
            },
            Err(e) => Err(e),
        }
    }
}

/// Once an edge is refused, the edges behind it are not looked at.
proof fn lemma_insert_all_stops(f: Forest, edges: Seq<(usize, usize)>, k: int)
    requires
        0 <= k <= edges.len(),
        insert_all(f, edges.take(k)) is Err,
    ensures
        insert_all(f, edges) == insert_all(f, edges.take(k)),
    decreases edges.len(),
{
    if k == edges.len() {
        assert(edges.take(k) =~= edges);
    } else {
        assert(edges.drop_last().take(k) =~= edges.take(k));
        lemma_insert_all_stops(f, edges.drop_last(), k);
    }
}

impl ConsolidatedMap {
    /// The index of the forest that `edges`, given as pairs of parent and
    /// child, form when they are inserted one after the other into an empty
    /// builder; or the answer to the first edge that is refused.
    pub fn from_edges(edges: &[(usize, usize)]) -> (built: Result<ConsolidatedMap, InsertError>)
        requires
            forall|i: int|
                0 <= i < edges@.len()
                    ==> is_node_id((#[trigger] edges@[i]).0) && is_node_id(edges@[i].1),
        ensures
            match built {
                Ok(map) => {
                    &&& insert_all(Forest::empty(), edges@) matches Ok(f)
                    &&& is_index_of(map@, f)
                },
                Err(e) => insert_all(Forest::empty(), edges@) == Err::<Forest, InsertError>(e),
            },
    {
        let mut builder = ConsolidatedMapBuilder::new();
        let mut i: usize = 0;
        while i < edges.len()
            invariant
                i <= edges@.len(),
                builder.wf(),
                insert_all(Forest::empty(), edges@.take(i as int))
                    == Ok::<Forest, InsertError>(builder@),
                forall|i: int|
                    0 <= i < edges@.len()
                        ==> is_node_id((#[trigger] edges@[i]).0) && is_node_id(edges@[i].1),
            decreases edges@.len() - i,
        {
            let (parent, child) = edges[i];
            let answer = builder.insert(parent, child);
            proof {
                assert(edges@.take(i + 1).drop_last() =~= edges@.take(i as int));
            }
            if let Err(e) = answer {
                proof {
                    lemma_insert_all_stops(Forest::empty(), edges@, i + 1);
                }
                return Err(e);
            }
            i += 1;
        }
        assert(edges@.take(i as int) =~= edges@);
        Ok(builder.build())
    }
}

} // verus!
