//! Descendant lists: what the list of a node has to hold, and how the lists
//! change when a root is linked below another node.

use crate::forest::{
    is_ancestor, is_ancestor_or_self, is_forest, lemma_ancestor_in_range,
    lemma_ancestor_or_self_transitive, lemma_distinct_below, lemma_nth_ancestor_split,
    lemma_relinked_ancestors, nth_ancestor, parent_of, relinked, Forest,
};
use vstd::prelude::*;
use vstd::seq_lib::lemma_no_dup_in_concat;

verus! {

/// `list` holds exactly the descendants of `a` in `f`, each once.
pub(crate) open spec fn holds_descendants(list: Seq<u32>, f: Forest, a: usize) -> bool {
    &&& list.no_duplicates()
    &&& forall|x: u32| #[trigger] list.contains(x) ==> is_ancestor(f, a, x as usize)
    &&& forall|d: usize|
        #[trigger] is_ancestor(f, a, d) ==> d <= u32::MAX && list.contains(d as u32)
}

/// `a` is among the first `k` nodes on the way from `p` to its root.
pub(crate) open spec fn on_way_up(g: Forest, p: usize, k: nat, a: usize) -> bool {
    exists|j: nat| j < k && #[trigger] nth_ancestor(g, p, j) == Some(a)
}

/// A root that is at or above a descendant of `a` is at or above `a`.
pub(crate) proof fn lemma_root_is_above(f: Forest, c: usize, a: usize, x: usize)
    requires
        parent_of(f, c) is None,
        is_ancestor(f, a, x),
        is_ancestor_or_self(f, c, x),
    ensures
        is_ancestor_or_self(f, c, a),
{
    let j = choose|k: nat| k > 0 && #[trigger] nth_ancestor(f, x, k) == Some(a);
    if c == x {
        // nothing is above a root
        assert(nth_ancestor(f, c, j) is None);
    } else {
        let i = choose|k: nat| k > 0 && #[trigger] nth_ancestor(f, x, k) == Some(c);
        if j > i {
            // `a` would be above the root
            lemma_nth_ancestor_split(f, x, i, (j - i) as nat);
            assert(nth_ancestor(f, c, (j - i) as nat) is None);
        } else if j < i {
            lemma_nth_ancestor_split(f, x, j, (i - j) as nat);
            assert(nth_ancestor(f, a, (i - j) as nat) == Some(c));
        }
    }
}

/// Once `k` links up from `p` lead nowhere, the first `k` nodes on the way
/// are all that is at or above `p`.
pub(crate) proof fn lemma_way_up_complete(g: Forest, p: usize, k: nat, a: usize)
    requires
        nth_ancestor(g, p, k) is None,
    ensures
        on_way_up(g, p, k, a) <==> is_ancestor_or_self(g, a, p),
{
    if on_way_up(g, p, k, a) {
        let j = choose|j: nat| j < k && #[trigger] nth_ancestor(g, p, j) == Some(a);
        if j > 0 {
            assert(is_ancestor(g, a, p));
        }
    }
    if a == p {
        assert(nth_ancestor(g, p, 0) == Some(a));
    } else if is_ancestor(g, a, p) {
        let m = choose|m: nat| m > 0 && #[trigger] nth_ancestor(g, p, m) == Some(a);
        if m >= k {
            lemma_nth_ancestor_split(g, p, k, (m - k) as nat);
        }
    }
}

/// What the list of `a` has to become when the root `c`, whose descendants
/// are `below`, is linked below `p`: nodes at or above `p` gain `below` and `c`.
pub(crate) proof fn lemma_linked_list(
    f: Forest,
    g: Forest,
    p: usize,
    c: usize,
    a: usize,
    list: Seq<u32>,
    below: Seq<u32>,
    after: Seq<u32>,
)
    requires
        is_forest(f),
        relinked(f, g, p, c),
        !is_ancestor_or_self(f, c, p),
        c <= u32::MAX,
        holds_descendants(list, f, a),
        holds_descendants(below, f, c),
        after == if is_ancestor_or_self(f, a, p) {
            list + below + seq![c as u32]
        } else {
            list
        },
    ensures
        holds_descendants(after, g, a),
{
    assert forall|d: usize|
        is_ancestor(g, a, d) <==> is_ancestor(f, a, d)
            || (is_ancestor_or_self(f, c, d) && is_ancestor_or_self(f, a, p)) by {
        lemma_relinked_ancestors(f, g, p, c, a, d);
    }
    if is_ancestor_or_self(f, a, p) {
        let tail = below + seq![c as u32];
        assert(after =~= list + tail);
        assert forall|x: u32| #[trigger] tail.contains(x)
            implies is_ancestor_or_self(f, c, x as usize) by {
            let i = choose|i: int| 0 <= i < tail.len() && tail[i] == x;
            if i < below.len() {
                assert(below.contains(x));
            }
        }
        assert(tail.no_duplicates()) by {
            assert forall|i: int, j: int|
                0 <= i < tail.len() && 0 <= j < tail.len() && i != j implies tail[i] != tail[j] by {
                if i < below.len() {
                    assert(below.contains(tail[i]));
                }
                if j < below.len() {
                    assert(below.contains(tail[j]));
                }
            }
        }
        assert forall|i: int, j: int| 0 <= i < list.len() && 0 <= j < tail.len() implies list[i]
            != tail[j] by {
            if list[i] == tail[j] {
                let x = list[i];
                assert(list.contains(x));
                assert(tail.contains(x));
                lemma_root_is_above(f, c, a, x as usize);
                lemma_ancestor_or_self_transitive(f, c, a, p);
            }
        }
        lemma_no_dup_in_concat(list, tail);
        assert forall|x: u32| #[trigger] after.contains(x)
            implies is_ancestor(g, a, x as usize) by {
            let i = choose|i: int| 0 <= i < after.len() && after[i] == x;
            if i < list.len() {
                assert(list.contains(x));
            } else {
                assert(tail.contains(x));
            }
        }
        assert forall|d: usize| #[trigger] is_ancestor(g, a, d) implies d <= u32::MAX
            && after.contains(d as u32) by {
            if is_ancestor(f, a, d) {
                let i = choose|i: int| 0 <= i < list.len() && list[i] == d as u32;
                assert(after[i] == d as u32);
            } else if d == c {
                assert(after[after.len() - 1] == c as u32);
            } else {
                let i = choose|i: int| 0 <= i < below.len() && below[i] == d as u32;
                assert(after[list.len() + i] == d as u32);
            }
        }
    }
}

/// Two lists hold the same identifiers.
pub(crate) open spec fn same_ids(s: Seq<u32>, t: Seq<u32>) -> bool {
    forall|x: u32| s.contains(x) <==> t.contains(x)
}

/// The descendants of a node are fewer than the forest has nodes, and fit a
/// 32-bit count.
pub(crate) proof fn lemma_list_shorter_than_forest(list: Seq<u32>, f: Forest, a: usize)
    requires
        is_forest(f),
        f.len() <= u32::MAX + 1,
        a < f.len(),
        holds_descendants(list, f, a),
    ensures
        list.len() < f.len(),
        list.len() <= u32::MAX,
{
    // the list with the node itself put behind it: distinct nodes of the forest
    let s = Seq::new(
        list.len() + 1,
        |i: int| if i < list.len() { list[i] as int } else { a as int },
    );
    assert forall|i: int| 0 <= i < s.len() implies 0 <= #[trigger] s[i] < f.len() by {
        if i < list.len() {
            assert(list.contains(list[i]));
            lemma_ancestor_in_range(f, a, list[i] as usize);
        }
    }
    assert forall|i: int, j: int| 0 <= i < s.len() && 0 <= j < s.len() && i != j implies s[i]
        != s[j] by {
        if i < list.len() {
            assert(list.contains(list[i]));
        }
        if j < list.len() {
            assert(list.contains(list[j]));
        }
    }
    lemma_distinct_below(s, f.len());
}

} // verus!
