//! The mathematical model: a forest given by one optional parent per node.
//!
//! A forest over the nodes `0 .. f.len()` is a sequence `f` in which `f[x]`
//! is the parent of `x`, or `None` while `x` is a root. Everything the
//! builder and the index promise is stated over this model.

use vstd::prelude::*;
use vstd::set_lib::{lemma_int_range, lemma_len_subset, set_int_range};

verus! {

/// For each node, its parent, or `None` while the node is a root.
pub type Forest = Seq<Option<usize>>;

/// The parent recorded for `x`, if any. Nodes beyond the end of `f` have none.
pub open spec fn parent_of(f: Forest, x: usize) -> Option<usize> {
    if x < f.len() {
        f[x as int]
    } else {
        None
    }
}

/// The node reached from `x` by following `k` parent links, if the chain is that long.
pub open spec fn nth_ancestor(f: Forest, x: usize, k: nat) -> Option<usize>
    decreases k,
{
    if k == 0 {
        Some(x)
    } else {
        match parent_of(f, x) {
            Some(y) => nth_ancestor(f, y, (k - 1) as nat),
            None => None,
        }
    }
}

/// `a` is a proper ancestor of `d`: one or more parent links lead from `d` to `a`.
/// Read the other way round, `d` is a transitive descendant of `a`.
pub open spec fn is_ancestor(f: Forest, a: usize, d: usize) -> bool {
    exists|k: nat| k > 0 && #[trigger] nth_ancestor(f, d, k) == Some(a)
}

/// `a` is `d` itself or a proper ancestor of `d`.
pub open spec fn is_ancestor_or_self(f: Forest, a: usize, d: usize) -> bool {
    a == d || is_ancestor(f, a, d)
}

/// Every recorded parent is itself a node of `f`.
pub open spec fn parents_in_range(f: Forest) -> bool {
    forall|x: usize| (#[trigger] parent_of(f, x)) matches Some(p) ==> p < f.len()
}

/// No node is its own ancestor.
pub open spec fn is_acyclic(f: Forest) -> bool {
    forall|x: usize| !#[trigger] is_ancestor(f, x, x)
}

/// `f` describes a forest: every position is an identifier, parents are
/// nodes, and parent links never loop.
pub open spec fn is_forest(f: Forest) -> bool {
    f.len() <= usize::MAX + 1 && parents_in_range(f) && is_acyclic(f)
}

/// `g` arises from `f` by giving the root `c` the parent `p` and changing no other link.
pub open spec fn relinked(f: Forest, g: Forest, p: usize, c: usize) -> bool {
    &&& parent_of(f, c) is None
    &&& parent_of(g, c) == Some(p)
    &&& forall|x: usize| x != c ==> #[trigger] parent_of(g, x) == parent_of(f, x)
}

/// `f` extended with roots until it holds at least `n` nodes.
pub open spec fn grown(f: Forest, n: nat) -> Forest {
    if n <= f.len() {
        f
    } else {
        f + Seq::new((n - f.len()) as nat, |i: int| None::<usize>)
    }
}

/// `f` grown to hold both `p` and `c`, with `p` recorded as the parent of `c`.
pub open spec fn linked(f: Forest, p: usize, c: usize) -> Forest {
    let n = if p >= c { p + 1 } else { c + 1 };
    grown(f, n as nat).update(c as int, Some(p))
}

/// One link up from `x` is the parent of `x`.
pub proof fn lemma_first_ancestor(f: Forest, x: usize)
    ensures
        nth_ancestor(f, x, 1) == parent_of(f, x),
{
    reveal_with_fuel(nth_ancestor, 2);
}

/// Following `i + j` links is following `i` links and then `j` more.
pub proof fn lemma_nth_ancestor_split(f: Forest, x: usize, i: nat, j: nat)
    ensures
        nth_ancestor(f, x, i + j) == match nth_ancestor(f, x, i) {
            Some(y) => nth_ancestor(f, y, j),
            None => None,
        },
    decreases i,
{
    if i > 0 {
        match parent_of(f, x) {
            Some(y) => {
                lemma_nth_ancestor_split(f, y, (i - 1) as nat, j);
            },
            None => {},
        }
    }
}

/// The ancestor relation is transitive.
pub proof fn lemma_ancestor_transitive(f: Forest, a: usize, b: usize, c: usize)
    requires
        is_ancestor(f, a, b),
        is_ancestor(f, b, c),
    ensures
        is_ancestor(f, a, c),
{
    let i = choose|k: nat| k > 0 && #[trigger] nth_ancestor(f, c, k) == Some(b);
    let j = choose|k: nat| k > 0 && #[trigger] nth_ancestor(f, b, k) == Some(a);
    lemma_nth_ancestor_split(f, c, i, j);
}

/// Transitivity where either step may be the trivial one.
pub proof fn lemma_ancestor_or_self_transitive(f: Forest, a: usize, b: usize, c: usize)
    requires
        is_ancestor_or_self(f, a, b),
        is_ancestor_or_self(f, b, c),
    ensures
        is_ancestor_or_self(f, a, c),
{
    if a != b && b != c {
        lemma_ancestor_transitive(f, a, b, c);
    }
}

/// In a forest whose parents are nodes, both ends of an ancestor link are nodes.
pub proof fn lemma_nth_ancestor_in_range(f: Forest, d: usize, k: nat, a: usize)
    requires
        parents_in_range(f),
        k > 0,
        nth_ancestor(f, d, k) == Some(a),
    ensures
        d < f.len(),
        a < f.len(),
    decreases k,
{
    let y = parent_of(f, d).unwrap();
    if k > 1 {
        lemma_nth_ancestor_in_range(f, y, (k - 1) as nat, a);
    } else {
        lemma_first_ancestor(f, d);
    }
}

/// Both ends of an ancestor relation are nodes of the forest.
pub proof fn lemma_ancestor_in_range(f: Forest, a: usize, d: usize)
    requires
        parents_in_range(f),
        is_ancestor(f, a, d),
    ensures
        d < f.len(),
        a < f.len(),
{
    let k = choose|k: nat| k > 0 && #[trigger] nth_ancestor(f, d, k) == Some(a);
    lemma_nth_ancestor_in_range(f, d, k, a);
}

/// Two sequences that record the same parent for every node have the same chains.
pub proof fn lemma_same_parents_same_chain(f: Forest, g: Forest, x: usize, k: nat)
    requires
        forall|y: usize| parent_of(f, y) == parent_of(g, y),
    ensures
        nth_ancestor(f, x, k) == nth_ancestor(g, x, k),
    decreases k,
{
    if k > 0 {
        match parent_of(f, x) {
            Some(y) => lemma_same_parents_same_chain(f, g, y, (k - 1) as nat),
            None => {},
        }
    }
}

/// Two sequences that record the same parent for every node have the same ancestors.
pub proof fn lemma_same_parents_same_ancestors(f: Forest, g: Forest)
    requires
        forall|y: usize| parent_of(f, y) == parent_of(g, y),
    ensures
        forall|a: usize, d: usize| is_ancestor(f, a, d) == is_ancestor(g, a, d),
{
    assert forall|a: usize, d: usize| is_ancestor(f, a, d) == is_ancestor(g, a, d) by {
        if is_ancestor(f, a, d) {
            let k = choose|k: nat| k > 0 && #[trigger] nth_ancestor(f, d, k) == Some(a);
            lemma_same_parents_same_chain(f, g, d, k);
        }
        if is_ancestor(g, a, d) {
            let k = choose|k: nat| k > 0 && #[trigger] nth_ancestor(g, d, k) == Some(a);
            lemma_same_parents_same_chain(f, g, d, k);
        }
    }
}

/// Growing a forest adds roots only: no parent changes.
pub proof fn lemma_grown_keeps_parents(f: Forest, n: nat)
    ensures
        grown(f, n).len() == if n <= f.len() { f.len() } else { n },
        forall|y: usize| #[trigger] parent_of(grown(f, n), y) == parent_of(f, y),
{
}

/// Linking a root `c` below another node `p` rewires exactly that one link.
pub proof fn lemma_linked_is_relinked(f: Forest, p: usize, c: usize)
    requires
        parent_of(f, c) is None,
    ensures
        relinked(f, linked(f, p, c), p, c),
        linked(f, p, c).len() > p,
        linked(f, p, c).len() > c,
        linked(f, p, c).len() >= f.len(),
{
    let n = if p >= c { p + 1 } else { c + 1 };
    lemma_grown_keeps_parents(f, n as nat);
}

/// A chain of `f` that exists is the same chain in the relinked forest.
pub proof fn lemma_relinked_keeps_chain(
    f: Forest,
    g: Forest,
    p: usize,
    c: usize,
    d: usize,
    k: nat,
)
    requires
        relinked(f, g, p, c),
        nth_ancestor(f, d, k) is Some,
    ensures
        nth_ancestor(g, d, k) == nth_ancestor(f, d, k),
    decreases k,
{
    if k > 0 {
        let y = parent_of(f, d).unwrap();
        lemma_relinked_keeps_chain(f, g, p, c, y, (k - 1) as nat);
    }
}

/// A chain of the relinked forest either existed before or runs through the new link.
pub proof fn lemma_relinked_chain_origin(
    f: Forest,
    g: Forest,
    p: usize,
    c: usize,
    d: usize,
    k: nat,
    a: usize,
)
    requires
        relinked(f, g, p, c),
        !is_ancestor_or_self(f, c, p),
        nth_ancestor(g, d, k) == Some(a),
    ensures
        nth_ancestor(f, d, k) == Some(a)
            || (is_ancestor_or_self(f, c, d) && is_ancestor_or_self(f, a, p)),
    decreases k,
{
    if k > 0 {
        if d == c {
            // one link leads to `p`, and the chain from there is as it was
            lemma_relinked_chain_above(f, g, p, c, p, (k - 1) as nat);
        } else {
            let y = parent_of(f, d).unwrap();
            lemma_relinked_chain_origin(f, g, p, c, y, (k - 1) as nat, a);
            if nth_ancestor(f, y, (k - 1) as nat) != Some(a) {
                // the chain from `y` runs through `c`, hence so does the chain from `d`
                if c == y {
                    lemma_first_ancestor(f, d);
                } else {
                    let m = choose|m: nat| m > 0 && #[trigger] nth_ancestor(f, y, m) == Some(c);
                    assert(nth_ancestor(f, d, m + 1) == Some(c));
                }
            }
        }
    }
}

/// A chain that starts at a node that `c` is not above is untouched by relinking `c`.
pub proof fn lemma_relinked_chain_above(
    f: Forest,
    g: Forest,
    p: usize,
    c: usize,
    x: usize,
    k: nat,
)
    requires
        relinked(f, g, p, c),
        !is_ancestor_or_self(f, c, x),
    ensures
        nth_ancestor(g, x, k) == nth_ancestor(f, x, k),
    decreases k,
{
    if k > 0 {
        match parent_of(f, x) {
            Some(y) => {
                if c == y {
                    lemma_first_ancestor(f, x);
                }
                if is_ancestor(f, c, y) {
                    let m = choose|m: nat| m > 0 && #[trigger] nth_ancestor(f, y, m) == Some(c);
                    assert(nth_ancestor(f, x, m + 1) == Some(c));
                }
                lemma_relinked_chain_above(f, g, p, c, y, (k - 1) as nat);
            },
            None => {},
        }
    }
}

/// The ancestors after a root `c` was linked below `p`: those from before, and
/// every node at or above `p` for every node at or below `c`.
pub proof fn lemma_relinked_ancestors(
    f: Forest,
    g: Forest,
    p: usize,
    c: usize,
    a: usize,
    d: usize,
)
    requires
        relinked(f, g, p, c),
        !is_ancestor_or_self(f, c, p),
    ensures
        is_ancestor(g, a, d) <==> is_ancestor(f, a, d)
            || (is_ancestor_or_self(f, c, d) && is_ancestor_or_self(f, a, p)),
{
    if is_ancestor(g, a, d) {
        let k = choose|k: nat| k > 0 && #[trigger] nth_ancestor(g, d, k) == Some(a);
        lemma_relinked_chain_origin(f, g, p, c, d, k, a);
    }
    if is_ancestor(f, a, d) {
        let k = choose|k: nat| k > 0 && #[trigger] nth_ancestor(f, d, k) == Some(a);
        lemma_relinked_keeps_chain(f, g, p, c, d, k);
    }
    if is_ancestor_or_self(f, c, d) && is_ancestor_or_self(f, a, p) {
        let i: nat = if c == d {
            0
        } else {
            choose|k: nat| k > 0 && #[trigger] nth_ancestor(f, d, k) == Some(c)
        };
        let m: nat = if a == p {
            0
        } else {
            choose|k: nat| k > 0 && #[trigger] nth_ancestor(f, p, k) == Some(a)
        };
        lemma_relinked_keeps_chain(f, g, p, c, d, i);
        lemma_relinked_keeps_chain(f, g, p, c, p, m);
        lemma_nth_ancestor_split(g, d, i, 1 + m);
    }
}

/// Linking a root below a node that is not among its descendants keeps the forest a forest.
pub proof fn lemma_relinked_is_forest(f: Forest, g: Forest, p: usize, c: usize)
    requires
        is_forest(f),
        relinked(f, g, p, c),
        !is_ancestor_or_self(f, c, p),
        p < g.len(),
        f.len() <= g.len() <= usize::MAX + 1,
    ensures
        is_forest(g),
{
    assert forall|x: usize| !#[trigger] is_ancestor(g, x, x) by {
        lemma_relinked_ancestors(f, g, p, c, x, x);
        if is_ancestor_or_self(f, c, x) && is_ancestor_or_self(f, x, p) {
            lemma_ancestor_or_self_transitive(f, c, x, p);
        }
    }
    assert forall|x: usize| (#[trigger] parent_of(g, x)) is Some
        implies parent_of(g, x).unwrap() < g.len() by {
        if x != c {
            assert(parent_of(g, x) == parent_of(f, x));
        }
    }
}

/// Distinct numbers below `n` are at most `n` many.
pub proof fn lemma_distinct_below(s: Seq<int>, n: nat)
    requires
        s.no_duplicates(),
        forall|i: int| 0 <= i < s.len() ==> 0 <= #[trigger] s[i] < n,
    ensures
        s.len() <= n,
{
    s.unique_seq_to_set();
    lemma_int_range(0, n as int);
    lemma_len_subset(s.to_set(), set_int_range(0, n as int));
}

/// In a forest no chain of parent links is as long as the forest has nodes.
pub proof fn lemma_chain_shorter_than_forest(f: Forest, x: usize, k: nat)
    requires
        is_forest(f),
        x < f.len(),
        nth_ancestor(f, x, k) is Some,
    ensures
        k < f.len(),
{
    let s = Seq::new(k + 1, |j: int| nth_ancestor(f, x, j as nat).unwrap() as int);
    assert forall|j: int| 0 <= j <= k implies (#[trigger] nth_ancestor(f, x, j as nat)) is Some by {
        lemma_nth_ancestor_split(f, x, j as nat, (k - j) as nat);
    }
    assert forall|i: int| 0 <= i < s.len() implies 0 <= #[trigger] s[i] < f.len() by {
        if i > 0 {
            lemma_nth_ancestor_in_range(f, x, i as nat, nth_ancestor(f, x, i as nat).unwrap());
        }
    }
    assert forall|i: int, j: int| 0 <= i < s.len() && 0 <= j < s.len() && i != j implies s[i]
        != s[j] by {
        if s[i] == s[j] {
            let (lo, hi) = if i < j { (i, j) } else { (j, i) };
            let y = nth_ancestor(f, x, lo as nat).unwrap();
            lemma_nth_ancestor_split(f, x, lo as nat, (hi - lo) as nat);
            assert(is_ancestor(f, y, y));
        }
    }
    lemma_distinct_below(s, f.len());
}

} // verus!
