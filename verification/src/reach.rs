//! Reachability through the object graph.
//!
//! The collector's heap is abstracted as a map from identifier to the
//! sequence of identifiers the stored object references (its trace
//! edges), and the root set as a set of identifiers.  An identifier is
//! live when some path from a root reaches it without ever leaving the
//! table.  The lemmas here are the laws of the collector: a closed
//! marked set covers everything reachable, collection is idempotent,
//! shrinking the root set never makes more objects reachable, a rooted
//! cycle survives, and a heap with no rooted entry is emptied.

use vstd::prelude::*;

verus! {

/// A path through the object graph `g`: a non-empty sequence of
/// identifiers that starts at a root, stays inside the table, and
/// follows trace edges.
pub open spec fn is_path(g: Map<usize, Seq<usize>>, roots: Set<usize>, p: Seq<usize>) -> bool {
    &&& p.len() > 0
    &&& roots.contains(p[0])
    &&& (forall|i: int| 0 <= i < p.len() ==> g.dom().contains(#[trigger] p[i]))
    &&& (forall|i: int| 1 <= i < p.len() ==> g[p[i - 1]].contains(#[trigger] p[i]))
}

/// An identifier is reachable when some path from the root set ends at it.
pub open spec fn reachable(g: Map<usize, Seq<usize>>, roots: Set<usize>, id: usize) -> bool {
    exists|p: Seq<usize>| is_path(g, roots, p) && p.last() == id
}

/// The set of identifiers a collection retains.
pub open spec fn reach_set(g: Map<usize, Seq<usize>>, roots: Set<usize>) -> Set<usize> {
    Set::new(|id: usize| reachable(g, roots, id))
}

/// Reachable identifiers are in the table.
pub proof fn lemma_reachable_in_dom(g: Map<usize, Seq<usize>>, roots: Set<usize>, id: usize)
    requires
        reachable(g, roots, id),
    ensures
        g.dom().contains(id),
{
    let p = choose|p: Seq<usize>| is_path(g, roots, p) && p.last() == id;
    assert(g.dom().contains(p[p.len() - 1]));
}

/// A root that resolves in the table is reachable.
pub proof fn lemma_root_reachable(g: Map<usize, Seq<usize>>, roots: Set<usize>, r: usize)
    requires
        roots.contains(r),
        g.dom().contains(r),
    ensures
        reachable(g, roots, r),
{
    let p = seq![r];
    assert(p[0] == r);
    assert(is_path(g, roots, p));
    assert(p.last() == r);
}

/// Following one in-table edge from a reachable object reaches its target.
pub proof fn lemma_reachable_step(g: Map<usize, Seq<usize>>, roots: Set<usize>, x: usize, e: usize)
    requires
        reachable(g, roots, x),
        g[x].contains(e),
        g.dom().contains(e),
    ensures
        reachable(g, roots, e),
{
    let p = choose|p: Seq<usize>| is_path(g, roots, p) && p.last() == x;
    let q = p.push(e);
    assert(q[q.len() - 1] == e);
    assert(q[q.len() - 2] == p[p.len() - 1]);
    assert(forall|i: int| 0 <= i < p.len() ==> q[i] == #[trigger] p[i]);
    assert(is_path(g, roots, q));
    assert(q.last() == e);
}

/// Every prefix of a path is a path, ending at the cut point.
pub proof fn lemma_path_prefix(
    g: Map<usize, Seq<usize>>,
    roots: Set<usize>,
    p: Seq<usize>,
    i: int,
)
    requires
        is_path(g, roots, p),
        0 <= i < p.len(),
    ensures
        is_path(g, roots, p.take(i + 1)),
        p.take(i + 1).last() == p[i],
{
    let q = p.take(i + 1);
    assert(forall|j: int| 0 <= j < q.len() ==> #[trigger] q[j] == p[j]);
}

proof fn lemma_path_end_in_closed(
    g: Map<usize, Seq<usize>>,
    roots: Set<usize>,
    m: Set<usize>,
    p: Seq<usize>,
)
    requires
        is_path(g, roots, p),
        forall|r: usize| roots.contains(r) && g.dom().contains(r) ==> m.contains(r),
        forall|x: usize, e: usize|
            #![trigger m.contains(x), g[x].contains(e)]
            m.contains(x) && g.dom().contains(x) && g[x].contains(e) && g.dom().contains(e)
                ==> m.contains(e),
    ensures
        m.contains(p.last()),
    decreases p.len(),
{
    if p.len() == 1 {
        assert(m.contains(p[0]));
    } else {
        let q = p.drop_last();
        assert(forall|j: int| 0 <= j < q.len() ==> #[trigger] q[j] == p[j]);
        assert(is_path(g, roots, q));
        lemma_path_end_in_closed(g, roots, m, q);
        assert(q.last() == p[p.len() - 2]);
        assert(g[p[p.len() - 2]].contains(p[p.len() - 1]));
    }
}

/// Law behind the mark phase: any set that contains every table-resident
/// root and is closed under table-resident edges covers every reachable
/// identifier.
pub proof fn lemma_closed_set_covers_reachable(
    g: Map<usize, Seq<usize>>,
    roots: Set<usize>,
    m: Set<usize>,
    id: usize,
)
    requires
        reachable(g, roots, id),
        forall|r: usize| roots.contains(r) && g.dom().contains(r) ==> m.contains(r),
        forall|x: usize, e: usize|
            #![trigger m.contains(x), g[x].contains(e)]
            m.contains(x) && g.dom().contains(x) && g[x].contains(e) && g.dom().contains(e)
                ==> m.contains(e),
    ensures
        m.contains(id),
{
    let p = choose|p: Seq<usize>| is_path(g, roots, p) && p.last() == id;
    lemma_path_end_in_closed(g, roots, m, p);
}

/// A path in a restriction of `g` is a path in `g` itself.
pub proof fn lemma_reachable_restrict_implies(
    g: Map<usize, Seq<usize>>,
    roots: Set<usize>,
    s: Set<usize>,
    id: usize,
)
    requires
        reachable(g.restrict(s), roots, id),
    ensures
        reachable(g, roots, id),
{
    let g2 = g.restrict(s);
    let p = choose|p: Seq<usize>| is_path(g2, roots, p) && p.last() == id;
    assert(forall|i: int| 0 <= i < p.len() ==> g.dom().contains(#[trigger] p[i]));
    assert(forall|i: int| 1 <= i < p.len() ==> g[p[i - 1]].contains(#[trigger] p[i]));
    assert(is_path(g, roots, p));
}

/// Law: collection is idempotent.  Restricting the heap to the reachable
/// set leaves reachability unchanged, so every identifier surviving one
/// collection is reachable again in the resulting heap and a second
/// collection with the same roots collects nothing.
pub proof fn lemma_collect_idempotent(g: Map<usize, Seq<usize>>, roots: Set<usize>)
    ensures
        forall|id: usize|
            reachable(g.restrict(reach_set(g, roots)), roots, id) <==> reachable(g, roots, id),
        forall|id: usize|
            #[trigger] g.restrict(reach_set(g, roots)).dom().contains(id)
                ==> reachable(g.restrict(reach_set(g, roots)), roots, id),
{
    let s = reach_set(g, roots);
    let g2 = g.restrict(s);
    assert forall|id: usize| reachable(g2, roots, id) implies reachable(g, roots, id) by {
        lemma_reachable_restrict_implies(g, roots, s, id);
    }
    assert forall|id: usize| reachable(g, roots, id) implies reachable(g2, roots, id) by {
        let p = choose|p: Seq<usize>| is_path(g, roots, p) && p.last() == id;
        assert forall|i: int| 0 <= i < p.len() implies g2.dom().contains(#[trigger] p[i]) by {
            lemma_path_prefix(g, roots, p, i);
            assert(reachable(g, roots, p[i])) by {
                assert(is_path(g, roots, p.take(i + 1)) && p.take(i + 1).last() == p[i]);
            }
            assert(s.contains(p[i]));
        }
        assert(forall|i: int| 1 <= i < p.len() ==> g2[p[i - 1]].contains(#[trigger] p[i]));
        assert(is_path(g2, roots, p));
        assert(p.last() == id);
    }
}

/// Law: enlarging the root set can only enlarge the reachable set; in
/// particular, after the sole root keeping a subgraph alive is removed,
/// nothing that was unreachable before becomes reachable.
pub proof fn lemma_reachable_monotone(
    g: Map<usize, Seq<usize>>,
    roots1: Set<usize>,
    roots2: Set<usize>,
    id: usize,
)
    requires
        roots1.subset_of(roots2),
        reachable(g, roots1, id),
    ensures
        reachable(g, roots2, id),
{
    let p = choose|p: Seq<usize>| is_path(g, roots1, p) && p.last() == id;
    assert(roots2.contains(p[0]));
    assert(is_path(g, roots2, p));
}

/// Law: removing a root never retains more.  Whatever is reachable
/// without the removed root was already reachable with it, so the next
/// collection after `remove_root` collects exactly the part of the heap
/// whose reachability depended on that root.
pub proof fn lemma_remove_root_monotone(
    g: Map<usize, Seq<usize>>,
    roots: Set<usize>,
    r: usize,
    id: usize,
)
    requires
        reachable(g, roots.remove(r), id),
    ensures
        reachable(g, roots, id),
{
    lemma_reachable_monotone(g, roots.remove(r), roots, id);
}

/// Law: two objects that reference each other are both retained as soon
/// as at least one of them is a root.
pub proof fn lemma_mutual_cycle_rooted(
    g: Map<usize, Seq<usize>>,
    roots: Set<usize>,
    a: usize,
    b: usize,
)
    requires
        g.dom().contains(a),
        g.dom().contains(b),
        g[a].contains(b),
        g[b].contains(a),
        roots.contains(a) || roots.contains(b),
    ensures
        reachable(g, roots, a),
        reachable(g, roots, b),
{
    if roots.contains(a) {
        lemma_root_reachable(g, roots, a);
        lemma_reachable_step(g, roots, a, b);
    } else {
        lemma_root_reachable(g, roots, b);
        lemma_reachable_step(g, roots, b, a);
    }
}

/// Law: when no identifier in the table is a root, nothing is reachable;
/// a heap holding only an unrooted cycle is emptied by collection.
pub proof fn lemma_no_rooted_entry_nothing_reachable(g: Map<usize, Seq<usize>>, roots: Set<usize>)
    requires
        forall|x: usize| g.dom().contains(x) ==> !roots.contains(x),
    ensures
        forall|id: usize| !reachable(g, roots, id),
{
    assert forall|id: usize| !reachable(g, roots, id) by {
        if reachable(g, roots, id) {
            let p = choose|p: Seq<usize>| is_path(g, roots, p) && p.last() == id;
            assert(g.dom().contains(p[0]));
        }
    }
}

} // verus!
