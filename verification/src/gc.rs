//! The collector: object table, root set, and the mark-and-sweep cycle.

use crate::reach::lemma_closed_set_covers_reachable;
use crate::reach::lemma_reachable_in_dom;
use crate::reach::lemma_reachable_step;
use crate::reach::lemma_root_reachable;
use crate::reach::reach_set;
use crate::reach::reachable;
use vstd::prelude::*;

verus! {

/// The trace capability: a storable object reports its outgoing edges,
/// as the identifiers of the objects it references, so the collector can
/// walk the object graph without knowing the object's layout.
pub trait GcObject {
    /// The object's outgoing edges, as the collector's contracts see them.
    spec fn edges(&self) -> Seq<usize>;

    /// Report the outgoing edges for marking.
    fn trace(&self) -> (r: Vec<usize>)
        ensures
            r@ == self.edges(),
    ;
}

/// A handle to a table entry: the entry's identifier.  Holding or cloning
/// a handle has no effect on liveness; the collector retains an object
/// only while it is reachable from the root set.
#[derive(Clone, Copy, PartialEq, Eq, Structural, Debug)]
pub struct GcRef {
    pub id: usize,
}

impl GcRef {
    /// The identifier of the table entry this handle refers to.
    pub fn id(&self) -> (r: usize)
        ensures
            r == self.id,
    {
        self.id
    }
}

/// One object table entry: the identifier and the stored value.  The
/// marked flags live in a parallel vector so that marking never touches
/// the entries themselves.
struct GcEntry<T> {
    id: usize,
    value: T,
}

/// True of a report sequence that is strictly increasing; such a
/// sequence lists each identifier at most once.
pub open spec fn strictly_increasing(s: Seq<usize>) -> bool {
    forall|a: int, b: int| 0 <= a < b < s.len() ==> s[a] < s[b]
}

/// How many entries are still unmarked; the mark walk's termination
/// measure.
spec fn num_unmarked(s: Seq<bool>) -> nat
    decreases s.len(),
{
    if s.len() == 0 {
        0
    } else {
        num_unmarked(s.drop_last()) + (if s.last() {
            0nat
        } else {
            1nat
        })
    }
}

proof fn lemma_num_unmarked_update(s: Seq<bool>, j: int)
    requires
        0 <= j < s.len(),
        !s[j],
    ensures
        num_unmarked(s.update(j, true)) < num_unmarked(s),
    decreases s.len(),
{
    let t = s.update(j, true);
    if j == s.len() - 1 {
        assert(t.drop_last() =~= s.drop_last());
        assert(t.last());
        assert(!s.last());
    } else {
        assert(t.drop_last() =~= s.drop_last().update(j, true));
        assert(t.last() == s.last());
        lemma_num_unmarked_update(s.drop_last(), j);
    }
}

/// The entries the sweep keeps: the marked ones, in table order.
spec fn live_entries<T>(objs: Seq<GcEntry<T>>, marks: Seq<bool>) -> Seq<GcEntry<T>>
    decreases objs.len(),
{
    if objs.len() == 0 {
        Seq::empty()
    } else if marks[0] {
        seq![objs[0]] + live_entries(objs.drop_first(), marks.drop_first())
    } else {
        live_entries(objs.drop_first(), marks.drop_first())
    }
}

/// The identifiers the sweep evicts: those of unmarked entries, in
/// table order.
spec fn dead_ids<T>(objs: Seq<GcEntry<T>>, marks: Seq<bool>) -> Seq<usize>
    decreases objs.len(),
{
    if objs.len() == 0 {
        Seq::empty()
    } else if marks[0] {
        dead_ids(objs.drop_first(), marks.drop_first())
    } else {
        seq![objs[0].id] + dead_ids(objs.drop_first(), marks.drop_first())
    }
}

/// The sweep's split is a partition: kept and evicted entries come from
/// the table, cover it, and account for its whole length.
proof fn lemma_live_dead_props<T>(objs: Seq<GcEntry<T>>, marks: Seq<bool>)
    requires
        objs.len() == marks.len(),
    ensures
        live_entries(objs, marks).len() + dead_ids(objs, marks).len() == objs.len(),
        forall|i: int|
            0 <= i < live_entries(objs, marks).len() ==> exists|j: int|
                0 <= j < objs.len() && objs[j] == #[trigger] live_entries(objs, marks)[i]
                    && marks[j],
        forall|j: int|
            #![trigger marks[j]]
            0 <= j < objs.len() && marks[j] ==> live_entries(objs, marks).contains(objs[j]),
        forall|i: int|
            0 <= i < dead_ids(objs, marks).len() ==> exists|j: int|
                0 <= j < objs.len() && objs[j].id == #[trigger] dead_ids(objs, marks)[i]
                    && !marks[j],
        forall|j: int|
            #![trigger marks[j]]
            0 <= j < objs.len() && !marks[j] ==> dead_ids(objs, marks).contains(objs[j].id),
    decreases objs.len(),
{
    if objs.len() > 0 {
        let ro = objs.drop_first();
        let rm = marks.drop_first();
        lemma_live_dead_props(ro, rm);
        assert(forall|j: int| 0 <= j < ro.len() ==> #[trigger] ro[j] == objs[j + 1]);
        assert(forall|j: int| 0 <= j < rm.len() ==> #[trigger] rm[j] == marks[j + 1]);
        let lv = live_entries(objs, marks);
        let dd = dead_ids(objs, marks);
        let lvr = live_entries(ro, rm);
        let ddr = dead_ids(ro, rm);
        if marks[0] {
            assert(lv == seq![objs[0]] + lvr);
            assert(dd == ddr);
        } else {
            assert(lv == lvr);
            assert(dd == seq![objs[0].id] + ddr);
        }
        assert forall|i: int| 0 <= i < lv.len() implies exists|j: int|
            0 <= j < objs.len() && objs[j] == #[trigger] lv[i] && marks[j] by {
            if marks[0] {
                if i == 0 {
                    assert(0 <= 0 < objs.len() && objs[0] == lv[i] && marks[0]);
                } else {
                    assert(lv[i] == lvr[i - 1]);
                    let j = choose|j: int| 0 <= j < ro.len() && ro[j] == lvr[i - 1] && rm[j];
                    assert(0 <= j + 1 < objs.len() && objs[j + 1] == lv[i] && marks[j + 1]);
                }
            } else {
                assert(lv[i] == lvr[i]);
                let j = choose|j: int| 0 <= j < ro.len() && ro[j] == lvr[i] && rm[j];
                assert(0 <= j + 1 < objs.len() && objs[j + 1] == lv[i] && marks[j + 1]);
            }
        }
        assert forall|j: int| 0 <= j < objs.len() && #[trigger] marks[j] implies lv.contains(
            objs[j],
        ) by {
            if j == 0 {
                assert(lv[0] == objs[0]);
            } else {
                assert(rm[j - 1] && ro[j - 1] == objs[j]);
                assert(lvr.contains(ro[j - 1]));
                let i = choose|i: int| 0 <= i < lvr.len() && lvr[i] == ro[j - 1];
                if marks[0] {
                    assert(lv[i + 1] == objs[j]);
                } else {
                    assert(lv[i] == objs[j]);
                }
            }
        }
        assert forall|i: int| 0 <= i < dd.len() implies exists|j: int|
            0 <= j < objs.len() && objs[j].id == #[trigger] dd[i] && !marks[j] by {
            if !marks[0] {
                if i == 0 {
                    assert(objs[0].id == dd[0] && !marks[0]);
                } else {
                    assert(dd[i] == ddr[i - 1]);
                    let j = choose|j: int| 0 <= j < ro.len() && ro[j].id == ddr[i - 1] && !rm[j];
                    assert(objs[j + 1].id == dd[i] && !marks[j + 1]);
                }
            } else {
                assert(dd[i] == ddr[i]);
                let j = choose|j: int| 0 <= j < ro.len() && ro[j].id == ddr[i] && !rm[j];
                assert(objs[j + 1].id == dd[i] && !marks[j + 1]);
            }
        }
        assert forall|j: int| 0 <= j < objs.len() && !(#[trigger] marks[j]) implies dd.contains(
            objs[j].id,
        ) by {
            if j == 0 {
                assert(dd[0] == objs[0].id);
            } else {
                assert(!rm[j - 1] && ro[j - 1] == objs[j]);
                assert(ddr.contains(ro[j - 1].id));
                let i = choose|i: int| 0 <= i < ddr.len() && ddr[i] == ro[j - 1].id;
                if marks[0] {
                    assert(dd[i] == objs[j].id);
                } else {
                    assert(dd[i + 1] == objs[j].id);
                }
            }
        }
    }
}

/// The sweep keeps table order: over a table with strictly increasing
/// identifiers, both the kept entries and the evicted identifiers are
/// strictly increasing.
proof fn lemma_live_dead_sorted<T>(objs: Seq<GcEntry<T>>, marks: Seq<bool>)
    requires
        objs.len() == marks.len(),
        forall|i: int, j: int| 0 <= i < j < objs.len() ==> objs[i].id < objs[j].id,
    ensures
        forall|a: int, b: int|
            0 <= a < b < live_entries(objs, marks).len()
                ==> live_entries(objs, marks)[a].id < live_entries(objs, marks)[b].id,
        strictly_increasing(dead_ids(objs, marks)),
    decreases objs.len(),
{
    if objs.len() > 0 {
        let ro = objs.drop_first();
        let rm = marks.drop_first();
        assert(forall|j: int| 0 <= j < ro.len() ==> #[trigger] ro[j] == objs[j + 1]);
        lemma_live_dead_sorted(ro, rm);
        lemma_live_dead_props(ro, rm);
        let lv = live_entries(objs, marks);
        let dd = dead_ids(objs, marks);
        let lvr = live_entries(ro, rm);
        let ddr = dead_ids(ro, rm);
        assert forall|a: int, b: int| 0 <= a < b < lv.len() implies lv[a].id < lv[b].id by {
            if marks[0] {
                if a == 0 {
                    assert(lv[b] == lvr[b - 1]);
                    let j = choose|j: int| 0 <= j < ro.len() && ro[j] == lvr[b - 1] && rm[j];
                    assert(lv[b].id == objs[j + 1].id);
                    assert(objs[0].id < objs[j + 1].id);
                } else {
                    assert(lv[a] == lvr[a - 1] && lv[b] == lvr[b - 1]);
                }
            } else {
                assert(lv[a] == lvr[a] && lv[b] == lvr[b]);
            }
        }
        assert forall|a: int, b: int| 0 <= a < b < dd.len() implies dd[a] < dd[b] by {
            if !marks[0] {
                if a == 0 {
                    assert(dd[b] == ddr[b - 1]);
                    let j = choose|j: int| 0 <= j < ro.len() && ro[j].id == ddr[b - 1] && !rm[j];
                    assert(dd[b] == objs[j + 1].id);
                    assert(objs[0].id < objs[j + 1].id);
                } else {
                    assert(dd[a] == ddr[a - 1] && dd[b] == ddr[b - 1]);
                }
            } else {
                assert(dd[a] == ddr[a] && dd[b] == ddr[b]);
            }
        }
    }
}

/// What one collection cycle decided, per object and in total: the
/// identifiers retained (in increasing order, as the table keeps them)
/// and the identifiers evicted.
pub struct CollectReport {
    pub retained: Vec<usize>,
    pub collected: Vec<usize>,
}

/// The collector: a table of objects keyed by strictly increasing
/// identifiers, a parallel vector of marked flags, a root set, and the
/// next identifier to hand out.
pub struct TracingGC<T: GcObject> {
    objects: Vec<GcEntry<T>>,
    marks: Vec<bool>,
    roots: Vec<usize>,
    next_id: usize,
}

impl<T: GcObject> TracingGC<T> {
    /// How many entries the table holds.
    pub closed spec fn table_len(self) -> nat {
        self.objects@.len()
    }

    /// Whether `id` currently resolves in the object table.
    pub closed spec fn contains_id(self, id: usize) -> bool {
        exists|i: int| 0 <= i < self.objects@.len() && self.objects@[i].id == id
    }

    /// The table index holding `id` (meaningful only when `contains_id`).
    pub closed spec fn index_of(self, id: usize) -> int {
        choose|i: int| 0 <= i < self.objects@.len() && self.objects@[i].id == id
    }

    /// The value stored under `id` (meaningful only when `contains_id`).
    pub closed spec fn value_at(self, id: usize) -> T {
        self.objects@[self.index_of(id)].value
    }

    /// The marked flag of the entry holding `id`.
    pub closed spec fn marked_at(self, id: usize) -> bool {
        self.marks@[self.index_of(id)]
    }

    /// The table's identifiers, in table order.
    pub closed spec fn ids(self) -> Seq<usize> {
        self.objects@.map_values(|e: GcEntry<T>| e.id)
    }

    /// The object graph: each table-resident identifier mapped to the
    /// stored object's trace edges.
    pub closed spec fn graph(self) -> Map<usize, Seq<usize>> {
        Map::new(
            |id: usize| self.contains_id(id),
            |id: usize| self.value_at(id).edges(),
        )
    }

    /// The root set.
    pub closed spec fn root_set(self) -> Set<usize> {
        Set::new(|id: usize| self.roots@.contains(id))
    }

    /// The root identifiers as stored, without duplicates.
    pub closed spec fn roots_seq(self) -> Seq<usize> {
        self.roots@
    }

    /// The next identifier allocation will hand out; every identifier in
    /// the table is below it, so identifiers are never reused.
    pub closed spec fn id_bound(self) -> usize {
        self.next_id
    }

    /// Well-formedness: the marked flags parallel the table, identifiers
    /// are strictly increasing (hence unique) and below `id_bound`, and
    /// the stored roots hold no duplicates.
    pub closed spec fn wf(self) -> bool {
        &&& self.marks@.len() == self.objects@.len()
        &&& forall|i: int, j: int|
            0 <= i < j < self.objects@.len() ==> self.objects@[i].id < self.objects@[j].id
        &&& forall|i: int| 0 <= i < self.objects@.len() ==> self.objects@[i].id < self.next_id
        &&& forall|i: int, j: int|
            0 <= i < j < self.roots@.len() ==> self.roots@[i] != self.roots@[j]
    }

    /// In a well-formed table the witness index of an identifier is the
    /// one index that holds it.
    proof fn lemma_index_of(self, i: int)
        requires
            self.wf(),
            0 <= i < self.objects@.len(),
        ensures
            self.contains_id(self.objects@[i].id),
            self.index_of(self.objects@[i].id) == i,
    {
        let id = self.objects@[i].id;
        assert(self.contains_id(id));
        let j = self.index_of(id);
        if i < j {
            assert(self.objects@[i].id < self.objects@[j].id);
        } else if j < i {
            assert(self.objects@[j].id < self.objects@[i].id);
        }
    }

    /// The graph's domain and edges, read back through the table.
    proof fn lemma_graph_at(self, i: int)
        requires
            self.wf(),
            0 <= i < self.objects@.len(),
        ensures
            self.graph().dom().contains(self.objects@[i].id),
            self.graph()[self.objects@[i].id] == self.objects@[i].value.edges(),
    {
        self.lemma_index_of(i);
    }

    /// Two collectors with the same table present the same object graph,
    /// whatever their flags and root sets.
    proof fn lemma_objects_eq_views(a: Self, b: Self)
        requires
            a.wf(),
            a.objects == b.objects,
        ensures
            forall|x: usize| a.contains_id(x) <==> b.contains_id(x),
            forall|x: usize|
                a.contains_id(x)
                    ==> a.index_of(x) == b.index_of(x) && a.value_at(x) == b.value_at(x),
            a.graph() == b.graph(),
    {
        assert forall|x: usize| a.contains_id(x) implies b.contains_id(x) by {
            let i = a.index_of(x);
            assert(b.objects@[i].id == x);
        }
        assert forall|x: usize| b.contains_id(x) implies a.contains_id(x) by {
            let i = b.index_of(x);
            assert(a.objects@[i].id == x);
        }
        assert forall|x: usize| a.contains_id(x) implies
            a.index_of(x) == b.index_of(x) && a.value_at(x) == b.value_at(x) by {
            let i = a.index_of(x);
            let j = b.index_of(x);
            assert(a.objects@[i].id == x);
            assert(b.objects@[j].id == x);
            assert(a.objects@[j].id == x);
            if i < j {
                assert(a.objects@[i].id < a.objects@[j].id);
            } else if j < i {
                assert(a.objects@[j].id < a.objects@[i].id);
            }
        }
        assert(a.graph() =~= b.graph());
    }

    /// With the flags equal as well, the marked view agrees too.
    proof fn lemma_table_eq_views(a: Self, b: Self)
        requires
            a.wf(),
            a.objects == b.objects,
            a.marks == b.marks,
        ensures
            forall|x: usize| a.contains_id(x) <==> b.contains_id(x),
            forall|x: usize|
                a.contains_id(x)
                    ==> a.value_at(x) == b.value_at(x) && a.marked_at(x) == b.marked_at(x),
            a.graph() == b.graph(),
    {
        Self::lemma_objects_eq_views(a, b);
    }

    /// A fresh collector: empty table, empty root set, identifiers from 0.
    pub fn new() -> (gc: TracingGC<T>)
        ensures
            gc.wf(),
            gc.table_len() == 0,
            gc.id_bound() == 0,
            forall|id: usize| !gc.contains_id(id),
            gc.graph() == Map::<usize, Seq<usize>>::empty(),
            gc.root_set() == Set::<usize>::empty(),
            gc.roots_seq() == Seq::<usize>::empty(),
    {
        let gc = TracingGC {
            objects: Vec::new(),
            marks: Vec::new(),
            roots: Vec::new(),
            next_id: 0,
        };
        proof {
            assert(gc.graph() =~= Map::<usize, Seq<usize>>::empty());
            assert(gc.root_set() =~= Set::<usize>::empty());
        }
        gc
    }

    /// Insert `value` into the table under the next unused identifier,
    /// unmarked, and return a handle to it.  The new identifier is
    /// strictly above every identifier handed out before, so identifiers
    /// are distinct and strictly increasing across allocations.
    pub fn allocate(&mut self, value: T) -> (h: GcRef)
        requires
            old(self).wf(),
            old(self).id_bound() < usize::MAX,
        ensures
            final(self).wf(),
            h.id == old(self).id_bound(),
            !old(self).contains_id(h.id),
            final(self).id_bound() == old(self).id_bound() + 1,
            final(self).table_len() == old(self).table_len() + 1,
            forall|id: usize|
                final(self).contains_id(id) <==> old(self).contains_id(id) || id == h.id,
            final(self).value_at(h.id) == value,
            !final(self).marked_at(h.id),
            forall|id: usize|
                old(self).contains_id(id)
                    ==> final(self).value_at(id) == old(self).value_at(id)
                        && final(self).marked_at(id) == old(self).marked_at(id),
            final(self).graph() == old(self).graph().insert(h.id, value.edges()),
            final(self).root_set() == old(self).root_set(),
            final(self).roots_seq() == old(self).roots_seq(),
    {
        let id = self.next_id;
        self.next_id = self.next_id + 1;
        self.objects.push(GcEntry { id, value });
        self.marks.push(false);
        proof {
            let pre = *old(self);
            let post = *self;
            let n = pre.objects@.len() as int;
            assert(post.objects@ == pre.objects@.push(GcEntry { id, value }));
            assert(forall|i: int| 0 <= i < n ==> post.objects@[i] == pre.objects@[i]);
            assert(post.objects@[n].id == id);
            assert forall|i: int| 0 <= i < post.objects@.len() implies
                post.objects@[i].id < post.next_id by {}
            assert(post.wf());
            post.lemma_index_of(n);
            assert(post.value_at(id) == value);
            assert(!post.marked_at(id));
            assert forall|x: usize| pre.contains_id(x) implies
                post.contains_id(x) && post.value_at(x) == pre.value_at(x)
                    && post.marked_at(x) == pre.marked_at(x) by {
                let i = pre.index_of(x);
                pre.lemma_index_of(i);
                assert(post.objects@[i].id == x);
                post.lemma_index_of(i);
            }
            assert forall|x: usize| post.contains_id(x) && x != id implies
                pre.contains_id(x) by {
                let i = post.index_of(x);
                assert(0 <= i < post.objects@.len() && post.objects@[i].id == x);
                assert(i != n);
                assert(pre.objects@[i].id == x);
            }
            assert(post.graph() =~= pre.graph().insert(id, value.edges()));
            assert(post.root_set() =~= pre.root_set());
        }
        GcRef { id }
    }

    /// Law: every identifier in the table is distinct, in strictly
    /// increasing allocation order; a run of allocations therefore
    /// yields distinct, strictly increasing identifiers.
    pub proof fn lemma_ids_strictly_increasing(self)
        requires
            self.wf(),
        ensures
            strictly_increasing(self.ids()),
    {
        assert forall|a: int, b: int|
            0 <= a < b < self.ids().len() implies self.ids()[a] < self.ids()[b] by {
            assert(self.ids()[a] == self.objects@[a].id);
            assert(self.ids()[b] == self.objects@[b].id);
        }
    }

    /// Table lookup: shared access to the value stored under `id`, or
    /// nothing when the id does not resolve — never an error.
    pub fn lookup(&self, id: usize) -> (r: Option<&T>)
        requires
            self.wf(),
        ensures
            match r {
                Some(v) => self.contains_id(id) && *v == self.value_at(id),
                None => !self.contains_id(id),
            },
    {
        match self.find_index(id) {
            Some(j) => Some(&self.objects[j].value),
            None => None,
        }
    }

    /// Replace the value stored under `id`, keeping its identifier and
    /// marked flag; this is how application logic adds or removes edges
    /// between collections.  An id that does not resolve is a no-op.
    pub fn update(&mut self, id: usize, value: T) -> (updated: bool)
        requires
            old(self).wf(),
        ensures
            final(self).wf(),
            updated <==> old(self).contains_id(id),
            final(self).id_bound() == old(self).id_bound(),
            final(self).table_len() == old(self).table_len(),
            final(self).root_set() == old(self).root_set(),
            final(self).roots_seq() == old(self).roots_seq(),
            forall|x: usize| final(self).contains_id(x) <==> old(self).contains_id(x),
            updated ==> final(self).value_at(id) == value,
            forall|x: usize|
                old(self).contains_id(x) && x != id ==> final(self).value_at(x) == old(
                    self,
                ).value_at(x),
            forall|x: usize|
                old(self).contains_id(x) ==> final(self).marked_at(x) == old(self).marked_at(x),
            updated ==> final(self).graph() == old(self).graph().insert(id, value.edges()),
            !updated ==> final(self).graph() == old(self).graph(),
    {
        match self.find_index(id) {
            Some(j) => {
                self.objects[j] = GcEntry { id, value };
                proof {
                    let pre = *old(self);
                    let post = *self;
                    assert(post.objects@ == pre.objects@.update(j as int, GcEntry { id, value }));
                    assert(forall|i: int|
                        0 <= i < post.objects@.len() ==> post.objects@[i].id == pre.objects@[i].id);
                    assert(post.wf());
                    assert forall|x: usize| pre.contains_id(x) implies post.contains_id(x)
                        && post.index_of(x) == pre.index_of(x) by {
                        let i = pre.index_of(x);
                        assert(post.objects@[i].id == x);
                        pre.lemma_index_of(i);
                        post.lemma_index_of(i);
                    }
                    assert forall|x: usize| post.contains_id(x) implies pre.contains_id(x) by {
                        let i = post.index_of(x);
                        assert(pre.objects@[i].id == x);
                    }
                    assert(post.index_of(id) == j as int);
                    assert(post.value_at(id) == value);
                    assert(post.graph() =~= pre.graph().insert(id, value.edges()));
                    assert(post.root_set() =~= pre.root_set());
                }
                true
            },
            None => {
                proof {
                    let pre = *old(self);
                    assert((*self).graph() =~= pre.graph());
                }
                false
            },
        }
    }

    /// Add `id` to the root set; adding an id already present, or one
    /// that resolves to no table entry, is a no-op rather than an error.
    pub fn add_root(&mut self, id: usize)
        requires
            old(self).wf(),
        ensures
            final(self).wf(),
            final(self).root_set() == old(self).root_set().insert(id),
            final(self).graph() == old(self).graph(),
            final(self).id_bound() == old(self).id_bound(),
            final(self).table_len() == old(self).table_len(),
            forall|x: usize| final(self).contains_id(x) <==> old(self).contains_id(x),
            forall|x: usize|
                old(self).contains_id(x)
                    ==> final(self).value_at(x) == old(self).value_at(x)
                        && final(self).marked_at(x) == old(self).marked_at(x),
    {
        let present = self.has_root(id);
        if !present {
            self.roots.push(id);
        }
        proof {
            let pre = *old(self);
            let post = *self;
            if !present {
                assert(post.roots@ == pre.roots@.push(id));
                assert forall|i: int, j: int|
                    0 <= i < j < post.roots@.len() implies post.roots@[i] != post.roots@[j] by {
                    if j == post.roots@.len() - 1 {
                        assert(post.roots@[i] == pre.roots@[i]);
                        assert(pre.roots@.contains(pre.roots@[i]));
                    }
                }
                assert forall|x: usize|
                    post.roots@.contains(x) <==> pre.roots@.contains(x) || x == id by {
                    if post.roots@.contains(x) {
                        let i = choose|i: int| 0 <= i < post.roots@.len() && post.roots@[i] == x;
                        if i < pre.roots@.len() {
                            assert(pre.roots@[i] == x);
                        }
                    }
                    if pre.roots@.contains(x) {
                        let i = choose|i: int| 0 <= i < pre.roots@.len() && pre.roots@[i] == x;
                        assert(post.roots@[i] == x);
                    }
                    if x == id {
                        assert(post.roots@[post.roots@.len() - 1] == id);
                    }
                }
            } else {
                assert(pre.roots@.contains(id));
            }
            assert(post.root_set() =~= pre.root_set().insert(id));
            Self::lemma_table_eq_views(pre, post);
        }
    }

    /// Remove `id` from the root set; removing an id that is not a root
    /// is a no-op rather than an error.
    pub fn remove_root(&mut self, id: usize)
        requires
            old(self).wf(),
        ensures
            final(self).wf(),
            final(self).root_set() == old(self).root_set().remove(id),
            final(self).graph() == old(self).graph(),
            final(self).id_bound() == old(self).id_bound(),
            final(self).table_len() == old(self).table_len(),
            forall|x: usize| final(self).contains_id(x) <==> old(self).contains_id(x),
            forall|x: usize|
                old(self).contains_id(x)
                    ==> final(self).value_at(x) == old(self).value_at(x)
                        && final(self).marked_at(x) == old(self).marked_at(x),
    {
        let ghost pre = *old(self);
        let mut i: usize = 0;
        let mut found: bool = false;
        while i < self.roots.len() && !found
            invariant
                *self == pre,
                0 <= i <= pre.roots@.len(),
                found ==> i < pre.roots@.len() && pre.roots@[i as int] == id,
                !found ==> forall|j: int| 0 <= j < i ==> pre.roots@[j] != id,
            decreases pre.roots@.len() - i + (if found { 0int } else { 1int }),
        {
            if self.roots[i] == id {
                found = true;
            } else {
                i = i + 1;
            }
        }
        if found {
            self.roots.remove(i);
        }
        proof {
            let post = *self;
            if found {
                assert(post.roots@ == pre.roots@.remove(i as int));
                assert forall|x: usize|
                    post.roots@.contains(x) <==> (pre.roots@.contains(x) && x != id) by {
                    if post.roots@.contains(x) {
                        let j = choose|j: int| 0 <= j < post.roots@.len() && post.roots@[j] == x;
                        if j < i {
                            assert(pre.roots@[j] == x);
                            if x == id {
                                assert(false);
                            }
                        } else {
                            assert(pre.roots@[j + 1] == x);
                            if x == id {
                                assert(pre.roots@[i as int] == id);
                                assert(false);
                            }
                        }
                        assert(pre.roots@.contains(x));
                    }
                    if pre.roots@.contains(x) && x != id {
                        let j = choose|j: int| 0 <= j < pre.roots@.len() && pre.roots@[j] == x;
                        if j < i {
                            assert(post.roots@[j] == x);
                        } else if j == i {
                            assert(false);
                        } else {
                            assert(post.roots@[j - 1] == x);
                        }
                    }
                }
                assert forall|a: int, b: int|
                    0 <= a < b < post.roots@.len() implies post.roots@[a] != post.roots@[b] by {
                    let a0: int = if a < i { a } else { a + 1 };
                    let b0: int = if b < i { b } else { b + 1 };
                    assert(post.roots@[a] == pre.roots@[a0]);
                    assert(post.roots@[b] == pre.roots@[b0]);
                }
            } else {
                assert(forall|j: int| 0 <= j < pre.roots@.len() ==> pre.roots@[j] != id);
                assert(!pre.roots@.contains(id));
            }
            assert(post.root_set() =~= pre.root_set().remove(id));
            Self::lemma_table_eq_views(pre, post);
        }
    }

    /// Table lookup: the index holding `id`, or nothing when `id` is
    /// absent — an absent identifier is skipped, never an error.
    fn find_index(&self, id: usize) -> (r: Option<usize>)
        requires
            self.wf(),
        ensures
            match r {
                Some(j) => {
                    &&& (j as int) < self.objects@.len()
                    &&& self.objects@[j as int].id == id
                    &&& self.contains_id(id)
                    &&& self.index_of(id) == j as int
                },
                None => !self.contains_id(id),
            },
    {
        let mut i: usize = 0;
        while i < self.objects.len()
            invariant
                self.wf(),
                i <= self.objects@.len(),
                forall|j: int| 0 <= j < i ==> self.objects@[j].id != id,
            decreases self.objects@.len() - i,
        {
            if self.objects[i].id == id {
                proof {
                    self.lemma_index_of(i as int);
                }
                return Some(i);
            }
            i = i + 1;
        }
        None
    }

    /// Start of a cycle: reset every entry's marked flag to false.
    #[verifier::loop_isolation(false)]
    fn reset_marks(&mut self)
        requires
            old(self).wf(),
        ensures
            final(self).wf(),
            final(self).objects == old(self).objects,
            final(self).roots == old(self).roots,
            final(self).next_id == old(self).next_id,
            final(self).marks@.len() == old(self).marks@.len(),
            forall|i: int| 0 <= i < final(self).marks@.len() ==> !final(self).marks@[i],
    {
        let n = self.objects.len();
        let mut fresh: Vec<bool> = Vec::new();
        while fresh.len() < n
            invariant
                fresh@.len() <= n,
                forall|i: int| 0 <= i < fresh@.len() ==> !fresh@[i],
            decreases n - fresh@.len(),
        {
            fresh.push(false);
        }
        self.marks = fresh;
    }

    /// The mark walk: seed a worklist with every root, then repeatedly
    /// take an identifier; one that does not resolve in the table, or is
    /// already marked, is dropped (the already-marked rule is the sole
    /// termination guarantee on cyclic graphs and ensures each object is
    /// traced at most once); otherwise its entry is marked and its trace
    /// edges join the worklist.  Afterwards an entry is marked if and
    /// only if its identifier is reachable from the root set.
    #[verifier::loop_isolation(false)]
    #[verifier::rlimit(60)]
    fn mark_phase(&mut self)
        requires
            old(self).wf(),
            forall|i: int| 0 <= i < old(self).marks@.len() ==> !old(self).marks@[i],
        ensures
            final(self).wf(),
            final(self).objects == old(self).objects,
            final(self).roots == old(self).roots,
            final(self).next_id == old(self).next_id,
            final(self).marks@.len() == old(self).marks@.len(),
            forall|i: int|
                0 <= i < final(self).marks@.len()
                    ==> (final(self).marks@[i] <==> reachable(
                        old(self).graph(),
                        old(self).root_set(),
                        final(self).objects@[i].id,
                    )),
    {
        let ghost pre = *old(self);
        let ghost g0 = pre.graph();
        let ghost r0 = pre.root_set();

        let mut stack: Vec<usize> = Vec::new();
        let mut i: usize = 0;
        while i < self.roots.len()
            invariant
                i <= self.roots@.len(),
                stack@ == pre.roots@.take(i as int),
            decreases self.roots@.len() - i,
        {
            let r = self.roots[i];
            stack.push(r);
            proof {
                assert(stack@ =~= pre.roots@.take(i as int + 1));
            }
            i = i + 1;
        }
        proof {
            assert(stack@ =~= pre.roots@);
            assert forall|k: int|
                0 <= k < stack@.len() && g0.dom().contains(#[trigger] stack@[k]) implies reachable(
                g0,
                r0,
                stack@[k],
            ) by {
                assert(pre.roots@.contains(stack@[k]));
                assert(r0.contains(stack@[k]));
                lemma_root_reachable(g0, r0, stack@[k]);
            }
        }
        while stack.len() > 0
            invariant
                self.wf(),
                self.objects == pre.objects,
                self.roots == pre.roots,
                self.next_id == pre.next_id,
                self.marks@.len() == pre.marks@.len(),
                forall|a: int|
                    0 <= a < self.marks@.len() && self.marks@[a] ==> reachable(
                        g0,
                        r0,
                        self.objects@[a].id,
                    ),
                forall|k: int|
                    0 <= k < stack@.len() && g0.dom().contains(#[trigger] stack@[k]) ==> reachable(
                        g0,
                        r0,
                        stack@[k],
                    ),
                forall|r: usize|
                    r0.contains(r) && g0.dom().contains(r) ==> self.marked_at(r)
                        || stack@.contains(r),
                forall|a: int, e: usize|
                    #![trigger self.marks@[a], g0[self.objects@[a].id].contains(e)]
                    0 <= a < self.marks@.len() && self.marks@[a] && g0[self.objects@[a].id].contains(
                        e,
                    ) && g0.dom().contains(e) ==> self.marked_at(e) || stack@.contains(e),
            decreases num_unmarked(self.marks@), stack@.len(),
        {
            let ghost prev = *self;
            let ghost prev_stack = stack@;
            let x = stack.pop().unwrap();
            let ghost stack0 = stack@;
            proof {
                assert(prev_stack[prev_stack.len() - 1] == x);
                assert(prev_stack.contains(x));
                assert(forall|k: int| 0 <= k < stack0.len() ==> stack0[k] == prev_stack[k]);
            }
            match self.find_index(x) {
                Some(j) => {
                    if !self.marks[j] {
                        self.marks[j] = true;
                        proof {
                            Self::lemma_objects_eq_views(pre, prev);
                            pre.lemma_graph_at(j as int);
                        }
                        let edges = self.objects[j].value.trace();
                        proof {
                            assert(edges@ == g0[x]);
                        }
                        let mut k: usize = 0;
                        while k < edges.len()
                            invariant
                                k <= edges@.len(),
                                stack@ == stack0 + edges@.take(k as int),
                            decreases edges@.len() - k,
                        {
                            let e = edges[k];
                            stack.push(e);
                            proof {
                                assert(stack@ =~= stack0 + edges@.take(k as int + 1));
                            }
                            k = k + 1;
                        }
                        proof {
                            assert(stack@ =~= stack0 + edges@);
                            Self::lemma_mark_update(
                                pre,
                                prev,
                                *self,
                                g0,
                                r0,
                                prev_stack,
                                stack@,
                                x,
                                j as int,
                            );
                        }
                    } else {
                        proof {
                            Self::lemma_mark_skip(prev, g0, r0, prev_stack, stack0, x);
                        }
                    }
                },
                None => {
                    proof {
                        Self::lemma_mark_skip(prev, g0, r0, prev_stack, stack0, x);
                    }
                },
            }
        }
        proof {
            let cur = *self;
            Self::lemma_objects_eq_views(pre, cur);
            assert forall|r: usize|
                r0.contains(r) && g0.dom().contains(r) implies cur.marked_at(r) by {
                assert(!stack@.contains(r));
            }
            assert forall|a: int, e: usize|
                #![trigger cur.marks@[a], g0[cur.objects@[a].id].contains(e)]
                0 <= a < cur.marks@.len() && cur.marks@[a] && g0[cur.objects@[a].id].contains(e)
                    && g0.dom().contains(e) implies cur.marked_at(e) by {
                assert(!stack@.contains(e));
            }
            Self::lemma_mark_complete(pre, cur, g0, r0);
        }
    }

    /// At the end of the walk the marked set contains every in-table
    /// root and is closed under in-table edges, so by the closed-set law
    /// it covers everything reachable; with the walk's soundness this
    /// makes marked and reachable coincide, entry by entry.
    proof fn lemma_mark_complete(pre: Self, cur: Self, g0: Map<usize, Seq<usize>>, r0: Set<usize>)
        requires
            pre.wf(),
            cur.wf(),
            pre.objects == cur.objects,
            g0 == pre.graph(),
            forall|a: int|
                0 <= a < cur.marks@.len() && cur.marks@[a] ==> reachable(
                    g0,
                    r0,
                    cur.objects@[a].id,
                ),
            forall|r: usize| r0.contains(r) && g0.dom().contains(r) ==> cur.marked_at(r),
            forall|a: int, e: usize|
                #![trigger cur.marks@[a], g0[cur.objects@[a].id].contains(e)]
                0 <= a < cur.marks@.len() && cur.marks@[a] && g0[cur.objects@[a].id].contains(e)
                    && g0.dom().contains(e) ==> cur.marked_at(e),
        ensures
            forall|a: int|
                0 <= a < cur.marks@.len() ==> (cur.marks@[a] <==> reachable(
                    g0,
                    r0,
                    cur.objects@[a].id,
                )),
    {
        Self::lemma_objects_eq_views(pre, cur);
        let m = Set::new(|id: usize| cur.contains_id(id) && cur.marked_at(id));
        assert forall|a: int|
            0 <= a < cur.marks@.len() implies (cur.marks@[a] <==> reachable(
            g0,
            r0,
            cur.objects@[a].id,
        )) by {
            cur.lemma_index_of(a);
            let id = cur.objects@[a].id;
            if reachable(g0, r0, id) {
                assert forall|r: usize|
                    r0.contains(r) && g0.dom().contains(r) implies m.contains(r) by {
                    assert(cur.marked_at(r));
                    assert(cur.contains_id(r));
                }
                assert forall|y: usize, e: usize|
                    #![trigger m.contains(y), g0[y].contains(e)]
                    m.contains(y) && g0.dom().contains(y) && g0[y].contains(e) && g0.dom().contains(
                        e,
                    ) implies m.contains(e) by {
                    let iy = cur.index_of(y);
                    cur.lemma_index_of(iy);
                    assert(cur.marks@[iy] && cur.objects@[iy].id == y);
                    assert(cur.marked_at(e));
                    assert(cur.contains_id(e));
                }
                lemma_closed_set_covers_reachable(g0, r0, m, id);
                assert(cur.marked_at(id));
                assert(cur.marks@[a]);
            }
        }
    }

    /// Marking one unmarked table entry and replacing it on the worklist
    /// by its trace edges preserves the walk's bookkeeping and strictly
    /// shrinks the count of unmarked entries.
    #[verifier::rlimit(100)]
    #[verifier::spinoff_prover]
    proof fn lemma_mark_update(
        pre: Self,
        prev: Self,
        cur: Self,
        g0: Map<usize, Seq<usize>>,
        r0: Set<usize>,
        prev_stack: Seq<usize>,
        new_stack: Seq<usize>,
        x: usize,
        j: int,
    )
        requires
            pre.wf(),
            prev.wf(),
            g0 == pre.graph(),
            prev.objects == pre.objects,
            forall|a: int|
                0 <= a < prev.marks@.len() && prev.marks@[a] ==> reachable(
                    g0,
                    r0,
                    prev.objects@[a].id,
                ),
            forall|k: int|
                0 <= k < prev_stack.len() && g0.dom().contains(#[trigger] prev_stack[k])
                    ==> reachable(g0, r0, prev_stack[k]),
            forall|r: usize|
                r0.contains(r) && g0.dom().contains(r) ==> prev.marked_at(r)
                    || prev_stack.contains(r),
            forall|a: int, e: usize|
                #![trigger prev.marks@[a], g0[prev.objects@[a].id].contains(e)]
                0 <= a < prev.marks@.len() && prev.marks@[a] && g0[prev.objects@[a].id].contains(e)
                    && g0.dom().contains(e) ==> prev.marked_at(e) || prev_stack.contains(e),
            prev_stack.len() > 0,
            prev_stack[prev_stack.len() - 1] == x,
            0 <= j < prev.objects@.len(),
            prev.objects@[j].id == x,
            !prev.marks@[j],
            cur.objects == prev.objects,
            cur.roots == prev.roots,
            cur.next_id == prev.next_id,
            cur.marks@ == prev.marks@.update(j, true),
            new_stack == prev_stack.take(prev_stack.len() - 1) + g0[x],
        ensures
            cur.wf(),
            num_unmarked(cur.marks@) < num_unmarked(prev.marks@),
            forall|a: int|
                0 <= a < cur.marks@.len() && cur.marks@[a] ==> reachable(
                    g0,
                    r0,
                    cur.objects@[a].id,
                ),
            forall|k: int|
                0 <= k < new_stack.len() && g0.dom().contains(#[trigger] new_stack[k])
                    ==> reachable(g0, r0, new_stack[k]),
            forall|r: usize|
                r0.contains(r) && g0.dom().contains(r) ==> cur.marked_at(r) || new_stack.contains(
                    r,
                ),
            forall|a: int, e: usize|
                #![trigger cur.marks@[a], g0[cur.objects@[a].id].contains(e)]
                0 <= a < cur.marks@.len() && cur.marks@[a] && g0[cur.objects@[a].id].contains(e)
                    && g0.dom().contains(e) ==> cur.marked_at(e) || new_stack.contains(e),
    {
        let stack0 = prev_stack.take(prev_stack.len() - 1);
        let edges = g0[x];
        lemma_num_unmarked_update(prev.marks@, j);
        Self::lemma_objects_eq_views(pre, prev);
        assert(prev.contains_id(x));
        assert(g0.dom().contains(x));
        assert(reachable(g0, r0, x));
        assert(forall|k: int| 0 <= k < stack0.len() ==> stack0[k] == prev_stack[k]);
        assert(forall|k: int| 0 <= k < new_stack.len() && k < stack0.len()
            ==> #[trigger] new_stack[k] == prev_stack[k]);
        assert(forall|k: int| stack0.len() <= k < new_stack.len()
            ==> #[trigger] new_stack[k] == edges[k - stack0.len()]);
        assert(cur.wf());
        Self::lemma_objects_eq_views(prev, cur);
        prev.lemma_index_of(j);
        // x is now marked, and everything marked before stays marked
        assert(cur.index_of(x) == prev.index_of(x) == j);
        assert(cur.marked_at(x));
        assert forall|y: usize|
            prev.contains_id(y) && prev.marked_at(y) implies cur.marked_at(y) by {
            let iy = prev.index_of(y);
            prev.lemma_index_of(iy);
            assert(cur.marks@[iy] || iy == j);
        }
        // soundness of every mark
        assert forall|a: int|
            0 <= a < cur.marks@.len() && cur.marks@[a] implies reachable(
            g0,
            r0,
            cur.objects@[a].id,
        ) by {
            if a != j {
                assert(prev.marks@[a]);
            }
        }
        // worklist validity
        assert forall|k: int|
            0 <= k < new_stack.len() && g0.dom().contains(#[trigger] new_stack[k]) implies
            reachable(g0, r0, new_stack[k]) by {
            if k < stack0.len() {
                assert(new_stack[k] == prev_stack[k]);
            } else {
                assert(g0[x].contains(new_stack[k]));
                lemma_reachable_step(g0, r0, x, new_stack[k]);
            }
        }
        // every table-resident root is marked or pending
        assert forall|r: usize|
            r0.contains(r) && g0.dom().contains(r) implies cur.marked_at(r) || new_stack.contains(
            r,
        ) by {
            if prev.marked_at(r) {
                assert(prev.contains_id(r));
                assert(cur.marked_at(r));
            } else if prev_stack.contains(r) {
                let kr = choose|kr: int| 0 <= kr < prev_stack.len() && prev_stack[kr] == r;
                if kr < stack0.len() {
                    assert(new_stack[kr] == r);
                    assert(new_stack.contains(r));
                } else {
                    assert(r == x);
                }
            }
        }
        // every edge of a marked entry is marked or pending
        assert forall|a: int, e: usize|
            0 <= a < cur.marks@.len() && cur.marks@[a] && g0[cur.objects@[a].id].contains(e)
                && g0.dom().contains(e) implies cur.marked_at(e) || new_stack.contains(e) by {
            if a == j {
                assert(cur.objects@[a].id == x);
                assert(edges.contains(e));
                let ke = choose|ke: int| 0 <= ke < edges.len() && edges[ke] == e;
                assert(new_stack[stack0.len() + ke] == e);
                assert(new_stack.contains(e));
            } else {
                assert(prev.marks@[a]);
                assert(prev.objects@[a].id == cur.objects@[a].id);
                if prev.marked_at(e) {
                    assert(prev.contains_id(e));
                    assert(cur.marked_at(e));
                } else if prev_stack.contains(e) {
                    let ke = choose|ke: int| 0 <= ke < prev_stack.len() && prev_stack[ke] == e;
                    if ke < stack0.len() {
                        assert(new_stack[ke] == e);
                        assert(new_stack.contains(e));
                    } else {
                        assert(e == x);
                        assert(cur.marked_at(x));
                    }
                }
            }
        }
    }

    /// Taking an already handled identifier off the worklist preserves
    /// the walk's bookkeeping: it was either already marked or absent
    /// from the table, so nothing depended on its staying pending.
    proof fn lemma_mark_skip(
        cur: Self,
        g0: Map<usize, Seq<usize>>,
        r0: Set<usize>,
        prev_stack: Seq<usize>,
        stack0: Seq<usize>,
        x: usize,
    )
        requires
            cur.wf(),
            prev_stack.len() > 0,
            prev_stack[prev_stack.len() - 1] == x,
            stack0 == prev_stack.take(prev_stack.len() - 1),
            cur.contains_id(x) ==> cur.marked_at(x),
            forall|r: usize|
                r0.contains(r) && g0.dom().contains(r) ==> cur.marked_at(r) || prev_stack.contains(
                    r,
                ),
            forall|a: int, e: usize|
                #![trigger cur.marks@[a], g0[cur.objects@[a].id].contains(e)]
                0 <= a < cur.marks@.len() && cur.marks@[a] && g0[cur.objects@[a].id].contains(e)
                    && g0.dom().contains(e) ==> cur.marked_at(e) || prev_stack.contains(e),
            forall|id: usize| g0.dom().contains(id) <==> cur.contains_id(id),
        ensures
            forall|r: usize|
                r0.contains(r) && g0.dom().contains(r) ==> cur.marked_at(r) || stack0.contains(r),
            forall|a: int, e: usize|
                #![trigger cur.marks@[a], g0[cur.objects@[a].id].contains(e)]
                0 <= a < cur.marks@.len() && cur.marks@[a] && g0[cur.objects@[a].id].contains(e)
                    && g0.dom().contains(e) ==> cur.marked_at(e) || stack0.contains(e),
    {
        assert(forall|k: int| 0 <= k < stack0.len() ==> stack0[k] == prev_stack[k]);
        assert forall|y: usize|
            g0.dom().contains(y) && prev_stack.contains(y) && !cur.marked_at(y) implies
            stack0.contains(y) by {
            let k = choose|k: int| 0 <= k < prev_stack.len() && prev_stack[k] == y;
            if k == prev_stack.len() - 1 {
                assert(y == x);
                assert(cur.contains_id(x));
            } else {
                assert(stack0[k] == y);
            }
        }
    }

    /// The sweep: scan the table in order, retain every marked entry and
    /// evict every unmarked one, reporting both sides of the split.
    #[verifier::loop_isolation(false)]
    #[verifier::rlimit(60)]
    fn sweep(&mut self) -> (report: CollectReport)
        requires
            old(self).wf(),
        ensures
            final(self).wf(),
            final(self).roots == old(self).roots,
            final(self).next_id == old(self).next_id,
            forall|i: int| 0 <= i < final(self).marks@.len() ==> final(self).marks@[i],
            report.retained@ == final(self).ids(),
            forall|x: usize|
                final(self).contains_id(x) <==> old(self).contains_id(x) && old(self).marked_at(
                    x,
                ),
            forall|x: usize|
                final(self).contains_id(x) ==> final(self).value_at(x) == old(self).value_at(x),
            forall|x: usize|
                report.collected@.contains(x) <==> old(self).contains_id(x) && !old(
                    self,
                ).marked_at(x),
            report.retained@.len() + report.collected@.len() == old(self).table_len(),
            strictly_increasing(report.retained@),
            strictly_increasing(report.collected@),
    {
        let ghost pre = *old(self);
        let mut kept: Vec<GcEntry<T>> = Vec::new();
        let mut kept_marks: Vec<bool> = Vec::new();
        let mut retained: Vec<usize> = Vec::new();
        let mut collected: Vec<usize> = Vec::new();
        while self.objects.len() > 0
            invariant
                self.marks@.len() == self.objects@.len(),
                kept@.len() == kept_marks@.len(),
                forall|i: int| 0 <= i < kept_marks@.len() ==> kept_marks@[i],
                retained@ == kept@.map_values(|en: GcEntry<T>| en.id),
                live_entries(pre.objects@, pre.marks@) == kept@ + live_entries(
                    self.objects@,
                    self.marks@,
                ),
                dead_ids(pre.objects@, pre.marks@) == collected@ + dead_ids(
                    self.objects@,
                    self.marks@,
                ),
                self.roots == pre.roots,
                self.next_id == pre.next_id,
            decreases self.objects@.len(),
        {
            let ghost o0 = self.objects@;
            let ghost m0 = self.marks@;
            let ghost kept0 = kept@;
            let ghost collected0 = collected@;
            let e = self.objects.remove(0);
            let m = self.marks.remove(0);
            proof {
                assert(self.objects@ =~= o0.drop_first());
                assert(self.marks@ =~= m0.drop_first());
            }
            if m {
                retained.push(e.id);
                kept.push(e);
                kept_marks.push(true);
                proof {
                    assert(retained@ =~= kept@.map_values(|en: GcEntry<T>| en.id));
                    assert(live_entries(o0, m0) == seq![o0[0]] + live_entries(
                        o0.drop_first(),
                        m0.drop_first(),
                    ));
                    assert(kept@ + live_entries(self.objects@, self.marks@) =~= kept0
                        + live_entries(o0, m0));
                    assert(dead_ids(o0, m0) == dead_ids(o0.drop_first(), m0.drop_first()));
                }
            } else {
                collected.push(e.id);
                proof {
                    assert(dead_ids(o0, m0) == seq![o0[0].id] + dead_ids(
                        o0.drop_first(),
                        m0.drop_first(),
                    ));
                    assert(collected@ + dead_ids(self.objects@, self.marks@) =~= collected0
                        + dead_ids(o0, m0));
                    assert(live_entries(o0, m0) == live_entries(o0.drop_first(), m0.drop_first()));
                }
            }
        }
        proof {
            assert(live_entries(self.objects@, self.marks@) == Seq::<GcEntry<T>>::empty());
            assert(dead_ids(self.objects@, self.marks@) == Seq::<usize>::empty());
            assert(kept@ =~= live_entries(pre.objects@, pre.marks@));
            assert(collected@ =~= dead_ids(pre.objects@, pre.marks@));
        }
        self.objects = kept;
        self.marks = kept_marks;
        proof {
            let cur = *self;
            let lv = live_entries(pre.objects@, pre.marks@);
            let dd = dead_ids(pre.objects@, pre.marks@);
            lemma_live_dead_props(pre.objects@, pre.marks@);
            lemma_live_dead_sorted(pre.objects@, pre.marks@);
            assert forall|i: int|
                0 <= i < cur.objects@.len() implies cur.objects@[i].id < cur.next_id by {
                let j = choose|j: int|
                    0 <= j < pre.objects@.len() && pre.objects@[j] == lv[i] && pre.marks@[j];
                assert(pre.objects@[j].id < pre.next_id);
            }
            assert(cur.wf());
            assert(retained@ =~= cur.ids());
            assert forall|x: usize|
                cur.contains_id(x) implies pre.contains_id(x) && pre.marked_at(x)
                    && cur.value_at(x) == pre.value_at(x) by {
                let i = cur.index_of(x);
                assert(0 <= i < cur.objects@.len() && cur.objects@[i].id == x);
                let j = choose|j: int|
                    0 <= j < pre.objects@.len() && pre.objects@[j] == lv[i] && pre.marks@[j];
                pre.lemma_index_of(j);
                assert(pre.marked_at(x));
                assert(cur.value_at(x) == cur.objects@[i].value);
            }
            assert forall|x: usize|
                pre.contains_id(x) && pre.marked_at(x) implies cur.contains_id(x) by {
                let j = pre.index_of(x);
                assert(pre.marks@[j]);
                assert(lv.contains(pre.objects@[j]));
                let i = choose|i: int| 0 <= i < lv.len() && lv[i] == pre.objects@[j];
                assert(cur.objects@[i].id == x);
            }
            assert forall|x: usize|
                collected@.contains(x) implies pre.contains_id(x) && !pre.marked_at(x) by {
                let i = choose|i: int| 0 <= i < dd.len() && dd[i] == x;
                let j = choose|j: int|
                    0 <= j < pre.objects@.len() && pre.objects@[j].id == dd[i] && !pre.marks@[j];
                pre.lemma_index_of(j);
            }
            assert forall|x: usize|
                pre.contains_id(x) && !pre.marked_at(x) implies collected@.contains(x) by {
                let j = pre.index_of(x);
                assert(!pre.marks@[j]);
                assert(dd.contains(pre.objects@[j].id));
            }
            assert forall|a: int, b: int|
                0 <= a < b < retained@.len() implies retained@[a] < retained@[b] by {
                assert(retained@[a] == lv[a].id && retained@[b] == lv[b].id);
            }
        }
        CollectReport { retained, collected }
    }

    /// One full mark-and-sweep cycle: reset every marked flag, mark
    /// everything transitively reachable from the root set, then evict
    /// every unmarked entry.  Exactly the identifiers reachable from the
    /// roots survive, with their stored values intact; the report lists
    /// the retained and the collected identifiers, each once, in
    /// increasing order, and the two sides together account for every
    /// entry the table held.
    pub fn collect(&mut self) -> (report: CollectReport)
        requires
            old(self).wf(),
        ensures
            final(self).wf(),
            final(self).id_bound() == old(self).id_bound(),
            final(self).root_set() == old(self).root_set(),
            final(self).roots_seq() == old(self).roots_seq(),
            forall|id: usize|
                final(self).contains_id(id) <==> reachable(
                    old(self).graph(),
                    old(self).root_set(),
                    id,
                ),
            forall|id: usize|
                final(self).contains_id(id) ==> final(self).value_at(id) == old(self).value_at(
                    id,
                ),
            final(self).graph() == old(self).graph().restrict(
                reach_set(old(self).graph(), old(self).root_set()),
            ),
            report.retained@ == final(self).ids(),
            forall|id: usize|
                report.retained@.contains(id) <==> reachable(
                    old(self).graph(),
                    old(self).root_set(),
                    id,
                ),
            forall|id: usize|
                report.collected@.contains(id) <==> old(self).contains_id(id) && !reachable(
                    old(self).graph(),
                    old(self).root_set(),
                    id,
                ),
            report.retained@.len() + report.collected@.len() == old(self).table_len(),
            final(self).table_len() == report.retained@.len(),
            strictly_increasing(report.retained@),
            strictly_increasing(report.collected@),
    {
        let ghost pre = *old(self);
        let ghost g0 = pre.graph();
        let ghost r0 = pre.root_set();
        self.reset_marks();
        let ghost s1 = *self;
        self.mark_phase();
        let ghost s2 = *self;
        let report = self.sweep();
        proof {
            let cur = *self;
            Self::lemma_objects_eq_views(pre, s1);
            Self::lemma_objects_eq_views(pre, s2);
            assert(s1.graph() == g0);
            assert(s1.root_set() =~= r0);
            assert(cur.root_set() =~= r0);
            // an entry is marked after the walk exactly when it is reachable
            assert forall|x: usize| s2.contains_id(x) implies (s2.marked_at(x) <==> reachable(
                g0,
                r0,
                x,
            )) by {
                let i = s2.index_of(x);
                assert(0 <= i < s2.objects@.len() && s2.objects@[i].id == x);
            }
            // reachable identifiers are table-resident
            assert forall|x: usize| reachable(g0, r0, x) implies pre.contains_id(x) by {
                lemma_reachable_in_dom(g0, r0, x);
            }
            assert forall|x: usize| cur.contains_id(x) implies reachable(g0, r0, x) by {
                assert(s2.contains_id(x) && s2.marked_at(x));
            }
            assert forall|x: usize| reachable(g0, r0, x) implies cur.contains_id(x) by {
                assert(s2.contains_id(x));
                assert(s2.marked_at(x));
            }
            // the surviving table presents the restricted graph
            assert forall|x: usize| cur.contains_id(x) implies cur.value_at(x) == pre.value_at(
                x,
            ) by {
                assert(s2.value_at(x) == pre.value_at(x));
            }
            assert forall|x: usize|
                #![trigger cur.graph().dom().contains(x)]
                cur.graph().dom().contains(x) implies cur.graph()[x] == g0.restrict(
                reach_set(g0, r0),
            )[x] by {
                assert(cur.value_at(x) == pre.value_at(x));
            }
            assert(cur.graph() =~= g0.restrict(reach_set(g0, r0)));
            // the report's retained side lists exactly the survivors
            assert forall|id: usize|
                report.retained@.contains(id) implies cur.contains_id(id) by {
                let i = choose|i: int| 0 <= i < cur.ids().len() && cur.ids()[i] == id;
                assert(cur.objects@[i].id == id);
            }
            assert forall|id: usize|
                cur.contains_id(id) implies report.retained@.contains(id) by {
                let i = cur.index_of(id);
                assert(cur.ids()[i] == id);
            }
        }
        report
    }

    /// Whether `id` is currently stored as a root.
    fn has_root(&self, id: usize) -> (r: bool)
        ensures
            r <==> self.roots_seq().contains(id),
    {
        let mut i: usize = 0;
        while i < self.roots.len()
            invariant
                0 <= i <= self.roots@.len(),
                forall|j: int| 0 <= j < i ==> self.roots@[j] != id,
            decreases self.roots@.len() - i,
        {
            if self.roots[i] == id {
                return true;
            }
            i = i + 1;
        }
        false
    }
}

} // verus!
