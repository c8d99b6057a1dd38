//! The graph store: a mapping from a parent to the set of its direct
//! descendants, kept in the order of first insertion.

use vstd::prelude::*;
use crate::membership::{PoolEntry, member_ids, is_member};

verus! {

/// The text of an entry identifier.
pub type Id = Seq<char>;

/// The mathematical model of the graph: each row is a parent and the children
/// recorded under it, rows and children both in order of first insertion.
pub type Rows = Seq<(Id, Seq<Id>)>;

/// The texts of a list of identifiers.
pub open spec fn texts(v: Seq<String>) -> Seq<Id> {
    Seq::new(v.len(), |i: int| v[i]@)
}

/// `id` is a parent in `rows`.
pub open spec fn has_key(rows: Rows, id: Id) -> bool {
    exists|i: int| 0 <= i < rows.len() && (#[trigger] rows[i]).0 == id
}

/// The position of the row of `id`, meaningful where `has_key(rows, id)`.
pub open spec fn slot(rows: Rows, id: Id) -> int {
    choose|i: int| 0 <= i < rows.len() && (#[trigger] rows[i]).0 == id
}

/// The children recorded under `id`, none where `id` is no parent.
pub open spec fn children(rows: Rows, id: Id) -> Seq<Id> {
    if has_key(rows, id) {
        rows[slot(rows, id)].1
    } else {
        Seq::empty()
    }
}

/// The parents of `rows`, in order.
pub open spec fn parents(rows: Rows) -> Seq<Id> {
    Seq::new(rows.len(), |i: int| rows[i].0)
}

/// No parent has two rows, no row is empty and no child is listed twice
/// under one parent.
pub open spec fn rows_wf(rows: Rows) -> bool {
    &&& forall|i: int, j: int|
        0 <= i < j < rows.len() ==> (#[trigger] rows[i]).0 != (#[trigger] rows[j]).0
    &&& forall|i: int| 0 <= i < rows.len() ==> (#[trigger] rows[i]).1.len() > 0
    &&& forall|i: int| 0 <= i < rows.len() ==> (#[trigger] rows[i]).1.no_duplicates()
}

/// The rows after the edge from `parent` to `child` has been inserted: a new
/// last row for an unknown parent, a new last child for a known parent that
/// lacks it, no change otherwise.
pub open spec fn with_edge(rows: Rows, parent: Id, child: Id) -> Rows {
    if has_key(rows, parent) {
        let i = slot(rows, parent);
        if rows[i].1.contains(child) {
            rows
        } else {
            rows.update(i, (parent, rows[i].1.push(child)))
        }
    } else {
        rows.push((parent, seq![child]))
    }
}

/// The rows after the edges from `parent` to each of `kids` have been
/// inserted, first to last.
pub open spec fn with_edges(rows: Rows, parent: Id, kids: Seq<Id>) -> Rows
    decreases kids.len(),
{
    if kids.len() == 0 {
        rows
    } else {
        with_edge(with_edges(rows, parent, kids.drop_last()), parent, kids.last())
    }
}

/// The rows whose parent is in `members`, in their old order and with their
/// children untouched.
pub open spec fn pruned(rows: Rows, members: Set<Id>) -> Rows {
    rows.filter(|row: (Id, Seq<Id>)| members.contains(row.0))
}

/// The rows at the positions from `low` to `high`, both included; none where
/// the bounds are inverted or lie beyond the last row.
pub open spec fn window_rows(rows: Rows, low: int, high: int) -> Rows {
    if 0 <= low <= high && low < rows.len() {
        rows.subrange(
            low,
            if high < rows.len() {
                high + 1
            } else {
                rows.len() as int
            },
        )
    } else {
        Seq::empty()
    }
}

/// The graph as a mapping from each parent to the set of its children.
pub open spec fn edge_map(rows: Rows) -> Map<Id, Set<Id>> {
    Map::new(|id: Id| has_key(rows, id), |id: Id| children(rows, id).to_set())
}

/// In well-formed rows the row of a parent is found at its one position.
pub proof fn lemma_slot_unique(rows: Rows, i: int)
    requires
        rows_wf(rows),
        0 <= i < rows.len(),
    ensures
        has_key(rows, rows[i].0),
        slot(rows, rows[i].0) == i,
        children(rows, rows[i].0) == rows[i].1,
{
    let id = rows[i].0;
    assert(has_key(rows, id));
    let j = slot(rows, id);
    assert(0 <= j < rows.len() && rows[j].0 == id);
    if j < i {
        assert(rows[j].0 != rows[i].0);
    } else if i < j {
        assert(rows[i].0 != rows[j].0);
    }
}

/// Inserting an edge keeps the rows well formed.
pub proof fn lemma_with_edge_wf(rows: Rows, parent: Id, child: Id)
    requires
        rows_wf(rows),
    ensures
        rows_wf(with_edge(rows, parent, child)),
{
    let after = with_edge(rows, parent, child);
    if has_key(rows, parent) {
        let i = slot(rows, parent);
        if !rows[i].1.contains(child) {
            assert forall|a: int, b: int| 0 <= a < b < after.len() implies (#[trigger] after[a]).0
                != (#[trigger] after[b]).0 by {
                assert(after[a].0 == rows[a].0);
                assert(after[b].0 == rows[b].0);
            }
            assert forall|a: int| 0 <= a < after.len() implies (#[trigger] after[a]).1.len() > 0
                && after[a].1.no_duplicates() by {
                assert(rows[a].1.len() > 0 && rows[a].1.no_duplicates());
            }
        }
    } else {
        assert forall|a: int, b: int| 0 <= a < b < after.len() implies (#[trigger] after[a]).0
            != (#[trigger] after[b]).0 by {
            assert(after[a] == rows[a]);
            if b < rows.len() {
                assert(after[b] == rows[b]);
            }
        }
        assert forall|a: int| 0 <= a < after.len() implies (#[trigger] after[a]).1.len() > 0
            && after[a].1.no_duplicates() by {
            if a < rows.len() {
                assert(after[a] == rows[a]);
            }
        }
    }
}

/// What inserting an edge changes: the parent is a parent afterwards and
/// has the child, no other parent appears, the parent's set of children
/// grows by the child alone, and every other parent keeps its children.
pub proof fn lemma_with_edge_effect(rows: Rows, parent: Id, child: Id)
    requires
        rows_wf(rows),
    ensures
        rows_wf(with_edge(rows, parent, child)),
        has_key(with_edge(rows, parent, child), parent),
        forall|id: Id|
            has_key(with_edge(rows, parent, child), id) <==> (has_key(rows, id) || id == parent),
        children(with_edge(rows, parent, child), parent).to_set() == children(
            rows,
            parent,
        ).to_set().insert(child),
        forall|id: Id|
            id != parent ==> children(with_edge(rows, parent, child), id) == children(rows, id),
{
    let after = with_edge(rows, parent, child);
    lemma_with_edge_wf(rows, parent, child);
    if has_key(rows, parent) {
        let i = slot(rows, parent);
        lemma_slot_unique(rows, i);
        let listed = rows[i].1;
        assert(after.len() == rows.len());
        assert forall|j: int| 0 <= j < rows.len() implies (#[trigger] after[j]).0 == rows[j].0 by {}
        assert(after[i].0 == parent);
        lemma_slot_unique(after, i);
        assert forall|id: Id| has_key(after, id) <==> (has_key(rows, id) || id == parent) by {
            if has_key(after, id) {
                let j = slot(after, id);
                assert(rows[j].0 == id);
            }
            if has_key(rows, id) {
                let j = slot(rows, id);
                assert(after[j].0 == id);
            }
        }
        assert forall|id: Id| id != parent implies children(after, id) == children(rows, id) by {
            if has_key(rows, id) {
                let j = slot(rows, id);
                lemma_slot_unique(rows, j);
                assert(after[j].0 == id);
                lemma_slot_unique(after, j);
                assert(after[j] == rows[j]);
            }
        }
        if listed.contains(child) {
            assert(listed.to_set().insert(child) =~= listed.to_set());
        } else {
            assert(after[i].1 == listed.push(child));
            listed.lemma_push_to_set_commute(child);
        }
    } else {
        let last = rows.len() as int;
        assert(after[last] == (parent, seq![child]));
        lemma_slot_unique(after, last);
        assert forall|id: Id| has_key(after, id) <==> (has_key(rows, id) || id == parent) by {
            if has_key(after, id) {
                let j = slot(after, id);
                if j < last {
                    assert(rows[j].0 == id);
                }
            }
            if has_key(rows, id) {
                let j = slot(rows, id);
                assert(after[j].0 == id);
            }
        }
        assert forall|id: Id| id != parent implies children(after, id) == children(rows, id) by {
            if has_key(rows, id) {
                let j = slot(rows, id);
                lemma_slot_unique(rows, j);
                assert(after[j] == rows[j]);
                lemma_slot_unique(after, j);
            }
        }
        assert(seq![child] =~= Seq::<Id>::empty().push(child));
        Seq::<Id>::empty().lemma_push_to_set_commute(child);
        assert(Seq::<Id>::empty().to_set() =~= Set::<Id>::empty());
    }
}

/// What inserting the edges to `kids` changes: the parent is a parent
/// afterwards if there was a kid, no other parent appears, the parent's set
/// of children grows by the kids alone, and every other parent keeps its
/// children.
pub proof fn lemma_with_edges_effect(rows: Rows, parent: Id, kids: Seq<Id>)
    requires
        rows_wf(rows),
    ensures
        rows_wf(with_edges(rows, parent, kids)),
        forall|id: Id|
            has_key(with_edges(rows, parent, kids), id) <==> (has_key(rows, id) || (id == parent
                && kids.len() > 0)),
        children(with_edges(rows, parent, kids), parent).to_set() == children(
            rows,
            parent,
        ).to_set().union(kids.to_set()),
        forall|id: Id|
            id != parent ==> children(with_edges(rows, parent, kids), id) == children(rows, id),
    decreases kids.len(),
{
    if kids.len() == 0 {
        assert(kids.to_set() =~= Set::<Id>::empty());
        assert(children(rows, parent).to_set().union(kids.to_set()) =~= children(
            rows,
            parent,
        ).to_set());
    } else {
        let init = kids.drop_last();
        let mid = with_edges(rows, parent, init);
        lemma_with_edges_effect(rows, parent, init);
        lemma_with_edge_effect(mid, parent, kids.last());
        assert(init.push(kids.last()) =~= kids);
        init.lemma_push_to_set_commute(kids.last());
        assert(children(with_edges(rows, parent, kids), parent).to_set() =~= children(
            rows,
            parent,
        ).to_set().union(kids.to_set()));
    }
}

/// Inserting the same edge a second time changes nothing: the rows, and
/// with them the number of children of the parent, stay as they are.
pub proof fn lemma_add_edge_idempotent(rows: Rows, parent: Id, child: Id)
    requires
        rows_wf(rows),
    ensures
        with_edge(with_edge(rows, parent, child), parent, child) == with_edge(rows, parent, child),
        children(with_edge(with_edge(rows, parent, child), parent, child), parent).len()
            == children(with_edge(rows, parent, child), parent).len(),
        edge_map(with_edge(rows, parent, child))[parent].len() == children(
            with_edge(rows, parent, child),
            parent,
        ).len(),
{
    let after = with_edge(rows, parent, child);
    lemma_with_edge_effect(rows, parent, child);
    assert(children(after, parent).to_set().contains(child));
    assert(children(after, parent).contains(child));
    let i = slot(after, parent);
    lemma_slot_unique(after, i);
    children(after, parent).unique_seq_to_set();
}

/// The graph as a mapping after an edge has been inserted: the parent's set
/// holds the child besides what it held, every other set is unchanged.
pub proof fn lemma_with_edge_map(rows: Rows, parent: Id, child: Id)
    requires
        rows_wf(rows),
    ensures
        edge_map(with_edge(rows, parent, child)) == edge_map(rows).insert(
            parent,
            children(rows, parent).to_set().insert(child),
        ),
{
    lemma_with_edge_effect(rows, parent, child);
    assert(edge_map(with_edge(rows, parent, child)) =~= edge_map(rows).insert(
        parent,
        children(rows, parent).to_set().insert(child),
    ));
}

/// After pruning, every parent is a member.
pub proof fn lemma_pruned_parents_are_members(rows: Rows, members: Set<Id>)
    ensures
        forall|id: Id| has_key(pruned(rows, members), id) ==> members.contains(id),
{
    let keep = |row: (Id, Seq<Id>)| members.contains(row.0);
    assert forall|id: Id| has_key(pruned(rows, members), id) implies members.contains(id) by {
        let i = slot(pruned(rows, members), id);
        rows.lemma_filter_pred(keep, i);
    }
}

/// Pruning looks at parents alone: a parent stays exactly when it is a
/// member, and a parent that stays keeps all its children, members or not.
pub proof fn lemma_pruned_effect(rows: Rows, members: Set<Id>)
    requires
        rows_wf(rows),
    ensures
        rows_wf(pruned(rows, members)),
        forall|id: Id|
            has_key(pruned(rows, members), id) <==> (has_key(rows, id) && members.contains(id)),
        forall|id: Id|
            has_key(pruned(rows, members), id) ==> children(pruned(rows, members), id) == children(
                rows,
                id,
            ),
    decreases rows.len(),
{
    let keep = |row: (Id, Seq<Id>)| members.contains(row.0);
    let after = pruned(rows, members);
    if rows.len() == 0 {
        assert(after =~= rows);
    } else {
        let init = rows.drop_last();
        let last = rows.last();
        let sub = pruned(init, members);
        assert(init.push(last) =~= rows);
        init.lemma_filter_push(last, keep);
        assert forall|i: int, j: int| 0 <= i < j < init.len() implies (#[trigger] init[i]).0
            != (#[trigger] init[j]).0 by {
            assert(init[i] == rows[i] && init[j] == rows[j]);
        }
        assert forall|i: int| 0 <= i < init.len() implies (#[trigger] init[i]).1.len() > 0
            && init[i].1.no_duplicates() by {
            assert(init[i] == rows[i]);
        }
        lemma_pruned_effect(init, members);
        assert forall|id: Id| has_key(init, id) implies has_key(rows, id) && id != last.0
            && children(init, id) == children(rows, id) by {
            let j = slot(init, id);
            assert(rows[j] == init[j]);
            assert(rows[j].0 != rows[rows.len() - 1].0);
            lemma_slot_unique(rows, j);
            lemma_slot_unique(init, j);
        }
        assert forall|id: Id| has_key(rows, id) implies has_key(init, id) || id == last.0 by {
            let j = slot(rows, id);
            if j < init.len() {
                assert(init[j].0 == id);
            }
        }
        lemma_slot_unique(rows, rows.len() - 1);
        if members.contains(last.0) {
            assert(after == sub.push(last));
            assert forall|i: int, j: int| 0 <= i < j < after.len() implies (#[trigger] after[i]).0
                != (#[trigger] after[j]).0 by {
                assert(after[i] == sub[i]);
                assert(has_key(sub, sub[i].0));
                if j < sub.len() {
                    assert(after[j] == sub[j]);
                }
            }
            assert forall|i: int| 0 <= i < after.len() implies (#[trigger] after[i]).1.len() > 0
                && after[i].1.no_duplicates() by {
                if i < sub.len() {
                    assert(after[i] == sub[i]);
                } else {
                    assert(after[i] == rows[rows.len() - 1]);
                }
            }
            lemma_slot_unique(after, sub.len() as int);
            assert forall|id: Id| has_key(after, id) <==> (has_key(rows, id) && members.contains(
                id,
            )) by {
                if has_key(after, id) {
                    let j = slot(after, id);
                    if j < sub.len() {
                        assert(sub[j].0 == id);
                    }
                }
                if has_key(sub, id) {
                    let j = slot(sub, id);
                    assert(after[j].0 == id);
                }
            }
            assert forall|id: Id| has_key(after, id) implies children(after, id) == children(
                rows,
                id,
            ) by {
                if id != last.0 {
                    let j = slot(sub, id);
                    lemma_slot_unique(sub, j);
                    assert(after[j] == sub[j]);
                    lemma_slot_unique(after, j);
                }
            }
        } else {
            assert(after == sub);
        }
    }
}

/// The graph as a mapping after pruning: the old mapping restricted to the
/// members.
pub proof fn lemma_pruned_map(rows: Rows, members: Set<Id>)
    requires
        rows_wf(rows),
    ensures
        edge_map(pruned(rows, members)) == edge_map(rows).restrict(members),
{
    lemma_pruned_effect(rows, members);
    assert(edge_map(pruned(rows, members)) =~= edge_map(rows).restrict(members));
}

/// The parents of well-formed rows are as many as the rows, and they are
/// the keys of the graph as a mapping.
pub proof fn lemma_parent_count(rows: Rows)
    requires
        rows_wf(rows),
    ensures
        parents(rows).no_duplicates(),
        edge_map(rows).dom() == parents(rows).to_set(),
        edge_map(rows).dom().finite(),
        edge_map(rows).dom().len() == rows.len(),
{
    let keys = parents(rows);
    assert forall|i: int, j: int| 0 <= i < keys.len() && 0 <= j < keys.len() && i != j implies keys[i]
        != keys[j] by {
        if i < j {
            assert(rows[i].0 != rows[j].0);
        } else {
            assert(rows[j].0 != rows[i].0);
        }
    }
    assert forall|id: Id| has_key(rows, id) <==> keys.contains(id) by {
        if has_key(rows, id) {
            let i = slot(rows, id);
            assert(keys[i] == id);
        }
        if keys.contains(id) {
            let i = choose|i: int| 0 <= i < keys.len() && keys[i] == id;
            assert(rows[i].0 == id);
        }
    }
    assert(edge_map(rows).dom() =~= keys.to_set());
    keys.unique_seq_to_set();
}

/// Two sequences with equal tails have equal tails one step further on.
proof fn lemma_skip_next(a: Rows, i: int, b: Rows, k: int)
    requires
        0 <= i < a.len(),
        0 <= k < b.len(),
        a.skip(i) == b.skip(k),
    ensures
        a.skip(i + 1) == b.skip(k + 1),
{
    assert(a.skip(i + 1) =~= a.skip(i).skip(1));
    assert(b.skip(k + 1) =~= b.skip(k).skip(1));
}

/// Taking one row out keeps the rows well formed.
pub proof fn lemma_remove_wf(rows: Rows, i: int)
    requires
        rows_wf(rows),
        0 <= i < rows.len(),
    ensures
        rows_wf(rows.remove(i)),
{
    let after = rows.remove(i);
    assert forall|a: int, b: int| 0 <= a < b < after.len() implies (#[trigger] after[a]).0
        != (#[trigger] after[b]).0 by {
        let a0 = if a < i { a } else { a + 1 };
        let b0 = if b < i { b } else { b + 1 };
        assert(after[a] == rows[a0]);
        assert(after[b] == rows[b0]);
    }
    assert forall|a: int| 0 <= a < after.len() implies (#[trigger] after[a]).1.len() > 0
        && after[a].1.no_duplicates() by {
        let a0 = if a < i { a } else { a + 1 };
        assert(after[a] == rows[a0]);
    }
}

/// A parent with the children recorded under it.
pub struct Family {
    pub parent: String,
    pub children: Vec<String>,
}

impl Family {
    /// The row that this family stands for.
    pub open spec fn row(&self) -> (Id, Seq<Id>) {
        (self.parent@, texts(self.children@))
    }
}

/// The rows that a list of families stands for.
pub open spec fn family_rows(families: Seq<Family>) -> Rows {
    Seq::new(families.len(), |i: int| families[i].row())
}

/// A copy of a list of identifiers.
pub fn copy_ids(list: &Vec<String>) -> (copy: Vec<String>)
    ensures
        texts(copy@) == texts(list@),
{
    let mut copy: Vec<String> = Vec::new();
    let mut i: usize = 0;
    while i < list.len()
        invariant
            i <= list.len(),
            copy.len() == i,
            forall|j: int| 0 <= j < i ==> copy[j]@ == list[j]@,
        decreases list.len() - i,
    {
        copy.push(list[i].clone());
        i += 1;
    }
    assert(texts(copy@) =~= texts(list@));
    copy
}

/// The graph store.
pub struct TxGraph {
    families: Vec<Family>,
}

impl View for TxGraph {
    type V = Map<Id, Set<Id>>;

    open spec fn view(&self) -> Map<Id, Set<Id>> {
        edge_map(self.rows())
    }
}

/// The position of `id` in `list`, if it occurs there.
pub fn find_id(list: &Vec<String>, id: &String) -> (found: Option<usize>)
    ensures
        match found {
            Some(i) => i < list.len() && list[i as int]@ == id@ && forall|j: int|
                0 <= j < i ==> list[j]@ != id@,
            None => !texts(list@).contains(id@),
        },
{
    let mut i: usize = 0;
    while i < list.len()
        invariant
            i <= list.len(),
            forall|j: int| 0 <= j < i ==> list[j]@ != id@,
        decreases list.len() - i,
    {
        if list[i] == *id {
            return Some(i);
        }
        i += 1;
    }
    assert(!texts(list@).contains(id@)) by {
        if texts(list@).contains(id@) {
            let j = choose|j: int| 0 <= j < texts(list@).len() && texts(list@)[j] == id@;
            assert(list[j]@ == id@);
        }
    }
    None
}

impl TxGraph {
    /// The rows of the graph, in iteration order.
    pub closed spec fn rows(&self) -> Rows {
        family_rows(self.families@)
    }

    /// The graph holds well-formed rows.
    pub open spec fn wf(&self) -> bool {
        rows_wf(self.rows())
    }

    /// An empty graph.
    pub fn new() -> (graph: TxGraph)
        ensures
            graph.wf(),
            graph.rows() == Seq::<(Id, Seq<Id>)>::empty(),
    {
        let graph = TxGraph { families: Vec::new() };
        assert(graph.rows() =~= Seq::<(Id, Seq<Id>)>::empty());
        graph
    }

    /// The number of parents.
    pub fn len(&self) -> (n: usize)
        ensures
            n == self.rows().len(),
            self.wf() ==> n == self@.dom().len(),
    {
        proof {
            if self.wf() {
                lemma_parent_count(self.rows());
            }
        }
        self.families.len()
    }

    /// The position of the row of `id`, if it is a parent.
    pub fn position(&self, id: &String) -> (found: Option<usize>)
        requires
            self.wf(),
        ensures
            found is Some <==> has_key(self.rows(), id@),
            found is Some ==> found->0 == slot(self.rows(), id@),
    {
        let mut i: usize = 0;
        while i < self.families.len()
            invariant
                i <= self.families.len(),
                self.wf(),
                forall|j: int| 0 <= j < i ==> (#[trigger] self.rows()[j]).0 != id@,
            decreases self.families.len() - i,
        {
            if self.families[i].parent == *id {
                proof {
                    assert(self.rows()[i as int].0 == id@);
                    lemma_slot_unique(self.rows(), i as int);
                }
                return Some(i);
            }
            assert(self.rows()[i as int].0 != id@);
            i += 1;
        }
        None
    }

    /// Whether `id` is a parent.
    pub fn contains_key(&self, id: &String) -> (known: bool)
        requires
            self.wf(),
        ensures
            known == has_key(self.rows(), id@),
            known == self@.contains_key(id@),
    {
        self.position(id).is_some()
    }

    /// The parent of the row at `index`.
    pub fn parent_at(&self, index: usize) -> (parent: &String)
        requires
            index < self.rows().len(),
        ensures
            parent@ == self.rows()[index as int].0,
    {
        &self.families[index].parent
    }

    /// The children of the row at `index`.
    pub fn children_at(&self, index: usize) -> (listed: &Vec<String>)
        requires
            index < self.rows().len(),
        ensures
            texts(listed@) == self.rows()[index as int].1,
    {
        &self.families[index].children
    }

    /// The children recorded under `id`, `None` where `id` is no parent.
    pub fn children_of(&self, id: &String) -> (listed: Option<&Vec<String>>)
        requires
            self.wf(),
        ensures
            listed is Some <==> has_key(self.rows(), id@),
            listed is Some ==> texts(listed->0@) == children(self.rows(), id@),
    {
        match self.position(id) {
            Some(i) => Some(&self.families[i].children),
            None => None,
        }
    }

    /// The rows at the positions from `low` to `high`, both included, as
    /// they are at the moment of the call.
    pub fn window(&self, low: usize, high: usize) -> (shown: Vec<Family>)
        ensures
            family_rows(shown@) == window_rows(self.rows(), low as int, high as int),
    {
        let mut shown: Vec<Family> = Vec::new();
        let total = self.families.len();
        let stop = if high < total {
            high + 1
        } else {
            total
        };
        let ghost rows = self.rows();
        let ghost wanted = window_rows(rows, low as int, high as int);
        if low >= stop {
            assert(family_rows(shown@) =~= wanted);
            return shown;
        }
        let mut i: usize = low;
        while i < stop
            invariant
                low <= i <= stop <= self.families.len(),
                rows == self.rows(),
                wanted == rows.subrange(low as int, stop as int),
                family_rows(shown@) == wanted.take(i - low),
            decreases stop - i,
        {
            let family = &self.families[i];
            let copy = Family { parent: family.parent.clone(), children: copy_ids(&family.children) };
            shown.push(copy);
            proof {
                assert(family_rows(shown@) =~= wanted.take(i - low).push(rows[i as int]));
                assert(wanted.take(i + 1 - low) =~= wanted.take(i - low).push(rows[i as int]));
            }
            i += 1;
        }
        proof {
            assert(wanted.take(i - low) =~= wanted);
        }
        shown
    }

    /// Inserts the edge from `parent_id` to `child_id`.
    pub fn add_edge(&mut self, parent_id: String, child_id: String)
        requires
            old(self).wf(),
        ensures
            final(self).wf(),
            final(self).rows() == with_edge(old(self).rows(), parent_id@, child_id@),
            final(self)@ == old(self)@.insert(
                parent_id@,
                children(old(self).rows(), parent_id@).to_set().insert(child_id@),
            ),
    {
        let ghost before = self.rows();
        proof {
            lemma_with_edge_map(before, parent_id@, child_id@);
        }
        match self.position(&parent_id) {
            Some(i) => {
                let listed_at = find_id(&self.families[i].children, &child_id);
                if listed_at.is_none() {
                    let ghost listed = self.families[i as int].children@;
                    self.families[i].children.push(child_id);
                    proof {
                        assert(before[i as int].1 == texts(listed));
                        assert(texts(self.families[i as int].children@) =~= texts(listed).push(
                            child_id@,
                        ));
                        assert(self.rows() =~= before.update(
                            i as int,
                            (parent_id@, texts(listed).push(child_id@)),
                        ));
                        lemma_with_edge_wf(before, parent_id@, child_id@);
                    }
                } else {
                    proof {
                        assert(before[i as int].1[listed_at->0 as int] == child_id@);
                    }
                }
            },
            None => {
                let mut children: Vec<String> = Vec::new();
                children.push(child_id);
                self.families.push(Family { parent: parent_id, children });
                proof {
                    assert(texts(children@) =~= seq![child_id@]);
                    assert(self.rows() =~= before.push((parent_id@, seq![child_id@])));
                    lemma_with_edge_wf(before, parent_id@, child_id@);
                }
            },
        }
    }

    /// Inserts the edges from `parent_id` to each of `child_ids`, first to last.
    pub fn add_edges(&mut self, parent_id: &String, child_ids: &Vec<String>)
        requires
            old(self).wf(),
        ensures
            final(self).wf(),
            final(self).rows() == with_edges(old(self).rows(), parent_id@, texts(child_ids@)),
    {
        let ghost before = self.rows();
        let ghost kids = texts(child_ids@);
        let mut i: usize = 0;
        proof {
            assert(kids.take(0) =~= Seq::<Id>::empty());
        }
        while i < child_ids.len()
            invariant
                i <= child_ids.len(),
                kids == texts(child_ids@),
                self.wf(),
                self.rows() == with_edges(before, parent_id@, kids.take(i as int)),
            decreases child_ids.len() - i,
        {
            proof {
                assert(kids.take(i + 1).drop_last() =~= kids.take(i as int));
                assert(kids.take(i + 1).last() == child_ids[i as int]@);
            }
            self.add_edge(parent_id.clone(), child_ids[i].clone());
            i += 1;
        }
        proof {
            assert(kids.take(i as int) =~= kids);
        }
    }

    /// Removes every parent that is no entry of `mempool_txs`. Children are
    /// not looked at: a row that stays keeps all of them.
    pub fn clean_transactions(&mut self, mempool_txs: &Vec<PoolEntry>)
        requires
            old(self).wf(),
        ensures
            final(self).wf(),
            final(self).rows() == pruned(old(self).rows(), member_ids(mempool_txs@)),
            final(self)@ == old(self)@.restrict(member_ids(mempool_txs@)),
            forall|id: Id| final(self)@.contains_key(id) ==> member_ids(mempool_txs@).contains(id),
    {
        let ghost before = self.rows();
        proof {
            lemma_pruned_map(before, member_ids(mempool_txs@));
        }
        let ghost members = member_ids(mempool_txs@);
        let ghost keep = |row: (Id, Seq<Id>)| members.contains(row.0);
        let ghost mut k: int = 0;
        let mut i: usize = 0;
        proof {
            assert(before.take(0) =~= Seq::<(Id, Seq<Id>)>::empty());
            assert(self.rows().take(0) =~= before.take(0).filter(keep));
            assert(self.rows().skip(0) =~= before.skip(0));
        }
        while i < self.families.len()
            invariant
                i <= self.families.len(),
                0 <= k <= before.len(),
                members == member_ids(mempool_txs@),
                keep == |row: (Id, Seq<Id>)| members.contains(row.0),
                self.wf(),
                self.rows().len() - i == before.len() - k,
                self.rows().take(i as int) == before.take(k).filter(keep),
                self.rows().skip(i as int) == before.skip(k),
            decreases self.families.len() - i,
        {
            let ghost now = self.rows();
            proof {
                assert(now[i as int] == now.skip(i as int)[0]);
                assert(now[i as int] == before[k]);
                assert(before.take(k + 1) =~= before.take(k).push(before[k]));
                before.take(k).lemma_filter_push(before[k], keep);
            }
            if is_member(mempool_txs, &self.families[i].parent) {
                proof {
                    assert(now.take(i + 1) =~= now.take(i as int).push(now[i as int]));
                    lemma_skip_next(now, i as int, before, k);
                }
                i += 1;
            } else {
                self.families.remove(i);
                proof {
                    assert(self.rows() =~= now.remove(i as int));
                    lemma_remove_wf(now, i as int);
                    assert(self.rows().take(i as int) =~= now.take(i as int));
                    lemma_skip_next(now, i as int, before, k);
                    assert(self.rows().skip(i as int) =~= now.skip(i + 1));
                }
            }
            proof {
                k = k + 1;
            }
        }
        proof {
            assert(self.rows().take(i as int) =~= self.rows());
            assert(before.take(k) =~= before);
        }
    }
}

} // verus!
