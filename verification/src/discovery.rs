//! The discovery step of a refresh cycle, as a state machine: the machine
//! says which entry to ask the node about next, the caller asks, and the
//! machine records the answer in the graph.

use vstd::prelude::*;
use crate::graph::{Id, Rows, TxGraph, has_key, lemma_with_edges_effect, rows_wf, texts, with_edges};
use crate::graph::pruned;
use crate::membership::{PoolEntry, member_ids, qualifies};

verus! {

/// The number of parents that one cycle newly processes at most.
pub const DISCOVERY_CAP: usize = 1000;

/// Which query is outstanding: one for the descendants of an entry of the
/// snapshot, or one for the descendants of such a descendant.
#[derive(Clone, Copy, PartialEq, Eq, Structural, Debug)]
pub enum Hop {
    First,
    Second,
}

/// The mathematical model of a discovery in progress.
pub struct Progress {
    /// The snapshot: each entry's identifier and descendant count.
    pub entries: Seq<(Id, Option<i64>)>,
    /// The entries before this position have been dealt with.
    pub cursor: int,
    /// The number of parents newly processed so far.
    pub processed: int,
    /// The most that may be newly processed.
    pub cap: int,
    /// The answer to the latest first-hop query.
    pub children: Seq<Id>,
    /// The children before this position have been dealt with.
    pub child_cursor: int,
    /// The query that awaits its answer, if any.
    pub waiting: Option<Hop>,
}

/// The snapshot as the model holds it.
pub open spec fn entries_of(membership: Seq<PoolEntry>) -> Seq<(Id, Option<i64>)> {
    Seq::new(membership.len(), |i: int| (membership[i].id@, membership[i].descendant_count))
}

/// The state before the first query.
pub open spec fn start(entries: Seq<(Id, Option<i64>)>, cap: int) -> Progress {
    Progress {
        entries,
        cursor: 0,
        processed: 0,
        cap,
        children: Seq::empty(),
        child_cursor: 0,
        waiting: None,
    }
}

/// The cursors are in range, the cap is kept, and an outstanding query has
/// its subject under the cursor.
pub open spec fn progress_wf(p: Progress) -> bool {
    &&& 0 <= p.cursor <= p.entries.len()
    &&& 0 <= p.child_cursor <= p.children.len()
    &&& 0 <= p.processed <= p.cap
    &&& p.waiting == Some(Hop::First) ==> p.cursor < p.entries.len()
    &&& p.waiting == Some(Hop::Second) ==> p.child_cursor < p.children.len()
}

/// The first position from `from` on of a child that is no parent yet, or
/// the number of children where there is none.
pub open spec fn next_child(rows: Rows, children: Seq<Id>, from: int) -> int
    decreases children.len() - from,
{
    if from >= children.len() {
        children.len() as int
    } else if has_key(rows, children[from]) {
        next_child(rows, children, from + 1)
    } else {
        from
    }
}

/// The first position from `from` on of an entry that is no parent yet and
/// has a positive descendant count, or the number of entries where there is
/// none.
pub open spec fn next_entry(rows: Rows, entries: Seq<(Id, Option<i64>)>, from: int) -> int
    decreases entries.len() - from,
{
    if from >= entries.len() {
        entries.len() as int
    } else if !has_key(rows, entries[from].0) && qualifies(entries[from].1) {
        from
    } else {
        next_entry(rows, entries, from + 1)
    }
}

/// The subject of the outstanding query.
pub open spec fn subject(p: Progress) -> Id {
    if p.waiting == Some(Hop::First) {
        p.entries[p.cursor].0
    } else {
        p.children[p.child_cursor]
    }
}

/// The next state and the query to make, `None` when discovery is over.
///
/// An outstanding query is repeated. Otherwise the children of the current
/// parent come first: the next one that is no parent yet is queried. Then
/// the snapshot is searched for the next entry that is no parent yet and has
/// descendants; it is queried unless the cap is reached, which ends the
/// discovery as the end of the snapshot does.
pub open spec fn next_query_spec(p: Progress, rows: Rows) -> (Progress, Option<Id>) {
    if p.waiting is Some {
        (p, Some(subject(p)))
    } else {
        let c = next_child(rows, p.children, p.child_cursor);
        if c < p.children.len() {
            (Progress { child_cursor: c, waiting: Some(Hop::Second), ..p }, Some(p.children[c]))
        } else {
            let e = next_entry(rows, p.entries, p.cursor);
            if e < p.entries.len() && p.processed < p.cap {
                (
                    Progress {
                        child_cursor: c,
                        cursor: e,
                        processed: p.processed + 1,
                        waiting: Some(Hop::First),
                        ..p
                    },
                    Some(p.entries[e].0),
                )
            } else {
                (Progress { child_cursor: c, cursor: p.entries.len() as int, ..p }, None)
            }
        }
    }
}

/// The next state and the rows once `answer` has come for the outstanding
/// query: each identifier of the answer becomes a child of the query's
/// subject. The answer to a first-hop query becomes the list of children to
/// look at; the answer to a second-hop query leads to no further query.
/// With no query outstanding nothing changes.
pub open spec fn record_spec(p: Progress, rows: Rows, answer: Seq<Id>) -> (Progress, Rows) {
    match p.waiting {
        None => (p, rows),
        Some(Hop::First) => (
            Progress {
                children: answer,
                child_cursor: 0,
                cursor: p.cursor + 1,
                waiting: None,
                ..p
            },
            with_edges(rows, subject(p), answer),
        ),
        Some(Hop::Second) => (
            Progress { child_cursor: p.child_cursor + 1, waiting: None, ..p },
            with_edges(rows, subject(p), answer),
        ),
    }
}

/// A discovery from a state on: the queries that were made, each with its
/// hop, and the state and the rows at the end.
pub struct Trace {
    pub queries: Seq<(Id, Hop)>,
    pub progress: Progress,
    pub rows: Rows,
}

/// The discovery that makes its queries one after the other and gets
/// `answers` for them, first to last, until the discovery is over or the
/// answers have run out.
pub open spec fn run(p: Progress, rows: Rows, answers: Seq<Seq<Id>>) -> Trace
    decreases answers.len(),
{
    let (asked, query) = next_query_spec(p, rows);
    if query is None {
        Trace { queries: Seq::empty(), progress: asked, rows }
    } else if answers.len() == 0 {
        Trace { queries: seq![(query->0, asked.waiting->0)], progress: asked, rows }
    } else {
        let (told, merged) = record_spec(asked, rows, answers[0]);
        let rest = run(told, merged, answers.skip(1));
        Trace { queries: seq![(query->0, asked.waiting->0)] + rest.queries, ..rest }
    }
}

/// The number of first-hop queries among `queries`.
pub open spec fn first_hops(queries: Seq<(Id, Hop)>) -> nat
    decreases queries.len(),
{
    if queries.len() == 0 {
        0
    } else if queries[0].1 == Hop::First {
        1 + first_hops(queries.skip(1))
    } else {
        first_hops(queries.skip(1))
    }
}

/// The rows after each answer has been written under the subject of its
/// query.
pub open spec fn written(rows: Rows, queries: Seq<(Id, Hop)>, answers: Seq<Seq<Id>>) -> Rows
    decreases answers.len(),
{
    if queries.len() == 0 || answers.len() == 0 {
        rows
    } else {
        written(with_edges(rows, queries[0].0, answers[0]), queries.skip(1), answers.skip(1))
    }
}

/// Where the search for the next child stops.
pub proof fn lemma_next_child(rows: Rows, children: Seq<Id>, from: int)
    requires
        0 <= from <= children.len(),
    ensures
        from <= next_child(rows, children, from) <= children.len(),
        next_child(rows, children, from) < children.len() ==> !has_key(
            rows,
            children[next_child(rows, children, from)],
        ),
        forall|k: int|
            from <= k < next_child(rows, children, from) ==> has_key(rows, #[trigger] children[k]),
    decreases children.len() - from,
{
    if from < children.len() && has_key(rows, children[from]) {
        lemma_next_child(rows, children, from + 1);
    }
}

/// Where the search for the next entry stops.
pub proof fn lemma_next_entry(rows: Rows, entries: Seq<(Id, Option<i64>)>, from: int)
    requires
        0 <= from <= entries.len(),
    ensures
        from <= next_entry(rows, entries, from) <= entries.len(),
        next_entry(rows, entries, from) < entries.len() ==> {
            &&& !has_key(rows, entries[next_entry(rows, entries, from)].0)
            &&& qualifies(entries[next_entry(rows, entries, from)].1)
        },
        forall|k: int|
            from <= k < next_entry(rows, entries, from) ==> has_key(rows, (#[trigger] entries[k]).0)
                || !qualifies(entries[k].1),
    decreases entries.len() - from,
{
    if from < entries.len() && !(!has_key(rows, entries[from].0) && qualifies(entries[from].1)) {
        lemma_next_entry(rows, entries, from + 1);
    }
}

/// A step of the machine keeps the state well formed, the rows well formed
/// and the snapshot and the cap as they are; recording an answer leaves no
/// query outstanding and loses no parent.
pub proof fn lemma_step(p: Progress, rows: Rows, answer: Seq<Id>)
    requires
        progress_wf(p),
    ensures
        progress_wf(next_query_spec(p, rows).0),
        next_query_spec(p, rows).0.entries == p.entries,
        next_query_spec(p, rows).0.cap == p.cap,
        next_query_spec(p, rows).0.children == p.children,
        next_query_spec(p, rows).1 is Some <==> next_query_spec(p, rows).0.waiting is Some,
        next_query_spec(p, rows).1 is Some ==> next_query_spec(p, rows).1->0 == subject(
            next_query_spec(p, rows).0,
        ),
        progress_wf(record_spec(p, rows, answer).0),
        record_spec(p, rows, answer).0.entries == p.entries,
        record_spec(p, rows, answer).0.cap == p.cap,
        record_spec(p, rows, answer).0.processed == p.processed,
        record_spec(p, rows, answer).0.waiting is None,
        rows_wf(rows) ==> rows_wf(record_spec(p, rows, answer).1),
        rows_wf(rows) ==> forall|id: Id|
            has_key(rows, id) ==> has_key(record_spec(p, rows, answer).1, id),
{
    lemma_next_child(rows, p.children, p.child_cursor);
    lemma_next_entry(rows, p.entries, p.cursor);
    if rows_wf(rows) {
        lemma_with_edges_effect(rows, subject(p), answer);
    }
}

/// A discovery that is over stays over, whatever becomes of the graph: what
/// the cap or an earlier parent kept from being queried waits for a later
/// cycle.
pub proof fn lemma_finished_stays_finished(p: Progress, rows: Rows, later: Rows)
    requires
        progress_wf(p),
        next_query_spec(p, rows).1 is None,
    ensures
        next_query_spec(next_query_spec(p, rows).0, later) == (
            next_query_spec(p, rows).0,
            None::<Id>,
        ),
{
    lemma_next_child(rows, p.children, p.child_cursor);
    lemma_next_entry(rows, p.entries, p.cursor);
}

/// No query is made for an identifier that is a parent when the discovery
/// starts: neither as an entry of the snapshot nor as a descendant of one.
pub proof fn lemma_known_parent_is_not_queried(
    p: Progress,
    rows: Rows,
    answers: Seq<Seq<Id>>,
    id: Id,
)
    requires
        progress_wf(p),
        p.waiting is None,
        rows_wf(rows),
        has_key(rows, id),
    ensures
        forall|i: int|
            0 <= i < run(p, rows, answers).queries.len() ==> (#[trigger] run(
                p,
                rows,
                answers,
            ).queries[i]).0 != id,
    decreases answers.len(),
{
    let (asked, query) = next_query_spec(p, rows);
    lemma_next_child(rows, p.children, p.child_cursor);
    lemma_next_entry(rows, p.entries, p.cursor);
    lemma_step(p, rows, Seq::empty());
    if query is Some && answers.len() > 0 {
        let (told, merged) = record_spec(asked, rows, answers[0]);
        lemma_step(asked, rows, answers[0]);
        lemma_known_parent_is_not_queried(told, merged, answers.skip(1), id);
        let rest = run(told, merged, answers.skip(1));
        let all = run(p, rows, answers).queries;
        assert forall|i: int| 0 <= i < all.len() implies (#[trigger] all[i]).0 != id by {
            if i > 0 {
                assert(all[i] == rest.queries[i - 1]);
            }
        }
    }
}

/// A discovery newly processes no more parents than its cap allows: the
/// first-hop queries of a run are at most as many as the cap leaves.
pub proof fn lemma_cap_is_kept(p: Progress, rows: Rows, answers: Seq<Seq<Id>>)
    requires
        progress_wf(p),
        p.waiting is None,
    ensures
        first_hops(run(p, rows, answers).queries) <= p.cap - p.processed,
        run(p, rows, answers).progress.processed - p.processed == first_hops(
            run(p, rows, answers).queries,
        ),
    decreases answers.len(),
{
    let (asked, query) = next_query_spec(p, rows);
    lemma_step(p, rows, Seq::empty());
    let all = run(p, rows, answers).queries;
    let step: int = if asked.waiting == Some(Hop::First) {
        1
    } else {
        0
    };
    assert(asked.processed == p.processed + step);
    if query is None {
    } else if answers.len() == 0 {
        assert(all.skip(1) =~= Seq::<(Id, Hop)>::empty());
        assert(first_hops(all) == step + first_hops(all.skip(1)));
    } else {
        let (told, merged) = record_spec(asked, rows, answers[0]);
        lemma_step(asked, rows, answers[0]);
        lemma_cap_is_kept(told, merged, answers.skip(1));
        let rest = run(told, merged, answers.skip(1));
        assert(all.skip(1) =~= rest.queries);
        assert(first_hops(all) == step + first_hops(all.skip(1)));
    }
}

/// Every first-hop query asks about an entry of the snapshot that has a
/// positive descendant count.
pub proof fn lemma_first_hop_asks_an_entry(p: Progress, rows: Rows, answers: Seq<Seq<Id>>, i: int)
    requires
        progress_wf(p),
        p.waiting is None,
        0 <= i < run(p, rows, answers).queries.len(),
        run(p, rows, answers).queries[i].1 == Hop::First,
    ensures
        exists|e: int|
            0 <= e < p.entries.len() && (#[trigger] p.entries[e]).0 == run(
                p,
                rows,
                answers,
            ).queries[i].0 && qualifies(p.entries[e].1),
    decreases answers.len(),
{
    let (asked, query) = next_query_spec(p, rows);
    lemma_next_child(rows, p.children, p.child_cursor);
    lemma_next_entry(rows, p.entries, p.cursor);
    lemma_step(p, rows, Seq::empty());
    let all = run(p, rows, answers).queries;
    if i == 0 {
        let e = asked.cursor;
        assert(p.entries[e].0 == all[0].0);
    } else {
        let (told, merged) = record_spec(asked, rows, answers[0]);
        lemma_step(asked, rows, answers[0]);
        let rest = run(told, merged, answers.skip(1));
        assert(all[i] == rest.queries[i - 1]);
        lemma_first_hop_asks_an_entry(told, merged, answers.skip(1), i - 1);
    }
}

/// Discovery goes two hops and no further: every second-hop query asks
/// about an identifier from the answer to an earlier first-hop query (or,
/// in a run that starts midway, about one of the children still to look
/// at). No query is made on account of the answer to a second-hop query.
pub proof fn lemma_second_hop_asks_a_child(p: Progress, rows: Rows, answers: Seq<Seq<Id>>, i: int)
    requires
        progress_wf(p),
        p.waiting is None,
        0 <= i < run(p, rows, answers).queries.len(),
        run(p, rows, answers).queries[i].1 == Hop::Second,
    ensures
        p.children.contains(run(p, rows, answers).queries[i].0) || exists|j: int|
            0 <= j < i && j < answers.len() && (#[trigger] run(p, rows, answers).queries[j]).1
                == Hop::First && answers[j].contains(run(p, rows, answers).queries[i].0),
    decreases answers.len(),
{
    let (asked, query) = next_query_spec(p, rows);
    lemma_next_child(rows, p.children, p.child_cursor);
    lemma_next_entry(rows, p.entries, p.cursor);
    lemma_step(p, rows, Seq::empty());
    let all = run(p, rows, answers).queries;
    let id = all[i].0;
    if i == 0 {
        assert(p.children[asked.child_cursor] == id);
    } else {
        let (told, merged) = record_spec(asked, rows, answers[0]);
        lemma_step(asked, rows, answers[0]);
        let rest = run(told, merged, answers.skip(1));
        assert(all[i] == rest.queries[i - 1]);
        lemma_second_hop_asks_a_child(told, merged, answers.skip(1), i - 1);
        if told.children.contains(id) {
            if asked.waiting == Some(Hop::First) {
                assert(all[0].1 == Hop::First);
                assert(answers[0].contains(id));
            }
        } else {
            let j = choose|j: int|
                0 <= j < i - 1 && j < answers.skip(1).len() && (#[trigger] rest.queries[j]).1
                    == Hop::First && answers.skip(1)[j].contains(id);
            assert(all[j + 1] == rest.queries[j]);
            assert(answers[j + 1] == answers.skip(1)[j]);
        }
    }
}

/// The only edges that a discovery writes lead from the subject of a query
/// to the identifiers of its answer: nothing is written under a parent but
/// what the node named as that parent's own descendants.
pub proof fn lemma_run_writes_answers(p: Progress, rows: Rows, answers: Seq<Seq<Id>>)
    requires
        progress_wf(p),
        p.waiting is None,
    ensures
        run(p, rows, answers).rows == written(rows, run(p, rows, answers).queries, answers),
    decreases answers.len(),
{
    let (asked, query) = next_query_spec(p, rows);
    lemma_step(p, rows, Seq::empty());
    let all = run(p, rows, answers).queries;
    if query is Some && answers.len() > 0 {
        let (told, merged) = record_spec(asked, rows, answers[0]);
        lemma_step(asked, rows, answers[0]);
        lemma_run_writes_answers(told, merged, answers.skip(1));
        let rest = run(told, merged, answers.skip(1));
        assert(all.skip(1) =~= rest.queries);
    }
}

/// What an answer holds: a failed query counts as one without descendants.
pub open spec fn answer_ids(answer: Option<Vec<String>>) -> Seq<Id> {
    match answer {
        Some(list) => texts(list@),
        None => Seq::empty(),
    }
}

/// The text of a query.
pub open spec fn query_id(query: Option<String>) -> Option<Id> {
    match query {
        Some(id) => Some(id@),
        None => None,
    }
}

/// A discovery in progress.
pub struct Discovery {
    membership: Vec<PoolEntry>,
    cursor: usize,
    processed: usize,
    cap: usize,
    children: Vec<String>,
    child_cursor: usize,
    waiting: Option<Hop>,
}

impl Discovery {
    /// The model of this discovery.
    pub closed spec fn progress(&self) -> Progress {
        Progress {
            entries: entries_of(self.membership@),
            cursor: self.cursor as int,
            processed: self.processed as int,
            cap: self.cap as int,
            children: texts(self.children@),
            child_cursor: self.child_cursor as int,
            waiting: self.waiting,
        }
    }

    /// The snapshot that this discovery works on.
    pub closed spec fn snapshot(&self) -> Seq<PoolEntry> {
        self.membership@
    }

    /// The discovery is in a state that its model accepts.
    pub open spec fn wf(&self) -> bool {
        &&& progress_wf(self.progress())
        &&& self.progress().entries == entries_of(self.snapshot())
    }

    /// A discovery over `membership` that newly processes at most `cap`
    /// parents.
    pub fn with_cap(membership: Vec<PoolEntry>, cap: usize) -> (discovery: Discovery)
        ensures
            discovery.wf(),
            discovery.snapshot() == membership@,
            discovery.progress() == start(entries_of(membership@), cap as int),
    {
        let discovery = Discovery {
            membership,
            cursor: 0,
            processed: 0,
            cap,
            children: Vec::new(),
            child_cursor: 0,
            waiting: None,
        };
        assert(texts(discovery.children@) =~= Seq::<Id>::empty());
        discovery
    }

    /// A discovery over `membership` with the usual cap.
    pub fn new(membership: Vec<PoolEntry>) -> (discovery: Discovery)
        ensures
            discovery.wf(),
            discovery.snapshot() == membership@,
            discovery.progress() == start(entries_of(membership@), DISCOVERY_CAP as int),
    {
        Discovery::with_cap(membership, DISCOVERY_CAP)
    }

    /// The start of a cycle: a discovery over the snapshot that was fetched,
    /// none where the fetch failed. A cycle without a snapshot is given up;
    /// the graph is not touched.
    pub fn begin(fetched: Option<Vec<PoolEntry>>) -> (discovery: Option<Discovery>)
        ensures
            discovery is Some <==> fetched is Some,
            discovery is Some ==> {
                &&& discovery->0.wf()
                &&& discovery->0.snapshot() == fetched->0@
                &&& discovery->0.progress() == start(
                    entries_of(fetched->0@),
                    DISCOVERY_CAP as int,
                )
            },
    {
        match fetched {
            Some(membership) => Some(Discovery::new(membership)),
            None => None,
        }
    }

    /// The end of a cycle: prunes the graph of the parents that the snapshot
    /// lacks and returns the number of parents that are left.
    pub fn finish(self, graph: &mut TxGraph) -> (parents: usize)
        requires
            old(graph).wf(),
        ensures
            final(graph).wf(),
            final(graph).rows() == pruned(old(graph).rows(), member_ids(self.snapshot())),
            parents == final(graph).rows().len(),
    {
        graph.clean_transactions(&self.membership);
        graph.len()
    }

    /// The snapshot, for the pruning that follows the discovery.
    pub fn membership(&self) -> (entries: &Vec<PoolEntry>)
        ensures
            entries@ == self.snapshot(),
    {
        &self.membership
    }

    /// The number of parents newly processed so far.
    pub fn processed(&self) -> (n: usize)
        ensures
            n == self.progress().processed,
    {
        self.processed
    }

    /// The next query to make, `None` when the discovery is over.
    pub fn next_query(&mut self, graph: &TxGraph) -> (query: Option<String>)
        requires
            old(self).wf(),
            graph.wf(),
        ensures
            final(self).wf(),
            final(self).snapshot() == old(self).snapshot(),
            final(self).progress() == next_query_spec(old(self).progress(), graph.rows()).0,
            query_id(query) == next_query_spec(old(self).progress(), graph.rows()).1,
    {
        let ghost p = self.progress();
        let ghost rows = graph.rows();
        match self.waiting {
            Some(Hop::First) => {
                return Some(self.membership[self.cursor].id.clone());
            },
            Some(Hop::Second) => {
                return Some(self.children[self.child_cursor].clone());
            },
            None => {},
        }
        let mut c: usize = self.child_cursor;
        while c < self.children.len() && graph.contains_key(&self.children[c])
            invariant
                self.child_cursor <= c <= self.children.len(),
                graph.wf(),
                rows == graph.rows(),
                next_child(rows, texts(self.children@), c as int) == next_child(
                    rows,
                    texts(self.children@),
                    self.child_cursor as int,
                ),
            decreases self.children.len() - c,
        {
            c += 1;
        }
        self.child_cursor = c;
        if c < self.children.len() {
            self.waiting = Some(Hop::Second);
            return Some(self.children[c].clone());
        }
        let mut e: usize = self.cursor;
        while e < self.membership.len() && (graph.contains_key(&self.membership[e].id)
            || !self.membership[e].has_descendants())
            invariant
                self.cursor <= e <= self.membership.len(),
                graph.wf(),
                rows == graph.rows(),
                next_entry(rows, entries_of(self.membership@), e as int) == next_entry(
                    rows,
                    entries_of(self.membership@),
                    self.cursor as int,
                ),
            decreases self.membership.len() - e,
        {
            e += 1;
        }
        if e < self.membership.len() && self.processed < self.cap {
            self.cursor = e;
            self.processed += 1;
            self.waiting = Some(Hop::First);
            Some(self.membership[e].id.clone())
        } else {
            self.cursor = self.membership.len();
            None
        }
    }

    /// Records the answer to the outstanding query; `None` stands for a
    /// query that failed.
    pub fn record_answer(&mut self, graph: &mut TxGraph, answer: Option<Vec<String>>)
        requires
            old(self).wf(),
            old(graph).wf(),
        ensures
            final(self).wf(),
            final(graph).wf(),
            final(self).snapshot() == old(self).snapshot(),
            final(self).progress() == record_spec(
                old(self).progress(),
                old(graph).rows(),
                answer_ids(answer),
            ).0,
            final(graph).rows() == record_spec(
                old(self).progress(),
                old(graph).rows(),
                answer_ids(answer),
            ).1,
    {
        let found = match answer {
            Some(list) => list,
            None => Vec::new(),
        };
        assert(texts(found@) =~= answer_ids(answer));
        match self.waiting {
            None => {},
            Some(Hop::First) => {
                assert(self.cursor < self.membership.len()) by {
                    assert(progress_wf(self.progress()));
                }
                graph.add_edges(&self.membership[self.cursor].id, &found);
                self.children = found;
                self.child_cursor = 0;
                self.cursor += 1;
                self.waiting = None;
            },
            Some(Hop::Second) => {
                assert(self.child_cursor < self.children.len()) by {
                    assert(progress_wf(self.progress()));
                }
                graph.add_edges(&self.children[self.child_cursor], &found);
                self.child_cursor += 1;
                self.waiting = None;
            },
        }
    }
}

} // verus!
