//! Sets of transactions: their order, the view they amount to, and their
//! identity.
use vstd::prelude::*;
use vstd::string::*;
use vstd::utf8::*;
use vstd::view::View as _;

use crate::collections::{keys_of, lists, ordered, TextMap, TextSet, Value};
use crate::error::{first_problem, lemma_first_problem_step, outcome, plain, verdict, Error, ErrorV, Problem};
use crate::json::Json;
use crate::objects::{object_hash, object_id, Snapshot};
use crate::transactions::{dependencies_of, parents_check, transaction_id, Edit, EditV, Transaction, TransactionV};
use crate::views::{heads_of, recorded, HeadsV, View, ViewV};

verus! {

/// Transactions by identity, as a mathematical value.
pub type GraphV = Map<Seq<char>, TransactionV>;

/// Transactions by identity.
#[derive(Debug)]
pub struct Graph {
    pub transactions: TextMap<Transaction>,
}

impl Clone for Graph {
    fn clone(&self) -> (result: Self)
        ensures
            result.transactions@ == self.transactions@,
    {
        Graph { transactions: self.transactions.copied() }
    }
}

impl Default for Graph {
    fn default() -> (graph: Graph)
        ensures
            graph.transactions@ == Map::<Seq<char>, TransactionV>::empty(),
    {
        Graph { transactions: TextMap::new() }
    }
}

// Order

/// What a transaction builds on beyond what is known already.
pub open spec fn outstanding(graph: GraphV, known: Set<Seq<char>>, id: Seq<char>) -> Set<Seq<char>> {
    dependencies_of(graph[id]).difference(known)
}

/// The transactions that can come next once `done` have come.
pub open spec fn ready_after(graph: GraphV, known: Set<Seq<char>>, done: Seq<Seq<char>>) -> Set<Seq<char>> {
    Set::new(
        |id: Seq<char>|
            graph.contains_key(id) && !done.contains(id) && forall|d: Seq<char>| #[trigger]
                outstanding(graph, known, id).contains(d) ==> done.contains(d),
    )
}

/// Continue `done` by the least transaction that can come next, again and
/// again.
pub open spec fn schedule(graph: GraphV, known: Set<Seq<char>>, done: Seq<Seq<char>>) -> Seq<Seq<char>>
    decreases graph.dom().len() - done.len(),
{
    let next = ready_after(graph, known, done);
    if next == Set::<Seq<char>>::empty() || done.len() >= graph.dom().len() {
        done
    } else {
        schedule(graph, known, done.push(ordered(next)[0]))
    }
}

/// The order of a graph beyond what is known: dependencies first, and among
/// independent transactions the least identity first.
pub open spec fn ordering(graph: GraphV, known: Set<Seq<char>>) -> Result<Seq<Seq<char>>, ErrorV> {
    let order = schedule(graph, known, Seq::empty());
    if order.len() == graph.dom().len() {
        Ok(order)
    } else {
        Err(plain(Problem::UnorderedGraph))
    }
}

/// The waiting transactions of one dependency.
spec fn kids(children: Map<Seq<char>, Seq<Seq<char>>>, parent: Seq<char>) -> Seq<Seq<char>> {
    if children.contains_key(parent) {
        children[parent]
    } else {
        Seq::empty()
    }
}

/// `children` tells, for the transactions of `seen`, what waits for what.
spec fn waits(
    graph: GraphV,
    known: Set<Seq<char>>,
    seen: Seq<Seq<char>>,
    children: Map<Seq<char>, Seq<Seq<char>>>,
) -> bool {
    &&& forall|p: Seq<char>, id: Seq<char>| #[trigger]
        kids(children, p).contains(id) <==> seen.contains(id) && outstanding(graph, known, id).contains(p)
    &&& forall|p: Seq<char>| #[trigger] kids(children, p).no_duplicates()
}

fn add_child(children: &mut TextMap<Vec<String>>, parent: &String, id: &String)
    ensures
        forall|p: Seq<char>|
            #[trigger] kids(final(children)@, p) == (if p == parent@ {
                kids(old(children)@, p).push(id@)
            } else {
                kids(old(children)@, p)
            }),
{
    let mut list = match children.remove(parent.as_str()) {
        Some(list) => list,
        None => Vec::new(),
    };
    let ghost before_push = list.deep_view();
    assert(before_push =~= kids(old(children)@, parent@));
    list.push(id.clone());
    assert(list.deep_view() =~= before_push.push(id@));
    children.insert(parent.clone(), list);
    assert forall|p: Seq<char>|
        #[trigger] kids(children@, p) == (if p == parent@ {
            kids(old(children)@, p).push(id@)
        } else {
            kids(old(children)@, p)
        }) by {}
}

/// What is counted and collected before the first transaction is placed.
struct Pending {
    remaining: TextMap<usize>,
    children: TextMap<Vec<String>>,
    ready: TextSet,
}

spec fn counted(
    graph: GraphV,
    known: Set<Seq<char>>,
    seen: Seq<Seq<char>>,
    done: Seq<Seq<char>>,
    remaining: Map<Seq<char>, usize>,
) -> bool {
    forall|id: Seq<char>| #[trigger]
        seen.contains(id) ==> remaining.contains_key(id) && remaining[id] == outstanding(
            graph,
            known,
            id,
        ).difference(done.to_set()).len() && outstanding(graph, known, id).finite()
}

impl Graph {
    fn add_parents(
        &self,
        known: Ghost<Set<Seq<char>>>,
        seen: Ghost<Seq<Seq<char>>>,
        id: &String,
        parents: &TextSet,
        children: &mut TextMap<Vec<String>>,
    )
        requires
            waits(self.transactions@, known@, seen@, old(children)@),
            parents@ == outstanding(self.transactions@, known@, id@),
            !seen@.contains(id@),
        ensures
            waits(self.transactions@, known@, seen@.push(id@), final(children)@),
    {
        let n = parents.len();
        let ghost list = ordered(parents@);
        let mut i: usize = 0;
        let ghost start = children@;
        while i < n
            invariant
                i <= n,
                n == parents@.len(),
                n == list.len(),
                list == ordered(parents@),
                lists(list, parents@),
                waits(self.transactions@, known@, seen@, start),
                parents@ == outstanding(self.transactions@, known@, id@),
                !seen@.contains(id@),
                forall|p: Seq<char>| #[trigger]
                    kids(children@, p) == (if list.take(i as int).contains(p) {
                        kids(start, p).push(id@)
                    } else {
                        kids(start, p)
                    }),
            decreases n - i,
        {
            let ghost so_far = children@;
            let parent = parents.at(i);
            proof {
                assert(list.take(i + 1) =~= list.take(i as int).push(parent@));
                assert(!list.take(i as int).contains(parent@)) by {
                    if list.take(i as int).contains(parent@) {
                        let j = choose|j: int| 0 <= j < i && list.take(i as int)[j] == parent@;
                        assert(list[j] == parent@);
                        crate::text::lemma_before_irreflexive(parent@);
                        assert(crate::text::before(list[j], list[i as int]));
                    }
                }
            }
            add_child(children, parent, id);
            proof {
                assert forall|p: Seq<char>| #[trigger]
                    kids(children@, p) == (if list.take(i + 1).contains(p) {
                        kids(start, p).push(id@)
                    } else {
                        kids(start, p)
                    }) by {
                    crate::collections::lemma_push_contains(list.take(i as int), parent@, p);
                    assert(kids(so_far, p) == (if list.take(i as int).contains(p) {
                        kids(start, p).push(id@)
                    } else {
                        kids(start, p)
                    }));
                }
            }
            i += 1;
        }
        proof {
            assert(list.take(n as int) =~= list);
            assert forall|p: Seq<char>, x: Seq<char>| #[trigger]
                kids(children@, p).contains(x) <==> seen@.push(id@).contains(x) && outstanding(
                    self.transactions@,
                    known@,
                    x,
                ).contains(p) by {
                crate::collections::lemma_push_contains(seen@, id@, x);
                crate::collections::lemma_push_contains(kids(start, p), id@, x);
                assert(kids(start, p).contains(x) <==> seen@.contains(x) && outstanding(self.transactions@, known@, x).contains(p));
                assert(list.contains(p) <==> parents@.contains(p));
            }
            assert forall|p: Seq<char>| #[trigger] kids(children@, p).no_duplicates() by {
                assert(kids(start, p).no_duplicates());
                assert(kids(start, p).contains(id@) <==> seen@.contains(id@) && outstanding(
                    self.transactions@,
                    known@,
                    id@,
                ).contains(p));
                let list = kids(children@, p);
                let shorter = kids(start, p);
                assert forall|a: int, b: int| 0 <= a < list.len() && 0 <= b < list.len() && a != b implies list[a]
                    != list[b] by {
                    if a < shorter.len() {
                        assert(shorter.contains(shorter[a]));
                    }
                    if b < shorter.len() {
                        assert(shorter.contains(shorter[b]));
                    }
                }
            }
        }
    }

    fn prepare(&self, known: &TextSet) -> (result: Pending)
        ensures
            waits(self.transactions@, known@, keys_of(self.transactions@), result.children@),
            counted(self.transactions@, known@, keys_of(self.transactions@), Seq::empty(), result.remaining@),
            result.ready@ == ready_after(self.transactions@, known@, Seq::empty()),
    {
        let mut remaining: TextMap<usize> = TextMap::new();
        let mut children: TextMap<Vec<String>> = TextMap::new();
        let mut ready = TextSet::new();
        let n = self.transactions.len();
        let mut i: usize = 0;
        let ghost keys = keys_of(self.transactions@);
        let ghost none = Seq::<Seq<char>>::empty();
        proof {
            assert forall|p: Seq<char>, id: Seq<char>| #[trigger]
                kids(children@, p).contains(id) <==> keys.take(0).contains(id) && outstanding(
                    self.transactions@,
                    known@,
                    id,
                ).contains(p) by {}
        }
        while i < n
            invariant
                i <= n,
                n == self.transactions@.dom().len(),
                n == keys.len(),
                keys == keys_of(self.transactions@),
                lists(keys, self.transactions@.dom()),
                none == Seq::<Seq<char>>::empty(),
                waits(self.transactions@, known@, keys.take(i as int), children@),
                counted(self.transactions@, known@, keys.take(i as int), none, remaining@),
                forall|id: Seq<char>| #[trigger]
                    ready@.contains(id) <==> keys.take(i as int).contains(id) && ready_after(
                        self.transactions@,
                        known@,
                        none,
                    ).contains(id),
            decreases n - i,
        {
            let ghost counts = remaining@;
            let ghost waiting = ready@;
            let ghost seen = keys.take(i as int);
            let id = self.transactions.key_at(i);
            let parents = self.transactions.value_at(i).dependencies().difference(known);
            proof {
                assert(parents@ == outstanding(self.transactions@, known@, id@));
                assert(keys.take(i + 1) =~= seen.push(id@));
                assert(!seen.contains(id@)) by {
                    if seen.contains(id@) {
                        let j = choose|j: int| 0 <= j < i && seen[j] == id@;
                        assert(keys[j] == id@);
                        crate::text::lemma_before_irreflexive(id@);
                        assert(crate::text::before(keys[j], keys[i as int]));
                    }
                }
                assert(outstanding(self.transactions@, known@, id@).difference(none.to_set()) =~= outstanding(
                    self.transactions@,
                    known@,
                    id@,
                ));
            }
            remaining.insert(id.clone(), parents.len());
            if parents.is_empty() {
                ready.insert(id.clone());
            }
            self.add_parents(Ghost(known@), Ghost(seen), id, &parents, &mut children);
            proof {
                assert forall|x: Seq<char>| #[trigger] keys.take(i + 1).contains(x) implies remaining@.contains_key(x)
                    && remaining@[x] == outstanding(self.transactions@, known@, x).difference(none.to_set()).len()
                    && outstanding(self.transactions@, known@, x).finite() by {
                    crate::collections::lemma_push_contains(seen, id@, x);
                    if x != id@ {
                        assert(seen.contains(x));
                    }
                }
                assert forall|x: Seq<char>| #[trigger]
                    ready@.contains(x) <==> keys.take(i + 1).contains(x) && ready_after(self.transactions@, known@, none).contains(
                        x,
                    ) by {
                    crate::collections::lemma_push_contains(seen, id@, x);
                    assert(waiting.contains(x) <==> seen.contains(x) && ready_after(self.transactions@, known@, none).contains(x));
                    if x == id@ {
                        if parents@ == Set::<Seq<char>>::empty() {
                            assert(ready_after(self.transactions@, known@, none).contains(x));
                        } else if ready_after(self.transactions@, known@, none).contains(x) {
                            assert(parents@ =~= Set::<Seq<char>>::empty());
                        }
                    }
                }
            }
            i += 1;
        }
        proof {
            assert(keys.take(n as int) =~= keys);
            assert forall|id: Seq<char>| ready@.contains(id) <==> ready_after(self.transactions@, known@, none).contains(id) by {
                assert(self.transactions@.dom().contains(id) <==> keys.contains(id));
            }
            assert(ready@ =~= ready_after(self.transactions@, known@, none));
        }
        Pending { remaining, children, ready }
    }
}

/// Everything that `done` builds on is known or part of it.
spec fn closed_under(graph: GraphV, known: Set<Seq<char>>, done: Seq<Seq<char>>) -> bool {
    forall|x: Seq<char>, d: Seq<char>|
        done.contains(x) && #[trigger] outstanding(graph, known, x).contains(d) ==> done.contains(d)
}

proof fn lemma_placed(graph: GraphV, known: Set<Seq<char>>, done: Seq<Seq<char>>, id: Seq<char>, x: Seq<char>)
    requires
        ready_after(graph, known, done).contains(id),
        outstanding(graph, known, x).finite(),
    ensures
        ({
            let waiting = outstanding(graph, known, x).difference(done.to_set());
            let later = outstanding(graph, known, x).difference(done.push(id).to_set());
            &&& later.finite() && waiting.finite()
            &&& outstanding(graph, known, x).contains(id) ==> waiting.contains(id) && later.len() == waiting.len() - 1
            &&& !outstanding(graph, known, x).contains(id) ==> later == waiting
        }),
{
    let waiting = outstanding(graph, known, x).difference(done.to_set());
    let later = outstanding(graph, known, x).difference(done.push(id).to_set());
    assert forall|d: Seq<char>| later.contains(d) <==> waiting.contains(d) && d != id by {
        crate::collections::lemma_push_contains(done, id, d);
    }
    assert(later =~= waiting.remove(id));
    if !waiting.contains(id) {
        assert(later =~= waiting);
    }
}

proof fn lemma_nothing_left(graph: GraphV, known: Set<Seq<char>>, done: Seq<Seq<char>>, x: Seq<char>)
    requires
        outstanding(graph, known, x).finite(),
    ensures
        outstanding(graph, known, x).difference(done.to_set()).len() == 0 <==> forall|d: Seq<char>| #[trigger]
            outstanding(graph, known, x).contains(d) ==> done.contains(d),
{
    let left = outstanding(graph, known, x).difference(done.to_set());
    if left.len() == 0 {
        assert(left =~= Set::<Seq<char>>::empty());
        assert forall|d: Seq<char>| #[trigger] outstanding(graph, known, x).contains(d) implies done.contains(d) by {
            if !done.contains(d) {
                assert(left.contains(d));
            }
        }
    } else if forall|d: Seq<char>| #[trigger] outstanding(graph, known, x).contains(d) ==> done.contains(d) {
        assert(left =~= Set::<Seq<char>>::empty());
    }
}

impl Graph {
    fn release(
        &self,
        known: Ghost<Set<Seq<char>>>,
        done: Ghost<Seq<Seq<char>>>,
        id: &String,
        children: &TextMap<Vec<String>>,
        remaining: &mut TextMap<usize>,
        ready: &mut TextSet,
    )
        requires
            lists(keys_of(self.transactions@), self.transactions@.dom()),
            ready_after(self.transactions@, known@, done@).contains(id@),
            waits(self.transactions@, known@, keys_of(self.transactions@), children@),
            counted(self.transactions@, known@, keys_of(self.transactions@), done@, old(remaining)@),
            old(ready)@ == ready_after(self.transactions@, known@, done@).remove(id@),
            closed_under(self.transactions@, known@, done@),
        ensures
            counted(self.transactions@, known@, keys_of(self.transactions@), done@.push(id@), final(remaining)@),
            final(ready)@ == ready_after(self.transactions@, known@, done@.push(id@)),
            closed_under(self.transactions@, known@, done@.push(id@)),
    {
        let ghost keys = keys_of(self.transactions@);
        let ghost after = done@.push(id@);
        let ghost list = kids(children@, id@);
        let ghost start = ready@;
        proof {
            assert forall|x: Seq<char>, d: Seq<char>|
                after.contains(x) && #[trigger] outstanding(self.transactions@, known@, x).contains(d) implies after.contains(d) by {
                crate::collections::lemma_push_contains(done@, id@, x);
                crate::collections::lemma_push_contains(done@, id@, d);
            }
            assert forall|x: Seq<char>| list.contains(x) <==> keys.contains(x) && outstanding(
                self.transactions@,
                known@,
                x,
            ).contains(id@) by {
                assert(kids(children@, id@).contains(x) <==> keys.contains(x) && outstanding(
                    self.transactions@,
                    known@,
                    x,
                ).contains(id@));
            }
            assert(kids(children@, id@).no_duplicates());
        }
        if let Some(dependents) = children.get(id.as_str()) {
            let mut j: usize = 0;
            assert(list == dependents.deep_view());
            while j < dependents.len()
                invariant
                    j <= dependents@.len(),
                    list == dependents.deep_view(),
                    list.no_duplicates(),
                    keys == keys_of(self.transactions@),
                    after == done@.push(id@),
                    ready_after(self.transactions@, known@, done@).contains(id@),
                    forall|x: Seq<char>| #[trigger] list.contains(x) <==> keys.contains(x) && outstanding(
                        self.transactions@,
                        known@,
                        x,
                    ).contains(id@),
                    forall|x: Seq<char>| #[trigger]
                        keys.contains(x) ==> remaining@.contains_key(x) && outstanding(self.transactions@, known@, x).finite()
                            && remaining@[x] == outstanding(self.transactions@, known@, x).difference(
                            (if list.take(j as int).contains(x) {
                                after
                            } else {
                                done@
                            }).to_set(),
                        ).len(),
                    forall|x: Seq<char>| #[trigger]
                        ready@.contains(x) <==> start.contains(x) || (list.take(j as int).contains(x) && outstanding(
                            self.transactions@,
                            known@,
                            x,
                        ).difference(after.to_set()).len() == 0),
                decreases dependents@.len() - j,
            {
                let ghost counts = remaining@;
                let ghost waiting = ready@;
                let child = &dependents[j];
                proof {
                    assert(list[j as int] == child@);
                    assert(list.contains(child@));
                    assert(keys.contains(child@));
                    assert(list.take(j + 1) =~= list.take(j as int).push(child@));
                    assert(!list.take(j as int).contains(child@)) by {
                        if list.take(j as int).contains(child@) {
                            let k = choose|k: int| 0 <= k < j && list.take(j as int)[k] == child@;
                            assert(list[k] == child@);
                        }
                    }
                    lemma_placed(self.transactions@, known@, done@, id@, child@);
                }
                let count: usize = *remaining.get(child.as_str()).unwrap();
                assert(count > 0) by {
                    let left = outstanding(self.transactions@, known@, child@).difference(done@.to_set());
                    if count == 0 {
                        assert(left =~= Set::<Seq<char>>::empty());
                    }
                }
                remaining.insert(child.clone(), count - 1);
                if count - 1 == 0 {
                    ready.insert(child.clone());
                }
                proof {
                    assert forall|x: Seq<char>| #[trigger] keys.contains(x) implies remaining@.contains_key(x)
                        && outstanding(self.transactions@, known@, x).finite() && remaining@[x] == outstanding(
                        self.transactions@,
                        known@,
                        x,
                    ).difference(
                        (if list.take(j + 1).contains(x) {
                            after
                        } else {
                            done@
                        }).to_set(),
                    ).len() by {
                        crate::collections::lemma_push_contains(list.take(j as int), child@, x);
                        assert(counts.contains_key(x));
                    }
                    assert forall|x: Seq<char>| #[trigger]
                        ready@.contains(x) <==> start.contains(x) || (list.take(j + 1).contains(x) && outstanding(
                            self.transactions@,
                            known@,
                            x,
                        ).difference(after.to_set()).len() == 0) by {
                        crate::collections::lemma_push_contains(list.take(j as int), child@, x);
                        assert(waiting.contains(x) <==> start.contains(x) || (list.take(j as int).contains(x)
                            && outstanding(self.transactions@, known@, x).difference(after.to_set()).len() == 0));
                    }
                }
                j += 1;
            }
            assert(list.take(list.len() as int) =~= list);
        }
        proof {
            assert forall|x: Seq<char>| #[trigger] keys.contains(x) implies remaining@.contains_key(x)
                && remaining@[x] == outstanding(self.transactions@, known@, x).difference(after.to_set()).len() && outstanding(
                self.transactions@,
                known@,
                x,
            ).finite() by {
                lemma_placed(self.transactions@, known@, done@, id@, x);
                assert(list.contains(x) <==> keys.contains(x) && outstanding(self.transactions@, known@, x).contains(id@));
            }
            assert forall|x: Seq<char>| ready@.contains(x) <==> ready_after(self.transactions@, known@, after).contains(x) by {
                assert(self.transactions@.dom().contains(x) <==> keys.contains(x));
                assert(list.contains(x) <==> keys.contains(x) && outstanding(self.transactions@, known@, x).contains(id@));
                assert(ready@.contains(x) <==> start.contains(x) || (list.contains(x) && outstanding(
                    self.transactions@,
                    known@,
                    x,
                ).difference(after.to_set()).len() == 0));
                crate::collections::lemma_push_contains(done@, id@, x);
                if keys.contains(x) {
                    lemma_nothing_left(self.transactions@, known@, after, x);
                    lemma_nothing_left(self.transactions@, known@, done@, x);
                    assert forall|d: Seq<char>| after.contains(d) <==> done@.contains(d) || d == id@ by {
                        crate::collections::lemma_push_contains(done@, id@, d);
                    }
                    if outstanding(self.transactions@, known@, x).contains(id@) {
                        assert(!done@.contains(x));
                    }
                }
            }
            assert(ready@ =~= ready_after(self.transactions@, known@, after));
        }
    }

    /// Dependencies first; identities only decide between independent
    /// transactions.
    pub fn ordered(&self) -> (result: Result<Vec<String>, Error>)
        ensures
            outcome(result) == ordering(self.transactions@, Set::empty()),
    {
        let none = TextSet::new();
        self.ordered_after(&none)
    }

    /// Order the transactions where some dependencies are known already.
    pub fn ordered_after(&self, known: &TextSet) -> (result: Result<Vec<String>, Error>)
        ensures
            outcome(result) == ordering(self.transactions@, known@),
    {
        let size = self.transactions.len();
        let pending = self.prepare(known);
        let children = pending.children;
        let mut remaining = pending.remaining;
        let mut ready = pending.ready;
        let mut order: Vec<String> = Vec::new();
        let ghost keys = keys_of(self.transactions@);
        let ghost mut done = Seq::<Seq<char>>::empty();
        assert(order.deep_view() =~= done);
        while !ready.is_empty()
            invariant
                size == self.transactions@.dom().len(),
                self.transactions@.dom().finite(),
                keys == keys_of(self.transactions@),
                lists(keys, self.transactions@.dom()),
                waits(self.transactions@, known@, keys, children@),
                counted(self.transactions@, known@, keys, done, remaining@),
                ready@ == ready_after(self.transactions@, known@, done),
                closed_under(self.transactions@, known@, done),
                order.deep_view() == done,
                done.no_duplicates(),
                forall|x: Seq<char>| #[trigger] done.contains(x) ==> self.transactions@.contains_key(x),
                schedule(self.transactions@, known@, Seq::empty()) == schedule(self.transactions@, known@, done),
                done.len() <= size,
            decreases size - done.len(),
        {
            let waiting = ready.len();
            assert(waiting > 0) by {
                if waiting == 0 {
                    assert(ready@ =~= Set::<Seq<char>>::empty());
                }
            }
            let id = ready.at(0).clone();
            proof {
                assert(ready_after(self.transactions@, known@, done).contains(id@));
                let more = done.push(id@);
                assert forall|a: int, b: int| 0 <= a < more.len() && 0 <= b < more.len() && a != b implies more[a]
                    != more[b] by {
                    if a < done.len() {
                        assert(done.contains(done[a]));
                    }
                    if b < done.len() {
                        assert(done.contains(done[b]));
                    }
                }
                assert forall|x: Seq<char>| #[trigger] more.contains(x) implies self.transactions@.contains_key(x) by {
                    crate::collections::lemma_push_contains(done, id@, x);
                }
                more.unique_seq_to_set();
                assert(more.to_set().subset_of(self.transactions@.dom()));
                vstd::set_lib::lemma_len_subset(more.to_set(), self.transactions@.dom());
            }
            ready.remove(id.as_str());
            self.release(Ghost(known@), Ghost(done), &id, &children, &mut remaining, &mut ready);
            proof {
                done = done.push(id@);
            }
            order.push(id);
            assert(order.deep_view() =~= done);
        }
        assert(schedule(self.transactions@, known@, done) == done);
        assert(order@.len() == done.len());
        if order.len() != size {
            return Err(Error::plain(Problem::UnorderedGraph));
        }
        Ok(order)
    }
}

// Validity

/// What is wrong with one transaction of a graph.
pub open spec fn node_check(graph: GraphV, id: Seq<char>) -> Result<(), ErrorV> {
    if transaction_id(graph[id]) != id {
        Err(plain(Problem::TransactionMismatch))
    } else {
        parents_check(graph[id], graph)
    }
}

/// What is wrong with a graph.
pub open spec fn graph_check(graph: GraphV) -> Result<(), ErrorV> {
    match first_problem(keys_of(graph), |id: Seq<char>| node_check(graph, id)) {
        Err(error) => Err(error),
        Ok(()) => match ordering(graph, Set::empty()) {
            Err(error) => Err(error),
            Ok(_) => Ok(()),
        },
    }
}

impl Graph {
    pub fn validate(&self) -> (result: Result<(), Error>)
        ensures
            verdict(result) == graph_check(self.transactions@),
    {
        let n = self.transactions.len();
        let mut i: usize = 0;
        let ghost keys = keys_of(self.transactions@);
        let ghost check = |id: Seq<char>| node_check(self.transactions@, id);
        assert(keys.skip(0) =~= keys);
        while i < n
            invariant
                i <= n,
                n == self.transactions@.dom().len(),
                n == keys.len(),
                keys == keys_of(self.transactions@),
                check == (|id: Seq<char>| node_check(self.transactions@, id)),
                first_problem(keys, check) == first_problem(keys.skip(i as int), check),
            decreases n - i,
        {
            proof {
                lemma_first_problem_step(keys, check, i as int);
            }
            let id = self.transactions.key_at(i);
            let transaction = self.transactions.value_at(i);
            let actual = transaction.id()?;
            if actual != *id {
                return Err(Error::plain(Problem::TransactionMismatch));
            }
            transaction.validate_parents(&self.transactions)?;
            i += 1;
        }
        assert(keys.skip(n as int).len() == 0);
        self.ordered()?;
        Ok(())
    }
}

// Views

/// The graph holds a transaction that wrote the file.
pub open spec fn wrote(graph: GraphV, id: Seq<char>, path: Seq<char>) -> bool {
    graph.contains_key(id) && graph[id].edits.contains_key(path)
}

/// Some transaction replaced the version of a file that `id` wrote.
pub open spec fn replaced(graph: GraphV, id: Seq<char>, path: Seq<char>) -> bool {
    exists|later: Seq<char>| #[trigger]
        wrote(graph, later, path) && graph[later].edits[path].parents.contains(id)
}

/// The versions of a file that were written and not replaced.
pub open spec fn surviving(graph: GraphV, path: Seq<char>) -> HeadsV {
    Map::new(
        |id: Seq<char>| wrote(graph, id, path) && !replaced(graph, id, path),
        |id: Seq<char>| graph[id].edits[path].value,
    )
}

/// What a graph makes of every file that it ever wrote.
pub open spec fn graph_view(graph: GraphV) -> ViewV {
    Map::new(
        |path: Seq<char>| exists|id: Seq<char>| wrote(graph, id, path),
        |path: Seq<char>| surviving(graph, path),
    )
}

/// The view of a graph, where the graph is valid.
pub open spec fn view_of(graph: GraphV) -> Result<ViewV, ErrorV> {
    match graph_check(graph) {
        Err(error) => Err(error),
        Ok(()) => Ok(graph_view(graph)),
    }
}

/// The versions that the first `n` transactions of `keys` wrote.
spec fn written(graph: GraphV, keys: Seq<Seq<char>>, n: int) -> ViewV {
    Map::new(
        |path: Seq<char>| exists|i: int| 0 <= i < n && wrote(graph, #[trigger] keys[i], path),
        |path: Seq<char>|
            Map::new(
                |id: Seq<char>| wrote(graph, id, path) && keys.take(n).contains(id),
                |id: Seq<char>| graph[id].edits[path].value,
            ),
    )
}

/// Transactions further along replace the version that `id` wrote.
spec fn replaced_by(graph: GraphV, keys: Seq<Seq<char>>, n: int, id: Seq<char>, path: Seq<char>) -> bool {
    exists|i: int|
        0 <= i < n && wrote(graph, #[trigger] keys[i], path) && graph[keys[i]].edits[path].parents.contains(id)
}

/// Everything written, less what the first `n` transactions replaced.
spec fn thinned(graph: GraphV, keys: Seq<Seq<char>>, n: int) -> ViewV {
    Map::new(
        |path: Seq<char>| exists|id: Seq<char>| wrote(graph, id, path),
        |path: Seq<char>|
            Map::new(
                |id: Seq<char>| wrote(graph, id, path) && !replaced_by(graph, keys, n, id, path),
                |id: Seq<char>| graph[id].edits[path].value,
            ),
    )
}

/// `view` with one more version of each file that `edits` hold.
spec fn extended_by(view: ViewV, id: Seq<char>, edits: Map<Seq<char>, EditV>) -> ViewV {
    Map::new(
        |path: Seq<char>| view.contains_key(path) || edits.contains_key(path),
        |path: Seq<char>|
            if edits.contains_key(path) {
                heads_of(view, path).insert(id, edits[path].value)
            } else {
                view[path]
            },
    )
}

/// `view` without the versions that `edits` replace.
spec fn reduced_by(view: ViewV, edits: Map<Seq<char>, EditV>) -> ViewV {
    Map::new(
        |path: Seq<char>| view.contains_key(path),
        |path: Seq<char>|
            if edits.contains_key(path) {
                view[path].remove_keys(edits[path].parents)
            } else {
                view[path]
            },
    )
}

fn add_versions(view: &mut View, id: &String, edits: &TextMap<Edit>)
    ensures
        final(view)@ == extended_by(old(view)@, id@, edits@),
{
    let n = edits.len();
    let mut i: usize = 0;
    let ghost keys = keys_of(edits@);
    let ghost start = view@;
    assert(view@ =~= extended_by(start, id@, edits@.restrict(keys.take(0).to_set())));
    while i < n
        invariant
            i <= n,
            n == edits@.dom().len(),
            n == keys.len(),
            keys == keys_of(edits@),
            lists(keys, edits@.dom()),
            view@ == extended_by(start, id@, edits@.restrict(keys.take(i as int).to_set())),
        decreases n - i,
    {
        let path = edits.key_at(i);
        let edit = edits.value_at(i);
        let ghost so_far = view@;
        let ghost seen = keys.take(i as int);
        proof {
            assert(keys.take(i + 1) =~= seen.push(path@));
            assert forall|k: Seq<char>| keys.take(i + 1).contains(k) <==> seen.contains(k) || k == path@ by {
                crate::collections::lemma_push_contains(seen, path@, k);
            }
            assert(!seen.contains(path@)) by {
                if seen.contains(path@) {
                    let j = choose|j: int| 0 <= j < i && seen[j] == path@;
                    assert(keys[j] == path@);
                    crate::text::lemma_before_irreflexive(path@);
                    assert(crate::text::before(keys[j], keys[i as int]));
                }
            }
        }
        let mut heads = match view.files.remove(path.as_str()) {
            Some(heads) => heads,
            None => TextMap::new(),
        };
        assert(heads@ =~= heads_of(start, path@));
        heads.insert(id.clone(), edit.value.copied());
        view.files.insert(path.clone(), heads);
        assert(view@ =~= extended_by(start, id@, edits@.restrict(keys.take(i + 1).to_set())));
        i += 1;
    }
    proof {
        assert(keys.take(n as int) =~= keys);
        assert(edits@.restrict(keys.to_set()) =~= edits@) by {
            assert forall|k: Seq<char>| edits@.contains_key(k) implies keys.to_set().contains(k) by {
                assert(edits@.dom().contains(k));
            }
        }
    }
}

fn drop_versions(view: &mut View, edits: &TextMap<Edit>)
    requires
        edits@.dom().subset_of(old(view)@.dom()),
    ensures
        final(view)@ == reduced_by(old(view)@, edits@),
{
    let n = edits.len();
    let mut i: usize = 0;
    let ghost keys = keys_of(edits@);
    let ghost start = view@;
    assert(view@ =~= reduced_by(start, edits@.restrict(keys.take(0).to_set())));
    while i < n
        invariant
            i <= n,
            n == edits@.dom().len(),
            n == keys.len(),
            keys == keys_of(edits@),
            lists(keys, edits@.dom()),
            edits@.dom().subset_of(start.dom()),
            view@ == reduced_by(start, edits@.restrict(keys.take(i as int).to_set())),
        decreases n - i,
    {
        let path = edits.key_at(i);
        let edit = edits.value_at(i);
        let ghost seen = keys.take(i as int);
        proof {
            assert(keys.take(i + 1) =~= seen.push(path@));
            assert forall|k: Seq<char>| keys.take(i + 1).contains(k) <==> seen.contains(k) || k == path@ by {
                crate::collections::lemma_push_contains(seen, path@, k);
            }
            assert(!seen.contains(path@)) by {
                if seen.contains(path@) {
                    let j = choose|j: int| 0 <= j < i && seen[j] == path@;
                    assert(keys[j] == path@);
                    crate::text::lemma_before_irreflexive(path@);
                    assert(crate::text::before(keys[j], keys[i as int]));
                }
            }
            assert(start.dom().contains(path@));
        }
        let mut heads = view.files.remove(path.as_str()).unwrap();
        crate::views::drop_heads(&mut heads, &edit.parents);
        view.files.insert(path.clone(), heads);
        assert(view@ =~= reduced_by(start, edits@.restrict(keys.take(i + 1).to_set())));
        i += 1;
    }
    proof {
        assert(keys.take(n as int) =~= keys);
        assert(edits@.restrict(keys.to_set()) =~= edits@) by {
            assert forall|k: Seq<char>| edits@.contains_key(k) implies keys.to_set().contains(k) by {
                assert(edits@.dom().contains(k));
            }
        }
    }
}

proof fn lemma_written_step(graph: GraphV, keys: Seq<Seq<char>>, n: int)
    requires
        0 <= n < keys.len(),
        graph.contains_key(keys[n]),
    ensures
        written(graph, keys, n + 1) == extended_by(written(graph, keys, n), keys[n], graph[keys[n]].edits),
{
    let less = written(graph, keys, n);
    let more = written(graph, keys, n + 1);
    let goal = extended_by(less, keys[n], graph[keys[n]].edits);
    assert(keys.take(n + 1) =~= keys.take(n).push(keys[n]));
    assert forall|path: Seq<char>| more.contains_key(path) <==> goal.contains_key(path) by {
        if more.contains_key(path) {
            let i = choose|i: int| 0 <= i < n + 1 && wrote(graph, #[trigger] keys[i], path);
            if i < n {
                assert(less.contains_key(path));
            }
        }
        if less.contains_key(path) {
            let i = choose|i: int| 0 <= i < n && wrote(graph, #[trigger] keys[i], path);
            assert(0 <= i < n + 1);
        }
        if graph[keys[n]].edits.contains_key(path) {
            assert(wrote(graph, keys[n], path));
        }
    }
    assert forall|path: Seq<char>| more.contains_key(path) implies more[path] == goal[path] by {
        assert forall|id: Seq<char>| keys.take(n + 1).contains(id) <==> keys.take(n).contains(id) || id == keys[n] by {
            crate::collections::lemma_push_contains(keys.take(n), keys[n], id);
        }
        if !less.contains_key(path) {
            assert forall|id: Seq<char>| keys.take(n).contains(id) implies !wrote(graph, id, path) by {
                let i = choose|i: int| 0 <= i < n && keys.take(n)[i] == id;
                assert(keys[i] == id);
            }
        }
        assert forall|id: Seq<char>| more[path].contains_key(id) <==> goal[path].contains_key(id) by {
            crate::collections::lemma_push_contains(keys.take(n), keys[n], id);
            if keys.take(n).contains(id) && wrote(graph, id, path) {
                let i = choose|i: int| 0 <= i < n && keys.take(n)[i] == id;
                assert(wrote(graph, keys[i], path));
                assert(less.contains_key(path));
            }
        }
        assert(more[path] =~= goal[path]);
    }
    assert(more =~= goal);
}

proof fn lemma_thinned_step(graph: GraphV, keys: Seq<Seq<char>>, n: int)
    requires
        0 <= n < keys.len(),
        graph.contains_key(keys[n]),
    ensures
        thinned(graph, keys, n + 1) == reduced_by(thinned(graph, keys, n), graph[keys[n]].edits),
{
    let less = thinned(graph, keys, n);
    let more = thinned(graph, keys, n + 1);
    let edits = graph[keys[n]].edits;
    let goal = reduced_by(less, edits);
    assert forall|path: Seq<char>| more.contains_key(path) implies more[path] == goal[path] by {
        assert forall|id: Seq<char>| replaced_by(graph, keys, n + 1, id, path) <==> replaced_by(graph, keys, n, id, path)
            || (edits.contains_key(path) && edits[path].parents.contains(id)) by {
            if replaced_by(graph, keys, n + 1, id, path) {
                let i = choose|i: int|
                    0 <= i < n + 1 && wrote(graph, #[trigger] keys[i], path)
                        && graph[keys[i]].edits[path].parents.contains(id);
                if i < n {
                    assert(replaced_by(graph, keys, n, id, path));
                }
            }
            if replaced_by(graph, keys, n, id, path) {
                let i = choose|i: int|
                    0 <= i < n && wrote(graph, #[trigger] keys[i], path)
                        && graph[keys[i]].edits[path].parents.contains(id);
                assert(0 <= i < n + 1);
            }
            if edits.contains_key(path) && edits[path].parents.contains(id) {
                assert(wrote(graph, keys[n], path));
            }
        }
        assert(more[path] =~= goal[path]);
    }
    assert(more =~= goal);
}

proof fn lemma_written_all(graph: GraphV, keys: Seq<Seq<char>>)
    requires
        lists(keys, graph.dom()),
    ensures
        written(graph, keys, keys.len() as int) == thinned(graph, keys, 0),
        thinned(graph, keys, keys.len() as int) == graph_view(graph),
{
    let n = keys.len() as int;
    assert(keys.take(n) =~= keys);
    assert forall|id: Seq<char>| graph.contains_key(id) <==> keys.contains(id) by {
        assert(graph.dom().contains(id) <==> keys.contains(id));
    }
    let all = written(graph, keys, n);
    let none = thinned(graph, keys, 0);
    assert forall|path: Seq<char>| all.contains_key(path) <==> none.contains_key(path) by {
        if all.contains_key(path) {
            let i = choose|i: int| 0 <= i < n && wrote(graph, #[trigger] keys[i], path);
            assert(wrote(graph, keys[i], path));
        }
        if none.contains_key(path) {
            let id = choose|id: Seq<char>| wrote(graph, id, path);
            let i = choose|i: int| 0 <= i < keys.len() && keys[i] == id;
            assert(wrote(graph, keys[i], path));
        }
    }
    assert forall|path: Seq<char>| all.contains_key(path) implies all[path] == none[path] by {
        assert(all[path] =~= none[path]);
    }
    assert(all =~= none);
    let last = thinned(graph, keys, n);
    assert forall|path: Seq<char>| last.contains_key(path) implies last[path] == graph_view(graph)[path] by {
        assert forall|id: Seq<char>| replaced_by(graph, keys, n, id, path) <==> replaced(graph, id, path) by {
            if replaced_by(graph, keys, n, id, path) {
                let i = choose|i: int|
                    0 <= i < n && wrote(graph, #[trigger] keys[i], path)
                        && graph[keys[i]].edits[path].parents.contains(id);
                assert(wrote(graph, keys[i], path));
            }
            if replaced(graph, id, path) {
                let later = choose|later: Seq<char>| #[trigger]
                    wrote(graph, later, path) && graph[later].edits[path].parents.contains(id);
                let i = choose|i: int| 0 <= i < keys.len() && keys[i] == later;
                assert(wrote(graph, keys[i], path));
            }
        }
        assert(last[path] =~= graph_view(graph)[path]);
    }
    assert(last =~= graph_view(graph));
}

impl Graph {
    /// Two passes over the transactions make the result independent of the
    /// order in which they arrived.
    pub fn view(&self) -> (result: Result<View, Error>)
        ensures
            outcome(result) == view_of(self.transactions@),
    {
        self.validate()?;
        let mut view = View { files: TextMap::new() };
        let n = self.transactions.len();
        let ghost keys = keys_of(self.transactions@);
        let mut i: usize = 0;
        assert(view@ =~= written(self.transactions@, keys, 0));
        while i < n
            invariant
                i <= n,
                n == self.transactions@.dom().len(),
                n == keys.len(),
                keys == keys_of(self.transactions@),
                view@ == written(self.transactions@, keys, i as int),
            decreases n - i,
        {
            let id = self.transactions.key_at(i);
            proof {
                lemma_written_step(self.transactions@, keys, i as int);
            }
            add_versions(&mut view, id, &self.transactions.value_at(i).edits);
            i += 1;
        }
        proof {
            lemma_written_all(self.transactions@, keys);
        }
        let mut j: usize = 0;
        while j < n
            invariant
                j <= n,
                n == self.transactions@.dom().len(),
                n == keys.len(),
                keys == keys_of(self.transactions@),
                view@ == thinned(self.transactions@, keys, j as int),
            decreases n - j,
        {
            let id = self.transactions.key_at(j);
            let edits = &self.transactions.value_at(j).edits;
            proof {
                assert forall|path: Seq<char>| edits@.dom().contains(path) implies view@.dom().contains(path) by {
                    assert(wrote(self.transactions@, id@, path));
                }
                lemma_thinned_step(self.transactions@, keys, j as int);
            }
            drop_versions(&mut view, edits);
            j += 1;
        }
        Ok(view)
    }

    /// Describe the way from the view of the graph to a snapshot.
    pub fn record(&self, snapshot: &Snapshot, message: String, nonce: String) -> (result: Result<
        Transaction,
        Error,
    >)
        ensures
            outcome(result) == (match view_of(self.transactions@) {
                Err(error) => Err(error),
                Ok(view) => recorded(view, snapshot@, message@, nonce@),
            }),
    {
        let view = self.view()?;
        view.record(snapshot, message, nonce)
    }
}

// Identity

/// The transactions of a graph that no other builds on.
pub open spec fn roots_of(graph: GraphV) -> Set<Seq<char>> {
    Set::new(
        |id: Seq<char>|
            graph.contains_key(id) && forall|later: Seq<char>| #[trigger]
                graph.contains_key(later) ==> !dependencies_of(graph[later]).contains(id),
    )
}

/// The identity of the state that has the given roots.
pub open spec fn state_id(roots: Set<Seq<char>>) -> Seq<char> {
    object_hash("view"@, encode_utf8(TextSet::json_of(roots)))
}

/// The identity of the state that has the given roots.
pub fn roots_id(roots: &TextSet) -> (id: String)
    ensures
        id@ == state_id(roots@),
{
    let text = roots.to_json();
    object_id("view", text.as_str().as_bytes())
}

impl Graph {
    pub fn roots(&self) -> (result: TextSet)
        ensures
            result@ == roots_of(self.transactions@),
    {
        let mut needed = TextSet::new();
        let n = self.transactions.len();
        let ghost keys = keys_of(self.transactions@);
        let mut i: usize = 0;
        while i < n
            invariant
                i <= n,
                n == self.transactions@.dom().len(),
                n == keys.len(),
                keys == keys_of(self.transactions@),
                lists(keys, self.transactions@.dom()),
                forall|id: Seq<char>| #[trigger]
                    needed@.contains(id) <==> exists|j: int|
                        0 <= j < i && dependencies_of(self.transactions@[#[trigger] keys[j]]).contains(id),
            decreases n - i,
        {
            let ghost so_far = needed@;
            needed.extend(&self.transactions.value_at(i).dependencies());
            proof {
                assert forall|id: Seq<char>| #[trigger]
                    needed@.contains(id) <==> exists|j: int|
                        0 <= j < i + 1 && dependencies_of(self.transactions@[#[trigger] keys[j]]).contains(id) by {
                    if needed@.contains(id) {
                        if so_far.contains(id) {
                            let j = choose|j: int| 0 <= j < i && dependencies_of(self.transactions@[#[trigger] keys[j]]).contains(id);
                            assert(0 <= j < i + 1);
                        } else {
                            assert(dependencies_of(self.transactions@[keys[i as int]]).contains(id));
                        }
                    }
                    if exists|j: int| 0 <= j < i + 1 && dependencies_of(self.transactions@[#[trigger] keys[j]]).contains(id) {
                        let j = choose|j: int| 0 <= j < i + 1 && dependencies_of(self.transactions@[#[trigger] keys[j]]).contains(id);
                        if j < i {
                            assert(so_far.contains(id));
                        }
                    }
                }
            }
            i += 1;
        }
        let all = self.transactions.keys();
        let result = all.difference(&needed);
        proof {
            assert forall|id: Seq<char>| result@.contains(id) <==> roots_of(self.transactions@).contains(id) by {
                if needed@.contains(id) {
                    let j = choose|j: int| 0 <= j < n && dependencies_of(self.transactions@[#[trigger] keys[j]]).contains(id);
                    assert(keys.contains(keys[j]));
                    assert(self.transactions@.dom().contains(keys[j]));
                    assert(self.transactions@.contains_key(keys[j]));
                }
                if self.transactions@.contains_key(id) && !roots_of(self.transactions@).contains(id) {
                    let later = choose|later: Seq<char>| #[trigger]
                        self.transactions@.contains_key(later) && dependencies_of(self.transactions@[later]).contains(id);
                    assert(self.transactions@.dom().contains(later));
                    let j = choose|j: int| 0 <= j < keys.len() && keys[j] == later;
                    assert(dependencies_of(self.transactions@[keys[j]]).contains(id));
                }
            }
            assert(result@ =~= roots_of(self.transactions@));
        }
        result
    }

    pub fn view_id(&self) -> (result: Result<String, Error>)
        ensures
            outcome(result) == Ok::<Seq<char>, ErrorV>(state_id(roots_of(self.transactions@))),
    {
        let roots = self.roots();
        Ok(roots_id(&roots))
    }
}

} // verus!
