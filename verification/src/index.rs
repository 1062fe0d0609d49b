//! The current state of the files as far as it can be rebuilt, and what is
//! remembered of files on disk. Neither is history: transactions and snapshots
//! remain authoritative.
use vstd::prelude::*;
use vstd::string::*;
use vstd::utf8::*;
use vstd::view::View as _;

use crate::collections::{keys_of, lists, ordered, TextMap, TextSet};
use crate::encoding::{decimal, decimal_text, unhex, unhex_chars, wide_decimal_text};
use crate::error::{about, first_problem, lemma_first_problem_step, outcome, plain, verdict, Error, ErrorV, Problem};
use crate::graphs::{graph_view, ordering, outstanding, roots_id, roots_of, state_id, GraphV};
use crate::json::Json;
use crate::objects::{object_hash, object_id, valid_hash, FileEntry, FileEntryV};
use crate::text::{chars_of, join, join_texts, same_text, texts};
use crate::transactions::{dependencies_of, parents_check, transaction_id, Graph, Transaction, TransactionV, View};
use crate::views::{applied, ViewV};

verus! {

/// What the known transactions amount to.
#[derive(Debug)]
pub struct Projection {
    pub view: View,
    pub roots: TextSet,
}

impl Clone for Projection {
    fn clone(&self) -> (result: Self)
        ensures
            result.view@ == self.view@,
            result.roots@ == self.roots@,
    {
        Projection { view: self.view.clone(), roots: self.roots.clone() }
    }
}

impl Default for Projection {
    fn default() -> (projection: Projection)
        ensures
            projection.view@ == Map::<Seq<char>, Map<Seq<char>, Option<FileEntryV>>>::empty(),
            projection.roots@ == Set::<Seq<char>>::empty(),
    {
        Projection { view: View { files: TextMap::new() }, roots: TextSet::new() }
    }
}

/// The roots after one more transaction.
pub open spec fn advanced(roots: Set<Seq<char>>, id: Seq<char>, transaction: TransactionV) -> Set<Seq<char>> {
    roots.difference(dependencies_of(transaction)).insert(id)
}

impl Projection {
    /// Take up one more transaction whose dependencies were taken up before.
    pub fn apply(&mut self, id: &str, transaction: &Transaction)
        ensures
            final(self).view@ == applied(old(self).view@, id@, transaction@.edits),
            final(self).roots@ == advanced(old(self).roots@, id@, transaction@),
    {
        self.view.apply(id, transaction);
        let needed = transaction.dependencies();
        self.roots = self.roots.difference(&needed);
        self.roots.insert(id.to_owned());
    }

    /// The identity of the state.
    pub fn id(&self) -> (result: Result<String, Error>)
        ensures
            outcome(result) == Ok::<Seq<char>, ErrorV>(state_id(self.roots@)),
    {
        Ok(roots_id(&self.roots))
    }
}

/// A projection stays what the graph amounts to when both take up the same
/// transaction, as long as nothing in the graph builds on it.
pub proof fn projections_follow_the_graph(graph: GraphV, id: Seq<char>, transaction: TransactionV)
    requires
        !graph.contains_key(id),
        !dependencies_of(transaction).contains(id),
        forall|other: Seq<char>| #[trigger]
            graph.contains_key(other) ==> !dependencies_of(graph[other]).contains(id),
    ensures
        applied(graph_view(graph), id, transaction.edits) == graph_view(graph.insert(id, transaction)),
        advanced(roots_of(graph), id, transaction) == roots_of(graph.insert(id, transaction)),
{
    crate::laws::applying_extends_the_view(graph, id, transaction);
    let larger = graph.insert(id, transaction);
    let left = advanced(roots_of(graph), id, transaction);
    assert forall|x: Seq<char>| left.contains(x) <==> roots_of(larger).contains(x) by {
        if roots_of(larger).contains(x) {
            assert(larger.contains_key(id));
            if x != id {
                assert forall|later: Seq<char>| #[trigger] graph.contains_key(later) implies !dependencies_of(
                    graph[later],
                ).contains(x) by {
                    assert(larger.contains_key(later));
                }
            }
        }
        if left.contains(x) {
            assert forall|later: Seq<char>| #[trigger] larger.contains_key(later) implies !dependencies_of(
                larger[later],
            ).contains(x) by {
                if later != id {
                    assert(graph.contains_key(later));
                }
            }
        }
    }
    assert(left =~= roots_of(larger));
}

// Taking up many transactions

/// A dependency must be among the additions or known already.
pub open spec fn boundary_check(additions: GraphV, known: Set<Seq<char>>, id: Seq<char>) -> Result<(), ErrorV> {
    if additions.contains_key(id) || known.contains(id) {
        Ok(())
    } else {
        Err(about(Problem::MissingDependency, id))
    }
}

/// What is wrong with the dependencies of the additions.
pub open spec fn boundaries_check(additions: GraphV, known: Set<Seq<char>>) -> Result<(), ErrorV> {
    first_problem(
        keys_of(additions),
        |id: Seq<char>|
            first_problem(
                ordered(dependencies_of(additions[id])),
                |parent: Seq<char>| boundary_check(additions, known, parent),
            ),
    )
}

/// The known transactions that additions build on directly.
pub open spec fn boundary_of(additions: GraphV) -> Set<Seq<char>> {
    Set::new(
        |parent: Seq<char>|
            !additions.contains_key(parent) && exists|id: Seq<char>| #[trigger]
                additions.contains_key(id) && dependencies_of(additions[id]).contains(parent),
    )
}

fn note_boundary(additions: &Graph, known: &TextSet, parents: &TextSet, boundary: &mut TextSet) -> (result: Result<
    (),
    Error,
>)
    ensures
        verdict(result) == first_problem(
            ordered(parents@),
            |parent: Seq<char>| boundary_check(additions.transactions@, known@, parent),
        ),
        result is Ok ==> final(boundary)@ == old(boundary)@.union(
            parents@.difference(additions.transactions@.dom()),
        ),
{
    let ghost all = additions.transactions@;
    let ghost start = boundary@;
    let n = parents.len();
    let ghost list = ordered(parents@);
    let ghost check = |parent: Seq<char>| boundary_check(all, known@, parent);
    let mut i: usize = 0;
    assert(list.skip(0) =~= list);
    while i < n
        invariant
            i <= n,
            n == parents@.len(),
            n == list.len(),
            list == ordered(parents@),
            lists(list, parents@),
            all == additions.transactions@,
            check == (|parent: Seq<char>| boundary_check(all, known@, parent)),
            first_problem(list, check) == first_problem(list.skip(i as int), check),
            forall|p: Seq<char>| #[trigger]
                boundary@.contains(p) <==> start.contains(p) || (list.take(i as int).contains(p) && !all.contains_key(
                    p,
                )),
        decreases n - i,
    {
        let ghost so_far = boundary@;
        proof {
            lemma_first_problem_step(list, check, i as int);
        }
        let parent = parents.at(i);
        if !additions.transactions.contains_key(parent.as_str()) {
            if !known.contains(parent.as_str()) {
                return Err(Error::about(Problem::MissingDependency, parent.clone()));
            }
            boundary.insert(parent.clone());
        }
        proof {
            assert(list.take(i + 1) =~= list.take(i as int).push(parent@));
            assert forall|p: Seq<char>| #[trigger]
                boundary@.contains(p) <==> start.contains(p) || (list.take(i + 1).contains(p) && !all.contains_key(p)) by {
                crate::collections::lemma_push_contains(list.take(i as int), parent@, p);
                assert(so_far.contains(p) <==> start.contains(p) || (list.take(i as int).contains(p)
                    && !all.contains_key(p)));
            }
        }
        i += 1;
    }
    proof {
        assert(list.skip(n as int).len() == 0);
        assert(list.take(n as int) =~= list);
        assert(boundary@ =~= start.union(parents@.difference(all.dom())));
    }
    Ok(())
}

/// The known transactions that additions build on directly; everything that
/// they build on must be known or among them.
pub fn boundary(additions: &Graph, known: &TextSet) -> (result: Result<TextSet, Error>)
    ensures
        match result {
            Ok(ids) => boundaries_check(additions.transactions@, known@) is Ok && ids@ == boundary_of(
                additions.transactions@,
            ),
            Err(error) => boundaries_check(additions.transactions@, known@) == Err::<(), ErrorV>(error@),
        },
{
    let ghost all = additions.transactions@;
    let mut ids = TextSet::new();
    let n = additions.transactions.len();
    let ghost keys = keys_of(all);
    let ghost check = |id: Seq<char>|
        first_problem(
            ordered(dependencies_of(all[id])),
            |parent: Seq<char>| boundary_check(all, known@, parent),
        );
    let mut i: usize = 0;
    assert(keys.skip(0) =~= keys);
    while i < n
        invariant
            i <= n,
            n == all.dom().len(),
            n == keys.len(),
            keys == keys_of(all),
            lists(keys, all.dom()),
            all == additions.transactions@,
            check == (|id: Seq<char>|
                first_problem(
                    ordered(dependencies_of(all[id])),
                    |parent: Seq<char>| boundary_check(all, known@, parent),
                )),
            boundaries_check(all, known@) == first_problem(keys.skip(i as int), check),
            forall|p: Seq<char>| #[trigger]
                ids@.contains(p) <==> !all.contains_key(p) && exists|j: int|
                    0 <= j < i && dependencies_of(all[#[trigger] keys[j]]).contains(p),
        decreases n - i,
    {
        let ghost so_far = ids@;
        proof {
            lemma_first_problem_step(keys, check, i as int);
        }
        let parents = additions.transactions.value_at(i).dependencies();
        note_boundary(additions, known, &parents, &mut ids)?;
        proof {
            assert forall|p: Seq<char>| #[trigger]
                ids@.contains(p) <==> !all.contains_key(p) && exists|j: int|
                    0 <= j < i + 1 && dependencies_of(all[#[trigger] keys[j]]).contains(p) by {
                if so_far.contains(p) {
                    let j = choose|j: int| 0 <= j < i && dependencies_of(all[#[trigger] keys[j]]).contains(p);
                    assert(0 <= j < i + 1);
                }
                if parents@.contains(p) {
                    assert(dependencies_of(all[keys[i as int]]).contains(p));
                }
                if exists|j: int| 0 <= j < i + 1 && dependencies_of(all[#[trigger] keys[j]]).contains(p) {
                    let j = choose|j: int| 0 <= j < i + 1 && dependencies_of(all[#[trigger] keys[j]]).contains(p);
                    if j < i && !all.contains_key(p) {
                        assert(so_far.contains(p));
                    }
                }
            }
        }
        i += 1;
    }
    proof {
        assert(keys.skip(n as int).len() == 0);
        assert forall|p: Seq<char>| ids@.contains(p) <==> boundary_of(all).contains(p) by {
            if ids@.contains(p) {
                let j = choose|j: int| 0 <= j < n && dependencies_of(all[#[trigger] keys[j]]).contains(p);
                assert(keys.contains(keys[j]));
                assert(all.dom().contains(keys[j]));
                assert(all.contains_key(keys[j]));
            }
            if boundary_of(all).contains(p) {
                let id = choose|id: Seq<char>| #[trigger] all.contains_key(id) && dependencies_of(all[id]).contains(p);
                assert(all.dom().contains(id));
                let j = choose|j: int| 0 <= j < keys.len() && keys[j] == id;
                assert(dependencies_of(all[keys[j]]).contains(p));
            }
        }
        assert(ids@ =~= boundary_of(all));
    }
    Ok(ids)
}

/// What a transaction finds of its dependencies.
pub open spec fn parents_among(additions: GraphV, known: GraphV, id: Seq<char>) -> GraphV {
    known.union_prefer_right(additions).restrict(dependencies_of(additions[id]))
}

/// What is wrong with one of the additions.
pub open spec fn addition_check(additions: GraphV, known: GraphV, id: Seq<char>) -> Result<(), ErrorV> {
    if transaction_id(additions[id]) != id {
        Err(plain(Problem::TransactionMismatch))
    } else {
        parents_check(additions[id], parents_among(additions, known, id))
    }
}

/// The view after the transactions of `order`.
pub open spec fn extended_view(view: ViewV, additions: GraphV, order: Seq<Seq<char>>) -> ViewV
    decreases order.len(),
{
    if order.len() == 0 {
        view
    } else {
        applied(extended_view(view, additions, order.drop_last()), order.last(), additions[order.last()].edits)
    }
}

/// The roots after the transactions of `order`.
pub open spec fn extended_roots(roots: Set<Seq<char>>, additions: GraphV, order: Seq<Seq<char>>) -> Set<Seq<char>>
    decreases order.len(),
{
    if order.len() == 0 {
        roots
    } else {
        advanced(extended_roots(roots, additions, order.drop_last()), order.last(), additions[order.last()])
    }
}

fn parents_for(additions: &Graph, known: &TextMap<Transaction>, id: &str, transaction: &Transaction) -> (parents:
    TextMap<Transaction>)
    requires
        additions.transactions@.contains_key(id@),
        additions.transactions@[id@] == transaction@,
    ensures
        parents@ == parents_among(additions.transactions@, known@, id@),
{
    let ghost all = known@.union_prefer_right(additions.transactions@);
    let ids = transaction.dependencies();
    let mut parents: TextMap<Transaction> = TextMap::new();
    let n = ids.len();
    let ghost list = ordered(ids@);
    let mut i: usize = 0;
    assert(parents@ =~= all.restrict(list.take(0).to_set()));
    while i < n
        invariant
            i <= n,
            n == ids@.len(),
            n == list.len(),
            list == ordered(ids@),
            lists(list, ids@),
            all == known@.union_prefer_right(additions.transactions@),
            parents@ == all.restrict(list.take(i as int).to_set()),
        decreases n - i,
    {
        let ghost so_far = parents@;
        let parent = ids.at(i);
        proof {
            assert(list.take(i + 1) =~= list.take(i as int).push(parent@));
            assert forall|k: Seq<char>| list.take(i + 1).to_set().contains(k) <==> list.take(
                i as int,
            ).to_set().contains(k) || k == parent@ by {
                crate::collections::lemma_push_contains(list.take(i as int), parent@, k);
            }
        }
        match additions.transactions.get(parent.as_str()) {
            Some(value) => {
                parents.insert(parent.clone(), value.clone());
            },
            None => match known.get(parent.as_str()) {
                Some(value) => {
                    parents.insert(parent.clone(), value.clone());
                },
                None => {},
            },
        }
        proof {
            let next = all.restrict(list.take(i + 1).to_set());
            assert forall|k: Seq<char>| parents@.contains_key(k) <==> next.contains_key(k) by {
                assert(so_far.contains_key(k) <==> all.contains_key(k) && list.take(i as int).to_set().contains(k));
            }
            assert forall|k: Seq<char>| parents@.contains_key(k) implies parents@[k] == next[k] by {
                if so_far.contains_key(k) && k != parent@ {
                    assert(so_far[k] == all.restrict(list.take(i as int).to_set())[k]);
                }
            }
            assert(parents@ =~= next);
        }
        i += 1;
    }
    proof {
        assert(list.take(n as int) =~= list);
        assert(list.to_set() =~= ids@);
    }
    parents
}

/// How many additions come before the first that is wrong.
pub open spec fn sound_length(order: Seq<Seq<char>>, additions: GraphV, known: GraphV) -> int
    decreases order.len(),
{
    if order.len() == 0 {
        0
    } else {
        let before = sound_length(order.drop_last(), additions, known);
        if before == order.len() - 1 && addition_check(additions, known, order.last()) is Ok {
            order.len() as int
        } else {
            before
        }
    }
}

/// Once an addition is wrong, those after it do not count.
proof fn lemma_sound_length(order: Seq<Seq<char>>, additions: GraphV, known: GraphV, n: int)
    requires
        0 <= n < order.len(),
        sound_length(order.take(n), additions, known) == n,
        addition_check(additions, known, order[n]) is Err,
    ensures
        sound_length(order, additions, known) == n,
    decreases order.len(),
{
    let shorter = order.drop_last();
    if n == order.len() - 1 {
        assert(shorter =~= order.take(n));
    } else {
        assert(shorter.take(n) =~= order.take(n));
        lemma_sound_length(shorter, additions, known, n);
    }
}

impl Projection {
    /// Take up additions in the order of their dependencies, given the known
    /// transactions that they build on directly. Where one is wrong, those
    /// before it have been taken up.
    pub fn extend(&mut self, additions: &Graph, known: &TextMap<Transaction>, known_ids: &TextSet) -> (result: Result<
        (),
        Error,
    >)
        ensures
            match ordering(additions.transactions@, known_ids@) {
                Err(error) => {
                    &&& verdict(result) == Err::<(), ErrorV>(error)
                    &&& *final(self) == *old(self)
                },
                Ok(order) => {
                    let n = sound_length(order, additions.transactions@, known@);
                    &&& verdict(result) == first_problem(
                        order,
                        |id: Seq<char>| addition_check(additions.transactions@, known@, id),
                    )
                    &&& result is Ok ==> n == order.len()
                    &&& final(self).view@ == extended_view(
                        old(self).view@,
                        additions.transactions@,
                        order.take(n),
                    )
                    &&& final(self).roots@ == extended_roots(
                        old(self).roots@,
                        additions.transactions@,
                        order.take(n),
                    )
                },
            },
    {
        let ghost all = additions.transactions@;
        let order = additions.ordered_after(known_ids)?;
        let size = additions.transactions.len();
        let ghost list = order.deep_view();
        let ghost check = |id: Seq<char>| addition_check(all, known@, id);
        let ghost view = self.view@;
        let ghost roots = self.roots@;
        let mut i: usize = 0;
        proof {
            crate::laws::found_orders_respect_dependencies(all, known_ids@);
            assert(list.skip(0) =~= list);
            assert(list.take(0) =~= Seq::<Seq<char>>::empty());
        }
        while i < order.len()
            invariant
                i <= order@.len(),
                list == order.deep_view(),
                all == additions.transactions@,
                ordering(all, known_ids@) == Ok::<Seq<Seq<char>>, ErrorV>(list),
                crate::laws::dependency_order(all, known_ids@, list),
                check == (|id: Seq<char>| addition_check(all, known@, id)),
                first_problem(list, check) == first_problem(list.skip(i as int), check),
                self.view@ == extended_view(view, all, list.take(i as int)),
                self.roots@ == extended_roots(roots, all, list.take(i as int)),
                view == old(self).view@,
                roots == old(self).roots@,
                sound_length(list.take(i as int), all, known@) == i,
            decreases order@.len() - i,
        {
            proof {
                lemma_first_problem_step(list, check, i as int);
                assert(list[i as int] == order@[i as int]@);
                assert(list.contains(list[i as int]));
                assert(list.take(i + 1).drop_last() =~= list.take(i as int));
                assert(list.take(i + 1).last() == list[i as int]);
            }
            let id = &order[i];
            let transaction = additions.transactions.get(id.as_str()).unwrap();
            let parents = parents_for(additions, known, id.as_str(), transaction);
            proof {
                if check(list[i as int]) is Err {
                    lemma_sound_length(list, all, known@, i as int);
                }
            }
            let actual = transaction.id()?;
            if actual != *id {
                return Err(Error::plain(Problem::TransactionMismatch));
            }
            transaction.validate_parents(&parents)?;
            self.apply(id.as_str(), transaction);
            i += 1;
        }
        assert(list.skip(i as int).len() == 0);
        assert(list.take(i as int) =~= list);
        Ok(())
    }
}

proof fn lemma_extension(
    graph: GraphV,
    additions: GraphV,
    order: Seq<Seq<char>>,
    n: int,
)
    requires
        crate::laws::dependency_order(additions, graph.dom(), order),
        graph.dom().disjoint(additions.dom()),
        forall|id: Seq<char>, d: Seq<char>|
            graph.contains_key(id) && #[trigger] dependencies_of(graph[id]).contains(d) ==> graph.contains_key(d),
        0 <= n <= order.len(),
    ensures
        ({
            let so_far = graph.union_prefer_right(additions.restrict(order.take(n).to_set()));
            &&& extended_view(graph_view(graph), additions, order.take(n)) == graph_view(so_far)
            &&& extended_roots(roots_of(graph), additions, order.take(n)) == roots_of(so_far)
        }),
    decreases n,
{
    if n == 0 {
        assert(graph.union_prefer_right(additions.restrict(order.take(0).to_set())) =~= graph);
    } else {
        lemma_extension(graph, additions, order, n - 1);
        let front = order.take(n - 1);
        let all = order.take(n);
        let id = order[n - 1];
        let smaller = graph.union_prefer_right(additions.restrict(front.to_set()));
        let larger = graph.union_prefer_right(additions.restrict(all.to_set()));
        assert(all.drop_last() =~= front);
        assert(all.last() == id);
        assert(all =~= front.push(id));
        assert(order.contains(id));
        assert(additions.contains_key(id));
        assert(additions.dom().contains(id));
        assert(!graph.contains_key(id)) by {
            if graph.contains_key(id) {
                assert(graph.dom().contains(id));
            }
        }
        assert(!front.contains(id)) by {
            if front.contains(id) {
                let j = choose|j: int| 0 <= j < front.len() && front[j] == id;
                assert(order[j] == id);
            }
        }
        assert forall|x: Seq<char>| all.to_set().contains(x) <==> front.to_set().contains(x) || x == id by {
            crate::collections::lemma_push_contains(front, id, x);
        }
        assert(larger =~= smaller.insert(id, additions[id]));
        assert(!smaller.contains_key(id));
        assert(!dependencies_of(additions[id]).contains(id)) by {
            if dependencies_of(additions[id]).contains(id) {
                assert(outstanding(additions, graph.dom(), order[n - 1]).contains(id));
                assert(order.take(n - 1).contains(id));
            }
        }
        assert forall|other: Seq<char>| #[trigger] smaller.contains_key(other) implies !dependencies_of(
            smaller[other],
        ).contains(id) by {
            if front.to_set().contains(other) && additions.contains_key(other) {
                let j = choose|j: int| 0 <= j < front.len() && front[j] == other;
                assert(order[j] == other);
                if dependencies_of(additions[other]).contains(id) {
                    assert(outstanding(additions, graph.dom(), order[j]).contains(id));
                    assert(order.take(j).contains(id));
                    let k = choose|k: int| 0 <= k < j && order.take(j)[k] == id;
                    assert(front[k] == id);
                }
            } else {
                assert(graph.contains_key(other));
                if dependencies_of(graph[other]).contains(id) {
                    assert(graph.contains_key(id));
                }
            }
        }
        projections_follow_the_graph(smaller, id, additions[id]);
    }
}

/// Extending the projection of a graph by new transactions, in an order in
/// which dependencies come first, gives the projection of both together.
pub proof fn extensions_follow_the_graph(graph: GraphV, additions: GraphV, order: Seq<Seq<char>>)
    requires
        crate::laws::dependency_order(additions, graph.dom(), order),
        graph.dom().disjoint(additions.dom()),
        forall|id: Seq<char>, d: Seq<char>|
            graph.contains_key(id) && #[trigger] dependencies_of(graph[id]).contains(d) ==> graph.contains_key(d),
    ensures
        extended_view(graph_view(graph), additions, order) == graph_view(graph.union_prefer_right(additions)),
        extended_roots(roots_of(graph), additions, order) == roots_of(graph.union_prefer_right(additions)),
{
    lemma_extension(graph, additions, order, order.len() as int);
    assert(order.take(order.len() as int) =~= order);
    assert(additions.restrict(order.to_set()) =~= additions) by {
        assert forall|id: Seq<char>| additions.contains_key(id) implies order.to_set().contains(id) by {
            assert(order.contains(id));
        }
    }
}

// The stored projection

/// What a stored projection was made from.
pub open spec fn membership(ids: Set<Seq<char>>) -> Seq<char> {
    object_hash("membership"@, encode_utf8(TextSet::json_of(ids)))
}

/// What a projection of these transactions is stored under.
pub fn source(ids: &TextSet) -> (id: String)
    ensures
        id@ == membership(ids@),
{
    let text = ids.to_json();
    object_id("membership", text.as_str().as_bytes())
}

/// The checksum of a stored projection.
pub open spec fn projection_checksum(bytes: Seq<u8>) -> Seq<char> {
    object_hash("projection-cache"@, bytes)
}

/// The checksum that a projection is stored with.
pub fn checksum(bytes: &[u8]) -> (id: String)
    ensures
        id@ == projection_checksum(bytes@),
{
    object_id("projection-cache", bytes)
}

/// Whether a stored projection is intact and belongs to these transactions.
pub fn is_current(cached_source: &str, cached_checksum: &str, ids: &TextSet, bytes: &[u8]) -> (result: bool)
    ensures
        result == (cached_source@ == membership(ids@) && cached_checksum@ == projection_checksum(bytes@)),
{
    same_text(cached_source, source(ids).as_str()) && same_text(cached_checksum, checksum(bytes).as_str())
}

// Files on disk

/// What was last read of a file, and when.
#[derive(Debug)]
pub struct CachedFile {
    pub fingerprint: String,
    pub captured_at: u128,
    pub entry: FileEntry,
}

/// The mathematical value of a `CachedFile`.
#[verifier::ext_equal]
pub struct CachedFileV {
    pub fingerprint: Seq<char>,
    pub captured_at: u128,
    pub entry: FileEntryV,
}

impl vstd::view::View for CachedFile {
    type V = CachedFileV;

    open spec fn view(&self) -> CachedFileV {
        CachedFileV {
            fingerprint: self.fingerprint@,
            captured_at: self.captured_at,
            entry: self.entry@,
        }
    }
}

impl DeepView for CachedFile {
    type V = CachedFileV;

    open spec fn deep_view(&self) -> CachedFileV {
        self@
    }
}

/// The page that a path is remembered on.
pub open spec fn page_of(path: Seq<char>) -> int {
    unhex(object_hash("cache-page"@, encode_utf8(path)).take(2))[0] as int % 16
}

/// The page that a path is remembered on.
pub fn cache_page(path: &str) -> (page: u8)
    ensures
        page == page_of(path@),
        page < 16,
{
    let id = object_id("cache-page", path.as_bytes());
    let chars = chars_of(id.as_str());
    assert(valid_hash(id@));
    let head = vstd::slice::slice_subrange(chars.as_slice(), 0, 2);
    assert(head@ =~= id@.take(2));
    let bytes = unhex_chars(head);
    bytes[0] % 16
}

/// A time in nanoseconds, where both parts are not negative.
pub open spec fn nanoseconds(seconds: i64, rest: i64) -> Option<int> {
    if seconds < 0 || rest < 0 {
        None
    } else {
        Some(seconds * 1_000_000_000 + rest)
    }
}

fn to_nanoseconds(seconds: i64, rest: i64) -> (time: Option<u128>)
    ensures
        match time {
            Some(value) => nanoseconds(seconds, rest) == Some(value as int),
            None => nanoseconds(seconds, rest) is None,
        },
{
    if seconds < 0 || rest < 0 {
        return None;
    }
    let whole: u128 = seconds as u128;
    let part: u128 = rest as u128;
    Some(whole * 1_000_000_000 + part)
}

/// What the file system says of a file.
#[derive(Debug, Clone, Copy)]
pub struct Metadata {
    pub device: u64,
    pub inode: u64,
    pub size: u64,
    pub mode: u32,
    pub modified: i64,
    pub modified_nanoseconds: i64,
    pub changed: i64,
    pub changed_nanoseconds: i64,
}

/// The parts of a fingerprint.
pub open spec fn fingerprint_parts(metadata: Metadata) -> Seq<Seq<char>> {
    seq![
        decimal(metadata.device as nat),
        decimal(metadata.inode as nat),
        decimal(metadata.size as nat),
        decimal(metadata.mode as nat),
        decimal(nanoseconds(metadata.modified, metadata.modified_nanoseconds)->0 as nat),
        decimal(nanoseconds(metadata.changed, metadata.changed_nanoseconds)->0 as nat),
    ]
}

/// The fingerprint of a file and the time of its last change; none where a
/// time lies before the epoch.
pub open spec fn fingerprint_of(metadata: Metadata) -> Option<(Seq<char>, int)> {
    match (
        nanoseconds(metadata.modified, metadata.modified_nanoseconds),
        nanoseconds(metadata.changed, metadata.changed_nanoseconds),
    ) {
        (Some(modified), Some(changed)) => Some(
            (
                join(fingerprint_parts(metadata), ":"@),
                if modified > changed {
                    modified
                } else {
                    changed
                },
            ),
        ),
        _ => None,
    }
}

/// The time of the last change to the inode catches writes of the same size
/// even where a tool restores the old modification time. Inode and device
/// detect replacements.
pub fn fingerprint(metadata: &Metadata) -> (result: Option<(String, u128)>)
    ensures
        match result {
            Some(found) => fingerprint_of(*metadata) == Some((found.0@, found.1 as int)),
            None => fingerprint_of(*metadata) is None,
        },
{
    let modified: u128 = match to_nanoseconds(metadata.modified, metadata.modified_nanoseconds) {
        Some(time) => time,
        None => {
            return None;
        },
    };
    let changed: u128 = match to_nanoseconds(metadata.changed, metadata.changed_nanoseconds) {
        Some(time) => time,
        None => {
            return None;
        },
    };
    let mut parts: Vec<String> = Vec::new();
    parts.push(decimal_text(metadata.device));
    parts.push(decimal_text(metadata.inode));
    parts.push(decimal_text(metadata.size));
    parts.push(decimal_text(metadata.mode as u64));
    parts.push(wide_decimal_text(modified));
    parts.push(wide_decimal_text(changed));
    assert(texts(parts@) =~= fingerprint_parts(*metadata));
    let text = join_texts(parts.as_slice(), ":");
    Some((text, if modified > changed { modified } else { changed }))
}

/// What was remembered of a file can stand for it: nothing about it changed,
/// and the last change lies safely before the time of reading.
pub open spec fn unchanged(cached: CachedFileV, fingerprint: Seq<char>, changed_at: int) -> bool {
    cached.fingerprint == fingerprint && changed_at < cached.captured_at
}

/// Whether what was remembered of a file can stand for it. A change that is as
/// recent as the reading is always read again.
pub fn is_unchanged(cached: &CachedFile, fingerprint: &str, changed_at: u128) -> (result: bool)
    ensures
        result == unchanged(cached@, fingerprint@, changed_at as int),
{
    same_text(cached.fingerprint.as_str(), fingerprint) && changed_at < cached.captured_at
}

} // verus!
