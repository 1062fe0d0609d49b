//! What holds of transactions, views and graphs as a whole.
use vstd::prelude::*;

use crate::collections::{keys_of, lemma_ordered, lemma_ordered_is, lists, ordered};
use crate::error::{lemma_first_problem, ErrorV};
use crate::graphs::{
    graph_check, graph_view, node_check, ordering, outstanding, ready_after, replaced, roots_of, schedule, wrote,
    GraphV,
};
use crate::objects::{accepted_snapshots_are_valid, FileEntryV};
use crate::paths::below;
use crate::transactions::{dependencies_of, EditV, TransactionV};
use crate::views::{
    applied, changed, conflicted, conflicts_of, current, disputed, edits_between, file_at, heads_of, live, live_at,
    recorded, recording, settled, view_snapshot, HeadsV, ViewV,
};

verus! {

// Applying transactions

/// Transactions that do not build on one another can be applied in either
/// order.
pub proof fn independent_transactions_commute(
    view: ViewV,
    a: Seq<char>,
    first: TransactionV,
    b: Seq<char>,
    second: TransactionV,
)
    requires
        a != b,
        !dependencies_of(first).contains(b),
        !dependencies_of(second).contains(a),
    ensures
        applied(applied(view, a, first.edits), b, second.edits) == applied(
            applied(view, b, second.edits),
            a,
            first.edits,
        ),
{
    let left = applied(applied(view, a, first.edits), b, second.edits);
    let right = applied(applied(view, b, second.edits), a, first.edits);
    assert forall|path: Seq<char>| left.contains_key(path) implies left[path] == right[path] by {
        if first.edits.contains_key(path) && second.edits.contains_key(path) {
            assert(!first.edits[path].parents.contains(b));
            assert(!second.edits[path].parents.contains(a));
        }
        assert(left[path] =~= right[path]);
    }
    assert(left =~= right);
}

/// A version that was replaced does not come back when other transactions are
/// applied later.
pub proof fn replaced_versions_stay_absent(
    view: ViewV,
    path: Seq<char>,
    gone: Seq<char>,
    id: Seq<char>,
    transaction: TransactionV,
)
    requires
        id != gone,
        !heads_of(view, path).contains_key(gone),
    ensures
        !heads_of(applied(view, id, transaction.edits), path).contains_key(gone),
{
}

/// A transaction leaves the files that it does not edit as they are.
pub proof fn other_files_stay(view: ViewV, id: Seq<char>, transaction: TransactionV, path: Seq<char>)
    requires
        !transaction.edits.contains_key(path),
    ensures
        applied(view, id, transaction.edits).contains_key(path) == view.contains_key(path),
        heads_of(applied(view, id, transaction.edits), path) == heads_of(view, path),
{
}

/// A transaction that is already part of a graph changes nothing when it is
/// delivered once more.
pub proof fn duplicate_delivery_has_no_effect(graph: GraphV, id: Seq<char>)
    requires
        graph.contains_key(id),
    ensures
        graph.insert(id, graph[id]) == graph,
        graph_view(graph.insert(id, graph[id])) == graph_view(graph),
        roots_of(graph.insert(id, graph[id])) == roots_of(graph),
{
    assert(graph.insert(id, graph[id]) =~= graph);
}

/// Applying one more transaction to the view of a graph gives the view of the
/// larger graph, as long as nothing in it builds on the new transaction.
pub proof fn applying_extends_the_view(graph: GraphV, id: Seq<char>, transaction: TransactionV)
    requires
        !graph.contains_key(id),
        !dependencies_of(transaction).contains(id),
        forall|other: Seq<char>| #[trigger]
            graph.contains_key(other) ==> !dependencies_of(graph[other]).contains(id),
    ensures
        graph_view(graph.insert(id, transaction)) == applied(graph_view(graph), id, transaction.edits),
{
    let larger = graph.insert(id, transaction);
    let left = graph_view(larger);
    let right = applied(graph_view(graph), id, transaction.edits);
    assert forall|other: Seq<char>, path: Seq<char>| other != id implies (#[trigger] wrote(larger, other, path)
        <==> wrote(graph, other, path)) by {}
    assert forall|path: Seq<char>| left.contains_key(path) <==> right.contains_key(path) by {
        if left.contains_key(path) {
            let writer = choose|writer: Seq<char>| wrote(larger, writer, path);
            if writer != id {
                assert(wrote(graph, writer, path));
            }
        }
        if graph_view(graph).contains_key(path) {
            let writer = choose|writer: Seq<char>| wrote(graph, writer, path);
            assert(wrote(larger, writer, path));
        }
        if transaction.edits.contains_key(path) {
            assert(wrote(larger, id, path));
        }
    }
    assert forall|path: Seq<char>| left.contains_key(path) implies left[path] == right[path] by {
        let edits = transaction.edits;
        assert forall|version: Seq<char>| replaced(larger, version, path) <==> replaced(graph, version, path) || (
        edits.contains_key(path) && edits[path].parents.contains(version)) by {
            if replaced(larger, version, path) {
                let later = choose|later: Seq<char>| #[trigger]
                    wrote(larger, later, path) && larger[later].edits[path].parents.contains(version);
                if later != id {
                    assert(wrote(graph, later, path));
                }
            }
            if replaced(graph, version, path) {
                let later = choose|later: Seq<char>| #[trigger]
                    wrote(graph, later, path) && graph[later].edits[path].parents.contains(version);
                assert(wrote(larger, later, path));
            }
            if edits.contains_key(path) && edits[path].parents.contains(version) {
                assert(wrote(larger, id, path));
            }
        }
        assert(!replaced(larger, id, path)) by {
            if replaced(graph, id, path) {
                let later = choose|later: Seq<char>| #[trigger]
                    wrote(graph, later, path) && graph[later].edits[path].parents.contains(id);
                assert(dependencies_of(graph[later]).contains(id));
            }
        }
        if !graph_view(graph).contains_key(path) {
            assert forall|version: Seq<char>| !wrote(graph, version, path) by {}
        }
        assert forall|version: Seq<char>| left[path].contains_key(version) <==> right[path].contains_key(version) by {
            if version != id {
                assert(wrote(larger, version, path) <==> wrote(graph, version, path));
            }
        }
        assert(left[path] =~= right[path]);
    }
    assert(left =~= right);
}

/// The view that results from applying the transactions of `order` one after
/// the other.
pub open spec fn applied_in_order(graph: GraphV, order: Seq<Seq<char>>) -> ViewV
    decreases order.len(),
{
    if order.len() == 0 {
        Map::empty()
    } else {
        applied(applied_in_order(graph, order.drop_last()), order.last(), graph[order.last()].edits)
    }
}

/// `order` lists the graph without repetition, and nothing stands before what
/// it builds on, `known` aside.
pub open spec fn dependency_order(graph: GraphV, known: Set<Seq<char>>, order: Seq<Seq<char>>) -> bool {
    &&& order.no_duplicates()
    &&& forall|id: Seq<char>| #[trigger] order.contains(id) <==> graph.contains_key(id)
    &&& forall|i: int, d: Seq<char>|
        0 <= i < order.len() && #[trigger] outstanding(graph, known, order[i]).contains(d) ==> order.take(
            i,
        ).contains(d)
}

proof fn lemma_prefix_view(graph: GraphV, order: Seq<Seq<char>>, n: int)
    requires
        dependency_order(graph, Set::empty(), order),
        0 <= n <= order.len(),
    ensures
        applied_in_order(graph, order.take(n)) == graph_view(graph.restrict(order.take(n).to_set())),
    decreases n,
{
    if n == 0 {
        let nothing = graph.restrict(order.take(0).to_set());
        assert forall|path: Seq<char>| !graph_view(nothing).contains_key(path) by {
            assert forall|id: Seq<char>| !wrote(nothing, id, path) by {}
        }
        assert(graph_view(nothing) =~= Map::<Seq<char>, HeadsV>::empty());
    } else {
        lemma_prefix_view(graph, order, n - 1);
        let front = order.take(n - 1);
        let all = order.take(n);
        let id = order[n - 1];
        let smaller = graph.restrict(front.to_set());
        let larger = graph.restrict(all.to_set());
        assert(all.drop_last() =~= front);
        assert(all.last() == id);
        assert(all =~= front.push(id));
        assert(order.contains(id));
        assert(!front.contains(id)) by {
            if front.contains(id) {
                let j = choose|j: int| 0 <= j < front.len() && front[j] == id;
                assert(order[j] == id);
            }
        }
        assert forall|x: Seq<char>| all.to_set().contains(x) <==> front.to_set().contains(x) || x == id by {
            crate::collections::lemma_push_contains(front, id, x);
        }
        assert(larger =~= smaller.insert(id, graph[id]));
        assert forall|d: Seq<char>, i: int| 0 <= i < n && dependencies_of(graph[order[i]]).contains(d) implies order.take(
            i,
        ).contains(d) by {
            assert(outstanding(graph, Set::empty(), order[i]).contains(d));
        }
        assert(!dependencies_of(graph[id]).contains(id)) by {
            if dependencies_of(graph[id]).contains(id) {
                assert(order.take(n - 1).contains(id));
            }
        }
        assert forall|other: Seq<char>| #[trigger] smaller.contains_key(other) implies !dependencies_of(
            smaller[other],
        ).contains(id) by {
            let j = choose|j: int| 0 <= j < front.len() && front[j] == other;
            assert(order[j] == other);
            if dependencies_of(graph[other]).contains(id) {
                assert(order.take(j).contains(id));
                let k = choose|k: int| 0 <= k < j && order.take(j)[k] == id;
                assert(front[k] == id);
            }
        }
        applying_extends_the_view(smaller, id, graph[id]);
    }
}

/// Applying the transactions of a graph one after the other, in any order in
/// which dependencies come first, gives the view of the graph. So the view
/// does not depend on the order of arrival.
pub proof fn every_order_gives_the_view(graph: GraphV, order: Seq<Seq<char>>)
    requires
        dependency_order(graph, Set::empty(), order),
    ensures
        applied_in_order(graph, order) == graph_view(graph),
{
    lemma_prefix_view(graph, order, order.len() as int);
    assert(order.take(order.len() as int) =~= order);
    assert(graph.restrict(order.to_set()) =~= graph) by {
        assert forall|id: Seq<char>| graph.contains_key(id) implies order.to_set().contains(id) by {
            assert(order.contains(id));
        }
    }
}

// Order

proof fn lemma_schedule(graph: GraphV, known: Set<Seq<char>>, done: Seq<Seq<char>>)
    requires
        graph.dom().finite(),
        done.no_duplicates(),
        forall|id: Seq<char>| #[trigger] done.contains(id) ==> graph.contains_key(id),
        forall|i: int, d: Seq<char>|
            0 <= i < done.len() && #[trigger] outstanding(graph, known, done[i]).contains(d) ==> done.take(
                i,
            ).contains(d),
    ensures
        ({
            let order = schedule(graph, known, done);
            &&& order.no_duplicates()
            &&& forall|id: Seq<char>| #[trigger] order.contains(id) ==> graph.contains_key(id)
            &&& forall|i: int, d: Seq<char>|
                0 <= i < order.len() && #[trigger] outstanding(graph, known, order[i]).contains(d) ==> order.take(
                    i,
                ).contains(d)
            &&& order.len() <= graph.dom().len()
            &&& ready_after(graph, known, order) == Set::<Seq<char>>::empty() || order.len() == graph.dom().len()
        }),
    decreases graph.dom().len() - done.len(),
{
    done.unique_seq_to_set();
    assert(done.to_set().subset_of(graph.dom()));
    vstd::set_lib::lemma_len_subset(done.to_set(), graph.dom());
    let next = ready_after(graph, known, done);
    if next == Set::<Seq<char>>::empty() || done.len() >= graph.dom().len() {
    } else {
        assert(next.subset_of(graph.dom()));
        vstd::set_lib::lemma_len_subset(next, graph.dom());
        lemma_ordered(next);
        let list = ordered(next);
        assert(list.len() > 0) by {
            if next.len() == 0 {
                assert(next =~= Set::<Seq<char>>::empty());
            }
        }
        let id = list[0];
        assert(list.contains(id));
        assert(next.contains(id));
        let more = done.push(id);
        assert(more.no_duplicates()) by {
            assert forall|a: int, b: int| 0 <= a < more.len() && 0 <= b < more.len() && a != b implies more[a]
                != more[b] by {
                if a < done.len() {
                    assert(done.contains(done[a]));
                }
                if b < done.len() {
                    assert(done.contains(done[b]));
                }
            }
        }
        assert forall|x: Seq<char>| #[trigger] more.contains(x) implies graph.contains_key(x) by {
            crate::collections::lemma_push_contains(done, id, x);
        }
        assert forall|i: int, d: Seq<char>|
            0 <= i < more.len() && #[trigger] outstanding(graph, known, more[i]).contains(d) implies more.take(
            i,
        ).contains(d) by {
            if i < done.len() {
                assert(more.take(i) =~= done.take(i));
                assert(outstanding(graph, known, done[i]).contains(d));
            } else {
                assert(more.take(i) =~= done);
            }
        }
        lemma_schedule(graph, known, more);
    }
}

/// An order that was found lists every transaction once, after everything that
/// it builds on.
pub proof fn found_orders_respect_dependencies(graph: GraphV, known: Set<Seq<char>>)
    requires
        graph.dom().finite(),
        ordering(graph, known) is Ok,
    ensures
        dependency_order(graph, known, ordering(graph, known)->Ok_0),
{
    let none = Seq::<Seq<char>>::empty();
    lemma_schedule(graph, known, none);
    let order = schedule(graph, known, none);
    order.unique_seq_to_set();
    assert(order.to_set().subset_of(graph.dom()));
    vstd::set_lib::lemma_subset_equality(order.to_set(), graph.dom());
    assert forall|id: Seq<char>| #[trigger] order.contains(id) <==> graph.contains_key(id) by {
        assert(order.to_set().contains(id) <==> graph.dom().contains(id));
    }
}

/// An order is found wherever there is one: only a missing dependency or a
/// cycle prevents it.
pub proof fn orders_are_found(graph: GraphV, known: Set<Seq<char>>, witness: Seq<Seq<char>>)
    requires
        graph.dom().finite(),
        dependency_order(graph, known, witness),
    ensures
        ordering(graph, known) is Ok,
{
    let none = Seq::<Seq<char>>::empty();
    lemma_schedule(graph, known, none);
    let order = schedule(graph, known, none);
    if order.len() != graph.dom().len() {
        order.unique_seq_to_set();
        assert(order.to_set().subset_of(graph.dom()));
        if forall|i: int| 0 <= i < witness.len() ==> order.contains(#[trigger] witness[i]) {
            assert(graph.dom().subset_of(order.to_set())) by {
                assert forall|id: Seq<char>| graph.dom().contains(id) implies order.to_set().contains(id) by {
                    assert(graph.contains_key(id));
                    assert(witness.contains(id));
                    let i = choose|i: int| 0 <= i < witness.len() && witness[i] == id;
                    assert(order.contains(witness[i]));
                }
            }
            assert(graph.dom() =~= order.to_set());
        } else {
            let first = lemma_first_missing(witness, order);
            let id = witness[first];
            assert(witness.contains(id));
            assert forall|d: Seq<char>| #[trigger] outstanding(graph, known, id).contains(d) implies order.contains(d) by {
                assert(witness.take(first).contains(d));
                let j = choose|j: int| 0 <= j < first && witness.take(first)[j] == d;
                assert(order.contains(witness[j]));
            }
            assert(ready_after(graph, known, order).contains(id));
        }
    }
}

proof fn lemma_first_missing(witness: Seq<Seq<char>>, order: Seq<Seq<char>>) -> (first: int)
    requires
        !(forall|i: int| 0 <= i < witness.len() ==> order.contains(#[trigger] witness[i])),
    ensures
        0 <= first < witness.len(),
        !order.contains(witness[first]),
        forall|j: int| 0 <= j < first ==> order.contains(#[trigger] witness[j]),
    decreases witness.len(),
{
    let front = witness.drop_last();
    if forall|i: int| 0 <= i < front.len() ==> order.contains(#[trigger] front[i]) {
        let last = witness.len() - 1;
        assert forall|j: int| 0 <= j < last implies order.contains(#[trigger] witness[j]) by {
            assert(order.contains(front[j]));
        }
        last
    } else {
        let first = lemma_first_missing(front, order);
        assert forall|j: int| 0 <= j < first implies order.contains(#[trigger] witness[j]) by {
            assert(order.contains(front[j]));
        }
        first
    }
}

/// In a valid graph the transactions have an order, each stands under its own
/// identity, and everything that one builds on is there.
pub proof fn valid_graphs_are_closed(graph: GraphV)
    requires
        graph.dom().finite(),
        graph_check(graph) is Ok,
    ensures
        dependency_order(graph, Set::empty(), ordering(graph, Set::empty())->Ok_0),
        forall|id: Seq<char>| #[trigger] graph.contains_key(id) ==> node_check(graph, id) is Ok,
        forall|id: Seq<char>, d: Seq<char>|
            graph.contains_key(id) && #[trigger] dependencies_of(graph[id]).contains(d) ==> graph.contains_key(d),
{
    let keys = keys_of(graph);
    lemma_ordered(graph.dom());
    lemma_first_problem(keys, |id: Seq<char>| node_check(graph, id));
    found_orders_respect_dependencies(graph, Set::empty());
    let order = ordering(graph, Set::empty())->Ok_0;
    assert forall|id: Seq<char>| #[trigger] graph.contains_key(id) implies node_check(graph, id) is Ok by {
        assert(graph.dom().contains(id));
        let i = choose|i: int| 0 <= i < keys.len() && keys[i] == id;
        assert((|id: Seq<char>| node_check(graph, id))(keys[i]) is Ok);
    }
    assert forall|id: Seq<char>, d: Seq<char>|
        graph.contains_key(id) && #[trigger] dependencies_of(graph[id]).contains(d) implies graph.contains_key(d) by {
        assert(order.contains(id));
        let i = choose|i: int| 0 <= i < order.len() && order[i] == id;
        assert(outstanding(graph, Set::empty(), order[i]).contains(d));
        assert(order.take(i).contains(d));
        let j = choose|j: int| 0 <= j < i && order.take(i)[j] == d;
        assert(order[j] == d);
        assert(order.contains(d));
    }
}

// Recording

/// Once a recorded transaction is applied, nothing needs a decision and the
/// files are what was recorded, whatever conflicts there were before.
pub proof fn recording_settles_the_view(
    view: ViewV,
    files: Map<Seq<char>, FileEntryV>,
    message: Seq<char>,
    nonce: Seq<char>,
    id: Seq<char>,
)
    requires
        files.dom().finite(),
        forall|path: Seq<char>| #[trigger] view.contains_key(path) ==> view[path].dom().finite(),
        recorded(view, files, message, nonce) is Ok,
    ensures
        ({
            let later = applied(view, id, recorded(view, files, message, nonce)->Ok_0.edits);
            &&& conflicts_of(later) == Set::<Seq<char>>::empty()
            &&& view_snapshot(later) == Ok::<Map<Seq<char>, FileEntryV>, ErrorV>(files)
        }),
{
    let edits = edits_between(view, files);
    let later = applied(view, id, edits);
    accepted_snapshots_are_valid(files);
    assert forall|path: Seq<char>| #[trigger] later.contains_key(path) implies !disputed(later[path]) && current(
        later[path],
    ) == file_at(files, path) && (live(later[path]) <==> files.contains_key(path)) by {
        if edits.contains_key(path) {
            let only = later[path];
            assert(only =~= Map::<Seq<char>, Option<FileEntryV>>::empty().insert(id, file_at(files, path)));
            lemma_single(only, id, file_at(files, path));
        } else {
            assert(!changed(view, files, path));
            assert(view.contains_key(path));
            lemma_settled_heads(view[path]);
        }
    }
    assert forall|path: Seq<char>| !conflicted(later, path) by {
        if conflicted(later, path) {
            let other = choose|other: Seq<char>| #[trigger]
                live_at(later, other) && (below(path, other) || below(other, path));
            assert(files.contains_key(path) && files.contains_key(other));
        }
    }
    assert(conflicts_of(later) =~= Set::<Seq<char>>::empty());
    assert forall|path: Seq<char>| settled(later).contains_key(path) <==> files.contains_key(path) by {
        if files.contains_key(path) && !later.contains_key(path) {
            assert(!edits.contains_key(path));
            assert(!view.contains_key(path));
            assert(heads_of(view, path).dom() =~= Set::<Seq<char>>::empty());
        }
    }
    assert(settled(later) =~= files);
}

proof fn lemma_single(heads: HeadsV, id: Seq<char>, value: Option<FileEntryV>)
    requires
        heads == Map::<Seq<char>, Option<FileEntryV>>::empty().insert(id, value),
    ensures
        !disputed(heads),
        current(heads) == value,
        live(heads) <==> value is Some,
{
    assert(heads.contains_key(id));
    let keys = seq![id];
    assert(lists(keys, heads.dom())) by {
        assert forall|k: Seq<char>| #[trigger] heads.dom().contains(k) <==> keys.contains(k) by {
            if k == id {
                assert(keys[0] == k);
            }
        }
    }
    lemma_ordered_is(keys, heads.dom());
    assert(heads.dom().contains(id));
    if value is Some {
        assert(heads.contains_key(id) && heads[id] is Some);
    }
}

proof fn lemma_settled_heads(heads: HeadsV)
    requires
        !disputed(heads),
        heads.dom().finite(),
    ensures
        live(heads) <==> current(heads) is Some,
{
    let keys = keys_of(heads);
    lemma_ordered(heads.dom());
    if live(heads) {
        let id = choose|id: Seq<char>| #[trigger] heads.contains_key(id) && heads[id] is Some;
        assert(heads.dom().contains(id));
        assert(keys.len() > 0) by {
            assert(keys.contains(id));
        }
        assert(keys.contains(keys[0]));
        assert(heads.dom().contains(keys[0]));
        assert(heads.contains_key(keys[0]) && heads.contains_key(id));
    }
    if current(heads) is Some {
        assert(keys.len() > 0) by {
            if keys.len() == 0 {
                assert(heads.dom() =~= Set::<Seq<char>>::empty());
            }
        }
        assert(keys.contains(keys[0]));
        assert(heads.dom().contains(keys[0]));
        assert(heads.contains_key(keys[0]) && heads[keys[0]] is Some);
    }
}

/// A recorded transaction edits exactly the files that changed or needed a
/// decision, and each edit replaces every version that the view held.
pub proof fn recording_replaces_every_version(
    view: ViewV,
    files: Map<Seq<char>, FileEntryV>,
    message: Seq<char>,
    nonce: Seq<char>,
    path: Seq<char>,
)
    requires
        recorded(view, files, message, nonce) is Ok,
    ensures
        ({
            let edits = recorded(view, files, message, nonce)->Ok_0.edits;
            &&& edits.contains_key(path) <==> changed(view, files, path)
            &&& edits.contains_key(path) ==> edits[path].parents == heads_of(view, path).dom()
                && edits[path].value == file_at(files, path)
        }),
{
}

/// Recording what a settled view already holds records no edit.
pub proof fn nothing_to_record(
    view: ViewV,
    message: Seq<char>,
    nonce: Seq<char>,
)
    requires
        view_snapshot(view) is Ok,
    ensures
        recording(view, view_snapshot(view)->Ok_0, message, nonce).edits == Map::<Seq<char>, EditV>::empty(),
{
    let files = settled(view);
    let edits = edits_between(view, files);
    assert forall|path: Seq<char>| !edits.contains_key(path) by {
        if changed(view, files, path) {
            assert(!conflicts_of(view).contains(path));
            if !view.contains_key(path) {
                assert(heads_of(view, path).dom() =~= Set::<Seq<char>>::empty());
            }
        }
    }
    assert(edits =~= Map::<Seq<char>, EditV>::empty());
}

// Identity

/// What both graphs call by the same identity is the same transaction.
pub open spec fn agree(a: GraphV, b: GraphV) -> bool {
    forall|id: Seq<char>| a.contains_key(id) && #[trigger] b.contains_key(id) ==> a[id] == b[id]
}

/// From the back of an order: whatever stands there is in any closed graph with
/// the same roots.
proof fn lemma_reached(a: GraphV, b: GraphV, order: Seq<Seq<char>>, n: int)
    requires
        dependency_order(a, Set::empty(), order),
        agree(a, b),
        roots_of(a) == roots_of(b),
        forall|id: Seq<char>, d: Seq<char>|
            b.contains_key(id) && #[trigger] dependencies_of(b[id]).contains(d) ==> b.contains_key(d),
        0 <= n <= order.len(),
    ensures
        forall|i: int| n <= i < order.len() ==> b.contains_key(#[trigger] order[i]),
    decreases order.len() - n,
{
    if n < order.len() {
        lemma_reached(a, b, order, n + 1);
        let id = order[n];
        assert(order.contains(id));
        if roots_of(a).contains(id) {
            assert(roots_of(b).contains(id));
        } else {
            let later = choose|later: Seq<char>| #[trigger]
                a.contains_key(later) && dependencies_of(a[later]).contains(id);
            assert(order.contains(later));
            let k = choose|k: int| 0 <= k < order.len() && order[k] == later;
            assert(outstanding(a, Set::empty(), order[k]).contains(id));
            assert(order.take(k).contains(id));
            let j = choose|j: int| 0 <= j < k && order.take(k)[j] == id;
            assert(order[j] == order[n]);
            assert(j == n);
            assert(b.contains_key(order[k]));
            assert(a[later] == b[later]);
            assert(dependencies_of(b[later]).contains(id));
        }
    }
}

/// The roots of a history fix it: two valid graphs with the same roots hold the
/// same transactions, so the identity that is made of the roots stands for one
/// exact set of work and one view.
pub proof fn roots_fix_the_history(a: GraphV, b: GraphV)
    requires
        a.dom().finite(),
        b.dom().finite(),
        graph_check(a) is Ok,
        graph_check(b) is Ok,
        agree(a, b),
        roots_of(a) == roots_of(b),
    ensures
        a == b,
        graph_view(a) == graph_view(b),
{
    valid_graphs_are_closed(a);
    valid_graphs_are_closed(b);
    let first = ordering(a, Set::empty())->Ok_0;
    let second = ordering(b, Set::empty())->Ok_0;
    lemma_reached(a, b, first, 0);
    lemma_reached(b, a, second, 0);
    assert forall|id: Seq<char>| a.contains_key(id) <==> b.contains_key(id) by {
        if a.contains_key(id) {
            assert(first.contains(id));
        }
        if b.contains_key(id) {
            assert(second.contains(id));
        }
    }
    assert(a =~= b);
}

} // verus!
