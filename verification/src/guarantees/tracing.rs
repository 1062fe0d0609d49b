//! What holds of histories: what they depend on, what they amount to, and how
//! they are exchanged.
use vstd::prelude::*;

use crate::collections::{keys_of, lemma_ordered, ordered};
use crate::error::{first_problem, lemma_first_problem};
use crate::graphs::{graph_check, graph_view, node_check, ordering, ready_after, roots_of, schedule, view_of, GraphV};
use crate::index::{
    addition_check, boundaries_check, boundary_check, boundary_of, parents_among, sound_length,
};
use crate::laws::{dependency_order, orders_are_found, valid_graphs_are_closed};
use crate::merge::{common_ancestry, goes_back, is_chain, mergeable, merged_mode, nearest_common};
use crate::objects::{EntryKind, FileEntryV};
use crate::paths::below;
use crate::remote::{needed, selected_values};
use crate::replication::{concerns, is_told, scoped};
use crate::selection::{covers, selects, touches};
use crate::sync::{after_round, delivery_check, lacking, OutgoingV, RepliesV};
use crate::text::before;
use crate::transactions::{
    dependencies_of, parents_check, presence_check, transaction_check, transaction_id, write_check, EditV, TransactionV,
};
use crate::views::{applied, ViewV};

verus! {

// Versions of files

/// Applying a transaction to a view puts its version of each file that it edits
/// in place of those that it names, beside all others. Other files stay.
pub proof fn edits_replace_what_they_name(
    view: ViewV,
    id: Seq<char>,
    edits: Map<Seq<char>, EditV>,
    path: Seq<char>,
    other: Seq<char>,
)
    ensures
        ({
            let after = applied(view, id, edits);
            &&& after.contains_key(path) <==> view.contains_key(path) || edits.contains_key(path)
            &&& edits.contains_key(path) ==> after[path].contains_key(id) && after[path][id] == edits[path].value
            &&& edits.contains_key(path) && other != id ==> (after[path].contains_key(other) <==> view.contains_key(path)
                && view[path].contains_key(other) && !edits[path].parents.contains(other))
            &&& edits.contains_key(path) && other != id && after[path].contains_key(other) ==> after[path][other]
                == view[path][other]
            &&& !edits.contains_key(path) && view.contains_key(path) ==> after[path] == view[path]
        }),
{
}

/// A history amounts to a view of the files that it ever wrote. The versions of
/// a file are those that some transaction wrote and none replaced, with the
/// value that it gave.
pub proof fn views_hold_what_was_not_replaced(graph: GraphV, path: Seq<char>, id: Seq<char>)
    ensures
        graph_view(graph).contains_key(path) <==> exists|writer: Seq<char>| #[trigger]
            graph.contains_key(writer) && graph[writer].edits.contains_key(path),
        graph_view(graph).contains_key(path) ==> {
            &&& graph_view(graph)[path].contains_key(id) <==> graph.contains_key(id) && graph[id].edits.contains_key(path)
                && forall|later: Seq<char>| #[trigger]
                graph.contains_key(later) && graph[later].edits.contains_key(path)
                    ==> !graph[later].edits[path].parents.contains(id)
            &&& graph_view(graph)[path].contains_key(id) ==> graph_view(graph)[path][id] == graph[id].edits[path].value
        },
{
    if exists|writer: Seq<char>| #[trigger] graph.contains_key(writer) && graph[writer].edits.contains_key(path) {
        let writer = choose|writer: Seq<char>| #[trigger]
            graph.contains_key(writer) && graph[writer].edits.contains_key(path);
        assert(crate::graphs::wrote(graph, writer, path));
    }
    if graph_view(graph).contains_key(path) && graph_view(graph)[path].contains_key(id) {
        assert forall|later: Seq<char>| #[trigger]
            graph.contains_key(later) && graph[later].edits.contains_key(
                path,
            ) implies !graph[later].edits[path].parents.contains(id) by {
            assert(crate::graphs::wrote(graph, later, path));
        }
    }
}

/// A transaction depends on every version that one of its edits replaces.
pub proof fn dependencies_are_what_is_replaced(transaction: TransactionV, id: Seq<char>)
    ensures
        dependencies_of(transaction).contains(id) <==> exists|path: Seq<char>| #[trigger]
            transaction.edits.contains_key(path) && transaction.edits[path].parents.contains(id),
{
}

/// The roots of a history are the transactions that no other there depends on.
/// Whatever is no root was replaced in some file.
pub proof fn roots_are_what_nothing_depends_on(graph: GraphV, id: Seq<char>)
    ensures
        roots_of(graph).contains(id) ==> graph.contains_key(id),
        graph.contains_key(id) ==> (!roots_of(graph).contains(id) <==> exists|later: Seq<char>, path: Seq<char>|
            #![trigger graph[later].edits[path]]
            graph.contains_key(later) && graph[later].edits.contains_key(path) && graph[later].edits[path].parents.contains(
                id,
            )),
{
    if graph.contains_key(id) && !roots_of(graph).contains(id) {
        let later = choose|later: Seq<char>| #[trigger]
            graph.contains_key(later) && dependencies_of(graph[later]).contains(id);
        let path = choose|path: Seq<char>| #[trigger]
            graph[later].edits.contains_key(path) && graph[later].edits[path].parents.contains(id);
        assert(graph[later].edits[path].parents.contains(id));
    }
    if exists|later: Seq<char>, path: Seq<char>|
        #![trigger graph[later].edits[path]]
        graph.contains_key(later) && graph[later].edits.contains_key(path) && graph[later].edits[path].parents.contains(
            id,
        ) {
        let (later, path) = choose|later: Seq<char>, path: Seq<char>|
            #![trigger graph[later].edits[path]]
            graph.contains_key(later) && graph[later].edits.contains_key(path) && graph[later].edits[path].parents.contains(
                id,
            );
        assert(dependencies_of(graph[later]).contains(id));
    }
}

// Valid histories

/// Every edit of a transaction names versions that `known` holds under their
/// own identities, and that wrote the file.
pub open spec fn grounded(transaction: TransactionV, known: GraphV) -> bool {
    forall|path: Seq<char>, id: Seq<char>|
        #![trigger transaction.edits[path].parents.contains(id)]
        transaction.edits.contains_key(path) && transaction.edits[path].parents.contains(id) ==> {
            &&& known.contains_key(id)
            &&& transaction_id(known[id]) == id
            &&& known[id].edits.contains_key(path)
        }
}

/// The edits of a transaction are finite.
pub open spec fn bounded(transaction: TransactionV) -> bool {
    &&& transaction.edits.dom().finite()
    &&& dependencies_of(transaction).finite()
    &&& forall|path: Seq<char>| #[trigger]
        transaction.edits.contains_key(path) ==> transaction.edits[path].parents.finite()
}

proof fn lemma_checked_all(
    set: Set<Seq<char>>,
    check: spec_fn(Seq<char>) -> Result<(), crate::error::ErrorV>,
)
    requires
        set.finite(),
    ensures
        first_problem(ordered(set), check) is Ok <==> forall|key: Seq<char>| set.contains(key) ==> #[trigger] check(
            key,
        ) is Ok,
{
    let keys = ordered(set);
    lemma_ordered(set);
    lemma_first_problem(keys, check);
    if first_problem(keys, check) is Ok {
        assert forall|key: Seq<char>| set.contains(key) implies #[trigger] check(key) is Ok by {
            assert(keys.contains(key));
            let i = choose|i: int| 0 <= i < keys.len() && keys[i] == key;
            assert(check(keys[i]) is Ok);
        }
    } else {
        let i = choose|i: int| 0 <= i < keys.len() && check(#[trigger] keys[i]) is Err;
        assert(keys.contains(keys[i]));
        assert(set.contains(keys[i]));
    }
}

/// A transaction is accepted beside known ones if and only if it is valid and
/// each version that an edit replaces is known and wrote that file.
pub proof fn parents_are_known_and_wrote_the_file(transaction: TransactionV, known: GraphV)
    requires
        bounded(transaction),
    ensures
        parents_check(transaction, known) is Ok <==> transaction_check(transaction) is Ok && grounded(transaction, known),
{
    let all = dependencies_of(transaction);
    let present_in = |id: Seq<char>| presence_check(known, id);
    let written_in = |path: Seq<char>|
        first_problem(ordered(transaction.edits[path].parents), |id: Seq<char>| write_check(known, path, id));
    lemma_checked_all(all, present_in);
    lemma_checked_all(transaction.edits.dom(), written_in);
    assert forall|path: Seq<char>| #[trigger] transaction.edits.contains_key(path) implies (written_in(path) is Ok
        <==> forall|id: Seq<char>| #[trigger]
        transaction.edits[path].parents.contains(id) ==> write_check(known, path, id) is Ok) by {
        let check = |id: Seq<char>| write_check(known, path, id);
        lemma_checked_all(transaction.edits[path].parents, check);
        if written_in(path) is Ok {
            assert forall|id: Seq<char>| #[trigger] transaction.edits[path].parents.contains(id) implies write_check(
                known,
                path,
                id,
            ) is Ok by {
                assert(check(id) is Ok);
            }
        }
    }
    if transaction_check(transaction) is Ok {
        if parents_check(transaction, known) is Ok {
            assert forall|path: Seq<char>, id: Seq<char>|
                #![trigger transaction.edits[path].parents.contains(id)]
                transaction.edits.contains_key(path) && transaction.edits[path].parents.contains(id) implies {
                &&& known.contains_key(id)
                &&& transaction_id(known[id]) == id
                &&& known[id].edits.contains_key(path)
            } by {
                assert(all.contains(id));
                assert(present_in(id) is Ok);
                assert(transaction.edits.dom().contains(path));
                assert(written_in(path) is Ok);
                assert(write_check(known, path, id) is Ok);
            }
        }
        if grounded(transaction, known) {
            assert forall|id: Seq<char>| all.contains(id) implies #[trigger] present_in(id) is Ok by {
                let path = choose|path: Seq<char>| #[trigger]
                    transaction.edits.contains_key(path) && transaction.edits[path].parents.contains(id);
                assert(transaction.edits[path].parents.contains(id));
            }
            assert forall|path: Seq<char>| transaction.edits.dom().contains(path) implies #[trigger] written_in(
                path,
            ) is Ok by {
                assert(transaction.edits.contains_key(path));
                assert forall|id: Seq<char>| #[trigger]
                    transaction.edits[path].parents.contains(id) implies write_check(known, path, id) is Ok by {}
            }
        }
    }
}

/// A history is accepted if and only if every transaction is valid, stands
/// under its own identity and replaces only versions in the history that wrote
/// the same file, and all of them can be put in an order in which each comes
/// after what it depends on.
pub proof fn histories_are_accepted_by_their_transactions(graph: GraphV)
    requires
        graph.dom().finite(),
        forall|id: Seq<char>| #[trigger] graph.contains_key(id) ==> bounded(graph[id]),
    ensures
        graph_check(graph) is Ok <==> {
            &&& forall|id: Seq<char>| #[trigger]
                graph.contains_key(id) ==> transaction_id(graph[id]) == id && transaction_check(graph[id]) is Ok
                    && grounded(graph[id], graph)
            &&& exists|order: Seq<Seq<char>>| dependency_order(graph, Set::empty(), order)
        },
{
    let check = |id: Seq<char>| node_check(graph, id);
    lemma_checked_all(graph.dom(), check);
    assert forall|id: Seq<char>| #[trigger] graph.contains_key(id) implies (check(id) is Ok <==> transaction_id(graph[id])
        == id && transaction_check(graph[id]) is Ok && grounded(graph[id], graph)) by {
        parents_are_known_and_wrote_the_file(graph[id], graph);
    }
    if graph_check(graph) is Ok {
        valid_graphs_are_closed(graph);
        assert(dependency_order(graph, Set::empty(), ordering(graph, Set::empty())->Ok_0));
        assert forall|id: Seq<char>| #[trigger] graph.contains_key(id) implies transaction_id(graph[id]) == id
            && transaction_check(graph[id]) is Ok && grounded(graph[id], graph) by {
            assert(graph.dom().contains(id));
            assert(check(id) is Ok);
        }
    }
    if (forall|id: Seq<char>| #[trigger]
        graph.contains_key(id) ==> transaction_id(graph[id]) == id && transaction_check(graph[id]) is Ok && grounded(
            graph[id],
            graph,
        )) && exists|order: Seq<Seq<char>>| dependency_order(graph, Set::empty(), order) {
        let order = choose|order: Seq<Seq<char>>| dependency_order(graph, Set::empty(), order);
        orders_are_found(graph, Set::empty(), order);
        assert forall|id: Seq<char>| graph.dom().contains(id) implies #[trigger] check(id) is Ok by {
            assert(graph.contains_key(id));
        }
    }
}

/// The transaction at a place of an order is the first of those that can stand
/// there.
spec fn first_ready(graph: GraphV, known: Set<Seq<char>>, order: Seq<Seq<char>>, i: int) -> bool {
    &&& ready_after(graph, known, order.take(i)) != Set::<Seq<char>>::empty()
    &&& order[i] == ordered(ready_after(graph, known, order.take(i)))[0]
}

proof fn lemma_schedule_goes_on(graph: GraphV, known: Set<Seq<char>>, done: Seq<Seq<char>>)
    ensures
        done.len() <= schedule(graph, known, done).len(),
        schedule(graph, known, done).take(done.len() as int) == done,
        forall|i: int|
            done.len() <= i < schedule(graph, known, done).len() ==> #[trigger] first_ready(
                graph,
                known,
                schedule(graph, known, done),
                i,
            ),
    decreases graph.dom().len() - done.len(),
{
    let next = ready_after(graph, known, done);
    let order = schedule(graph, known, done);
    if next == Set::<Seq<char>>::empty() || done.len() >= graph.dom().len() {
        assert(order.take(done.len() as int) =~= done);
    } else {
        let more = done.push(ordered(next)[0]);
        lemma_schedule_goes_on(graph, known, more);
        assert(order == schedule(graph, known, more));
        assert(order.take(done.len() as int) =~= order.take(more.len() as int).take(done.len() as int));
        assert(more.take(done.len() as int) =~= done);
        assert(order[done.len() as int] == order.take(more.len() as int)[done.len() as int]);
        assert forall|i: int| done.len() <= i < order.len() implies #[trigger] first_ready(graph, known, order, i) by {
            if i == done.len() {
                assert(order.take(i) == done);
            } else {
                assert(first_ready(graph, known, schedule(graph, known, more), i));
            }
        }
    }
}

/// The order that is found is the one in which, each time, the first identity
/// comes next whose dependencies have come: no other transaction that could
/// stand in its place comes before it in the order of identities.
pub proof fn the_first_that_can_come_comes_next(graph: GraphV, known: Set<Seq<char>>, i: int, other: Seq<char>)
    requires
        graph.dom().finite(),
        ordering(graph, known) is Ok,
        0 <= i < ordering(graph, known)->Ok_0.len(),
        graph.contains_key(other),
        !ordering(graph, known)->Ok_0.take(i).contains(other),
        forall|d: Seq<char>| #[trigger]
            dependencies_of(graph[other]).contains(d) ==> known.contains(d) || ordering(graph, known)->Ok_0.take(i).contains(
                d,
            ),
    ensures
        ordering(graph, known)->Ok_0[i] == other || before(ordering(graph, known)->Ok_0[i], other),
{
    let order = ordering(graph, known)->Ok_0;
    let ready = ready_after(graph, known, order.take(i));
    lemma_schedule_goes_on(graph, known, Seq::empty());
    assert(first_ready(graph, known, order, i));
    assert(ready.subset_of(graph.dom()));
    vstd::set_lib::lemma_set_subset_finite(graph.dom(), ready);
    lemma_ordered(ready);
    assert(ready.contains(other));
    let keys = ordered(ready);
    assert(keys.contains(other));
    let j = choose|j: int| 0 <= j < keys.len() && keys[j] == other;
    if j > 0 {
        assert(before(keys[0], keys[j]));
    }
}

// Sending and fetching

/// A transaction that is delivered is taken if and only if it is valid and has
/// the identity that was asked for.
pub proof fn deliveries_are_what_was_asked_for(id: Seq<char>, transaction: TransactionV)
    ensures
        delivery_check(id, transaction) is Ok <==> transaction_check(transaction) is Ok && transaction_id(transaction)
            == id,
{
}

proof fn lemma_lacking(missing: GraphV, replies: RepliesV, id: Seq<char>)
    ensures
        lacking(missing, replies).contains_key(id) <==> missing.contains_key(id) || exists|i: int|
            0 <= i < replies.len() && (#[trigger] replies[i]).0 == id && replies[i].1 is Some,
        (forall|i: int| 0 <= i < replies.len() ==> (#[trigger] replies[i]).0 != id || replies[i].1 is None)
            && missing.contains_key(id) ==> lacking(missing, replies)[id] == missing[id],
        (exists|i: int| 0 <= i < replies.len() && (#[trigger] replies[i]).0 == id && replies[i].1 is Some) ==> exists|
            i: int,
        | 0 <= i < replies.len() && (#[trigger] replies[i]).0 == id && replies[i].1 == Some(lacking(missing, replies)[id]),
    decreases replies.len(),
{
    if replies.len() > 0 {
        let head = replies.drop_last();
        lemma_lacking(missing, head, id);
        let n = replies.len() - 1;
        assert(replies[n] == replies.last());
        assert forall|i: int| 0 <= i < head.len() implies #[trigger] head[i] == replies[i] by {}
        if exists|i: int| 0 <= i < replies.len() && (#[trigger] replies[i]).0 == id && replies[i].1 is Some {
            let i = choose|i: int| 0 <= i < replies.len() && (#[trigger] replies[i]).0 == id && replies[i].1 is Some;
            if replies[n].0 == id && replies[n].1 is Some {
                assert(replies[n].1 == Some(lacking(missing, replies)[id]));
            } else {
                assert(head[i] == replies[i]);
                let j = choose|j: int|
                    0 <= j < head.len() && (#[trigger] head[j]).0 == id && head[j].1 == Some(lacking(missing, head)[id]);
                assert(replies[j] == head[j]);
                assert(replies[j].1 == Some(lacking(missing, replies)[id]));
            }
        }
        if exists|i: int| 0 <= i < head.len() && (#[trigger] head[i]).0 == id && head[i].1 is Some {
            let i = choose|i: int| 0 <= i < head.len() && (#[trigger] head[i]).0 == id && head[i].1 is Some;
            assert(replies[i] == head[i]);
        }
    }
}

/// After a round of answers, what the remote lacks is what it was known to lack
/// and what it answered to lack. What it has, it was known or answered to have.
/// To be asked about next is what the answers depend on and nothing is known of
/// yet.
pub proof fn rounds_take_in_the_answers(state: OutgoingV, replies: RepliesV, id: Seq<char>)
    ensures
        ({
            let after = after_round(state, replies);
            &&& after.missing.contains_key(id) <==> state.missing.contains_key(id) || exists|i: int|
                0 <= i < replies.len() && (#[trigger] replies[i]).0 == id && replies[i].1 is Some
            &&& after.missing.contains_key(id) ==> state.missing.contains_key(id) && after.missing[id]
                == state.missing[id] || exists|i: int|
                0 <= i < replies.len() && (#[trigger] replies[i]) == (id, Some(after.missing[id]))
            &&& after.known.contains(id) <==> state.known.contains(id) || exists|i: int|
                0 <= i < replies.len() && (#[trigger] replies[i]).0 == id && replies[i].1 is None
            &&& after.todo.contains(id) <==> !after.missing.contains_key(id) && !after.known.contains(id) && exists|i: int|
                0 <= i < replies.len() && (#[trigger] replies[i]).1 is Some && dependencies_of(
                    replies[i].1->0,
                ).contains(id)
        }),
{
    lemma_lacking(state.missing, replies, id);
}

/// Additions to a history can be taken in if and only if everything that they
/// depend on is among them or known already. What they rest on is the part
/// that is not among them.
pub proof fn additions_rest_on_what_is_known(additions: GraphV, known: Set<Seq<char>>, parent: Seq<char>)
    requires
        additions.dom().finite(),
        forall|id: Seq<char>| #[trigger] additions.contains_key(id) ==> dependencies_of(additions[id]).finite(),
    ensures
        boundaries_check(additions, known) is Ok <==> forall|id: Seq<char>, d: Seq<char>|
            additions.contains_key(id) && #[trigger] dependencies_of(additions[id]).contains(d)
                ==> additions.contains_key(d) || known.contains(d),
        boundary_of(additions).contains(parent) <==> !additions.contains_key(parent) && exists|id: Seq<char>| #[trigger]
            additions.contains_key(id) && dependencies_of(additions[id]).contains(parent),
{
    let check = |id: Seq<char>|
        first_problem(
            ordered(dependencies_of(additions[id])),
            |parent: Seq<char>| boundary_check(additions, known, parent),
        );
    let inner = |parent: Seq<char>| boundary_check(additions, known, parent);
    lemma_checked_all(additions.dom(), check);
    assert forall|id: Seq<char>| #[trigger] additions.contains_key(id) implies (check(id) is Ok <==> forall|d: Seq<char>|
     #[trigger]
        dependencies_of(additions[id]).contains(d) ==> additions.contains_key(d) || known.contains(d)) by {
        lemma_checked_all(dependencies_of(additions[id]), inner);
        if check(id) is Ok {
            assert forall|d: Seq<char>| #[trigger]
                dependencies_of(additions[id]).contains(d) implies additions.contains_key(d) || known.contains(d) by {
                assert(inner(d) is Ok);
            }
        }
    }
    if boundaries_check(additions, known) is Ok {
        assert forall|id: Seq<char>, d: Seq<char>|
            additions.contains_key(id) && #[trigger] dependencies_of(additions[id]).contains(
                d,
            ) implies additions.contains_key(d) || known.contains(d) by {
            assert(additions.dom().contains(id));
            assert(check(id) is Ok);
        }
    }
}

/// An addition is sound if and only if it stands under its own identity, is
/// valid, and replaces versions that are known or added beside it and wrote the
/// same file.
pub proof fn additions_are_sound_beside_what_is_known(additions: GraphV, known: GraphV, id: Seq<char>)
    requires
        bounded(additions[id]),
    ensures
        addition_check(additions, known, id) is Ok <==> {
            &&& transaction_id(additions[id]) == id
            &&& transaction_check(additions[id]) is Ok
            &&& grounded(additions[id], known.union_prefer_right(additions))
        },
{
    let all = known.union_prefer_right(additions);
    let among = parents_among(additions, known, id);
    parents_are_known_and_wrote_the_file(additions[id], among);
    assert forall|path: Seq<char>, d: Seq<char>|
        #![trigger additions[id].edits[path].parents.contains(d)]
        additions[id].edits.contains_key(path) && additions[id].edits[path].parents.contains(d) implies (
    among.contains_key(d) <==> all.contains_key(d)) && (among.contains_key(d) ==> among[d] == all[d]) by {
        assert(dependencies_of(additions[id]).contains(d));
    }
}

/// How many items come before the first for which something does not hold.
#[verifier::opaque]
spec fn leading_length(order: Seq<Seq<char>>, holds: spec_fn(Seq<char>) -> bool) -> int
    decreases order.len(),
{
    if order.len() == 0 {
        0
    } else {
        let earlier = leading_length(order.drop_last(), holds);
        if earlier == order.len() - 1 && holds(order.last()) {
            order.len() as int
        } else {
            earlier
        }
    }
}

proof fn lemma_leading_length(order: Seq<Seq<char>>, holds: spec_fn(Seq<char>) -> bool, i: int)
    ensures
        0 <= leading_length(order, holds) <= order.len(),
        0 <= i < leading_length(order, holds) ==> holds(order[i]),
        leading_length(order, holds) < order.len() ==> !holds(order[leading_length(order, holds)]),
    decreases order.len(),
{
    reveal_with_fuel(leading_length, 2);
    if order.len() > 0 {
        lemma_leading_length(order.drop_last(), holds, i);
    }
}

proof fn lemma_sound_length(order: Seq<Seq<char>>, additions: GraphV, known: GraphV)
    ensures
        sound_length(order, additions, known) == leading_length(
            order,
            |id: Seq<char>| addition_check(additions, known, id) is Ok,
        ),
    decreases order.len(),
{
    reveal_with_fuel(leading_length, 2);
    if order.len() > 0 {
        lemma_sound_length(order.drop_last(), additions, known);
    }
}

/// Additions are taken in up to the first that is not sound.
pub proof fn additions_are_taken_up_to_the_first_problem(
    order: Seq<Seq<char>>,
    additions: GraphV,
    known: GraphV,
    i: int,
)
    ensures
        ({
            let n = sound_length(order, additions, known);
            &&& 0 <= n <= order.len()
            &&& 0 <= i < n ==> addition_check(additions, known, order[i]) is Ok
            &&& n < order.len() ==> addition_check(additions, known, order[n]) is Err
        }),
{
    lemma_sound_length(order, additions, known);
    lemma_leading_length(order, |id: Seq<char>| addition_check(additions, known, id) is Ok, i);
}

/// The view of a history is known if and only if the history is valid.
pub proof fn valid_histories_have_views(graph: GraphV)
    ensures
        view_of(graph) is Ok <==> graph_check(graph) is Ok,
        view_of(graph) is Ok ==> view_of(graph)->Ok_0 == graph_view(graph),
{
}

proof fn lemma_selected_values(
    edits: Map<Seq<char>, EditV>,
    paths: Seq<Seq<char>>,
    selection: Seq<Seq<char>>,
    entry: FileEntryV,
)
    ensures
        selected_values(edits, paths, selection).contains(entry) <==> exists|i: int|
            0 <= i < paths.len() && selects(selection, #[trigger] paths[i]) && edits[paths[i]].value == Some(entry),
    decreases paths.len(),
{
    if paths.len() > 0 {
        let head = paths.drop_last();
        let n = paths.len() - 1;
        lemma_selected_values(edits, head, selection, entry);
        let earlier = selected_values(edits, head, selection);
        let all = selected_values(edits, paths, selection);
        assert forall|i: int| 0 <= i < head.len() implies #[trigger] head[i] == paths[i] by {}
        if all.contains(entry) {
            let k = choose|k: int| 0 <= k < all.len() && all[k] == entry;
            if k < earlier.len() {
                assert(earlier[k] == entry);
                let i = choose|i: int|
                    0 <= i < head.len() && selects(selection, #[trigger] head[i]) && edits[head[i]].value == Some(entry);
                assert(paths[i] == head[i]);
            } else {
                assert(paths[n] == paths.last());
            }
        }
        if exists|i: int|
            0 <= i < paths.len() && selects(selection, #[trigger] paths[i]) && edits[paths[i]].value == Some(entry) {
            let i = choose|i: int|
                0 <= i < paths.len() && selects(selection, #[trigger] paths[i]) && edits[paths[i]].value == Some(entry);
            if i < n {
                assert(head[i] == paths[i]);
                let k = choose|k: int| 0 <= k < earlier.len() && earlier[k] == entry;
                assert(all[k] == entry);
            } else {
                assert(all.last() == entry);
                assert(all[all.len() - 1] == entry);
            }
        }
    }
}

/// Of a transaction, what it came from is fetched, and the content of every
/// file that it writes in the selection. Nothing else is.
pub proof fn selected_content_is_fetched(transaction: TransactionV, selection: Seq<Seq<char>>, entry: FileEntryV)
    requires
        transaction.edits.dom().finite(),
    ensures
        needed(transaction, selection).contains(entry) <==> transaction.provenance == Some(entry) || exists|
            path: Seq<char>,
        | #[trigger]
            transaction.edits.contains_key(path) && selects(selection, path) && transaction.edits[path].value == Some(
                entry,
            ),
{
    let keys = keys_of(transaction.edits);
    lemma_ordered(transaction.edits.dom());
    lemma_selected_values(transaction.edits, keys, selection, entry);
    let values = selected_values(transaction.edits, keys, selection);
    let all = needed(transaction, selection);
    let skip = all.len() - values.len();
    if all.contains(entry) {
        let k = choose|k: int| 0 <= k < all.len() && all[k] == entry;
        if k >= skip {
            assert(values[k - skip] == entry);
            let i = choose|i: int|
                0 <= i < keys.len() && selects(selection, #[trigger] keys[i]) && transaction.edits[keys[i]].value
                    == Some(entry);
            assert(keys.contains(keys[i]));
            assert(transaction.edits.dom().contains(keys[i]));
            assert(transaction.edits.contains_key(keys[i]));
        }
    }
    if transaction.provenance == Some(entry) {
        assert(all[0] == entry);
    }
    if exists|path: Seq<char>| #[trigger]
        transaction.edits.contains_key(path) && selects(selection, path) && transaction.edits[path].value == Some(
            entry,
        ) {
        let path = choose|path: Seq<char>| #[trigger]
            transaction.edits.contains_key(path) && selects(selection, path) && transaction.edits[path].value == Some(
                entry,
            );
        assert(transaction.edits.dom().contains(path));
        assert(keys.contains(path));
        let i = choose|i: int| 0 <= i < keys.len() && keys[i] == path;
        assert(selects(selection, keys[i]));
        let k = choose|k: int| 0 <= k < values.len() && values[k] == entry;
        assert(all[skip + k] == entry);
    }
}

/// The entries to fetch are as many as the files that a transaction writes in
/// the selection, and one more where it came from somewhere, which is the
/// first.
pub proof fn content_is_fetched_once_for_each_file(transaction: TransactionV, selection: Seq<Seq<char>>)
    ensures
        needed(transaction, selection).len() == keys_of(transaction.edits).filter(
            |path: Seq<char>| transaction.edits[path].value is Some && selects(selection, path),
        ).len() + (if transaction.provenance is Some {
            1nat
        } else {
            0nat
        }),
        transaction.provenance is Some ==> needed(transaction, selection)[0] == transaction.provenance->0,
{
    lemma_values_counted(transaction.edits, keys_of(transaction.edits), selection);
}

proof fn lemma_values_counted(edits: Map<Seq<char>, EditV>, paths: Seq<Seq<char>>, selection: Seq<Seq<char>>)
    ensures
        selected_values(edits, paths, selection).len() == paths.filter(
            |path: Seq<char>| edits[path].value is Some && selects(selection, path),
        ).len(),
    decreases paths.len(),
{
    reveal(Seq::filter);
    if paths.len() > 0 {
        lemma_values_counted(edits, paths.drop_last(), selection);
    }
}

/// A transaction concerns a selection if the selection is empty or one of its
/// files is listed there, lies below what is listed, or above it.
pub proof fn transactions_concern_what_they_touch(transaction: TransactionV, selection: Seq<Seq<char>>)
    ensures
        concerns(transaction, selection) <==> selection.len() == 0 || exists|path: Seq<char>, i: int|
            #![trigger transaction.edits.contains_key(path), selection[i]]
            {
                &&& transaction.edits.contains_key(path)
                &&& 0 <= i < selection.len()
                &&& selection[i] == path || below(path, selection[i]) || below(selection[i], path)
            },
{
    if selection.len() > 0 {
        if concerns(transaction, selection) {
            let path = choose|path: Seq<char>| #[trigger]
                transaction.edits.contains_key(path) && touches(selection, path);
            if selects(selection, path) {
                let i = choose|i: int| 0 <= i < selection.len() && covers(#[trigger] selection[i], path);
                assert(transaction.edits.contains_key(path) && selection[i] == selection[i]);
            } else {
                let i = choose|i: int| 0 <= i < selection.len() && covers(path, #[trigger] selection[i]);
                assert(transaction.edits.contains_key(path) && selection[i] == selection[i]);
            }
        }
        if exists|path: Seq<char>, i: int|
            #![trigger transaction.edits.contains_key(path), selection[i]]
            {
                &&& transaction.edits.contains_key(path)
                &&& 0 <= i < selection.len()
                &&& selection[i] == path || below(path, selection[i]) || below(selection[i], path)
            } {
            let (path, i) = choose|path: Seq<char>, i: int|
                #![trigger transaction.edits.contains_key(path), selection[i]]
                {
                    &&& transaction.edits.contains_key(path)
                    &&& 0 <= i < selection.len()
                    &&& selection[i] == path || below(path, selection[i]) || below(selection[i], path)
                };
            assert(covers(selection[i], path) || covers(path, selection[i]));
            assert(touches(selection, path));
        }
    }
}

/// A page of the journal for a selection leaves out only transactions that are
/// known not to concern it, and keeps the others in their order.
pub proof fn pages_leave_out_only_what_is_unconcerned(
    ids: Seq<Seq<char>>,
    entries: Map<Seq<char>, TransactionV>,
    selection: Seq<Seq<char>>,
)
    ensures
        scoped(ids, entries, selection) == ids.filter(
            |id: Seq<char>| !entries.contains_key(id) || concerns(entries[id], selection),
        ),
    decreases ids.len(),
{
    reveal(Seq::filter);
    if ids.len() > 0 {
        pages_leave_out_only_what_is_unconcerned(ids.drop_last(), entries, selection);
        assert(is_told(entries, selection, ids.last()) <==> (!entries.contains_key(ids.last()) || concerns(
            entries[ids.last()],
            selection,
        )));
    }
}

// Merging contents

/// Contents are merged by lines where both sides are regular files of at most
/// 16 MiB, and so is what they come from, if there is any.
pub proof fn small_regular_files_are_merged(
    base: Option<FileEntryV>,
    ours: Option<FileEntryV>,
    theirs: Option<FileEntryV>,
)
    ensures
        mergeable(base, ours, theirs) <==> {
            &&& ours is Some && ours->0.kind == EntryKind::Regular && ours->0.size <= 16_777_216
            &&& theirs is Some && theirs->0.kind == EntryKind::Regular && theirs->0.size <= 16_777_216
            &&& base is Some ==> base->0.kind == EntryKind::Regular && base->0.size <= 16_777_216
        },
{
}

/// Whether a merged file is executable follows the side that changed it. Where
/// the sides agree, that is what they agree on. A new file follows ours.
pub proof fn modes_follow_the_side_that_changed_them(base: Option<FileEntryV>, ours: FileEntryV, theirs: FileEntryV)
    ensures
        ours.executable == theirs.executable ==> merged_mode(base, ours, theirs) == ours.executable,
        base is Some && base->0.executable == ours.executable ==> merged_mode(base, ours, theirs) == theirs.executable,
        base is Some && base->0.executable == theirs.executable ==> merged_mode(base, ours, theirs) == ours.executable,
        base is None ==> merged_mode(base, ours, theirs) == ours.executable,
{
}

/// What versions are merged against is a version that each of them goes back
/// to, where no other one that all go back to comes from it.
pub proof fn versions_are_merged_against_the_nearest(
    graph: GraphV,
    path: Seq<char>,
    ids: Set<Seq<char>>,
    base: Seq<char>,
)
    ensures
        nearest_common(graph, path, ids).contains(base) <==> {
            &&& exists|id: Seq<char>| ids.contains(id)
            &&& forall|id: Seq<char>| #[trigger] ids.contains(id) ==> goes_back(graph, path, id, base)
            &&& forall|other: Seq<char>|
                other != base && #[trigger] goes_back(graph, path, other, base) ==> exists|id: Seq<char>| #[trigger]
                    ids.contains(id) && !goes_back(graph, path, id, other)
        },
{
    if forall|id: Seq<char>| !ids.contains(id) {
        assert(ids =~= Set::<Seq<char>>::empty());
    }
    if nearest_common(graph, path, ids).contains(base) {
        assert(common_ancestry(graph, path, ids).contains(base));
        assert forall|other: Seq<char>|
            other != base && #[trigger] goes_back(graph, path, other, base) implies exists|id: Seq<char>| #[trigger]
            ids.contains(id) && !goes_back(graph, path, id, other) by {
            assert(!common_ancestry(graph, path, ids).contains(other));
        }
    }
    if (exists|id: Seq<char>| ids.contains(id)) && (forall|id: Seq<char>| #[trigger]
        ids.contains(id) ==> goes_back(graph, path, id, base)) && forall|other: Seq<char>|
        other != base && #[trigger] goes_back(graph, path, other, base) ==> exists|id: Seq<char>| #[trigger]
            ids.contains(id) && !goes_back(graph, path, id, other) {
        let id = choose|id: Seq<char>| ids.contains(id);
        assert(ids != Set::<Seq<char>>::empty()) by {
            assert(!Set::<Seq<char>>::empty().contains(id));
        }
        assert forall|y: Seq<char>| #[trigger]
            common_ancestry(graph, path, ids).contains(y) && y != base implies !goes_back(graph, path, y, base) by {}
    }
}

/// A version goes back to itself, to each version of the file that it
/// replaced, and to what those go back to; and to nothing else.
pub proof fn versions_go_back_to_what_they_replaced(graph: GraphV, path: Seq<char>, id: Seq<char>, to: Seq<char>)
    ensures
        goes_back(graph, path, id, to) <==> id == to || graph.contains_key(id) && graph[id].edits.contains_key(path)
            && exists|parent: Seq<char>| #[trigger]
            graph[id].edits[path].parents.contains(parent) && goes_back(graph, path, parent, to),
{
    if goes_back(graph, path, id, to) && id != to {
        let chain = choose|chain: Seq<Seq<char>>| #[trigger]
            is_chain(graph, path, chain) && chain[0] == id && chain.last() == to;
        assert(chain.len() > 1);
        let rest = chain.drop_first();
        assert forall|k: int| 0 <= k < rest.len() - 1 implies crate::merge::parents_at(
            graph,
            path,
            #[trigger] rest[k],
        ).contains(rest[k + 1]) by {
            assert(rest[k] == chain[k + 1]);
        }
        assert(crate::merge::parents_at(graph, path, chain[0]).contains(chain[1]));
        assert(is_chain(graph, path, rest) && rest[0] == chain[1] && rest.last() == to);
        assert(graph[id].edits[path].parents.contains(chain[1]));
    }
    if id == to {
        let chain = seq![id];
        assert(is_chain(graph, path, chain) && chain[0] == id && chain.last() == to);
    }
    if graph.contains_key(id) && graph[id].edits.contains_key(path) && exists|parent: Seq<char>| #[trigger]
        graph[id].edits[path].parents.contains(parent) && goes_back(graph, path, parent, to) {
        let parent = choose|parent: Seq<char>| #[trigger]
            graph[id].edits[path].parents.contains(parent) && goes_back(graph, path, parent, to);
        let rest = choose|chain: Seq<Seq<char>>| #[trigger]
            is_chain(graph, path, chain) && chain[0] == parent && chain.last() == to;
        let chain = seq![id] + rest;
        assert forall|k: int| 0 <= k < chain.len() - 1 implies crate::merge::parents_at(
            graph,
            path,
            #[trigger] chain[k],
        ).contains(chain[k + 1]) by {
            if k > 0 {
                assert(chain[k] == rest[k - 1]);
                assert(chain[k + 1] == rest[k - 1 + 1]);
            }
        }
        assert(is_chain(graph, path, chain) && chain[0] == id && chain.last() == to);
    }
}

} // verus!
