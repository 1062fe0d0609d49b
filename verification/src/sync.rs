//! Exchanging history with a remote: what is sent, what is fetched, and which
//! files a working copy takes over.
use vstd::prelude::*;
use vstd::string::*;
use vstd::view::View as _;

use crate::collections::{keys_of, lists, ordered, TextMap, TextSet};
use crate::error::{about, first_problem, lemma_first_problem_step, outcome, plain, verdict, Error, ErrorV, Problem};
use crate::graphs::{Graph, GraphV};
use crate::objects::{snapshot_check, FileEntry, FileEntryV, Snapshot};
use crate::text::{join, join_texts, same_text, texts};
use crate::transactions::{dependencies_of, transaction_check, transaction_id, Transaction, TransactionV};
use crate::views::{
    conflicted, conflicts_of, current, current_of, file_at, view_snapshot, FileHeads, HeadsV, View, ViewV,
};
use crate::workspace::{merged_files, same_entry, Resolution};

verus! {

// Sending

/// What is known of the remote while history is sent: the transactions that it
/// lacks, those that it has, and those to ask about next.
#[derive(Debug)]
pub struct Outgoing {
    pub missing: Graph,
    pub known: TextSet,
    pub todo: TextSet,
}

/// The mathematical value of an `Outgoing`.
#[verifier::ext_equal]
pub struct OutgoingV {
    pub missing: GraphV,
    pub known: Set<Seq<char>>,
    pub todo: Set<Seq<char>>,
}

impl vstd::view::View for Outgoing {
    type V = OutgoingV;

    open spec fn view(&self) -> OutgoingV {
        OutgoingV { missing: self.missing.transactions@, known: self.known@, todo: self.todo@ }
    }
}

/// The answers of a round: a transaction that the remote lacks comes with its
/// content, one that it has comes without.
pub type RepliesV = Seq<(Seq<char>, Option<TransactionV>)>;

/// The transactions that a remote turned out to lack.
pub open spec fn lacking(missing: GraphV, replies: RepliesV) -> GraphV
    decreases replies.len(),
{
    if replies.len() == 0 {
        missing
    } else {
        let before = lacking(missing, replies.drop_last());
        match replies.last().1 {
            Some(transaction) => before.insert(replies.last().0, transaction),
            None => before,
        }
    }
}

/// The transactions that a remote turned out to have.
pub open spec fn present(replies: RepliesV) -> Set<Seq<char>> {
    Set::new(
        |id: Seq<char>| exists|i: int| 0 <= i < replies.len() && (#[trigger] replies[i]).0 == id && replies[i].1 is None,
    )
}

/// What the transactions that a remote lacks build on.
pub open spec fn required(replies: RepliesV) -> Set<Seq<char>> {
    Set::new(
        |id: Seq<char>|
            exists|i: int|
                0 <= i < replies.len() && (#[trigger] replies[i]).1 is Some && dependencies_of(
                    replies[i].1->0,
                ).contains(id),
    )
}

/// What is known once a round has been answered.
pub open spec fn after_round(state: OutgoingV, replies: RepliesV) -> OutgoingV {
    let missing = lacking(state.missing, replies);
    let known = state.known.union(present(replies));
    OutgoingV { missing, known, todo: required(replies).difference(missing.dom()).difference(known) }
}

impl Outgoing {
    /// Begin with the transactions that have not been acknowledged.
    pub fn new(outbox: &TextSet) -> (state: Self)
        ensures
            state@ == (OutgoingV { missing: Map::empty(), known: Set::empty(), todo: outbox@ }),
    {
        Outgoing { missing: Graph::default(), known: TextSet::new(), todo: outbox.clone() }
    }

    /// Take in the answers of a round.
    pub fn answer(&mut self, replies: Vec<(String, Option<Transaction>)>)
        ensures
            final(self)@ == after_round(old(self)@, replies.deep_view()),
    {
        let ghost start = self@;
        let ghost all = replies.deep_view();
        let mut needs = TextSet::new();
        let mut i: usize = 0;
        proof {
            assert(all.take(0).len() == 0);
            assert(self.known@ =~= start.known.union(present(all.take(0))));
            assert(needs@ =~= required(all.take(0)));
        }
        while i < replies.len()
            invariant
                i <= replies@.len(),
                all == replies.deep_view(),
                self.missing.transactions@ == lacking(start.missing, all.take(i as int)),
                self.known@ == start.known.union(present(all.take(i as int))),
                needs@ == required(all.take(i as int)),
            decreases replies@.len() - i,
        {
            let ghost done = all.take(i as int);
            let ghost next = all.take(i + 1);
            let ghost known_before = self.known@;
            let ghost needs_before = needs@;
            let reply = &replies[i];
            let ghost entry = all[i as int];
            proof {
                assert(next.drop_last() =~= done);
                assert(next.last() == entry);
                assert(entry.0 == reply.0@);
                assert(entry.1 == reply.1.deep_view());
            }
            match &reply.1 {
                None => {
                    self.known.insert(reply.0.clone());
                },
                Some(transaction) => {
                    needs.extend(&transaction.dependencies());
                    self.missing.transactions.insert(reply.0.clone(), transaction.clone());
                },
            }
            proof {
                lemma_next_reply(done, next, entry);
                assert(self.known@ =~= start.known.union(present(next)));
                assert(needs@ =~= required(next));
            }
            i += 1;
        }
        assert(all.take(replies@.len() as int) =~= all);
        let left = needs.difference(&self.missing.transactions.keys());
        self.todo = left.difference(&self.known);
    }

    /// The order in which to send what the remote lacks.
    pub fn order(&self) -> (result: Result<Vec<String>, Error>)
        ensures
            outcome(result) == crate::graphs::ordering(self@.missing, self@.known),
    {
        self.missing.ordered_after(&self.known)
    }
}

proof fn lemma_next_reply(done: RepliesV, next: RepliesV, entry: (Seq<char>, Option<TransactionV>))
    requires
        next.len() == done.len() + 1,
        next.drop_last() == done,
        next.last() == entry,
    ensures
        present(next) == (if entry.1 is None {
            present(done).insert(entry.0)
        } else {
            present(done)
        }),
        required(next) == (match entry.1 {
            Some(transaction) => required(done).union(dependencies_of(transaction)),
            None => required(done),
        }),
{
    let n = done.len() as int;
    assert(next =~= done.push(entry));
    assert forall|id: Seq<char>| present(next).contains(id) <==> (present(done).contains(id) || (entry.1 is None
        && entry.0 == id)) by {
        if present(next).contains(id) {
            let i = choose|i: int|
                0 <= i < next.len() && (#[trigger] next[i]).0 == id && next[i].1 is None;
            if i < n {
                assert(done[i] == next[i]);
            }
        }
        if present(done).contains(id) {
            let i = choose|i: int| 0 <= i < done.len() && (#[trigger] done[i]).0 == id && done[i].1 is None;
            assert(next[i] == done[i]);
        }
        if entry.1 is None && entry.0 == id {
            assert(next[n].0 == id);
        }
    }
    assert forall|id: Seq<char>| required(next).contains(id) <==> (required(done).contains(id) || (entry.1 is Some
        && dependencies_of(entry.1->0).contains(id))) by {
        if required(next).contains(id) {
            let i = choose|i: int|
                0 <= i < next.len() && (#[trigger] next[i]).1 is Some && dependencies_of(next[i].1->0).contains(id);
            if i < n {
                assert(done[i] == next[i]);
            }
        }
        if required(done).contains(id) {
            let i = choose|i: int|
                0 <= i < done.len() && (#[trigger] done[i]).1 is Some && dependencies_of(done[i].1->0).contains(id);
            assert(next[i] == done[i]);
        }
        if entry.1 is Some && dependencies_of(entry.1->0).contains(id) {
            assert(next[n].1 is Some);
        }
    }
    assert(present(next) =~= (if entry.1 is None {
        present(done).insert(entry.0)
    } else {
        present(done)
    }));
    assert(required(next) =~= (match entry.1 {
        Some(transaction) => required(done).union(dependencies_of(transaction)),
        None => required(done),
    }));
}

/// Everything that was wanted, and everything that the transactions to send
/// build on, is to be sent, known to the remote, or still to be asked about.
pub open spec fn accounted(state: OutgoingV, wanted: Set<Seq<char>>) -> bool {
    let covered = state.missing.dom().union(state.known).union(state.todo);
    &&& wanted.subset_of(covered)
    &&& forall|id: Seq<char>| #[trigger]
        state.missing.contains_key(id) ==> dependencies_of(state.missing[id]).subset_of(covered)
}

proof fn lemma_lacking(missing: GraphV, replies: RepliesV)
    ensures
        forall|id: Seq<char>| missing.contains_key(id) ==> #[trigger] lacking(missing, replies).contains_key(id),
        forall|i: int|
            0 <= i < replies.len() && (#[trigger] replies[i]).1 is Some ==> lacking(missing, replies).contains_key(
                replies[i].0,
            ),
        forall|id: Seq<char>| #[trigger] lacking(missing, replies).contains_key(id) ==> (missing.contains_key(id)
            && lacking(missing, replies)[id] == missing[id]) || dependencies_of(
            lacking(missing, replies)[id],
        ).subset_of(required(replies)),
    decreases replies.len(),
{
    if replies.len() > 0 {
        let done = replies.drop_last();
        let entry = replies.last();
        lemma_lacking(missing, done);
        lemma_next_reply(done, replies, entry);
        assert forall|id: Seq<char>| missing.contains_key(id) implies #[trigger] lacking(
            missing,
            replies,
        ).contains_key(id) by {
            assert(lacking(missing, done).contains_key(id));
        }
        assert forall|i: int| 0 <= i < replies.len() && (#[trigger] replies[i]).1 is Some implies lacking(
            missing,
            replies,
        ).contains_key(replies[i].0) by {
            if i < done.len() {
                assert(done[i] == replies[i]);
            }
        }
        assert forall|id: Seq<char>| #[trigger] lacking(missing, replies).contains_key(id) implies (
        missing.contains_key(id) && lacking(missing, replies)[id] == missing[id]) || dependencies_of(
            lacking(missing, replies)[id],
        ).subset_of(required(replies)) by {
            if entry.1 is None || id != entry.0 {
                assert(lacking(missing, done).contains_key(id));
                assert(required(done).subset_of(required(replies)));
            }
        }
    }
}

/// A round that answers every question keeps everything accounted for.
pub proof fn rounds_keep_the_account(state: OutgoingV, replies: RepliesV, wanted: Set<Seq<char>>)
    requires
        accounted(state, wanted),
        forall|id: Seq<char>| #[trigger]
            state.todo.contains(id) ==> exists|i: int| 0 <= i < replies.len() && (#[trigger] replies[i]).0 == id,
    ensures
        accounted(after_round(state, replies), wanted),
{
    let next = after_round(state, replies);
    let before = state.missing.dom().union(state.known).union(state.todo);
    let covered = next.missing.dom().union(next.known).union(next.todo);
    lemma_lacking(state.missing, replies);
    assert forall|id: Seq<char>| before.contains(id) implies covered.contains(id) by {
        if state.missing.contains_key(id) {
            assert(lacking(state.missing, replies).contains_key(id));
        } else if !state.known.contains(id) {
            assert(state.todo.contains(id));
            let i = choose|i: int| 0 <= i < replies.len() && (#[trigger] replies[i]).0 == id;
            if replies[i].1 is None {
                assert(present(replies).contains(id));
            }
        }
    }
    assert forall|id: Seq<char>| #[trigger] next.missing.contains_key(id) implies dependencies_of(
        next.missing[id],
    ).subset_of(covered) by {
        assert(lacking(state.missing, replies).contains_key(id));
        if !dependencies_of(next.missing[id]).subset_of(required(replies)) {
            assert(state.missing.contains_key(id));
        }
    }
}

/// Once nothing is left to ask about, whatever was wanted is to be sent or
/// known to the remote, and so is everything that the transactions to send
/// build on: a remote never gets a transaction without its history.
pub proof fn sent_history_is_closed(state: OutgoingV, wanted: Set<Seq<char>>)
    requires
        accounted(state, wanted),
        state.todo == Set::<Seq<char>>::empty(),
    ensures
        forall|id: Seq<char>| #[trigger] wanted.contains(id) ==> state.missing.contains_key(id) || state.known.contains(id),
        forall|id: Seq<char>, parent: Seq<char>|
            state.missing.contains_key(id) && #[trigger] dependencies_of(state.missing[id]).contains(parent)
                ==> state.missing.contains_key(parent) || state.known.contains(parent),
{
    let covered = state.missing.dom().union(state.known).union(state.todo);
    assert forall|id: Seq<char>| #[trigger] wanted.contains(id) implies state.missing.contains_key(id)
        || state.known.contains(id) by {
        assert(covered.contains(id));
    }
    assert forall|id: Seq<char>, parent: Seq<char>|
        state.missing.contains_key(id) && #[trigger] dependencies_of(state.missing[id]).contains(
            parent,
        ) implies state.missing.contains_key(parent) || state.known.contains(parent) by {
        assert(covered.contains(parent));
    }
}

// Fetching

/// What has been fetched: the transactions that are new, the identities that
/// were seen, and those to look at next.
#[derive(Debug)]
pub struct Incoming {
    pub graph: Graph,
    pub seen: TextSet,
    pub todo: TextSet,
}

/// The mathematical value of an `Incoming`.
#[verifier::ext_equal]
pub struct IncomingV {
    pub graph: GraphV,
    pub seen: Set<Seq<char>>,
    pub todo: Set<Seq<char>>,
}

impl vstd::view::View for Incoming {
    type V = IncomingV;

    open spec fn view(&self) -> IncomingV {
        IncomingV { graph: self.graph.transactions@, seen: self.seen@, todo: self.todo@ }
    }
}

/// A transaction that was asked for by its identity.
pub open spec fn delivery_check(id: Seq<char>, transaction: TransactionV) -> Result<(), ErrorV> {
    match transaction_check(transaction) {
        Err(error) => Err(error),
        Ok(()) => if transaction_id(transaction) == id {
            Ok(())
        } else {
            Err(plain(Problem::NoncanonicalTransaction))
        },
    }
}

impl Incoming {
    pub fn new() -> (state: Self)
        ensures
            state@ == (IncomingV { graph: Map::empty(), seen: Set::empty(), todo: Set::empty() }),
    {
        Incoming { graph: Graph::default(), seen: TextSet::new(), todo: TextSet::new() }
    }

    /// Look at the transactions that a page of the journal names.
    pub fn open_page(&mut self, transactions: &TextSet)
        ensures
            final(self)@ == (IncomingV { todo: old(self)@.todo.union(transactions@), ..old(self)@ }),
    {
        self.todo.extend(transactions);
    }

    /// The identities to look at that were not seen before, in order. They
    /// count as seen from then on.
    pub fn next_round(&mut self) -> (ids: Vec<String>)
        ensures
            texts(ids@) == ordered(old(self)@.todo.difference(old(self)@.seen)),
            final(self)@ == (IncomingV {
                graph: old(self)@.graph,
                seen: old(self)@.seen.union(old(self)@.todo),
                todo: Set::empty(),
            }),
    {
        let fresh = self.todo.difference(&self.seen);
        self.seen.extend(&self.todo);
        self.todo = TextSet::new();
        fresh.to_vec()
    }

    /// Take in a transaction that is new here; whatever it builds on and was
    /// not seen is looked at next.
    pub fn receive(&mut self, id: String, transaction: Transaction) -> (result: Result<(), Error>)
        ensures
            verdict(result) == delivery_check(id@, transaction@),
            final(self)@ == (if result is Ok {
                IncomingV {
                    graph: old(self)@.graph.insert(id@, transaction@),
                    seen: old(self)@.seen,
                    todo: old(self)@.todo.union(dependencies_of(transaction@).difference(old(self)@.seen)),
                }
            } else {
                old(self)@
            }),
    {
        transaction.validate()?;
        let found = transaction.id()?;
        if !same_text(found.as_str(), id.as_str()) {
            return Err(Error::plain(Problem::NoncanonicalTransaction));
        }
        let fresh = transaction.dependencies().difference(&self.seen);
        self.todo.extend(&fresh);
        self.graph.transactions.insert(id, transaction);
        Ok(())
    }
}

/// Whatever the new transactions build on was seen, or will be looked at; and
/// each of them is valid and stands under its own identity.
pub open spec fn traced(state: IncomingV) -> bool {
    forall|id: Seq<char>| #[trigger]
        state.graph.contains_key(id) ==> delivery_check(id, state.graph[id]) is Ok && dependencies_of(
            state.graph[id],
        ).subset_of(state.seen.union(state.todo))
}

/// Opening a page, beginning a round and taking in a transaction keep every
/// new transaction valid and its history traced; when nothing is left to look
/// at, that history has been seen.
pub proof fn fetched_history_is_traced(state: IncomingV, page: Set<Seq<char>>, id: Seq<char>, transaction: TransactionV)
    requires
        traced(state),
    ensures
        traced(IncomingV { todo: state.todo.union(page), ..state }),
        traced((IncomingV { graph: state.graph, seen: state.seen.union(state.todo), todo: Set::empty() })),
        delivery_check(id, transaction) is Ok ==> traced(
            (IncomingV {
                graph: state.graph.insert(id, transaction),
                seen: state.seen,
                todo: state.todo.union(dependencies_of(transaction).difference(state.seen)),
            }),
        ),
        state.todo == Set::<Seq<char>>::empty() ==> forall|id: Seq<char>| #[trigger]
            state.graph.contains_key(id) ==> dependencies_of(state.graph[id]).subset_of(state.seen),
{
    let paged = IncomingV { todo: state.todo.union(page), ..state };
    assert forall|k: Seq<char>| #[trigger] paged.graph.contains_key(k) implies delivery_check(k, paged.graph[k]) is Ok
        && dependencies_of(paged.graph[k]).subset_of(paged.seen.union(paged.todo)) by {
        assert(state.graph.contains_key(k));
    }
    let turned = IncomingV { graph: state.graph, seen: state.seen.union(state.todo), todo: Set::empty() };
    assert forall|k: Seq<char>| #[trigger] turned.graph.contains_key(k) implies delivery_check(
        k,
        turned.graph[k],
    ) is Ok && dependencies_of(turned.graph[k]).subset_of(turned.seen.union(turned.todo)) by {
        assert(state.graph.contains_key(k));
    }
    let taken = IncomingV {
        graph: state.graph.insert(id, transaction),
        seen: state.seen,
        todo: state.todo.union(dependencies_of(transaction).difference(state.seen)),
    };
    if delivery_check(id, transaction) is Ok {
        assert forall|k: Seq<char>| #[trigger] taken.graph.contains_key(k) implies delivery_check(
            k,
            taken.graph[k],
        ) is Ok && dependencies_of(taken.graph[k]).subset_of(taken.seen.union(taken.todo)) by {
            if k != id {
                assert(state.graph.contains_key(k));
            }
        }
    }
    if state.todo == Set::<Seq<char>>::empty() {
        assert forall|k: Seq<char>| #[trigger] state.graph.contains_key(k) implies dependencies_of(
            state.graph[k],
        ).subset_of(state.seen) by {
            assert(state.seen.union(state.todo) =~= state.seen);
        }
    }
}

// Taking over

/// The versions of a file that were not there before.
pub open spec fn arrivals(heads: HeadsV, previous: Set<Seq<char>>) -> Set<Seq<char>> {
    heads.dom().difference(previous)
}

/// The versions that arrived are the same.
pub open spec fn agreed(heads: HeadsV, previous: Set<Seq<char>>) -> bool {
    forall|a: Seq<char>, b: Seq<char>|
        arrivals(heads, previous).contains(a) && arrivals(heads, previous).contains(b) ==> #[trigger] heads[a]
            == #[trigger] heads[b]
}

/// The version of a file that arrived first in the order of identities.
pub open spec fn arrived(heads: HeadsV, previous: Set<Seq<char>>) -> Option<FileEntryV> {
    if arrivals(heads, previous) == Set::<Seq<char>>::empty() {
        None
    } else {
        heads[ordered(arrivals(heads, previous))[0]]
    }
}

/// What a working copy takes over for a file.
pub open spec fn taken(
    view: ViewV,
    previous: Set<Seq<char>>,
    local: Map<Seq<char>, FileEntryV>,
    resolution: Resolution,
    path: Seq<char>,
) -> Option<FileEntryV> {
    if !conflicted(view, path) {
        current(view[path])
    } else if resolution is Local {
        file_at(local, path)
    } else {
        arrived(view[path], previous)
    }
}

/// Why a file cannot be taken over.
pub open spec fn arrival_check(
    view: ViewV,
    previous: Set<Seq<char>>,
    resolution: Resolution,
    path: Seq<char>,
) -> Result<(), ErrorV> {
    if conflicted(view, path) && resolution !is Local && !agreed(view[path], previous) {
        Err(about(Problem::SeveralIncoming, path))
    } else {
        Ok(())
    }
}

/// The files that a working copy takes over.
pub open spec fn taken_files(
    view: ViewV,
    previous: Set<Seq<char>>,
    local: Map<Seq<char>, FileEntryV>,
    resolution: Resolution,
) -> Map<Seq<char>, FileEntryV> {
    Map::new(
        |path: Seq<char>| view.contains_key(path) && taken(view, previous, local, resolution, path) is Some,
        |path: Seq<char>| taken(view, previous, local, resolution, path)->0,
    )
}

/// The snapshot that a working copy takes over.
pub open spec fn snapshot_selected(
    view: ViewV,
    previous: Set<Seq<char>>,
    local: Map<Seq<char>, FileEntryV>,
    resolution: Resolution,
) -> Result<Map<Seq<char>, FileEntryV>, ErrorV> {
    let conflicts = conflicts_of(view);
    if conflicts == Set::<Seq<char>>::empty() {
        view_snapshot(view)
    } else if resolution is Stop {
        Err(about(Problem::ConcurrentConflict, join(ordered(conflicts), ", "@)))
    } else {
        match first_problem(keys_of(view), |path: Seq<char>| arrival_check(view, previous, resolution, path)) {
            Err(error) => Err(error),
            Ok(()) => {
                let files = taken_files(view, previous, local, resolution);
                match snapshot_check(files) {
                    Err(error) => Err(error),
                    Ok(()) => Ok(files),
                }
            },
        }
    }
}

/// The version of a file that arrived first, if those that arrived agree.
fn arrival<'a>(heads: &'a FileHeads, previous: &TextSet) -> (result: Option<Option<&'a FileEntry>>)
    ensures
        match result {
            Some(value) => agreed(heads@, previous@) && value.deep_view() == arrived(heads@, previous@),
            None => !agreed(heads@, previous@),
        },
{
    let fresh = heads.keys().difference(previous);
    let n = fresh.len();
    let ghost keys = ordered(fresh@);
    assert(fresh@ == arrivals(heads@, previous@));
    if n == 0 {
        assert(fresh@ =~= Set::<Seq<char>>::empty());
        return Some(None);
    }
    assert(fresh@ != Set::<Seq<char>>::empty()) by {
        assert(fresh@.contains(keys[0]));
    }
    let first = version_of(heads, fresh.at(0).as_str());
    let mut i: usize = 1;
    while i < n
        invariant
            1 <= i <= n,
            n == fresh@.len(),
            n == keys.len(),
            keys == ordered(fresh@),
            lists(keys, fresh@),
            fresh@ == arrivals(heads@, previous@),
            first.deep_view() == heads@[keys[0]],
            forall|j: int| 0 <= j < i ==> heads@[#[trigger] keys[j]] == heads@[keys[0]],
        decreases n - i,
    {
        let other = version_of(heads, fresh.at(i).as_str());
        if !same_entry(first, other) {
            assert(fresh@.contains(keys[0]) && fresh@.contains(keys[i as int]));
            assert(heads@[keys[0]] != heads@[keys[i as int]]);
            return None;
        }
        i += 1;
    }
    assert(agreed(heads@, previous@)) by {
        assert forall|a: Seq<char>, b: Seq<char>|
            arrivals(heads@, previous@).contains(a) && arrivals(heads@, previous@).contains(
                b,
            ) implies #[trigger] heads@[a] == #[trigger] heads@[b] by {
            assert(keys.contains(a) && keys.contains(b));
            let j = choose|j: int| 0 <= j < keys.len() && keys[j] == a;
            let k = choose|k: int| 0 <= k < keys.len() && keys[k] == b;
            assert(heads@[keys[j]] == heads@[keys[k]]);
        }
    }
    Some(first)
}

fn version_of<'a>(heads: &'a FileHeads, id: &str) -> (result: Option<&'a FileEntry>)
    requires
        heads@.contains_key(id@),
    ensures
        result.deep_view() == heads@[id@],
{
    match heads.get(id) {
        Some(Some(entry)) => Some(entry),
        _ => None,
    }
}

/// The snapshot that a working copy takes over from a view. Where commits
/// conflict, `previous` are the transactions that it had before.
pub fn select_snapshot(view: &View, previous: &TextSet, local: &Snapshot, resolution: Resolution) -> (result: Result<
    Snapshot,
    Error,
>)
    ensures
        outcome(result) == snapshot_selected(view@, previous@, local@, resolution),
{
    let conflicts = view.conflicts();
    if conflicts.is_empty() {
        return view.snapshot();
    }
    let keep_local = match resolution {
        Resolution::Stop => {
            let names = conflicts.to_vec();
            return Err(Error::about(Problem::ConcurrentConflict, join_texts(names.as_slice(), ", ")));
        },
        Resolution::Local => true,
        Resolution::Remote => false,
    };
    let mut files: TextMap<FileEntry> = TextMap::new();
    let n = view.files.len();
    let ghost keys = keys_of(view@);
    let ghost check = |path: Seq<char>| arrival_check(view@, previous@, resolution, path);
    let ghost goal = taken_files(view@, previous@, local@, resolution);
    let mut i: usize = 0;
    proof {
        assert(keys.skip(0) =~= keys);
        assert(files@ =~= goal.restrict(keys.take(0).to_set()));
    }
    while i < n
        invariant
            i <= n,
            n == view@.dom().len(),
            n == keys.len(),
            keys == keys_of(view@),
            lists(keys, view@.dom()),
            conflicts@ == conflicts_of(view@),
            conflicts@ != Set::<Seq<char>>::empty(),
            resolution !is Stop,
            keep_local == (resolution is Local),
            check == (|path: Seq<char>| arrival_check(view@, previous@, resolution, path)),
            goal == taken_files(view@, previous@, local@, resolution),
            first_problem(keys, check) == first_problem(keys.skip(i as int), check),
            files@ == goal.restrict(keys.take(i as int).to_set()),
        decreases n - i,
    {
        proof {
            lemma_first_problem_step(keys, check, i as int);
        }
        let path = view.files.key_at(i);
        let heads = view.files.value_at(i);
        assert(conflicts@.contains(path@) == conflicted(view@, path@));
        let value: Option<&FileEntry> = if !conflicts.contains(path.as_str()) {
            current_of(heads)
        } else if keep_local {
            local.files.get(path.as_str())
        } else {
            match arrival(heads, previous) {
                Some(value) => value,
                None => {
                    return Err(Error::about(Problem::SeveralIncoming, path.clone()));
                },
            }
        };
        assert(value.deep_view() == taken(view@, previous@, local@, resolution, path@));
        let ghost so_far = files@;
        if let Some(entry) = value {
            files.insert(path.clone(), entry.clone());
        }
        proof {
            assert(check(path@) is Ok);
            assert(keys.take(i + 1) =~= keys.take(i as int).push(path@));
            assert forall|k: Seq<char>| keys.take(i + 1).to_set().contains(k) <==> keys.take(
                i as int,
            ).to_set().contains(k) || k == path@ by {
                crate::collections::lemma_push_contains(keys.take(i as int), path@, k);
            }
            let next = goal.restrict(keys.take(i + 1).to_set());
            assert forall|k: Seq<char>| files@.contains_key(k) <==> next.contains_key(k) by {
                assert(so_far.contains_key(k) <==> goal.contains_key(k) && keys.take(i as int).to_set().contains(k));
            }
            assert forall|k: Seq<char>| files@.contains_key(k) implies files@[k] == next[k] by {
                if so_far.contains_key(k) && k != path@ {
                    assert(so_far[k] == goal.restrict(keys.take(i as int).to_set())[k]);
                }
            }
            assert(files@ =~= next);
        }
        i += 1;
    }
    proof {
        assert(keys.skip(n as int).len() == 0);
        assert(keys.take(n as int) =~= keys);
        assert(goal.restrict(keys.to_set()) =~= goal) by {
            assert forall|k: Seq<char>| goal.contains_key(k) implies keys.to_set().contains(k) by {
                assert(view@.dom().contains(k));
            }
        }
    }
    let snapshot = Snapshot { files };
    snapshot.validate()?;
    Ok(snapshot)
}

/// Keeping the local side of a pull leaves every conflicting file of the
/// working copy as it is.
pub proof fn keeping_local_leaves_conflicting_files(
    view: ViewV,
    previous: Set<Seq<char>>,
    base: Map<Seq<char>, FileEntryV>,
    current: Map<Seq<char>, FileEntryV>,
    path: Seq<char>,
)
    requires
        conflicted(view, path),
        snapshot_selected(view, previous, base, Resolution::Local) is Ok,
    ensures
        file_at(
            merged_files(
                base,
                current,
                snapshot_selected(view, previous, base, Resolution::Local)->Ok_0,
                Resolution::Local,
            ),
            path,
        ) == file_at(current, path),
{
    assert(conflicts_of(view).contains(path));
    let incoming = taken_files(view, previous, base, Resolution::Local);
    assert(file_at(incoming, path) == file_at(base, path));
}

/// What no commit disputes is taken over whatever the choice.
pub proof fn undisputed_files_are_taken_over(
    view: ViewV,
    previous: Set<Seq<char>>,
    local: Map<Seq<char>, FileEntryV>,
    resolution: Resolution,
    path: Seq<char>,
)
    requires
        view.contains_key(path),
        !conflicted(view, path),
        snapshot_selected(view, previous, local, resolution) is Ok,
    ensures
        file_at(snapshot_selected(view, previous, local, resolution)->Ok_0, path) == crate::views::current(view[path]),
{
}

} // verus!
