//! Several copies of every object: where they go, when a write is durable, how
//! many nodes may fail, and which entries of a journal a client is told.
use vstd::prelude::*;
use vstd::string::*;

use crate::collections::{keys_of, lemma_ordered_is, lists, ordered, TextMap, TextSet};
use crate::error::{plain, verdict, Error, ErrorV, Problem};
use crate::selection::{intersects, touches};
use crate::text::{before, compare, same_text, texts, Order};
use crate::transactions::{partition, placement, JournalPage, Transaction, TransactionV};
use crate::transfer::{Info, Key};

verus! {

// Copies

/// Check how many copies a cluster keeps: at least one, and no more than it has
/// nodes.
pub fn check_replicas(nodes: usize, replicas: usize) -> (result: Result<(), Error>)
    ensures
        verdict(result) == (if 1 <= replicas <= nodes {
            Ok::<(), ErrorV>(())
        } else {
            Err(plain(Problem::InvalidReplicas))
        }),
{
    if 1 <= replicas && replicas <= nodes {
        Ok(())
    } else {
        Err(Error::plain(Problem::InvalidReplicas))
    }
}

/// All nodes, from an owner on and around.
pub open spec fn ring(owner: int, nodes: nat) -> Seq<int> {
    Seq::new(
        nodes,
        |i: int|
            if owner + i < nodes {
                owner + i
            } else {
                owner + i - nodes
            },
    )
}

/// The nodes in the order in which they are to keep a copy of an object: its
/// owner, then those that follow. One that cannot is passed over.
pub fn write_order(project: &str, kind: &str, id: &str, nodes: usize) -> (order: Vec<usize>)
    requires
        nodes > 0,
    ensures
        order@.map_values(|node: usize| node as int) == ring(
            placement(project@, kind@, id@, nodes as int),
            nodes as nat,
        ),
{
    let owner: usize = partition(project, kind, id, nodes);
    let ghost goal = ring(owner as int, nodes as nat);
    let mut order: Vec<usize> = Vec::new();
    let mut i: usize = 0;
    while i < nodes
        invariant
            i <= nodes,
            owner < nodes,
            goal == ring(owner as int, nodes as nat),
            order@.len() == i,
            forall|j: int| 0 <= j < i ==> (#[trigger] order@[j]) as int == goal[j],
        decreases nodes - i,
    {
        order.push(
            if i < nodes - owner {
                owner + i
            } else {
                i - (nodes - owner)
            },
        );
        i += 1;
    }
    assert(order@.map_values(|node: usize| node as int) =~= goal);
    order
}

/// The ring from any owner holds every node, and none twice.
pub proof fn the_ring_holds_every_node(owner: int, nodes: nat)
    requires
        0 <= owner < nodes,
    ensures
        ring(owner, nodes).no_duplicates(),
        forall|node: int| 0 <= node < nodes ==> #[trigger] ring(owner, nodes).contains(node),
        ring(owner, nodes)[0] == owner,
{
    assert forall|node: int| 0 <= node < nodes implies #[trigger] ring(owner, nodes).contains(node) by {
        let at = if node >= owner {
            node - owner
        } else {
            node + nodes - owner
        };
        assert(ring(owner, nodes)[at] == node);
    }
}

/// A write on its way to several nodes.
#[derive(Debug)]
pub struct Spread {
    order: Vec<usize>,
    next: usize,
    copies: usize,
    replicas: usize,
}

/// The mathematical value of a `Spread`: the nodes still to ask, the copies
/// that were made, and how many there are to be.
#[verifier::ext_equal]
pub struct SpreadV {
    pub rest: Seq<int>,
    pub copies: int,
    pub replicas: int,
}

impl View for Spread {
    type V = SpreadV;

    closed spec fn view(&self) -> SpreadV {
        SpreadV {
            rest: self.order@.map_values(|node: usize| node as int).skip(self.next as int),
            copies: self.copies as int,
            replicas: self.replicas as int,
        }
    }
}

/// The node that is asked next to keep a copy.
pub open spec fn asked_next(state: SpreadV) -> Option<int> {
    if state.copies < state.replicas && state.rest.len() > 0 {
        Some(state.rest[0])
    } else {
        None
    }
}

/// The write once the node that was asked has answered.
pub open spec fn after_answer(state: SpreadV, stored: bool) -> SpreadV {
    if asked_next(state) is None {
        state
    } else {
        SpreadV {
            rest: state.rest.skip(1),
            copies: if stored {
                state.copies + 1
            } else {
                state.copies
            },
            replicas: state.replicas,
        }
    }
}

/// How a write ends, if its nodes answer as `stores` says.
pub open spec fn spread_out(state: SpreadV, stores: spec_fn(int) -> bool) -> SpreadV
    decreases state.rest.len(),
{
    match asked_next(state) {
        None => state,
        Some(node) => spread_out(after_answer(state, stores(node)), stores),
    }
}

impl Spread {
    #[verifier::type_invariant]
    spec fn sound(self) -> bool {
        self.next <= self.order@.len()
    }

    /// A write to the first nodes of an order that can keep a copy.
    pub fn new(order: Vec<usize>, replicas: usize) -> (state: Self)
        ensures
            state@ == (SpreadV {
                rest: order@.map_values(|node: usize| node as int),
                copies: 0,
                replicas: replicas as int,
            }),
    {
        let state = Spread { order, next: 0, copies: 0, replicas };
        assert(state@.rest =~= order@.map_values(|node: usize| node as int));
        state
    }

    /// The node to ask next, if more copies are needed and a node is left.
    pub fn next(&self) -> (node: Option<usize>)
        ensures
            match node {
                Some(node) => asked_next(self@) == Some(node as int),
                None => asked_next(self@) is None,
            },
    {
        proof {
            use_type_invariant(self);
        }
        if self.copies < self.replicas && self.next < self.order.len() {
            Some(self.order[self.next])
        } else {
            None
        }
    }

    /// Take in whether the node that was asked keeps a copy.
    pub fn answer(&mut self, stored: bool)
        ensures
            final(self)@ == after_answer(old(self)@, stored),
    {
        proof {
            use_type_invariant(&*self);
        }
        if self.copies < self.replicas && self.next < self.order.len() {
            let ghost before = self@;
            self.next = self.next + 1;
            if stored {
                self.copies = self.copies + 1;
            }
            assert(self@.rest =~= before.rest.skip(1));
        }
    }

    /// Whether the write is durable: all copies were made.
    pub fn finish(&self) -> (result: Result<(), Error>)
        ensures
            verdict(result) == (if self@.copies >= self@.replicas {
                Ok::<(), ErrorV>(())
            } else {
                Err(plain(Problem::TooFewCopies))
            }),
    {
        if self.copies >= self.replicas {
            Ok(())
        } else {
            Err(Error::plain(Problem::TooFewCopies))
        }
    }
}

/// How many of some nodes keep a copy when asked.
pub open spec fn storing(order: Seq<int>, stores: spec_fn(int) -> bool) -> int
    decreases order.len(),
{
    if order.len() == 0 {
        0
    } else {
        storing(order.skip(1), stores) + (if stores(order[0]) {
            1int
        } else {
            0
        })
    }
}

proof fn lemma_storing(order: Seq<int>, stores: spec_fn(int) -> bool)
    ensures
        storing(order, stores) >= 0,
    decreases order.len(),
{
    if order.len() > 0 {
        lemma_storing(order.skip(1), stores);
    }
}

/// A write becomes durable exactly if enough nodes can keep a copy, whichever
/// nodes those are, and no more copies are made than wanted.
pub proof fn writes_pass_over_failed_nodes(state: SpreadV, stores: spec_fn(int) -> bool)
    requires
        0 <= state.copies <= state.replicas,
    ensures
        spread_out(state, stores).copies >= state.replicas <==> state.copies + storing(state.rest, stores)
            >= state.replicas,
        spread_out(state, stores).copies <= state.replicas,
    decreases state.rest.len(),
{
    lemma_storing(state.rest, stores);
    if let Some(node) = asked_next(state) {
        writes_pass_over_failed_nodes(after_answer(state, stores(node)), stores);
    }
}

/// Whether an object that was asked about is durable.
pub fn is_durable(info: &Info, replicas: usize) -> (result: bool)
    ensures
        result == (info.size is Some && info.copies >= replicas),
{
    info.size.is_some() && info.copies >= replicas
}

// Reading

/// What a node says when it is asked for an object.
#[derive(Debug, Clone, Copy, PartialEq, Eq, Structural)]
pub enum Answer {
    /// It has the object.
    Found,
    /// It does not have the object.
    Missing,
    /// It could not say.
    Failed,
}

/// How a search for an object ended.
#[derive(Debug, Clone, Copy, PartialEq, Eq, Structural)]
pub enum Sought {
    /// This node has the object.
    Found(usize),
    /// Every node said that it does not have the object.
    Missing,
    /// No node has shown the object, and some could not say.
    Unavailable,
}

/// A search for an object that is under way. Older content can lie on an
/// earlier owner, so a miss goes on to the other nodes.
pub struct Search {
    order: Vec<usize>,
    next: usize,
    failed: bool,
    found: Option<usize>,
}

/// The mathematical value of a `Search`: the nodes still to ask, whether one
/// could not say, and the node that has the object.
#[verifier::ext_equal]
pub struct SearchV {
    pub rest: Seq<int>,
    pub failed: bool,
    pub found: Option<int>,
}

impl View for Search {
    type V = SearchV;

    closed spec fn view(&self) -> SearchV {
        SearchV {
            rest: self.order@.map_values(|node: usize| node as int).skip(self.next as int),
            failed: self.failed,
            found: match self.found {
                Some(node) => Some(node as int),
                None => None,
            },
        }
    }
}

/// The node to ask next: none once the object was found, or nobody is left.
pub open spec fn probed_next(state: SearchV) -> Option<int> {
    if state.found is None && state.rest.len() > 0 {
        Some(state.rest[0])
    } else {
        None
    }
}

/// What an answer changes. An answer that nobody was asked for changes nothing.
pub open spec fn after_probe(state: SearchV, answer: Answer) -> SearchV {
    match probed_next(state) {
        None => state,
        Some(node) => SearchV {
            rest: state.rest.skip(1),
            failed: state.failed || answer == Answer::Failed,
            found: if answer == Answer::Found {
                Some(node)
            } else {
                None
            },
        },
    }
}

/// How a search ends, if its nodes answer as `answers` says.
pub open spec fn searched(state: SearchV, answers: spec_fn(int) -> Answer) -> SearchV
    decreases state.rest.len(),
{
    match probed_next(state) {
        None => state,
        Some(node) => searched(after_probe(state, answers(node)), answers),
    }
}

/// What came of a search.
pub open spec fn is_sought(state: SearchV, result: Sought) -> bool {
    match state.found {
        Some(node) => result matches Sought::Found(found) && found == node,
        None => result == (if state.failed {
            Sought::Unavailable
        } else {
            Sought::Missing
        }),
    }
}

impl Search {
    #[verifier::type_invariant]
    spec fn sound(self) -> bool {
        self.next <= self.order@.len()
    }

    /// A search among the nodes of an order.
    pub fn new(order: Vec<usize>) -> (state: Self)
        ensures
            state@ == (SearchV {
                rest: order@.map_values(|node: usize| node as int),
                failed: false,
                found: None,
            }),
    {
        let state = Search { order, next: 0, failed: false, found: None };
        assert(state@.rest =~= order@.map_values(|node: usize| node as int));
        state
    }

    /// The node to ask next.
    pub fn next(&self) -> (node: Option<usize>)
        ensures
            match node {
                Some(node) => probed_next(self@) == Some(node as int),
                None => probed_next(self@) is None,
            },
    {
        proof {
            use_type_invariant(self);
        }
        if self.found.is_none() && self.next < self.order.len() {
            Some(self.order[self.next])
        } else {
            None
        }
    }

    /// Take in what the node that was asked says.
    pub fn answer(&mut self, answer: Answer)
        ensures
            final(self)@ == after_probe(old(self)@, answer),
    {
        proof {
            use_type_invariant(&*self);
        }
        if self.found.is_none() && self.next < self.order.len() {
            let ghost before = self@;
            let node: usize = self.order[self.next];
            self.next = self.next + 1;
            match answer {
                Answer::Found => {
                    self.found = Some(node);
                },
                Answer::Missing => {},
                Answer::Failed => {
                    self.failed = true;
                },
            }
            assert(self@.rest =~= before.rest.skip(1));
        }
    }

    /// What came of the search.
    pub fn finish(&self) -> (result: Sought)
        ensures
            is_sought(self@, result),
    {
        match self.found {
            Some(node) => Sought::Found(node),
            None => {
                if self.failed {
                    Sought::Unavailable
                } else {
                    Sought::Missing
                }
            },
        }
    }
}

/// The first node of an order that has the object.
pub open spec fn first_holder(order: Seq<int>, answers: spec_fn(int) -> Answer) -> Option<int>
    decreases order.len(),
{
    if order.len() == 0 {
        None
    } else if answers(order[0]) == Answer::Found {
        Some(order[0])
    } else {
        first_holder(order.skip(1), answers)
    }
}

/// A read gives the object of the first node that has it. It says that the
/// object is missing only if every node said so; where no node has shown the
/// object and one could not say, the failure is reported.
pub proof fn misses_are_said_by_every_node(order: Seq<int>, answers: spec_fn(int) -> Answer, result: Sought)
    requires
        is_sought(searched((SearchV { rest: order, failed: false, found: None }), answers), result),
    ensures
        first_holder(order, answers) matches Some(node) ==> result matches Sought::Found(found) && found == node,
        result is Found ==> first_holder(order, answers) is Some,
        result is Missing <==> forall|i: int| 0 <= i < order.len() ==> answers(#[trigger] order[i]) == Answer::Missing,
        result is Unavailable <==> (exists|i: int|
            0 <= i < order.len() && answers(#[trigger] order[i]) == Answer::Failed) && forall|i: int|
            0 <= i < order.len() ==> answers(#[trigger] order[i]) != Answer::Found,
{
    lemma_searched((SearchV { rest: order, failed: false, found: None }), answers);
}

proof fn lemma_searched(state: SearchV, answers: spec_fn(int) -> Answer)
    requires
        state.found is None,
    ensures
        searched(state, answers).found == first_holder(state.rest, answers),
        first_holder(state.rest, answers) is None <==> forall|i: int|
            0 <= i < state.rest.len() ==> answers(#[trigger] state.rest[i]) != Answer::Found,
        first_holder(state.rest, answers) is None ==> (searched(state, answers).failed <==> state.failed || exists|i: int|
            0 <= i < state.rest.len() && answers(#[trigger] state.rest[i]) == Answer::Failed),
    decreases state.rest.len(),
{
    let order = state.rest;
    if order.len() > 0 {
        let next = after_probe(state, answers(order[0]));
        if next.found is Some {
            assert(searched(next, answers) == next);
        } else {
            lemma_searched(next, answers);
            assert forall|i: int| 0 <= i < order.len() && i != 0 implies order[i] == #[trigger] next.rest[i - 1] by {}
            assert(first_holder(order, answers) is None <==> forall|i: int|
                0 <= i < order.len() ==> answers(#[trigger] order[i]) != Answer::Found) by {
                if first_holder(order, answers) is None {
                    assert forall|i: int| 0 <= i < order.len() implies answers(#[trigger] order[i]) != Answer::Found by {
                        if i > 0 {
                            assert(order[i] == next.rest[i - 1]);
                        }
                    }
                } else {
                    let k = choose|k: int|
                        0 <= k < next.rest.len() && answers(#[trigger] next.rest[k]) == Answer::Found;
                    assert(order[k + 1] == next.rest[k]);
                }
            }
            if first_holder(order, answers) is None {
                if exists|i: int| 0 <= i < order.len() && answers(#[trigger] order[i]) == Answer::Failed {
                    let i = choose|i: int| 0 <= i < order.len() && answers(#[trigger] order[i]) == Answer::Failed;
                    if i > 0 {
                        assert(answers(next.rest[i - 1]) == Answer::Failed);
                    }
                }
                if exists|k: int| 0 <= k < next.rest.len() && answers(#[trigger] next.rest[k]) == Answer::Failed {
                    let k = choose|k: int|
                        0 <= k < next.rest.len() && answers(#[trigger] next.rest[k]) == Answer::Failed;
                    assert(order[k + 1] == next.rest[k]);
                }
                if answers(order[0]) == Answer::Failed {
                    assert(answers(order[0]) == Answer::Failed);
                }
            }
        }
    }
}

// Failures

/// Check that the nodes that did not answer are few enough: with so many copies
/// of everything, some node that did answer has each object.
pub fn check_failures(failed: usize, replicas: usize) -> (result: Result<(), Error>)
    ensures
        verdict(result) == (if failed < replicas {
            Ok::<(), ErrorV>(())
        } else {
            Err(plain(Problem::TooManyFailures))
        }),
{
    if failed < replicas {
        Ok(())
    } else {
        Err(Error::plain(Problem::TooManyFailures))
    }
}

/// Copies on so many nodes outlast fewer failures.
pub proof fn copies_outlast_failures(holders: Set<int>, failed: Set<int>, replicas: int)
    requires
        holders.finite(),
        failed.finite(),
        holders.len() >= replicas,
        failed.len() < replicas,
    ensures
        exists|node: int| #[trigger] holders.contains(node) && !failed.contains(node),
{
    if forall|node: int| #[trigger] holders.contains(node) ==> failed.contains(node) {
        assert(holders.subset_of(failed));
        vstd::set_lib::lemma_len_subset(holders, failed);
    }
}

/// The nodes whose journal holds a transaction.
pub open spec fn journals_with(journals: Seq<Set<Seq<char>>>, id: Seq<char>) -> Set<int> {
    Set::new(|node: int| 0 <= node < journals.len() && journals[node].contains(id))
}

/// What the journals of the nodes that answered tell together.
pub open spec fn told(journals: Seq<Set<Seq<char>>>, failed: Set<int>) -> Set<Seq<char>> {
    Set::new(
        |id: Seq<char>|
            exists|node: int|
                0 <= node < journals.len() && !failed.contains(node) && #[trigger] journals[node].contains(id),
    )
}

/// As long as fewer nodes fail than there are copies, the journals of the
/// others tell every transaction: losing nodes never looks like losing work.
pub proof fn the_other_journals_tell_everything(
    journals: Seq<Set<Seq<char>>>,
    failed: Set<int>,
    replicas: int,
    id: Seq<char>,
)
    requires
        failed.finite(),
        failed.len() < replicas,
        journals_with(journals, id).len() >= replicas,
    ensures
        told(journals, failed).contains(id),
{
    let holders = journals_with(journals, id);
    let all = vstd::set_lib::set_int_range(0, journals.len() as int);
    vstd::set_lib::lemma_int_range(0, journals.len() as int);
    assert(holders.subset_of(all));
    vstd::set_lib::lemma_len_subset(holders, all);
    copies_outlast_failures(holders, failed, replicas);
    let node = choose|node: int| #[trigger] holders.contains(node) && !failed.contains(node);
    assert(journals[node].contains(id));
}

// Parts of journals

/// A transaction is of concern to a selection: it edits something in it, or
/// something that a selected path lies below.
pub open spec fn concerns(transaction: TransactionV, selection: Seq<Seq<char>>) -> bool {
    selection.len() == 0 || exists|path: Seq<char>| #[trigger]
        transaction.edits.contains_key(path) && touches(selection, path)
}

/// Whether a transaction is of concern to a selection.
pub fn is_concerned(transaction: &Transaction, selection: &[String]) -> (result: bool)
    ensures
        result == concerns(transaction@, texts(selection@)),
{
    let ghost all = texts(selection@);
    if selection.len() == 0 {
        return true;
    }
    let n = transaction.edits.len();
    let ghost keys = keys_of(transaction.edits@);
    let mut i: usize = 0;
    while i < n
        invariant
            i <= n,
            n == transaction.edits@.dom().len(),
            n == keys.len(),
            keys == keys_of(transaction.edits@),
            lists(keys, transaction.edits@.dom()),
            all == texts(selection@),
            forall|j: int| 0 <= j < i ==> !touches(all, #[trigger] keys[j]),
        decreases n - i,
    {
        let path = transaction.edits.key_at(i);
        if intersects(selection, path.as_str()) {
            assert(transaction@.edits.contains_key(path@));
            return true;
        }
        i += 1;
    }
    proof {
        if concerns(transaction@, all) {
            let path = choose|path: Seq<char>| #[trigger]
                transaction@.edits.contains_key(path) && touches(all, path);
            assert(transaction.edits@.dom().contains(path));
            assert(keys.contains(path));
            let j = choose|j: int| 0 <= j < keys.len() && keys[j] == path;
            assert(!touches(all, keys[j]));
        }
    }
    false
}

/// An entry of a journal is told: its transaction is of concern, or not known.
pub open spec fn is_told(entries: Map<Seq<char>, TransactionV>, selection: Seq<Seq<char>>, id: Seq<char>) -> bool {
    entries.contains_key(id) ==> concerns(entries[id], selection)
}

/// The entries of a journal that a client with a selection is told.
pub open spec fn scoped(
    ids: Seq<Seq<char>>,
    entries: Map<Seq<char>, TransactionV>,
    selection: Seq<Seq<char>>,
) -> Seq<Seq<char>>
    decreases ids.len(),
{
    if ids.len() == 0 {
        Seq::empty()
    } else {
        let earlier = scoped(ids.drop_last(), entries, selection);
        if is_told(entries, selection, ids.last()) {
            earlier.push(ids.last())
        } else {
            earlier
        }
    }
}

/// Leave out of a page of a journal what is of no concern to a selection. The
/// place to read on from stays.
pub fn scope_page(page: JournalPage, entries: &TextMap<Transaction>, selection: &[String]) -> (result: JournalPage)
    ensures
        texts(result.transactions@) == scoped(texts(page.transactions@), entries@, texts(selection@)),
        result.cursor == page.cursor,
        result.more == page.more,
{
    let ghost ids = texts(page.transactions@);
    let ghost all = texts(selection@);
    let mut transactions: Vec<String> = Vec::new();
    let mut i: usize = 0;
    assert(ids.take(0).len() == 0);
    assert(texts(transactions@) =~= scoped(ids.take(0), entries@, all));
    while i < page.transactions.len()
        invariant
            i <= page.transactions@.len(),
            ids == texts(page.transactions@),
            all == texts(selection@),
            texts(transactions@) == scoped(ids.take(i as int), entries@, all),
        decreases page.transactions@.len() - i,
    {
        let ghost kept = texts(transactions@);
        let id = &page.transactions[i];
        assert(ids.take(i + 1).drop_last() =~= ids.take(i as int));
        assert(ids.take(i + 1).last() == id@);
        let told = match entries.get(id.as_str()) {
            Some(transaction) => is_concerned(transaction, selection),
            None => true,
        };
        if told {
            transactions.push(id.clone());
            assert(texts(transactions@) =~= kept.push(id@));
        }
        i += 1;
    }
    assert(ids.take(page.transactions@.len() as int) =~= ids);
    JournalPage { transactions, cursor: page.cursor, more: page.more }
}

/// A client is told every transaction of a page that touches what it selected.
pub proof fn selected_work_is_told(
    ids: Seq<Seq<char>>,
    entries: Map<Seq<char>, TransactionV>,
    selection: Seq<Seq<char>>,
    id: Seq<char>,
)
    requires
        ids.contains(id),
        entries.contains_key(id),
        concerns(entries[id], selection),
    ensures
        scoped(ids, entries, selection).contains(id),
    decreases ids.len(),
{
    let earlier = scoped(ids.drop_last(), entries, selection);
    let i = choose|i: int| 0 <= i < ids.len() && ids[i] == id;
    if i == ids.len() - 1 {
        assert(earlier.push(id)[earlier.len() as int] == id);
    } else {
        assert(ids.drop_last()[i] == id);
        selected_work_is_told(ids.drop_last(), entries, selection, id);
        let k = choose|k: int| 0 <= k < earlier.len() && earlier[k] == id;
        if is_told(entries, selection, ids.last()) {
            assert(earlier.push(ids.last())[k] == id);
        }
    }
}

// Releases

/// The most releases that a page lists.
pub const PAGE_PINS: usize = 128;

/// The identities that come after a place, in order.
pub open spec fn following(ids: Set<Seq<char>>, after: Seq<char>) -> Seq<Seq<char>> {
    ordered(ids.filter(|id: Seq<char>| before(after, id)))
}

/// The identities that a page lists.
pub open spec fn listed(rest: Seq<Seq<char>>) -> Seq<Seq<char>> {
    if rest.len() > PAGE_PINS {
        rest.take(PAGE_PINS as int)
    } else {
        rest
    }
}

/// A page of releases: the first that come after a place, in the order of
/// their identities.
pub fn pin_page(ids: &TextSet, after: &str) -> (page: Vec<String>)
    ensures
        texts(page@) == listed(following(ids@, after@)),
{
    let n = ids.len();
    let ghost all = ordered(ids@);
    let mut start: usize = 0;
    while start < n && !matches!(compare(after, ids.at(start).as_str()), Order::Less)
        invariant
            start <= n,
            n == ids@.len(),
            n == all.len(),
            all == ordered(ids@),
            lists(all, ids@),
            forall|j: int| 0 <= j < start ==> !before(after@, #[trigger] all[j]),
        decreases n - start,
    {
        start += 1;
    }
    let ghost rest = all.skip(start as int);
    proof {
        lemma_rest(ids@, all, after@, start as int);
    }
    let end: usize = if n - start > PAGE_PINS {
        start + PAGE_PINS
    } else {
        n
    };
    let mut page: Vec<String> = Vec::new();
    let mut i: usize = start;
    while i < end
        invariant
            start <= i <= end <= n,
            n == ids@.len(),
            n == all.len(),
            all == ordered(ids@),
            page@.len() == i - start,
            forall|j: int| 0 <= j < page@.len() ==> (#[trigger] page@[j])@ == all[start + j],
        decreases end - i,
    {
        page.push(ids.at(i).clone());
        i += 1;
    }
    assert(texts(page@) =~= listed(rest));
    page
}

proof fn lemma_rest(ids: Set<Seq<char>>, all: Seq<Seq<char>>, after: Seq<char>, start: int)
    requires
        lists(all, ids),
        0 <= start <= all.len(),
        forall|j: int| 0 <= j < start ==> !before(after, #[trigger] all[j]),
        start < all.len() ==> before(after, all[start]),
    ensures
        following(ids, after) == all.skip(start),
{
    let rest = all.skip(start);
    let wanted = ids.filter(|id: Seq<char>| before(after, id));
    assert forall|id: Seq<char>| #[trigger] wanted.contains(id) <==> rest.contains(id) by {
        if rest.contains(id) {
            let j = choose|j: int| 0 <= j < rest.len() && rest[j] == id;
            assert(all[start + j] == id);
            assert(all.contains(id));
            if j > 0 {
                assert(before(all[start], all[start + j]));
                crate::text::lemma_before_transitive(after, all[start], id);
            }
        }
        if wanted.contains(id) {
            assert(all.contains(id));
            let j = choose|j: int| 0 <= j < all.len() && all[j] == id;
            assert(j >= start);
            assert(rest[j - start] == id);
        }
    }
    assert(lists(rest, wanted));
    lemma_ordered_is(rest, wanted);
}

/// Reading on after the last release of a full page gives exactly those that
/// the page left out: none is skipped, and none is listed twice.
pub proof fn pages_continue(ids: Set<Seq<char>>, after: Seq<char>)
    requires
        ids.finite(),
        following(ids, after).len() > PAGE_PINS,
    ensures
        following(ids, listed(following(ids, after)).last()) == following(ids, after).skip(PAGE_PINS as int),
{
    let wanted = ids.filter(|id: Seq<char>| before(after, id));
    assert(wanted.subset_of(ids));
    vstd::set_lib::lemma_len_subset(wanted, ids);
    crate::collections::lemma_ordered(wanted);
    let all = following(ids, after);
    let last = listed(all).last();
    assert(last == all[PAGE_PINS - 1]);
    assert(wanted.contains(last)) by {
        assert(all.contains(last));
    }
    let rest = all.skip(PAGE_PINS as int);
    let left = ids.filter(|id: Seq<char>| before(last, id));
    assert forall|id: Seq<char>| #[trigger] left.contains(id) <==> rest.contains(id) by {
        if rest.contains(id) {
            let j = choose|j: int| 0 <= j < rest.len() && rest[j] == id;
            assert(all[PAGE_PINS + j] == id);
            assert(all.contains(id));
            assert(before(all[PAGE_PINS - 1], all[PAGE_PINS + j]));
        }
        if left.contains(id) {
            crate::text::lemma_before_transitive(after, last, id);
            assert(wanted.contains(id));
            assert(all.contains(id));
            let j = choose|j: int| 0 <= j < all.len() && all[j] == id;
            crate::text::lemma_before_asymmetric(last, id);
            if j < PAGE_PINS - 1 {
                assert(before(all[j], all[PAGE_PINS - 1]));
            }
            assert(j >= PAGE_PINS);
            assert(rest[j - PAGE_PINS] == id);
        }
    }
    assert(lists(rest, left));
    lemma_ordered_is(rest, left);
}

// Moving objects

/// An object of a project as a storage node keeps it.
#[derive(Debug)]
pub struct StoredObject {
    pub project: String,
    pub key: Key,
}

impl StoredObject {
    /// Where to read on in an inventory after the object.
    pub fn cursor(&self) -> (text: String)
        ensures
            text@ == self.project@ + "/"@ + self.key@.kind + "/"@ + self.key@.id,
    {
        let mut text = self.project.clone();
        text.append("/");
        text.append(self.key.kind.as_str());
        text.append("/");
        text.append(self.key.id.as_str());
        text
    }
}

/// What is wrong with a copy of an object that is moved.
pub open spec fn copy_check(kind: Seq<char>, id: Seq<char>, copied: Seq<char>) -> Result<(), ErrorV> {
    if kind == "blob"@ {
        Ok(())
    } else if kind == "transaction"@ {
        if copied == id {
            Ok(())
        } else {
            Err(plain(Problem::TransactionChanged))
        }
    } else if kind == "pin"@ {
        if copied == id {
            Ok(())
        } else {
            Err(plain(Problem::PinMismatch))
        }
    } else {
        Err(plain(Problem::UnsupportedStored))
    }
}

/// Check that an object that is moved is of a kind that can be, and that what
/// was read has the identity that it was listed under. The content of files is
/// checked where it is read.
pub fn check_copy(kind: &str, id: &str, copied: &str) -> (result: Result<(), Error>)
    ensures
        verdict(result) == copy_check(kind@, id@, copied@),
{
    if same_text(kind, "blob") {
        Ok(())
    } else if same_text(kind, "transaction") {
        if same_text(copied, id) {
            Ok(())
        } else {
            Err(Error::plain(Problem::TransactionChanged))
        }
    } else if same_text(kind, "pin") {
        if same_text(copied, id) {
            Ok(())
        } else {
            Err(Error::plain(Problem::PinMismatch))
        }
    } else {
        Err(Error::plain(Problem::UnsupportedStored))
    }
}

} // verus!
