//! References to saved versions and commits, and how differences are shown.
use vstd::prelude::*;
use vstd::string::*;
use vstd::utf8::*;

use crate::collections::{keys_of, ordered, TextMap, Value};
use crate::encoding::{decimal, decimal_text};
use crate::error::{about, outcome, plain, verdict, Error, ErrorV, Problem};
use crate::graphs::GraphV;
use crate::json::Json;
use crate::merge::{as_text, plain_text, value_at};
use crate::objects::{FileEntry, FileEntryV};
use crate::selection::{includes, selects};
use crate::text::{chars_of, is_lower_hex, lower_hex, text_of, texts};
use crate::transactions::{Edit, EditV, SavedView, SavedViewV, Transaction};

verus! {

// References

/// What follows `head` in a text that begins with it.
pub open spec fn stripped(text: Seq<char>, head: Seq<char>) -> Option<Seq<char>> {
    if text.len() >= head.len() && text.take(head.len() as int) == head {
        Some(text.skip(head.len() as int))
    } else {
        None
    }
}

/// What follows `head` in a text that begins with it.
pub fn strip(text: &str, head: &str) -> (result: Option<String>)
    ensures
        match result {
            Some(rest) => stripped(text@, head@) == Some(rest@),
            None => stripped(text@, head@) is None,
        },
{
    let chars = chars_of(text);
    let begin = chars_of(head);
    if chars.len() < begin.len() {
        return None;
    }
    let mut i: usize = 0;
    while i < begin.len()
        invariant
            i <= begin@.len() <= chars@.len(),
            chars@ == text@,
            begin@ == head@,
            forall|j: int| 0 <= j < i ==> chars@[j] == begin@[j],
        decreases begin@.len() - i,
    {
        if chars[i] != begin[i] {
            assert(text@.take(head@.len() as int)[i as int] == text@[i as int]);
            return None;
        }
        i += 1;
    }
    assert(text@.take(head@.len() as int) =~= head@);
    let rest = text_of(vstd::slice::slice_subrange(chars.as_slice(), begin.len(), chars.len()));
    assert(rest@ =~= text@.skip(head@.len() as int));
    Some(rest)
}

/// A reference to something by the beginning of its hash.
#[derive(Debug)]
pub struct Reference {
    /// What kind of object is meant, where the reference says so.
    pub kind: Option<String>,
    pub prefix: String,
}

/// The mathematical value of a `Reference`.
#[verifier::ext_equal]
pub struct ReferenceV {
    pub kind: Option<Seq<char>>,
    pub prefix: Seq<char>,
}

impl View for Reference {
    type V = ReferenceV;

    open spec fn view(&self) -> ReferenceV {
        ReferenceV { kind: self.kind.deep_view(), prefix: self.prefix@ }
    }
}

impl DeepView for Reference {
    type V = ReferenceV;

    open spec fn deep_view(&self) -> ReferenceV {
        self@
    }
}

/// How a reference reads.
pub open spec fn reference_parts(text: Seq<char>) -> ReferenceV {
    match stripped(text, "view:"@) {
        Some(prefix) => ReferenceV { kind: Some("saved-view"@), prefix },
        None => match stripped(text, "commit:"@) {
            Some(prefix) => ReferenceV { kind: Some("transaction"@), prefix },
            None => ReferenceV { kind: None, prefix: text },
        },
    }
}

/// The beginning of a hash that is long enough to be looked up.
pub open spec fn hash_prefix(prefix: Seq<char>) -> bool {
    &&& 4 <= prefix.len() <= 64
    &&& forall|i: int| 0 <= i < prefix.len() ==> lower_hex(#[trigger] prefix[i])
}

/// A reference, where it can be looked up.
pub open spec fn reference_of(text: Seq<char>) -> Result<ReferenceV, ErrorV> {
    if hash_prefix(reference_parts(text).prefix) {
        Ok(reference_parts(text))
    } else {
        Err(plain(Problem::InvalidReference))
    }
}

/// Read a reference.
pub fn parse_reference(text: &str) -> (result: Result<Reference, Error>)
    ensures
        outcome(result) == reference_of(text@),
{
    let reference = match strip(text, "view:") {
        Some(prefix) => Reference { kind: Some("saved-view".to_owned()), prefix },
        None => match strip(text, "commit:") {
            Some(prefix) => Reference { kind: Some("transaction".to_owned()), prefix },
            None => Reference { kind: None, prefix: text.to_owned() },
        },
    };
    assert(reference@ =~= reference_parts(text@));
    let chars = chars_of(reference.prefix.as_str());
    let mut fits = 4 <= chars.len() && chars.len() <= 64;
    let mut i: usize = 0;
    while i < chars.len()
        invariant
            i <= chars@.len(),
            chars@ == reference.prefix@,
            fits <==> 4 <= chars@.len() <= 64 && forall|j: int| 0 <= j < i ==> lower_hex(#[trigger] chars@[j]),
        decreases chars@.len() - i,
    {
        if !is_lower_hex(chars[i]) {
            fits = false;
        }
        i += 1;
    }
    if !fits {
        return Err(Error::plain(Problem::InvalidReference));
    }
    Ok(reference)
}

/// A reference must lead to one object.
pub fn pick_match(reference: &str, matches: Vec<(String, String)>) -> (result: Result<(String, String), Error>)
    ensures
        match result {
            Ok(found) => matches@.len() == 1 && found == matches@[0],
            Err(error) => {
                &&& matches@.len() == 0 ==> error@ == about(Problem::UnknownHash, reference@)
                &&& matches@.len() > 1 ==> error@ == about(Problem::AmbiguousHash, reference@)
                &&& matches@.len() != 1
            },
        },
{
    let mut list = matches;
    if list.len() == 0 {
        return Err(Error::about(Problem::UnknownHash, reference.to_owned()));
    }
    if list.len() > 1 {
        return Err(Error::about(Problem::AmbiguousHash, reference.to_owned()));
    }
    Ok(list.pop().unwrap())
}

/// Whether what a reference leads to can be restored.
pub open spec fn restorable_check(reference: Seq<char>, kind: Seq<char>) -> Result<(), ErrorV> {
    if kind == "saved-view"@ {
        Ok(())
    } else {
        Err(about(Problem::NotAView, reference))
    }
}

/// Only a saved view can be restored.
pub fn check_restorable(reference: &str, kind: &str) -> (result: Result<(), Error>)
    ensures
        verdict(result) == restorable_check(reference@, kind@),
{
    if crate::text::same_text(kind, "saved-view") {
        Ok(())
    } else {
        Err(Error::about(Problem::NotAView, reference.to_owned()))
    }
}

/// Whether a saved view can be restored where some paths are selected.
pub open spec fn selection_check(view: SavedViewV, paths: Seq<Seq<char>>) -> Result<(), ErrorV> {
    if (view.format == 1 || view.format == 2) && view.paths == paths {
        Ok(())
    } else {
        Err(plain(Problem::DifferentSelection))
    }
}

/// A saved view is restored where the same paths are selected.
pub fn check_selection(view: &SavedView, paths: &[String]) -> (result: Result<(), Error>)
    ensures
        verdict(result) == selection_check(view@, texts(paths@)),
{
    if (view.format == 1 || view.format == 2) && crate::text::same_texts(view.paths.as_slice(), paths) {
        Ok(())
    } else {
        Err(Error::plain(Problem::DifferentSelection))
    }
}

// Short hashes

/// How long a shown hash is at least.
pub const SHORT_HASH: usize = 12;

/// The first characters of a hash tell it from others: none begins with them.
pub open spec fn tells_apart(hash: Seq<char>, others: Seq<Seq<char>>, length: int) -> bool {
    forall|i: int| 0 <= i < others.len() ==> stripped(#[trigger] others[i], hash.take(length)) is None
}

/// The shortest beginning of a hash from some length on that tells it from
/// others, or all of it.
pub open spec fn shortened(hash: Seq<char>, others: Seq<Seq<char>>, length: int) -> Seq<char>
    decreases hash.len() - length,
{
    if length >= hash.len() {
        hash
    } else if tells_apart(hash, others, length) {
        hash.take(length)
    } else {
        shortened(hash, others, length + 1)
    }
}

/// A hash as it is shown: as short as it can be without meaning another.
pub fn short_hash(hash: &str, others: &[String]) -> (text: String)
    ensures
        text@ == shortened(hash@, texts(others@), SHORT_HASH as int),
{
    let chars = chars_of(hash);
    let ghost all = texts(others@);
    let mut length: usize = SHORT_HASH;
    while length < chars.len()
        invariant
            chars@ == hash@,
            all == texts(others@),
            SHORT_HASH <= length,
            shortened(hash@, all, SHORT_HASH as int) == shortened(hash@, all, length as int),
        decreases chars@.len() - length,
    {
        let head = text_of(vstd::slice::slice_subrange(chars.as_slice(), 0, length));
        assert(head@ =~= hash@.take(length as int));
        let mut apart = true;
        let mut i: usize = 0;
        while i < others.len()
            invariant
                i <= others@.len(),
                all == texts(others@),
                head@ == hash@.take(length as int),
                apart == forall|j: int| 0 <= j < i ==> stripped(#[trigger] all[j], hash@.take(length as int)) is None,
            decreases others@.len() - i,
        {
            let ghost apart_before = apart;
            if strip(others[i].as_str(), head.as_str()).is_some() {
                apart = false;
                assert(stripped(all[i as int], hash@.take(length as int)) is Some);
            }
            i += 1;
        }
        if apart {
            return head;
        }
        length += 1;
    }
    hash.to_owned()
}

/// A shown hash is a beginning of the hash, not needlessly short, and no other
/// hash begins with it.
pub proof fn short_hashes_are_unambiguous(hash: Seq<char>, others: Seq<Seq<char>>, length: int)
    requires
        0 <= length,
        forall|i: int| 0 <= i < others.len() ==> (#[trigger] others[i]).len() == hash.len() && others[i] != hash,
    ensures
        ({
            let text = shortened(hash, others, length);
            &&& text.len() <= hash.len()
            &&& hash.take(text.len() as int) == text
            &&& text.len() >= length || text == hash
            &&& forall|i: int| 0 <= i < others.len() ==> stripped(#[trigger] others[i], text) is None
        }),
    decreases hash.len() - length,
{
    if length >= hash.len() {
        assert(hash.take(hash.len() as int) =~= hash);
        assert forall|i: int| 0 <= i < others.len() implies stripped(#[trigger] others[i], hash) is None by {
            assert(others[i].take(hash.len() as int) =~= others[i]);
        }
    } else if !tells_apart(hash, others, length) {
        short_hashes_are_unambiguous(hash, others, length + 1);
    }
}

// Differences

/// What `similar` prints as the unified difference of two texts under two
/// headings.
pub uninterp spec fn unified_text(
    before: Seq<char>,
    after: Seq<char>,
    first: Seq<char>,
    second: Seq<char>,
) -> Seq<char>;

/// How many characters of a text end a line.
pub open spec fn line_ends(text: Seq<char>) -> int
    decreases text.len(),
{
    if text.len() == 0 {
        0
    } else {
        line_ends(text.drop_last()) + (if text.last() == '\n' || text.last() == '\r' {
            1int
        } else {
            0
        })
    }
}

/// The lines of two texts can be numbered.
pub open spec fn lines_fit(before: Seq<char>, after: Seq<char>) -> bool {
    line_ends(before) + line_ends(after) + 2 <= u32::MAX
}

fn count_line_ends(text: &str) -> (n: u64)
    ensures
        n == line_ends(text@),
{
    let chars = chars_of(text);
    let mut n: u64 = 0;
    let mut i: usize = 0;
    assert(text@.take(0).len() == 0);
    while i < chars.len()
        invariant
            i <= chars@.len(),
            chars@ == text@,
            n == line_ends(text@.take(i as int)),
            n <= i,
        decreases chars@.len() - i,
    {
        proof {
            assert(text@.take(i + 1).drop_last() =~= text@.take(i as int));
            assert(text@.take(i + 1).last() == text@[i as int]);
        }
        if chars[i] == '\n' || chars[i] == '\r' {
            n = n + 1;
        }
        i += 1;
    }
    assert(text@.take(i as int) =~= text@);
    n
}

/// Wraps `similar::TextDiff::from_lines` and the unified form of its result,
/// which is named here and not described further. It numbers the different
/// lines of the two texts in 32 bits, which have to be enough.
#[verifier::external_body]
pub(crate) fn unified_difference(before: &str, after: &str, first: &str, second: &str) -> (text: String)
    requires
        lines_fit(before@, after@),
    ensures
        text@ == unified_text(before@, after@, first@, second@),
{
    similar::TextDiff::from_lines(before, after).unified_diff().header(first, second).to_string()
}

/// The difference of two contents.
pub open spec fn contents_difference(path: Seq<char>, before: Seq<u8>, after: Seq<u8>) -> Result<Seq<char>, ErrorV> {
    match (plain_text(before), plain_text(after)) {
        (Some(a), Some(b)) => if lines_fit(a, b) {
            Ok(unified_text(a, b, "before/"@ + path, "after/"@ + path))
        } else {
            Err(plain(Problem::TooManyLines))
        },
        _ => Ok("Binary contents: "@ + decimal(before.len()) + " → "@ + decimal(after.len()) + " bytes\n"@),
    }
}

/// The note on a changed executable mode.
pub open spec fn mode_difference(before: bool, after: bool) -> Seq<char> {
    if before == after {
        Seq::empty()
    } else {
        "Executable: "@ + bool::json_of(before) + " → "@ + bool::json_of(after) + "\n"@
    }
}

/// How a file changed, as text.
pub open spec fn difference_of(
    path: Seq<char>,
    before: Seq<u8>,
    after: Seq<u8>,
    was_executable: bool,
    is_executable: bool,
) -> Result<Seq<char>, ErrorV> {
    match contents_difference(path, before, after) {
        Err(error) => Err(error),
        Ok(text) => Ok(text + mode_difference(was_executable, is_executable)),
    }
}

/// Show how a file changed. Binary contents are not compared line by line.
pub fn difference(path: &str, before: Vec<u8>, after: Vec<u8>, was_executable: bool, is_executable: bool) -> (result:
    Result<String, Error>)
    ensures
        outcome(result) == difference_of(path@, before@, after@, was_executable, is_executable),
{
    let old_length: usize = before.len();
    let new_length: usize = after.len();
    let mut text = match (as_text(before), as_text(after)) {
        (Some(a), Some(b)) => {
            if count_line_ends(a.as_str()) as u128 + count_line_ends(b.as_str()) as u128 + 2 > u32::MAX as u128 {
                return Err(Error::plain(Problem::TooManyLines));
            }
            let first = crate::text::joined("before/", path);
            let second = crate::text::joined("after/", path);
            unified_difference(a.as_str(), b.as_str(), first.as_str(), second.as_str())
        },
        _ => {
            let mut text = "Binary contents: ".to_owned();
            text.append(decimal_text(old_length as u64).as_str());
            text.append(" → ");
            text.append(decimal_text(new_length as u64).as_str());
            text.append(" bytes\n");
            text
        },
    };
    assert(contents_difference(path@, before@, after@) == Ok::<Seq<char>, ErrorV>(text@));
    let ghost so_far = text@;
    if was_executable != is_executable {
        text.append("Executable: ");
        text.append(was_executable.to_json().as_str());
        text.append(" → ");
        text.append(is_executable.to_json().as_str());
        text.append("\n");
        assert(text@ =~= so_far + mode_difference(was_executable, is_executable));
    } else {
        assert(text@ =~= so_far + mode_difference(was_executable, is_executable));
    }
    Ok(text)
}

// Commits

/// One thing to show of a commit.
#[derive(Debug)]
pub enum Shown {
    /// A file outside the selection.
    Excluded { path: String },
    /// A file against one of its earlier versions. Where there are several,
    /// `against` tells which.
    Compared { path: String, before: Option<FileEntry>, after: Option<FileEntry>, against: Option<String> },
}

/// The mathematical value of a `Shown`.
#[verifier::ext_equal]
pub enum ShownV {
    Excluded { path: Seq<char> },
    Compared {
        path: Seq<char>,
        before: Option<FileEntryV>,
        after: Option<FileEntryV>,
        against: Option<Seq<char>>,
    },
}

impl View for Shown {
    type V = ShownV;

    open spec fn view(&self) -> ShownV {
        match self {
            Shown::Excluded { path } => ShownV::Excluded { path: path@ },
            Shown::Compared { path, before, after, against } => ShownV::Compared {
                path: path@,
                before: before.deep_view(),
                after: after.deep_view(),
                against: against.deep_view(),
            },
        }
    }
}

/// The values of a list.
pub open spec fn shown_in(list: Seq<Shown>) -> Seq<ShownV> {
    Seq::new(list.len(), |i: int| list[i]@)
}

/// The comparison with one earlier version.
pub open spec fn compared_with(parents: GraphV, path: Seq<char>, edit: EditV, id: Seq<char>) -> ShownV {
    ShownV::Compared {
        path,
        before: value_at(parents, path, id),
        after: edit.value,
        against: if edit.parents.len() > 1 {
            Some(id)
        } else {
            None
        },
    }
}

/// What is shown of one edit.
pub open spec fn shown_edit(
    parents: GraphV,
    selection: Seq<Seq<char>>,
    path: Seq<char>,
    edit: EditV,
) -> Seq<ShownV> {
    if !selects(selection, path) {
        seq![ShownV::Excluded { path }]
    } else if edit.parents == Set::<Seq<char>>::empty() {
        seq![ShownV::Compared { path, before: None, after: edit.value, against: None }]
    } else {
        ordered(edit.parents).map_values(|id: Seq<char>| compared_with(parents, path, edit, id))
    }
}

/// What is shown of the first `n` edits of a commit.
pub open spec fn shown_edits(
    parents: GraphV,
    selection: Seq<Seq<char>>,
    edits: Map<Seq<char>, EditV>,
    n: int,
) -> Seq<ShownV>
    decreases n,
{
    if n <= 0 {
        Seq::empty()
    } else {
        let path = keys_of(edits)[n - 1];
        shown_edits(parents, selection, edits, n - 1) + shown_edit(parents, selection, path, edits[path])
    }
}

fn earlier_value(parents: &TextMap<Transaction>, path: &str, id: &str) -> (value: Option<FileEntry>)
    ensures
        value.deep_view() == value_at(parents@, path@, id@),
{
    match parents.get(id) {
        Some(transaction) => match transaction.edits.get(path) {
            Some(edit) => edit.value.copied(),
            None => None,
        },
        None => None,
    }
}

fn show_edit(parents: &TextMap<Transaction>, selection: &[String], path: &String, edit: &Edit) -> (list: Vec<Shown>)
    ensures
        shown_in(list@) == shown_edit(parents@, texts(selection@), path@, edit@),
{
    let mut list: Vec<Shown> = Vec::new();
    if !includes(selection, path.as_str()) {
        list.push(Shown::Excluded { path: path.clone() });
        assert(shown_in(list@) =~= seq![ShownV::Excluded { path: path@ }]);
        return list;
    }
    if edit.parents.is_empty() {
        list.push(Shown::Compared { path: path.clone(), before: None, after: edit.value.copied(), against: None });
        assert(shown_in(list@) =~= seq![list@[0]@]);
        return list;
    }
    let n = edit.parents.len();
    let ghost goal = ordered(edit.parents@).map_values(|id: Seq<char>| compared_with(parents@, path@, edit@, id));
    let mut i: usize = 0;
    assert(shown_in(list@) =~= goal.take(0));
    while i < n
        invariant
            i <= n,
            n == edit.parents@.len(),
            n == ordered(edit.parents@).len(),
            goal == ordered(edit.parents@).map_values(
                |id: Seq<char>| compared_with(parents@, path@, edit@, id),
            ),
            shown_in(list@) == goal.take(i as int),
        decreases n - i,
    {
        let ghost so_far = shown_in(list@);
        let id = edit.parents.at(i);
        let against: Option<String> = if n > 1 {
            Some(id.clone())
        } else {
            None
        };
        let before = earlier_value(parents, path.as_str(), id.as_str());
        list.push(Shown::Compared { path: path.clone(), before, after: edit.value.copied(), against });
        proof {
            assert(list@.last()@ == goal[i as int]);
            assert(shown_in(list@) =~= so_far.push(goal[i as int]));
            assert(goal.take(i + 1) =~= goal.take(i as int).push(goal[i as int]));
        }
        i += 1;
    }
    assert(goal.take(n as int) =~= goal);
    list
}

/// What to show of a commit: each file against each of its earlier versions.
pub fn show_commit(transaction: &Transaction, parents: &TextMap<Transaction>, selection: &[String]) -> (list: Vec<
    Shown,
>)
    ensures
        shown_in(list@) == shown_edits(
            parents@,
            texts(selection@),
            transaction@.edits,
            transaction@.edits.dom().len() as int,
        ),
{
    let mut list: Vec<Shown> = Vec::new();
    let n = transaction.edits.len();
    let mut i: usize = 0;
    assert(shown_in(list@) =~= Seq::<ShownV>::empty());
    while i < n
        invariant
            i <= n,
            n == transaction.edits@.dom().len(),
            shown_in(list@) == shown_edits(parents@, texts(selection@), transaction.edits@, i as int),
        decreases n - i,
    {
        let ghost so_far = list@;
        let mut more = show_edit(parents, selection, transaction.edits.key_at(i), transaction.edits.value_at(i));
        let ghost extra = more@;
        list.append(&mut more);
        assert(shown_in(list@) =~= shown_in(so_far) + shown_in(extra));
        i += 1;
    }
    list
}

} // verus!
