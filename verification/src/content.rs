//! The content of a file is a single blob or a bounded tree of chunk
//! manifests. Manifests and chunks are blobs themselves.
use vstd::prelude::*;
use vstd::string::*;
use vstd::utf8::*;

use crate::collections::TextSet;
use crate::encoding::decimal;
use crate::error::{about, plain, verdict, Error, ErrorV, Problem};
use crate::json::{escaped_text, Json};
use crate::objects::{entry_check, object_hash, object_id, valid_hash, EntryKind, FileEntry, FileEntryV, MAX_BLOB_BYTES};
use crate::text::join;

verus! {

/// 4 MiB
pub const CHUNK_BYTES: usize = 4_194_304;

/// The most children of a manifest.
pub const FANOUT: usize = 1024;

/// The values of a list of entries.
pub open spec fn entries_in(list: Seq<FileEntry>) -> Seq<FileEntryV> {
    Seq::new(list.len(), |i: int| list[i]@)
}

// Manifests

/// What is wrong with a manifest before its children are looked at.
pub open spec fn manifest_check(entry: FileEntryV, length: int) -> Result<(), ErrorV> {
    match entry_check(entry) {
        Err(error) => Err(error),
        Ok(()) => if entry.kind != EntryKind::Chunked {
            Err(plain(Problem::NotAManifest))
        } else if length > MAX_BLOB_BYTES {
            Err(plain(Problem::OversizedManifest))
        } else {
            Ok(())
        },
    }
}

/// Check a manifest of `length` bytes before it is parsed.
pub fn check_manifest(entry: &FileEntry, length: usize) -> (result: Result<(), Error>)
    ensures
        verdict(result) == manifest_check(entry@, length as int),
{
    entry.validate()?;
    if entry.kind != EntryKind::Chunked {
        return Err(Error::plain(Problem::NotAManifest));
    }
    if length > MAX_BLOB_BYTES {
        return Err(Error::plain(Problem::OversizedManifest));
    }
    Ok(())
}

/// A child that a file of the given size may have.
pub open spec fn fitting_child(child: FileEntryV, size: u64) -> bool {
    !child.kind.symlink() && !child.executable && 0 < child.size < size
}

/// What is wrong with the children from `i` on, where those before it add up
/// to `total`.
pub open spec fn children_check(children: Seq<FileEntryV>, size: u64, i: int, total: int) -> Result<(), ErrorV>
    decreases children.len() - i,
{
    if i >= children.len() {
        if total == size {
            Ok(())
        } else {
            Err(plain(Problem::ManifestSizeMismatch))
        }
    } else {
        match entry_check(children[i]) {
            Err(error) => Err(error),
            Ok(()) => if !fitting_child(children[i], size) {
                Err(plain(Problem::InvalidChild))
            } else if total + children[i].size > u64::MAX {
                Err(plain(Problem::ChunkSizeOverflow))
            } else {
                children_check(children, size, i + 1, total + children[i].size)
            },
        }
    }
}

/// The children of a manifest, where they are acceptable.
pub open spec fn accepted_children(entry: FileEntryV, length: int, children: Seq<FileEntryV>) -> Result<
    Seq<FileEntryV>,
    ErrorV,
> {
    match manifest_check(entry, length) {
        Err(error) => Err(error),
        Ok(()) => if children.len() < 2 || children.len() > FANOUT {
            Err(plain(Problem::InvalidFanout))
        } else {
            match children_check(children, entry.size, 0, 0) {
                Err(error) => Err(error),
                Ok(()) => Ok(children),
            }
        },
    }
}

/// Validate a manifest of `length` bytes that lists `parsed` before its
/// references are trusted. Children are strictly smaller, so a malformed
/// manifest cannot make content contain itself.
pub fn children(entry: &FileEntry, length: usize, parsed: Vec<FileEntry>) -> (result: Result<Vec<FileEntry>, Error>)
    ensures
        match result {
            Ok(list) => accepted_children(entry@, length as int, entries_in(parsed@)) == Ok::<
                Seq<FileEntryV>,
                ErrorV,
            >(entries_in(list@)),
            Err(error) => accepted_children(entry@, length as int, entries_in(parsed@)) == Err::<
                Seq<FileEntryV>,
                ErrorV,
            >(error@),
        },
{
    check_manifest(entry, length)?;
    if parsed.len() < 2 || parsed.len() > FANOUT {
        return Err(Error::plain(Problem::InvalidFanout));
    }
    let ghost all = entries_in(parsed@);
    let mut size: u64 = 0;
    let mut i: usize = 0;
    while i < parsed.len()
        invariant
            i <= parsed@.len(),
            all == entries_in(parsed@),
            manifest_check(entry@, length as int) is Ok,
            2 <= all.len() <= FANOUT,
            children_check(all, entry@.size, 0, 0) == children_check(all, entry@.size, i as int, size as int),
        decreases parsed@.len() - i,
    {
        let child = &parsed[i];
        assert(all[i as int] == child@);
        child.validate()?;
        if child.kind.is_symlink() || child.executable || child.size == 0 || child.size >= entry.size {
            return Err(Error::plain(Problem::InvalidChild));
        }
        match size.checked_add(child.size) {
            None => {
                return Err(Error::plain(Problem::ChunkSizeOverflow));
            },
            Some(total) => {
                size = total;
            },
        }
        i += 1;
    }
    if size != entry.size {
        return Err(Error::plain(Problem::ManifestSizeMismatch));
    }
    Ok(parsed)
}

/// The sizes of a list of entries, added up.
pub open spec fn total_size(list: Seq<FileEntryV>) -> int
    decreases list.len(),
{
    if list.len() == 0 {
        0
    } else {
        total_size(list.drop_last()) + list.last().size
    }
}

proof fn lemma_total_step(list: Seq<FileEntryV>, i: int)
    requires
        0 <= i < list.len(),
    ensures
        total_size(list.take(i + 1)) == total_size(list.take(i)) + list[i].size,
{
    assert(list.take(i + 1).drop_last() =~= list.take(i));
    assert(list.take(i + 1).last() == list[i]);
}

proof fn lemma_children_ok(children: Seq<FileEntryV>, size: u64, i: int)
    requires
        0 <= i <= children.len(),
        children_check(children, size, i, total_size(children.take(i))) is Ok,
    ensures
        total_size(children) == size,
        forall|k: int| i <= k < children.len() ==> fitting_child(#[trigger] children[k], size) && entry_check(
            children[k],
        ) is Ok,
    decreases children.len() - i,
{
    if i == children.len() {
        assert(children.take(i) =~= children);
    } else {
        lemma_total_step(children, i);
        lemma_children_ok(children, size, i + 1);
    }
}

/// The children of an accepted manifest are valid, strictly smaller than the
/// whole, and make up the whole.
pub proof fn accepted_children_shrink(entry: FileEntryV, length: int, children: Seq<FileEntryV>)
    requires
        accepted_children(entry, length, children) is Ok,
    ensures
        total_size(children) == entry.size,
        forall|k: int| 0 <= k < children.len() ==> (#[trigger] children[k]).size < entry.size && entry_check(
            children[k],
        ) is Ok,
{
    assert(children.take(0) =~= Seq::<FileEntryV>::empty());
    lemma_children_ok(children, entry.size, 0);
}

// Splitting a file

/// The length of the next chunk of a file of which `remaining` bytes are left.
/// Small files are one chunk.
pub open spec fn chunk_length(size: u64, remaining: u64) -> int {
    if size <= MAX_BLOB_BYTES {
        size as int
    } else if remaining < CHUNK_BYTES {
        remaining as int
    } else {
        CHUNK_BYTES as int
    }
}

/// The length of the next chunk.
pub fn next_chunk(size: u64, remaining: u64) -> (length: usize)
    ensures
        length == chunk_length(size, remaining),
{
    if size <= MAX_BLOB_BYTES as u64 {
        size as usize
    } else if remaining < CHUNK_BYTES as u64 {
        remaining as usize
    } else {
        CHUNK_BYTES
    }
}

/// A file is read to its end: no byte is left once its size has been read.
pub fn check_end(left: usize) -> (result: Result<(), Error>)
    ensures
        verdict(result) == (if left == 0 {
            Ok::<(), ErrorV>(())
        } else {
            Err(plain(Problem::FileChanged))
        }),
{
    if left == 0 {
        Ok(())
    } else {
        Err(Error::plain(Problem::FileChanged))
    }
}

/// A blob that is one chunk of a file.
pub fn chunk_entry(blob: String, length: usize) -> (entry: FileEntry)
    ensures
        entry@ == (FileEntryV {
            blob: blob@,
            size: length as u64,
            executable: false,
            kind: EntryKind::Regular,
        }),
{
    FileEntry { blob, size: length as u64, executable: false, kind: EntryKind::Regular }
}

/// The canonical JSON of a list of entries.
pub open spec fn entries_json(list: Seq<FileEntryV>) -> Seq<char> {
    "["@ + join(list.map_values(|entry: FileEntryV| FileEntry::json_of(entry)), ","@) + "]"@
}

fn entries_to_json(list: &[FileEntry]) -> (text: String)
    ensures
        text@ == entries_json(entries_in(list@)),
{
    let mut text = "[".to_owned();
    let mut i: usize = 0;
    let ghost members = entries_in(list@).map_values(|entry: FileEntryV| FileEntry::json_of(entry));
    assert(text@ =~= "["@ + join(members.take(0), ","@));
    while i < list.len()
        invariant
            i <= list@.len(),
            members == entries_in(list@).map_values(|entry: FileEntryV| FileEntry::json_of(entry)),
            text@ == "["@ + join(members.take(i as int), ","@),
        decreases list@.len() - i,
    {
        if i > 0 {
            text.append(",");
        }
        text.append(list[i].to_json().as_str());
        proof {
            assert(members.take(i + 1).drop_last() =~= members.take(i as int));
            assert(members.take(i + 1).last() == members[i as int]);
            assert(text@ =~= "["@ + join(members.take(i + 1), ","@));
        }
        i += 1;
    }
    assert(members.take(list@.len() as int) =~= members);
    text.append("]");
    text
}

/// The entry that stands for several parts.
pub open spec fn manifest_entry(parts: Seq<FileEntryV>) -> FileEntryV {
    FileEntryV {
        blob: object_hash("blob"@, encode_utf8(entries_json(parts))),
        size: total_size(parts) as u64,
        executable: false,
        kind: EntryKind::Chunked,
    }
}

/// The parts of one manifest of a level.
pub open spec fn nth_group(parts: Seq<FileEntryV>, n: int) -> Seq<FileEntryV> {
    let end = if 1024 * (n + 1) < parts.len() {
        1024 * (n + 1)
    } else {
        parts.len() as int
    };
    parts.subrange(1024 * n, end)
}

/// How many groups a level has.
pub open spec fn group_count(parts: Seq<FileEntryV>) -> int {
    (parts.len() as int + 1023) / 1024
}

/// A group of one part needs no manifest.
pub open spec fn group_entry(group: Seq<FileEntryV>) -> FileEntryV {
    if group.len() == 1 {
        group[0]
    } else {
        manifest_entry(group)
    }
}

/// The next level of the tree.
pub open spec fn level_above(parts: Seq<FileEntryV>) -> Seq<FileEntryV> {
    Seq::new(group_count(parts) as nat, |n: int| group_entry(nth_group(parts, n)))
}

/// The manifests that the first `n` groups of a level need.
pub open spec fn level_manifests(parts: Seq<FileEntryV>, n: int) -> Seq<Seq<char>>
    decreases n,
{
    if n <= 0 {
        Seq::empty()
    } else if nth_group(parts, n - 1).len() == 1 {
        level_manifests(parts, n - 1)
    } else {
        level_manifests(parts, n - 1).push(entries_json(nth_group(parts, n - 1)))
    }
}

/// The root of the tree over `parts`.
pub open spec fn root_entry(parts: Seq<FileEntryV>) -> FileEntryV
    decreases parts.len(),
{
    if parts.len() <= 1 {
        parts[0]
    } else {
        root_entry(level_above(parts))
    }
}

/// The manifests of the tree over `parts`, lower levels first.
pub open spec fn tree_manifests(parts: Seq<FileEntryV>) -> Seq<Seq<char>>
    decreases parts.len(),
{
    if parts.len() <= 1 {
        Seq::empty()
    } else {
        level_manifests(parts, group_count(parts)) + tree_manifests(level_above(parts))
    }
}

proof fn lemma_groups(parts: Seq<FileEntryV>, n: int)
    requires
        0 <= n < group_count(parts),
        parts.len() > 0,
    ensures
        1024 * n < parts.len(),
        0 < nth_group(parts, n).len() <= 1024,
        parts.take(1024 * n) + nth_group(parts, n) == parts.take(1024 * n + nth_group(parts, n).len() as int),
{
    let group = nth_group(parts, n);
    assert(parts.take(1024 * n) + group =~= parts.take(1024 * n + group.len() as int));
}

proof fn lemma_total_concat(a: Seq<FileEntryV>, b: Seq<FileEntryV>)
    ensures
        total_size(a + b) == total_size(a) + total_size(b),
    decreases b.len(),
{
    if b.len() == 0 {
        assert(a + b =~= a);
    } else {
        lemma_total_concat(a, b.drop_last());
        assert((a + b).drop_last() =~= a + b.drop_last());
        assert((a + b).last() == b.last());
    }
}

proof fn lemma_total_nonnegative(list: Seq<FileEntryV>)
    ensures
        total_size(list) >= 0,
    decreases list.len(),
{
    if list.len() > 0 {
        lemma_total_nonnegative(list.drop_last());
    }
}

proof fn lemma_group_total(parts: Seq<FileEntryV>, n: int)
    requires
        0 <= n < group_count(parts),
        total_size(parts) <= u64::MAX,
    ensures
        0 <= total_size(nth_group(parts, n)) <= u64::MAX,
{
    let group = nth_group(parts, n);
    lemma_groups(parts, n);
    let end = 1024 * n + group.len() as int;
    lemma_total_concat(parts.take(1024 * n), group);
    assert(parts =~= parts.take(end) + parts.skip(end));
    lemma_total_concat(parts.take(end), parts.skip(end));
    lemma_total_nonnegative(parts.take(1024 * n));
    lemma_total_nonnegative(parts.skip(end));
    lemma_total_nonnegative(group);
}

proof fn lemma_level_total_from(parts: Seq<FileEntryV>, n: int)
    requires
        0 <= n <= group_count(parts),
        total_size(parts) <= u64::MAX,
        parts.len() > 0,
    ensures
        ({
            let end = if 1024 * n < parts.len() {
                1024 * n
            } else {
                parts.len() as int
            };
            total_size(level_above(parts).take(n)) == total_size(parts.take(end))
        }),
    decreases n,
{
    if n == 0 {
        assert(level_above(parts).take(0).len() == 0);
        assert(parts.take(0).len() == 0);
    } else {
        lemma_level_total_from(parts, n - 1);
        lemma_groups(parts, n - 1);
        lemma_group_total(parts, n - 1);
        lemma_total_step(level_above(parts), n - 1);
        let group = nth_group(parts, n - 1);
        lemma_total_concat(parts.take(1024 * (n - 1)), group);
        if group.len() == 1 {
            assert(group.drop_last().len() == 0);
            assert(total_size(group) == total_size(group.drop_last()) + group.last().size);
            assert(total_size(group.drop_last()) == 0);
        }
    }
}

proof fn lemma_level_total(parts: Seq<FileEntryV>)
    requires
        total_size(parts) <= u64::MAX,
        parts.len() > 0,
    ensures
        total_size(level_above(parts)) == total_size(parts),
{
    let n = group_count(parts);
    lemma_level_total_from(parts, n);
    assert(level_above(parts).take(n) =~= level_above(parts));
    assert(parts.take(parts.len() as int) =~= parts);
}

/// A file's entry has the size of its chunks together.
pub proof fn trees_keep_the_size(parts: Seq<FileEntryV>)
    requires
        parts.len() > 0,
        total_size(parts) <= u64::MAX,
    ensures
        root_entry(parts).size == total_size(parts),
    decreases parts.len(),
{
    if parts.len() == 1 {
        assert(parts.drop_last().len() == 0);
        assert(total_size(parts.drop_last()) == 0);
    } else {
        lemma_level_total(parts);
        trees_keep_the_size(level_above(parts));
    }
}

proof fn lemma_fitting(parts: Seq<FileEntryV>, size: u64, i: int)
    requires
        0 <= i <= parts.len(),
        parts.len() >= 2,
        total_size(parts) == size,
        forall|k: int|
            0 <= k < parts.len() ==> entry_check(#[trigger] parts[k]) is Ok && parts[k].size > 0
                && !parts[k].kind.symlink() && !parts[k].executable,
    ensures
        children_check(parts, size, i, total_size(parts.take(i))) is Ok,
    decreases parts.len() - i,
{
    if i == parts.len() {
        assert(parts.take(i) =~= parts);
    } else {
        lemma_fitting(parts, size, i + 1);
        lemma_total_step(parts, i);
        let rest = parts.skip(i + 1);
        assert(parts =~= parts.take(i + 1) + rest);
        lemma_total_concat(parts.take(i + 1), rest);
        lemma_total_nonnegative(parts.take(i));
        lemma_total_nonnegative(rest);
        if i > 0 {
            lemma_total_step(parts, i - 1);
            lemma_total_nonnegative(parts.take(i - 1));
            assert(parts[i - 1].size > 0);
        } else {
            lemma_total_step(rest, 0);
            let others = rest.skip(1);
            assert(rest =~= rest.take(1) + others);
            lemma_total_concat(rest.take(1), others);
            lemma_total_nonnegative(others);
            lemma_total_nonnegative(rest.take(0));
            assert(rest[0] == parts[1]);
        }
        assert(parts[i].size < size);
    }
}

/// A manifest that is written for two or more nonempty chunks is accepted when
/// it is read.
pub proof fn written_manifests_are_accepted(parts: Seq<FileEntryV>, length: int)
    requires
        2 <= parts.len() <= FANOUT,
        total_size(parts) <= u64::MAX,
        length <= MAX_BLOB_BYTES,
        crate::objects::valid_hash(manifest_entry(parts).blob),
        forall|k: int|
            0 <= k < parts.len() ==> entry_check(#[trigger] parts[k]) is Ok && parts[k].size > 0
                && !parts[k].kind.symlink() && !parts[k].executable,
    ensures
        accepted_children(manifest_entry(parts), length, parts) == Ok::<Seq<FileEntryV>, ErrorV>(parts),
{
    lemma_total_nonnegative(parts);
    assert(parts.take(0).len() == 0);
    lemma_fitting(parts, total_size(parts) as u64, 0);
}

/// A tree over the chunks of a file: its root, and the manifests that have to
/// be stored.
#[derive(Debug)]
pub struct Tree {
    pub root: FileEntry,
    pub manifests: Vec<String>,
}

fn sum_sizes(parts: &[FileEntry]) -> (size: u64)
    requires
        total_size(entries_in(parts@)) <= u64::MAX,
    ensures
        size == total_size(entries_in(parts@)),
{
    let ghost all = entries_in(parts@);
    let mut size: u64 = 0;
    let mut i: usize = 0;
    assert(all.take(0).len() == 0);
    while i < parts.len()
        invariant
            i <= parts@.len(),
            all == entries_in(parts@),
            total_size(all) <= u64::MAX,
            size == total_size(all.take(i as int)),
        decreases parts@.len() - i,
    {
        proof {
            lemma_total_step(all, i as int);
            assert(all =~= all.take(i + 1) + all.skip(i + 1));
            lemma_total_concat(all.take(i + 1), all.skip(i + 1));
            lemma_total_nonnegative(all.skip(i + 1));
        }
        size = size + parts[i].size;
        i += 1;
    }
    assert(all.take(i as int) =~= all);
    size
}

fn build_level(parts: &[FileEntry], manifests: &mut Vec<String>) -> (level: Vec<FileEntry>)
    requires
        parts@.len() >= 2,
        total_size(entries_in(parts@)) <= u64::MAX,
    ensures
        entries_in(level@) == level_above(entries_in(parts@)),
        crate::text::texts(final(manifests)@) == crate::text::texts(old(manifests)@) + level_manifests(
            entries_in(parts@),
            group_count(entries_in(parts@)),
        ),
{
    let ghost all = entries_in(parts@);
    let ghost start = crate::text::texts(manifests@);
    let mut level: Vec<FileEntry> = Vec::new();
    let mut at: usize = 0;
    let ghost mut n: int = 0;
    assert(parts@.len() == parts.len());
    assert(entries_in(level@) =~= level_above(all).take(0));
    assert(crate::text::texts(manifests@) =~= start + level_manifests(all, 0));
    while at < parts.len()
        invariant
            parts@.len() == parts.len(),
            all == entries_in(parts@),
            total_size(all) <= u64::MAX,
            0 <= n <= group_count(all),
            n < group_count(all) ==> at == 1024 * n,
            n == group_count(all) ==> at == all.len(),
            at <= parts@.len(),
            entries_in(level@) == level_above(all).take(n),
            crate::text::texts(manifests@) == start + level_manifests(all, n),
        decreases parts@.len() - at,
    {
        let ghost so_far = entries_in(level@);
        let ghost written = crate::text::texts(manifests@);
        let end: usize = if parts.len() - at > 1024 {
            at + 1024
        } else {
            parts.len()
        };
        let group = vstd::slice::slice_subrange(parts, at, end);
        proof {
            assert(entries_in(group@) =~= nth_group(all, n));
            lemma_groups(all, n);
            lemma_group_total(all, n);
        }
        if group.len() == 1 {
            level.push(group[0].clone());
            assert(group@[0]@ == nth_group(all, n)[0]);
        } else {
            let text = entries_to_json(group);
            let blob = object_id("blob", text.as_str().as_bytes());
            let size = sum_sizes(group);
            level.push(FileEntry { blob, size, executable: false, kind: EntryKind::Chunked });
            manifests.push(text);
            assert(crate::text::texts(manifests@) =~= written.push(text@));
        }
        proof {
            assert(group@.len() == group.len());
            assert(entries_in(level@) =~= so_far.push(group_entry(nth_group(all, n))));
            assert(level_above(all).take(n + 1) =~= level_above(all).take(n).push(
                group_entry(nth_group(all, n)),
            ));
            assert(crate::text::texts(manifests@) =~= start + level_manifests(all, n + 1));
            n = n + 1;
        }
        at = end;
    }
    assert(level_above(all).take(n) =~= level_above(all));
    level
}

/// Put the chunks of a file together to one entry.
pub fn build_tree(parts: Vec<FileEntry>, executable: bool) -> (tree: Tree)
    requires
        parts@.len() > 0,
        total_size(entries_in(parts@)) <= u64::MAX,
    ensures
        tree.root@ == (FileEntryV { executable, ..root_entry(entries_in(parts@)) }),
        tree.root@.size == total_size(entries_in(parts@)),
        crate::text::texts(tree.manifests@) == tree_manifests(entries_in(parts@)),
{
    let ghost all = entries_in(parts@);
    let mut level = parts;
    let mut manifests: Vec<String> = Vec::new();
    proof {
        trees_keep_the_size(all);
        assert(crate::text::texts(manifests@) + tree_manifests(all) =~= tree_manifests(all));
    }
    while level.len() > 1
        invariant
            level@.len() > 0,
            total_size(entries_in(level@)) <= u64::MAX,
            root_entry(entries_in(level@)) == root_entry(all),
            crate::text::texts(manifests@) + tree_manifests(entries_in(level@)) == tree_manifests(all),
        decreases level@.len(),
    {
        let ghost below = entries_in(level@);
        let ghost written = crate::text::texts(manifests@);
        let above = build_level(level.as_slice(), &mut manifests);
        proof {
            lemma_level_total(below);
            assert(written + (level_manifests(below, group_count(below)) + tree_manifests(level_above(below)))
                =~= (written + level_manifests(below, group_count(below))) + tree_manifests(level_above(below)));
        }
        level = above;
    }
    assert(crate::text::texts(manifests@) + Seq::<Seq<char>>::empty() =~= crate::text::texts(manifests@));
    let first = &level[0];
    assert(entries_in(level@)[0] == first@);
    let root = FileEntry { blob: first.blob.clone(), size: first.size, executable, kind: first.kind };
    Tree { root, manifests }
}

// Reading a file

/// The content of a file that is still to be read, in order.
pub struct Reading {
    stack: Vec<FileEntry>,
}

impl Reading {
    /// What is still to be read, the next first.
    pub closed spec fn pending(self) -> Seq<FileEntryV> {
        entries_in(self.stack@).reverse()
    }

    pub fn new(entry: &FileEntry) -> (reading: Self)
        ensures
            reading.pending() == seq![entry@],
    {
        let mut stack: Vec<FileEntry> = Vec::new();
        stack.push(entry.clone());
        let reading = Reading { stack };
        assert(reading.pending() =~= seq![entry@]);
        reading
    }

    /// The next entry, which has to be valid.
    pub fn next(&mut self) -> (result: Result<Option<FileEntry>, Error>)
        ensures
            old(self).pending().len() == 0 ==> (result matches Ok(None)),
            old(self).pending().len() == 0 ==> final(self).pending() == old(self).pending(),
            old(self).pending().len() > 0 ==> {
                let entry = old(self).pending()[0];
                &&& final(self).pending() == old(self).pending().drop_first()
                &&& match entry_check(entry) {
                    Err(error) => (result matches Err(found) && found@ == error),
                    Ok(()) => (result matches Ok(Some(found)) && found@ == entry),
                }
            },
    {
        let ghost before_pop = self.stack@;
        match self.stack.pop() {
            None => Ok(None),
            Some(entry) => {
                proof {
                    let all = entries_in(before_pop).reverse();
                    assert(all[0] == entry@);
                    assert(entries_in(self.stack@).reverse() =~= all.drop_first());
                }
                entry.validate()?;
                Ok(Some(entry))
            },
        }
    }

    /// Read the children of a manifest before anything else.
    pub fn expand(&mut self, children: Vec<FileEntry>)
        ensures
            final(self).pending() == entries_in(children@) + old(self).pending(),
    {
        let ghost all = entries_in(children@);
        let ghost start = self.pending();
        let mut list = children;
        assert(all + start =~= entries_in(list@) + self.pending());
        while list.len() > 0
            invariant
                entries_in(list@) + self.pending() == all + start,
            decreases list@.len(),
        {
            let ghost before_pop = list@;
            let ghost waiting = self.pending();
            let ghost stacked = self.stack@;
            let child = list.pop().unwrap();
            let ghost value = child@;
            self.stack.push(child);
            proof {
                assert(entries_in(before_pop) =~= entries_in(list@).push(value));
                assert(entries_in(self.stack@) =~= entries_in(stacked).push(value));
                assert(self.pending() =~= seq![value] + waiting);
                assert(entries_in(list@) + self.pending() =~= entries_in(before_pop) + waiting);
            }
        }
        assert(entries_in(list@) + self.pending() =~= self.pending());
    }
}

/// A blob must have the size that its entry gives.
pub fn verify_content(actual: u64, expected: u64) -> (result: Result<(), Error>)
    ensures
        verdict(result) == (if actual == expected {
            Ok::<(), ErrorV>(())
        } else {
            Err(plain(Problem::ContentSizeMismatch))
        }),
{
    if actual == expected {
        Ok(())
    } else {
        Err(Error::plain(Problem::ContentSizeMismatch))
    }
}

/// Whether a part of a file is there, given the size of its blob, and whether
/// it has parts itself.
pub open spec fn part_check(part: FileEntryV, size: Option<u64>) -> Result<bool, ErrorV> {
    if size is Some && part.kind == EntryKind::Chunked {
        Ok(true)
    } else if size == Some(part.size) {
        Ok(false)
    } else {
        Err(about(Problem::MissingContent, part.blob))
    }
}

/// Check that a part of a file is there, where its blob has the given size, if
/// it is there at all. Says whether the part has parts itself; any other part
/// has to have the size that its entry gives.
pub fn check_part(part: &FileEntry, size: Option<u64>) -> (result: Result<bool, Error>)
    ensures
        match result {
            Ok(deeper) => part_check(part@, size) == Ok::<bool, ErrorV>(deeper),
            Err(error) => part_check(part@, size) == Err::<bool, ErrorV>(error@),
        },
{
    match size {
        Some(found) => {
            if part.kind == EntryKind::Chunked {
                Ok(true)
            } else if found == part.size {
                Ok(false)
            } else {
                Err(Error::about(Problem::MissingContent, part.blob.clone()))
            }
        },
        None => Err(Error::about(Problem::MissingContent, part.blob.clone())),
    }
}

/// The objects that a file consists of, as far as they are known.
pub struct Closure {
    stack: Vec<FileEntry>,
    found: TextSet,
}

impl Closure {
    /// What is still to be looked at, the next last.
    pub closed spec fn pending(self) -> Seq<FileEntryV> {
        entries_in(self.stack@)
    }

    /// The blobs that were found.
    pub closed spec fn blobs(self) -> Set<Seq<char>> {
        self.found@
    }

    pub fn new(entry: &FileEntry) -> (closure: Self)
        ensures
            closure.pending() == seq![entry@],
            closure.blobs() == Set::<Seq<char>>::empty(),
    {
        let mut stack: Vec<FileEntry> = Vec::new();
        stack.push(entry.clone());
        let closure = Closure { stack, found: TextSet::new() };
        assert(closure.pending() =~= seq![entry@]);
        closure
    }

    /// Take up the next entry. `Some` is a manifest that was not seen before
    /// and has to be expanded.
    pub fn next(&mut self) -> (result: Option<FileEntry>)
        requires
            old(self).pending().len() > 0,
        ensures
            ({
                let entry = old(self).pending().last();
                &&& final(self).pending() == old(self).pending().drop_last()
                &&& final(self).blobs() == old(self).blobs().insert(entry.blob)
                &&& match result {
                    Some(found) => found@ == entry && entry.kind == EntryKind::Chunked && !old(
                        self,
                    ).blobs().contains(entry.blob),
                    None => entry.kind != EntryKind::Chunked || old(self).blobs().contains(entry.blob),
                }
            }),
    {
        let ghost before_pop = self.stack@;
        let entry = self.stack.pop().unwrap();
        assert(entries_in(self.stack@) =~= entries_in(before_pop).drop_last());
        assert(entries_in(before_pop).last() == entry@);
        let fresh = self.found.insert(entry.blob.clone());
        if fresh && entry.kind == EntryKind::Chunked {
            Some(entry)
        } else {
            None
        }
    }

    /// Whether everything was looked at.
    pub fn is_done(&self) -> (result: bool)
        ensures
            result == (self.pending().len() == 0),
    {
        self.stack.len() == 0
    }

    /// Look at the children of a manifest as well.
    pub fn expand(&mut self, children: Vec<FileEntry>)
        ensures
            final(self).pending() == old(self).pending() + entries_in(children@),
            final(self).blobs() == old(self).blobs(),
    {
        let mut list = children;
        let ghost start = self.stack@;
        self.stack.append(&mut list);
        assert(entries_in(self.stack@) =~= entries_in(start) + entries_in(children@));
    }

    /// The blobs, in order.
    pub fn finish(self) -> (blobs: Vec<String>)
        ensures
            crate::text::texts(blobs@) == crate::collections::ordered(self.blobs()),
    {
        self.found.to_vec()
    }
}

// What was written is what is read

/// The blobs that a reader comes to within `steps` steps, in order, where
/// `fetch` gives the children of each manifest.
pub open spec fn read_order(
    pending: Seq<FileEntryV>,
    fetch: spec_fn(Seq<char>) -> Seq<FileEntryV>,
    steps: nat,
) -> Option<Seq<FileEntryV>>
    decreases steps,
{
    if pending.len() == 0 {
        Some(Seq::empty())
    } else if steps == 0 {
        None
    } else if pending[0].kind == EntryKind::Chunked {
        read_order(fetch(pending[0].blob) + pending.drop_first(), fetch, (steps - 1) as nat)
    } else {
        match read_order(pending.drop_first(), fetch, (steps - 1) as nat) {
            Some(rest) => Some(seq![pending[0]] + rest),
            None => None,
        }
    }
}

/// Some number of steps is enough to read `pending` as `blobs`.
pub open spec fn reads_as(
    pending: Seq<FileEntryV>,
    fetch: spec_fn(Seq<char>) -> Seq<FileEntryV>,
    blobs: Seq<FileEntryV>,
) -> bool {
    exists|steps: nat| #[trigger] read_order(pending, fetch, steps) == Some(blobs)
}

/// The manifests of the tree over `parts` can be fetched.
pub open spec fn tree_stored(parts: Seq<FileEntryV>, fetch: spec_fn(Seq<char>) -> Seq<FileEntryV>) -> bool
    decreases parts.len(),
{
    parts.len() <= 1 || {
        &&& forall|n: int|
            0 <= n < group_count(parts) && (#[trigger] nth_group(parts, n)).len() != 1 ==> fetch(
                manifest_entry(nth_group(parts, n)).blob,
            ) == nth_group(parts, n)
        &&& tree_stored(level_above(parts), fetch)
    }
}

proof fn lemma_read_both(
    a: Seq<FileEntryV>,
    n: nat,
    x: Seq<FileEntryV>,
    b: Seq<FileEntryV>,
    m: nat,
    y: Seq<FileEntryV>,
    fetch: spec_fn(Seq<char>) -> Seq<FileEntryV>,
)
    requires
        read_order(a, fetch, n) == Some(x),
        read_order(b, fetch, m) == Some(y),
    ensures
        reads_as(a + b, fetch, x + y),
    decreases n,
{
    if a.len() == 0 {
        assert(a + b =~= b);
        assert(x + y =~= y);
    } else if a[0].kind == EntryKind::Chunked {
        let next = fetch(a[0].blob) + a.drop_first();
        lemma_read_both(next, (n - 1) as nat, x, b, m, y, fetch);
        let steps = choose|steps: nat| #[trigger] read_order(next + b, fetch, steps) == Some(x + y);
        assert((a + b).drop_first() =~= a.drop_first() + b);
        assert(fetch((a + b)[0].blob) + (a + b).drop_first() =~= next + b);
        assert(read_order(a + b, fetch, steps + 1) == Some(x + y));
    } else {
        let rest = read_order(a.drop_first(), fetch, (n - 1) as nat)->0;
        lemma_read_both(a.drop_first(), (n - 1) as nat, rest, b, m, y, fetch);
        let steps = choose|steps: nat| #[trigger]
            read_order(a.drop_first() + b, fetch, steps) == Some(rest + y);
        assert((a + b).drop_first() =~= a.drop_first() + b);
        assert(seq![a[0]] + (rest + y) =~= x + y);
        assert(read_order(a + b, fetch, steps + 1) == Some(x + y));
    }
}

proof fn lemma_reads_both(
    a: Seq<FileEntryV>,
    x: Seq<FileEntryV>,
    b: Seq<FileEntryV>,
    y: Seq<FileEntryV>,
    fetch: spec_fn(Seq<char>) -> Seq<FileEntryV>,
)
    requires
        reads_as(a, fetch, x),
        reads_as(b, fetch, y),
    ensures
        reads_as(a + b, fetch, x + y),
{
    let n = choose|steps: nat| #[trigger] read_order(a, fetch, steps) == Some(x);
    let m = choose|steps: nat| #[trigger] read_order(b, fetch, steps) == Some(y);
    lemma_read_both(a, n, x, b, m, y, fetch);
}

proof fn lemma_read_apart(
    a: Seq<FileEntryV>,
    b: Seq<FileEntryV>,
    n: nat,
    o: Seq<FileEntryV>,
    fetch: spec_fn(Seq<char>) -> Seq<FileEntryV>,
) -> (result: (Seq<FileEntryV>, Seq<FileEntryV>))
    requires
        read_order(a + b, fetch, n) == Some(o),
    ensures
        reads_as(a, fetch, result.0),
        reads_as(b, fetch, result.1),
        result.0 + result.1 == o,
    decreases n,
{
    let all = a + b;
    if a.len() == 0 {
        assert(all =~= b);
        assert(read_order(a, fetch, 0) == Some(Seq::<FileEntryV>::empty()));
        assert(read_order(b, fetch, n) == Some(o));
        assert(Seq::<FileEntryV>::empty() + o =~= o);
        (Seq::empty(), o)
    } else {
        assert(all[0] == a[0]);
        assert(all.drop_first() =~= a.drop_first() + b);
        if a[0].kind == EntryKind::Chunked {
            let next = fetch(a[0].blob) + a.drop_first();
            assert(fetch(all[0].blob) + all.drop_first() =~= next + b);
            let (x, y) = lemma_read_apart(next, b, (n - 1) as nat, o, fetch);
            let steps = choose|steps: nat| #[trigger] read_order(next, fetch, steps) == Some(x);
            assert(read_order(a, fetch, steps + 1) == Some(x));
            (x, y)
        } else {
            let rest = read_order(all.drop_first(), fetch, (n - 1) as nat)->0;
            let (x, y) = lemma_read_apart(a.drop_first(), b, (n - 1) as nat, rest, fetch);
            let steps = choose|steps: nat| #[trigger] read_order(a.drop_first(), fetch, steps) == Some(x);
            assert(read_order(a, fetch, steps + 1) == Some(seq![a[0]] + x));
            assert((seq![a[0]] + x) + y =~= o);
            (seq![a[0]] + x, y)
        }
    }
}

/// The parts that the first `n` groups cover.
spec fn covered(parts: Seq<FileEntryV>, n: int) -> Seq<FileEntryV> {
    if 1024 * n < parts.len() {
        parts.take(1024 * n)
    } else {
        parts
    }
}

proof fn lemma_covered(parts: Seq<FileEntryV>, n: int)
    requires
        0 < n <= group_count(parts),
        parts.len() >= 2,
    ensures
        covered(parts, n) == covered(parts, n - 1) + nth_group(parts, n - 1),
{
    lemma_groups(parts, n - 1);
    assert(covered(parts, n) =~= covered(parts, n - 1) + nth_group(parts, n - 1));
}

/// The entry of a group reads as the group does.
proof fn lemma_group_reads(
    group: Seq<FileEntryV>,
    fetch: spec_fn(Seq<char>) -> Seq<FileEntryV>,
    o: Seq<FileEntryV>,
)
    requires
        group.len() > 0,
        group.len() != 1 ==> fetch(manifest_entry(group).blob) == group,
        reads_as(group, fetch, o),
    ensures
        reads_as(seq![group_entry(group)], fetch, o),
{
    let entry = group_entry(group);
    if group.len() == 1 {
        assert(seq![entry] =~= group);
    } else {
        let k = choose|k: nat| #[trigger] read_order(group, fetch, k) == Some(o);
        assert(group + seq![entry].drop_first() =~= group);
        assert(read_order(seq![entry], fetch, k + 1) == Some(o));
    }
}

#[verifier::spinoff_prover]
proof fn lemma_level_reads(
    parts: Seq<FileEntryV>,
    fetch: spec_fn(Seq<char>) -> Seq<FileEntryV>,
    n: int,
    o: Seq<FileEntryV>,
)
    requires
        0 <= n <= group_count(parts),
        parts.len() >= 2,
        tree_stored(parts, fetch),
        reads_as(covered(parts, n), fetch, o),
    ensures
        reads_as(level_above(parts).take(n), fetch, o),
    decreases n,
{
    let level = level_above(parts);
    if n == 0 {
        assert(covered(parts, 0) =~= Seq::<FileEntryV>::empty());
        assert(level.take(0) =~= Seq::<FileEntryV>::empty());
    } else {
        let group = nth_group(parts, n - 1);
        lemma_groups(parts, n - 1);
        lemma_covered(parts, n);
        let steps = choose|steps: nat| #[trigger] read_order(covered(parts, n), fetch, steps) == Some(o);
        let (x, y) = lemma_read_apart(covered(parts, n - 1), group, steps, o, fetch);
        lemma_level_reads(parts, fetch, n - 1, x);
        lemma_group_reads(group, fetch, y);
        let entry = group_entry(group);
        lemma_reads_both(level.take(n - 1), x, seq![entry], y, fetch);
        assert(level.take(n) =~= level.take(n - 1) + seq![entry]);
    }
}

proof fn lemma_tree_reads(
    parts: Seq<FileEntryV>,
    fetch: spec_fn(Seq<char>) -> Seq<FileEntryV>,
    o: Seq<FileEntryV>,
)
    requires
        parts.len() > 0,
        tree_stored(parts, fetch),
        reads_as(parts, fetch, o),
    ensures
        reads_as(seq![root_entry(parts)], fetch, o),
    decreases parts.len(),
{
    if parts.len() == 1 {
        assert(seq![root_entry(parts)] =~= parts);
    } else {
        let n = group_count(parts);
        assert(covered(parts, n) =~= parts);
        lemma_level_reads(parts, fetch, n, o);
        assert(level_above(parts).take(n) =~= level_above(parts));
        lemma_tree_reads(level_above(parts), fetch, o);
    }
}

proof fn lemma_chunks_read(parts: Seq<FileEntryV>, fetch: spec_fn(Seq<char>) -> Seq<FileEntryV>)
    requires
        forall|k: int| 0 <= k < parts.len() ==> (#[trigger] parts[k]).kind == EntryKind::Regular,
    ensures
        read_order(parts, fetch, parts.len()) == Some(parts),
    decreases parts.len(),
{
    if parts.len() > 0 {
        assert(parts[0].kind == EntryKind::Regular);
        assert forall|k: int| 0 <= k < parts.drop_first().len() implies (#[trigger] parts.drop_first()[k]).kind
            == EntryKind::Regular by {
            assert(parts[k + 1].kind == EntryKind::Regular);
        }
        lemma_chunks_read(parts.drop_first(), fetch);
        assert(seq![parts[0]] + parts.drop_first() =~= parts);
    } else {
        assert(parts =~= Seq::<FileEntryV>::empty());
    }
}

/// Reading the tree that was built over the chunks of a file comes to these
/// chunks, all of them and in order, as long as its manifests can be fetched.
pub proof fn trees_read_back(parts: Seq<FileEntryV>, fetch: spec_fn(Seq<char>) -> Seq<FileEntryV>)
    requires
        parts.len() > 0,
        forall|k: int| 0 <= k < parts.len() ==> (#[trigger] parts[k]).kind == EntryKind::Regular,
        tree_stored(parts, fetch),
    ensures
        reads_as(seq![root_entry(parts)], fetch, parts),
{
    lemma_chunks_read(parts, fetch);
    assert(reads_as(parts, fetch, parts));
    lemma_tree_reads(parts, fetch, parts);
}

// How long a manifest can be

proof fn lemma_utf8_length(text: Seq<char>)
    ensures
        encode_utf8(text).len() <= 4 * text.len(),
    decreases text.len(),
{
    if text.len() > 0 {
        lemma_utf8_length(text.drop_first());
    }
}

proof fn lemma_escaped_length(text: Seq<char>)
    ensures
        escaped_text(text).len() <= 6 * text.len(),
    decreases text.len(),
{
    if text.len() > 0 {
        lemma_escaped_length(text.drop_last());
    }
}

/// The least number with more than `digits` decimal digits.
spec fn power_of_ten(digits: nat) -> nat
    decreases digits,
{
    if digits == 0 {
        1
    } else {
        10 * power_of_ten((digits - 1) as nat)
    }
}

proof fn lemma_decimal_length(n: nat, digits: nat)
    requires
        digits > 0,
        n < power_of_ten(digits),
    ensures
        decimal(n).len() <= digits,
    decreases digits,
{
    if n >= 10 {
        reveal_with_fuel(power_of_ten, 2);
        lemma_decimal_length(n / 10, (digits - 1) as nat);
    }
}

proof fn lemma_entry_length(entry: FileEntryV)
    requires
        valid_hash(entry.blob),
    ensures
        FileEntry::json_of(entry).len() <= 500,
{
    lemma_escaped_length(entry.blob);
    reveal_with_fuel(power_of_ten, 21);
    lemma_decimal_length(entry.size as nat, 20);
    reveal_strlit("{\"blob\":");
    reveal_strlit(",\"size\":");
    reveal_strlit(",\"executable\":");
    reveal_strlit("true");
    reveal_strlit("false");
    reveal_strlit(",\"kind\":\"");
    reveal_strlit("regular");
    reveal_strlit("chunked");
    reveal_strlit("symlink");
    reveal_strlit("symlink-directory");
    reveal_strlit("\"");
    reveal_strlit("}");
}

proof fn lemma_joined_length(parts: Seq<Seq<char>>)
    requires
        forall|k: int| 0 <= k < parts.len() ==> (#[trigger] parts[k]).len() <= 500,
    ensures
        join(parts, ","@).len() <= 501 * parts.len(),
    decreases parts.len(),
{
    reveal_strlit(",");
    if parts.len() > 1 {
        assert forall|k: int| 0 <= k < parts.drop_last().len() implies (#[trigger] parts.drop_last()[k]).len()
            <= 500 by {
            assert(parts[k].len() <= 500);
        }
        lemma_joined_length(parts.drop_last());
        assert(parts[parts.len() - 1].len() <= 500);
    } else if parts.len() == 1 {
        assert(parts[0].len() <= 500);
    }
}

/// A manifest fits a blob.
proof fn lemma_manifest_length(group: Seq<FileEntryV>)
    requires
        group.len() <= FANOUT,
        forall|k: int| 0 <= k < group.len() ==> entry_check(#[trigger] group[k]) is Ok,
    ensures
        encode_utf8(entries_json(group)).len() <= MAX_BLOB_BYTES,
{
    let members = group.map_values(|entry: FileEntryV| FileEntry::json_of(entry));
    assert forall|k: int| 0 <= k < members.len() implies (#[trigger] members[k]).len() <= 500 by {
        assert(entry_check(group[k]) is Ok);
        lemma_entry_length(group[k]);
    }
    lemma_joined_length(members);
    reveal_strlit("[");
    reveal_strlit("]");
    lemma_utf8_length(entries_json(group));
}

// The content of a file

/// The chunks of what is left of a file of the given size.
pub open spec fn split_from(size: u64, rest: Seq<u8>) -> Seq<Seq<u8>>
    decreases rest.len(),
{
    let length = chunk_length(size, rest.len() as u64);
    if length <= 0 || length >= rest.len() {
        seq![rest]
    } else {
        seq![rest.take(length)] + split_from(size, rest.skip(length))
    }
}

/// The chunks of a file.
pub open spec fn chunks_of(bytes: Seq<u8>) -> Seq<Seq<u8>> {
    split_from(bytes.len() as u64, bytes)
}

/// The entry of a chunk.
pub open spec fn chunk_value(chunk: Seq<u8>) -> FileEntryV {
    FileEntryV {
        blob: object_hash("blob"@, chunk),
        size: chunk.len() as u64,
        executable: false,
        kind: EntryKind::Regular,
    }
}

/// The entries of the chunks of a file.
pub open spec fn parts_of(bytes: Seq<u8>) -> Seq<FileEntryV> {
    chunks_of(bytes).map_values(|chunk: Seq<u8>| chunk_value(chunk))
}

/// The entry of a file.
pub open spec fn content_entry(bytes: Seq<u8>, executable: bool) -> FileEntryV {
    FileEntryV { executable, ..root_entry(parts_of(bytes)) }
}

/// Some byte strings, one after another.
pub open spec fn joined_bytes(list: Seq<Seq<u8>>) -> Seq<u8>
    decreases list.len(),
{
    if list.len() == 0 {
        Seq::empty()
    } else {
        list[0] + joined_bytes(list.skip(1))
    }
}

/// What reading gives within `steps` steps, where `blob` gives the blob with
/// an identity and `parse` the entries that the bytes of a manifest list:
/// `None` where it takes more steps.
pub open spec fn read_bytes(
    pending: Seq<FileEntryV>,
    blob: spec_fn(Seq<char>) -> Result<Seq<u8>, ErrorV>,
    parse: spec_fn(Seq<u8>) -> Result<Seq<FileEntryV>, ErrorV>,
    steps: nat,
) -> Option<Result<Seq<u8>, ErrorV>>
    decreases steps,
{
    if pending.len() == 0 {
        Some(Ok(Seq::empty()))
    } else if steps == 0 {
        None
    } else {
        let entry = pending[0];
        match entry_check(entry) {
            Err(error) => Some(Err(error)),
            Ok(()) => match blob(entry.blob) {
                Err(error) => Some(Err(error)),
                Ok(bytes) => if entry.kind == EntryKind::Chunked {
                    match listed_children(entry, bytes, parse) {
                        Err(error) => Some(Err(error)),
                        Ok(children) => read_bytes(children + pending.drop_first(), blob, parse, (steps - 1) as nat),
                    }
                } else if bytes.len() != entry.size {
                    Some(Err(plain(Problem::ContentSizeMismatch)))
                } else {
                    match read_bytes(pending.drop_first(), blob, parse, (steps - 1) as nat) {
                        Some(Ok(rest)) => Some(Ok(bytes + rest)),
                        other => other,
                    }
                },
            },
        }
    }
}

/// The children that the bytes of a manifest list.
pub open spec fn listed_children(
    entry: FileEntryV,
    bytes: Seq<u8>,
    parse: spec_fn(Seq<u8>) -> Result<Seq<FileEntryV>, ErrorV>,
) -> Result<Seq<FileEntryV>, ErrorV> {
    match manifest_check(entry, bytes.len() as int) {
        Err(error) => Err(error),
        Ok(()) => match parse(bytes) {
            Err(error) => Err(error),
            Ok(list) => accepted_children(entry, bytes.len() as int, list),
        },
    }
}

/// The manifest of a group was stored: its bytes are read back, and they list
/// what they were written for.
pub open spec fn manifest_kept(
    group: Seq<FileEntryV>,
    blob: spec_fn(Seq<char>) -> Result<Seq<u8>, ErrorV>,
    parse: spec_fn(Seq<u8>) -> Result<Seq<FileEntryV>, ErrorV>,
) -> bool {
    let bytes = encode_utf8(entries_json(group));
    &&& valid_hash(manifest_entry(group).blob)
    &&& blob(manifest_entry(group).blob) == Ok::<Seq<u8>, ErrorV>(bytes)
    &&& parse(bytes) == Ok::<Seq<FileEntryV>, ErrorV>(group)
}

/// The manifests of the tree over `parts` were stored.
pub open spec fn tree_kept(
    parts: Seq<FileEntryV>,
    blob: spec_fn(Seq<char>) -> Result<Seq<u8>, ErrorV>,
    parse: spec_fn(Seq<u8>) -> Result<Seq<FileEntryV>, ErrorV>,
) -> bool
    decreases parts.len(),
{
    parts.len() <= 1 || {
        &&& forall|n: int|
            0 <= n < group_count(parts) && (#[trigger] nth_group(parts, n)).len() != 1 ==> manifest_kept(
                nth_group(parts, n),
                blob,
                parse,
            )
        &&& tree_kept(level_above(parts), blob, parse)
    }
}

/// The chunks of a file were stored.
pub open spec fn chunks_kept(bytes: Seq<u8>, blob: spec_fn(Seq<char>) -> Result<Seq<u8>, ErrorV>) -> bool {
    forall|k: int|
        0 <= k < chunks_of(bytes).len() ==> valid_hash(object_hash("blob"@, #[trigger] chunks_of(bytes)[k])) && blob(
            object_hash("blob"@, chunks_of(bytes)[k]),
        ) == Ok::<Seq<u8>, ErrorV>(chunks_of(bytes)[k])
}

/// The blobs that are written for a file: its chunks, and the manifests of the
/// tree over them.
pub open spec fn written_blobs(bytes: Seq<u8>) -> Seq<Seq<u8>> {
    chunks_of(bytes) + tree_manifests(parts_of(bytes)).map_values(|text: Seq<char>| encode_utf8(text))
}

/// The manifests of the tree over `parts` list what they were written for.
pub open spec fn tree_parsed(
    parts: Seq<FileEntryV>,
    parse: spec_fn(Seq<u8>) -> Result<Seq<FileEntryV>, ErrorV>,
) -> bool
    decreases parts.len(),
{
    parts.len() <= 1 || {
        &&& forall|n: int|
            0 <= n < group_count(parts) && (#[trigger] nth_group(parts, n)).len() != 1 ==> parse(
                encode_utf8(entries_json(nth_group(parts, n))),
            ) == Ok::<Seq<FileEntryV>, ErrorV>(nth_group(parts, n))
        &&& tree_parsed(level_above(parts), parse)
    }
}

/// A blob is read back under the hash of its bytes.
pub open spec fn blob_kept(bytes: Seq<u8>, blob: spec_fn(Seq<char>) -> Result<Seq<u8>, ErrorV>) -> bool {
    valid_hash(object_hash("blob"@, bytes)) && blob(object_hash("blob"@, bytes)) == Ok::<Seq<u8>, ErrorV>(bytes)
}

proof fn lemma_level_manifest(parts: Seq<FileEntryV>, count: int, n: int) -> (i: int)
    requires
        0 <= n < count,
        nth_group(parts, n).len() != 1,
    ensures
        0 <= i < level_manifests(parts, count).len(),
        level_manifests(parts, count)[i] == entries_json(nth_group(parts, n)),
    decreases count,
{
    if n == count - 1 {
        level_manifests(parts, count).len() - 1
    } else {
        lemma_level_manifest(parts, count - 1, n)
    }
}

proof fn lemma_tree_is_kept(
    parts: Seq<FileEntryV>,
    blob: spec_fn(Seq<char>) -> Result<Seq<u8>, ErrorV>,
    parse: spec_fn(Seq<u8>) -> Result<Seq<FileEntryV>, ErrorV>,
)
    requires
        tree_parsed(parts, parse),
        forall|i: int|
            0 <= i < tree_manifests(parts).len() ==> blob_kept(encode_utf8(#[trigger] tree_manifests(parts)[i]), blob),
    ensures
        tree_kept(parts, blob, parse),
    decreases parts.len(),
{
    if parts.len() > 1 {
        let level = level_manifests(parts, group_count(parts));
        let above = tree_manifests(level_above(parts));
        assert(tree_manifests(parts) =~= level + above);
        assert forall|i: int| 0 <= i < above.len() implies blob_kept(encode_utf8(#[trigger] above[i]), blob) by {
            assert(above[i] == tree_manifests(parts)[level.len() + i]);
        }
        lemma_tree_is_kept(level_above(parts), blob, parse);
        assert forall|n: int|
            0 <= n < group_count(parts) && (#[trigger] nth_group(parts, n)).len() != 1 implies manifest_kept(
            nth_group(parts, n),
            blob,
            parse,
        ) by {
            let i = lemma_level_manifest(parts, group_count(parts), n);
            assert(tree_manifests(parts)[i] == level[i]);
            assert(blob_kept(encode_utf8(tree_manifests(parts)[i]), blob));
        }
    }
}

/// A store that gives back the blobs that are written for a file keeps its
/// chunks and its tree.
pub proof fn written_blobs_keep_the_file(
    bytes: Seq<u8>,
    blob: spec_fn(Seq<char>) -> Result<Seq<u8>, ErrorV>,
    parse: spec_fn(Seq<u8>) -> Result<Seq<FileEntryV>, ErrorV>,
)
    requires
        tree_parsed(parts_of(bytes), parse),
        forall|i: int| 0 <= i < written_blobs(bytes).len() ==> blob_kept(#[trigger] written_blobs(bytes)[i], blob),
    ensures
        chunks_kept(bytes, blob),
        tree_kept(parts_of(bytes), blob, parse),
{
    let chunks = chunks_of(bytes);
    let texts = tree_manifests(parts_of(bytes));
    let all = written_blobs(bytes);
    assert forall|k: int| 0 <= k < chunks.len() implies blob_kept(#[trigger] chunks[k], blob) by {
        assert(all[k] == chunks[k]);
    }
    assert forall|i: int| 0 <= i < texts.len() implies blob_kept(encode_utf8(#[trigger] texts[i]), blob) by {
        assert(all[chunks.len() + i] == encode_utf8(texts[i]));
    }
    lemma_tree_is_kept(parts_of(bytes), blob, parse);
}

/// An entry that can be read, through at most `depth` levels of manifests.
spec fn readable(
    entry: FileEntryV,
    blob: spec_fn(Seq<char>) -> Result<Seq<u8>, ErrorV>,
    parse: spec_fn(Seq<u8>) -> Result<Seq<FileEntryV>, ErrorV>,
    depth: nat,
) -> bool
    decreases depth,
{
    &&& entry_check(entry) is Ok
    &&& blob(entry.blob) is Ok
    &&& if entry.kind == EntryKind::Chunked {
        let bytes = blob(entry.blob)->Ok_0;
        &&& depth > 0
        &&& listed_children(entry, bytes, parse) is Ok
        &&& parse(bytes) is Ok
        &&& listed_children(entry, bytes, parse)->Ok_0 == parse(bytes)->Ok_0
        &&& forall|k: int|
            0 <= k < parse(bytes)->Ok_0.len() ==> readable(
                #[trigger] parse(bytes)->Ok_0[k],
                blob,
                parse,
                (depth - 1) as nat,
            )
    } else {
        blob(entry.blob)->Ok_0.len() == entry.size
    }
}

proof fn lemma_readable_deeper(
    entry: FileEntryV,
    blob: spec_fn(Seq<char>) -> Result<Seq<u8>, ErrorV>,
    parse: spec_fn(Seq<u8>) -> Result<Seq<FileEntryV>, ErrorV>,
    depth: nat,
)
    requires
        readable(entry, blob, parse, depth),
    ensures
        readable(entry, blob, parse, depth + 1),
    decreases depth,
{
    if entry.kind == EntryKind::Chunked {
        let list = parse(blob(entry.blob)->Ok_0)->Ok_0;
        assert forall|k: int| 0 <= k < list.len() implies readable(#[trigger] list[k], blob, parse, depth) by {
            lemma_readable_deeper(list[k], blob, parse, (depth - 1) as nat);
        }
    }
}

/// The children of a manifest, as far as they can be fetched.
spec fn fetched(
    blob: spec_fn(Seq<char>) -> Result<Seq<u8>, ErrorV>,
    parse: spec_fn(Seq<u8>) -> Result<Seq<FileEntryV>, ErrorV>,
) -> spec_fn(Seq<char>) -> Seq<FileEntryV> {
    |id: Seq<char>| parse(blob(id)->Ok_0)->Ok_0
}

/// The content of some blobs.
spec fn contents(order: Seq<FileEntryV>, blob: spec_fn(Seq<char>) -> Result<Seq<u8>, ErrorV>) -> Seq<Seq<u8>> {
    order.map_values(|entry: FileEntryV| blob(entry.blob)->Ok_0)
}

proof fn lemma_read_bytes(
    pending: Seq<FileEntryV>,
    blob: spec_fn(Seq<char>) -> Result<Seq<u8>, ErrorV>,
    parse: spec_fn(Seq<u8>) -> Result<Seq<FileEntryV>, ErrorV>,
    steps: nat,
    depth: nat,
)
    requires
        read_order(pending, fetched(blob, parse), steps) is Some,
        forall|k: int| 0 <= k < pending.len() ==> readable(#[trigger] pending[k], blob, parse, depth),
    ensures
        read_bytes(pending, blob, parse, steps) == Some(
            Ok::<Seq<u8>, ErrorV>(
                joined_bytes(contents(read_order(pending, fetched(blob, parse), steps)->0, blob)),
            ),
        ),
    decreases steps,
{
    let fetch = fetched(blob, parse);
    if pending.len() == 0 {
        assert(contents(Seq::empty(), blob) =~= Seq::<Seq<u8>>::empty());
    } else {
        let entry = pending[0];
        let rest = pending.drop_first();
        assert(readable(entry, blob, parse, depth));
        assert forall|k: int| 0 <= k < rest.len() implies readable(#[trigger] rest[k], blob, parse, depth) by {
            assert(rest[k] == pending[k + 1]);
        }
        let bytes = blob(entry.blob)->Ok_0;
        if entry.kind == EntryKind::Chunked {
            let children = parse(bytes)->Ok_0;
            let next = children + rest;
            assert(fetch(entry.blob) == children);
            assert forall|k: int| 0 <= k < next.len() implies readable(#[trigger] next[k], blob, parse, depth) by {
                if k < children.len() {
                    assert(next[k] == children[k]);
                    lemma_readable_deeper(children[k], blob, parse, (depth - 1) as nat);
                } else {
                    assert(next[k] == rest[k - children.len()]);
                }
            }
            lemma_read_bytes(next, blob, parse, (steps - 1) as nat, depth);
        } else {
            lemma_read_bytes(rest, blob, parse, (steps - 1) as nat, depth);
            let tail = read_order(rest, fetch, (steps - 1) as nat)->0;
            let order = seq![entry] + tail;
            assert(contents(order, blob)[0] == bytes);
            assert(contents(order, blob).skip(1) =~= contents(tail, blob));
        }
    }
}

proof fn lemma_level_readable(
    parts: Seq<FileEntryV>,
    blob: spec_fn(Seq<char>) -> Result<Seq<u8>, ErrorV>,
    parse: spec_fn(Seq<u8>) -> Result<Seq<FileEntryV>, ErrorV>,
    depth: nat,
    n: int,
)
    requires
        parts.len() >= 2,
        total_size(parts) <= u64::MAX,
        tree_kept(parts, blob, parse),
        0 <= n < group_count(parts),
        forall|k: int|
            0 <= k < parts.len() ==> readable(#[trigger] parts[k], blob, parse, depth) && parts[k].size > 0
                && !parts[k].kind.symlink() && !parts[k].executable,
    ensures
        ({
            let entry = level_above(parts)[n];
            &&& readable(entry, blob, parse, depth + 1)
            &&& entry.size > 0
            &&& !entry.kind.symlink()
            &&& !entry.executable
        }),
{
    let group = nth_group(parts, n);
    lemma_groups(parts, n);
    assert forall|k: int| 0 <= k < group.len() implies readable(#[trigger] group[k], blob, parse, depth)
        && group[k].size > 0 && !group[k].kind.symlink() && !group[k].executable by {
        assert(group[k] == parts[1024 * n + k]);
    }
    if group.len() == 1 {
        lemma_readable_deeper(group[0], blob, parse, depth);
    } else {
        let bytes = encode_utf8(entries_json(group));
        assert(manifest_kept(group, blob, parse));
        lemma_group_total(parts, n);
        assert forall|k: int| 0 <= k < group.len() implies entry_check(#[trigger] group[k]) is Ok by {
            assert(readable(group[k], blob, parse, depth));
        }
        lemma_manifest_length(group);
        written_manifests_are_accepted(group, bytes.len() as int);
        lemma_total_step(group, 0);
        assert(group =~= group.take(1) + group.skip(1));
        lemma_total_concat(group.take(1), group.skip(1));
        lemma_total_nonnegative(group.skip(1));
        lemma_total_nonnegative(group.take(0));
        let entry = manifest_entry(group);
        assert(group[0].size > 0);
        assert(entry.size == total_size(group));
        assert forall|k: int| 0 <= k < group.len() implies readable(
            #[trigger] parse(bytes)->Ok_0[k],
            blob,
            parse,
            depth,
        ) by {
            assert(readable(group[k], blob, parse, depth));
        }
        assert(listed_children(entry, bytes, parse) == Ok::<Seq<FileEntryV>, ErrorV>(group));
    }
}

proof fn lemma_root_readable(
    parts: Seq<FileEntryV>,
    blob: spec_fn(Seq<char>) -> Result<Seq<u8>, ErrorV>,
    parse: spec_fn(Seq<u8>) -> Result<Seq<FileEntryV>, ErrorV>,
    depth: nat,
) -> (height: nat)
    requires
        parts.len() > 0,
        total_size(parts) <= u64::MAX,
        tree_kept(parts, blob, parse),
        forall|k: int|
            0 <= k < parts.len() ==> readable(#[trigger] parts[k], blob, parse, depth) && !parts[k].kind.symlink()
                && !parts[k].executable && (parts.len() > 1 ==> parts[k].size > 0),
    ensures
        readable(root_entry(parts), blob, parse, height),
        !root_entry(parts).kind.symlink(),
        parts.len() > 1 ==> root_entry(parts).kind == EntryKind::Chunked,
    decreases parts.len(),
{
    if parts.len() == 1 {
        assert(readable(parts[0], blob, parse, depth));
        depth
    } else {
        let level = level_above(parts);
        assert forall|n: int| 0 <= n < level.len() implies readable(#[trigger] level[n], blob, parse, depth + 1)
            && !level[n].kind.symlink() && !level[n].executable && level[n].size > 0 by {
            lemma_level_readable(parts, blob, parse, depth, n);
        }
        lemma_level_total(parts);
        if level.len() == 1 {
            assert(nth_group(parts, 0) =~= parts);
            assert(level[0] == manifest_entry(parts));
        }
        lemma_root_readable(level, blob, parse, depth + 1)
    }
}

proof fn lemma_tree_is_stored(
    parts: Seq<FileEntryV>,
    blob: spec_fn(Seq<char>) -> Result<Seq<u8>, ErrorV>,
    parse: spec_fn(Seq<u8>) -> Result<Seq<FileEntryV>, ErrorV>,
)
    requires
        tree_kept(parts, blob, parse),
    ensures
        tree_stored(parts, fetched(blob, parse)),
    decreases parts.len(),
{
    if parts.len() > 1 {
        lemma_tree_is_stored(level_above(parts), blob, parse);
        assert forall|n: int| 0 <= n < group_count(parts) && (#[trigger] nth_group(parts, n)).len() != 1 implies fetched(
            blob,
            parse,
        )(manifest_entry(nth_group(parts, n)).blob) == nth_group(parts, n) by {
            assert(manifest_kept(nth_group(parts, n), blob, parse));
        }
    }
}

proof fn lemma_split(size: u64, rest: Seq<u8>)
    requires
        rest.len() <= size,
        size <= MAX_BLOB_BYTES ==> rest.len() == size,
    ensures
        split_from(size, rest).len() > 0,
        joined_bytes(split_from(size, rest)) == rest,
        total_size(split_from(size, rest).map_values(|chunk: Seq<u8>| chunk_value(chunk))) == rest.len(),
        forall|k: int|
            0 <= k < split_from(size, rest).len() ==> (#[trigger] split_from(size, rest)[k]).len() <= MAX_BLOB_BYTES && (
            rest.len() > 0 ==> split_from(size, rest)[k].len() > 0),
        size <= MAX_BLOB_BYTES ==> split_from(size, rest) == seq![rest],
        size > MAX_BLOB_BYTES && rest.len() > CHUNK_BYTES ==> split_from(size, rest).len() > 1,
    decreases rest.len(),
{
    let list = split_from(size, rest);
    let entries = list.map_values(|chunk: Seq<u8>| chunk_value(chunk));
    let length = chunk_length(size, rest.len() as u64);
    if length <= 0 || length >= rest.len() {
        assert(list.skip(1) =~= Seq::<Seq<u8>>::empty());
        assert(joined_bytes(list.skip(1)) =~= Seq::<u8>::empty());
        assert(rest + Seq::<u8>::empty() =~= rest);
        assert(joined_bytes(list) == list[0] + joined_bytes(list.skip(1)));
        assert(entries.drop_last().len() == 0);
        assert(total_size(entries.drop_last()) == 0);
        assert(entries.last() == chunk_value(rest));
    } else {
        let tail = rest.skip(length);
        lemma_split(size, tail);
        let others = split_from(size, tail);
        assert(list[0] == rest.take(length));
        assert(list.skip(1) =~= others);
        assert(rest.take(length) + tail =~= rest);
        let first = seq![chunk_value(rest.take(length))];
        let after = others.map_values(|chunk: Seq<u8>| chunk_value(chunk));
        assert(entries =~= first + after);
        lemma_total_concat(first, after);
        assert(first.drop_last().len() == 0);
        assert(total_size(first.drop_last()) == 0);
        assert(total_size(first) == length);
        assert forall|k: int| 0 <= k < list.len() implies (#[trigger] list[k]).len() <= MAX_BLOB_BYTES && list[k].len()
            > 0 by {
            if k > 0 {
                assert(list[k] == others[k - 1]);
            }
        }
    }
}

/// What was stored of a file is what is read of it: from the entry of a file
/// whose blobs the store gives back, reading gives the file's bytes. The entry
/// has the size of the file and says whether it is executable; it is the file's
/// blob itself up to the size of a blob, and a tree of chunks beyond.
pub proof fn stored_content_is_read_back(
    bytes: Seq<u8>,
    executable: bool,
    blob: spec_fn(Seq<char>) -> Result<Seq<u8>, ErrorV>,
    parse: spec_fn(Seq<u8>) -> Result<Seq<FileEntryV>, ErrorV>,
)
    requires
        bytes.len() <= u64::MAX,
        chunks_kept(bytes, blob),
        tree_kept(parts_of(bytes), blob, parse),
    ensures
        ({
            let entry = content_entry(bytes, executable);
            &&& entry.size == bytes.len()
            &&& entry.executable == executable
            &&& bytes.len() <= MAX_BLOB_BYTES ==> entry.kind == EntryKind::Regular && entry.blob == object_hash(
                "blob"@,
                bytes,
            )
            &&& bytes.len() > MAX_BLOB_BYTES ==> entry.kind == EntryKind::Chunked
            &&& exists|steps: nat| #[trigger]
                read_bytes(seq![entry], blob, parse, steps) == Some(Ok::<Seq<u8>, ErrorV>(bytes))
        }),
{
    let chunks = chunks_of(bytes);
    let parts = parts_of(bytes);
    let fetch = fetched(blob, parse);
    let entry = content_entry(bytes, executable);
    lemma_split(bytes.len() as u64, bytes);
    assert forall|k: int| 0 <= k < parts.len() implies readable(#[trigger] parts[k], blob, parse, 0)
        && !parts[k].kind.symlink() && !parts[k].executable && (parts.len() > 1 ==> parts[k].size > 0) && parts[k].kind
        == EntryKind::Regular by {
        assert(parts[k] == chunk_value(chunks[k]));
    }
    trees_keep_the_size(parts);
    let height = lemma_root_readable(parts, blob, parse, 0);
    lemma_tree_is_stored(parts, blob, parse);
    trees_read_back(parts, fetch);
    let root = root_entry(parts);
    let steps = choose|steps: nat| #[trigger] read_order(seq![root], fetch, steps) == Some(parts);
    assert(seq![root][0] == root);
    lemma_read_bytes(seq![root], blob, parse, steps, height);
    assert(contents(parts, blob) =~= chunks) by {
        assert forall|k: int| 0 <= k < parts.len() implies #[trigger] contents(parts, blob)[k] == chunks[k] by {
            assert(parts[k] == chunk_value(chunks[k]));
        }
    }
    assert(seq![root].drop_first() =~= Seq::<FileEntryV>::empty());
    assert(seq![entry].drop_first() =~= Seq::<FileEntryV>::empty());
    assert(read_bytes(seq![entry], blob, parse, steps) == read_bytes(seq![root], blob, parse, steps));
}

} // verus!
