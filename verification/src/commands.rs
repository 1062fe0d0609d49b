//! What the command line makes of its arguments, and what it prints.
use vstd::prelude::*;
use vstd::string::*;

use crate::encoding::{decimal, decimal_text};
use crate::error::{outcome, plain, verdict, Error, ErrorV, Problem};
use crate::paths::{display, from_bytes, lists_of, read_path, rejoin, shown, split, split_bytes};
use crate::text::{
    chars_of, is_name_char, join, join_texts, name_char, same_text, text_of, texts, trim_end, without_tail,
};
use crate::workspace::{FileChange, FileDiff, Resolution, Status};

verus! {

// Arguments

/// A character that a project name may hold, or a hyphen in its place.
pub open spec fn name_character(c: char) -> char {
    if name_char(c) {
        c
    } else {
        '-'
    }
}

/// The name that a project gets from the directory that it is in.
pub fn default_name(directory: &str) -> (name: String)
    ensures
        name@ == directory@.map_values(|c: char| name_character(c)),
{
    let chars = chars_of(directory);
    let mut name = String::new();
    let mut i: usize = 0;
    assert(name@ =~= directory@.take(0).map_values(|c: char| name_character(c)));
    while i < chars.len()
        invariant
            i <= chars@.len(),
            chars@ == directory@,
            name@ == directory@.take(i as int).map_values(|c: char| name_character(c)),
        decreases chars@.len() - i,
    {
        let ghost before = name@;
        name.push(if is_name_char(chars[i]) { chars[i] } else { '-' });
        i += 1;
        assert(name@ =~= directory@.take(i as int).map_values(|c: char| name_character(c)));
    }
    assert(directory@.take(i as int) =~= directory@);
    name
}

/// A name without `.git` at its end.
pub open spec fn without_git(name: Seq<char>) -> Seq<char>
    decreases name.len(),
{
    if name.len() >= 4 && name.skip(name.len() - 4) == ".git"@ {
        without_git(name.take(name.len() - 4))
    } else {
        name
    }
}

/// The name that an imported project gets from the directory of its
/// repository.
pub fn imported_name(directory: &str) -> (name: String)
    ensures
        name@ == without_git(directory@),
{
    proof {
        reveal_strlit(".git");
    }
    let chars = chars_of(directory);
    let mut end: usize = chars.len();
    assert(directory@.take(end as int) =~= directory@);
    while end >= 4 && chars[end - 4] == '.' && chars[end - 3] == 'g' && chars[end - 2] == 'i' && chars[end - 1] == 't'
        invariant
            end <= chars@.len(),
            chars@ == directory@,
            ".git"@ == seq!['.', 'g', 'i', 't'],
            without_git(directory@.take(end as int)) == without_git(directory@),
        decreases end,
    {
        let ghost name = directory@.take(end as int);
        assert(name.skip(name.len() - 4) =~= ".git"@);
        assert(name.take(name.len() - 4) =~= directory@.take(end - 4));
        end -= 4;
    }
    let ghost kept = directory@.take(end as int);
    proof {
        if kept.len() >= 4 && kept.skip(kept.len() - 4) == ".git"@ {
            assert(kept.skip(kept.len() - 4)[0] == directory@[end - 4]);
            assert(kept.skip(kept.len() - 4)[1] == directory@[end - 3]);
            assert(kept.skip(kept.len() - 4)[2] == directory@[end - 2]);
            assert(kept.skip(kept.len() - 4)[3] == directory@[end - 1]);
        }
    }
    let name = text_of(vstd::slice::slice_subrange(chars.as_slice(), 0, end));
    assert(name@ =~= kept);
    name
}

/// A project that is named beside its address has to be the one of the address.
pub fn check_project(named: Option<&str>, located: &str) -> (result: Result<(), Error>)
    ensures
        verdict(result) == (if named.deep_view() is None || named.deep_view() == Some(located@) {
            Ok::<(), ErrorV>(())
        } else {
            Err(plain(Problem::ProjectMismatch))
        }),
{
    match named {
        None => Ok(()),
        Some(name) => {
            if same_text(name, located) {
                Ok(())
            } else {
                Err(Error::plain(Problem::ProjectMismatch))
            }
        },
    }
}

/// What to do about conflicts, by the two options of a pull.
pub fn chosen_resolution(keep_local: bool, keep_remote: bool) -> (resolution: Resolution)
    ensures
        resolution == (if keep_local {
            Resolution::Local
        } else if keep_remote {
            Resolution::Remote
        } else {
            Resolution::Stop
        }),
{
    if keep_local {
        Resolution::Local
    } else if keep_remote {
        Resolution::Remote
    } else {
        Resolution::Stop
    }
}

/// A part of a path that leads somewhere.
pub open spec fn leading(part: Seq<u8>) -> bool {
    part.len() > 0 && part != seq![46u8]
}

/// The project path that a path on the command line means.
pub open spec fn argument_path(path: Seq<u8>) -> Result<Seq<char>, ErrorV> {
    let parts = split(path, 47u8);
    if (path.len() > 0 && path[0] == 47) || parts.contains(seq![46u8, 46u8]) {
        Err(plain(Problem::OutsidePath))
    } else {
        let kept = parts.filter(|part: Seq<u8>| leading(part));
        if kept.len() == 0 && path.len() > 0 {
            Ok("."@)
        } else {
            read_path(rejoin(kept, 47u8))
        }
    }
}

/// The project path that a path on the command line means. A dot is the whole
/// project.
pub fn path_argument(path: &[u8]) -> (result: Result<String, Error>)
    ensures
        outcome(result) == argument_path(path@),
{
    assert(path@.len() == path.len());
    if path.len() > 0 && path[0] == 47 {
        return Err(Error::plain(Problem::OutsidePath));
    }
    let list = split_bytes(path, 47);
    let ghost parts = split(path@, 47u8);
    let ghost keep = |part: Seq<u8>| leading(part);
    let mut kept: Vec<u8> = Vec::new();
    let mut count: usize = 0;
    let mut i: usize = 0;
    proof {
        reveal(Seq::filter);
        assert(parts.take(0).len() == 0);
        assert(kept@ =~= rejoin(parts.take(0).filter(keep), 47u8));
    }
    while i < list.len()
        invariant
            i <= list@.len(),
            lists_of(list@) == parts,
            parts == split(path@, 47u8),
            path@.len() > 0 ==> path@[0] != 47,
            keep == (|part: Seq<u8>| leading(part)),
            count == parts.take(i as int).filter(keep).len(),
            count <= i,
            kept@ == rejoin(parts.take(i as int).filter(keep), 47u8),
            forall|j: int| 0 <= j < i ==> #[trigger] parts[j] != seq![46u8, 46u8],
        decreases list@.len() - i,
    {
        let part = &list[i];
        let ghost chosen = parts.take(i as int).filter(keep);
        proof {
            assert(part@ == parts[i as int]);
            assert(parts.take(i + 1) =~= parts.take(i as int).push(part@));
            parts.take(i as int).lemma_filter_push(part@, keep);
        }
        if part.len() == 2 && part[0] == 46 && part[1] == 46 {
            assert(part@ =~= seq![46u8, 46u8]);
            assert(parts[i as int] == seq![46u8, 46u8]);
            return Err(Error::plain(Problem::OutsidePath));
        }
        proof {
            if part@ == seq![46u8, 46u8] {
                assert(part@[0] == 46 && part@[1] == 46 && part@.len() == 2);
            }
        }
        let here = part.len() == 1 && part[0] == 46;
        proof {
            if here {
                assert(part@ =~= seq![46u8]);
            }
        }
        if part.len() > 0 && !here {
            let ghost before = kept@;
            assert(leading(part@)) by {
                if part@ == seq![46u8] {
                    assert(part@[0] == 46);
                }
            }
            if count > 0 {
                kept.push(47);
            }
            crate::text::push_bytes(&mut kept, part.as_slice());
            count += 1;
            proof {
                let longer = chosen.push(part@);
                assert(longer.drop_last() =~= chosen);
                assert(kept@ =~= rejoin(longer, 47u8));
            }
        }
        i += 1;
    }
    proof {
        assert(parts.take(list@.len() as int) =~= parts);
        if parts.contains(seq![46u8, 46u8]) {
            let j = choose|j: int| 0 <= j < parts.len() && parts[j] == seq![46u8, 46u8];
            assert(parts[j] != seq![46u8, 46u8]);
        }
    }
    if count == 0 && path.len() > 0 {
        return Ok(".".to_owned());
    }
    from_bytes(kept.as_slice())
}

/// How many entries of a log are shown.
pub fn shown_entries(limit: usize, total: usize) -> (count: usize)
    ensures
        count == vstd::math::min(vstd::math::min(limit as int, 1000), total as int),
{
    let most: usize = if limit < 1000 {
        limit
    } else {
        1000
    };
    if most < total {
        most
    } else {
        total
    }
}

// Texts

/// A line for each file that is not committed.
pub open spec fn uncommitted_lines(paths: Seq<Seq<char>>) -> Seq<char>
    decreases paths.len(),
{
    if paths.len() == 0 {
        Seq::empty()
    } else {
        uncommitted_lines(paths.drop_last()) + "  uncommitted  "@ + shown(paths.last()) + "\n"@
    }
}

/// How a working copy stands, in words.
pub open spec fn status_words(
    project: Seq<char>,
    remote: Option<Seq<char>>,
    paths: Seq<Seq<char>>,
    version: Option<Seq<char>>,
    pending: nat,
    changed: Seq<Seq<char>>,
    conflicts: Seq<Seq<char>>,
) -> Seq<char> {
    "Project: "@ + project + "\nRemote: "@ + (match remote {
        Some(remote) => remote,
        None => "local only"@,
    }) + "\n"@ + (if paths.len() > 0 {
        "Selected paths: "@ + join(paths, ", "@) + "\n"@
    } else {
        Seq::empty()
    }) + (match version {
        Some(version) => "Last saved view: "@ + version + "\n"@,
        None => "No saved versions yet.\n"@,
    }) + (if pending != 0 {
        decimal(pending) + " committed version(s) ready to push.\n"@
    } else {
        Seq::empty()
    }) + uncommitted_lines(changed) + (if changed.len() == 0 {
        "No uncommitted edits.\n"@
    } else {
        Seq::empty()
    }) + (if conflicts.len() > 0 {
        "Commit a resolution for: "@ + join(conflicts, ", "@) + "\n"@
    } else {
        Seq::empty()
    })
}

/// How a working copy stands, in words. The version is given by the part of
/// its hash that tells it from others.
pub fn status_text(status: &Status, version: Option<&str>) -> (text: String)
    ensures
        text@ == without_tail(
            status_words(
                status.project@,
                status.remote.deep_view(),
                texts(status.paths@),
                version.deep_view(),
                status.pending_commits as nat,
                texts(status.changed@),
                crate::collections::ordered(status.conflicts@),
            ),
        ),
{
    let ghost changed = texts(status.changed@);
    let mut text = "Project: ".to_owned();
    text.append(status.project.as_str());
    text.append("\nRemote: ");
    match &status.remote {
        Some(remote) => text.append(remote.as_str()),
        None => text.append("local only"),
    }
    text.append("\n");
    let ghost head = text@;
    if status.paths.len() > 0 {
        text.append("Selected paths: ");
        text.append(join_texts(status.paths.as_slice(), ", ").as_str());
        text.append("\n");
        assert(text@ =~= head + ("Selected paths: "@ + join(texts(status.paths@), ", "@) + "\n"@));
    } else {
        assert(text@ =~= head + Seq::<char>::empty());
    }
    let ghost selected = text@;
    match version {
        Some(version) => {
            text.append("Last saved view: ");
            text.append(version);
            text.append("\n");
            assert(text@ =~= selected + ("Last saved view: "@ + version@ + "\n"@));
        },
        None => text.append("No saved versions yet.\n"),
    }
    let ghost saved = text@;
    if status.pending_commits != 0 {
        text.append(decimal_text(status.pending_commits as u64).as_str());
        text.append(" committed version(s) ready to push.\n");
        assert(text@ =~= saved + (decimal(status.pending_commits as nat)
            + " committed version(s) ready to push.\n"@));
    } else {
        assert(text@ =~= saved + Seq::<char>::empty());
    }
    let ghost pending = text@;
    let mut i: usize = 0;
    assert(changed.take(0).len() == 0);
    assert(text@ =~= pending + uncommitted_lines(changed.take(0)));
    while i < status.changed.len()
        invariant
            i <= status.changed@.len(),
            changed == texts(status.changed@),
            text@ == pending + uncommitted_lines(changed.take(i as int)),
        decreases status.changed@.len() - i,
    {
        let ghost before = uncommitted_lines(changed.take(i as int));
        assert(changed.take(i + 1).drop_last() =~= changed.take(i as int));
        assert(changed.take(i + 1).last() == status.changed@[i as int]@);
        text.append("  uncommitted  ");
        text.append(display(status.changed[i].as_str()).as_str());
        text.append("\n");
        assert(text@ =~= pending + (before + "  uncommitted  "@ + shown(status.changed@[i as int]@) + "\n"@));
        i += 1;
    }
    assert(changed.take(status.changed@.len() as int) =~= changed);
    let ghost listed = text@;
    if status.changed.len() == 0 {
        text.append("No uncommitted edits.\n");
    } else {
        assert(text@ =~= listed + Seq::<char>::empty());
    }
    let ghost edits = text@;
    let conflicts = status.conflicts.to_vec();
    if conflicts.len() > 0 {
        text.append("Commit a resolution for: ");
        text.append(join_texts(conflicts.as_slice(), ", ").as_str());
        text.append("\n");
        assert(text@ =~= edits + ("Commit a resolution for: "@ + join(texts(conflicts@), ", "@) + "\n"@));
    } else {
        assert(text@ =~= edits + Seq::<char>::empty());
    }
    trim_end(text.as_str())
}

/// How a file changed, in words.
pub open spec fn diff_words(file: FileDiff) -> Seq<char> {
    file.file.kind@ + " "@ + shown(file.file.path@) + "\n"@ + file.diff@
}

/// How some files changed, in words.
pub fn diff_text(files: &[FileDiff]) -> (text: String)
    ensures
        ({
            let all = join(files@.map_values(|file: FileDiff| diff_words(file)), "\n"@);
            text@ == (if all.len() == 0 {
                "No file changes."@
            } else {
                without_tail(all)
            })
        }),
{
    let ghost goal = files@.map_values(|file: FileDiff| diff_words(file));
    let mut parts: Vec<String> = Vec::new();
    let mut i: usize = 0;
    while i < files.len()
        invariant
            i <= files@.len(),
            goal == files@.map_values(|file: FileDiff| diff_words(file)),
            parts@.len() == i,
            forall|j: int| 0 <= j < i ==> (#[trigger] parts@[j])@ == goal[j],
        decreases files@.len() - i,
    {
        let mut part = files[i].file.kind.to_owned();
        part.append(" ");
        part.append(display(files[i].file.path.as_str()).as_str());
        part.append("\n");
        part.append(files[i].diff.as_str());
        parts.push(part);
        i += 1;
    }
    assert(texts(parts@) =~= goal);
    let all = join_texts(parts.as_slice(), "\n");
    if all.as_str().is_empty() {
        "No file changes.".to_owned()
    } else {
        trim_end(all.as_str())
    }
}

/// A line for each file of a version.
pub open spec fn change_lines(files: Seq<FileChange>) -> Seq<char>
    decreases files.len(),
{
    if files.len() == 0 {
        Seq::empty()
    } else {
        change_lines(files.drop_last()) + "   "@ + files.last().kind@ + " "@ + shown(files.last().path@) + "\n"@
    }
}

/// The most files of a version that a log lists.
pub const LISTED_FILES: usize = 5;

/// A saved version, in words.
pub open spec fn version_words(hash: Seq<char>, message: Option<Seq<char>>, files: Seq<FileChange>) -> Seq<char> {
    hash + "  "@ + (match message {
        Some(message) => message,
        None => "Saved version"@,
    }) + "\n"@ + (if files.len() > LISTED_FILES {
        change_lines(files.take(LISTED_FILES as int)) + ("   + "@ + decimal((files.len() - LISTED_FILES) as nat)
            + " more; kelp show "@ + hash + "\n"@)
    } else {
        change_lines(files)
    })
}

/// A saved version, in words: its message and the first files that changed.
pub fn version_text(hash: &str, message: Option<&str>, files: &[FileChange]) -> (text: String)
    ensures
        text@ == version_words(hash@, message.deep_view(), files@),
{
    assert(files@.len() == files.len());
    let mut text = hash.to_owned();
    text.append("  ");
    match message {
        Some(message) => text.append(message),
        None => text.append("Saved version"),
    }
    text.append("\n");
    let ghost head = text@;
    let n: usize = if files.len() > LISTED_FILES {
        LISTED_FILES
    } else {
        files.len()
    };
    let mut i: usize = 0;
    assert(files@.take(0).len() == 0);
    assert(text@ =~= head + change_lines(files@.take(0)));
    while i < n
        invariant
            i <= n <= files@.len(),
            text@ == head + change_lines(files@.take(i as int)),
        decreases n - i,
    {
        let ghost before = change_lines(files@.take(i as int));
        let ghost file = files@[i as int];
        assert(files@.take(i + 1).drop_last() =~= files@.take(i as int));
        assert(files@.take(i + 1).last() == file);
        text.append("   ");
        text.append(files[i].kind);
        text.append(" ");
        text.append(display(files[i].path.as_str()).as_str());
        text.append("\n");
        assert(text@ =~= head + (before + "   "@ + file.kind@ + " "@ + shown(file.path@) + "\n"@));
        i += 1;
    }
    if files.len() > LISTED_FILES {
        let ghost listed = change_lines(files@.take(LISTED_FILES as int));
        text.append("   + ");
        text.append(decimal_text((files.len() - LISTED_FILES) as u64).as_str());
        text.append(" more; kelp show ");
        text.append(hash);
        text.append("\n");
        assert(text@ =~= head + (listed + ("   + "@ + decimal((files@.len() - LISTED_FILES) as nat)
            + " more; kelp show "@ + hash@ + "\n"@)));
    } else {
        assert(files@.take(n as int) =~= files@);
    }
    text
}

/// A commit, in words.
pub fn commit_text(hash: &str, message: &str, files: &[String]) -> (text: String)
    ensures
        text@ == hash@ + "  "@ + message@ + "\n   "@ + join(texts(files@), ", "@),
{
    let mut text = hash.to_owned();
    text.append("  ");
    text.append(message);
    text.append("\n   ");
    text.append(join_texts(files, ", ").as_str());
    text
}

/// The entries of a log one below the other, or what to say without any.
pub fn log_text(entries: &[String], nothing: &str) -> (text: String)
    ensures
        ({
            let all = join(texts(entries@), "\n"@);
            text@ == (if all.len() == 0 {
                nothing@
            } else {
                all
            })
        }),
{
    let all = join_texts(entries, "\n");
    if all.as_str().is_empty() {
        nothing.to_owned()
    } else {
        all
    }
}

} // verus!
