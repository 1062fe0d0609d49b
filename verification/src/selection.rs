//! Parts of a project: files or directory prefixes, never patterns. An empty
//! selection means the whole project.
use vstd::prelude::*;
use vstd::string::*;

use crate::collections::{lemma_ordered, lemma_ordered_is, lists, ordered, TextSet};
use crate::error::{outcome, plain, Error, ErrorV, Problem};
use crate::objects::validate_path;
use crate::paths::{below, path_check, valid_path};
use crate::text::{before, chars_of, same_text, text_of, texts};

verus! {

/// `path` is `parent` or lies below it.
pub open spec fn covers(parent: Seq<char>, path: Seq<char>) -> bool {
    path == parent || below(path, parent)
}

/// A selection holds a path.
pub open spec fn selects(selection: Seq<Seq<char>>, path: Seq<char>) -> bool {
    selection.len() == 0 || exists|i: int| 0 <= i < selection.len() && covers(#[trigger] selection[i], path)
}

/// A selection holds a path or something below it.
pub open spec fn touches(selection: Seq<Seq<char>>, path: Seq<char>) -> bool {
    selects(selection, path) || exists|i: int|
        0 <= i < selection.len() && covers(path, #[trigger] selection[i])
}

/// Whether `path` is `parent` or lies below it.
pub fn within(parent: &str, path: &str) -> (result: bool)
    ensures
        result == covers(parent@, path@),
{
    let a = chars_of(parent);
    let b = chars_of(path);
    if a.len() > b.len() {
        return false;
    }
    let mut i: usize = 0;
    while i < a.len()
        invariant
            i <= a@.len() <= b@.len(),
            a@ == parent@,
            b@ == path@,
            forall|j: int| 0 <= j < i ==> a@[j] == b@[j],
        decreases a@.len() - i,
    {
        if a[i] != b[i] {
            proof {
                if below(path@, parent@) {
                    assert(path@.take(parent@.len() as int)[i as int] == path@[i as int]);
                }
            }
            return false;
        }
        i += 1;
    }
    assert(path@.take(parent@.len() as int) =~= parent@);
    if a.len() == b.len() {
        assert(path@ =~= parent@);
        return true;
    }
    b[a.len()] == '/'
}

/// Whether a selection holds a path.
pub fn includes(selection: &[String], path: &str) -> (result: bool)
    ensures
        result == selects(texts(selection@), path@),
{
    let ghost all = texts(selection@);
    if selection.len() == 0 {
        return true;
    }
    let mut i: usize = 0;
    while i < selection.len()
        invariant
            i <= selection@.len(),
            all == texts(selection@),
            forall|j: int| 0 <= j < i ==> !covers(#[trigger] all[j], path@),
        decreases selection@.len() - i,
    {
        if within(selection[i].as_str(), path) {
            assert(covers(all[i as int], path@));
            return true;
        }
        i += 1;
    }
    false
}

/// Whether a selection holds a path or something below it.
pub fn intersects(selection: &[String], path: &str) -> (result: bool)
    ensures
        result == touches(texts(selection@), path@),
{
    let ghost all = texts(selection@);
    if includes(selection, path) {
        return true;
    }
    let mut i: usize = 0;
    while i < selection.len()
        invariant
            i <= selection@.len(),
            all == texts(selection@),
            forall|j: int| 0 <= j < i ==> !covers(path@, #[trigger] all[j]),
        decreases selection@.len() - i,
    {
        if within(path, selection[i].as_str()) {
            assert(covers(path@, all[i as int]));
            return true;
        }
        i += 1;
    }
    false
}

// Normal form

/// A path without a leading `./`.
pub open spec fn without_dot(path: Seq<char>) -> Seq<char> {
    if path.len() >= 2 && path[0] == '.' && path[1] == '/' {
        path.skip(2)
    } else {
        path
    }
}

/// A path without trailing separators.
pub open spec fn trimmed(path: Seq<char>) -> Seq<char>
    decreases path.len(),
{
    if path.len() > 0 && path.last() == '/' {
        trimmed(path.drop_last())
    } else {
        path
    }
}

/// What one path of a request selects: `None` is the whole project.
pub open spec fn selected(path: Seq<char>) -> Result<Option<Seq<char>>, ErrorV> {
    let name = trimmed(without_dot(path));
    if path == seq!['.'] || path == seq!['.', '/'] || name == seq!['.'] {
        Ok(None)
    } else if name.len() == 0 {
        Err(plain(Problem::EmptySelection))
    } else {
        match path_check(name) {
            Err(error) => Err(error),
            Ok(()) => Ok(Some(name)),
        }
    }
}

/// The first problem among the paths of a request.
pub open spec fn selection_check(paths: Seq<Seq<char>>) -> Result<(), ErrorV>
    decreases paths.len(),
{
    if paths.len() == 0 {
        Ok(())
    } else {
        match selected(paths[0]) {
            Err(error) => Err(error),
            Ok(_) => selection_check(paths.drop_first()),
        }
    }
}

/// Some path of the request selects the whole project.
pub open spec fn whole(paths: Seq<Seq<char>>) -> bool {
    exists|i: int| 0 <= i < paths.len() && selected(#[trigger] paths[i]) == Ok::<Option<Seq<char>>, ErrorV>(None)
}

/// The paths that a request names.
pub open spec fn named(paths: Seq<Seq<char>>) -> Set<Seq<char>> {
    Set::new(
        |name: Seq<char>|
            exists|i: int|
                0 <= i < paths.len() && selected(#[trigger] paths[i]) == Ok::<Option<Seq<char>>, ErrorV>(Some(name)),
    )
}

/// The members that no other member covers.
pub open spec fn topmost(names: Set<Seq<char>>) -> Set<Seq<char>> {
    Set::new(
        |name: Seq<char>|
            names.contains(name) && forall|other: Seq<char>| #[trigger]
                names.contains(other) && other != name ==> !covers(other, name),
    )
}

/// The normal form of a selection: without what another path covers, in order.
pub open spec fn normal(paths: Seq<Seq<char>>) -> Result<Seq<Seq<char>>, ErrorV> {
    match selection_check(paths) {
        Err(error) => Err(error),
        Ok(()) => if whole(paths) {
            Ok(Seq::empty())
        } else {
            Ok(ordered(topmost(named(paths))))
        },
    }
}

fn select(path: &str) -> (result: Result<Option<String>, Error>)
    ensures
        match result {
            Ok(Some(name)) => selected(path@) == Ok::<Option<Seq<char>>, ErrorV>(Some(name@)),
            Ok(None) => selected(path@) == Ok::<Option<Seq<char>>, ErrorV>(None),
            Err(error) => selected(path@) == Err::<Option<Seq<char>>, ErrorV>(error@),
        },
{
    let chars = chars_of(path);
    let start: usize = if chars.len() >= 2 && chars[0] == '.' && chars[1] == '/' {
        2
    } else {
        0
    };
    let mut end: usize = chars.len();
    assert(path@.subrange(start as int, end as int) =~= without_dot(path@));
    while end > start && chars[end - 1] == '/'
        invariant
            start <= end <= chars@.len(),
            chars@ == path@,
            trimmed(path@.subrange(start as int, end as int)) == trimmed(without_dot(path@)),
        decreases end,
    {
        let ghost longer = path@.subrange(start as int, end as int);
        assert(longer.last() == '/');
        assert(longer.drop_last() =~= path@.subrange(start as int, end - 1));
        end -= 1;
    }
    let ghost kept = path@.subrange(start as int, end as int);
    proof {
        if kept.len() > 0 {
            assert(kept.last() == path@[end - 1]);
        }
        assert(trimmed(kept) == kept);
    }
    let name = text_of(vstd::slice::slice_subrange(chars.as_slice(), start, end));
    assert(name@ == kept);
    proof {
        reveal_strlit(".");
        reveal_strlit("./");
        assert("."@ =~= seq!['.']);
        assert("./"@ =~= seq!['.', '/']);
    }
    if same_text(path, ".") || same_text(path, "./") || same_text(name.as_str(), ".") {
        return Ok(None);
    }
    if start == end {
        return Err(Error::plain(Problem::EmptySelection));
    }
    validate_path(name.as_str())?;
    Ok(Some(name))
}

proof fn lemma_check_skip(paths: Seq<Seq<char>>, i: int)
    requires
        0 <= i < paths.len(),
    ensures
        selection_check(paths.skip(i)) == (match selected(paths[i]) {
            Err(error) => Err(error),
            Ok(_) => selection_check(paths.skip(i + 1)),
        }),
{
    assert(paths.skip(i)[0] == paths[i]);
    assert(paths.skip(i).drop_first() =~= paths.skip(i + 1));
}

fn gather(paths: &[String]) -> (result: Result<(bool, TextSet), Error>)
    ensures
        match result {
            Ok(found) => {
                &&& selection_check(texts(paths@)) is Ok
                &&& found.0 == whole(texts(paths@))
                &&& found.1@ == named(texts(paths@))
            },
            Err(error) => selection_check(texts(paths@)) == Err::<(), ErrorV>(error@),
        },
{
    let ghost list = texts(paths@);
    let mut all = false;
    let mut names = TextSet::new();
    let mut i: usize = 0;
    assert(list.skip(0) =~= list);
    while i < paths.len()
        invariant
            i <= paths@.len(),
            list == texts(paths@),
            selection_check(list) == selection_check(list.skip(i as int)),
            all <==> exists|j: int|
                0 <= j < i && selected(#[trigger] list[j]) == Ok::<Option<Seq<char>>, ErrorV>(None),
            forall|name: Seq<char>| #[trigger]
                names@.contains(name) <==> exists|j: int|
                    0 <= j < i && selected(#[trigger] list[j]) == Ok::<Option<Seq<char>>, ErrorV>(Some(name)),
        decreases paths@.len() - i,
    {
        let ghost so_far = names@;
        let ghost all_before = all;
        proof {
            lemma_check_skip(list, i as int);
            assert(list[i as int] == paths@[i as int]@);
        }
        let choice = select(paths[i].as_str())?;
        let ghost chosen = selected(list[i as int]);
        match choice {
            None => {
                all = true;
            },
            Some(name) => {
                names.insert(name);
            },
        }
        proof {
            assert(all <==> exists|j: int|
                0 <= j < i + 1 && selected(#[trigger] list[j]) == Ok::<Option<Seq<char>>, ErrorV>(None)) by {
                if all_before {
                    let j = choose|j: int|
                        0 <= j < i && selected(#[trigger] list[j]) == Ok::<Option<Seq<char>>, ErrorV>(None);
                    assert(0 <= j < i + 1);
                }
                if exists|j: int|
                    0 <= j < i + 1 && selected(#[trigger] list[j]) == Ok::<Option<Seq<char>>, ErrorV>(None) {
                    let j = choose|j: int|
                        0 <= j < i + 1 && selected(#[trigger] list[j]) == Ok::<Option<Seq<char>>, ErrorV>(None);
                    if j < i {
                        assert(all_before);
                    }
                }
            }
            assert forall|name: Seq<char>| #[trigger]
                names@.contains(name) <==> exists|j: int|
                    0 <= j < i + 1 && selected(#[trigger] list[j]) == Ok::<Option<Seq<char>>, ErrorV>(Some(name)) by {
                if so_far.contains(name) {
                    let j = choose|j: int|
                        0 <= j < i && selected(#[trigger] list[j]) == Ok::<Option<Seq<char>>, ErrorV>(Some(name));
                    assert(0 <= j < i + 1);
                }
                if names@.contains(name) && !so_far.contains(name) {
                    assert(selected(list[i as int]) == Ok::<Option<Seq<char>>, ErrorV>(Some(name)));
                }
                if exists|j: int|
                    0 <= j < i + 1 && selected(#[trigger] list[j]) == Ok::<Option<Seq<char>>, ErrorV>(Some(name)) {
                    let j = choose|j: int|
                        0 <= j < i + 1 && selected(#[trigger] list[j]) == Ok::<Option<Seq<char>>, ErrorV>(Some(name));
                    if j < i {
                        assert(so_far.contains(name));
                    }
                }
            }
        }
        i += 1;
    }
    assert(list.skip(i as int).len() == 0);
    assert(names@ =~= named(list));
    Ok((all, names))
}

proof fn lemma_covers_transitive(a: Seq<char>, b: Seq<char>, c: Seq<char>)
    requires
        covers(a, b),
        covers(b, c),
    ensures
        covers(a, c),
{
    if a != b && b != c {
        assert(c.take(a.len() as int) =~= b.take(a.len() as int)) by {
            assert(c.take(b.len() as int) == b);
            assert(c.take(a.len() as int) =~= c.take(b.len() as int).take(a.len() as int));
        }
        assert(c[a.len() as int] == c.take(b.len() as int)[a.len() as int]);
    }
}

proof fn lemma_prefix_before(a: Seq<char>, b: Seq<char>)
    requires
        a.len() < b.len(),
        b.take(a.len() as int) == a,
    ensures
        before(a, b),
    decreases a.len(),
{
    if a.len() > 0 {
        assert(a[0] == b.take(a.len() as int)[0]);
        assert(b.drop_first().take(a.drop_first().len() as int) =~= b.take(a.len() as int).drop_first());
        lemma_prefix_before(a.drop_first(), b.drop_first());
    }
}

/// Every member is covered by a topmost one.
proof fn lemma_topmost_cover(names: Set<Seq<char>>, name: Seq<char>) -> (top: Seq<char>)
    requires
        names.contains(name),
    ensures
        topmost(names).contains(top),
        covers(top, name),
    decreases name.len(),
{
    if topmost(names).contains(name) {
        name
    } else {
        let other = choose|other: Seq<char>| #[trigger] names.contains(other) && other != name && covers(other, name);
        let top = lemma_topmost_cover(names, other);
        lemma_covers_transitive(top, other, name);
        top
    }
}

/// Bring a selection into its normal form.
pub fn normalize(paths: Vec<String>) -> (result: Result<Vec<String>, Error>)
    ensures
        outcome(result) == normal(texts(paths@)),
        result matches Ok(list) ==> normal(texts(paths@)) == Ok::<Seq<Seq<char>>, ErrorV>(texts(list@)),
{
    let (all, names) = gather(paths.as_slice())?;
    let mut result: Vec<String> = Vec::new();
    if all {
        assert(result.deep_view() =~= Seq::<Seq<char>>::empty());
        assert(texts(result@) =~= Seq::<Seq<char>>::empty());
        return Ok(result);
    }
    let n = names.len();
    let ghost list = ordered(names@);
    let mut i: usize = 0;
    assert(lists(texts(result@), topmost(names@).intersect(list.take(0).to_set())));
    while i < n
        invariant
            i <= n,
            n == names@.len(),
            n == list.len(),
            list == ordered(names@),
            lists(list, names@),
            lists(texts(result@), topmost(names@).intersect(list.take(i as int).to_set())),
        decreases n - i,
    {
        let ghost so_far = texts(result@);
        let ghost kept = topmost(names@).intersect(list.take(i as int).to_set());
        let name = names.at(i);
        let mut covered = false;
        let mut j: usize = 0;
        while j < result.len()
            invariant
                j <= result@.len(),
                so_far == texts(result@),
                covered <==> exists|k: int| 0 <= k < j && covers(#[trigger] so_far[k], name@),
            decreases result@.len() - j,
        {
            let ghost covered_before = covered;
            if within(result[j].as_str(), name.as_str()) {
                covered = true;
                assert(covers(so_far[j as int], name@));
            }
            proof {
                assert(covered <==> exists|k: int| 0 <= k < j + 1 && covers(#[trigger] so_far[k], name@)) by {
                    if covered_before {
                        let k = choose|k: int| 0 <= k < j && covers(#[trigger] so_far[k], name@);
                        assert(0 <= k < j + 1);
                    }
                    if exists|k: int| 0 <= k < j + 1 && covers(#[trigger] so_far[k], name@) {
                        let k = choose|k: int| 0 <= k < j + 1 && covers(#[trigger] so_far[k], name@);
                        if k < j {
                            assert(covered_before);
                        }
                    }
                }
            }
            j += 1;
        }
        proof {
            assert(list.take(i + 1) =~= list.take(i as int).push(name@));
            lemma_greedy(names@, list, i as int, so_far, covered);
        }
        if !covered {
            result.push(name.clone());
            assert(texts(result@) =~= so_far.push(name@));
        }
        i += 1;
    }
    proof {
        assert(list.take(n as int) =~= list);
        assert(topmost(names@).intersect(list.to_set()) =~= topmost(names@)) by {
            assert forall|k: Seq<char>| topmost(names@).contains(k) implies list.to_set().contains(k) by {
                assert(names@.contains(k));
            }
        }
        lemma_ordered_is(texts(result@), topmost(names@));
        assert(result.deep_view() =~= texts(result@));
    }
    Ok(result)
}

proof fn lemma_greedy(names: Set<Seq<char>>, list: Seq<Seq<char>>, i: int, so_far: Seq<Seq<char>>, covered: bool)
    requires
        0 <= i < list.len(),
        lists(list, names),
        lists(so_far, topmost(names).intersect(list.take(i).to_set())),
        covered <==> exists|k: int| 0 <= k < so_far.len() && covers(#[trigger] so_far[k], list[i]),
    ensures
        ({
            let more = topmost(names).intersect(list.take(i).push(list[i]).to_set());
            lists(
                if covered {
                    so_far
                } else {
                    so_far.push(list[i])
                },
                more,
            )
        }),
{
    let name = list[i];
    let kept = topmost(names).intersect(list.take(i).to_set());
    let more = topmost(names).intersect(list.take(i).push(name).to_set());
    assert(list.contains(name));
    assert(names.contains(name));
    assert(!list.take(i).contains(name)) by {
        if list.take(i).contains(name) {
            let j = choose|j: int| 0 <= j < i && list.take(i)[j] == name;
            assert(list[j] == name);
            crate::text::lemma_before_irreflexive(name);
            assert(before(list[j], list[i]));
        }
    }
    assert forall|k: Seq<char>| #[trigger] more.contains(k) <==> kept.contains(k) || (k == name && topmost(
        names,
    ).contains(name)) by {
        crate::collections::lemma_push_contains(list.take(i), name, k);
    }
    if covered {
        let k = choose|k: int| 0 <= k < so_far.len() && covers(#[trigger] so_far[k], name);
        assert(so_far.contains(so_far[k]));
        assert(kept.contains(so_far[k]));
        assert(!topmost(names).contains(name)) by {
            assert(names.contains(so_far[k]));
            assert(so_far[k] != name) by {
                if so_far[k] == name {
                    assert(list.take(i).contains(name));
                }
            }
        }
        assert(more =~= kept);
    } else {
        assert(topmost(names).contains(name)) by {
            if !topmost(names).contains(name) {
                let top = lemma_topmost_cover(names, name);
                assert(top != name);
                assert(names.contains(top));
                let j = choose|j: int| 0 <= j < list.len() && list[j] == top;
                lemma_prefix_before(top, name);
                if j >= i {
                    crate::text::lemma_before_asymmetric(top, name);
                    if j > i {
                        assert(before(list[i], list[j]));
                    }
                }
                assert(list.take(i)[j] == top);
                assert(list.take(i).contains(top));
                assert(kept.contains(top));
                assert(so_far.contains(top));
                let k = choose|k: int| 0 <= k < so_far.len() && so_far[k] == top;
                assert(covers(so_far[k], name));
            }
        }
        let longer = so_far.push(name);
        assert forall|a: int, b: int| 0 <= a < b < longer.len() implies before(#[trigger] longer[a], #[trigger] longer[b]) by {
            if b == so_far.len() {
                assert(so_far.contains(so_far[a]));
                assert(kept.contains(so_far[a]));
                assert(list.take(i).contains(so_far[a]));
                let j = choose|j: int| 0 <= j < i && list.take(i)[j] == so_far[a];
                assert(before(list[j], list[i]));
            }
        }
        assert forall|k: Seq<char>| #[trigger] more.contains(k) <==> longer.contains(k) by {
            crate::collections::lemma_push_contains(so_far, name, k);
            assert(kept.contains(k) <==> so_far.contains(k));
        }
    }
}

// Laws

proof fn lemma_named_finite(paths: Seq<Seq<char>>)
    ensures
        named(paths).finite(),
{
    let images = paths.map_values(|path: Seq<char>| selected(path)->Ok_0->0);
    assert(named(paths).subset_of(images.to_set())) by {
        assert forall|name: Seq<char>| named(paths).contains(name) implies images.to_set().contains(name) by {
            let i = choose|i: int|
                0 <= i < paths.len() && selected(#[trigger] paths[i]) == Ok::<Option<Seq<char>>, ErrorV>(Some(name));
            assert(images[i] == name);
        }
    }
    vstd::seq_lib::seq_to_set_is_finite(images);
    vstd::set_lib::lemma_len_subset(named(paths), images.to_set());
}

/// A normal form selects what the request named, no more and no less.
pub proof fn normal_forms_keep_the_selection(paths: Seq<Seq<char>>, path: Seq<char>)
    requires
        normal(paths) is Ok,
        paths.len() > 0,
    ensures
        selects(normal(paths)->Ok_0, path) <==> whole(paths) || exists|name: Seq<char>| #[trigger]
            named(paths).contains(name) && covers(name, path),
{
    lemma_named_finite(paths);
    if !whole(paths) {
        let names = named(paths);
        let tops = topmost(names);
        assert(tops.subset_of(names));
        vstd::set_lib::lemma_len_subset(tops, names);
        lemma_ordered(tops);
        let list = ordered(tops);
        assert(paths.skip(0) =~= paths);
        lemma_nothing_wrong(paths, 0);
        assert(selected(paths[0]) is Ok);
        assert(selected(paths[0])->Ok_0 is Some);
        let first = selected(paths[0])->Ok_0->0;
        assert(names.contains(first));
        let top = lemma_topmost_cover(names, first);
        assert(list.contains(top));
        if selects(list, path) {
            let i = choose|i: int| 0 <= i < list.len() && covers(#[trigger] list[i], path);
            assert(list.contains(list[i]));
            assert(tops.contains(list[i]));
            assert(names.contains(list[i]));
        }
        if exists|name: Seq<char>| #[trigger] names.contains(name) && covers(name, path) {
            let name = choose|name: Seq<char>| #[trigger] names.contains(name) && covers(name, path);
            let over = lemma_topmost_cover(names, name);
            lemma_covers_transitive(over, name, path);
            assert(list.contains(over));
            let i = choose|i: int| 0 <= i < list.len() && list[i] == over;
            assert(covers(list[i], path));
        }
    }
}

proof fn lemma_nothing_wrong(paths: Seq<Seq<char>>, i: int)
    requires
        0 <= i <= paths.len(),
        selection_check(paths.skip(i)) is Ok,
    ensures
        forall|j: int| i <= j < paths.len() ==> selected(#[trigger] paths[j]) is Ok,
    decreases paths.len() - i,
{
    if i < paths.len() {
        lemma_check_skip(paths, i);
        lemma_nothing_wrong(paths, i + 1);
    }
}

proof fn lemma_all_fine(paths: Seq<Seq<char>>, i: int)
    requires
        0 <= i <= paths.len(),
        forall|j: int| i <= j < paths.len() ==> selected(#[trigger] paths[j]) is Ok,
    ensures
        selection_check(paths.skip(i)) is Ok,
    decreases paths.len() - i,
{
    if i < paths.len() {
        lemma_check_skip(paths, i);
        lemma_all_fine(paths, i + 1);
    } else {
        assert(paths.skip(i).len() == 0);
    }
}

proof fn lemma_named_again(path: Seq<char>, name: Seq<char>)
    requires
        selected(path) == Ok::<Option<Seq<char>>, ErrorV>(Some(name)),
    ensures
        selected(name) == Ok::<Option<Seq<char>>, ErrorV>(Some(name)),
{
    crate::paths::accepted_paths_are_valid(name);
    assert(valid_path(name));
    let list = crate::paths::parts(name);
    crate::paths::lemma_split(name, '/');
    crate::paths::split_then_join(name, '/');
    if name.last() == '/' {
        assert(list.last() =~= Seq::<char>::empty());
        lemma_proper_part(name, list.len() - 1);
    }
    if name.len() >= 2 && name[0] == '.' && name[1] == '/' {
        lemma_first_part(name);
        lemma_proper_part(name, 0);
    }
    assert(without_dot(name) == name);
    assert(trimmed(name) == name);
    if name == seq!['.', '/'] {
        assert(name.last() == '/');
    }
}

/// The first part of a path that begins with `./` is `.`.
proof fn lemma_first_part(path: Seq<char>)
    requires
        path.len() >= 2,
        path[0] == '.',
        path[1] == '/',
    ensures
        crate::paths::split(path, '/')[0] == seq!['.'],
        crate::paths::split(path, '/').len() >= 2,
    decreases path.len(),
{
    let shorter = path.drop_last();
    crate::paths::lemma_split(shorter, '/');
    if path.len() == 2 {
        assert(path.last() == '/');
        assert(shorter.last() == '.');
        assert(shorter.drop_last() =~= Seq::<char>::empty());
        let none = crate::paths::split(shorter.drop_last(), '/');
        assert(none =~= seq![Seq::<char>::empty()]);
        let one = crate::paths::split(shorter, '/');
        assert(one =~= seq![seq!['.']]) by {
            assert(none.last().push('.') =~= seq!['.']);
        }
    } else {
        lemma_first_part(shorter);
    }
}

/// No part of a valid path is empty or `.`.
proof fn lemma_proper_part(path: Seq<char>, i: int)
    requires
        valid_path(path),
        0 <= i < crate::paths::parts(path).len(),
    ensures
        crate::paths::parts(path)[i] != Seq::<char>::empty(),
        crate::paths::parts(path)[i] != seq!['.'],
{
    let part = crate::paths::parts(path)[i];
    assert(crate::paths::component(part) is Ok);
    let bytes = crate::paths::component(part)->Ok_0;
    assert(crate::paths::allowed(bytes));
    if part == Seq::<char>::empty() {
        assert(vstd::utf8::encode_utf8(part) =~= Seq::<u8>::empty());
    }
    if part == seq!['.'] {
        assert(part.drop_first() =~= Seq::<char>::empty());
        assert(vstd::utf8::encode_utf8(part.drop_first()) =~= Seq::<u8>::empty());
        assert(vstd::utf8::encode_scalar('.' as u32) =~= seq![46u8]) by {
            assert('.' as u32 == 46u32);
            assert(vstd::utf8::leading_byte_width_1(46u32) == 46u8) by (bit_vector);
        }
        assert(bytes =~= seq![46u8]);
    }
}

/// A normal form is its own normal form.
pub proof fn normal_forms_are_normal(paths: Seq<Seq<char>>)
    requires
        normal(paths) is Ok,
    ensures
        normal(normal(paths)->Ok_0) == normal(paths),
{
    let result = normal(paths)->Ok_0;
    lemma_named_finite(paths);
    if whole(paths) {
        assert(named(result) =~= Set::<Seq<char>>::empty());
        assert(topmost(named(result)) =~= Set::<Seq<char>>::empty());
        lemma_ordered_is(Seq::empty(), Set::<Seq<char>>::empty());
        assert(result =~= Seq::<Seq<char>>::empty());
    } else {
        let names = named(paths);
        let tops = topmost(names);
        assert(tops.subset_of(names));
        vstd::set_lib::lemma_len_subset(tops, names);
        lemma_ordered(tops);
        assert forall|j: int| 0 <= j < result.len() implies selected(#[trigger] result[j]) == Ok::<
            Option<Seq<char>>,
            ErrorV,
        >(Some(result[j])) by {
            assert(result.contains(result[j]));
            assert(tops.contains(result[j]));
            assert(names.contains(result[j]));
            let i = choose|i: int|
                0 <= i < paths.len() && selected(#[trigger] paths[i]) == Ok::<Option<Seq<char>>, ErrorV>(
                    Some(result[j]),
                );
            lemma_named_again(paths[i], result[j]);
        }
        lemma_all_fine(result, 0);
        assert(result.skip(0) =~= result);
        assert(!whole(result));
        assert forall|name: Seq<char>| named(result).contains(name) <==> tops.contains(name) by {
            if named(result).contains(name) {
                let i = choose|i: int|
                    0 <= i < result.len() && selected(#[trigger] result[i]) == Ok::<Option<Seq<char>>, ErrorV>(
                        Some(name),
                    );
                assert(result.contains(result[i]));
            }
            if tops.contains(name) {
                assert(result.contains(name));
                let i = choose|i: int| 0 <= i < result.len() && result[i] == name;
                assert(selected(result[i]) == Ok::<Option<Seq<char>>, ErrorV>(Some(name)));
            }
        }
        assert(named(result) =~= tops);
        assert(topmost(tops) =~= tops);
    }
}

} // verus!
