//! Names for released states: each binds a name to committed files and their
//! history.
use vstd::prelude::*;
use vstd::string::*;
use vstd::utf8::*;

use crate::collections::{ordered, TextSet, Value};
use crate::encoding::decimal;
use crate::error::{about, outcome, plain, verdict, Error, ErrorV, Problem};
use crate::graphs::{roots_of, view_of, Graph, GraphV};
use crate::json::{quoted, Json};
use crate::objects::{object_hash, object_id, snapshot_id};
use crate::text::{blank, is_blank, same_text, texts};
use crate::transactions::{saved_id, SavedView};
use crate::views::view_snapshot;

verus! {

/// A name for a released state.
#[derive(Debug)]
pub struct Pin {
    pub format: u32,
    pub name: String,
    pub snapshot: String,
    pub roots: TextSet,
}

/// The mathematical value of a `Pin`.
#[verifier::ext_equal]
pub struct PinV {
    pub format: u32,
    pub name: Seq<char>,
    pub snapshot: Seq<char>,
    pub roots: Set<Seq<char>>,
}

impl View for Pin {
    type V = PinV;

    open spec fn view(&self) -> PinV {
        PinV { format: self.format, name: self.name@, snapshot: self.snapshot@, roots: self.roots@ }
    }
}

/// The canonical JSON of a pin.
pub open spec fn pin_json(pin: PinV) -> Seq<char> {
    "{\"format\":"@ + decimal(pin.format as nat) + ",\"name\":"@ + quoted(pin.name) + ",\"snapshot\":"@ + quoted(
        pin.snapshot,
    ) + ",\"roots\":"@ + TextSet::json_of(pin.roots) + "}"@
}

/// The identity of a pin.
pub open spec fn pin_id(pin: PinV) -> Seq<char> {
    object_hash("pin"@, encode_utf8(pin_json(pin)))
}

/// The identity of the complete saved view that a pin names.
pub open spec fn pinned_view(pin: PinV) -> Seq<char> {
    saved_id(1, pin.snapshot, pin.roots, Seq::empty())
}

/// Whether a pin names what its transactions, which are all of `graph`, amount
/// to.
pub open spec fn pin_check(pin: PinV, graph: GraphV) -> Result<(), ErrorV> {
    if pin.format != 1 || blank(pin.name) {
        Err(plain(Problem::UnnamedPin))
    } else {
        match view_of(graph) {
            Err(error) => Err(error),
            Ok(view) => match view_snapshot(view) {
                Err(error) => Err(error),
                Ok(files) => if snapshot_id(files) == pin.snapshot && roots_of(graph) == pin.roots {
                    Ok(())
                } else {
                    Err(about(Problem::UncommittedView, pin.name))
                },
            },
        }
    }
}

impl Pin {
    /// The canonical JSON of the pin.
    pub fn to_json(&self) -> (text: String)
        ensures
            text@ == pin_json(self@),
    {
        let mut text = "{\"format\":".to_owned();
        let format: u64 = self.format as u64;
        text.append(format.to_json().as_str());
        text.append(",\"name\":");
        text.append(self.name.to_json().as_str());
        text.append(",\"snapshot\":");
        text.append(self.snapshot.to_json().as_str());
        text.append(",\"roots\":");
        text.append(self.roots.to_json().as_str());
        text.append("}");
        text
    }

    pub fn id(&self) -> (result: Result<String, Error>)
        ensures
            outcome(result) == Ok::<Seq<char>, ErrorV>(pin_id(self@)),
    {
        let text = self.to_json();
        Ok(object_id("pin", text.as_str().as_bytes()))
    }

    /// The complete saved view that the pin names.
    pub fn saved_view(&self) -> (view: SavedView)
        ensures
            view.format == 1,
            view.snapshot@ == self@.snapshot,
            view.roots@ == self@.roots,
            texts(view.paths@) == Seq::<Seq<char>>::empty(),
    {
        let view = SavedView {
            format: 1,
            snapshot: self.snapshot.clone(),
            roots: self.roots.clone(),
            paths: Vec::new(),
        };
        assert(texts(view.paths@) =~= Seq::<Seq<char>>::empty());
        view
    }

    /// The identity of the complete saved view that the pin names.
    pub fn view_id(&self) -> (result: Result<String, Error>)
        ensures
            outcome(result) == Ok::<Seq<char>, ErrorV>(pinned_view(self@)),
    {
        self.saved_view().id()
    }

    /// Check that the pin names what its transactions amount to, so that no
    /// draft is released. The graph holds them and all that they build on.
    pub fn validate(&self, graph: &Graph) -> (result: Result<(), Error>)
        ensures
            verdict(result) == pin_check(self@, graph.transactions@),
    {
        if self.format != 1 || is_blank(self.name.as_str()) {
            return Err(Error::plain(Problem::UnnamedPin));
        }
        let view = graph.view()?;
        let snapshot = view.snapshot()?;
        let id = snapshot.id()?;
        let roots = graph.roots();
        if same_text(id.as_str(), self.snapshot.as_str()) && roots.same(&self.roots) {
            Ok(())
        } else {
            Err(Error::about(Problem::UncommittedView, self.name.clone()))
        }
    }
}

/// The views that go by a name.
pub open spec fn views_named(pins: Seq<Pin>, name: Seq<char>) -> Set<Seq<char>> {
    Set::new(
        |view: Seq<char>| exists|i: int| 0 <= i < pins.len() && (#[trigger] pins[i])@.name == name && pinned_view(pins[i]@) == view,
    )
}

fn collect_views(pins: &[Pin], name: &str) -> (result: Result<TextSet, Error>)
    ensures
        outcome(result) == Ok::<Set<Seq<char>>, ErrorV>(views_named(pins@, name@)),
{
    let mut views = TextSet::new();
    let mut i: usize = 0;
    assert(views@ =~= views_named(pins@.take(0), name@));
    while i < pins.len()
        invariant
            i <= pins@.len(),
            views@ == views_named(pins@.take(i as int), name@),
        decreases pins@.len() - i,
    {
        let ghost before = views@;
        let ghost done = pins@.take(i as int);
        let ghost next = pins@.take(i + 1);
        let ghost pin = pins@[i as int];
        if same_text(pins[i].name.as_str(), name) {
            let id = pins[i].view_id()?;
            views.insert(id);
        }
        proof {
            assert(next =~= done.push(pin));
            assert forall|view: Seq<char>| views@.contains(view) <==> views_named(next, name@).contains(view) by {
                if views_named(next, name@).contains(view) {
                    let j = choose|j: int|
                        0 <= j < next.len() && (#[trigger] next[j])@.name == name@ && pinned_view(next[j]@) == view;
                    if j < i {
                        assert(done[j] == next[j]);
                    }
                }
                if before.contains(view) {
                    let j = choose|j: int|
                        0 <= j < done.len() && (#[trigger] done[j])@.name == name@ && pinned_view(done[j]@) == view;
                    assert(next[j] == done[j]);
                }
                if pin@.name == name@ && pinned_view(pin@) == view {
                    assert(next[i as int] == pin);
                }
            }
            assert(views@ =~= views_named(next, name@));
        }
        i += 1;
    }
    assert(pins@.take(pins@.len() as int) =~= pins@);
    Ok(views)
}

/// Check that a name is free for a view: here it stays with the view that it
/// was given to first.
pub fn check_binding(pins: &[Pin], name: &str, view: &str) -> (result: Result<(), Error>)
    ensures
        verdict(result) == (if views_named(pins@, name@).subset_of(set![view@]) {
            Ok::<(), ErrorV>(())
        } else {
            Err(about(Problem::NameTaken, name@))
        }),
{
    let mut views = collect_views(pins, name)?;
    let ghost all = views@;
    views.remove(view);
    if views.is_empty() {
        assert(all.subset_of(set![view@])) by {
            assert forall|k: Seq<char>| all.contains(k) implies set![view@].contains(k) by {
                if k != view@ {
                    assert(views@.contains(k));
                }
            }
        }
        Ok(())
    } else {
        assert(!all.subset_of(set![view@])) by {
            if all.subset_of(set![view@]) {
                assert(views@ =~= Set::<Seq<char>>::empty());
            }
        }
        Err(Error::about(Problem::NameTaken, name.to_owned()))
    }
}

/// The view that a name stands for. Copies of a project may have given one
/// name to several views; the name alone does not tell them apart.
pub open spec fn named_view(pins: Seq<Pin>, name: Seq<char>) -> Result<Option<Seq<char>>, ErrorV> {
    let views = views_named(pins, name);
    if ordered(views).len() == 0 {
        Ok(None)
    } else if ordered(views).len() == 1 {
        Ok(Some(ordered(views)[0]))
    } else {
        Err(about(Problem::AmbiguousName, name))
    }
}

/// The view that a name stands for, if any.
pub fn resolve_name(pins: &[Pin], name: &str) -> (result: Result<Option<String>, Error>)
    ensures
        outcome(result) == named_view(pins@, name@),
{
    let views = collect_views(pins, name)?;
    let n = views.len();
    if n == 0 {
        Ok(None)
    } else if n == 1 {
        Ok(Some(views.at(0).clone()))
    } else {
        Err(Error::about(Problem::AmbiguousName, name.to_owned()))
    }
}

} // verus!
