//! The build event tracker: which lines of the build's two output streams
//! tell that a component began or finished building, and the two sets of
//! names that these events add up to.

use vstd::prelude::*;
use crate::identity::{crate_name, crate_name_from_package_id, crate_name_in_trimmed, trimmed};
use crate::name_set::NameSet;
use crate::text::{chars_of, digit_run_of, longest_digit_run, starts_with};

verus! {

/// What the build tells about one component.
#[derive(Debug, PartialEq, Eq)]
pub enum BuildEvent {
    /// The component began to build.
    Started(String),
    /// The component is built.
    Finished(String),
}

/// What a `BuildEvent` stands for.
pub enum BuildEventView {
    Started(Seq<char>),
    Finished(Seq<char>),
}

impl View for BuildEvent {
    type V = BuildEventView;

    open spec fn view(&self) -> BuildEventView {
        match self {
            BuildEvent::Started(name) => BuildEventView::Started(name@),
            BuildEvent::Finished(name) => BuildEventView::Finished(name@),
        }
    }
}

/// What an event that may be missing stands for.
pub open spec fn event_view(event: Option<BuildEvent>) -> Option<BuildEventView> {
    match event {
        Some(e) => Some(e@),
        None => None,
    }
}

/// The identity that a line of the diagnostic stream announces as begun: the
/// line begins with `prefix`, and what follows it, trimmed, is a package id.
pub open spec fn started_by(line: Seq<char>, prefix: Seq<char>) -> Option<Seq<char>> {
    if prefix.is_prefix_of(line) {
        crate_name(trimmed(line.skip(prefix.len() as int)))
    } else {
        None
    }
}

/// Reads a line of the diagnostic stream. Lines without the prefix, and
/// lines whose rest is no package id, tell nothing.
pub fn diagnostic_event(line: &str, prefix: &str) -> (event: Option<BuildEvent>)
    ensures
        event_view(event) == match started_by(line@, prefix@) {
            Some(name) => Some(BuildEventView::Started(name)),
            None => None,
        },
{
    let text = chars_of(line);
    let mark = chars_of(prefix);
    if !starts_with(&text, &mark) {
        return None;
    }
    assert(text@.subrange(mark.len() as int, text.len() as int) == text@.skip(mark.len() as int));
    match crate_name_in_trimmed(&text, mark.len(), text.len()) {
        Some(name) => Some(BuildEvent::Started(name)),
        None => None,
    }
}

/// The longest run of digits that a line read as a record may hold.
pub const MAX_DIGIT_RUN: usize = 32767;

/// The text of the field `key` of the JSON record written in `text`, where
/// `text` is a JSON object that holds a string under `key`.
pub uninterp spec fn json_string_field(text: Seq<char>, key: Seq<char>) -> Option<Seq<char>>;

/// Calls `json::parse`, indexes the value by `key` and asks it for its string
/// with `JsonValue::as_str`. Text that does not parse, a value that is no
/// object, a missing key and a field that is no string all give `None`. The
/// result depends on `text` and `key` alone. The parser counts the digits of
/// a fraction in sixteen bits without a check, so text with a longer run of
/// digits than `MAX_DIGIT_RUN` is kept from it.
#[verifier::external_body]
fn read_string_field(text: &str, key: &str) -> (value: Option<String>)
    requires
        longest_digit_run(text@) <= MAX_DIGIT_RUN,
    ensures
        match value {
            Some(s) => json_string_field(text@, key@) == Some(s@),
            None => json_string_field(text@, key@).is_none(),
        },
{
    match json::parse(text) {
        Ok(record) => match record[key].as_str() {
            Some(s) => Some(s.to_string()),
            None => None,
        },
        Err(_) => None,
    }
}

/// The identity that a record announces as built, given its `reason` and
/// `package_id` fields: the reason is `compiler-artifact`, and the package
/// id stands for an identity.
pub open spec fn finished_by(reason: Option<Seq<char>>, package_id: Option<Seq<char>>) -> Option<
    Seq<char>,
> {
    if reason == Some("compiler-artifact"@) {
        match package_id {
            Some(id) => crate_name(id),
            None => None,
        }
    } else {
        None
    }
}

/// What a record with these `reason` and `package_id` fields tells.
pub fn artifact_event(reason: Option<String>, package_id: Option<String>) -> (event: Option<
    BuildEvent,
>)
    ensures
        event_view(event) == match finished_by(
            match reason {
                Some(r) => Some(r@),
                None => None,
            },
            match package_id {
                Some(id) => Some(id@),
                None => None,
            },
        ) {
            Some(name) => Some(BuildEventView::Finished(name)),
            None => None,
        },
{
    let tag = "compiler-artifact".to_owned();
    match reason {
        None => None,
        Some(r) => {
            if r == tag {
                match package_id {
                    None => None,
                    Some(id) => match crate_name_from_package_id(id.as_str()) {
                        Some(name) => Some(BuildEvent::Finished(name)),
                        None => None,
                    },
                }
            } else {
                None
            }
        },
    }
}

/// Reads a line of the structured message stream. Only a line that begins
/// with an opening brace, and holds no run of more than `MAX_DIGIT_RUN`
/// digits, is taken for a record; any other line tells nothing.
pub fn message_event(line: &str) -> (event: Option<BuildEvent>)
    ensures
        event_view(event) == if line@.len() > 0 && line@[0] == '{' && longest_digit_run(line@)
            <= MAX_DIGIT_RUN {
            match finished_by(
                json_string_field(line@, "reason"@),
                json_string_field(line@, "package_id"@),
            ) {
                Some(name) => Some(BuildEventView::Finished(name)),
                None => None,
            }
        } else {
            None
        },
{
    let text = chars_of(line);
    if text.len() == 0 || text[0] != '{' || digit_run_of(&text) > MAX_DIGIT_RUN {
        return None;
    }
    let reason = read_string_field(line, "reason");
    let package_id = read_string_field(line, "package_id");
    artifact_event(reason, package_id)
}

/// The names now building and the names built.
pub struct BuildEventSets {
    pub active: NameSet,
    pub completed: NameSet,
}

/// What a `BuildEventSets` stands for.
pub struct SetsView {
    pub active: Set<Seq<char>>,
    pub completed: Set<Seq<char>>,
}

impl View for BuildEventSets {
    type V = SetsView;

    open spec fn view(&self) -> SetsView {
        SetsView { active: self.active@, completed: self.completed@ }
    }
}

/// The sets after an event: a component that began is building; a component
/// that finished is built, and builds no longer.
pub open spec fn apply_event(sets: SetsView, event: BuildEventView) -> SetsView {
    match event {
        BuildEventView::Started(name) => SetsView {
            active: sets.active.insert(name),
            completed: sets.completed,
        },
        BuildEventView::Finished(name) => SetsView {
            active: sets.active.remove(name),
            completed: sets.completed.insert(name),
        },
    }
}

/// An event told twice changes nothing the second time.
pub proof fn lemma_event_twice(sets: SetsView, event: BuildEventView)
    ensures
        apply_event(apply_event(sets, event), event) == apply_event(sets, event),
{
    match event {
        BuildEventView::Started(name) => {
            assert(sets.active.insert(name).insert(name) == sets.active.insert(name));
        },
        BuildEventView::Finished(name) => {
            assert(sets.active.remove(name).remove(name) == sets.active.remove(name));
            assert(sets.completed.insert(name).insert(name) == sets.completed.insert(name));
        },
    }
}

/// A component that finished is built and builds no longer, whatever the
/// sets held before; and no event takes a name out of the built ones.
pub proof fn lemma_finished_is_final(sets: SetsView, event: BuildEventView)
    ensures
        event matches BuildEventView::Finished(name) ==> apply_event(
            sets,
            event,
        ).completed.contains(name) && !apply_event(sets, event).active.contains(name),
        sets.completed.subset_of(apply_event(sets, event).completed),
{
}

impl BuildEventSets {
    /// No name is building, none is built.
    pub fn new() -> (sets: BuildEventSets)
        ensures
            sets@.active == Set::<Seq<char>>::empty(),
            sets@.completed == Set::<Seq<char>>::empty(),
    {
        BuildEventSets { active: NameSet::new(), completed: NameSet::new() }
    }

    /// Takes an event into the sets.
    pub fn apply(&mut self, event: BuildEvent)
        ensures
            final(self)@ == apply_event(old(self)@, event@),
    {
        match event {
            BuildEvent::Started(name) => {
                self.active.insert(name);
            },
            BuildEvent::Finished(name) => {
                self.active.remove(name.as_str());
                self.completed.insert(name);
            },
        }
    }

    /// One step of the consuming side: takes what a poll of the event channel
    /// gave, which is one event or none.
    pub fn update(&mut self, polled: Option<BuildEvent>)
        ensures
            final(self)@ == match polled {
                Some(event) => apply_event(old(self)@, event@),
                None => old(self)@,
            },
    {
        match polled {
            Some(event) => self.apply(event),
            None => {},
        }
    }
}

} // verus!
