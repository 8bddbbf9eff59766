//! From a chart to the times at which each sound effect plays: tempo changes,
//! the notes and hold connectors that make sounds, and the final per-clip
//! timetable with overlapping holds merged.
//!
//! Turning beats into seconds takes floating-point arithmetic and is done by
//! the caller between `sound_events` and `Timing::build`; every time and beat
//! here is the bit pattern of a single-precision number (see `timeline`).
use vstd::prelude::*;
use crate::sonolus::{entities_view, resolve_reference, value_of, EntityView, LevelEntity};
use crate::sound::{
    canonical_candidates, first_present, lemma_lookup_nonempty, lookup_candidates, lookup_clip, loop_sound_map,
    loop_sound_table, resolve_sound, same_sound, sound_map, sound_table, Effect, Sound,
};
use crate::text::{concat, decimal, decimal_string, has_prefix, starts_with, str_eq, to_string};
use crate::timeline::{
    all_runs_cancel, dedup_times, dedup_times_exec, group_runs_exec, is_nan_bits, lemma_dedup_sorted,
    lemma_dedup_covers, lemma_merged_spans_ordered, lemma_sort_by_time_sorted, lemma_sort_contains_input,
    lemma_sort_keeps_elements, lemma_sort_of_sorted, merge_spans_exec, merged_spans, no_nan_times,
    sort_by_time, sort_by_time_exec, time_order, group_runs, sweep, sweep_step, sorted_by_time, OPEN_END,
};

verus! {

/// Why a chart cannot be turned into a timetable.
#[derive(Debug, Clone, Copy, PartialEq, Eq, Structural)]
pub enum TimingError {
    /// A tempo change without a `#BEAT`.
    BpmChangeWithoutBeat,
    /// A tempo change without a `#BPM`.
    BpmChangeWithoutBpm,
    /// A sounding note without a `#BEAT`.
    NoteWithoutBeat,
    /// A hold connector whose `head` does not name an entity.
    ConnectorWithoutHead,
    /// A hold connector whose `tail` does not name an entity.
    ConnectorWithoutTail,
    /// The head of a hold connector has no `#BEAT`.
    ConnectorHeadWithoutBeat,
    /// The tail of a hold connector has no `#BEAT`.
    ConnectorTailWithoutBeat,
    /// Hold starts and ends do not pair up.
    UnbalancedSlides,
}

/// The tempo changes of a chart as (beat, bpm) pairs in chart order, or the
/// first tempo change that lacks one of them.
pub open spec fn collect_bpm(ents: Seq<EntityView>) -> Result<Seq<(u32, u32)>, TimingError>
    decreases ents.len(),
{
    if ents.len() == 0 {
        Ok(Seq::empty())
    } else {
        match collect_bpm(ents.drop_last()) {
            Err(e) => Err(e),
            Ok(acc) => {
                let e = ents.last();
                if e.archetype == "#BPM_CHANGE"@ {
                    match value_of(e.data, "#BEAT"@) {
                        None => Err(TimingError::BpmChangeWithoutBeat),
                        Some(beat) => match value_of(e.data, "#BPM"@) {
                            None => Err(TimingError::BpmChangeWithoutBpm),
                            Some(bpm) => Ok(acc.push((beat, bpm))),
                        },
                    }
                } else {
                    Ok(acc)
                }
            },
        }
    }
}

/// The canonical clip sounded by a single-note archetype.
pub open spec fn note_clip(archetype: Seq<char>) -> Option<Seq<char>> {
    match lookup_clip(sound_table(), archetype) {
        Some(c) => Some(c[0]),
        None => None,
    }
}

/// The sounding notes of a chart as (canonical clip, beat) pairs in chart
/// order, and the error of the first sounding note without a beat (nothing is
/// collected after it).
pub open spec fn note_events(ents: Seq<EntityView>) -> (Seq<(Seq<char>, u32)>, Option<TimingError>)
    decreases ents.len(),
{
    if ents.len() == 0 {
        (Seq::empty(), None)
    } else {
        let (acc, err) = note_events(ents.drop_last());
        if err is Some {
            (acc, err)
        } else {
            let e = ents.last();
            match note_clip(e.archetype) {
                None => (acc, None),
                Some(clip) => match value_of(e.data, "#BEAT"@) {
                    None => (acc, Some(TimingError::NoteWithoutBeat)),
                    Some(beat) => (acc.push((clip, beat)), None),
                },
            }
        }
    }
}

/// An entity whose archetype sounds a single note.
pub open spec fn sounding(e: EntityView) -> bool {
    note_clip(e.archetype) is Some
}

/// The note of a sounding entity: its archetype's clip and its beat.
pub open spec fn note_of(e: EntityView) -> (Seq<char>, u32) {
    (note_clip(e.archetype).unwrap(), value_of(e.data, "#BEAT"@).unwrap())
}

/// `sounding` as a predicate value.
pub open spec fn is_sounding() -> spec_fn(EntityView) -> bool {
    |e: EntityView| sounding(e)
}

/// The notes of the sounding entities of `ents`, in chart order.
pub open spec fn sounding_notes(ents: Seq<EntityView>) -> Seq<(Seq<char>, u32)> {
    ents.filter(is_sounding()).map_values(|e: EntityView| note_of(e))
}

/// Reading the notes of a chart fails exactly when some entity whose
/// archetype sounds a note has no `#BEAT`; otherwise the notes are exactly the
/// sounding entities, each as its clip and beat, in chart order.
pub proof fn lemma_note_events_exact(ents: Seq<EntityView>)
    ensures
        note_events(ents).1 is None <==> forall|i: int|
            0 <= i < ents.len() && sounding(#[trigger] ents[i]) ==> value_of(ents[i].data, "#BEAT"@) is Some,
        note_events(ents).1 is Some ==> note_events(ents).1 == Some(TimingError::NoteWithoutBeat),
        note_events(ents).1 is None ==> note_events(ents).0 == sounding_notes(ents),
    decreases ents.len(),
{
    if ents.len() > 0 {
        let p = ents.drop_last();
        let e = ents.last();
        lemma_note_events_exact(p);
        assert forall|i: int| 0 <= i < p.len() implies #[trigger] p[i] == ents[i] by {}
        if note_events(p).1 is None {
            let f = is_sounding();
            reveal(Seq::filter);
            if sounding(e) {
                assert(ents.filter(f) == p.filter(f).push(e));
                assert(ents.filter(f).map_values(|e: EntityView| note_of(e)) =~= p.filter(f).map_values(
                    |e: EntityView| note_of(e),
                ).push(note_of(e)));
            } else {
                assert(ents.filter(f) == p.filter(f));
                assert(ents.filter(f).map_values(|e: EntityView| note_of(e)) =~= p.filter(f).map_values(
                    |e: EntityView| note_of(e),
                ));
            }
            if sounding(e) && value_of(e.data, "#BEAT"@) is None {
                assert(sounding(ents[ents.len() - 1]));
            } else {
                assert forall|i: int|
                    0 <= i < ents.len() && sounding(#[trigger] ents[i]) implies value_of(ents[i].data, "#BEAT"@) is Some by {
                    if i < ents.len() - 1 {
                        assert(p[i] == ents[i]);
                        assert(sounding(p[i]));
                    }
                }
            }
        } else {
            let w = choose|i: int|
                0 <= i < p.len() && sounding(#[trigger] p[i]) && value_of(p[i].data, "#BEAT"@) is None;
            assert(ents[w] == p[w]);
        }
    }
}

/// A note's name plays no part in which notes sound: renaming an entity of a
/// chart (or giving it a name, or taking its name away) reads the same notes
/// and the same error.
pub proof fn lemma_note_events_ignore_names(ents: Seq<EntityView>, i: int, name: Option<Seq<char>>)
    requires
        0 <= i < ents.len(),
    ensures
        note_events(ents.update(i, EntityView { name: name, ..ents[i] })) == note_events(ents),
    decreases ents.len(),
{
    let u = ents.update(i, EntityView { name: name, ..ents[i] });
    if i < ents.len() - 1 {
        assert(u.drop_last() =~= ents.drop_last().update(i, EntityView { name: name, ..ents[i] }));
        assert(ents.drop_last()[i] == ents[i]);
        lemma_note_events_ignore_names(ents.drop_last(), i, name);
        assert(u.last() == ents.last());
    } else {
        assert(u.drop_last() =~= ents.drop_last());
    }
}

/// What a single entity contributes to the holds: nothing, a hold (canonical
/// clip, head beat, tail beat), or an error. A generic `Connector` whose ends
/// or their beats are missing is skipped; it sounds a critical hold when
/// either end's archetype begins with `Critical`.
pub open spec fn hold_outcome(all: Seq<EntityView>, e: EntityView) -> Result<Option<(Seq<char>, u32, u32)>, TimingError> {
    if e.archetype == "Connector"@ {
        match (resolve_reference(all, e, "head"@), resolve_reference(all, e, "tail"@)) {
            (Some(h), Some(t)) => match (value_of(h.data, "#BEAT"@), value_of(t.data, "#BEAT"@)) {
                (Some(hb), Some(tb)) => {
                    let critical = has_prefix(h.archetype, "Critical"@) || has_prefix(t.archetype, "Critical"@);
                    Ok(Some((if critical { "Sekai Critical Hold"@ } else { "#HOLD"@ }, hb, tb)))
                },
                _ => Ok(None),
            },
            _ => Ok(None),
        }
    } else {
        match lookup_clip(loop_sound_table(), e.archetype) {
            None => Ok(None),
            Some(c) => match resolve_reference(all, e, "head"@) {
                None => Err(TimingError::ConnectorWithoutHead),
                Some(h) => match resolve_reference(all, e, "tail"@) {
                    None => Err(TimingError::ConnectorWithoutTail),
                    Some(t) => match value_of(h.data, "#BEAT"@) {
                        None => Err(TimingError::ConnectorHeadWithoutBeat),
                        Some(hb) => match value_of(t.data, "#BEAT"@) {
                            None => Err(TimingError::ConnectorTailWithoutBeat),
                            Some(tb) => Ok(Some((c[0], hb, tb))),
                        },
                    },
                },
            },
        }
    }
}

/// A generic `Connector` whose head and tail are found and both have a beat
/// sounds a hold from the head's beat to the tail's: the critical hold clip
/// exactly when the head's or the tail's archetype begins with `Critical`,
/// the normal hold clip otherwise.
pub proof fn lemma_connector_clip(
    all: Seq<EntityView>,
    e: EntityView,
    h: EntityView,
    t: EntityView,
    hb: u32,
    tb: u32,
)
    requires
        e.archetype == "Connector"@,
        resolve_reference(all, e, "head"@) == Some(h),
        resolve_reference(all, e, "tail"@) == Some(t),
        value_of(h.data, "#BEAT"@) == Some(hb),
        value_of(t.data, "#BEAT"@) == Some(tb),
    ensures
        hold_outcome(all, e) matches Ok(Some((clip, b1, b2))) && b1 == hb && b2 == tb && (clip
            == "Sekai Critical Hold"@ <==> (h.archetype.len() >= 8 && h.archetype.subrange(0, 8) == "Critical"@)
            || (t.archetype.len() >= 8 && t.archetype.subrange(0, 8) == "Critical"@)) && (clip != "Sekai Critical Hold"@
            ==> clip == "#HOLD"@),
{
    reveal_strlit("Critical");
    reveal_strlit("Sekai Critical Hold");
    reveal_strlit("#HOLD");
    assert("Critical"@.len() == 8);
    assert("Sekai Critical Hold"@.len() == 19);
    assert("#HOLD"@.len() == 5);
    assert("Sekai Critical Hold"@ != "#HOLD"@);
}

/// A generic `Connector` whose head or tail is not found, or whose head or
/// tail has no beat, is skipped: it sounds nothing and is no error.
pub proof fn lemma_broken_connector_skipped(all: Seq<EntityView>, e: EntityView)
    requires
        e.archetype == "Connector"@,
        !(resolve_reference(all, e, "head"@) matches Some(h) && resolve_reference(all, e, "tail"@) matches Some(t)
            && value_of(h.data, "#BEAT"@) is Some && value_of(t.data, "#BEAT"@) is Some),
    ensures
        hold_outcome(all, e) == Ok::<Option<(Seq<char>, u32, u32)>, TimingError>(None),
{
}

/// A connector of the hold table (not a generic `Connector`) sounds the first
/// clip that the table lists for its archetype, from its head's beat to its
/// tail's; a missing head, tail, head beat or tail beat, checked in that
/// order, is an error of its own.
pub proof fn lemma_slide_connector_hold(all: Seq<EntityView>, e: EntityView)
    requires
        e.archetype != "Connector"@,
        lookup_clip(loop_sound_table(), e.archetype) is Some,
    ensures
        ({
            let c = lookup_clip(loop_sound_table(), e.archetype).unwrap();
            match (resolve_reference(all, e, "head"@), resolve_reference(all, e, "tail"@)) {
                (None, _) => hold_outcome(all, e) == Err::<Option<(Seq<char>, u32, u32)>, TimingError>(
                    TimingError::ConnectorWithoutHead,
                ),
                (Some(_), None) => hold_outcome(all, e) == Err::<Option<(Seq<char>, u32, u32)>, TimingError>(
                    TimingError::ConnectorWithoutTail,
                ),
                (Some(h), Some(t)) => match (value_of(h.data, "#BEAT"@), value_of(t.data, "#BEAT"@)) {
                    (None, _) => hold_outcome(all, e) == Err::<Option<(Seq<char>, u32, u32)>, TimingError>(
                        TimingError::ConnectorHeadWithoutBeat,
                    ),
                    (Some(_), None) => hold_outcome(all, e) == Err::<Option<(Seq<char>, u32, u32)>, TimingError>(
                        TimingError::ConnectorTailWithoutBeat,
                    ),
                    (Some(hb), Some(tb)) => hold_outcome(all, e) == Ok::<
                        Option<(Seq<char>, u32, u32)>,
                        TimingError,
                    >(Some((c[0], hb, tb))),
                },
            }
        }),
{
}

/// The holds of the entities `ents` (references resolved among `all`) in
/// chart order, and the first error.
pub open spec fn hold_events(all: Seq<EntityView>, ents: Seq<EntityView>) -> (Seq<(Seq<char>, u32, u32)>, Option<TimingError>)
    decreases ents.len(),
{
    if ents.len() == 0 {
        (Seq::empty(), None)
    } else {
        let (acc, err) = hold_events(all, ents.drop_last());
        if err is Some {
            (acc, err)
        } else {
            match hold_outcome(all, ents.last()) {
                Err(e) => (acc, Some(e)),
                Ok(None) => (acc, None),
                Ok(Some(h)) => (acc.push(h), None),
            }
        }
    }
}

/// What becomes of a generic `Connector`, reported for diagnosis.
pub enum ConnectorNotice {
    /// Skipped: its `head` does not name an entity.
    MissingHead,
    /// Skipped: its `tail` does not name an entity.
    MissingTail,
    /// Skipped: its head, of the given archetype, has no `#BEAT`.
    HeadWithoutBeat(String),
    /// Skipped: its tail, of the given archetype, has no `#BEAT`.
    TailWithoutBeat(String),
    /// Registered as a hold: the clip, the head's and the tail's beats, and
    /// the head's and the tail's archetypes.
    Registered(String, u32, u32, String, String),
}

/// Abstract value of a `ConnectorNotice`.
pub ghost enum NoticeView {
    MissingHead,
    MissingTail,
    HeadWithoutBeat(Seq<char>),
    TailWithoutBeat(Seq<char>),
    Registered(Seq<char>, u32, u32, Seq<char>, Seq<char>),
}

/// Abstract value of a `ConnectorNotice`.
pub open spec fn notice_view(n: ConnectorNotice) -> NoticeView {
    match n {
        ConnectorNotice::MissingHead => NoticeView::MissingHead,
        ConnectorNotice::MissingTail => NoticeView::MissingTail,
        ConnectorNotice::HeadWithoutBeat(a) => NoticeView::HeadWithoutBeat(a@),
        ConnectorNotice::TailWithoutBeat(a) => NoticeView::TailWithoutBeat(a@),
        ConnectorNotice::Registered(k, hb, tb, h, t) => NoticeView::Registered(k@, hb, tb, h@, t@),
    }
}

/// Abstract value of a list of notices.
pub open spec fn notices_view(s: Seq<ConnectorNotice>) -> Seq<NoticeView> {
    s.map_values(|n: ConnectorNotice| notice_view(n))
}

/// The notice of one entity: for a generic `Connector`, why it is skipped
/// (the first of: no head, no tail, a head without a beat, a tail without a
/// beat) or the hold it is registered as; for any other entity, none.
pub open spec fn connector_notice(all: Seq<EntityView>, e: EntityView) -> Option<NoticeView> {
    if e.archetype == "Connector"@ {
        match resolve_reference(all, e, "head"@) {
            None => Some(NoticeView::MissingHead),
            Some(h) => match resolve_reference(all, e, "tail"@) {
                None => Some(NoticeView::MissingTail),
                Some(t) => match value_of(h.data, "#BEAT"@) {
                    None => Some(NoticeView::HeadWithoutBeat(h.archetype)),
                    Some(hb) => match value_of(t.data, "#BEAT"@) {
                        None => Some(NoticeView::TailWithoutBeat(t.archetype)),
                        Some(tb) => match hold_outcome(all, e) {
                            Ok(Some(hold)) => Some(NoticeView::Registered(hold.0, hb, tb, h.archetype, t.archetype)),
                            _ => None,
                        },
                    },
                },
            },
        }
    } else {
        None
    }
}

/// The notices of the entities `ents` (references resolved among `all`) in
/// chart order, up to the first entity whose hold is an error.
pub open spec fn connector_notices(all: Seq<EntityView>, ents: Seq<EntityView>) -> Seq<NoticeView>
    decreases ents.len(),
{
    if ents.len() == 0 {
        Seq::empty()
    } else {
        let prev = connector_notices(all, ents.drop_last());
        if hold_events(all, ents.drop_last()).1 is Some {
            prev
        } else {
            match connector_notice(all, ents.last()) {
                Some(n) => prev.push(n),
                None => prev,
            }
        }
    }
}

/// The notices of a chart: none when a sounding note has no beat (the holds
/// are not read), else those of its hold pass.
pub open spec fn sound_notices_spec(ents: Seq<EntityView>) -> Seq<NoticeView> {
    if note_events(ents).1 is Some {
        Seq::empty()
    } else {
        connector_notices(ents, ents)
    }
}

proof fn lemma_connector_notices_err(all: Seq<EntityView>, ents: Seq<EntityView>, i: int)
    requires
        0 <= i <= ents.len(),
        hold_events(all, ents.subrange(0, i)).1 is Some,
    ensures
        connector_notices(all, ents) == connector_notices(all, ents.subrange(0, i)),
    decreases ents.len() - i,
{
    if i < ents.len() {
        assert(ents.subrange(0, i + 1).drop_last() =~= ents.subrange(0, i));
        lemma_connector_notices_err(all, ents, i + 1);
    } else {
        assert(ents.subrange(0, i) =~= ents);
    }
}

/// Everything of a chart that makes a sound, before beats become seconds.
pub struct SoundEvents {
    /// Sounding notes: (canonical clip, beat).
    pub notes: Vec<(String, u32)>,
    /// Holds: (canonical clip, head beat, tail beat).
    pub holds: Vec<(String, u32, u32)>,
    /// The first broken note or connector; the events collected before it are kept.
    pub error: Option<TimingError>,
    /// What became of each generic connector read, in chart order.
    pub notices: Vec<ConnectorNotice>,
}

/// Abstract value of a list of (clip, time) pairs.
pub open spec fn notes_view(s: Seq<(String, u32)>) -> Seq<(Seq<char>, u32)> {
    s.map_values(|n: (String, u32)| (n.0@, n.1))
}

/// Abstract value of a list of (clip, start, end) triples.
pub open spec fn holds_view(s: Seq<(String, u32, u32)>) -> Seq<(Seq<char>, u32, u32)> {
    s.map_values(|h: (String, u32, u32)| (h.0@, h.1, h.2))
}

/// The events of a chart: the notes, then (when the notes are all well
/// formed) the holds.
pub open spec fn sound_events_spec(ents: Seq<EntityView>) -> (Seq<(Seq<char>, u32)>, Seq<(Seq<char>, u32, u32)>, Option<
    TimingError,
>) {
    let (notes, e1) = note_events(ents);
    if e1 is Some {
        (notes, Seq::empty(), e1)
    } else {
        let (holds, e2) = hold_events(ents, ents);
        (notes, holds, e2)
    }
}

proof fn lemma_collect_bpm_err(ents: Seq<EntityView>, i: int)
    requires
        0 <= i <= ents.len(),
        collect_bpm(ents.subrange(0, i)) is Err,
    ensures
        collect_bpm(ents) == collect_bpm(ents.subrange(0, i)),
    decreases ents.len() - i,
{
    if i < ents.len() {
        assert(ents.subrange(0, i + 1).drop_last() =~= ents.subrange(0, i));
        lemma_collect_bpm_err(ents, i + 1);
    } else {
        assert(ents.subrange(0, i) =~= ents);
    }
}

proof fn lemma_note_events_err(ents: Seq<EntityView>, i: int)
    requires
        0 <= i <= ents.len(),
        note_events(ents.subrange(0, i)).1 is Some,
    ensures
        note_events(ents) == note_events(ents.subrange(0, i)),
    decreases ents.len() - i,
{
    if i < ents.len() {
        assert(ents.subrange(0, i + 1).drop_last() =~= ents.subrange(0, i));
        lemma_note_events_err(ents, i + 1);
    } else {
        assert(ents.subrange(0, i) =~= ents);
    }
}

proof fn lemma_hold_events_err(all: Seq<EntityView>, ents: Seq<EntityView>, i: int)
    requires
        0 <= i <= ents.len(),
        hold_events(all, ents.subrange(0, i)).1 is Some,
    ensures
        hold_events(all, ents) == hold_events(all, ents.subrange(0, i)),
    decreases ents.len() - i,
{
    if i < ents.len() {
        assert(ents.subrange(0, i + 1).drop_last() =~= ents.subrange(0, i));
        lemma_hold_events_err(all, ents, i + 1);
    } else {
        assert(ents.subrange(0, i) =~= ents);
    }
}

/// The tempo changes of the chart as (beat, bpm) bit patterns, in chart order.
pub fn collect_bpm_changes(entities: &[LevelEntity]) -> (r: Result<Vec<(u32, u32)>, TimingError>)
    ensures
        match r {
            Ok(v) => collect_bpm(entities_view(entities@)) == Ok::<Seq<(u32, u32)>, TimingError>(v@),
            Err(e) => collect_bpm(entities_view(entities@)) == Err::<Seq<(u32, u32)>, TimingError>(e),
        },
{
    let ghost ev = entities_view(entities@);
    let mut acc: Vec<(u32, u32)> = Vec::new();
    let mut i: usize = 0;
    while i < entities.len()
        invariant
            i <= entities.len(),
            ev == entities_view(entities@),
            ev.len() == entities.len(),
            collect_bpm(ev.subrange(0, i as int)) == Ok::<Seq<(u32, u32)>, TimingError>(acc@),
        decreases entities.len() - i,
    {
        let e = &entities[i];
        proof {
            assert(ev.subrange(0, i + 1).drop_last() =~= ev.subrange(0, i as int));
            assert(ev.subrange(0, i + 1).last() == e@);
        }
        if str_eq(&e.archetype, "#BPM_CHANGE") {
            let beat = match e.get_value("#BEAT") {
                Some(b) => b,
                None => {
                    proof {
                        lemma_collect_bpm_err(ev, i + 1);
                    }
                    return Err(TimingError::BpmChangeWithoutBeat);
                },
            };
            let bpm = match e.get_value("#BPM") {
                Some(b) => b,
                None => {
                    proof {
                        lemma_collect_bpm_err(ev, i + 1);
                    }
                    return Err(TimingError::BpmChangeWithoutBpm);
                },
            };
            acc.push((beat, bpm));
        }
        i = i + 1;
    }
    assert(ev.subrange(0, ev.len() as int) =~= ev);
    Ok(acc)
}

/// Whether sorting `v` by time would compare a NaN: it has two or more
/// elements and one of them is a NaN.
pub open spec fn sort_would_fail<T>(v: Seq<(u32, T)>) -> bool {
    v.len() >= 2 && !no_nan_times(v)
}

/// Whether a time list holds a NaN.
pub fn has_nan_time<T>(v: &Vec<(u32, T)>) -> (r: bool)
    ensures
        r == !no_nan_times(v@),
{
    let mut i: usize = 0;
    while i < v.len()
        invariant
            i <= v.len(),
            forall|k: int| 0 <= k < i ==> !is_nan_bits(#[trigger] v@[k].0),
        decreases v.len() - i,
    {
        if v[i].0 % 0x8000_0000 > 0x7F80_0000 {
            return true;
        }
        i = i + 1;
    }
    false
}

/// The tempo changes of the chart as (beat, bpm) bit patterns, sorted by
/// beat; tempo changes on the same beat keep their chart order.
pub fn bpm_changes(entities: &[LevelEntity]) -> (r: Result<Vec<(u32, u32)>, TimingError>)
    requires
        collect_bpm(entities_view(entities@)) matches Ok(v) ==> !sort_would_fail(v),
    ensures
        match r {
            Ok(v) => collect_bpm(entities_view(entities@)) matches Ok(c) && v@ == sort_by_time(c),
            Err(e) => collect_bpm(entities_view(entities@)) == Err::<Seq<(u32, u32)>, TimingError>(e),
        },
{
    match collect_bpm_changes(entities) {
        Ok(v) => Ok(sort_by_time_exec(&v)),
        Err(e) => Err(e),
    }
}

/// Finds the canonical clip of a single-note archetype.
fn note_clip_exec(archetype: &str) -> (r: Option<String>)
    ensures
        r.deep_view() == note_clip(archetype@),
{
    let table = sound_map();
    match lookup_candidates(&table, archetype) {
        Some(c) => {
            proof {
                lemma_lookup_nonempty(archetype@);
            }
            assert(c@.map_values(|s: &'static str| s@)[0] == c@[0]@);
            Some(to_string(c[0]))
        },
        None => None,
    }
}

/// Finds the canonical clip of a hold-connector archetype.
fn hold_clip_exec(archetype: &str) -> (r: Option<String>)
    ensures
        match lookup_clip(loop_sound_table(), archetype@) {
            Some(c) => r.deep_view() == Some(c[0]),
            None => r is None,
        },
{
    let table = loop_sound_map();
    match lookup_candidates(&table, archetype) {
        Some(c) => {
            proof {
                lemma_lookup_nonempty(archetype@);
            }
            assert(c@.map_values(|s: &'static str| s@)[0] == c@[0]@);
            Some(to_string(c[0]))
        },
        None => None,
    }
}

/// The hold contributed by one entity (see `hold_outcome`).
fn hold_outcome_exec(entities: &[LevelEntity], e: &LevelEntity) -> (r: Result<Option<(String, u32, u32)>, TimingError>)
    ensures
        match r {
            Ok(Some(h)) => hold_outcome(entities_view(entities@), e@) == Ok::<
                Option<(Seq<char>, u32, u32)>,
                TimingError,
            >(Some((h.0@, h.1, h.2))),
            Ok(None) => hold_outcome(entities_view(entities@), e@) == Ok::<
                Option<(Seq<char>, u32, u32)>,
                TimingError,
            >(None),
            Err(err) => hold_outcome(entities_view(entities@), e@) == Err::<
                Option<(Seq<char>, u32, u32)>,
                TimingError,
            >(err),
        },
{
    if str_eq(&e.archetype, "Connector") {
        let head = match e.get_ref(entities, "head") {
            Some(h) => h,
            None => return Ok(None),
        };
        let tail = match e.get_ref(entities, "tail") {
            Some(t) => t,
            None => return Ok(None),
        };
        let hb = match head.get_value("#BEAT") {
            Some(b) => b,
            None => return Ok(None),
        };
        let tb = match tail.get_value("#BEAT") {
            Some(b) => b,
            None => return Ok(None),
        };
        let critical = starts_with(&head.archetype, "Critical") || starts_with(&tail.archetype, "Critical");
        let key = if critical {
            to_string("Sekai Critical Hold")
        } else {
            to_string("#HOLD")
        };
        Ok(Some((key, hb, tb)))
    } else {
        let clip = match hold_clip_exec(&e.archetype) {
            Some(c) => c,
            None => return Ok(None),
        };
        let head = match e.get_ref(entities, "head") {
            Some(h) => h,
            None => return Err(TimingError::ConnectorWithoutHead),
        };
        let tail = match e.get_ref(entities, "tail") {
            Some(t) => t,
            None => return Err(TimingError::ConnectorWithoutTail),
        };
        let hb = match head.get_value("#BEAT") {
            Some(b) => b,
            None => return Err(TimingError::ConnectorHeadWithoutBeat),
        };
        let tb = match tail.get_value("#BEAT") {
            Some(b) => b,
            None => return Err(TimingError::ConnectorTailWithoutBeat),
        };
        Ok(Some((clip, hb, tb)))
    }
}

/// The notice of one entity (see `connector_notice`).
fn connector_notice_exec(entities: &[LevelEntity], e: &LevelEntity) -> (r: Option<ConnectorNotice>)
    ensures
        match r {
            Some(n) => connector_notice(entities_view(entities@), e@) == Some(notice_view(n)),
            None => connector_notice(entities_view(entities@), e@) is None,
        },
{
    if !str_eq(&e.archetype, "Connector") {
        return None;
    }
    let head = match e.get_ref(entities, "head") {
        Some(h) => h,
        None => return Some(ConnectorNotice::MissingHead),
    };
    let tail = match e.get_ref(entities, "tail") {
        Some(t) => t,
        None => return Some(ConnectorNotice::MissingTail),
    };
    let hb = match head.get_value("#BEAT") {
        Some(b) => b,
        None => return Some(ConnectorNotice::HeadWithoutBeat(head.archetype.clone())),
    };
    let tb = match tail.get_value("#BEAT") {
        Some(b) => b,
        None => return Some(ConnectorNotice::TailWithoutBeat(tail.archetype.clone())),
    };
    match hold_outcome_exec(entities, e) {
        Ok(Some(hold)) => Some(ConnectorNotice::Registered(hold.0, hb, tb, head.archetype.clone(), tail.archetype.clone())),
        _ => None,
    }
}

impl SoundEvents {
    /// Whether the chart, read in order, converts a beat to seconds before it
    /// stops: some note or hold was collected, or a hold failed only at its
    /// tail's beat after its head's beat was converted.
    pub open spec fn needs_tempo_spec(notes: Seq<(Seq<char>, u32)>, holds: Seq<(Seq<char>, u32, u32)>, error: Option<
        TimingError,
    >) -> bool {
        notes.len() > 0 || holds.len() > 0 || error == Some(TimingError::ConnectorTailWithoutBeat)
    }

    /// Whether turning these events into times converts a beat to seconds,
    /// which needs at least one tempo change.
    pub fn needs_tempo(&self) -> (r: bool)
        ensures
            r == Self::needs_tempo_spec(notes_view(self.notes@), holds_view(self.holds@), self.error),
    {
        self.notes.len() > 0 || self.holds.len() > 0 || match self.error {
            Some(TimingError::ConnectorTailWithoutBeat) => true,
            _ => false,
        }
    }
}

/// The sounding notes and holds of a chart, in chart order: notes first (each
/// under the canonical clip of its archetype), then, when every sounding note
/// has a beat, the hold connectors. Collection stops at the first broken
/// entity, whose error is reported beside what was collected before it.
pub fn sound_events(entities: &[LevelEntity]) -> (r: SoundEvents)
    ensures
        (notes_view(r.notes@), holds_view(r.holds@), r.error) == sound_events_spec(entities_view(entities@)),
        notices_view(r.notices@) == sound_notices_spec(entities_view(entities@)),
{
    let ghost ev = entities_view(entities@);
    let mut notes: Vec<(String, u32)> = Vec::new();
    let mut i: usize = 0;
    while i < entities.len()
        invariant
            i <= entities.len(),
            ev == entities_view(entities@),
            ev.len() == entities.len(),
            note_events(ev.subrange(0, i as int)) == (notes_view(notes@), None::<TimingError>),
        decreases entities.len() - i,
    {
        let e = &entities[i];
        proof {
            assert(ev.subrange(0, i + 1).drop_last() =~= ev.subrange(0, i as int));
            assert(ev.subrange(0, i + 1).last() == e@);
        }
        match note_clip_exec(&e.archetype) {
            Some(clip) => match e.get_value("#BEAT") {
                Some(beat) => {
                    notes.push((clip, beat));
                    assert(notes_view(notes@) =~= note_events(ev.subrange(0, i + 1)).0);
                },
                None => {
                    proof {
                        lemma_note_events_err(ev, i + 1);
                    }
                    let notices: Vec<ConnectorNotice> = Vec::new();
                    assert(notices_view(notices@) =~= Seq::<NoticeView>::empty());
                    return SoundEvents {
                        notes,
                        holds: Vec::new(),
                        error: Some(TimingError::NoteWithoutBeat),
                        notices,
                    };
                },
            },
            None => {},
        }
        i = i + 1;
    }
    assert(ev.subrange(0, ev.len() as int) =~= ev);
    let mut holds: Vec<(String, u32, u32)> = Vec::new();
    let mut notices: Vec<ConnectorNotice> = Vec::new();
    let mut j: usize = 0;
    assert(notices_view(notices@) =~= connector_notices(ev, ev.subrange(0, 0)));
    while j < entities.len()
        invariant
            j <= entities.len(),
            ev == entities_view(entities@),
            ev.len() == entities.len(),
            note_events(ev) == (notes_view(notes@), None::<TimingError>),
            hold_events(ev, ev.subrange(0, j as int)) == (holds_view(holds@), None::<TimingError>),
            notices_view(notices@) == connector_notices(ev, ev.subrange(0, j as int)),
        decreases entities.len() - j,
    {
        let e = &entities[j];
        proof {
            assert(ev.subrange(0, j + 1).drop_last() =~= ev.subrange(0, j as int));
            assert(ev.subrange(0, j + 1).last() == e@);
        }
        match connector_notice_exec(entities, e) {
            Some(n) => {
                notices.push(n);
                assert(notices_view(notices@) =~= connector_notices(ev, ev.subrange(0, j + 1)));
            },
            None => {
                assert(notices_view(notices@) =~= connector_notices(ev, ev.subrange(0, j + 1)));
            },
        }
        match hold_outcome_exec(entities, e) {
            Ok(Some(h)) => {
                holds.push(h);
                assert(holds_view(holds@) =~= hold_events(ev, ev.subrange(0, j + 1)).0);
            },
            Ok(None) => {},
            Err(err) => {
                proof {
                    lemma_hold_events_err(ev, ev, j + 1);
                    lemma_connector_notices_err(ev, ev, j + 1);
                }
                return SoundEvents { notes, holds, error: Some(err), notices };
            },
        }
        j = j + 1;
    }
    assert(ev.subrange(0, ev.len() as int) =~= ev);
    SoundEvents { notes, holds, error: None, notices }
}

/// The distinct names of `names` in order of first appearance.
pub open spec fn clip_keys(names: Seq<Seq<char>>) -> Seq<Seq<char>>
    decreases names.len(),
{
    if names.len() == 0 {
        Seq::empty()
    } else {
        let k = clip_keys(names.drop_last());
        if k.contains(names.last()) {
            k
        } else {
            k.push(names.last())
        }
    }
}

/// The clip names of a list of notes.
pub open spec fn note_names(notes: Seq<(Seq<char>, u32)>) -> Seq<Seq<char>> {
    notes.map_values(|n: (Seq<char>, u32)| n.0)
}

/// The clip names of a list of holds.
pub open spec fn hold_names(holds: Seq<(Seq<char>, u32, u32)>) -> Seq<Seq<char>> {
    holds.map_values(|h: (Seq<char>, u32, u32)| h.0)
}

/// The times of the notes of clip `k`, in order.
pub open spec fn times_for(notes: Seq<(Seq<char>, u32)>, k: Seq<char>) -> Seq<(u32, ())>
    decreases notes.len(),
{
    if notes.len() == 0 {
        Seq::empty()
    } else {
        let t = times_for(notes.drop_last(), k);
        if notes.last().0 == k {
            t.push((notes.last().1, ()))
        } else {
            t
        }
    }
}

/// The changes of the holds of clip `k`, in order: `+1` at each start and
/// `-1` at each end.
pub open spec fn changes_for(holds: Seq<(Seq<char>, u32, u32)>, k: Seq<char>) -> Seq<(u32, i32)>
    decreases holds.len(),
{
    if holds.len() == 0 {
        Seq::empty()
    } else {
        let c = changes_for(holds.drop_last(), k);
        if holds.last().0 == k {
            c.push((holds.last().1, 1i32)).push((holds.last().2, -1i32))
        } else {
            c
        }
    }
}

/// The times of clip `k` in a timetable: its note times sorted, each time kept once.
pub open spec fn single_times(notes: Seq<(Seq<char>, u32)>, k: Seq<char>) -> Seq<u32> {
    dedup_times(sort_by_time(times_for(notes, k))).map_values(|p: (u32, ())| p.0)
}

/// Every clip's holds pair up into intervals.
pub open spec fn holds_merge(holds: Seq<(Seq<char>, u32, u32)>) -> bool {
    forall|i: int|
        0 <= i < clip_keys(hold_names(holds)).len() ==> (#[trigger] merged_spans(
            changes_for(holds, clip_keys(hold_names(holds))[i]),
        )) is Some
}

/// The most holds a timetable is built from: their ends, two per hold, are
/// then counted without overflow by the 32-bit count of open holds.
pub const MAX_HOLDS: usize = 0x3FFF_FFFF;

/// The inputs on which building a timetable runs to an answer: no hold time is
/// a NaN, no clip's holds all start and end at the same instants, and, when
/// the holds pair up, no clip with two or more notes has a NaN time.
pub open spec fn build_defined(notes: Seq<(Seq<char>, u32)>, holds: Seq<(Seq<char>, u32, u32)>) -> bool {
    &&& holds.len() <= MAX_HOLDS
    &&& forall|i: int|
        0 <= i < clip_keys(hold_names(holds)).len() ==> {
            let c = #[trigger] changes_for(holds, clip_keys(hold_names(holds))[i]);
            no_nan_times(c) && !all_runs_cancel(c)
        }
    &&& holds_merge(holds) ==> forall|i: int|
        0 <= i < clip_keys(note_names(notes)).len() ==> !sort_would_fail(
            #[trigger] times_for(notes, clip_keys(note_names(notes))[i]),
        )
}

/// The times at which each clip plays: single hits, and merged hold intervals
/// (start, end). Clips are listed in the order they first occur in the chart.
#[derive(Debug, Clone)]
pub struct Timing {
    pub single: Vec<(String, Vec<u32>)>,
    pub connect: Vec<(String, Vec<(u32, u32)>)>,
}

/// The timetable `t` is the one built from `notes` and `holds`.
pub open spec fn timing_of(t: Timing, notes: Seq<(Seq<char>, u32)>, holds: Seq<(Seq<char>, u32, u32)>) -> bool {
    let nk = clip_keys(note_names(notes));
    let hk = clip_keys(hold_names(holds));
    &&& t.single@.len() == nk.len()
    &&& forall|i: int|
        0 <= i < nk.len() ==> (#[trigger] t.single@[i]).0@ == nk[i] && t.single@[i].1@ == single_times(
            notes,
            nk[i],
        )
    &&& t.connect@.len() == hk.len()
    &&& forall|i: int|
        0 <= i < hk.len() ==> (#[trigger] t.connect@[i]).0@ == hk[i] && merged_spans(changes_for(holds, hk[i]))
            == Some(t.connect@[i].1@)
}

fn copy_string(s: &String) -> (r: String)
    ensures
        r@ == s@,
{
    s.clone()
}

/// The distinct strings of `names`, in order of first appearance.
fn distinct_in_order(names: &Vec<String>) -> (r: Vec<String>)
    ensures
        r@.map_values(|s: String| s@) == clip_keys(names@.map_values(|s: String| s@)),
{
    let ghost nv = names@.map_values(|s: String| s@);
    let mut r: Vec<String> = Vec::new();
    let mut i: usize = 0;
    while i < names.len()
        invariant
            i <= names.len(),
            nv == names@.map_values(|s: String| s@),
            r@.map_values(|s: String| s@) == clip_keys(nv.subrange(0, i as int)),
        decreases names.len() - i,
    {
        let ghost rv = r@.map_values(|s: String| s@);
        let mut found = false;
        let mut j: usize = 0;
        while j < r.len()
            invariant
                j <= r.len(),
                rv == r@.map_values(|s: String| s@),
                i < names.len(),
                found == (exists|k: int| 0 <= k < j && rv[k] == names@[i as int]@),
            decreases r.len() - j,
        {
            assert(rv[j as int] == r@[j as int]@);
            if r[j] == names[i] {
                found = true;
            }
            j = j + 1;
        }
        proof {
            assert(nv.subrange(0, i + 1).drop_last() =~= nv.subrange(0, i as int));
            assert(nv.subrange(0, i + 1).last() == names@[i as int]@);
            if found {
                let k = choose|k: int| 0 <= k < r.len() && rv[k] == names@[i as int]@;
                assert(rv.contains(nv.subrange(0, i + 1).last()));
            } else {
                assert(!rv.contains(nv.subrange(0, i + 1).last()));
            }
        }
        if !found {
            r.push(copy_string(&names[i]));
            assert(r@.map_values(|s: String| s@) =~= rv.push(names@[i as int]@));
        }
        i = i + 1;
    }
    assert(nv.subrange(0, names.len() as int) =~= nv);
    r
}

fn note_names_exec(notes: &Vec<(String, u32)>) -> (r: Vec<String>)
    ensures
        r@.map_values(|s: String| s@) == note_names(notes_view(notes@)),
{
    let mut r: Vec<String> = Vec::new();
    let mut i: usize = 0;
    while i < notes.len()
        invariant
            i <= notes.len(),
            r.len() == i,
            forall|k: int| 0 <= k < i ==> (#[trigger] r@[k])@ == notes@[k].0@,
        decreases notes.len() - i,
    {
        r.push(copy_string(&notes[i].0));
        i = i + 1;
    }
    assert(r@.map_values(|s: String| s@) =~= note_names(notes_view(notes@)));
    r
}

fn hold_names_exec(holds: &Vec<(String, u32, u32)>) -> (r: Vec<String>)
    ensures
        r@.map_values(|s: String| s@) == hold_names(holds_view(holds@)),
{
    let mut r: Vec<String> = Vec::new();
    let mut i: usize = 0;
    while i < holds.len()
        invariant
            i <= holds.len(),
            r.len() == i,
            forall|k: int| 0 <= k < i ==> (#[trigger] r@[k])@ == holds@[k].0@,
        decreases holds.len() - i,
    {
        r.push(copy_string(&holds[i].0));
        i = i + 1;
    }
    assert(r@.map_values(|s: String| s@) =~= hold_names(holds_view(holds@)));
    r
}

fn times_for_exec(notes: &Vec<(String, u32)>, key: &String) -> (r: Vec<(u32, ())>)
    ensures
        r@ == times_for(notes_view(notes@), key@),
{
    let ghost nv = notes_view(notes@);
    let mut r: Vec<(u32, ())> = Vec::new();
    let mut i: usize = 0;
    while i < notes.len()
        invariant
            i <= notes.len(),
            nv == notes_view(notes@),
            r@ == times_for(nv.subrange(0, i as int), key@),
        decreases notes.len() - i,
    {
        proof {
            assert(nv.subrange(0, i + 1).drop_last() =~= nv.subrange(0, i as int));
        }
        if notes[i].0 == *key {
            r.push((notes[i].1, ()));
        }
        i = i + 1;
    }
    assert(nv.subrange(0, notes.len() as int) =~= nv);
    r
}

proof fn lemma_changes_for_len(holds: Seq<(Seq<char>, u32, u32)>, k: Seq<char>)
    ensures
        changes_for(holds, k).len() <= 2 * holds.len(),
        forall|i: int| 0 <= i < changes_for(holds, k).len() ==> -1 <= #[trigger] changes_for(holds, k)[i].1 <= 1,
    decreases holds.len(),
{
    if holds.len() > 0 {
        lemma_changes_for_len(holds.drop_last(), k);
    }
}

fn changes_for_exec(holds: &Vec<(String, u32, u32)>, key: &String) -> (r: Vec<(u32, i32)>)
    ensures
        r@ == changes_for(holds_view(holds@), key@),
{
    let ghost hv = holds_view(holds@);
    let mut r: Vec<(u32, i32)> = Vec::new();
    let mut i: usize = 0;
    while i < holds.len()
        invariant
            i <= holds.len(),
            hv == holds_view(holds@),
            r@ == changes_for(hv.subrange(0, i as int), key@),
        decreases holds.len() - i,
    {
        proof {
            assert(hv.subrange(0, i + 1).drop_last() =~= hv.subrange(0, i as int));
        }
        if holds[i].0 == *key {
            r.push((holds[i].1, 1));
            r.push((holds[i].2, -1));
        }
        i = i + 1;
    }
    assert(hv.subrange(0, holds.len() as int) =~= hv);
    r
}

fn first_times(v: &Vec<(u32, ())>) -> (r: Vec<u32>)
    ensures
        r@ == v@.map_values(|p: (u32, ())| p.0),
{
    let mut r: Vec<u32> = Vec::new();
    let mut i: usize = 0;
    while i < v.len()
        invariant
            i <= v.len(),
            r@ == v@.subrange(0, i as int).map_values(|p: (u32, ())| p.0),
        decreases v.len() - i,
    {
        r.push(v[i].0);
        i = i + 1;
        assert(r@ =~= v@.subrange(0, i as int).map_values(|p: (u32, ())| p.0));
    }
    assert(v@.subrange(0, v.len() as int) =~= v@);
    r
}

impl Timing {
    /// Builds the timetable from note times (clip, time) and hold times
    /// (clip, start, end). Each clip's note times are sorted and each time is
    /// kept once. Each clip's holds are merged: starts and ends at equal
    /// times that follow each other are summed, the sums are sorted by time,
    /// and an interval runs from where the number of open holds leaves zero
    /// to where it returns to zero. Fails with `UnbalancedSlides` when some
    /// clip's holds do not pair up.
    pub fn build(notes: &Vec<(String, u32)>, holds: &Vec<(String, u32, u32)>) -> (r: Result<Timing, TimingError>)
        requires
            build_defined(notes_view(notes@), holds_view(holds@)),
        ensures
            r is Ok <==> holds_merge(holds_view(holds@)),
            match r {
                Ok(t) => timing_of(t, notes_view(notes@), holds_view(holds@)) && t.wf(),
                Err(e) => e == TimingError::UnbalancedSlides,
            },
    {
        let ghost nv = notes_view(notes@);
        let ghost hv = holds_view(holds@);
        let hnames = hold_names_exec(holds);
        let hkeys = distinct_in_order(&hnames);
        let ghost hk = clip_keys(hold_names(hv));
        let mut connect: Vec<(String, Vec<(u32, u32)>)> = Vec::new();
        let mut i: usize = 0;
        while i < hkeys.len()
            invariant
                i <= hkeys.len(),
                hv == holds_view(holds@),
                hk == clip_keys(hold_names(hv)),
                hkeys@.map_values(|s: String| s@) == hk,
                build_defined(nv, hv),
                connect@.len() == i,
                forall|k: int|
                    0 <= k < i ==> (#[trigger] connect@[k]).0@ == hk[k] && merged_spans(changes_for(hv, hk[k]))
                        == Some(connect@[k].1@),
            decreases hkeys.len() - i,
        {
            let changes = changes_for_exec(holds, &hkeys[i]);
            proof {
                assert(hk[i as int] == hkeys@[i as int]@);
                lemma_changes_for_len(hv, hk[i as int]);
                assert(changes@ == changes_for(hv, hk[i as int]));
            }
            match merge_spans_exec(&changes) {
                Some(spans) => {
                    connect.push((copy_string(&hkeys[i]), spans));
                },
                None => {
                    proof {
                        assert(merged_spans(changes_for(hv, hk[i as int])) is None);
                    }
                    return Err(TimingError::UnbalancedSlides);
                },
            }
            i = i + 1;
        }
        proof {
            assert forall|k: int| 0 <= k < hk.len() implies (#[trigger] merged_spans(changes_for(hv, hk[k]))) is Some by {
                assert(connect@[k].0@ == hk[k]);
            }
        }
        let nnames = note_names_exec(notes);
        let nkeys = distinct_in_order(&nnames);
        let ghost nk = clip_keys(note_names(nv));
        let mut single: Vec<(String, Vec<u32>)> = Vec::new();
        let mut j: usize = 0;
        while j < nkeys.len()
            invariant
                j <= nkeys.len(),
                nv == notes_view(notes@),
                nk == clip_keys(note_names(nv)),
                nkeys@.map_values(|s: String| s@) == nk,
                holds_merge(hv),
                build_defined(nv, hv),
                single@.len() == j,
                forall|k: int|
                    0 <= k < j ==> (#[trigger] single@[k]).0@ == nk[k] && single@[k].1@ == single_times(nv, nk[k]),
            decreases nkeys.len() - j,
        {
            let times = times_for_exec(notes, &nkeys[j]);
            proof {
                assert(nk[j as int] == nkeys@[j as int]@);
                assert(!sort_would_fail(times_for(nv, nk[j as int])));
            }
            let sorted = sort_by_time_exec(&times);
            let unique = dedup_times_exec(&sorted);
            let list = first_times(&unique);
            single.push((copy_string(&nkeys[j]), list));
            j = j + 1;
        }
        let t = Timing { single, connect };
        proof {
            lemma_built_timing_wf(t, nv, hv);
        }
        Ok(t)
    }
}

/// Whether every run of equal times in `changes` sums to zero.
fn runs_all_cancel(changes: &Vec<(u32, i32)>) -> (r: bool)
    requires
        changes.len() <= i32::MAX,
        forall|i: int| 0 <= i < changes.len() ==> -1 <= #[trigger] changes@[i].1 <= 1,
    ensures
        r == all_runs_cancel(changes@),
{
    let groups = group_runs_exec(changes);
    let mut i: usize = 0;
    while i < groups.len()
        invariant
            i <= groups.len(),
            groups@ == crate::timeline::group_runs(changes@),
            forall|k: int| 0 <= k < i ==> #[trigger] groups@[k].1 == 0,
        decreases groups.len() - i,
    {
        if groups[i].1 != 0 {
            return false;
        }
        i = i + 1;
    }
    true
}

impl Timing {
    /// Whether `build` runs to an answer on these inputs (see `build_defined`);
    /// where it does not, sorting would compare a NaN or a clip's holds would
    /// open no interval at all.
    pub fn can_build(notes: &Vec<(String, u32)>, holds: &Vec<(String, u32, u32)>) -> (r: bool)
        ensures
            r == build_defined(notes_view(notes@), holds_view(holds@)),
    {
        let ghost nv = notes_view(notes@);
        let ghost hv = holds_view(holds@);
        if holds.len() > MAX_HOLDS {
            return false;
        }
        let hnames = hold_names_exec(holds);
        let hkeys = distinct_in_order(&hnames);
        let ghost hk = clip_keys(hold_names(hv));
        let mut i: usize = 0;
        while i < hkeys.len()
            invariant
                i <= hkeys.len(),
                hv == holds_view(holds@),
                hv.len() <= MAX_HOLDS,
                hk == clip_keys(hold_names(hv)),
                hkeys@.map_values(|s: String| s@) == hk,
                forall|k: int|
                    0 <= k < i ==> {
                        let c = #[trigger] changes_for(hv, hk[k]);
                        no_nan_times(c) && !all_runs_cancel(c)
                    },
            decreases hkeys.len() - i,
        {
            let changes = changes_for_exec(holds, &hkeys[i]);
            proof {
                assert(hk[i as int] == hkeys@[i as int]@);
                lemma_changes_for_len(hv, hk[i as int]);
            }
            if has_nan_time(&changes) || runs_all_cancel(&changes) {
                return false;
            }
            i = i + 1;
        }
        let mut merges = true;
        let mut m: usize = 0;
        while m < hkeys.len()
            invariant
                m <= hkeys.len(),
                hv == holds_view(holds@),
                hv.len() <= MAX_HOLDS,
                hk == clip_keys(hold_names(hv)),
                hkeys@.map_values(|s: String| s@) == hk,
                forall|k: int|
                    0 <= k < hk.len() ==> {
                        let c = #[trigger] changes_for(hv, hk[k]);
                        no_nan_times(c) && !all_runs_cancel(c)
                    },
                merges == forall|k: int| 0 <= k < m ==> (#[trigger] merged_spans(changes_for(hv, hk[k]))) is Some,
            decreases hkeys.len() - m,
        {
            let changes = changes_for_exec(holds, &hkeys[m]);
            proof {
                assert(hk[m as int] == hkeys@[m as int]@);
                lemma_changes_for_len(hv, hk[m as int]);
                let c = changes_for(hv, hk[m as int]);
                assert(no_nan_times(c) && !all_runs_cancel(c));
            }
            let ok = match merge_spans_exec(&changes) {
                Some(_) => true,
                None => false,
            };
            proof {
                if !merges {
                    let w = choose|k: int| 0 <= k < m && !((#[trigger] merged_spans(changes_for(hv, hk[k]))) is Some);
                    assert(0 <= w < m + 1);
                }
            }
            merges = merges && ok;
            m = m + 1;
        }
        if !merges {
            return true;
        }
        let nnames = note_names_exec(notes);
        let nkeys = distinct_in_order(&nnames);
        let ghost nk = clip_keys(note_names(nv));
        let mut j: usize = 0;
        while j < nkeys.len()
            invariant
                j <= nkeys.len(),
                nv == notes_view(notes@),
                nk == clip_keys(note_names(nv)),
                nkeys@.map_values(|s: String| s@) == nk,
                forall|k: int| 0 <= k < j ==> !sort_would_fail(#[trigger] times_for(nv, nk[k])),
                hv == holds_view(holds@),
                hv.len() <= MAX_HOLDS,
                hk == clip_keys(hold_names(hv)),
                holds_merge(hv),
                forall|k: int|
                    0 <= k < hk.len() ==> {
                        let c = #[trigger] changes_for(hv, hk[k]);
                        no_nan_times(c) && !all_runs_cancel(c)
                    },
            decreases nkeys.len() - j,
        {
            let times = times_for_exec(notes, &nkeys[j]);
            proof {
                assert(nk[j as int] == nkeys@[j as int]@);
            }
            if times.len() >= 2 && has_nan_time(&times) {
                return false;
            }
            j = j + 1;
        }
        true
    }
}

proof fn lemma_times_for_from_notes(notes: Seq<(Seq<char>, u32)>, k: Seq<char>, t: (u32, ()))
    requires
        times_for(notes, k).contains(t),
    ensures
        notes.contains((k, t.0)),
    decreases notes.len(),
{
    let p = notes.drop_last();
    if notes.last().0 == k && t == (notes.last().1, ()) {
        assert(notes[notes.len() - 1] == (k, t.0));
    } else {
        if notes.last().0 == k {
            let w = choose|w: int| 0 <= w < times_for(notes, k).len() && times_for(notes, k)[w] == t;
            assert(times_for(notes, k) == times_for(p, k).push((notes.last().1, ())));
            assert(w < times_for(p, k).len());
            assert(times_for(p, k)[w] == t);
        }
        lemma_times_for_from_notes(p, k, t);
        let w = choose|w: int| 0 <= w < p.len() && p[w] == (k, t.0);
        assert(notes[w] == p[w]);
    }
}

/// In a built timetable each clip's hit times are strictly increasing, each is
/// the time of a note of that clip, and a clip with notes has at least one.
pub proof fn lemma_single_times_increasing(notes: Seq<(Seq<char>, u32)>, k: Seq<char>)
    ensures
        forall|i: int, j: int|
            0 <= i < j < single_times(notes, k).len() ==> time_order(#[trigger] single_times(notes, k)[i])
                < time_order(#[trigger] single_times(notes, k)[j]),
        forall|i: int| 0 <= i < single_times(notes, k).len() ==> notes.contains((k, #[trigger] single_times(notes, k)[i])),
        times_for(notes, k).len() > 0 ==> single_times(notes, k).len() > 0,
{
    let t = times_for(notes, k);
    let st = sort_by_time(t);
    lemma_sort_by_time_sorted(t);
    lemma_sort_keeps_elements(t);
    lemma_dedup_sorted(st);
    let d = dedup_times(st);
    assert forall|i: int| 0 <= i < single_times(notes, k).len() implies notes.contains(
        (k, #[trigger] single_times(notes, k)[i]),
    ) by {
        assert(single_times(notes, k)[i] == d[i].0);
        assert(st.contains(d[i]));
        let w = choose|w: int| 0 <= w < st.len() && st[w] == d[i];
        assert(t.contains(st[w]));
        lemma_times_for_from_notes(notes, k, d[i]);
    }
}

/// Progress-bar colors (foreground, background) of a clip.
#[derive(Debug, Clone, Copy)]
pub struct ClipColor {
    pub fg: &'static str,
    pub bg: &'static str,
}

/// What a synthesis thread reports: its total amount of work and its color.
#[derive(Debug, Clone, Copy)]
pub struct ThreadInfo {
    pub color: ClipColor,
    pub max: i32,
}

/// Messages from the synthesis threads: the list of threads (sent once,
/// first), a thread's progress, and a thread's finished sound.
#[derive(Debug, Clone)]
pub enum Progress {
    Info { threads: Vec<(String, ThreadInfo)> },
    Update { id: String, current: i32 },
    Finish { id: String, sound: Sound },
}

/// Colors of the known canonical clips.
pub open spec fn color_table() -> Seq<(Seq<char>, (Seq<char>, Seq<char>))> {
    seq![
        ("#PERFECT"@, ("cyan"@, "blue"@)),
        ("#PERFECT_ALTERNATIVE"@, ("red"@, "yellow"@)),
        ("#HOLD"@, ("green"@, "blue"@)),
        ("Sekai Tick"@, ("green"@, "blue"@)),
        ("Sekai Critical Tap"@, ("yellow"@, "orange"@)),
        ("Sekai Critical Hold"@, ("yellow"@, "orange"@)),
        ("Sekai Critical Flick"@, ("yellow"@, "orange"@)),
        ("Sekai Critical Tick"@, ("yellow"@, "orange"@)),
        ("Sekai Trace"@, ("green"@, "blue"@)),
        ("Sekai Critical Trace"@, ("yellow"@, "orange"@))
    ]
}

/// Display names of the known canonical clips.
pub open spec fn name_table() -> Seq<(Seq<char>, Seq<char>)> {
    seq![
        ("#PERFECT"@, "通常タップ"@),
        ("#PERFECT_ALTERNATIVE"@, "通常フリック"@),
        ("#HOLD"@, "通常ホールド"@),
        ("Sekai Tick"@, "スライド中継点"@),
        ("Sekai Critical Tap"@, "金タップ"@),
        ("Sekai Critical Hold"@, "金ホールド"@),
        ("Sekai Critical Flick"@, "金フリック"@),
        ("Sekai Critical Tick"@, "金スライド中継点"@),
        ("Sekai Trace"@, "通常トレース"@),
        ("Sekai Critical Trace"@, "金トレース"@)
    ]
}

/// The value of the first row of `t` with key `key`.
pub open spec fn lookup_row<V>(t: Seq<(Seq<char>, V)>, key: Seq<char>) -> Option<V>
    decreases t.len(),
{
    if t.len() == 0 {
        None
    } else if t[0].0 == key {
        Some(t[0].1)
    } else {
        lookup_row(t.drop_first(), key)
    }
}

/// The colors (foreground, background) of clip `name`; gray on gray for an
/// unknown clip.
pub open spec fn clip_color_spec(name: Seq<char>) -> (Seq<char>, Seq<char>) {
    match lookup_row(color_table(), name) {
        Some(c) => c,
        None => ("gray"@, "gray"@),
    }
}

/// The display name of clip `name`; the name itself for an unknown clip.
pub open spec fn display_name(name: Seq<char>) -> Seq<char> {
    match lookup_row(name_table(), name) {
        Some(n) => n,
        None => name,
    }
}

/// The progress-bar colors of clip `name`.
pub fn clip_color(name: &str) -> (r: ClipColor)
    ensures
        (r.fg@, r.bg@) == clip_color_spec(name@),
{
    let t: Vec<(&'static str, &'static str, &'static str)> = vec![
        ("#PERFECT", "cyan", "blue"),
        ("#PERFECT_ALTERNATIVE", "red", "yellow"),
        ("#HOLD", "green", "blue"),
        ("Sekai Tick", "green", "blue"),
        ("Sekai Critical Tap", "yellow", "orange"),
        ("Sekai Critical Hold", "yellow", "orange"),
        ("Sekai Critical Flick", "yellow", "orange"),
        ("Sekai Critical Tick", "yellow", "orange"),
        ("Sekai Trace", "green", "blue"),
        ("Sekai Critical Trace", "yellow", "orange")
    ];
    let ghost tv = t@.map_values(|e: (&'static str, &'static str, &'static str)| (e.0@, (e.1@, e.2@)));
    assert(tv =~~= color_table());
    let mut i: usize = 0;
    assert(tv.subrange(0, tv.len() as int) =~= tv);
    while i < t.len()
        invariant
            i <= t.len(),
            tv == t@.map_values(|e: (&'static str, &'static str, &'static str)| (e.0@, (e.1@, e.2@))),
            tv == color_table(),
            lookup_row(tv, name@) == lookup_row(tv.subrange(i as int, tv.len() as int), name@),
        decreases t.len() - i,
    {
        assert(tv[i as int] == (t@[i as int].0@, (t@[i as int].1@, t@[i as int].2@)));
        if str_eq(t[i].0, name) {
            assert(tv.subrange(i as int, tv.len() as int)[0] == tv[i as int]);
            return ClipColor { fg: t[i].1, bg: t[i].2 };
        }
        assert(tv.subrange(i as int, tv.len() as int).drop_first() =~= tv.subrange(i + 1, tv.len() as int));
        i = i + 1;
    }
    ClipColor { fg: "gray", bg: "gray" }
}

/// The display name of clip `name`.
pub fn clip_display_name(name: &str) -> (r: String)
    ensures
        r@ == display_name(name@),
{
    let t: Vec<(&'static str, &'static str)> = vec![
        ("#PERFECT", "通常タップ"),
        ("#PERFECT_ALTERNATIVE", "通常フリック"),
        ("#HOLD", "通常ホールド"),
        ("Sekai Tick", "スライド中継点"),
        ("Sekai Critical Tap", "金タップ"),
        ("Sekai Critical Hold", "金ホールド"),
        ("Sekai Critical Flick", "金フリック"),
        ("Sekai Critical Tick", "金スライド中継点"),
        ("Sekai Trace", "通常トレース"),
        ("Sekai Critical Trace", "金トレース")
    ];
    let ghost tv = t@.map_values(|e: (&'static str, &'static str)| (e.0@, e.1@));
    assert(tv =~~= name_table());
    let mut i: usize = 0;
    assert(tv.subrange(0, tv.len() as int) =~= tv);
    while i < t.len()
        invariant
            i <= t.len(),
            tv == t@.map_values(|e: (&'static str, &'static str)| (e.0@, e.1@)),
            tv == name_table(),
            lookup_row(tv, name@) == lookup_row(tv.subrange(i as int, tv.len() as int), name@),
        decreases t.len() - i,
    {
        assert(tv[i as int] == (t@[i as int].0@, t@[i as int].1@));
        if str_eq(t[i].0, name) {
            assert(tv.subrange(i as int, tv.len() as int)[0] == tv[i as int]);
            return to_string(t[i].1);
        }
        assert(tv.subrange(i as int, tv.len() as int).drop_first() =~= tv.subrange(i + 1, tv.len() as int));
        i = i + 1;
    }
    to_string(name)
}

/// The number of threads for `len` hits at most `npt` per thread.
pub open spec fn thread_count(len: int, npt: int) -> int {
    (len + npt - 1) / npt
}

/// The number of hits per thread, spread evenly over `thread_count` threads.
pub open spec fn chunk_size(len: int, npt: int) -> int {
    let tc = thread_count(len, npt);
    (len + tc - 1) / tc
}

/// The first hit of thread `i`.
pub open spec fn chunk_start(len: int, npt: int, i: int) -> int {
    i * chunk_size(len, npt)
}

/// One past the last hit of thread `i`; the last thread runs to the end.
pub open spec fn chunk_end(len: int, npt: int, i: int) -> int {
    if i == thread_count(len, npt) - 1 {
        len
    } else if (i + 1) * chunk_size(len, npt) <= len {
        (i + 1) * chunk_size(len, npt)
    } else {
        len
    }
}

proof fn lemma_chunk_arith(len: int, npt: int)
    requires
        len >= 1,
        npt >= 1,
    ensures
        1 <= thread_count(len, npt) <= len,
        1 <= chunk_size(len, npt) <= npt,
        (thread_count(len, npt) - 1) * chunk_size(len, npt) < len,
        len <= thread_count(len, npt) * chunk_size(len, npt),
{
    let tc = thread_count(len, npt);
    let per = chunk_size(len, npt);
    vstd::arithmetic::div_mod::lemma_fundamental_div_mod(len + npt - 1, npt);
    vstd::arithmetic::div_mod::lemma_mod_bound(len + npt - 1, npt);
    let r1 = (len + npt - 1) % npt;
    assert(len + npt - 1 == npt * tc + r1);
    assert(tc >= 1) by (nonlinear_arith)
        requires
            len + npt - 1 == npt * tc + r1,
            0 <= r1 < npt,
            len >= 1,
            npt >= 1,
    ;
    assert(tc <= len) by (nonlinear_arith)
        requires
            len + npt - 1 == npt * tc + r1,
            0 <= r1 < npt,
            len >= 1,
            npt >= 1,
    ;
    assert((tc - 1) * npt < len && len <= tc * npt) by (nonlinear_arith)
        requires
            len + npt - 1 == npt * tc + r1,
            0 <= r1 < npt,
    ;
    vstd::arithmetic::div_mod::lemma_fundamental_div_mod(len + tc - 1, tc);
    vstd::arithmetic::div_mod::lemma_mod_bound(len + tc - 1, tc);
    let r2 = (len + tc - 1) % tc;
    assert(len + tc - 1 == tc * per + r2);
    assert(1 <= per <= npt && len <= tc * per) by (nonlinear_arith)
        requires
            len + tc - 1 == tc * per + r2,
            0 <= r2 < tc,
            len <= tc * npt,
            len >= 1,
            tc >= 1,
    ;
    assert((tc - 1) * per < len) by (nonlinear_arith)
        requires
            (tc - 1) * npt < len,
            per <= npt,
            tc >= 1,
            per >= 1,
    ;
}

/// The threads of a clip split its `len` hits into consecutive, non-empty
/// runs of at most `npt` hits, from the first hit to the last.
pub proof fn lemma_chunks_partition(len: int, npt: int)
    requires
        len >= 1,
        npt >= 1,
    ensures
        thread_count(len, npt) >= 1,
        chunk_start(len, npt, 0) == 0,
        chunk_end(len, npt, thread_count(len, npt) - 1) == len,
        forall|i: int|
            0 <= i < thread_count(len, npt) ==> 0 <= #[trigger] chunk_start(len, npt, i) < chunk_end(len, npt, i)
                <= len && chunk_end(len, npt, i) - chunk_start(len, npt, i) <= npt,
        forall|i: int|
            0 <= i < thread_count(len, npt) - 1 ==> #[trigger] chunk_end(len, npt, i) == chunk_start(len, npt, i + 1),
{
    lemma_chunk_arith(len, npt);
    let tc = thread_count(len, npt);
    let per = chunk_size(len, npt);
    assert(chunk_start(len, npt, 0) == 0);
    assert forall|i: int| 0 <= i < tc implies 0 <= #[trigger] chunk_start(len, npt, i) < chunk_end(len, npt, i) <= len
        && chunk_end(len, npt, i) - chunk_start(len, npt, i) <= npt by {
        assert(0 <= i * per <= (tc - 1) * per) by (nonlinear_arith)
            requires
                0 <= i < tc,
                per >= 1,
        ;
        assert((i + 1) * per == i * per + per) by (nonlinear_arith);
        if i == tc - 1 {
            assert(len - (tc - 1) * per <= per) by (nonlinear_arith)
                requires
                    len <= tc * per,
            ;
        }
    }
    assert forall|i: int| 0 <= i < tc - 1 implies #[trigger] chunk_end(len, npt, i) == chunk_start(len, npt, i + 1) by {
        assert((i + 1) * per <= (tc - 1) * per) by (nonlinear_arith)
            requires
                0 <= i < tc - 1,
                per >= 1,
        ;
    }
}

proof fn lemma_keys_have_notes(notes: Seq<(Seq<char>, u32)>, k: Seq<char>)
    requires
        clip_keys(note_names(notes)).contains(k),
    ensures
        times_for(notes, k).len() > 0,
    decreases notes.len(),
{
    let p = notes.drop_last();
    assert(note_names(p) =~= note_names(notes).drop_last());
    if notes.last().0 != k {
        assert(clip_keys(note_names(p)).contains(k));
        lemma_keys_have_notes(p, k);
    }
}

impl Timing {
    /// Every clip in the hit list has at least one time.
    pub open spec fn wf(&self) -> bool {
        forall|i: int| 0 <= i < self.single@.len() ==> (#[trigger] self.single@[i]).1@.len() > 0
    }
}

/// A timetable built from notes and holds lists at least one time for each
/// clip with hits.
pub proof fn lemma_built_timing_wf(t: Timing, notes: Seq<(Seq<char>, u32)>, holds: Seq<(Seq<char>, u32, u32)>)
    requires
        timing_of(t, notes, holds),
    ensures
        t.wf(),
{
    let nk = clip_keys(note_names(notes));
    assert forall|i: int| 0 <= i < t.single@.len() implies (#[trigger] t.single@[i]).1@.len() > 0 by {
        assert(nk.contains(nk[i]));
        lemma_keys_have_notes(notes, nk[i]);
        lemma_single_times_increasing(notes, nk[i]);
    }
}

/// The work of a synthesis thread: hits to place, or hold intervals to fill.
pub enum Work {
    Hits(Vec<u32>),
    Holds(Vec<(u32, u32)>),
}

/// A synthesis thread: its id, its canonical clip, the sound it places, and
/// its work.
pub struct Job {
    pub id: String,
    pub clip: String,
    pub sound: Sound,
    pub work: Work,
}

/// All synthesis threads, and the list of (id, info) that is reported first.
pub struct SynthesisPlan {
    pub jobs: Vec<Job>,
    pub threads: Vec<(String, ThreadInfo)>,
}

/// Abstract value of a thread's work.
pub ghost enum PlannedWork {
    Hits(Seq<u32>),
    Holds(Seq<(u32, u32)>),
}

/// Abstract value of a thread, without its sound.
pub ghost struct PlannedJob {
    pub id: Seq<char>,
    pub clip: Seq<char>,
    pub work: PlannedWork,
}

/// The amount of work of a thread.
pub open spec fn work_len(w: PlannedWork) -> int {
    match w {
        PlannedWork::Hits(h) => h.len() as int,
        PlannedWork::Holds(h) => h.len() as int,
    }
}

/// Abstract value of a `Job`.
pub open spec fn job_view(j: Job) -> PlannedJob {
    PlannedJob {
        id: j.id@,
        clip: j.clip@,
        work: match j.work {
            Work::Hits(v) => PlannedWork::Hits(v@),
            Work::Holds(v) => PlannedWork::Holds(v@),
        },
    }
}

/// The id of thread `i` of clip `clip`: its display name and `(i + 1)`.
pub open spec fn hit_job_id(clip: Seq<char>, i: int) -> Seq<char> {
    display_name(clip) + " ("@ + decimal((i + 1) as nat) + ")"@
}

/// The threads for the hits `times` of `clip`, at most `npt` hits each.
pub open spec fn hit_jobs(clip: Seq<char>, times: Seq<u32>, npt: int) -> Seq<PlannedJob> {
    let len = times.len() as int;
    Seq::new(
        thread_count(len, npt) as nat,
        |i: int|
            PlannedJob {
                id: hit_job_id(clip, i),
                clip,
                work: PlannedWork::Hits(times.subrange(chunk_start(len, npt, i), chunk_end(len, npt, i))),
            },
    )
}

/// Abstract value of a timetable's hit list.
pub open spec fn singles_view(t: Seq<(String, Vec<u32>)>) -> Seq<(Seq<char>, Seq<u32>)> {
    t.map_values(|e: (String, Vec<u32>)| (e.0@, e.1@))
}

/// Abstract value of a timetable's hold list.
pub open spec fn connects_view(t: Seq<(String, Vec<(u32, u32)>)>) -> Seq<(Seq<char>, Seq<(u32, u32)>)> {
    t.map_values(|e: (String, Vec<(u32, u32)>)| (e.0@, e.1@))
}

/// The hit threads: for each clip in order whose sound the package has, its
/// threads in order; clips without a sound are skipped.
pub open spec fn single_plan(entries: Seq<(Seq<char>, Seq<u32>)>, audio: Seq<(String, Sound)>, npt: int) -> Seq<
    PlannedJob,
>
    decreases entries.len(),
{
    if entries.len() == 0 {
        Seq::empty()
    } else {
        let rest = single_plan(entries.drop_last(), audio, npt);
        let e = entries.last();
        if first_present(audio, canonical_candidates(e.0)) is Some {
            rest + hit_jobs(e.0, e.1, npt)
        } else {
            rest
        }
    }
}

/// The hold threads: one for each clip in order whose sound the package has,
/// named by the clip's display name.
pub open spec fn hold_plan(entries: Seq<(Seq<char>, Seq<(u32, u32)>)>, audio: Seq<(String, Sound)>) -> Seq<PlannedJob>
    decreases entries.len(),
{
    if entries.len() == 0 {
        Seq::empty()
    } else {
        let rest = hold_plan(entries.drop_last(), audio);
        let e = entries.last();
        if first_present(audio, canonical_candidates(e.0)) is Some {
            rest.push(PlannedJob { id: display_name(e.0), clip: e.0, work: PlannedWork::Holds(e.1) })
        } else {
            rest
        }
    }
}

/// The threads of a synthesis: the hit threads, then the hold threads.
pub open spec fn planned_jobs(t: Timing, audio: Seq<(String, Sound)>, npt: int) -> Seq<PlannedJob> {
    single_plan(singles_view(t.single@), audio, npt) + hold_plan(connects_view(t.connect@), audio)
}

/// `plan` holds the threads `jobs`, each with the sound that the package gives
/// its clip, and reports each with its clip's colors and its amount of work.
pub open spec fn plan_matches(plan: SynthesisPlan, jobs: Seq<PlannedJob>, audio: Seq<(String, Sound)>) -> bool {
    &&& plan.jobs@.len() == jobs.len()
    &&& plan.threads@.len() == jobs.len()
    &&& forall|i: int|
        0 <= i < jobs.len() ==> {
            &&& job_view(#[trigger] plan.jobs@[i]) == jobs[i]
            &&& first_present(audio, canonical_candidates(jobs[i].clip)) matches Some(s) && same_sound(
                plan.jobs@[i].sound,
                s,
            )
            &&& plan.threads@[i].0@ == jobs[i].id
            &&& (plan.threads@[i].1.color.fg@, plan.threads@[i].1.color.bg@) == clip_color_spec(jobs[i].clip)
            &&& plan.threads@[i].1.max == work_len(jobs[i].work) as i32
        }
}

fn copy_times(v: &Vec<u32>, start: usize, end: usize) -> (r: Vec<u32>)
    requires
        start <= end <= v.len(),
    ensures
        r@ == v@.subrange(start as int, end as int),
{
    let mut r: Vec<u32> = Vec::new();
    let mut i: usize = start;
    while i < end
        invariant
            start <= i <= end <= v.len(),
            r@ == v@.subrange(start as int, i as int),
        decreases end - i,
    {
        r.push(v[i]);
        i = i + 1;
        assert(r@ =~= v@.subrange(start as int, i as int));
    }
    r
}

fn copy_spans(v: &Vec<(u32, u32)>) -> (r: Vec<(u32, u32)>)
    ensures
        r@ == v@,
{
    let mut r: Vec<(u32, u32)> = Vec::new();
    let mut i: usize = 0;
    while i < v.len()
        invariant
            i <= v.len(),
            r@ == v@.subrange(0, i as int),
        decreases v.len() - i,
    {
        r.push(v[i]);
        i = i + 1;
        assert(r@ =~= v@.subrange(0, i as int));
    }
    assert(v@.subrange(0, v.len() as int) =~= v@);
    r
}

/// The hit threads of one clip, appended to `plan`.
fn plan_hits(
    plan: &mut SynthesisPlan,
    clip: &String,
    times: &Vec<u32>,
    sound: &Sound,
    npt: usize,
    Ghost(audio): Ghost<Seq<(String, Sound)>>,
    Ghost(before): Ghost<Seq<PlannedJob>>,
)
    requires
        times.len() >= 1,
        npt >= 1,
        times.len() + npt <= usize::MAX,
        times.len() + thread_count(times.len() as int, npt as int) <= usize::MAX,
        first_present(audio, canonical_candidates(clip@)) matches Some(s) && same_sound(*sound, s),
        plan_matches(*old(plan), before, audio),
    ensures
        plan_matches(*final(plan), before + hit_jobs(clip@, times@, npt as int), audio),
{
    let len = times.len();
    let tc = (len + npt - 1) / npt;
    proof {
        lemma_chunks_partition(len as int, npt as int);
        lemma_chunk_arith(len as int, npt as int);
    }
    let per = (len + tc - 1) / tc;
    let color = clip_color(clip.as_str());
    let name = clip_display_name(clip.as_str());
    let ghost jobs = hit_jobs(clip@, times@, npt as int);
    let mut i: usize = 0;
    while i < tc
        invariant
            i <= tc,
            tc == thread_count(len as int, npt as int),
            per == chunk_size(len as int, npt as int),
            len == times.len(),
            len >= 1,
            npt >= 1,
            1 <= per <= npt,
            (tc - 1) * per < len,
            jobs == hit_jobs(clip@, times@, npt as int),
            jobs.len() == tc,
            name@ == display_name(clip@),
            (color.fg@, color.bg@) == clip_color_spec(clip@),
            first_present(audio, canonical_candidates(clip@)) matches Some(s) && same_sound(*sound, s),
            forall|k: int|
                0 <= k < tc ==> 0 <= #[trigger] chunk_start(len as int, npt as int, k) < chunk_end(
                    len as int,
                    npt as int,
                    k,
                ) <= len,
            plan_matches(*plan, before + jobs.subrange(0, i as int), audio),
        decreases tc - i,
    {
        assert(i * per <= (tc - 1) * per) by (nonlinear_arith)
            requires
                i <= tc - 1,
                per >= 1,
        ;
        let start = i * per;
        let end = if i == tc - 1 {
            len
        } else {
            assert((i + 1) * per <= (tc - 1) * per) by (nonlinear_arith)
                requires
                    i < tc - 1,
                    per >= 1,
            ;
            let next = (i + 1) * per;
            if next <= len {
                next
            } else {
                len
            }
        };
        assert(start == chunk_start(len as int, npt as int, i as int));
        assert(end == chunk_end(len as int, npt as int, i as int));
        let hits = copy_times(times, start, end);
        let id = concat(concat(name.as_str(), " (").as_str(), decimal_string(i + 1).as_str());
        let id = concat(id.as_str(), ")");
        assert(id@ == hit_job_id(clip@, i as int));
        let count = end - start;
        let ghost prev_jobs = plan.jobs@;
        let ghost prev_threads = plan.threads@;
        plan.jobs.push(Job { id: copy_string(&id), clip: copy_string(clip), sound: sound.clone(), work: Work::Hits(hits) });
        plan.threads.push((id, ThreadInfo { color, max: count as i32 }));
        proof {
            let b = before + jobs.subrange(0, i + 1);
            assert(b =~= (before + jobs.subrange(0, i as int)).push(jobs[i as int]));
            assert(job_view(plan.jobs@[plan.jobs@.len() - 1]) == jobs[i as int]);
            assert forall|k: int| 0 <= k < b.len() implies {
                &&& job_view(#[trigger] plan.jobs@[k]) == b[k]
                &&& first_present(audio, canonical_candidates(b[k].clip)) matches Some(s) && same_sound(
                    plan.jobs@[k].sound,
                    s,
                )
                &&& plan.threads@[k].0@ == b[k].id
                &&& (plan.threads@[k].1.color.fg@, plan.threads@[k].1.color.bg@) == clip_color_spec(b[k].clip)
                &&& plan.threads@[k].1.max == work_len(b[k].work) as i32
            } by {
                if k < prev_jobs.len() {
                    assert(plan.jobs@[k] == prev_jobs[k]);
                    assert(plan.threads@[k] == prev_threads[k]);
                }
            }
        }
        i = i + 1;
    }
    assert(jobs.subrange(0, tc as int) =~= jobs);
}

/// One hold thread for a clip, appended to `plan`.
fn plan_holds(
    plan: &mut SynthesisPlan,
    clip: &String,
    spans: &Vec<(u32, u32)>,
    sound: &Sound,
    Ghost(audio): Ghost<Seq<(String, Sound)>>,
    Ghost(before): Ghost<Seq<PlannedJob>>,
)
    requires
        first_present(audio, canonical_candidates(clip@)) matches Some(s) && same_sound(*sound, s),
        plan_matches(*old(plan), before, audio),
    ensures
        plan_matches(
            *final(plan),
            before.push(PlannedJob { id: display_name(clip@), clip: clip@, work: PlannedWork::Holds(spans@) }),
            audio,
        ),
{
    let color = clip_color(clip.as_str());
    let id = clip_display_name(clip.as_str());
    let count = spans.len();
    let ghost prev_jobs = plan.jobs@;
    let ghost prev_threads = plan.threads@;
    let ghost b = before.push(PlannedJob { id: display_name(clip@), clip: clip@, work: PlannedWork::Holds(spans@) });
    plan.jobs.push(Job { id: copy_string(&id), clip: copy_string(clip), sound: sound.clone(), work: Work::Holds(copy_spans(spans)) });
    plan.threads.push((id, ThreadInfo { color, max: count as i32 }));
    proof {
        assert forall|k: int| 0 <= k < b.len() implies {
            &&& job_view(#[trigger] plan.jobs@[k]) == b[k]
            &&& first_present(audio, canonical_candidates(b[k].clip)) matches Some(s) && same_sound(
                plan.jobs@[k].sound,
                s,
            )
            &&& plan.threads@[k].0@ == b[k].id
            &&& (plan.threads@[k].1.color.fg@, plan.threads@[k].1.color.bg@) == clip_color_spec(b[k].clip)
            &&& plan.threads@[k].1.max == work_len(b[k].work) as i32
        } by {
            if k < prev_jobs.len() {
                assert(plan.jobs@[k] == prev_jobs[k]);
                assert(plan.threads@[k] == prev_threads[k]);
            }
        }
    }
}

/// Lays out the synthesis threads: for each clip with hits whose sound the
/// package holds (see `resolve_sound`), its hits split into
/// `ceil(n / notes_per_thread)` threads of even size; then one thread for each
/// clip with holds whose sound the package holds. Clips whose sound is missing
/// are skipped.
pub fn plan_synthesis(timing: &Timing, effect: &Effect, notes_per_thread: usize) -> (plan: SynthesisPlan)
    requires
        timing.wf(),
        notes_per_thread >= 1,
        forall|i: int|
            0 <= i < timing.single@.len() ==> (#[trigger] timing.single@[i]).1.len() + notes_per_thread <= usize::MAX
                && timing.single@[i].1.len() + thread_count(timing.single@[i].1.len() as int, notes_per_thread as int)
                <= usize::MAX,
    ensures
        plan_matches(plan, planned_jobs(*timing, effect@, notes_per_thread as int), effect@),
{
    let ghost audio = effect@;
    let ghost sv = singles_view(timing.single@);
    let ghost cv = connects_view(timing.connect@);
    let mut plan = SynthesisPlan { jobs: Vec::new(), threads: Vec::new() };
    let mut i: usize = 0;
    while i < timing.single.len()
        invariant
            i <= timing.single.len(),
            audio == effect@,
            sv == singles_view(timing.single@),
            timing.wf(),
            notes_per_thread >= 1,
            forall|i: int|
            0 <= i < timing.single@.len() ==> (#[trigger] timing.single@[i]).1.len() + notes_per_thread <= usize::MAX
                && timing.single@[i].1.len() + thread_count(timing.single@[i].1.len() as int, notes_per_thread as int)
                <= usize::MAX,
            plan_matches(plan, single_plan(sv.subrange(0, i as int), audio, notes_per_thread as int), audio),
        decreases timing.single.len() - i,
    {
        let entry = &timing.single[i];
        proof {
            assert(sv.subrange(0, i + 1).drop_last() =~= sv.subrange(0, i as int));
            assert(sv.subrange(0, i + 1).last() == (entry.0@, entry.1@));
        }
        match resolve_sound(effect, entry.0.as_str()) {
            Some(sound) => {
                plan_hits(&mut plan, &entry.0, &entry.1, &sound, notes_per_thread, Ghost(audio), Ghost(single_plan(sv.subrange(0, i as int), audio, notes_per_thread as int)));
            },
            None => {},
        }
        i = i + 1;
    }
    assert(sv.subrange(0, sv.len() as int) =~= sv);
    let ghost singles = single_plan(sv, audio, notes_per_thread as int);
    let mut j: usize = 0;
    assert(singles + hold_plan(cv.subrange(0, 0), audio) =~= singles);
    while j < timing.connect.len()
        invariant
            j <= timing.connect.len(),
            audio == effect@,
            cv == connects_view(timing.connect@),
            plan_matches(plan, singles + hold_plan(cv.subrange(0, j as int), audio), audio),
        decreases timing.connect.len() - j,
    {
        let entry = &timing.connect[j];
        proof {
            assert(cv.subrange(0, j + 1).drop_last() =~= cv.subrange(0, j as int));
            assert(cv.subrange(0, j + 1).last() == (entry.0@, entry.1@));
        }
        match resolve_sound(effect, entry.0.as_str()) {
            Some(sound) => {
                plan_holds(&mut plan, &entry.0, &entry.1, &sound, Ghost(audio), Ghost(singles + hold_plan(cv.subrange(0, j as int), audio)));
                proof {
                    assert(singles + hold_plan(cv.subrange(0, j + 1), audio) =~= (singles + hold_plan(cv.subrange(0, j as int), audio)).push(
                        PlannedJob { id: display_name(entry.0@), clip: entry.0@, work: PlannedWork::Holds(entry.1@) },
                    ));
                }
            },
            None => {},
        }
        j = j + 1;
    }
    assert(cv.subrange(0, cv.len() as int) =~= cv);
    plan
}

/// The hits of a list of threads, one thread after the other.
pub open spec fn joined_hits(jobs: Seq<PlannedJob>) -> Seq<u32>
    decreases jobs.len(),
{
    if jobs.len() == 0 {
        Seq::empty()
    } else {
        joined_hits(jobs.drop_last()) + match jobs.last().work {
            PlannedWork::Hits(h) => h,
            PlannedWork::Holds(_) => Seq::empty(),
        }
    }
}

/// A clip with `len` hits gets `ceil(len / npt)` threads, named by its
/// display name and `(1)`, `(2)`, ...; each places between one and `npt` of
/// its hits, and together, one thread after the other, they place each hit
/// exactly once and in order, so their amounts of work add up to `len`.
pub proof fn lemma_hit_jobs_cover(clip: Seq<char>, times: Seq<u32>, npt: int)
    requires
        times.len() >= 1,
        npt >= 1,
    ensures
        hit_jobs(clip, times, npt).len() == (times.len() + npt - 1) / npt,
        joined_hits(hit_jobs(clip, times, npt)) == times,
        joined_hits(hit_jobs(clip, times, npt)).len() == times.len(),
        forall|i: int|
            0 <= i < hit_jobs(clip, times, npt).len() ==> {
                &&& 1 <= work_len(#[trigger] hit_jobs(clip, times, npt)[i].work) <= npt
                &&& hit_jobs(clip, times, npt)[i].id == hit_job_id(clip, i)
                &&& hit_jobs(clip, times, npt)[i].clip == clip
            },
{
    let len = times.len() as int;
    let jobs = hit_jobs(clip, times, npt);
    let tc = thread_count(len, npt);
    lemma_chunks_partition(len, npt);
    assert forall|k: int| 1 <= k <= tc implies #[trigger] joined_hits(jobs.subrange(0, k)) == times.subrange(
        0,
        chunk_end(len, npt, k - 1),
    ) by {
        lemma_joined_prefix(clip, times, npt, k);
    }
    assert(jobs.subrange(0, tc) =~= jobs);
    assert(times.subrange(0, len) =~= times);
    assert forall|i: int| 0 <= i < jobs.len() implies {
        &&& 1 <= work_len(#[trigger] jobs[i].work) <= npt
        &&& jobs[i].id == hit_job_id(clip, i)
        &&& jobs[i].clip == clip
    } by {
        assert(0 <= chunk_start(len, npt, i) < chunk_end(len, npt, i) <= len);
    }
}

#[verifier::rlimit(40)]
#[verifier::spinoff_prover]
proof fn lemma_joined_prefix(clip: Seq<char>, times: Seq<u32>, npt: int, k: int)
    requires
        times.len() >= 1,
        npt >= 1,
        1 <= k <= thread_count(times.len() as int, npt),
    ensures
        joined_hits(hit_jobs(clip, times, npt).subrange(0, k)) == times.subrange(
            0,
            chunk_end(times.len() as int, npt, k - 1),
        ),
    decreases k,
{
    let len = times.len() as int;
    let jobs = hit_jobs(clip, times, npt);
    lemma_chunks_partition(len, npt);
    let p = jobs.subrange(0, k);
    assert(p.drop_last() =~= jobs.subrange(0, k - 1));
    assert(p.last() == jobs[k - 1]);
    assert(0 <= chunk_start(len, npt, k - 1) < chunk_end(len, npt, k - 1) <= len);
    if k == 1 {
        assert(jobs.subrange(0, 0) =~= Seq::<PlannedJob>::empty());
        assert(chunk_start(len, npt, 0) == 0);
        assert(joined_hits(jobs.subrange(0, 0)) =~= Seq::<u32>::empty());
        assert(joined_hits(p) =~= times.subrange(0, chunk_end(len, npt, 0)));
    } else {
        lemma_joined_prefix(clip, times, npt, k - 1);
        assert(chunk_end(len, npt, k - 2) == chunk_start(len, npt, k - 1));
        assert(0 <= chunk_start(len, npt, k - 2) < chunk_end(len, npt, k - 2) <= len);
        assert(joined_hits(p) =~= times.subrange(0, chunk_end(len, npt, k - 1)));
    }
}

proof fn lemma_single_plan_prefix(entries: Seq<(Seq<char>, Seq<u32>)>, audio: Seq<(String, Sound)>, npt: int, i: int)
    requires
        0 <= i <= entries.len(),
    ensures
        single_plan(entries.subrange(0, i), audio, npt).len() <= single_plan(entries, audio, npt).len(),
        single_plan(entries, audio, npt).subrange(0, single_plan(entries.subrange(0, i), audio, npt).len() as int)
            == single_plan(entries.subrange(0, i), audio, npt),
    decreases entries.len(),
{
    let full = single_plan(entries, audio, npt);
    if i == entries.len() {
        assert(entries.subrange(0, i) =~= entries);
        assert(full.subrange(0, full.len() as int) =~= full);
    } else {
        let d = entries.drop_last();
        assert(d.subrange(0, i) =~= entries.subrange(0, i));
        lemma_single_plan_prefix(d, audio, npt, i);
        let rest = single_plan(d, audio, npt);
        let p = single_plan(entries.subrange(0, i), audio, npt);
        assert(full.subrange(0, rest.len() as int) =~= rest);
        assert(full.subrange(0, p.len() as int) =~= rest.subrange(0, p.len() as int));
    }
}

proof fn lemma_hold_plan_prefix(entries: Seq<(Seq<char>, Seq<(u32, u32)>)>, audio: Seq<(String, Sound)>, i: int)
    requires
        0 <= i <= entries.len(),
    ensures
        hold_plan(entries.subrange(0, i), audio).len() <= hold_plan(entries, audio).len(),
        hold_plan(entries, audio).subrange(0, hold_plan(entries.subrange(0, i), audio).len() as int) == hold_plan(
            entries.subrange(0, i),
            audio,
        ),
    decreases entries.len(),
{
    let full = hold_plan(entries, audio);
    if i == entries.len() {
        assert(entries.subrange(0, i) =~= entries);
        assert(full.subrange(0, full.len() as int) =~= full);
    } else {
        let d = entries.drop_last();
        assert(d.subrange(0, i) =~= entries.subrange(0, i));
        lemma_hold_plan_prefix(d, audio, i);
        let rest = hold_plan(d, audio);
        let p = hold_plan(entries.subrange(0, i), audio);
        assert(full.subrange(0, rest.len() as int) =~= rest);
        assert(full.subrange(0, p.len() as int) =~= rest.subrange(0, p.len() as int));
    }
}

/// The hit threads of a timetable's clip: when the package has a sound for
/// clip `k`, hit `i` of the timetable with `L` times, the synthesis has, right
/// after the threads of the clips listed before it, `ceil(L / npt)` threads of
/// `k`, named by its display name and `(1)`, `(2)`, ..., each placing between
/// one and `npt` of its times, together each time once and in order.
pub proof fn lemma_plan_hit_threads(t: Timing, audio: Seq<(String, Sound)>, npt: int, i: int)
    requires
        t.wf(),
        npt >= 1,
        0 <= i < t.single@.len(),
        first_present(audio, canonical_candidates(t.single@[i].0@)) is Some,
    ensures
        ({
            let e = singles_view(t.single@);
            let jobs = planned_jobs(t, audio, npt);
            let o = single_plan(e.subrange(0, i), audio, npt).len() as int;
            let k = t.single@[i].0@;
            let ts = t.single@[i].1@;
            let c = (ts.len() + npt - 1) / npt;
            &&& o + c <= jobs.len()
            &&& jobs.subrange(o, o + c) == hit_jobs(k, ts, npt)
            &&& joined_hits(jobs.subrange(o, o + c)) == ts
            &&& forall|j: int|
                0 <= j < c ==> {
                    &&& (#[trigger] jobs[o + j]).id == hit_job_id(k, j)
                    &&& jobs[o + j].clip == k
                    &&& 1 <= work_len(jobs[o + j].work) <= npt
                }
        }),
{
    let e = singles_view(t.single@);
    let jobs = planned_jobs(t, audio, npt);
    let k = t.single@[i].0@;
    let ts = t.single@[i].1@;
    assert(e[i] == (k, ts));
    let hj = hit_jobs(k, ts, npt);
    lemma_hit_jobs_cover(k, ts, npt);
    let pre = e.subrange(0, i);
    let upto = e.subrange(0, i + 1);
    assert(upto.drop_last() =~= pre);
    assert(upto.last() == e[i]);
    let sp_pre = single_plan(pre, audio, npt);
    let sp_upto = single_plan(upto, audio, npt);
    assert(sp_upto == sp_pre + hj);
    lemma_single_plan_prefix(e, audio, npt, i + 1);
    let sp = single_plan(e, audio, npt);
    let o = sp_pre.len() as int;
    let c = hj.len() as int;
    assert(jobs == sp + hold_plan(connects_view(t.connect@), audio));
    assert(jobs.subrange(o, o + c) =~= sp_upto.subrange(o, o + c));
    assert(sp_upto.subrange(o, o + c) =~= hj);
    assert forall|j: int| 0 <= j < c implies {
        &&& (#[trigger] jobs[o + j]).id == hit_job_id(k, j)
        &&& jobs[o + j].clip == k
        &&& 1 <= work_len(jobs[o + j].work) <= npt
    } by {
        assert(jobs[o + j] == jobs.subrange(o, o + c)[j]);
        assert(hj[j] == jobs[o + j]);
    }
}

/// The hold thread of a timetable's clip: when the package has a sound for
/// clip `k`, hold entry `i` of the timetable, the synthesis has, after all hit
/// threads and the hold threads of the clips listed before it, one thread
/// named by `k`'s display name that plays all of `k`'s intervals.
pub proof fn lemma_plan_hold_thread(t: Timing, audio: Seq<(String, Sound)>, npt: int, i: int)
    requires
        0 <= i < t.connect@.len(),
        first_present(audio, canonical_candidates(t.connect@[i].0@)) is Some,
    ensures
        ({
            let e = connects_view(t.connect@);
            let jobs = planned_jobs(t, audio, npt);
            let o = (single_plan(singles_view(t.single@), audio, npt).len() + hold_plan(e.subrange(0, i), audio).len()) as int;
            &&& o < jobs.len()
            &&& jobs[o] == (PlannedJob {
                id: display_name(t.connect@[i].0@),
                clip: t.connect@[i].0@,
                work: PlannedWork::Holds(t.connect@[i].1@),
            })
            &&& work_len(jobs[o].work) == t.connect@[i].1@.len()
        }),
{
    let e = connects_view(t.connect@);
    let jobs = planned_jobs(t, audio, npt);
    let sp = single_plan(singles_view(t.single@), audio, npt);
    let hp = hold_plan(e, audio);
    assert(e[i] == (t.connect@[i].0@, t.connect@[i].1@));
    let pre = e.subrange(0, i);
    let upto = e.subrange(0, i + 1);
    assert(upto.drop_last() =~= pre);
    assert(upto.last() == e[i]);
    lemma_hold_plan_prefix(e, audio, i + 1);
    let hp_pre = hold_plan(pre, audio);
    let hp_upto = hold_plan(upto, audio);
    assert(hp_upto.len() == hp_pre.len() + 1);
    assert(hp[hp_pre.len() as int] == hp.subrange(0, hp_upto.len() as int)[hp_pre.len() as int]);
    assert(jobs == sp + hp);
    assert(jobs[(sp.len() + hp_pre.len()) as int] == hp[hp_pre.len() as int]);
}

/// Each hold starts before it ends, and each one after the first starts at
/// the instant the one before it ends: the segments of one slide.
pub open spec fn chained(holds: Seq<(Seq<char>, u32, u32)>) -> bool {
    &&& forall|i: int| 0 <= i < holds.len() ==> time_order((#[trigger] holds[i]).1) < time_order(holds[i].2)
    &&& forall|i: int|
        0 <= i < holds.len() - 1 ==> time_order((#[trigger] holds[i]).2) == time_order(holds[i + 1].1)
}

proof fn lemma_chain_groups(holds: Seq<(Seq<char>, u32, u32)>, k: Seq<char>)
    requires
        holds.len() >= 1,
        forall|i: int| 0 <= i < holds.len() ==> (#[trigger] holds[i]).0 == k,
        chained(holds),
    ensures
        changes_for(holds, k).len() == 2 * holds.len(),
        changes_for(holds, k).last() == (holds.last().2, -1i32),
        ({
            let g = group_runs(changes_for(holds, k));
            let n = holds.len() as int;
            &&& g.len() == n + 1
            &&& g[0] == (holds[0].1, 1i64)
            &&& forall|i: int| 1 <= i < n ==> #[trigger] g[i] == (holds[i - 1].2, 0i64)
            &&& g[n] == (holds[n - 1].2, -1i64)
        }),
    decreases holds.len(),
{
    let n = holds.len() as int;
    let h = holds.last();
    let p = holds.drop_last();
    assert(h == holds[n - 1]);
    assert(time_order(h.1) < time_order(h.2));
    let c = changes_for(holds, k);
    let cp = changes_for(p, k);
    let c1 = cp.push((h.1, 1i32));
    assert(c == c1.push((h.2, -1i32)));
    assert(c1.push((h.2, -1i32)).drop_last() == c1);
    assert(c1.drop_last() == cp);
    if n == 1 {
        assert(cp.len() == 0);
        assert(group_runs(cp) =~= Seq::<(u32, i64)>::empty());
        assert(group_runs(c1) =~= seq![(h.1, 1i64)]);
        assert(group_runs(c) =~= seq![(h.1, 1i64), (h.2, -1i64)]);
    } else {
        assert forall|i: int| 0 <= i < p.len() implies (#[trigger] p[i]).0 == k by {
            assert(p[i] == holds[i]);
        }
        assert(chained(p)) by {
            assert forall|i: int| 0 <= i < p.len() implies time_order((#[trigger] p[i]).1) < time_order(p[i].2) by {
                assert(p[i] == holds[i]);
            }
            assert forall|i: int| 0 <= i < p.len() - 1 implies time_order((#[trigger] p[i]).2) == time_order(
                p[i + 1].1,
            ) by {
                assert(p[i] == holds[i] && p[i + 1] == holds[i + 1]);
            }
        }
        lemma_chain_groups(p, k);
        let gp = group_runs(cp);
        assert(p.last() == holds[n - 2]);
        assert(time_order(holds[n - 2].2) == time_order(holds[n - 1].1));
        assert(c1[c1.len() - 2] == cp.last());
        let g1 = gp.update(gp.len() - 1, (gp.last().0, (gp.last().1 + 1i32) as i64));
        assert(group_runs(c1) == g1);
        assert(c[c.len() - 2] == (h.1, 1i32));
        let g = g1.push((h.2, -1i64));
        assert(group_runs(c) == g);
        assert(g[0] == (holds[0].1, 1i64)) by {
            if n == 2 {
                assert(gp.len() == 2);
            }
            assert(p[0] == holds[0]);
        }
        assert forall|i: int| 1 <= i < n implies #[trigger] g[i] == (holds[i - 1].2, 0i64) by {
            if i < n - 1 {
                assert(g[i] == gp[i]);
                assert(p[i - 1] == holds[i - 1]);
            } else {
                assert(g[i] == g1[n - 1]);
                assert(gp[n - 1] == (p[n - 2].2, -1i64));
                assert(p[n - 2] == holds[n - 2]);
            }
        }
    }
}

proof fn lemma_chain_sweep(g: Seq<(u32, i64)>, s0: u32, m: int)
    requires
        g.len() >= 2,
        1 <= m <= g.len() - 1,
        g[0] == (s0, 1i64),
        forall|i: int| 1 <= i < g.len() - 1 ==> (#[trigger] g[i]).1 == 0,
    ensures
        sweep(g.subrange(0, m)) == Some((1int, seq![(s0, OPEN_END)])),
    decreases m,
{
    let q = g.subrange(0, m);
    assert(q.last() == g[m - 1]);
    if m == 1 {
        assert(q.drop_last() =~= Seq::<(u32, i64)>::empty());
        assert(sweep(q) == sweep_step(Some((0int, Seq::<(u32, u32)>::empty())), g[0]));
        assert(Seq::<(u32, u32)>::empty().push((s0, OPEN_END)) =~= seq![(s0, OPEN_END)]);
    } else {
        assert(q.drop_last() =~= g.subrange(0, m - 1));
        lemma_chain_sweep(g, s0, m - 1);
        assert(g[m - 1].1 == 0);
    }
}

/// The holds of one clip that form a chain (each starts where the one before
/// it ends) merge into one interval, from the first start to the last end,
/// and a timetable built from them gives the clip exactly that interval.
pub proof fn lemma_chained_holds_merge(
    holds: Seq<(Seq<char>, u32, u32)>,
    k: Seq<char>,
    t: Timing,
    notes: Seq<(Seq<char>, u32)>,
)
    requires
        holds.len() >= 1,
        forall|i: int| 0 <= i < holds.len() ==> (#[trigger] holds[i]).0 == k,
        chained(holds),
        time_order(holds.last().2) != time_order(OPEN_END),
    ensures
        merged_spans(changes_for(holds, k)) == Some(seq![(holds[0].1, holds.last().2)]),
        timing_of(t, notes, holds) ==> forall|i: int|
            0 <= i < t.connect@.len() && (#[trigger] t.connect@[i]).0@ == k ==> t.connect@[i].1@ == seq![
                (holds[0].1, holds.last().2),
            ],
{
    let n = holds.len() as int;
    lemma_chain_groups(holds, k);
    let g = group_runs(changes_for(holds, k));
    assert(holds.last() == holds[n - 1]);
    // the group times increase strictly, so sorting keeps the groups in place
    assert forall|i: int| 0 <= i < n implies time_order((#[trigger] g[i]).0) < time_order(g[i + 1].0) by {
        if i == 0 {
            assert(time_order(holds[0].1) < time_order(holds[0].2));
        } else {
            assert(time_order(holds[i - 1].2) == time_order(holds[i].1));
            assert(time_order(holds[i].1) < time_order(holds[i].2));
        }
    }
    assert(sorted_by_time(g)) by {
        assert forall|i: int, j: int| 0 <= i <= j < g.len() implies time_order(#[trigger] g[i].0) <= time_order(
            #[trigger] g[j].0,
        ) by {
            lemma_increasing_le(g, i, j);
        }
    }
    lemma_sort_of_sorted(g);
    lemma_chain_sweep(g, holds[0].1, n);
    assert(g.subrange(0, n + 1) =~= g);
    assert(g.subrange(0, n + 1).drop_last() =~= g.subrange(0, n));
    assert(sweep(g) == sweep_step(Some((1int, seq![(holds[0].1, OPEN_END)])), g[n]));
    assert(seq![(holds[0].1, OPEN_END)].update(0, (holds[0].1, holds.last().2)) =~= seq![
        (holds[0].1, holds.last().2),
    ]);
}

/// Each hold starts before it ends and ends before the next one starts:
/// holds apart from one another, in time order.
pub open spec fn separated(holds: Seq<(Seq<char>, u32, u32)>) -> bool {
    &&& forall|i: int| 0 <= i < holds.len() ==> time_order((#[trigger] holds[i]).1) < time_order(holds[i].2)
    &&& forall|i: int|
        0 <= i < holds.len() - 1 ==> time_order((#[trigger] holds[i]).2) < time_order(holds[i + 1].1)
}

proof fn lemma_separated_groups(holds: Seq<(Seq<char>, u32, u32)>, k: Seq<char>)
    requires
        forall|i: int| 0 <= i < holds.len() ==> (#[trigger] holds[i]).0 == k,
        separated(holds),
    ensures
        ({
            let g = group_runs(changes_for(holds, k));
            &&& changes_for(holds, k).len() == 2 * holds.len()
            &&& holds.len() > 0 ==> changes_for(holds, k).last() == (holds.last().2, -1i32)
            &&& g.len() == 2 * holds.len()
            &&& forall|i: int|
                0 <= i < holds.len() ==> #[trigger] g[2 * i] == (holds[i].1, 1i64) && g[2 * i + 1] == (
                    holds[i].2,
                    -1i64,
                )
        }),
    decreases holds.len(),
{
    if holds.len() > 0 {
        let n = holds.len() as int;
        let h = holds.last();
        let p = holds.drop_last();
        assert(h == holds[n - 1]);
        assert forall|i: int| 0 <= i < p.len() implies (#[trigger] p[i]).0 == k by {
            assert(p[i] == holds[i]);
        }
        assert(separated(p)) by {
            assert forall|i: int| 0 <= i < p.len() implies time_order((#[trigger] p[i]).1) < time_order(p[i].2) by {
                assert(p[i] == holds[i]);
            }
            assert forall|i: int| 0 <= i < p.len() - 1 implies time_order((#[trigger] p[i]).2) < time_order(
                p[i + 1].1,
            ) by {
                assert(p[i] == holds[i] && p[i + 1] == holds[i + 1]);
            }
        }
        lemma_separated_groups(p, k);
        let cp = changes_for(p, k);
        let c1 = cp.push((h.1, 1i32));
        let c = changes_for(holds, k);
        assert(c == c1.push((h.2, -1i32)));
        assert(c1.push((h.2, -1i32)).drop_last() == c1);
        assert(c1.drop_last() == cp);
        let gp = group_runs(cp);
        if n > 1 {
            assert(p.last() == holds[n - 2]);
            assert(c1[c1.len() - 2] == cp.last());
            assert(time_order(holds[n - 2].2) < time_order(holds[n - 1].1));
        }
        assert(group_runs(c1) == gp.push((h.1, 1i64)));
        assert(c[c.len() - 2] == (h.1, 1i32));
        assert(time_order(h.1) < time_order(h.2));
        let g = gp.push((h.1, 1i64)).push((h.2, -1i64));
        assert(group_runs(c) == g);
        assert forall|i: int| 0 <= i < n implies #[trigger] g[2 * i] == (holds[i].1, 1i64) && g[2 * i + 1] == (
            holds[i].2,
            -1i64,
        ) by {
            if i < n - 1 {
                assert(p[i] == holds[i]);
                assert(gp[2 * i] == (p[i].1, 1i64));
            }
        }
    }
}

proof fn lemma_separated_sweep(g: Seq<(u32, i64)>, holds: Seq<(Seq<char>, u32, u32)>, m: int)
    requires
        g.len() == 2 * holds.len(),
        0 <= m <= holds.len(),
        forall|i: int|
            0 <= i < holds.len() ==> #[trigger] g[2 * i] == (holds[i].1, 1i64) && g[2 * i + 1] == (holds[i].2, -1i64),
    ensures
        sweep(g.subrange(0, 2 * m)) == Some((0int, holds.subrange(0, m).map_values(
            |h: (Seq<char>, u32, u32)| (h.1, h.2),
        ))),
        m < holds.len() ==> sweep(g.subrange(0, 2 * m + 1)) == Some((1int, holds.subrange(0, m).map_values(
            |h: (Seq<char>, u32, u32)| (h.1, h.2),
        ).push((holds[m].1, OPEN_END)))),
    decreases m,
{
    let sp = holds.subrange(0, m).map_values(|h: (Seq<char>, u32, u32)| (h.1, h.2));
    if m == 0 {
        assert(g.subrange(0, 0) =~= Seq::<(u32, i64)>::empty());
        assert(sp =~= Seq::<(u32, u32)>::empty());
    } else {
        lemma_separated_sweep(g, holds, m - 1);
        let sq = holds.subrange(0, m - 1).map_values(|h: (Seq<char>, u32, u32)| (h.1, h.2));
        assert(g[2 * (m - 1)] == (holds[m - 1].1, 1i64));
        let q = g.subrange(0, 2 * m);
        assert(q.drop_last() =~= g.subrange(0, 2 * m - 1));
        assert(q.last() == g[2 * (m - 1) + 1]);
        assert(sq.push((holds[m - 1].1, OPEN_END)).update(sq.len() as int, (holds[m - 1].1, holds[m - 1].2)) =~= sp);
    }
    if m < holds.len() {
        let q = g.subrange(0, 2 * m + 1);
        assert(q.drop_last() =~= g.subrange(0, 2 * m));
        assert(q.last() == g[2 * m]);
    }
}

/// The holds of one clip that lie apart from one another, in time order,
/// stay apart: each becomes its own interval, from its start to its end, and
/// a timetable built from them gives the clip exactly those intervals.
pub proof fn lemma_separated_holds_merge(
    holds: Seq<(Seq<char>, u32, u32)>,
    k: Seq<char>,
    t: Timing,
    notes: Seq<(Seq<char>, u32)>,
)
    requires
        holds.len() >= 1,
        forall|i: int| 0 <= i < holds.len() ==> (#[trigger] holds[i]).0 == k,
        separated(holds),
        time_order(holds.last().2) != time_order(OPEN_END),
    ensures
        merged_spans(changes_for(holds, k)) == Some(holds.map_values(|h: (Seq<char>, u32, u32)| (h.1, h.2))),
        timing_of(t, notes, holds) ==> forall|i: int|
            0 <= i < t.connect@.len() && (#[trigger] t.connect@[i]).0@ == k ==> t.connect@[i].1@ == holds.map_values(
                |h: (Seq<char>, u32, u32)| (h.1, h.2),
            ),
{
    let n = holds.len() as int;
    lemma_separated_groups(holds, k);
    let g = group_runs(changes_for(holds, k));
    assert forall|a: int| 0 <= a < g.len() - 1 implies time_order((#[trigger] g[a]).0) < time_order(g[a + 1].0) by {
        let i = a / 2;
        if a % 2 == 0 {
            assert(a == 2 * i);
            assert(g[2 * i] == (holds[i].1, 1i64));
            assert(time_order(holds[i].1) < time_order(holds[i].2));
        } else {
            assert(a == 2 * i + 1);
            assert(g[2 * (i + 1)] == (holds[i + 1].1, 1i64));
            assert(g[2 * i] == (holds[i].1, 1i64));
            assert(time_order(holds[i].2) < time_order(holds[i + 1].1));
        }
    }
    assert(sorted_by_time(g)) by {
        assert forall|i: int, j: int| 0 <= i <= j < g.len() implies time_order(#[trigger] g[i].0) <= time_order(
            #[trigger] g[j].0,
        ) by {
            lemma_increasing_le(g, i, j);
        }
    }
    lemma_sort_of_sorted(g);
    lemma_separated_sweep(g, holds, n);
    assert(g.subrange(0, 2 * n) =~= g);
    assert(holds.subrange(0, n) =~= holds);
    let sp = holds.map_values(|h: (Seq<char>, u32, u32)| (h.1, h.2));
    assert(sp.last() == (holds.last().1, holds.last().2));
}

proof fn lemma_increasing_le(g: Seq<(u32, i64)>, i: int, j: int)
    requires
        0 <= i <= j < g.len(),
        forall|a: int| 0 <= a < g.len() - 1 ==> time_order((#[trigger] g[a]).0) < time_order(g[a + 1].0),
    ensures
        time_order(g[i].0) <= time_order(g[j].0),
    decreases j - i,
{
    if i < j {
        lemma_increasing_le(g, i, j - 1);
        assert(time_order(g[j - 1].0) < time_order(g[j].0));
    }
}

proof fn lemma_clip_keys_contains(names: Seq<Seq<char>>, k: Seq<char>)
    ensures
        clip_keys(names).contains(k) <==> names.contains(k),
    decreases names.len(),
{
    if names.len() > 0 {
        let p = names.drop_last();
        let x = names.last();
        lemma_clip_keys_contains(p, k);
        let cp = clip_keys(p);
        let c = clip_keys(names);
        if cp.contains(x) {
            assert(c == cp);
        } else {
            assert(c == cp.push(x));
            if cp.contains(k) {
                let w = choose|w: int| 0 <= w < cp.len() && cp[w] == k;
                assert(c[w] == k);
            }
            if k == x {
                assert(c[cp.len() as int] == k);
            }
            if c.contains(k) && k != x {
                let w = choose|w: int| 0 <= w < c.len() && c[w] == k;
                assert(w < cp.len());
                assert(cp[w] == k);
            }
        }
        if p.contains(k) {
            let w = choose|w: int| 0 <= w < p.len() && p[w] == k;
            assert(names[w] == k);
        }
        if k == x {
            assert(names[names.len() - 1] == k);
            if cp.contains(x) {
                assert(p.contains(k));
            }
        }
        if names.contains(k) && k != x {
            let w = choose|w: int| 0 <= w < names.len() && names[w] == k;
            assert(p[w] == k);
        }
    }
}

proof fn lemma_times_for_has_note(notes: Seq<(Seq<char>, u32)>, n: int)
    requires
        0 <= n < notes.len(),
    ensures
        times_for(notes, notes[n].0).contains((notes[n].1, ())),
    decreases notes.len(),
{
    let k = notes[n].0;
    let p = notes.drop_last();
    if n == notes.len() - 1 {
        assert(times_for(notes, k).last() == (notes[n].1, ()));
    } else {
        assert(p[n] == notes[n]);
        lemma_times_for_has_note(p, n);
        let w = choose|w: int| 0 <= w < times_for(p, k).len() && times_for(p, k)[w] == (notes[n].1, ());
        assert(times_for(notes, k)[w] == (notes[n].1, ()));
    }
}

/// Some time of `ts` is at position `x` on the number line.
pub open spec fn has_time(ts: Seq<u32>, x: int) -> bool {
    exists|j: int| 0 <= j < ts.len() && time_order(#[trigger] ts[j]) == x
}

/// Some note of clip `k` is at time position `x`.
pub open spec fn note_at(notes: Seq<(Seq<char>, u32)>, k: Seq<char>, x: int) -> bool {
    exists|n: int| 0 <= n < notes.len() && (#[trigger] notes[n]).0 == k && time_order(notes[n].1) == x
}

/// The clips with hits in a timetable.
pub open spec fn has_single_clip(t: Timing, k: Seq<char>) -> bool {
    exists|i: int| 0 <= i < t.single@.len() && (#[trigger] t.single@[i]).0@ == k
}

/// The clips with holds in a timetable.
pub open spec fn has_connect_clip(t: Timing, k: Seq<char>) -> bool {
    exists|i: int| 0 <= i < t.connect@.len() && (#[trigger] t.connect@[i]).0@ == k
}

/// A built timetable lists exactly the clips that have notes and the clips
/// that have holds; each clip's hit times are strictly increasing and are, as
/// a set of instants, the times of that clip's notes; each clip's hold
/// intervals are non-empty, each starts no later than it ends, and each ends
/// no later than the next starts.
pub proof fn lemma_timing_law(t: Timing, notes: Seq<(Seq<char>, u32)>, holds: Seq<(Seq<char>, u32, u32)>)
    requires
        timing_of(t, notes, holds),
    ensures
        forall|k: Seq<char>| #[trigger] has_single_clip(t, k) <==> note_names(notes).contains(k),
        forall|k: Seq<char>| #[trigger] has_connect_clip(t, k) <==> hold_names(holds).contains(k),
        forall|i: int, x: int|
            0 <= i < t.single@.len() ==> (#[trigger] has_time(t.single@[i].1@, x) <==> note_at(notes, t.single@[i].0@, x)),
        forall|i: int, a: int, b: int|
            0 <= i < t.single@.len() && 0 <= a < b < t.single@[i].1@.len() ==> time_order(
                #[trigger] t.single@[i].1@[a],
            ) < time_order(#[trigger] t.single@[i].1@[b]),
        forall|i: int|
            0 <= i < t.connect@.len() ==> (#[trigger] t.connect@[i]).1@.len() > 0,
        forall|i: int, j: int|
            0 <= i < t.connect@.len() && 0 <= j < t.connect@[i].1@.len() ==> time_order(
                (#[trigger] t.connect@[i].1@[j]).0,
            ) <= time_order(t.connect@[i].1@[j].1) && (j + 1 < t.connect@[i].1@.len() ==> time_order(
                t.connect@[i].1@[j].1,
            ) <= time_order(t.connect@[i].1@[j + 1].0)),
{
    let nk = clip_keys(note_names(notes));
    let hk = clip_keys(hold_names(holds));
    assert forall|k: Seq<char>| #[trigger] has_single_clip(t, k) <==> note_names(notes).contains(k) by {
        lemma_clip_keys_contains(note_names(notes), k);
        if has_single_clip(t, k) {
            let i = choose|i: int| 0 <= i < t.single@.len() && (#[trigger] t.single@[i]).0@ == k;
            assert(nk[i] == k);
        }
        if nk.contains(k) {
            let i = choose|i: int| 0 <= i < nk.len() && nk[i] == k;
            assert(t.single@[i].0@ == k);
        }
    }
    assert forall|k: Seq<char>| #[trigger] has_connect_clip(t, k) <==> hold_names(holds).contains(k) by {
        lemma_clip_keys_contains(hold_names(holds), k);
        if has_connect_clip(t, k) {
            let i = choose|i: int| 0 <= i < t.connect@.len() && (#[trigger] t.connect@[i]).0@ == k;
            assert(hk[i] == k);
        }
        if hk.contains(k) {
            let i = choose|i: int| 0 <= i < hk.len() && hk[i] == k;
            assert(t.connect@[i].0@ == k);
        }
    }
    assert forall|i: int, x: int|
        0 <= i < t.single@.len() implies (#[trigger] has_time(t.single@[i].1@, x) <==> note_at(
        notes,
        t.single@[i].0@,
        x,
    )) by {
        let k = nk[i];
        let ts = t.single@[i].1@;
        assert(ts == single_times(notes, k));
        lemma_single_times_increasing(notes, k);
        let tf = times_for(notes, k);
        let st = sort_by_time(tf);
        let d = dedup_times(st);
        if has_time(ts, x) {
            let j = choose|j: int| 0 <= j < ts.len() && time_order(#[trigger] ts[j]) == x;
            assert(notes.contains((k, ts[j])));
            let n = choose|n: int| 0 <= n < notes.len() && notes[n] == (k, ts[j]);
            assert(note_at(notes, k, x));
        }
        if note_at(notes, k, x) {
            let n = choose|n: int| 0 <= n < notes.len() && (#[trigger] notes[n]).0 == k && time_order(notes[n].1) == x;
            lemma_times_for_has_note(notes, n);
            let m = choose|m: int| 0 <= m < tf.len() && tf[m] == (notes[n].1, ());
            lemma_sort_contains_input(tf);
            assert(st.contains(tf[m]));
            let q = choose|q: int| 0 <= q < st.len() && st[q] == tf[m];
            lemma_dedup_covers(st);
            let j = choose|j: int| 0 <= j < d.len() && time_order(#[trigger] d[j].0) == time_order(st[q].0);
            assert(ts[j] == d[j].0);
            assert(has_time(ts, x));
        }
    }
    assert forall|i: int, a: int, b: int|
        0 <= i < t.single@.len() && 0 <= a < b < t.single@[i].1@.len() implies time_order(
        #[trigger] t.single@[i].1@[a],
    ) < time_order(#[trigger] t.single@[i].1@[b]) by {
        lemma_single_times_increasing(notes, nk[i]);
    }
    assert forall|i: int| 0 <= i < t.connect@.len() implies (#[trigger] t.connect@[i]).1@.len() > 0 by {
        assert(merged_spans(changes_for(holds, hk[i])) == Some(t.connect@[i].1@));
    }
    assert forall|i: int, j: int|
        0 <= i < t.connect@.len() && 0 <= j < t.connect@[i].1@.len() implies time_order(
        (#[trigger] t.connect@[i].1@[j]).0,
    ) <= time_order(t.connect@[i].1@[j].1) && (j + 1 < t.connect@[i].1@.len() ==> time_order(
        t.connect@[i].1@[j].1,
    ) <= time_order(t.connect@[i].1@[j + 1].0)) by {
        assert(merged_spans(changes_for(holds, hk[i])) == Some(t.connect@[i].1@));
        lemma_merged_spans_ordered(changes_for(holds, hk[i]));
        let w = merged_spans(changes_for(holds, hk[i])).unwrap();
        assert(w == t.connect@[i].1@);
        assert(time_order(w[j].0) <= time_order(w[j].1));
    }
}

} // verus!
