use pjsekai_soundgen_core::sonolus::{LevelEntity, LevelEntityData};
use pjsekai_soundgen_core::sound::{resolve_sound, Effect, Sound};
use pjsekai_soundgen_core::synthesis::{
    bpm_changes, clip_color, clip_display_name, plan_synthesis, sound_events, ConnectorNotice, Timing, TimingError,
    Work,
};

fn datum(name: &str, value: Option<f32>, reference: Option<&str>) -> LevelEntityData {
    LevelEntityData {
        name: name.to_string(),
        value: value.map(f32::to_bits),
        reference: reference.map(|r| r.to_string()),
    }
}

fn bpm_change(beat: f32, bpm: f32) -> LevelEntity {
    LevelEntity {
        archetype: "#BPM_CHANGE".to_string(),
        data: vec![datum("#BEAT", Some(beat), None), datum("#BPM", Some(bpm), None)],
        name: None,
    }
}

fn tap(archetype: &str, beat: f32) -> LevelEntity {
    LevelEntity { archetype: archetype.to_string(), data: vec![datum("#BEAT", Some(beat), None)], name: None }
}

fn named_tap(archetype: &str, beat: f32, name: &str) -> LevelEntity {
    LevelEntity {
        archetype: archetype.to_string(),
        data: vec![datum("#BEAT", Some(beat), None)],
        name: Some(name.to_string()),
    }
}

fn connector(archetype: &str, head: &str, tail: &str) -> LevelEntity {
    LevelEntity {
        archetype: archetype.to_string(),
        data: vec![datum("head", None, Some(head)), datum("tail", None, Some(tail))],
        name: None,
    }
}

/// Runs the chart through the library the way the program does, converting
/// beats to seconds in single precision in between.
fn timings(bgm_offset: f32, entities: Vec<LevelEntity>, offset: f32) -> Result<Timing, TimingError> {
    let bpm: Vec<(f32, f32)> = bpm_changes(&entities)?
        .into_iter()
        .map(|(b, m)| (f32::from_bits(b), f32::from_bits(m)))
        .collect();
    let resolve = |beat: u32| -> u32 {
        let beat = f32::from_bits(beat);
        let mut time = 0.0f32;
        let mut last_bpm = bpm[0].1;
        let mut last_beat = 0.0f32;
        for (b, m) in bpm.iter() {
            if *b > beat {
                break;
            }
            time += (b - last_beat) * 60.0 / last_bpm;
            last_bpm = *m;
            last_beat = *b;
        }
        time += (beat - last_beat) * 60.0 / last_bpm;
        (time + bgm_offset + offset).to_bits()
    };
    let events = sound_events(&entities);
    let notes: Vec<(String, u32)> = events.notes.iter().map(|(c, b)| (c.clone(), resolve(*b))).collect();
    let holds: Vec<(String, u32, u32)> =
        events.holds.iter().map(|(c, h, t)| (c.clone(), resolve(*h), resolve(*t))).collect();
    if let Some(e) = events.error {
        return Err(e);
    }
    assert!(Timing::can_build(&notes, &holds));
    Timing::build(&notes, &holds)
}

fn single(t: &Timing, name: &str) -> Option<Vec<f32>> {
    t.single.iter().find(|(k, _)| k == name).map(|(_, v)| v.iter().map(|b| f32::from_bits(*b)).collect())
}

fn connect(t: &Timing, name: &str) -> Option<Vec<(f32, f32)>> {
    t.connect
        .iter()
        .find(|(k, _)| k == name)
        .map(|(_, v)| v.iter().map(|(a, b)| (f32::from_bits(*a), f32::from_bits(*b))).collect())
}

fn test_effect(clips: &[(&str, usize)]) -> Effect {
    let mut effect = Effect::empty();
    for (name, samples) in clips {
        effect.insert(name.to_string(), Sound { data: vec![1; *samples], bitrate: 48000 });
    }
    effect
}

#[test]
fn resolve_sound_finds_exact_clip() {
    let effect = test_effect(&[("#PERFECT", 4)]);
    assert!(resolve_sound(&effect, "#PERFECT").is_some());
}

#[test]
fn resolve_sound_falls_back_to_alternative_candidates() {
    let effect = test_effect(&[("Sekai Normal Trace", 4)]);
    assert!(resolve_sound(&effect, "Sekai Trace").is_some());
}

#[test]
fn resolve_sound_returns_none_for_missing_clip() {
    let effect = test_effect(&[("#PERFECT", 4)]);
    assert!(resolve_sound(&effect, "Sekai Critical Tap").is_none());
    assert!(resolve_sound(&effect, "unknown clip").is_none());
}

#[test]
fn get_sound_timings_resolves_note_times_at_constant_bpm() {
    let t = timings(0.0, vec![bpm_change(0.0, 60.0), tap("NormalTapNote", 2.0)], 0.0).unwrap();
    assert_eq!(single(&t, "#PERFECT"), Some(vec![2.0]));
    assert!(t.connect.is_empty());
}

#[test]
fn get_sound_timings_applies_bgm_offset_and_shift() {
    let t = timings(0.5, vec![bpm_change(0.0, 60.0), tap("NormalTapNote", 1.0)], 0.25).unwrap();
    assert_eq!(single(&t, "#PERFECT"), Some(vec![1.75]));
}

#[test]
fn get_sound_timings_handles_bpm_changes() {
    let t = timings(
        0.0,
        vec![bpm_change(0.0, 60.0), bpm_change(2.0, 120.0), tap("NormalTapNote", 4.0)],
        0.0,
    )
    .unwrap();
    assert_eq!(single(&t, "#PERFECT"), Some(vec![3.0]));
}

#[test]
fn get_sound_timings_dedupes_and_sorts_timings() {
    let t = timings(
        0.0,
        vec![
            bpm_change(0.0, 60.0),
            tap("NormalTapNote", 3.0),
            tap("NormalTapNote", 1.0),
            tap("NormalSlideStartNote", 1.0),
        ],
        0.0,
    )
    .unwrap();
    assert_eq!(single(&t, "#PERFECT"), Some(vec![1.0, 3.0]));
}

#[test]
fn get_sound_timings_groups_notes_by_canonical_clip_name() {
    let t = timings(
        0.0,
        vec![
            bpm_change(0.0, 60.0),
            tap("NormalTapNote", 1.0),
            tap("NormalFlickNote", 2.0),
            tap("CriticalTapNote", 3.0),
            tap("UnknownArchetype", 4.0),
        ],
        0.0,
    )
    .unwrap();
    assert_eq!(single(&t, "#PERFECT"), Some(vec![1.0]));
    assert_eq!(single(&t, "#PERFECT_ALTERNATIVE"), Some(vec![2.0]));
    assert_eq!(single(&t, "Sekai Critical Tap"), Some(vec![3.0]));
    assert_eq!(t.single.len(), 3);
}

#[test]
fn get_sound_timings_merges_overlapping_slide_connectors() {
    let t = timings(
        0.0,
        vec![
            bpm_change(0.0, 60.0),
            named_tap("NormalSlideStartNote", 1.0, "a"),
            named_tap("NormalSlideEndNote", 3.0, "b"),
            named_tap("NormalSlideStartNote", 2.0, "c"),
            named_tap("NormalSlideEndNote", 4.0, "d"),
            connector("NormalSlideConnector", "a", "b"),
            connector("NormalSlideConnector", "c", "d"),
        ],
        0.0,
    )
    .unwrap();
    assert_eq!(connect(&t, "#HOLD"), Some(vec![(1.0, 4.0)]));
}

#[test]
fn get_sound_timings_registers_generic_connector_as_critical_hold() {
    let t = timings(
        0.0,
        vec![
            bpm_change(0.0, 60.0),
            named_tap("CriticalSlideStartNote", 1.0, "a"),
            named_tap("CriticalSlideEndNote", 2.0, "b"),
            connector("Connector", "a", "b"),
        ],
        0.0,
    )
    .unwrap();
    assert_eq!(connect(&t, "Sekai Critical Hold"), Some(vec![(1.0, 2.0)]));
}

#[test]
fn get_sound_timings_skips_generic_connector_with_broken_refs() {
    let t = timings(0.0, vec![bpm_change(0.0, 60.0), connector("Connector", "missing", "also-missing")], 0.0)
        .unwrap();
    assert!(t.connect.is_empty());
}

#[test]
fn get_sound_timings_fails_on_bpm_change_without_bpm() {
    let entities = vec![LevelEntity {
        archetype: "#BPM_CHANGE".to_string(),
        data: vec![datum("#BEAT", Some(0.0), None)],
        name: None,
    }];
    assert_eq!(timings(0.0, entities, 0.0).err(), Some(TimingError::BpmChangeWithoutBpm));
}

#[test]
fn get_sound_timings_fails_on_note_without_beat() {
    let entities = vec![
        bpm_change(0.0, 60.0),
        LevelEntity { archetype: "NormalTapNote".to_string(), data: vec![], name: None },
    ];
    assert_eq!(timings(0.0, entities, 0.0).err(), Some(TimingError::NoteWithoutBeat));
}

#[test]
fn get_sound_timings_fails_on_unbalanced_slide_connector() {
    let entities = vec![
        bpm_change(0.0, 60.0),
        named_tap("NormalSlideStartNote", 1.0, "a"),
        connector("NormalSlideConnector", "a", "missing"),
    ];
    assert_eq!(timings(0.0, entities, 0.0).err(), Some(TimingError::ConnectorWithoutTail));
}

#[test]
fn build_reports_unpaired_holds() {
    let holds = vec![("#HOLD".to_string(), 3.0f32.to_bits(), 1.0f32.to_bits())];
    assert!(Timing::can_build(&vec![], &holds));
    assert_eq!(Timing::build(&vec![], &holds).err(), Some(TimingError::UnbalancedSlides));
}

#[test]
fn can_build_rejects_nan_and_empty_holds() {
    let nan = f32::NAN.to_bits();
    let notes = vec![("#PERFECT".to_string(), nan), ("#PERFECT".to_string(), 1.0f32.to_bits())];
    assert!(!Timing::can_build(&notes, &vec![]));
    let single_nan = vec![("#PERFECT".to_string(), nan)];
    assert!(Timing::can_build(&single_nan, &vec![]));
    let point = vec![("#HOLD".to_string(), 1.0f32.to_bits(), 1.0f32.to_bits())];
    assert!(!Timing::can_build(&vec![], &point));
}

#[test]
fn build_treats_both_zeros_as_one_time() {
    let notes = vec![("#PERFECT".to_string(), 0.0f32.to_bits()), ("#PERFECT".to_string(), (-0.0f32).to_bits())];
    let t = Timing::build(&notes, &vec![]).unwrap();
    assert_eq!(t.single[0].1, vec![0.0f32.to_bits()]);
}

#[test]
fn synthesis_reports_progress_and_finishes() {
    let t = timings(
        0.0,
        vec![
            bpm_change(0.0, 60.0),
            tap("NormalTapNote", 0.0),
            tap("NormalTapNote", 1.0),
            named_tap("NormalSlideStartNote", 1.0, "a"),
            named_tap("NormalSlideEndNote", 2.0, "b"),
            connector("NormalSlideConnector", "a", "b"),
        ],
        0.0,
    )
    .unwrap();
    let effect = test_effect(&[("#PERFECT", 4), ("#HOLD", 4)]);
    let plan = plan_synthesis(&t, &effect, 1000);
    assert!(!plan.threads.is_empty());
    assert_eq!(plan.threads.len(), plan.jobs.len());
    for job in plan.jobs.iter() {
        assert!(plan.threads.iter().any(|(id, _)| *id == job.id));
        let mut local = Sound::empty(None);
        match &job.work {
            Work::Hits(times) => {
                for (i, time) in times.iter().enumerate() {
                    let time = f32::from_bits(*time);
                    let next = times.get(i + 1).map(|t| f32::from_bits(*t)).unwrap_or(time + 5.0);
                    let start = (time * local.bitrate as f32) as usize;
                    let end = (next * local.bitrate as f32) as usize;
                    local = local.overlay_until(&job.sound, start, end);
                }
            }
            Work::Holds(spans) => {
                for (s, e) in spans.iter() {
                    let start = (f32::from_bits(*s) * local.bitrate as f32) as usize;
                    let end = (f32::from_bits(*e) * local.bitrate as f32) as usize;
                    local = local.overlay_loop(&job.sound, start, end);
                }
            }
        }
        assert!(!local.data.is_empty());
    }
}

#[test]
fn synthesis_skips_unknown_sounds() {
    let t = timings(0.0, vec![bpm_change(0.0, 60.0), tap("NormalTapNote", 1.0)], 0.0).unwrap();
    let effect = test_effect(&[]);
    let plan = plan_synthesis(&t, &effect, 1000);
    assert!(plan.threads.is_empty());
}

#[test]
fn plan_splits_hits_evenly_across_threads() {
    let notes: Vec<(String, u32)> = (0..5).map(|i| ("#PERFECT".to_string(), (i as f32).to_bits())).collect();
    let t = Timing::build(&notes, &vec![]).unwrap();
    let effect = test_effect(&[("#PERFECT", 4)]);
    let plan = plan_synthesis(&t, &effect, 2);
    let ids: Vec<&str> = plan.threads.iter().map(|(id, _)| id.as_str()).collect();
    assert_eq!(ids, vec!["通常タップ (1)", "通常タップ (2)", "通常タップ (3)"]);
    let maxes: Vec<i32> = plan.threads.iter().map(|(_, info)| info.max).collect();
    assert_eq!(maxes, vec![2, 2, 1]);
    assert_eq!(plan.threads[0].1.color.fg, "cyan");
    assert_eq!(plan.threads[0].1.color.bg, "blue");
}

#[test]
fn plan_spreads_hits_over_fewer_threads_evenly() {
    let notes: Vec<(String, u32)> = (0..7).map(|i| ("#PERFECT".to_string(), (i as f32).to_bits())).collect();
    let t = Timing::build(&notes, &vec![]).unwrap();
    let effect = test_effect(&[("#PERFECT", 4)]);
    let plan = plan_synthesis(&t, &effect, 6);
    let maxes: Vec<i32> = plan.threads.iter().map(|(_, info)| info.max).collect();
    assert_eq!(maxes, vec![4, 3]);
}

#[test]
fn clip_colors_and_names_fall_back_for_unknown_clips() {
    let c = clip_color("Sekai Critical Tap");
    assert_eq!((c.fg, c.bg), ("yellow", "orange"));
    let g = clip_color("mystery");
    assert_eq!((g.fg, g.bg), ("gray", "gray"));
    assert_eq!(clip_display_name("#HOLD"), "通常ホールド");
    assert_eq!(clip_display_name("mystery"), "mystery");
}

#[test]
fn sound_events_report_tempo_need() {
    let broken = vec![
        LevelEntity { archetype: "Marker".to_string(), data: vec![], name: Some("b".to_string()) },
        connector("NormalSlideConnector", "a", "b"),
    ];
    let events = sound_events(&broken);
    assert_eq!(events.error, Some(TimingError::ConnectorWithoutHead));
    assert!(!events.needs_tempo());
    let only_tail_missing = vec![
        LevelEntity { archetype: "Marker".to_string(), data: vec![datum("#BEAT", Some(1.0), None)], name: Some("a".to_string()) },
        LevelEntity { archetype: "Marker".to_string(), data: vec![], name: Some("b".to_string()) },
        connector("NormalSlideConnector", "a", "b"),
    ];
    let events = sound_events(&only_tail_missing);
    assert_eq!(events.error, Some(TimingError::ConnectorTailWithoutBeat));
    assert!(events.needs_tempo());
    assert!(events.notes.is_empty() && events.holds.is_empty());
}

#[test]
fn sound_events_report_each_generic_connector() {
    let entities = vec![
        named_tap("CriticalSlideStartNote", 1.0, "a"),
        named_tap("NormalSlideEndNote", 2.0, "b"),
        LevelEntity { archetype: "Marker".to_string(), data: vec![], name: Some("m".to_string()) },
        connector("Connector", "a", "b"),
        connector("Connector", "missing", "b"),
        connector("Connector", "a", "missing"),
        connector("Connector", "m", "b"),
        connector("Connector", "a", "m"),
        connector("NormalSlideConnector", "a", "b"),
    ];
    let events = sound_events(&entities);
    assert_eq!(events.error, None);
    assert_eq!(events.notices.len(), 5);
    match &events.notices[0] {
        ConnectorNotice::Registered(key, head, tail, head_archetype, tail_archetype) => {
            assert_eq!(key, "Sekai Critical Hold");
            assert_eq!((*head, *tail), (1.0f32.to_bits(), 2.0f32.to_bits()));
            assert_eq!(head_archetype, "CriticalSlideStartNote");
            assert_eq!(tail_archetype, "NormalSlideEndNote");
        }
        _ => panic!("the first connector is registered"),
    }
    assert!(matches!(events.notices[1], ConnectorNotice::MissingHead));
    assert!(matches!(events.notices[2], ConnectorNotice::MissingTail));
    assert!(matches!(&events.notices[3], ConnectorNotice::HeadWithoutBeat(a) if a == "Marker"));
    assert!(matches!(&events.notices[4], ConnectorNotice::TailWithoutBeat(a) if a == "Marker"));
    assert_eq!(events.holds.len(), 2);
}
