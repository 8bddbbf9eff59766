use pjsekai_soundgen_core::sound::{loop_sound_map, resolve_sound, resolved_clip_name, sound_map, Effect, Sound};

fn sound(data: Vec<i16>, bitrate: u32) -> Sound {
    Sound { data, bitrate }
}

#[test]
fn empty_defaults_to_48khz() {
    let s = Sound::empty(None);
    assert!(s.data.is_empty());
    assert_eq!(s.bitrate, 48000);
}

#[test]
fn empty_accepts_custom_bitrate() {
    let s = Sound::empty(Some(44100));
    assert!(s.data.is_empty());
    assert_eq!(s.bitrate, 44100);
}

#[test]
fn overlay_at_mixes_samples_at_offset() {
    let base = sound(vec![10, 10, 10, 10, 10, 10], 1);
    let other = sound(vec![1, 2], 1);
    let mixed = base.overlay_at(&other, 1);
    assert_eq!(mixed.data, vec![10, 10, 11, 12, 10, 10]);
}

#[test]
fn overlay_at_extends_base_when_needed() {
    let base = sound(vec![10, 10], 1);
    let other = sound(vec![1, 2], 1);
    let mixed = base.overlay_at(&other, 2);
    assert_eq!(mixed.data, vec![10, 10, 0, 0, 1, 2]);
}

#[test]
fn overlay_at_saturates_instead_of_overflowing() {
    let base = sound(vec![i16::MAX, i16::MIN], 1);
    let other = sound(vec![100, -100], 1);
    let mixed = base.overlay_at(&other, 0);
    assert_eq!(mixed.data, vec![i16::MAX, i16::MIN]);
}

#[test]
fn overlay_loop_repeats_other_sound_over_range() {
    let base = sound(vec![0; 8], 1);
    let other = sound(vec![1, 2], 1);
    let mixed = base.overlay_loop(&other, 1, 3);
    assert_eq!(mixed.data, vec![0, 0, 1, 2, 1, 2, 0, 0]);
}

#[test]
fn overlay_loop_extends_base_when_needed() {
    let base = sound(vec![], 1);
    let other = sound(vec![1, 2], 1);
    let mixed = base.overlay_loop(&other, 0, 2);
    assert_eq!(mixed.data, vec![1, 2, 1, 2]);
}

#[test]
fn overlay_until_mixes_range() {
    let base = sound(vec![10; 6], 1);
    let other = sound(vec![1, 2, 3, 4, 5, 6, 7, 8], 1);
    let mixed = base.overlay_until(&other, 1, 3);
    assert_eq!(mixed.data, vec![10, 10, 11, 12, 13]);
}

#[test]
fn overlay_until_clamps_range_to_other_sound_length() {
    let base = sound(vec![10; 4], 1);
    let other = sound(vec![1, 2], 1);
    let mixed = base.overlay_until(&other, 0, 3);
    assert_eq!(mixed.data, vec![11, 10, 10]);
}

#[test]
fn sound_map_covers_all_canonical_clip_candidates() {
    for (archetype, candidates) in sound_map().iter() {
        assert!(!candidates.is_empty(), "no candidate clips for {}", archetype);
    }
    for (archetype, candidates) in loop_sound_map().iter() {
        assert!(!candidates.is_empty(), "no candidate clips for {}", archetype);
    }
}

#[test]
fn effect_insert_then_get_returns_clip() {
    let mut effect = Effect::empty();
    effect.insert("#PERFECT".to_string(), sound(vec![1, 2], 48000));
    effect.insert("#HOLD".to_string(), sound(vec![3], 48000));
    effect.insert("#PERFECT".to_string(), sound(vec![5], 48000));
    assert_eq!(effect.get("#PERFECT").unwrap().data, vec![5]);
    assert_eq!(effect.get("#HOLD").unwrap().data, vec![3]);
    assert!(effect.get("missing").is_none());
    assert_eq!(effect.len(), 2);
}

#[test]
fn s16le_round_trips() {
    let s = sound(vec![0, 1, -1, i16::MAX, i16::MIN, 258], 48000);
    let bytes = s.to_s16le();
    assert_eq!(bytes, vec![0, 0, 1, 0, 255, 255, 255, 127, 0, 128, 2, 1]);
    let back = Sound::from_s16le(&bytes);
    assert_eq!(back.data, s.data);
    assert_eq!(back.bitrate, 48000);
}

#[test]
fn from_s16le_drops_trailing_odd_byte() {
    let s = Sound::from_s16le(&[1, 0, 7]);
    assert_eq!(s.data, vec![1]);
}

#[test]
fn overlay_loop_with_empty_other_removes_range() {
    let base = sound(vec![5; 6], 1);
    let other = sound(vec![], 1);
    let mixed = base.overlay_loop(&other, 1, 2);
    assert_eq!(mixed.data, vec![5, 5, 5, 5]);
}

#[test]
fn mixing_from_start_commutes() {
    let a = sound(vec![1, 2, 3], 1);
    let b = sound(vec![10, 20, 30, 40, 50], 1);
    let ab = a.clone().overlay_at(&b, 0);
    let ba = b.clone().overlay_at(&a, 0);
    assert_eq!(ab.data, ba.data);
    assert_eq!(Sound::empty(None).overlay_at(&b, 0).data, b.data);
}

#[test]
fn decoder_and_encoder_arguments() {
    let args = Sound::decoder_args(&["-ss".to_string(), "3".to_string()]);
    assert_eq!(args, vec!["-i", "-", "-ss", "3", "-ac", "2", "-f", "s16le", "-ar", "48k", "-"]);
    let s = Sound::empty(Some(44100));
    let enc = s.encoder_args("out.mp3");
    assert_eq!(enc[6], "44100");
    assert_eq!(enc.len(), 20);
    assert_eq!(enc[19], "out.mp3");
}

#[test]
fn each_archetype_resolves_from_its_first_candidate() {
    for (_, candidates) in sound_map().iter().chain(loop_sound_map().iter()) {
        for held in candidates.iter() {
            let mut effect = Effect::empty();
            effect.insert(held.to_string(), sound(vec![7], 48000));
            let found = resolve_sound(&effect, candidates[0]);
            assert_eq!(found.map(|s| s.data), Some(vec![7]), "{} via {}", held, candidates[0]);
        }
    }
    let mut effect = Effect::empty();
    effect.insert("Sekai Normal Trace".to_string(), sound(vec![9], 44100));
    assert_eq!(resolve_sound(&effect, "Sekai Trace").map(|s| s.bitrate), Some(44100));
    assert!(resolve_sound(&effect, "#PERFECT").is_none());
}

#[test]
fn from_clips_keeps_the_last_sound_of_each_name() {
    let effect = Effect::from_clips(vec![
        ("#PERFECT".to_string(), sound(vec![1], 48000)),
        ("#HOLD".to_string(), sound(vec![2], 48000)),
        ("#PERFECT".to_string(), sound(vec![3], 44100)),
    ]);
    assert_eq!(effect.len(), 2);
    assert_eq!(effect.get("#PERFECT").unwrap().data, vec![3]);
    assert_eq!(effect.get("#PERFECT").unwrap().bitrate, 44100);
    assert_eq!(effect.get("#HOLD").unwrap().data, vec![2]);
    assert!(effect.get("Sekai Tick").is_none());
    assert!(Effect::from_clips(Vec::new()).len() == 0);
}

#[test]
fn resolved_clip_name_reports_a_substitute() {
    let mut effect = Effect::empty();
    effect.insert("Sekai Normal Trace".to_string(), sound(vec![1], 48000));
    effect.insert("#PERFECT".to_string(), sound(vec![2], 48000));
    assert_eq!(resolved_clip_name(&effect, "Sekai Trace"), Some("Sekai Normal Trace".to_string()));
    assert_eq!(resolved_clip_name(&effect, "#PERFECT"), Some("#PERFECT".to_string()));
    assert_eq!(resolved_clip_name(&effect, "#HOLD"), None);
}
