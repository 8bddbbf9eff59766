use pjsekai_soundgen_core::sonolus::{LevelEntity, LevelEntityData};

fn datum(name: &str, value: Option<f32>, reference: Option<&str>) -> LevelEntityData {
    LevelEntityData {
        name: name.to_string(),
        value: value.map(f32::to_bits),
        reference: reference.map(|r| r.to_string()),
    }
}

fn entity(archetype: &str, data: Vec<LevelEntityData>, name: Option<&str>) -> LevelEntity {
    LevelEntity { archetype: archetype.to_string(), data, name: name.map(|n| n.to_string()) }
}

#[test]
fn get_value_returns_value_for_matching_key() {
    let e = entity("NormalTapNote", vec![datum("#BEAT", Some(1.5), None)], None);
    assert_eq!(e.get_value("#BEAT"), Some(1.5f32.to_bits()));
}

#[test]
fn get_value_returns_none_for_missing_key() {
    let e = entity("NormalTapNote", vec![datum("#BEAT", Some(1.5), None)], None);
    assert_eq!(e.get_value("#BPM"), None);
}

#[test]
fn get_value_returns_none_when_value_is_absent() {
    let e = entity("NormalTapNote", vec![datum("#BEAT", None, Some("other"))], None);
    assert_eq!(e.get_value("#BEAT"), None);
}

#[test]
fn get_ref_raw_returns_ref_for_matching_key() {
    let e = entity("NormalSlideConnector", vec![datum("head", None, Some("a"))], None);
    assert_eq!(e.get_ref_raw("head"), Some("a".to_string()));
    assert_eq!(e.get_ref_raw("tail"), None);
}

#[test]
fn get_ref_raw_returns_none_when_ref_is_absent() {
    let e = entity("NormalSlideConnector", vec![datum("head", Some(1.0), None)], None);
    assert_eq!(e.get_ref_raw("head"), None);
}

#[test]
fn get_ref_resolves_named_entity() {
    let connector = entity("NormalSlideConnector", vec![datum("head", None, Some("a"))], None);
    let head = entity("NormalSlideStartNote", vec![datum("#BEAT", Some(2.0), None)], Some("a"));
    let entities = vec![connector.clone(), head];
    let resolved = connector.get_ref(&entities, "head").unwrap();
    assert_eq!(resolved.archetype, "NormalSlideStartNote");
    assert_eq!(resolved.get_value("#BEAT"), Some(2.0f32.to_bits()));
}

#[test]
fn get_ref_returns_none_when_target_is_missing() {
    let connector = entity("NormalSlideConnector", vec![datum("head", None, Some("a"))], None);
    let entities = vec![connector.clone()];
    assert!(connector.get_ref(&entities, "head").is_none());
}

#[test]
fn get_value_stops_at_first_datum_with_the_key() {
    let e = entity(
        "NormalTapNote",
        vec![datum("#BEAT", None, Some("x")), datum("#BEAT", Some(3.0), None)],
        None,
    );
    assert_eq!(e.get_value("#BEAT"), None);
}

#[test]
fn get_ref_takes_first_entity_of_that_name() {
    let connector = entity("NormalSlideConnector", vec![datum("head", None, Some("a"))], None);
    let first = entity("First", vec![], Some("a"));
    let second = entity("Second", vec![], Some("a"));
    let entities = vec![second.clone(), first];
    assert_eq!(connector.get_ref(&entities, "head").unwrap().archetype, "Second");
}
