use pjsekai_soundgen_core::timeline::{dedup_times_exec, merge_spans_exec, sort_by_time_exec, time_eq, time_lt, OPEN_END};

fn samples() -> Vec<f32> {
    vec![
        f32::NEG_INFINITY,
        f32::MIN,
        -3.5,
        -1.0,
        -f32::MIN_POSITIVE,
        -1e-45,
        -0.0,
        0.0,
        1e-45,
        f32::MIN_POSITIVE,
        0.25,
        1.0,
        1.75,
        3.0,
        f32::MAX,
        f32::INFINITY,
    ]
}

#[test]
fn bit_pattern_order_matches_float_order() {
    for a in samples() {
        for b in samples() {
            assert_eq!(time_lt(a.to_bits(), b.to_bits()), a < b, "{} < {}", a, b);
            assert_eq!(time_eq(a.to_bits(), b.to_bits()), a == b, "{} == {}", a, b);
        }
    }
}

#[test]
fn sort_is_stable_and_dedup_keeps_first() {
    let v: Vec<(u32, u8)> = vec![
        (3.0f32.to_bits(), 0),
        ((-0.0f32).to_bits(), 1),
        (1.0f32.to_bits(), 2),
        (0.0f32.to_bits(), 3),
        (1.0f32.to_bits(), 4),
    ];
    let sorted = sort_by_time_exec(&v);
    let tags: Vec<u8> = sorted.iter().map(|p| p.1).collect();
    assert_eq!(tags, vec![1, 3, 2, 4, 0]);
    let unique = dedup_times_exec(&sorted);
    let tags: Vec<u8> = unique.iter().map(|p| p.1).collect();
    assert_eq!(tags, vec![1, 2, 0]);
}

#[test]
fn merge_joins_touching_and_overlapping_holds() {
    let t = |x: f32| x.to_bits();
    let changes = vec![(t(1.0), 1), (t(2.0), -1), (t(2.0), 1), (t(3.0), -1), (t(5.0), 1), (t(6.0), -1)];
    assert_eq!(merge_spans_exec(&changes), Some(vec![(t(1.0), t(3.0)), (t(5.0), t(6.0))]));
}

#[test]
fn merge_rejects_an_end_before_its_start() {
    let t = |x: f32| x.to_bits();
    let changes = vec![(t(3.0), 1), (t(1.0), -1)];
    assert_eq!(merge_spans_exec(&changes), None);
    assert_eq!(OPEN_END, (-1.0f32).to_bits());
}

#[test]
fn merge_keeps_a_touch_that_closes_before_it_opens_as_two_intervals() {
    let t = |x: f32| x.to_bits();
    let changes = vec![(t(1.0), 1), (t(3.0), -1), (t(5.0), 1), (t(7.0), -1), (t(3.0), 1), (t(5.0), -1)];
    assert_eq!(merge_spans_exec(&changes), Some(vec![(t(1.0), t(3.0)), (t(3.0), t(7.0))]));
}
