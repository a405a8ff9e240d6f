use snapolation::snapshot_interpolation::{InterpolationError, SnapshotInterpolation};
use snapolation::vault::{EntityGroup, SnapolationEntity, Snapshot, StateField, StateValue};

fn field(key: &str, value: StateValue) -> StateField {
    StateField { key: key.to_string(), value }
}

fn one_entity_snapshot(id: u64, time: u64, fields: Vec<StateField>) -> Snapshot {
    Snapshot {
        id,
        time,
        entities: vec![EntityGroup {
            key: "players".to_string(),
            members: vec![SnapolationEntity { id: 1, state: fields }],
        }],
    }
}

fn keys(names: &[&str]) -> Vec<String> {
    names.iter().map(|n| n.to_string()).collect()
}

#[test]
fn new_engine_buffer_is_three_ticks() {
    let engine = SnapshotInterpolation::new(20);
    assert_eq!(engine.interpolation_buffer, 150);
    assert!(engine.time_offset.is_none());
    assert!(engine.autocorrect_time_offset);
}

#[test]
fn create_snapshot_stamps_time_and_id() {
    let s = SnapshotInterpolation::create_snapshot(Vec::new(), 555);
    assert_eq!(s.id, 555);
    assert_eq!(s.time, 555);
}

#[test]
fn offset_initialized_on_first_add() {
    let mut engine = SnapshotInterpolation::new(20);
    engine.add_snapshot(one_entity_snapshot(1, 1000, Vec::new()), 1300);
    assert_eq!(engine.time_offset, Some(300));

    let mut without_autocorrect = SnapshotInterpolation::new(20);
    without_autocorrect.autocorrect_time_offset = false;
    without_autocorrect.add_snapshot(one_entity_snapshot(1, 1000, Vec::new()), 1300);
    assert_eq!(without_autocorrect.time_offset, Some(300));

    let mut skewed = SnapshotInterpolation::new(20);
    skewed.add_snapshot(one_entity_snapshot(1, 1300, Vec::new()), 1000);
    assert_eq!(skewed.time_offset, Some(-300));
}

#[test]
fn offset_autocorrect_assigns_discrepancy_magnitude() {
    let mut engine = SnapshotInterpolation::new(20);
    engine.add_snapshot(one_entity_snapshot(1, 1000, Vec::new()), 1300);
    assert_eq!(engine.time_offset, Some(300));
    engine.add_snapshot(one_entity_snapshot(2, 2000, Vec::new()), 2400);
    assert_eq!(engine.time_offset, Some(100));
}

#[test]
fn offset_kept_within_tolerance() {
    let mut engine = SnapshotInterpolation::new(20);
    engine.add_snapshot(one_entity_snapshot(1, 1000, Vec::new()), 1300);
    engine.add_snapshot(one_entity_snapshot(2, 2000, Vec::new()), 2330);
    assert_eq!(engine.time_offset, Some(300));
}

#[test]
fn interpolate_midpoint_number() {
    let mut engine = SnapshotInterpolation::new(20);
    let older = one_entity_snapshot(10, 100, vec![field("x", StateValue::Number(10_000))]);
    let newer = one_entity_snapshot(20, 200, vec![field("x", StateValue::Number(20_000))]);
    let r = engine
        .interpolate(&older, &newer, 150, &"players".to_string(), &keys(&["x"]))
        .unwrap();
    assert_eq!(r.newer_id, 20);
    assert_eq!(r.older_id, 10);
    assert_eq!(r.fraction_num, 50);
    assert_eq!(r.fraction_den, 100);
    assert_eq!(r.entities.len(), 1);
    assert_eq!(r.entities[0].id, 1);
    assert_eq!(r.entities[0].state.len(), 1);
    assert_eq!(r.entities[0].state[0].key, "x");
    assert_eq!(r.entities[0].state[0].value, StateValue::Number(15_000));
    assert_eq!(engine.server_time, 150);
}

#[test]
fn interpolate_endpoints_reproduce_sources() {
    let mut engine = SnapshotInterpolation::new(20);
    let older = one_entity_snapshot(
        10,
        100,
        vec![
            field("x", StateValue::Number(10_000)),
            field("a", StateValue::Degree(350_000)),
        ],
    );
    let newer = one_entity_snapshot(
        20,
        200,
        vec![
            field("x", StateValue::Number(20_000)),
            field("a", StateValue::Degree(10_000)),
        ],
    );
    let selection = keys(&["x", "a"]);
    let group = "players".to_string();

    let at_older = engine.interpolate(&newer, &older, 100, &group, &selection).unwrap();
    assert_eq!(at_older.entities[0].state[0].value, StateValue::Number(10_000));
    assert_eq!(at_older.entities[0].state[1].value, StateValue::Degree(350_000));

    let at_newer = engine.interpolate(&newer, &older, 200, &group, &selection).unwrap();
    assert_eq!(at_newer.entities[0].state[0].value, StateValue::Number(20_000));
    assert_eq!(at_newer.entities[0].state[1].value, StateValue::Degree(10_000));
}

#[test]
fn degree_wraparound_through_zero() {
    let mut engine = SnapshotInterpolation::new(20);
    let older = one_entity_snapshot(10, 100, vec![field("a", StateValue::Degree(350_000))]);
    let newer = one_entity_snapshot(20, 200, vec![field("a", StateValue::Degree(10_000))]);
    let r = engine
        .interpolate(&older, &newer, 150, &"players".to_string(), &keys(&["a"]))
        .unwrap();
    assert_eq!(r.entities[0].state[0].value, StateValue::Degree(0));
}

#[test]
fn radian_wraparound_through_zero() {
    let mut engine = SnapshotInterpolation::new(20);
    let older = one_entity_snapshot(10, 100, vec![field("a", StateValue::Radian(6_000))]);
    let newer = one_entity_snapshot(20, 200, vec![field("a", StateValue::Radian(200))]);
    let r = engine
        .interpolate(&older, &newer, 150, &"players".to_string(), &keys(&["a"]))
        .unwrap();
    assert_eq!(r.entities[0].state[0].value, StateValue::Radian(6_241));
}

#[test]
fn noncanonical_degree_interpolates_linearly() {
    let mut engine = SnapshotInterpolation::new(20);
    let older = one_entity_snapshot(10, 100, vec![field("a", StateValue::Degree(400_000))]);
    let newer = one_entity_snapshot(20, 200, vec![field("a", StateValue::Degree(350_000))]);
    let r = engine
        .interpolate(&older, &newer, 150, &"players".to_string(), &keys(&["a"]))
        .unwrap();
    assert_eq!(r.entities[0].state[0].value, StateValue::Degree(375_000));
}

#[test]
fn rotation_midpoint_stays_on_unit_sphere() {
    let mut engine = SnapshotInterpolation::new(20);
    let older = one_entity_snapshot(
        10,
        100,
        vec![field("q", StateValue::Rotation(0, 0, 0, 1000))],
    );
    let newer = one_entity_snapshot(
        20,
        200,
        vec![field("q", StateValue::Rotation(1000, 0, 0, 0))],
    );
    let r = engine
        .interpolate(&older, &newer, 150, &"players".to_string(), &keys(&["q"]))
        .unwrap();
    assert_eq!(r.entities[0].state[0].value, StateValue::Rotation(707, 0, 0, 707));
}

#[test]
fn rotation_takes_shortest_arc_across_sign() {
    let mut engine = SnapshotInterpolation::new(20);
    let older = one_entity_snapshot(
        10,
        100,
        vec![field("q", StateValue::Rotation(0, 0, 0, 1000))],
    );
    let newer = one_entity_snapshot(
        20,
        200,
        vec![field("q", StateValue::Rotation(0, 0, 0, -1000))],
    );
    let r = engine
        .interpolate(&older, &newer, 150, &"players".to_string(), &keys(&["q"]))
        .unwrap();
    assert_eq!(r.entities[0].state[0].value, StateValue::Rotation(0, 0, 0, 1000));
}

#[test]
fn rotation_renormalizes_non_unit_input() {
    let mut engine = SnapshotInterpolation::new(20);
    let older = one_entity_snapshot(
        10,
        100,
        vec![field("q", StateValue::Rotation(0, 0, 0, 2000))],
    );
    let newer = one_entity_snapshot(
        20,
        200,
        vec![field("q", StateValue::Rotation(0, 0, 0, 2000))],
    );
    let r = engine
        .interpolate(&older, &newer, 150, &"players".to_string(), &keys(&["q"]))
        .unwrap();
    assert_eq!(r.entities[0].state[0].value, StateValue::Rotation(0, 0, 0, 1000));
}

#[test]
fn rotation_endpoints_exact_on_unit_grid() {
    let mut engine = SnapshotInterpolation::new(20);
    let older = one_entity_snapshot(
        10,
        100,
        vec![field("q", StateValue::Rotation(600, 800, 0, 0))],
    );
    let newer = one_entity_snapshot(
        20,
        200,
        vec![field("q", StateValue::Rotation(0, 0, 0, 1000))],
    );
    let group = "players".to_string();
    let selection = keys(&["q"]);
    let at_older = engine.interpolate(&older, &newer, 100, &group, &selection).unwrap();
    assert_eq!(at_older.entities[0].state[0].value, StateValue::Rotation(600, 800, 0, 0));
    let at_newer = engine.interpolate(&older, &newer, 200, &group, &selection).unwrap();
    assert_eq!(at_newer.entities[0].state[0].value, StateValue::Rotation(0, 0, 0, 1000));
}

#[test]
fn missing_field_is_omitted_without_error() {
    let mut engine = SnapshotInterpolation::new(20);
    let older = one_entity_snapshot(
        10,
        100,
        vec![
            field("x", StateValue::Number(10_000)),
            field("y", StateValue::Number(1_000)),
        ],
    );
    let newer = one_entity_snapshot(20, 200, vec![field("x", StateValue::Number(20_000))]);
    let r = engine
        .interpolate(&older, &newer, 150, &"players".to_string(), &keys(&["x", "y"]))
        .unwrap();
    assert_eq!(r.entities.len(), 1);
    assert_eq!(r.entities[0].state.len(), 1);
    assert_eq!(r.entities[0].state[0].key, "x");
}

#[test]
fn missing_entity_is_omitted_without_error() {
    let mut engine = SnapshotInterpolation::new(20);
    let older = one_entity_snapshot(10, 100, vec![field("x", StateValue::Number(10_000))]);
    let newer = Snapshot {
        id: 20,
        time: 200,
        entities: vec![EntityGroup {
            key: "players".to_string(),
            members: vec![SnapolationEntity {
                id: 2,
                state: vec![field("x", StateValue::Number(20_000))],
            }],
        }],
    };
    let r = engine
        .interpolate(&older, &newer, 150, &"players".to_string(), &keys(&["x"]))
        .unwrap();
    assert!(r.entities.is_empty());
}

#[test]
fn type_mismatch_is_reported() {
    let mut engine = SnapshotInterpolation::new(20);
    let older = one_entity_snapshot(10, 100, vec![field("x", StateValue::Degree(10_000))]);
    let newer = one_entity_snapshot(20, 200, vec![field("x", StateValue::Number(20_000))]);
    let r = engine.interpolate(&older, &newer, 150, &"players".to_string(), &keys(&["x"]));
    assert_eq!(r.unwrap_err(), InterpolationError::TypeMismatch);
}

#[test]
fn equal_times_use_neutral_fraction() {
    let mut engine = SnapshotInterpolation::new(20);
    let a = one_entity_snapshot(10, 100, vec![field("x", StateValue::Number(10_000))]);
    let b = one_entity_snapshot(20, 100, vec![field("x", StateValue::Number(20_000))]);
    let r = engine
        .interpolate(&a, &b, 100, &"players".to_string(), &keys(&["x"]))
        .unwrap();
    assert_eq!(r.fraction_num, 0);
    assert_eq!(r.fraction_den, 1);
    assert_eq!(r.newer_id, 10);
    assert_eq!(r.entities[0].state[0].value, StateValue::Number(20_000));
}

#[test]
fn calc_interpolation_full_flow() {
    let mut engine = SnapshotInterpolation::new(20);
    assert_eq!(engine.interpolation_buffer, 150);
    engine.add_snapshot(
        one_entity_snapshot(1, 1000, vec![field("x", StateValue::Number(10_000))]),
        1000,
    );
    engine.add_snapshot(
        one_entity_snapshot(2, 1200, vec![field("x", StateValue::Number(20_000))]),
        1200,
    );
    assert_eq!(engine.time_offset, Some(0));
    let r = engine
        .calc_interpolation(&"players".to_string(), &keys(&["x"]), 1300)
        .unwrap()
        .unwrap();
    assert_eq!(r.newer_id, 2);
    assert_eq!(r.older_id, 1);
    assert_eq!(r.entities[0].state[0].value, StateValue::Number(17_500));
    assert_eq!(engine.server_time, 1150);
}

#[test]
fn calc_interpolation_insufficient_history() {
    let mut engine = SnapshotInterpolation::new(20);
    let r = engine.calc_interpolation(&"players".to_string(), &keys(&["x"]), 1300);
    assert_eq!(r.unwrap().is_none(), true);

    engine.add_snapshot(
        one_entity_snapshot(1, 1000, vec![field("x", StateValue::Number(10_000))]),
        1000,
    );
    let r = engine.calc_interpolation(&"players".to_string(), &keys(&["x"]), 1300);
    assert!(r.unwrap().is_none());
}

#[test]
fn absent_group_yields_no_entities() {
    let mut engine = SnapshotInterpolation::new(20);
    let older = one_entity_snapshot(10, 100, vec![field("x", StateValue::Number(10_000))]);
    let newer = one_entity_snapshot(20, 200, vec![field("x", StateValue::Number(20_000))]);
    let r = engine
        .interpolate(&older, &newer, 150, &"monsters".to_string(), &keys(&["x"]))
        .unwrap();
    assert!(r.entities.is_empty());
}
