use statelink::compression::{DeltaCompressor, FieldCompressor};
use statelink::protocol::{ComponentData, DeltaChange, FieldValue, SerializedComponent, SerializedEntity};
use statelink::serialization::WorldSnapshot;

fn json_component(id: &str, text: &str) -> SerializedComponent {
    let value: serde_json::Value = serde_json::from_str(text).unwrap();
    SerializedComponent { id: id.to_string(), data: ComponentData::from_json_value(value) }
}

#[test]
fn test_delta_compression_initial() {
    let mut compressor = DeltaCompressor::new();

    let snapshot = WorldSnapshot {
        entities: vec![SerializedEntity {
            id: 1,
            components: vec![json_component("Position", "{\"x\": 10.0, \"y\": 20.0}")],
        }],
        timestamp: 100,
        version: "1.0.0".to_string(),
    };

    let delta = compressor.create_delta(snapshot);

    assert_eq!(delta.changes.len(), 2);
    assert!(matches!(delta.changes[0], DeltaChange::EntityAdded { .. }));
    assert!(matches!(delta.changes[1], DeltaChange::ComponentAdded { .. }));
}

#[test]
fn test_delta_compression_update() {
    let mut compressor = DeltaCompressor::new();

    let snapshot1 = WorldSnapshot {
        entities: vec![SerializedEntity {
            id: 1,
            components: vec![json_component("Position", "{\"x\": 10.0, \"y\": 20.0}")],
        }],
        timestamp: 100,
        version: "1.0.0".to_string(),
    };

    compressor.create_delta(snapshot1);

    let snapshot2 = WorldSnapshot {
        entities: vec![SerializedEntity {
            id: 1,
            components: vec![json_component("Position", "{\"x\": 15.0, \"y\": 20.0}")],
        }],
        timestamp: 200,
        version: "1.0.0".to_string(),
    };

    let delta = compressor.create_delta(snapshot2);

    assert!(delta.changes.iter().any(|c| matches!(
        c,
        DeltaChange::ComponentUpdated { .. } | DeltaChange::FieldsUpdated { .. }
    )));
}

#[test]
fn test_field_level_delta() {
    let compressor = FieldCompressor::new();

    let prev_fields = vec![
        ("x".to_string(), FieldValue::F64(10.0f64.to_bits())),
        ("y".to_string(), FieldValue::F64(20.0f64.to_bits())),
    ];

    let curr_fields = vec![
        ("x".to_string(), FieldValue::F64(15.0f64.to_bits())),
        ("y".to_string(), FieldValue::F64(20.0f64.to_bits())),
    ];

    let prev_component = SerializedComponent {
        id: "Position".to_string(),
        data: ComponentData::Structured(prev_fields),
    };

    let curr_component = SerializedComponent {
        id: "Position".to_string(),
        data: ComponentData::Structured(curr_fields),
    };

    let deltas = compressor.compute_field_deltas(&prev_component, &curr_component).unwrap();

    assert_eq!(deltas.len(), 1);
    assert_eq!(deltas[0].field_id, "x");
}

fn position_snapshot(x: f64, timestamp: u64) -> WorldSnapshot {
    WorldSnapshot {
        entities: vec![SerializedEntity {
            id: 1,
            components: vec![SerializedComponent {
                id: "Position".to_string(),
                data: ComponentData::Structured(vec![
                    ("x".to_string(), FieldValue::F64(x.to_bits())),
                    ("y".to_string(), FieldValue::F64(20.0f64.to_bits())),
                ]),
            }],
        }],
        timestamp,
        version: "1.0.0".to_string(),
    }
}

// Initial snapshot: a fresh compressor reports the entity, then its one
// component, against base timestamp zero.
#[test]
fn test_initial_snapshot_scenario() {
    let mut compressor = DeltaCompressor::new();
    let delta = compressor.create_delta(position_snapshot(10.0, 100));

    assert_eq!(delta.base_timestamp, 0);
    assert_eq!(delta.timestamp, 100);
    assert_eq!(delta.changes.len(), 2);
    assert!(matches!(delta.changes[0], DeltaChange::EntityAdded { entity_id: 1 }));
    match &delta.changes[1] {
        DeltaChange::ComponentAdded { entity_id, component_id, data } => {
            assert_eq!(*entity_id, 1);
            assert_eq!(component_id, "Position");
            match data {
                ComponentData::Structured(fields) => {
                    assert_eq!(fields.len(), 2);
                    assert!(fields.contains(&(
                        "x".to_string(),
                        FieldValue::F64(10.0f64.to_bits())
                    )));
                },
                _ => panic!("expected structured data"),
            }
        },
        other => panic!("expected a component addition, got {:?}", other),
    }
}

// Single-field update: only `x` changed, so the delta is one `FieldsUpdated`
// carrying exactly one field transition with the old and the new value.
#[test]
fn test_single_field_update_scenario() {
    let mut compressor = DeltaCompressor::new();
    compressor.create_delta(position_snapshot(10.0, 100));
    let delta = compressor.create_delta(position_snapshot(15.0, 200));

    assert_eq!(delta.base_timestamp, 100);
    assert_eq!(delta.changes.len(), 1);
    match &delta.changes[0] {
        DeltaChange::FieldsUpdated { entity_id, component_id, fields } => {
            assert_eq!(*entity_id, 1);
            assert_eq!(component_id, "Position");
            assert_eq!(fields.len(), 1);
            assert_eq!(fields[0].field_id, "x");
            assert_eq!(fields[0].old_value, Some(FieldValue::F64(10.0f64.to_bits())));
            assert_eq!(fields[0].new_value, FieldValue::F64(15.0f64.to_bits()));
        },
        other => panic!("expected a field-level update, got {:?}", other),
    }
}

// Without field compression the same change ships the whole new component.
#[test]
fn test_component_update_without_field_compression() {
    let mut compressor = DeltaCompressor::with_field_compression(false);
    compressor.create_delta(position_snapshot(10.0, 100));
    let delta = compressor.create_delta(position_snapshot(15.0, 200));

    assert_eq!(delta.changes.len(), 1);
    assert!(matches!(delta.changes[0], DeltaChange::ComponentUpdated { .. }));
}

// Empty-delta law on concrete values: the same snapshot twice gives an empty
// second delta.
#[test]
fn test_same_snapshot_empty_delta() {
    let mut compressor = DeltaCompressor::new();
    let snapshot = position_snapshot(10.0, 100);
    compressor.create_delta(snapshot.clone());
    let delta = compressor.create_delta(snapshot);
    assert!(delta.changes.is_empty());
    assert_eq!(delta.base_timestamp, 100);
}

// Reset law on concrete values: after a reset the next delta matches the
// first-ever delta of a fresh compressor.
#[test]
fn test_reset_restores_initial_delta() {
    let snapshot = position_snapshot(10.0, 100);

    let mut fresh = DeltaCompressor::new();
    let first = fresh.create_delta(snapshot.clone());

    let mut used = DeltaCompressor::new();
    used.create_delta(position_snapshot(99.0, 50));
    used.reset();
    let after_reset = used.create_delta(snapshot);

    assert_eq!(first.changes, after_reset.changes);
    assert_eq!(after_reset.base_timestamp, 0);
}

// Removing an entity or a component is reported as such.
#[test]
fn test_entity_and_component_removal() {
    let mut compressor = DeltaCompressor::new();
    let full = WorldSnapshot {
        entities: vec![
            SerializedEntity {
                id: 1,
                components: vec![
                    SerializedComponent {
                        id: "A".to_string(),
                        data: ComponentData::Binary(vec![1, 2]),
                    },
                    SerializedComponent {
                        id: "B".to_string(),
                        data: ComponentData::Binary(vec![3]),
                    },
                ],
            },
            SerializedEntity { id: 2, components: vec![] },
        ],
        timestamp: 1,
        version: "1".to_string(),
    };
    compressor.create_delta(full);

    let shrunk = WorldSnapshot {
        entities: vec![SerializedEntity {
            id: 1,
            components: vec![SerializedComponent {
                id: "A".to_string(),
                data: ComponentData::Binary(vec![1, 2]),
            }],
        }],
        timestamp: 2,
        version: "1".to_string(),
    };
    let delta = compressor.create_delta(shrunk);

    assert!(delta.changes.iter().any(|c| matches!(
        c,
        DeltaChange::ComponentRemoved { entity_id: 1, .. }
    )));
    assert!(delta.changes.iter().any(|c| matches!(c, DeltaChange::EntityRemoved { entity_id: 2 })));
    assert_eq!(delta.changes.len(), 2);
}

// A field present only before is reported with a Null new value; one present
// only after is reported with no old value.
#[test]
fn test_field_added_and_removed() {
    let compressor = FieldCompressor::new();
    let prev = SerializedComponent {
        id: "S".to_string(),
        data: ComponentData::Structured(vec![("gone".to_string(), FieldValue::U8(1))]),
    };
    let curr = SerializedComponent {
        id: "S".to_string(),
        data: ComponentData::Structured(vec![("fresh".to_string(), FieldValue::Bool(true))]),
    };
    let deltas = compressor.compute_field_deltas(&prev, &curr).unwrap();
    assert_eq!(deltas.len(), 2);
    assert_eq!(deltas[0].field_id, "fresh");
    assert_eq!(deltas[0].old_value, None);
    assert_eq!(deltas[0].new_value, FieldValue::Bool(true));
    assert_eq!(deltas[1].field_id, "gone");
    assert_eq!(deltas[1].old_value, Some(FieldValue::U8(1)));
    assert_eq!(deltas[1].new_value, FieldValue::Null);
}

// The field compressor declines incompatible or disabled comparisons.
#[test]
fn test_field_deltas_none_cases() {
    let disabled = FieldCompressor::with_enabled(false);
    let a = SerializedComponent {
        id: "S".to_string(),
        data: ComponentData::Structured(vec![]),
    };
    assert!(disabled.compute_field_deltas(&a, &a).is_none());

    let enabled = FieldCompressor::new();
    let blob = SerializedComponent {
        id: "S".to_string(),
        data: ComponentData::Binary(vec![1]),
    };
    assert!(enabled.compute_field_deltas(&a, &blob).is_none());

    let not_object = SerializedComponent {
        id: "S".to_string(),
        data: ComponentData::Json("[1, 2]".to_string()),
    };
    assert!(enabled.compute_field_deltas(&not_object, &not_object).is_none());
}

// JSON components diff field by field through the parsed object: a change
// of one member yields exactly one transition carrying the parsed values.
#[test]
fn test_json_field_level_delta() {
    let compressor = FieldCompressor::new();
    let prev = SerializedComponent {
        id: "State".to_string(),
        data: ComponentData::Json("{\"hp\": 10, \"name\": \"kit\"}".to_string()),
    };
    let curr = SerializedComponent {
        id: "State".to_string(),
        data: ComponentData::Json("{\"hp\": 12, \"name\": \"kit\"}".to_string()),
    };
    let deltas = compressor.compute_field_deltas(&prev, &curr).unwrap();
    assert_eq!(deltas.len(), 1);
    assert_eq!(deltas[0].field_id, "hp");
    assert_eq!(deltas[0].old_value, Some(FieldValue::I64(10)));
    assert_eq!(deltas[0].new_value, FieldValue::I64(12));
}
