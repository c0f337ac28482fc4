use statelink::protocol::FieldType;
use statelink::schema::{ComponentSchema, FieldSchema, SchemaRegistry, SchemaValidator};

#[test]
fn test_schema_registry() {
    let registry = SchemaRegistry::new();

    let schema = ComponentSchema::new("Position".to_string(), 1)
        .with_field(FieldSchema::new("x".to_string(), FieldType::F64))
        .with_field(FieldSchema::new("y".to_string(), FieldType::F64))
        .with_description("2D position component".to_string());

    registry.register(schema.clone()).unwrap();

    let retrieved = registry.get("Position").unwrap();
    assert_eq!(retrieved.component_id, "Position");
    assert_eq!(retrieved.fields.len(), 2);
}

#[test]
fn test_schema_versioning() {
    let registry = SchemaRegistry::new();

    let schema_v1 = ComponentSchema::new("Position".to_string(), 1)
        .with_field(FieldSchema::new("x".to_string(), FieldType::F64))
        .with_field(FieldSchema::new("y".to_string(), FieldType::F64));

    registry.register(schema_v1).unwrap();

    let schema_v2 = ComponentSchema::new("Position".to_string(), 2)
        .with_field(FieldSchema::new("x".to_string(), FieldType::F64))
        .with_field(FieldSchema::new("y".to_string(), FieldType::F64))
        .with_field(FieldSchema::new("z".to_string(), FieldType::F64).optional());

    registry.register(schema_v2).unwrap();

    let history = registry.get_version_history("Position").unwrap();
    assert_eq!(history.len(), 2);
    assert!(history.contains(&1));
    assert!(history.contains(&2));
}

#[test]
fn test_schema_validation() {
    let registry = SchemaRegistry::new();

    let schema = ComponentSchema::new("Position".to_string(), 1)
        .with_field(FieldSchema::new("x".to_string(), FieldType::F64))
        .with_field(FieldSchema::new("y".to_string(), FieldType::F64));

    registry.register(schema).unwrap();

    let validator = SchemaValidator::new(registry);

    let fields = vec![
        ("x".to_string(), FieldType::F64),
        ("y".to_string(), FieldType::F64),
    ];

    assert!(validator.validate_component("Position", &fields).is_ok());

    let invalid_fields = vec![("x".to_string(), FieldType::F64)];

    assert!(validator.validate_component("Position", &invalid_fields).is_err());
}

// The schema round trip: the validator accepts the declared layout, rejects
// a missing required field and a wrong type, ignores extras, and a second
// registration of the same version fails.
#[test]
fn test_schema_round_trip_scenario() {
    let registry = SchemaRegistry::new();
    let schema = ComponentSchema::new("Position".to_string(), 1)
        .with_field(FieldSchema::new("x".to_string(), FieldType::F64))
        .with_field(FieldSchema::new("y".to_string(), FieldType::F64));
    registry.register(schema.clone()).unwrap();

    let validator = SchemaValidator::new(registry.clone());

    let ok = vec![
        ("x".to_string(), FieldType::F64),
        ("y".to_string(), FieldType::F64),
    ];
    assert!(validator.validate_component("Position", &ok).is_ok());

    let missing = vec![("x".to_string(), FieldType::F64)];
    assert!(validator.validate_component("Position", &missing).is_err());

    let wrong_type = vec![
        ("x".to_string(), FieldType::F64),
        ("y".to_string(), FieldType::I64),
    ];
    assert!(validator.validate_component("Position", &wrong_type).is_err());

    let extras = vec![
        ("x".to_string(), FieldType::F64),
        ("y".to_string(), FieldType::F64),
        ("extra".to_string(), FieldType::Text),
    ];
    assert!(validator.validate_component("Position", &extras).is_ok());

    assert!(registry.register(schema).is_err());
}

// Schema monotonicity on concrete versions: after version three, only
// strictly larger versions register.
#[test]
fn test_register_monotonic() {
    let registry = SchemaRegistry::new();
    registry.register(ComponentSchema::new("C".to_string(), 3)).unwrap();
    assert!(registry.register(ComponentSchema::new("C".to_string(), 3)).is_err());
    assert!(registry.register(ComponentSchema::new("C".to_string(), 2)).is_err());
    assert!(registry.register(ComponentSchema::new("C".to_string(), 4)).is_ok());
    assert_eq!(registry.get("C").unwrap().version, 4);
}

#[test]
fn test_get_version_and_errors() {
    let registry = SchemaRegistry::new();
    assert!(matches!(
        registry.get("absent"),
        Err(statelink::LinkError::SchemaNotFound(_))
    ));
    registry.register(ComponentSchema::new("C".to_string(), 2)).unwrap();
    assert!(registry.get_version("C", 2).is_ok());
    assert!(matches!(
        registry.get_version("C", 1),
        Err(statelink::LinkError::SchemaMismatch { .. })
    ));
    assert!(registry.has("C"));
    assert!(!registry.has("D"));
    assert!(registry.validate_compatibility(2, 3));
    assert!(registry.validate_compatibility(2, 2));
    assert!(!registry.validate_compatibility(3, 2));
    assert_eq!(registry.get_all().unwrap().len(), 1);
    registry.clear().unwrap();
    assert!(!registry.has("C"));
    assert!(registry.get_version_history("C").unwrap().is_empty());
}

#[test]
fn test_field_schema_builders() {
    let field = FieldSchema::new("hp".to_string(), FieldType::U32)
        .optional()
        .with_default("100".to_string())
        .with_description("hit points".to_string());
    assert!(field.optional);
    assert_eq!(field.default_value.as_deref(), Some("100"));

    let schema = ComponentSchema::new("Health".to_string(), 1).with_field(field);
    assert!(schema.get_field("hp").is_some());
    assert!(schema.get_field("mana").is_none());
    assert!(schema.validate_field("hp", &FieldType::U32));
    assert!(!schema.validate_field("hp", &FieldType::I64));
}

// Clones are handles to one shared storage: a registration or a clear
// through either handle is immediately observable through both, while the
// current wire version stays per-handle.
#[test]
fn test_clone_shares_storage() {
    let registry = SchemaRegistry::new();
    let sibling = registry.clone();

    registry.register(ComponentSchema::new("Position".to_string(), 1)).unwrap();
    assert!(sibling.has("Position"));
    assert_eq!(sibling.get("Position").unwrap().version, 1);

    sibling.register(ComponentSchema::new("Velocity".to_string(), 2)).unwrap();
    assert!(registry.has("Velocity"));
    assert_eq!(
        registry.get_version_history("Position").unwrap(),
        sibling.get_version_history("Position").unwrap()
    );

    let mut independent_version = registry.clone();
    independent_version.set_current_version(9);
    assert_eq!(independent_version.get_current_version(), 9);
    assert_eq!(registry.get_current_version(), 1);
    assert_eq!(sibling.get_current_version(), 1);

    registry.clear().unwrap();
    assert!(!sibling.has("Position"));
    assert!(!sibling.has("Velocity"));
}

// A validator built on a cloned handle keeps seeing later registrations.
#[test]
fn test_validator_sees_later_registrations() {
    let registry = SchemaRegistry::new();
    let validator = SchemaValidator::new(registry.clone());

    let fields = vec![("x".to_string(), FieldType::F64)];
    assert!(matches!(
        validator.validate_component("Position", &fields),
        Err(statelink::LinkError::SchemaNotFound(_))
    ));

    registry
        .register(
            ComponentSchema::new("Position".to_string(), 1)
                .with_field(FieldSchema::new("x".to_string(), FieldType::F64)),
        )
        .unwrap();

    assert!(validator.validate_component("Position", &fields).is_ok());
}
