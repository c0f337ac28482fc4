use statelink::codec::{decode_component, encode_component};
use statelink::protocol::{ComponentData, FieldValue, Message, SerializedComponent};
use statelink::schema::{ComponentSchema, FieldSchema, SchemaRegistry, SchemaValidator};
use statelink::serialization::BinaryFormat;
use statelink::transport::{MemoryTransport, Transport};
use statelink::protocol::FieldType;
use statelink::{LinkError, RateLimitConfig, RateLimiter};

#[test]
fn test_component_codec_round_trip() {
    let component = SerializedComponent {
        id: "Inventory".to_string(),
        data: ComponentData::Structured(vec![
            ("slots".to_string(), FieldValue::U8(12)),
            ("items".to_string(), FieldValue::Array(vec![FieldValue::Text("axe".to_string())])),
        ]),
    };
    let bytes = encode_component(&component);
    assert_eq!(decode_component(&bytes), Some(component));
}

#[test]
fn test_rate_limit_error_kind() {
    let mut limiter = RateLimiter::new(RateLimitConfig::new().with_max_messages(0));
    match limiter.check_and_record(1) {
        Err(LinkError::RateLimitExceeded(msg)) => {
            assert_eq!(msg, "Message rate limit exceeded: 0 msgs/sec");
        },
        other => panic!("expected a rate limit rejection, got {:?}", other),
    }
}

#[test]
fn test_byte_limit_error_kind() {
    let mut limiter = RateLimiter::new(
        RateLimitConfig::new().with_max_messages(10).with_max_bytes(5),
    );
    match limiter.check_and_record(6) {
        Err(LinkError::RateLimitExceeded(msg)) => {
            assert_eq!(msg, "Byte rate limit exceeded: 5 bytes/sec");
        },
        other => panic!("expected a byte-rate rejection, got {:?}", other),
    }
}

#[test]
fn test_schema_error_kinds() {
    let registry = SchemaRegistry::new();
    assert!(matches!(registry.get("nope"), Err(LinkError::SchemaNotFound(_))));

    registry.register(ComponentSchema::new("C".to_string(), 2)).unwrap();
    assert!(matches!(
        registry.register(ComponentSchema::new("C".to_string(), 2)),
        Err(LinkError::Unknown(_))
    ));
    assert!(matches!(
        registry.get_version("C", 9),
        Err(LinkError::SchemaMismatch { .. })
    ));

    let schema = ComponentSchema::new("P".to_string(), 1)
        .with_field(FieldSchema::new("x".to_string(), FieldType::F64));
    registry.register(schema).unwrap();
    let validator = SchemaValidator::new(registry);
    assert!(matches!(
        validator.validate_component("P", &vec![]),
        Err(LinkError::InvalidMessage(_))
    ));
}

#[test]
fn test_connection_closed_error_kind() {
    let mut transport = MemoryTransport::new(BinaryFormat::Json);
    transport.close().unwrap();
    assert!(matches!(
        transport.send(&Message::ping(1, 0, 1)),
        Err(LinkError::ConnectionClosed)
    ));
    assert!(matches!(transport.receive(), Err(LinkError::ConnectionClosed)));
}

#[test]
fn test_token_bucket_error_kind() {
    let mut bucket = statelink::TokenBucketRateLimiter::new(0, 0);
    match bucket.check_and_consume_at(1_000_000) {
        Err(LinkError::RateLimitExceeded(msg)) => {
            assert_eq!(msg, "Token bucket empty (capacity: 0)");
        },
        other => panic!("expected an empty-bucket rejection, got {:?}", other),
    }
}
