use statelink::codec::{decode_snapshot, encode_snapshot};
use statelink::protocol::{
    ComponentData, FieldValue, Message, MessageType, SerializedComponent, SerializedEntity,
};
use statelink::serialization::{BinaryFormat, StreamingDeserializer, StreamingSerializer};
use statelink::sync::{SyncConfig, SyncEvent, SyncManager, SyncMode};
use statelink::transport::{MemoryTransport, Transport};
use statelink::{format_bytes, message_summary, RateLimitConfig, WorldSnapshot};

#[test]
fn test_format_bytes() {
    assert_eq!(format_bytes(500), "500 bytes");
    assert_eq!(format_bytes(1024), "1.00 KB");
    assert_eq!(format_bytes(1536), "1.50 KB");
    assert_eq!(format_bytes(1024 * 1024), "1.00 MB");
    assert_eq!(format_bytes(1024 * 1024 * 1024), "1.00 GB");
}

#[test]
fn test_message_summary() {
    let ping = Message::ping(1, 0, 7);
    assert_eq!(message_summary(&ping), "Ping (seq: 7)");
    let ack = Message::ack(42, 1, 0, 12);
    assert_eq!(message_summary(&ack), "Ack (seq: 12)");
}

fn rich_snapshot() -> WorldSnapshot {
    WorldSnapshot {
        entities: vec![
            SerializedEntity {
                id: 7,
                components: vec![
                    SerializedComponent {
                        id: "Position".to_string(),
                        data: ComponentData::Structured(vec![
                            ("x".to_string(), FieldValue::F64(1.5f64.to_bits())),
                            ("tags".to_string(), FieldValue::Array(vec![
                                FieldValue::Text("héros".to_string()),
                                FieldValue::I64(-3),
                            ])),
                            ("meta".to_string(), FieldValue::Dict(vec![
                                ("depth".to_string(), FieldValue::U16(9)),
                            ])),
                        ]),
                    },
                    SerializedComponent {
                        id: "Blob".to_string(),
                        data: ComponentData::Binary(vec![0, 255, 7]),
                    },
                ],
            },
            SerializedEntity {
                id: 8,
                components: vec![SerializedComponent {
                    id: "Note".to_string(),
                    data: ComponentData::Json("{\"ok\":true}".to_string()),
                }],
            },
        ],
        timestamp: 123456,
        version: "2.1".to_string(),
    }
}

// Round trip: the fixed-schema binary codec returns the encoded snapshot
// exactly, including nested arrays, mappings, non-ASCII text and float bits.
#[test]
fn test_snapshot_codec_round_trip() {
    let snapshot = rich_snapshot();
    let bytes = encode_snapshot(&snapshot);
    let back = decode_snapshot(&bytes).unwrap();
    assert_eq!(snapshot, back);
}

#[test]
fn test_snapshot_codec_rejects_truncation() {
    let snapshot = rich_snapshot();
    let mut bytes = encode_snapshot(&snapshot);
    bytes.pop();
    assert!(decode_snapshot(&bytes).is_none());
    assert!(decode_snapshot(&vec![1, 2, 3]).is_none());
}

#[test]
fn test_streaming_frames() {
    let mut tx = StreamingSerializer::new(BinaryFormat::MessagePack);
    tx.write_frame(&vec![1, 2, 3]).unwrap();
    tx.write_frame(&vec![]).unwrap();
    tx.write_frame(&vec![9]).unwrap();
    let stream = tx.flush();

    let mut rx = StreamingDeserializer::new(BinaryFormat::MessagePack);
    // feed in two arbitrary pieces to exercise reassembly
    let (a, b) = stream.split_at(5);
    rx.feed(&a.to_vec());
    assert_eq!(rx.try_read_frame(), None);
    rx.feed(&b.to_vec());
    assert_eq!(rx.try_read_frame(), Some(vec![1, 2, 3]));
    assert_eq!(rx.try_read_frame(), Some(vec![]));
    assert_eq!(rx.try_read_frame(), Some(vec![9]));
    assert_eq!(rx.try_read_frame(), None);
}

#[test]
fn test_memory_transport() {
    let mut transport1 = MemoryTransport::new(BinaryFormat::MessagePack);
    let mut transport2 = MemoryTransport::new(BinaryFormat::MessagePack);

    let message = Message::ping(1, 0, 1);
    transport1.send(&message).unwrap();

    transport1.connect_to(&mut transport2);

    let received = transport2.receive().unwrap().unwrap();
    assert_eq!(message.header.msg_type, received.header.msg_type);
}

#[test]
fn test_transport_close() {
    let mut transport = MemoryTransport::new(BinaryFormat::Json);

    assert!(transport.is_connected());

    transport.close().unwrap();

    assert!(!transport.is_connected());

    let message = Message::ping(1, 0, 1);
    assert!(transport.send(&message).is_err());
}

#[test]
fn test_sync_manager_snapshot() {
    let transport = MemoryTransport::new(BinaryFormat::MessagePack);
    let config = SyncConfig::new().with_mode(SyncMode::Full);
    let mut manager = SyncManager::new(transport, config);

    let snapshot = WorldSnapshot {
        entities: vec![],
        timestamp: 100,
        version: "1.0.0".to_string(),
    };

    assert!(manager.send_snapshot(snapshot).is_ok());
    assert_eq!(manager.get_stats().sync_count, 1);
}

#[test]
fn test_sync_manager_delta() {
    let transport = MemoryTransport::new(BinaryFormat::MessagePack);
    let config = SyncConfig::new().with_mode(SyncMode::Delta);
    let mut manager = SyncManager::new(transport, config);

    let snapshot1 = WorldSnapshot {
        entities: vec![],
        timestamp: 100,
        version: "1.0.0".to_string(),
    };

    assert!(manager.send_delta(snapshot1).is_ok());

    let value: serde_json::Value = serde_json::from_str("{\"x\": 10.0}").unwrap();
    let snapshot2 = WorldSnapshot {
        entities: vec![SerializedEntity {
            id: 1,
            components: vec![SerializedComponent {
                id: "Position".to_string(),
                data: ComponentData::from_json_value(value),
            }],
        }],
        timestamp: 200,
        version: "1.0.0".to_string(),
    };

    assert!(manager.send_delta(snapshot2).is_ok());
    assert_eq!(manager.get_stats().sync_count, 1);
}

#[test]
fn test_sync_manager_rate_limiting() {
    let transport = MemoryTransport::new(BinaryFormat::MessagePack);
    let rate_config = RateLimitConfig::new().with_max_messages(2);
    let config = SyncConfig::new()
        .with_mode(SyncMode::Full)
        .with_rate_limiting(true)
        .with_rate_limit_config(rate_config);

    let mut manager = SyncManager::new(transport, config);

    let snapshot = WorldSnapshot {
        entities: vec![],
        timestamp: 100,
        version: "1.0.0".to_string(),
    };

    assert!(manager.send_snapshot(snapshot.clone()).is_ok());
    assert!(manager.send_snapshot(snapshot.clone()).is_ok());
    assert!(manager.send_snapshot(snapshot).is_err());
}

// Ping/pong: one side pings, the other receives the ping and answers with a
// pong on the spot, which the first side then receives.
#[test]
fn test_ping_pong_scenario() {
    let ta = MemoryTransport::new(BinaryFormat::Bincode);
    let tb = MemoryTransport::new(BinaryFormat::Bincode);
    let mut a = SyncManager::new(ta, SyncConfig::new());
    let mut b = SyncManager::new(tb, SyncConfig::new());

    a.ping().unwrap();
    shuttle(&mut a, &mut b);

    match b.receive().unwrap() {
        Some(SyncEvent::Ping) => {},
        other => panic!("expected a ping event, got {:?}", other),
    }

    shuttle(&mut a, &mut b);
    match a.receive().unwrap() {
        Some(SyncEvent::Pong) => {},
        other => panic!("expected a pong event, got {:?}", other),
    }
}

// Move queued messages between two managers' loopback transports, both
// directions at once.
fn shuttle(
    a: &mut SyncManager<MemoryTransport>,
    b: &mut SyncManager<MemoryTransport>,
) {
    a.get_transport_mut().connect_to(b.get_transport_mut());
}

#[test]
fn test_receive_events() {
    let transport = MemoryTransport::new(BinaryFormat::Json);
    let mut manager = SyncManager::new(transport, SyncConfig::new());
    // nothing queued: no event, no error
    assert!(matches!(manager.receive(), Ok(None)));
    assert!(manager.is_connected());
    manager.close().unwrap();
    assert!(matches!(manager.receive(), Err(statelink::LinkError::ConnectionClosed)));
}

#[test]
fn test_message_metadata_counts() {
    let changes = vec![
        statelink::DeltaChange::EntityAdded { entity_id: 1 },
        statelink::DeltaChange::EntityRemoved { entity_id: 2 },
        statelink::DeltaChange::ComponentUpdated {
            entity_id: 1,
            component_id: "A".to_string(),
            data: ComponentData::Binary(vec![]),
        },
    ];
    let message = Message::delta(changes, 0, 1, 5, 9);
    assert_eq!(message.header.msg_type, MessageType::Delta);
    assert_eq!(message.header.sequence, 9);
    match message.payload {
        statelink::protocol::MessagePayload::Delta(p) => {
            assert_eq!(p.metadata.change_count, 3);
            assert_eq!(p.metadata.entities_added, 1);
            assert_eq!(p.metadata.entities_removed, 1);
            assert_eq!(p.metadata.components_updated, 1);
        },
        _ => panic!("expected a delta payload"),
    }
}

#[test]
fn test_header_id_formula() {
    let m = Message::ping(3, 2, 5);
    assert_eq!(m.header.id, (2u64 << 20) | 5);
    assert_eq!(m.header.schema_version, 3);
}

// Processing messages directly: an error payload bumps the error counter,
// an ack maps to its id, and a ping leaves a pong queued on the transport.
#[test]
fn test_process_message_events() {
    let transport = MemoryTransport::new(BinaryFormat::Json);
    let mut manager = SyncManager::new(transport, SyncConfig::new());

    let ack = Message::ack(77, 1, 0, 1);
    match manager.process_message(ack) {
        Ok(SyncEvent::Ack(id)) => assert_eq!(id, 77),
        other => panic!("expected an ack event, got {:?}", other),
    }

    let error = Message::error(5, "boom".to_string(), 1, 0, 2);
    match manager.process_message(error) {
        Ok(SyncEvent::Error { code, message }) => {
            assert_eq!(code, 5);
            assert_eq!(message, "boom");
        },
        other => panic!("expected an error event, got {:?}", other),
    }
    assert_eq!(manager.get_stats().error_count, 1);

    let ping = Message::ping(1, 0, 3);
    match manager.process_message(ping) {
        Ok(SyncEvent::Ping) => {},
        other => panic!("expected a ping event, got {:?}", other),
    }
    let queued = manager.get_transport().get_send_buffer();
    assert_eq!(queued.len(), 1);
    assert_eq!(queued[0].header.msg_type, MessageType::Pong);
}
