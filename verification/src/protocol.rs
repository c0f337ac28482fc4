//! Wire protocol: message envelope, payload variants, and the entity /
//! component data model that snapshots and deltas carry.
//!
//! Every value is modelled by a deep view (`*V` types) over `Seq` so that
//! contracts elsewhere can speak about structural content. Float-valued
//! fields carry the IEEE-754 bit pattern (`u32` / `u64`); structural
//! equality of floats is bit-pattern equality, as the wire contract demands.
//! Timestamps are integer milliseconds.

use vstd::prelude::*;

verus! {

pub type EntityId = u32;

pub type ComponentId = String;

pub type FieldId = String;

/// Discriminants are fixed on the wire by the codec in the order written
/// here, starting at zero.
#[derive(Debug, Clone, Copy, PartialEq, Eq, Hash, Structural)]
pub enum MessageType {
    Snapshot,
    Delta,
    RequestSnapshot,
    Ack,
    Ping,
    Pong,
    SchemaSync,
    Error,
}

#[derive(Debug, Clone, Copy, PartialEq, Eq, Structural)]
pub struct MessageHeader {
    pub msg_type: MessageType,
    /// Wall-clock milliseconds at creation.
    pub timestamp: u64,
    /// Correlation token derived from timestamp and sequence; not unique.
    pub id: u64,
    /// Strictly increasing per producer.
    pub sequence: u64,
    pub schema_version: u32,
}

/// The correlation token packs the low 44 bits of the timestamp above the
/// low 20 bits of the sequence.
pub open spec fn header_id(timestamp: u64, sequence: u64) -> u64 {
    (timestamp << 20) | (sequence & 0xFFFFF)
}

impl MessageHeader {
    pub fn new(msg_type: MessageType, schema_version: u32, timestamp: u64, sequence: u64) -> (h:
        MessageHeader)
        ensures
            h == (MessageHeader {
                msg_type,
                timestamp,
                id: header_id(timestamp, sequence),
                sequence,
                schema_version,
            }),
    {
        MessageHeader {
            msg_type,
            timestamp,
            id: (timestamp << 20u64) | (sequence & 0xFFFFFu64),
            sequence,
            schema_version,
        }
    }
}

#[derive(Debug, Clone, Copy, PartialEq, Eq, Structural)]
pub enum CompressionType {
    Uncompressed,
    Deflate,
    Lz4,
    Zstd,
}

#[derive(Debug, Clone, Copy, PartialEq, Eq, Hash, Structural)]
pub enum FieldType {
    Null,
    Bool,
    U8,
    U16,
    U32,
    U64,
    I8,
    I16,
    I32,
    I64,
    F32,
    F64,
    Text,
    Bytes,
    Array,
    Dict,
}

/// A single field's value: a closed tagged union over scalars, strings,
/// byte blobs, arrays, and string-keyed mappings. `F32` / `F64` carry the
/// bit pattern of the float so that equality is bit-pattern equality.
#[derive(Debug, PartialEq)]
pub enum FieldValue {
    Null,
    Bool(bool),
    U8(u8),
    U16(u16),
    U32(u32),
    U64(u64),
    I8(i8),
    I16(i16),
    I32(i32),
    I64(i64),
    F32(u32),
    F64(u64),
    Text(String),
    Bytes(Vec<u8>),
    Array(Vec<FieldValue>),
    Dict(Vec<(String, FieldValue)>),
}

pub enum FieldValueV {
    Null,
    Bool(bool),
    U8(u8),
    U16(u16),
    U32(u32),
    U64(u64),
    I8(i8),
    I16(i16),
    I32(i32),
    I64(i64),
    F32(u32),
    F64(u64),
    Text(Seq<char>),
    Bytes(Seq<u8>),
    Array(Seq<FieldValueV>),
    Dict(Seq<(Seq<char>, FieldValueV)>),
}

impl DeepView for FieldValue {
    type V = FieldValueV;

    open spec fn deep_view(&self) -> FieldValueV {
        fv_view(*self)
    }
}

/// Structural content of one field value.
pub open spec fn fv_view(v: FieldValue) -> FieldValueV
    decreases v,
    via fv_view_dec
{
    match v {
        FieldValue::Null => FieldValueV::Null,
        FieldValue::Bool(b) => FieldValueV::Bool(b),
        FieldValue::U8(x) => FieldValueV::U8(x),
        FieldValue::U16(x) => FieldValueV::U16(x),
        FieldValue::U32(x) => FieldValueV::U32(x),
        FieldValue::U64(x) => FieldValueV::U64(x),
        FieldValue::I8(x) => FieldValueV::I8(x),
        FieldValue::I16(x) => FieldValueV::I16(x),
        FieldValue::I32(x) => FieldValueV::I32(x),
        FieldValue::I64(x) => FieldValueV::I64(x),
        FieldValue::F32(x) => FieldValueV::F32(x),
        FieldValue::F64(x) => FieldValueV::F64(x),
        FieldValue::Text(s) => FieldValueV::Text(s@),
        FieldValue::Bytes(b) => FieldValueV::Bytes(b@),
        FieldValue::Array(a) => FieldValueV::Array(fv_seq_view(a@)),
        FieldValue::Dict(m) => FieldValueV::Dict(fv_pairs_view(m@)),
    }
}

#[via_fn]
proof fn fv_view_dec(v: FieldValue) {
    broadcast use vstd::std_specs::vec::group_vec_axioms;

    match v {
        FieldValue::Array(a) => {
            assert(decreases_to!(v => a));
            assert(decreases_to!(a => a@));
        },
        FieldValue::Dict(m) => {
            assert(decreases_to!(v => m));
            assert(decreases_to!(m => m@));
        },
        _ => {},
    }
}

/// Element-wise structural content of an array of field values.
pub open spec fn fv_seq_view(s: Seq<FieldValue>) -> Seq<FieldValueV>
    decreases s,
    via fv_seq_view_dec
{
    if s.len() == 0 {
        Seq::empty()
    } else {
        fv_seq_view(s.drop_last()).push(fv_view(s.last()))
    }
}

#[via_fn]
proof fn fv_seq_view_dec(s: Seq<FieldValue>) {
    if s.len() > 0 {
        vstd::seq::axiom_seq_subrange_decreases(s, 0, s.len() - 1);
        assert(s.drop_last() == s.subrange(0, s.len() - 1));
        vstd::seq::axiom_seq_index_decreases(s, s.len() - 1);
        assert(s.last() == s[s.len() - 1]);
    }
}

/// Entry-wise structural content of a string-keyed field mapping.
pub open spec fn fv_pairs_view(s: Seq<(String, FieldValue)>) -> Seq<(Seq<char>, FieldValueV)>
    decreases s,
    via fv_pairs_view_dec
{
    if s.len() == 0 {
        Seq::empty()
    } else {
        fv_pairs_view(s.drop_last()).push((s.last().0@, fv_view(s.last().1)))
    }
}

#[via_fn]
proof fn fv_pairs_view_dec(s: Seq<(String, FieldValue)>) {
    if s.len() > 0 {
        vstd::seq::axiom_seq_subrange_decreases(s, 0, s.len() - 1);
        assert(s.drop_last() == s.subrange(0, s.len() - 1));
        vstd::seq::axiom_seq_index_decreases(s, s.len() - 1);
        assert(s.last() == s[s.len() - 1]);
        assert(decreases_to!(s.last() => s.last().1));
    }
}

/// `fv_seq_view` maps the sequence element by element.
pub broadcast proof fn lemma_fv_seq_view_props(s: Seq<FieldValue>)
    ensures
        (#[trigger] fv_seq_view(s)).len() == s.len(),
        forall|i: int| 0 <= i < s.len() ==> fv_seq_view(s)[i] == fv_view(s[i]),
    decreases s.len(),
{
    if s.len() > 0 {
        lemma_fv_seq_view_props(s.drop_last());
    }
}

/// `fv_pairs_view` maps the entries one by one, viewing key and value.
pub broadcast proof fn lemma_fv_pairs_view_props(s: Seq<(String, FieldValue)>)
    ensures
        (#[trigger] fv_pairs_view(s)).len() == s.len(),
        forall|i: int|
            0 <= i < s.len() ==> fv_pairs_view(s)[i] == (s[i].0@, fv_view(s[i].1)),
    decreases s.len(),
{
    if s.len() > 0 {
        lemma_fv_pairs_view_props(s.drop_last());
    }
}

/// The deep view of a vector of field values is `fv_seq_view` of its view.
pub broadcast proof fn lemma_vec_fv_deep_view(v: Vec<FieldValue>)
    ensures
        #[trigger] v.deep_view() == fv_seq_view(v@),
{
    broadcast use lemma_fv_seq_view_props;

    assert(v.deep_view() =~= fv_seq_view(v@));
}

/// The deep view of a vector of field-map entries is `fv_pairs_view` of its
/// view.
pub broadcast proof fn lemma_vec_fv_pairs_deep_view(v: Vec<(String, FieldValue)>)
    ensures
        #[trigger] v.deep_view() == fv_pairs_view(v@),
{
    broadcast use lemma_fv_pairs_view_props;

    assert(v.deep_view() =~= fv_pairs_view(v@));
}

impl Clone for FieldValue {
    /// A clone preserves the structural content exactly.
    fn clone(&self) -> (res: Self)
        ensures
            res.deep_view() == self.deep_view(),
        decreases self,
    {
        broadcast use {lemma_fv_seq_view_props, lemma_fv_pairs_view_props};

        match self {
            FieldValue::Null => FieldValue::Null,
            FieldValue::Bool(b) => FieldValue::Bool(*b),
            FieldValue::U8(v) => FieldValue::U8(*v),
            FieldValue::U16(v) => FieldValue::U16(*v),
            FieldValue::U32(v) => FieldValue::U32(*v),
            FieldValue::U64(v) => FieldValue::U64(*v),
            FieldValue::I8(v) => FieldValue::I8(*v),
            FieldValue::I16(v) => FieldValue::I16(*v),
            FieldValue::I32(v) => FieldValue::I32(*v),
            FieldValue::I64(v) => FieldValue::I64(*v),
            FieldValue::F32(v) => FieldValue::F32(*v),
            FieldValue::F64(v) => FieldValue::F64(*v),
            FieldValue::Text(s) => FieldValue::Text(s.clone()),
            FieldValue::Bytes(b) => FieldValue::Bytes(b.clone()),
            FieldValue::Array(a) => {
                let mut out: Vec<FieldValue> = Vec::new();
                let mut i: usize = 0;
                while i < a.len()
                    invariant
                        *self == FieldValue::Array(*a),
                        0 <= i <= a@.len(),
                        fv_seq_view(out@) == fv_seq_view(a@.take(i as int)),
                        out@.len() == i,
                    decreases a@.len() - i,
                {
                    proof {
                        broadcast use vstd::std_specs::vec::group_vec_axioms;

                        assert(decreases_to!(*self => (*self)->Array_0));
                        assert((*self)->Array_0 == *a);
                        assert(decreases_to!(*a => a@));
                        assert(decreases_to!(a@ => a@[i as int]));
                    }
                    let e = a[i].clone();
                    let ghost prev = out@;
                    out.push(e);
                    proof {
                        assert(out@.drop_last() =~= prev);
                        assert(out@.last() == e);
                        assert(fv_seq_view(out@) == fv_seq_view(prev).push(fv_view(e)));
                        assert(a@.take(i + 1).drop_last() =~= a@.take(i as int));
                        assert(a@.take(i + 1).last() == a@[i as int]);
                        assert(fv_seq_view(a@.take(i + 1)) == fv_seq_view(a@.take(i as int)).push(
                            fv_view(a@[i as int]),
                        ));
                    }
                    i = i + 1;
                }
                proof {
                    assert(a@.take(a@.len() as int) =~= a@);
                }
                FieldValue::Array(out)
            },
            FieldValue::Dict(m) => {
                let mut out: Vec<(String, FieldValue)> = Vec::new();
                let mut i: usize = 0;
                while i < m.len()
                    invariant
                        *self == FieldValue::Dict(*m),
                        0 <= i <= m@.len(),
                        fv_pairs_view(out@) == fv_pairs_view(m@.take(i as int)),
                        out@.len() == i,
                    decreases m@.len() - i,
                {
                    proof {
                        broadcast use vstd::std_specs::vec::group_vec_axioms;

                        assert(decreases_to!(*self => (*self)->Dict_0));
                        assert((*self)->Dict_0 == *m);
                        assert(decreases_to!(*m => m@));
                        assert(decreases_to!(m@ => m@[i as int]));
                        assert(decreases_to!(m@[i as int] => m@[i as int].1));
                    }
                    let (k, v) = &m[i];
                    let e = (k.clone(), v.clone());
                    let ghost prev = out@;
                    proof {
                        assert(fv_view(e.1) == fv_view(m@[i as int].1));
                        assert(e.0@ == m@[i as int].0@);
                    }
                    out.push(e);
                    proof {
                        assert(out@.drop_last() =~= prev);
                        assert(out@.last() == e);
                        assert(fv_pairs_view(out@) == fv_pairs_view(prev).push((e.0@, fv_view(e.1))));
                        assert(m@.take(i + 1).drop_last() =~= m@.take(i as int));
                        assert(m@.take(i + 1).last() == m@[i as int]);
                        assert(fv_pairs_view(m@.take(i + 1)) == fv_pairs_view(m@.take(i as int)).push(
                            (m@[i as int].0@, fv_view(m@[i as int].1)),
                        ));
                    }
                    i = i + 1;
                }
                proof {
                    assert(m@.take(m@.len() as int) =~= m@);
                }
                FieldValue::Dict(out)
            },
        }
    }
}

/// The data carried by one component: an opaque byte blob, a JSON text, or
/// a structured string-keyed field mapping.
#[derive(Debug, PartialEq)]
pub enum ComponentData {
    Binary(Vec<u8>),
    Json(String),
    Structured(Vec<(String, FieldValue)>),
}

pub enum ComponentDataV {
    Binary(Seq<u8>),
    Json(Seq<char>),
    Structured(Seq<(Seq<char>, FieldValueV)>),
}

impl DeepView for ComponentData {
    type V = ComponentDataV;

    open spec fn deep_view(&self) -> ComponentDataV {
        match self {
            ComponentData::Binary(b) => ComponentDataV::Binary(b@),
            ComponentData::Json(s) => ComponentDataV::Json(s@),
            ComponentData::Structured(m) => ComponentDataV::Structured(m.deep_view()),
        }
    }
}

impl Clone for ComponentData {
    /// A clone preserves the structural content exactly.
    fn clone(&self) -> (res: Self)
        ensures
            res.deep_view() == self.deep_view(),
    {
        match self {
            ComponentData::Binary(b) => ComponentData::Binary(b.clone()),
            ComponentData::Json(s) => ComponentData::Json(s.clone()),
            ComponentData::Structured(m) => {
                broadcast use lemma_vec_fv_pairs_deep_view;

                ComponentData::Structured(clone_field_pairs(m))
            },
        }
    }
}

/// Clone a field mapping entry by entry, preserving its structural content.
fn clone_field_pairs(m: &Vec<(String, FieldValue)>) -> (out: Vec<(String, FieldValue)>)
    ensures
        out.deep_view() == m.deep_view(),
        out@.len() == m@.len(),
{
    broadcast use {lemma_fv_pairs_view_props, lemma_vec_fv_pairs_deep_view};

    let mut out: Vec<(String, FieldValue)> = Vec::new();
    let mut i: usize = 0;
    while i < m.len()
        invariant
            0 <= i <= m@.len(),
            fv_pairs_view(out@) == fv_pairs_view(m@.take(i as int)),
            out@.len() == i,
        decreases m@.len() - i,
    {
        let (k, v) = &m[i];
        let e = (k.clone(), v.clone());
        let ghost prev = out@;
        proof {
            assert(fv_view(e.1) == fv_view(m@[i as int].1));
        }
        out.push(e);
        proof {
            assert(out@.drop_last() =~= prev);
            assert(fv_pairs_view(out@) == fv_pairs_view(prev).push((e.0@, fv_view(e.1))));
            assert(m@.take(i + 1).drop_last() =~= m@.take(i as int));
            assert(m@.take(i + 1).last() == m@[i as int]);
            assert(fv_pairs_view(m@.take(i + 1)) == fv_pairs_view(m@.take(i as int)).push(
                (m@[i as int].0@, fv_view(m@[i as int].1)),
            ));
        }
        i = i + 1;
    }
    proof {
        assert(m@.take(m@.len() as int) =~= m@);
        assert(out.deep_view() =~= fv_pairs_view(out@));
        assert(m.deep_view() =~= fv_pairs_view(m@));
    }
    out
}

#[derive(Debug, PartialEq)]
pub struct SerializedComponent {
    pub id: ComponentId,
    pub data: ComponentData,
}

pub struct SerializedComponentV {
    pub id: Seq<char>,
    pub data: ComponentDataV,
}

impl DeepView for SerializedComponent {
    type V = SerializedComponentV;

    open spec fn deep_view(&self) -> SerializedComponentV {
        SerializedComponentV { id: self.id@, data: self.data.deep_view() }
    }
}

impl Clone for SerializedComponent {
    /// A clone preserves the structural content exactly.
    fn clone(&self) -> (res: Self)
        ensures
            res.deep_view() == self.deep_view(),
    {
        SerializedComponent { id: self.id.clone(), data: self.data.clone() }
    }
}

#[derive(Debug, PartialEq)]
pub struct SerializedEntity {
    pub id: EntityId,
    pub components: Vec<SerializedComponent>,
}

pub struct SerializedEntityV {
    pub id: EntityId,
    pub components: Seq<SerializedComponentV>,
}

impl DeepView for SerializedEntity {
    type V = SerializedEntityV;

    open spec fn deep_view(&self) -> SerializedEntityV {
        SerializedEntityV { id: self.id, components: self.components.deep_view() }
    }
}

impl Clone for SerializedEntity {
    /// A clone preserves the structural content exactly.
    fn clone(&self) -> (res: Self)
        ensures
            res.deep_view() == self.deep_view(),
    {
        let mut components: Vec<SerializedComponent> = Vec::new();
        let mut i: usize = 0;
        while i < self.components.len()
            invariant
                0 <= i <= self.components@.len(),
                components@.len() == i,
                forall|j: int|
                    0 <= j < i ==> #[trigger] components@[j].deep_view()
                        == self.components@[j].deep_view(),
            decreases self.components@.len() - i,
        {
            components.push(self.components[i].clone());
            i = i + 1;
        }
        proof {
            assert(components.deep_view() =~= self.components.deep_view());
        }
        SerializedEntity { id: self.id, components }
    }
}

#[derive(Debug, Clone, Copy, PartialEq, Eq, Structural)]
pub struct SnapshotMetadata {
    /// World time of the snapshot, in milliseconds.
    pub world_time: u64,
    pub entity_count: u32,
    pub component_count: u32,
    pub compression: CompressionType,
}

#[derive(Debug, PartialEq)]
pub struct SnapshotPayload {
    pub entities: Vec<SerializedEntity>,
    pub metadata: SnapshotMetadata,
}

pub struct SnapshotPayloadV {
    pub entities: Seq<SerializedEntityV>,
    pub metadata: SnapshotMetadata,
}

impl DeepView for SnapshotPayload {
    type V = SnapshotPayloadV;

    open spec fn deep_view(&self) -> SnapshotPayloadV {
        SnapshotPayloadV { entities: self.entities.deep_view(), metadata: self.metadata }
    }
}

#[derive(Debug, Clone, Copy, PartialEq, Eq, Structural)]
pub struct DeltaMetadata {
    pub change_count: u32,
    pub entities_added: u32,
    pub entities_removed: u32,
    pub components_updated: u32,
}

/// One observed difference between two successive snapshots.
#[derive(Debug, PartialEq)]
pub enum DeltaChange {
    EntityAdded { entity_id: EntityId },
    EntityRemoved { entity_id: EntityId },
    ComponentAdded { entity_id: EntityId, component_id: ComponentId, data: ComponentData },
    ComponentRemoved { entity_id: EntityId, component_id: ComponentId },
    ComponentUpdated { entity_id: EntityId, component_id: ComponentId, data: ComponentData },
    FieldsUpdated { entity_id: EntityId, component_id: ComponentId, fields: Vec<FieldDelta> },
}

pub enum DeltaChangeV {
    EntityAdded { entity_id: EntityId },
    EntityRemoved { entity_id: EntityId },
    ComponentAdded { entity_id: EntityId, component_id: Seq<char>, data: ComponentDataV },
    ComponentRemoved { entity_id: EntityId, component_id: Seq<char> },
    ComponentUpdated { entity_id: EntityId, component_id: Seq<char>, data: ComponentDataV },
    FieldsUpdated { entity_id: EntityId, component_id: Seq<char>, fields: Seq<FieldDeltaV> },
}

impl DeepView for DeltaChange {
    type V = DeltaChangeV;

    open spec fn deep_view(&self) -> DeltaChangeV {
        match self {
            DeltaChange::EntityAdded { entity_id } => DeltaChangeV::EntityAdded {
                entity_id: *entity_id,
            },
            DeltaChange::EntityRemoved { entity_id } => DeltaChangeV::EntityRemoved {
                entity_id: *entity_id,
            },
            DeltaChange::ComponentAdded { entity_id, component_id, data } => {
                DeltaChangeV::ComponentAdded {
                    entity_id: *entity_id,
                    component_id: component_id@,
                    data: data.deep_view(),
                }
            },
            DeltaChange::ComponentRemoved { entity_id, component_id } => {
                DeltaChangeV::ComponentRemoved {
                    entity_id: *entity_id,
                    component_id: component_id@,
                }
            },
            DeltaChange::ComponentUpdated { entity_id, component_id, data } => {
                DeltaChangeV::ComponentUpdated {
                    entity_id: *entity_id,
                    component_id: component_id@,
                    data: data.deep_view(),
                }
            },
            DeltaChange::FieldsUpdated { entity_id, component_id, fields } => {
                DeltaChangeV::FieldsUpdated {
                    entity_id: *entity_id,
                    component_id: component_id@,
                    fields: fields.deep_view(),
                }
            },
        }
    }
}

/// One field's transition: `old_value` of `None` means the field was added;
/// a `new_value` of `Null` marks a removal.
#[derive(Debug, PartialEq)]
pub struct FieldDelta {
    pub field_id: FieldId,
    pub old_value: Option<FieldValue>,
    pub new_value: FieldValue,
}

pub struct FieldDeltaV {
    pub field_id: Seq<char>,
    pub old_value: Option<FieldValueV>,
    pub new_value: FieldValueV,
}

impl DeepView for FieldDelta {
    type V = FieldDeltaV;

    open spec fn deep_view(&self) -> FieldDeltaV {
        FieldDeltaV {
            field_id: self.field_id@,
            old_value: self.old_value.deep_view(),
            new_value: self.new_value.deep_view(),
        }
    }
}

impl Clone for FieldDelta {
    /// A clone preserves the structural content exactly.
    fn clone(&self) -> (res: Self)
        ensures
            res.deep_view() == self.deep_view(),
    {
        FieldDelta {
            field_id: self.field_id.clone(),
            old_value: match &self.old_value {
                Some(v) => Some(v.clone()),
                None => None,
            },
            new_value: self.new_value.clone(),
        }
    }
}

#[derive(Debug, PartialEq)]
pub struct DeltaPayload {
    pub changes: Vec<DeltaChange>,
    /// Milliseconds timestamp of the snapshot the changes are relative to.
    pub base_timestamp: u64,
    pub metadata: DeltaMetadata,
}

pub struct DeltaPayloadV {
    pub changes: Seq<DeltaChangeV>,
    pub base_timestamp: u64,
    pub metadata: DeltaMetadata,
}

impl DeepView for DeltaPayload {
    type V = DeltaPayloadV;

    open spec fn deep_view(&self) -> DeltaPayloadV {
        DeltaPayloadV {
            changes: self.changes.deep_view(),
            base_timestamp: self.base_timestamp,
            metadata: self.metadata,
        }
    }
}

#[derive(Debug, PartialEq)]
pub struct FieldSchemaInfo {
    pub field_id: FieldId,
    pub field_type: FieldType,
    pub optional: bool,
}

pub struct FieldSchemaInfoV {
    pub field_id: Seq<char>,
    pub field_type: FieldType,
    pub optional: bool,
}

impl DeepView for FieldSchemaInfo {
    type V = FieldSchemaInfoV;

    open spec fn deep_view(&self) -> FieldSchemaInfoV {
        FieldSchemaInfoV {
            field_id: self.field_id@,
            field_type: self.field_type,
            optional: self.optional,
        }
    }
}

#[derive(Debug, PartialEq)]
pub struct ComponentSchemaInfo {
    pub component_id: ComponentId,
    pub version: u32,
    pub fields: Vec<FieldSchemaInfo>,
}

pub struct ComponentSchemaInfoV {
    pub component_id: Seq<char>,
    pub version: u32,
    pub fields: Seq<FieldSchemaInfoV>,
}

impl DeepView for ComponentSchemaInfo {
    type V = ComponentSchemaInfoV;

    open spec fn deep_view(&self) -> ComponentSchemaInfoV {
        ComponentSchemaInfoV {
            component_id: self.component_id@,
            version: self.version,
            fields: self.fields.deep_view(),
        }
    }
}

#[derive(Debug, PartialEq)]
pub struct SchemaSyncPayload {
    pub schemas: Vec<ComponentSchemaInfo>,
}

pub struct SchemaSyncPayloadV {
    pub schemas: Seq<ComponentSchemaInfoV>,
}

impl DeepView for SchemaSyncPayload {
    type V = SchemaSyncPayloadV;

    open spec fn deep_view(&self) -> SchemaSyncPayloadV {
        SchemaSyncPayloadV { schemas: self.schemas.deep_view() }
    }
}

/// The payload of one wire message, keyed by the header's message type.
#[derive(Debug, PartialEq)]
pub enum MessagePayload {
    Snapshot(SnapshotPayload),
    Delta(DeltaPayload),
    RequestSnapshot,
    Ack { ack_id: u64 },
    Ping,
    Pong,
    SchemaSync(SchemaSyncPayload),
    Error { code: u32, message: String },
}

pub enum MessagePayloadV {
    Snapshot(SnapshotPayloadV),
    Delta(DeltaPayloadV),
    RequestSnapshot,
    Ack { ack_id: u64 },
    Ping,
    Pong,
    SchemaSync(SchemaSyncPayloadV),
    Error { code: u32, message: Seq<char> },
}

impl DeepView for MessagePayload {
    type V = MessagePayloadV;

    open spec fn deep_view(&self) -> MessagePayloadV {
        match self {
            MessagePayload::Snapshot(p) => MessagePayloadV::Snapshot(p.deep_view()),
            MessagePayload::Delta(p) => MessagePayloadV::Delta(p.deep_view()),
            MessagePayload::RequestSnapshot => MessagePayloadV::RequestSnapshot,
            MessagePayload::Ack { ack_id } => MessagePayloadV::Ack { ack_id: *ack_id },
            MessagePayload::Ping => MessagePayloadV::Ping,
            MessagePayload::Pong => MessagePayloadV::Pong,
            MessagePayload::SchemaSync(p) => MessagePayloadV::SchemaSync(p.deep_view()),
            MessagePayload::Error { code, message } => MessagePayloadV::Error {
                code: *code,
                message: message@,
            },
        }
    }
}

#[derive(Debug, PartialEq)]
pub struct Message {
    pub header: MessageHeader,
    pub payload: MessagePayload,
}

pub struct MessageV {
    pub header: MessageHeader,
    pub payload: MessagePayloadV,
}

impl DeepView for Message {
    type V = MessageV;

    open spec fn deep_view(&self) -> MessageV {
        MessageV { header: self.header, payload: self.payload.deep_view() }
    }
}

/// Number of components over all entities.
pub open spec fn spec_component_total(entities: Seq<SerializedEntityV>) -> int
    decreases entities.len(),
{
    if entities.len() == 0 {
        0
    } else {
        spec_component_total(entities.drop_last()) + entities.last().components.len()
    }
}

/// How many of the changes are entity additions.
pub open spec fn spec_entities_added(changes: Seq<DeltaChangeV>) -> int
    decreases changes.len(),
{
    if changes.len() == 0 {
        0
    } else {
        spec_entities_added(changes.drop_last()) + if changes.last() is EntityAdded {
            1int
        } else {
            0int
        }
    }
}

/// How many of the changes are entity removals.
pub open spec fn spec_entities_removed(changes: Seq<DeltaChangeV>) -> int
    decreases changes.len(),
{
    if changes.len() == 0 {
        0
    } else {
        spec_entities_removed(changes.drop_last()) + if changes.last() is EntityRemoved {
            1int
        } else {
            0int
        }
    }
}

/// How many of the changes update a component, either wholesale or
/// field by field.
pub open spec fn spec_components_updated(changes: Seq<DeltaChangeV>) -> int
    decreases changes.len(),
{
    if changes.len() == 0 {
        0
    } else {
        spec_components_updated(changes.drop_last()) + if changes.last() is ComponentUpdated
            || changes.last() is FieldsUpdated {
            1int
        } else {
            0int
        }
    }
}

/// The metadata counters a conforming delta payload must carry: each one
/// equals the count obtained by scanning the changes.
pub open spec fn spec_delta_metadata(changes: Seq<DeltaChangeV>) -> DeltaMetadata {
    DeltaMetadata {
        change_count: changes.len() as u32,
        entities_added: spec_entities_added(changes) as u32,
        entities_removed: spec_entities_removed(changes) as u32,
        components_updated: spec_components_updated(changes) as u32,
    }
}

impl DeltaMetadata {
    /// Scan the changes and tally them; the counters of every delta payload
    /// built by this library come from here.
    pub fn from_changes(changes: &Vec<DeltaChange>) -> (m: DeltaMetadata)
        requires
            changes@.len() <= u32::MAX,
        ensures
            m == spec_delta_metadata(changes.deep_view()),
    {
        let ghost cv = changes.deep_view();
        proof {
            lemma_change_counts_bounded(cv);
        }
        let mut added: u32 = 0;
        let mut removed: u32 = 0;
        let mut updated: u32 = 0;
        let n = changes.len();
        let mut i: usize = 0;
        while i < n
            invariant
                n == changes@.len() <= u32::MAX,
                cv == changes.deep_view(),
                0 <= i <= n,
                added == spec_entities_added(cv.take(i as int)),
                removed == spec_entities_removed(cv.take(i as int)),
                updated == spec_components_updated(cv.take(i as int)),
            decreases n - i,
        {
            proof {
                lemma_change_counts_bounded(cv.take(i as int));
                assert(cv.take(i + 1).drop_last() =~= cv.take(i as int));
                assert(cv.take(i + 1).last() == cv[i as int]);
            }
            match &changes[i] {
                DeltaChange::EntityAdded { .. } => {
                    added = added + 1;
                },
                DeltaChange::EntityRemoved { .. } => {
                    removed = removed + 1;
                },
                DeltaChange::ComponentUpdated { .. } => {
                    updated = updated + 1;
                },
                DeltaChange::FieldsUpdated { .. } => {
                    updated = updated + 1;
                },
                _ => {},
            }
            i = i + 1;
        }
        proof {
            assert(cv.take(n as int) =~= cv);
        }
        DeltaMetadata {
            change_count: n as u32,
            entities_added: added,
            entities_removed: removed,
            components_updated: updated,
        }
    }
}

/// Each tally is at most the number of changes.
pub proof fn lemma_change_counts_bounded(changes: Seq<DeltaChangeV>)
    ensures
        0 <= spec_entities_added(changes) <= changes.len(),
        0 <= spec_entities_removed(changes) <= changes.len(),
        0 <= spec_components_updated(changes) <= changes.len(),
    decreases changes.len(),
{
    if changes.len() > 0 {
        lemma_change_counts_bounded(changes.drop_last());
    }
}

impl Message {
    /// Assemble a message envelope. The caller supplies the wall-clock
    /// milliseconds and its own strictly increasing sequence number.
    pub fn new(
        msg_type: MessageType,
        schema_version: u32,
        payload: MessagePayload,
        timestamp: u64,
        sequence: u64,
    ) -> (m: Message)
        ensures
            m.header == (MessageHeader {
                msg_type,
                timestamp,
                id: header_id(timestamp, sequence),
                sequence,
                schema_version,
            }),
            m.payload == payload,
    {
        Message { header: MessageHeader::new(msg_type, schema_version, timestamp, sequence), payload }
    }

    /// A full snapshot message; the metadata counters are computed from the
    /// entities themselves.
    pub fn snapshot(
        entities: Vec<SerializedEntity>,
        world_time: u64,
        schema_version: u32,
        timestamp: u64,
        sequence: u64,
    ) -> (m: Message)
        requires
            entities@.len() <= u32::MAX,
            spec_component_total(entities.deep_view()) <= u32::MAX,
        ensures
            m.header.msg_type == MessageType::Snapshot,
            m.header.schema_version == schema_version,
            m.header.timestamp == timestamp,
            m.header.sequence == sequence,
            m.header.id == header_id(timestamp, sequence),
            m.payload matches MessagePayload::Snapshot(p)
                && p.deep_view().entities == entities.deep_view()
                && p.metadata == (SnapshotMetadata {
                    world_time,
                    entity_count: entities@.len() as u32,
                    component_count: spec_component_total(entities.deep_view()) as u32,
                    compression: CompressionType::Uncompressed,
                }),
    {
        let ghost ev = entities.deep_view();
        proof {
            lemma_component_total_nonneg(ev);
        }
        let entity_count = entities.len() as u32;
        let mut component_count: u32 = 0;
        let mut i: usize = 0;
        while i < entities.len()
            invariant
                ev == entities.deep_view(),
                ev.len() == entities@.len() <= u32::MAX,
                spec_component_total(ev) <= u32::MAX,
                0 <= i <= entities@.len(),
                component_count == spec_component_total(ev.take(i as int)),
            decreases entities@.len() - i,
        {
            proof {
                assert(ev.take(i + 1).drop_last() =~= ev.take(i as int));
                assert(ev.take(i + 1).last() == ev[i as int]);
                lemma_component_total_prefix(ev, i + 1);
                lemma_component_total_nonneg(ev.take(i as int));
            }
            component_count = component_count + entities[i].components.len() as u32;
            i = i + 1;
        }
        proof {
            assert(ev.take(entities@.len() as int) =~= ev);
        }
        Message::new(
            MessageType::Snapshot,
            schema_version,
            MessagePayload::Snapshot(
                SnapshotPayload {
                    entities,
                    metadata: SnapshotMetadata {
                        world_time,
                        entity_count,
                        component_count,
                        compression: CompressionType::Uncompressed,
                    },
                },
            ),
            timestamp,
            sequence,
        )
    }

    /// A delta message; the metadata counters are tallied from the changes.
    pub fn delta(
        changes: Vec<DeltaChange>,
        base_timestamp: u64,
        schema_version: u32,
        timestamp: u64,
        sequence: u64,
    ) -> (m: Message)
        requires
            changes@.len() <= u32::MAX,
        ensures
            m.header.msg_type == MessageType::Delta,
            m.header.schema_version == schema_version,
            m.header.timestamp == timestamp,
            m.header.sequence == sequence,
            m.header.id == header_id(timestamp, sequence),
            m.payload matches MessagePayload::Delta(p)
                && p.deep_view().changes == changes.deep_view()
                && p.base_timestamp == base_timestamp
                && p.metadata == spec_delta_metadata(changes.deep_view()),
    {
        let metadata = DeltaMetadata::from_changes(&changes);
        Message::new(
            MessageType::Delta,
            schema_version,
            MessagePayload::Delta(DeltaPayload { changes, base_timestamp, metadata }),
            timestamp,
            sequence,
        )
    }

    pub fn request_snapshot(schema_version: u32, timestamp: u64, sequence: u64) -> (m: Message)
        ensures
            m.header.msg_type == MessageType::RequestSnapshot,
            m.header.schema_version == schema_version,
            m.header.id == header_id(timestamp, sequence),
            m.payload == MessagePayload::RequestSnapshot,
    {
        Message::new(
            MessageType::RequestSnapshot,
            schema_version,
            MessagePayload::RequestSnapshot,
            timestamp,
            sequence,
        )
    }

    pub fn ack(ack_id: u64, schema_version: u32, timestamp: u64, sequence: u64) -> (m: Message)
        ensures
            m.header.msg_type == MessageType::Ack,
            m.header.schema_version == schema_version,
            m.header.id == header_id(timestamp, sequence),
            m.payload == (MessagePayload::Ack { ack_id }),
    {
        Message::new(MessageType::Ack, schema_version, MessagePayload::Ack { ack_id }, timestamp, sequence)
    }

    pub fn ping(schema_version: u32, timestamp: u64, sequence: u64) -> (m: Message)
        ensures
            m.header.msg_type == MessageType::Ping,
            m.header.schema_version == schema_version,
            m.header.id == header_id(timestamp, sequence),
            m.payload == MessagePayload::Ping,
    {
        Message::new(MessageType::Ping, schema_version, MessagePayload::Ping, timestamp, sequence)
    }

    pub fn pong(schema_version: u32, timestamp: u64, sequence: u64) -> (m: Message)
        ensures
            m.header.msg_type == MessageType::Pong,
            m.header.schema_version == schema_version,
            m.header.id == header_id(timestamp, sequence),
            m.payload == MessagePayload::Pong,
    {
        Message::new(MessageType::Pong, schema_version, MessagePayload::Pong, timestamp, sequence)
    }

    pub fn error(code: u32, message: String, schema_version: u32, timestamp: u64, sequence: u64) -> (m:
        Message)
        ensures
            m.header.msg_type == MessageType::Error,
            m.header.schema_version == schema_version,
            m.header.id == header_id(timestamp, sequence),
            m.payload matches MessagePayload::Error { code: c, message: s } && c == code && s@
                == message@,
    {
        Message::new(
            MessageType::Error,
            schema_version,
            MessagePayload::Error { code, message },
            timestamp,
            sequence,
        )
    }
}

impl Clone for SnapshotPayload {
    /// A clone preserves the structural content exactly.
    fn clone(&self) -> (res: Self)
        ensures
            res.deep_view() == self.deep_view(),
    {
        let mut entities: Vec<SerializedEntity> = Vec::new();
        let mut i: usize = 0;
        while i < self.entities.len()
            invariant
                0 <= i <= self.entities@.len(),
                entities@.len() == i,
                forall|j: int|
                    0 <= j < i ==> #[trigger] entities@[j].deep_view()
                        == self.entities@[j].deep_view(),
            decreases self.entities@.len() - i,
        {
            entities.push(self.entities[i].clone());
            i = i + 1;
        }
        proof {
            assert(entities.deep_view() =~= self.entities.deep_view());
        }
        SnapshotPayload { entities, metadata: self.metadata }
    }
}

impl Clone for FieldSchemaInfo {
    /// A clone preserves the structural content exactly.
    fn clone(&self) -> (res: Self)
        ensures
            res.deep_view() == self.deep_view(),
    {
        FieldSchemaInfo {
            field_id: self.field_id.clone(),
            field_type: self.field_type,
            optional: self.optional,
        }
    }
}

impl Clone for ComponentSchemaInfo {
    /// A clone preserves the structural content exactly.
    fn clone(&self) -> (res: Self)
        ensures
            res.deep_view() == self.deep_view(),
    {
        let mut fields: Vec<FieldSchemaInfo> = Vec::new();
        let mut i: usize = 0;
        while i < self.fields.len()
            invariant
                0 <= i <= self.fields@.len(),
                fields@.len() == i,
                forall|j: int|
                    0 <= j < i ==> #[trigger] fields@[j].deep_view()
                        == self.fields@[j].deep_view(),
            decreases self.fields@.len() - i,
        {
            fields.push(self.fields[i].clone());
            i = i + 1;
        }
        proof {
            assert(fields.deep_view() =~= self.fields.deep_view());
        }
        ComponentSchemaInfo {
            component_id: self.component_id.clone(),
            version: self.version,
            fields,
        }
    }
}

impl Clone for SchemaSyncPayload {
    /// A clone preserves the structural content exactly.
    fn clone(&self) -> (res: Self)
        ensures
            res.deep_view() == self.deep_view(),
    {
        let mut schemas: Vec<ComponentSchemaInfo> = Vec::new();
        let mut i: usize = 0;
        while i < self.schemas.len()
            invariant
                0 <= i <= self.schemas@.len(),
                schemas@.len() == i,
                forall|j: int|
                    0 <= j < i ==> #[trigger] schemas@[j].deep_view()
                        == self.schemas@[j].deep_view(),
            decreases self.schemas@.len() - i,
        {
            schemas.push(self.schemas[i].clone());
            i = i + 1;
        }
        proof {
            assert(schemas.deep_view() =~= self.schemas.deep_view());
        }
        SchemaSyncPayload { schemas }
    }
}

impl Clone for DeltaChange {
    /// A clone preserves the structural content exactly.
    fn clone(&self) -> (res: Self)
        ensures
            res.deep_view() == self.deep_view(),
    {
        match self {
            DeltaChange::EntityAdded { entity_id } => DeltaChange::EntityAdded {
                entity_id: *entity_id,
            },
            DeltaChange::EntityRemoved { entity_id } => DeltaChange::EntityRemoved {
                entity_id: *entity_id,
            },
            DeltaChange::ComponentAdded { entity_id, component_id, data } => {
                DeltaChange::ComponentAdded {
                    entity_id: *entity_id,
                    component_id: component_id.clone(),
                    data: data.clone(),
                }
            },
            DeltaChange::ComponentRemoved { entity_id, component_id } => {
                DeltaChange::ComponentRemoved {
                    entity_id: *entity_id,
                    component_id: component_id.clone(),
                }
            },
            DeltaChange::ComponentUpdated { entity_id, component_id, data } => {
                DeltaChange::ComponentUpdated {
                    entity_id: *entity_id,
                    component_id: component_id.clone(),
                    data: data.clone(),
                }
            },
            DeltaChange::FieldsUpdated { entity_id, component_id, fields } => {
                let mut cloned_fields: Vec<FieldDelta> = Vec::new();
                let mut i: usize = 0;
                while i < fields.len()
                    invariant
                        0 <= i <= fields@.len(),
                        cloned_fields@.len() == i,
                        forall|j: int|
                            0 <= j < i ==> #[trigger] cloned_fields@[j].deep_view()
                                == fields@[j].deep_view(),
                    decreases fields@.len() - i,
                {
                    cloned_fields.push(fields[i].clone());
                    i = i + 1;
                }
                proof {
                    assert(cloned_fields.deep_view() =~= fields.deep_view());
                }
                DeltaChange::FieldsUpdated {
                    entity_id: *entity_id,
                    component_id: component_id.clone(),
                    fields: cloned_fields,
                }
            },
        }
    }
}

impl Clone for DeltaPayload {
    /// A clone preserves the structural content exactly.
    fn clone(&self) -> (res: Self)
        ensures
            res.deep_view() == self.deep_view(),
    {
        let mut changes: Vec<DeltaChange> = Vec::new();
        let mut i: usize = 0;
        while i < self.changes.len()
            invariant
                0 <= i <= self.changes@.len(),
                changes@.len() == i,
                forall|j: int|
                    0 <= j < i ==> #[trigger] changes@[j].deep_view()
                        == self.changes@[j].deep_view(),
            decreases self.changes@.len() - i,
        {
            changes.push(self.changes[i].clone());
            i = i + 1;
        }
        proof {
            assert(changes.deep_view() =~= self.changes.deep_view());
        }
        DeltaPayload {
            changes,
            base_timestamp: self.base_timestamp,
            metadata: self.metadata,
        }
    }
}

impl Clone for MessagePayload {
    /// A clone preserves the structural content exactly.
    fn clone(&self) -> (res: Self)
        ensures
            res.deep_view() == self.deep_view(),
    {
        match self {
            MessagePayload::Snapshot(p) => MessagePayload::Snapshot(p.clone()),
            MessagePayload::Delta(p) => MessagePayload::Delta(p.clone()),
            MessagePayload::RequestSnapshot => MessagePayload::RequestSnapshot,
            MessagePayload::Ack { ack_id } => MessagePayload::Ack { ack_id: *ack_id },
            MessagePayload::Ping => MessagePayload::Ping,
            MessagePayload::Pong => MessagePayload::Pong,
            MessagePayload::SchemaSync(p) => MessagePayload::SchemaSync(p.clone()),
            MessagePayload::Error { code, message } => MessagePayload::Error {
                code: *code,
                message: message.clone(),
            },
        }
    }
}

impl Clone for Message {
    /// A clone preserves the structural content exactly.
    fn clone(&self) -> (res: Self)
        ensures
            res.deep_view() == self.deep_view(),
    {
        Message { header: self.header, payload: self.payload.clone() }
    }
}

/// The component tally never goes negative.
pub proof fn lemma_component_total_nonneg(entities: Seq<SerializedEntityV>)
    ensures
        0 <= spec_component_total(entities),
    decreases entities.len(),
{
    if entities.len() > 0 {
        lemma_component_total_nonneg(entities.drop_last());
    }
}

/// A prefix of the entities accounts for at most the whole tally.
pub proof fn lemma_component_total_prefix(entities: Seq<SerializedEntityV>, i: int)
    requires
        0 <= i <= entities.len(),
    ensures
        spec_component_total(entities.take(i)) <= spec_component_total(entities),
    decreases entities.len() - i,
{
    if i == entities.len() {
        assert(entities.take(i) =~= entities);
    } else {
        lemma_component_total_prefix(entities, i + 1);
        assert(entities.take(i + 1).drop_last() =~= entities.take(i));
        assert(entities.take(i + 1).last() == entities[i]);
        lemma_component_total_nonneg(entities.take(i));
    }
}

} // verus!

verus! {

} // verus!
