//! Versioned component schemas: a registry mapping component ids to their
//! current schema, a per-component version history, and a validator that
//! holds presented fields against the declared layout.

use std::sync::Arc;

use vstd::prelude::*;
use vstd::rwlock::{RwLock, RwLockPredicate};
use vstd::string::StringExecFns;

use crate::error::LinkError;
use crate::protocol::{ComponentId, FieldId, FieldType};
use crate::text::u64_to_string;

verus! {

pub type SchemaVersion = u32;

impl DeepView for FieldType {
    type V = FieldType;

    open spec fn deep_view(&self) -> FieldType {
        *self
    }
}

/// The declared layout of one field.
#[derive(Debug, PartialEq)]
pub struct FieldSchema {
    pub field_id: FieldId,
    pub field_type: FieldType,
    pub optional: bool,
    pub default_value: Option<String>,
    pub description: Option<String>,
}

pub struct FieldSchemaV {
    pub field_id: Seq<char>,
    pub field_type: FieldType,
    pub optional: bool,
    pub default_value: Option<Seq<char>>,
    pub description: Option<Seq<char>>,
}

impl DeepView for FieldSchema {
    type V = FieldSchemaV;

    open spec fn deep_view(&self) -> FieldSchemaV {
        FieldSchemaV {
            field_id: self.field_id@,
            field_type: self.field_type,
            optional: self.optional,
            default_value: self.default_value.deep_view(),
            description: self.description.deep_view(),
        }
    }
}

/// Clone an optional string, preserving its content.
fn clone_opt_string(s: &Option<String>) -> (r: Option<String>)
    ensures
        r.deep_view() == s.deep_view(),
{
    match s {
        Some(v) => Some(v.clone()),
        None => None,
    }
}

impl Clone for FieldSchema {
    /// A clone preserves the declared layout exactly.
    fn clone(&self) -> (res: Self)
        ensures
            res.deep_view() == self.deep_view(),
    {
        FieldSchema {
            field_id: self.field_id.clone(),
            field_type: self.field_type,
            optional: self.optional,
            default_value: clone_opt_string(&self.default_value),
            description: clone_opt_string(&self.description),
        }
    }
}

impl FieldSchema {
    pub fn new(field_id: FieldId, field_type: FieldType) -> (f: FieldSchema)
        ensures
            f.field_id@ == field_id@,
            f.field_type == field_type,
            !f.optional,
            f.default_value is None,
            f.description is None,
    {
        FieldSchema { field_id, field_type, optional: false, default_value: None, description: None }
    }

    pub fn optional(self) -> (f: FieldSchema)
        ensures
            f == (FieldSchema { optional: true, ..self }),
    {
        FieldSchema { optional: true, ..self }
    }

    pub fn with_default(self, default: String) -> (f: FieldSchema)
        ensures
            f == (FieldSchema { default_value: Some(default), ..self }),
    {
        FieldSchema { default_value: Some(default), ..self }
    }

    pub fn with_description(self, description: String) -> (f: FieldSchema)
        ensures
            f == (FieldSchema { description: Some(description), ..self }),
    {
        FieldSchema { description: Some(description), ..self }
    }
}

/// The declared layout of one component, at one version.
#[derive(Debug, PartialEq)]
pub struct ComponentSchema {
    pub component_id: ComponentId,
    pub version: SchemaVersion,
    pub fields: Vec<FieldSchema>,
    pub description: Option<String>,
}

pub struct ComponentSchemaV {
    pub component_id: Seq<char>,
    pub version: SchemaVersion,
    pub fields: Seq<FieldSchemaV>,
    pub description: Option<Seq<char>>,
}

impl DeepView for ComponentSchema {
    type V = ComponentSchemaV;

    open spec fn deep_view(&self) -> ComponentSchemaV {
        ComponentSchemaV {
            component_id: self.component_id@,
            version: self.version,
            fields: self.fields.deep_view(),
            description: self.description.deep_view(),
        }
    }
}

impl Clone for ComponentSchema {
    /// A clone preserves the declared layout exactly.
    fn clone(&self) -> (res: Self)
        ensures
            res.deep_view() == self.deep_view(),
    {
        let mut fields: Vec<FieldSchema> = Vec::new();
        let mut i: usize = 0;
        while i < self.fields.len()
            invariant
                0 <= i <= self.fields@.len(),
                fields@.len() == i,
                forall|j: int|
                    0 <= j < i ==> #[trigger] fields@[j].deep_view()
                        == self.fields@[j].deep_view(),
            decreases self.fields@.len() - i,
        {
            fields.push(self.fields[i].clone());
            i = i + 1;
        }
        proof {
            assert(fields.deep_view() =~= self.fields.deep_view());
        }
        ComponentSchema {
            component_id: self.component_id.clone(),
            version: self.version,
            fields,
            description: clone_opt_string(&self.description),
        }
    }
}

/// The first declared field carrying the given name, if any.
pub open spec fn find_field(fields: Seq<FieldSchemaV>, id: Seq<char>) -> Option<FieldSchemaV>
    decreases fields.len(),
{
    if fields.len() == 0 {
        None
    } else if fields.first().field_id == id {
        Some(fields.first())
    } else {
        find_field(fields.drop_first(), id)
    }
}

impl ComponentSchema {
    pub fn new(component_id: ComponentId, version: SchemaVersion) -> (s: ComponentSchema)
        ensures
            s.component_id@ == component_id@,
            s.version == version,
            s.fields@.len() == 0,
            s.description is None,
    {
        ComponentSchema { component_id, version, fields: Vec::new(), description: None }
    }

    pub fn with_field(self, field: FieldSchema) -> (s: ComponentSchema)
        ensures
            s.component_id@ == self.component_id@,
            s.version == self.version,
            s.fields@ == self.fields@.push(field),
            s.description == self.description,
    {
        let mut fields = self.fields;
        fields.push(field);
        ComponentSchema {
            component_id: self.component_id,
            version: self.version,
            fields,
            description: self.description,
        }
    }

    pub fn with_description(self, description: String) -> (s: ComponentSchema)
        ensures
            s == (ComponentSchema { description: Some(description), ..self }),
    {
        ComponentSchema { description: Some(description), ..self }
    }

    /// The first declared field named `field_id`, if any.
    #[verifier::loop_isolation(false)]
    pub fn get_field(&self, field_id: &str) -> (r: Option<&FieldSchema>)
        ensures
            match r {
                Some(f) => find_field(self.fields.deep_view(), field_id@) == Some(f.deep_view()),
                None => find_field(self.fields.deep_view(), field_id@) is None,
            },
    {
        let want = field_id.to_owned();
        let ghost fv = self.fields.deep_view();
        proof {
            assert(fv.skip(0) =~= fv);
        }
        let mut i: usize = 0;
        while i < self.fields.len()
            invariant
                0 <= i <= self.fields@.len(),
                find_field(fv, field_id@) == find_field(fv.skip(i as int), field_id@),
            decreases self.fields@.len() - i,
        {
            proof {
                assert(fv.skip(i as int).first() == fv[i as int]);
                assert(fv.skip(i as int).drop_first() =~= fv.skip(i + 1));
            }
            if self.fields[i].field_id == want {
                return Some(&self.fields[i]);
            }
            i = i + 1;
        }
        proof {
            assert(fv.skip(self.fields@.len() as int) =~= Seq::<FieldSchemaV>::empty());
        }
        None
    }

    /// Does the declared field named `field_id` exist and carry this type?
    pub fn validate_field(&self, field_id: &str, field_type: &FieldType) -> (r: bool)
        ensures
            r == (find_field(self.fields.deep_view(), field_id@) matches Some(f) && f.field_type
                == field_type),
    {
        match self.get_field(field_id) {
            Some(schema) => schema.field_type == *field_type,
            None => false,
        }
    }
}

/// The mapping an association list denotes: a later entry with the same key
/// overrides an earlier one.
pub open spec fn assoc_map<V>(entries: Seq<(String, V)>) -> Map<Seq<char>, V>
    decreases entries.len(),
{
    if entries.len() == 0 {
        Map::empty()
    } else {
        assoc_map(entries.drop_last()).insert(entries.last().0@, entries.last().1)
    }
}

/// `assoc_map` contains a key iff some entry carries it, and maps it to the
/// value of the last entry that does.
pub proof fn lemma_assoc_map_last<V>(entries: Seq<(String, V)>, k: Seq<char>)
    ensures
        assoc_map(entries).contains_key(k) <==> exists|i: int|
            0 <= i < entries.len() && entries[i].0@ == k,
        forall|i: int|
            0 <= i < entries.len() && entries[i].0@ == k && (forall|j: int|
                i < j < entries.len() ==> entries[j].0@ != k) ==> assoc_map(
                entries,
            ).contains_key(k) && assoc_map(entries)[k] == entries[i].1,
    decreases entries.len(),
{
    if entries.len() > 0 {
        lemma_assoc_map_last(entries.drop_last(), k);
        let last = entries.len() - 1;
        assert forall|i: int|
            0 <= i < entries.len() && entries[i].0@ == k && (forall|j: int|
                i < j < entries.len() ==> entries[j].0@ != k) implies assoc_map(
            entries,
        ).contains_key(k) && assoc_map(entries)[k] == entries[i].1 by {
            if i != last {
                assert(entries[last].0@ != k);
                assert(entries.drop_last()[i] == entries[i]);
                assert forall|j: int|
                    i < j < entries.drop_last().len() implies entries.drop_last()[j].0@ != k by {
                    assert(entries.drop_last()[j] == entries[j]);
                }
            }
        }
        if exists|i: int| 0 <= i < entries.len() && entries[i].0@ == k {
            let i = choose|i: int| 0 <= i < entries.len() && entries[i].0@ == k;
            if i < last {
                assert(entries.drop_last()[i] == entries[i]);
            }
            assert(assoc_map(entries).contains_key(k));
        }
    }
}

/// Index of the last entry carrying key `k`, scanning backward.
#[verifier::loop_isolation(false)]
fn assoc_find<V>(entries: &Vec<(String, V)>, key: &str) -> (r: Option<usize>)
    ensures
        match r {
            Some(i) => i < entries@.len() && entries@[i as int].0@ == key@ && assoc_map(
                entries@,
            ).contains_key(key@) && assoc_map(entries@)[key@] == entries@[i as int].1,
            None => !assoc_map(entries@).contains_key(key@),
        },
{
    let want = key.to_owned();
    let mut i: usize = entries.len();
    while i > 0
        invariant
            0 <= i <= entries@.len(),
            forall|j: int| i <= j < entries@.len() ==> entries@[j].0@ != key@,
        decreases i,
    {
        i = i - 1;
        if entries[i].0 == want {
            proof {
                lemma_assoc_map_last(entries@, key@);
            }
            return Some(i);
        }
        proof {
            assert(entries@[i as int].0@ != key@);
        }
    }
    proof {
        lemma_assoc_map_last(entries@, key@);
    }
    None
}


/// The mapping a schema list denotes, keyed by each schema's component id;
/// a later entry overrides an earlier one.
pub open spec fn schema_map(entries: Seq<ComponentSchema>) -> Map<Seq<char>, ComponentSchema>
    decreases entries.len(),
{
    if entries.len() == 0 {
        Map::empty()
    } else {
        schema_map(entries.drop_last()).insert(entries.last().component_id@, entries.last())
    }
}

/// `schema_map` contains an id iff some entry carries it, and maps it to
/// the last entry that does.
pub proof fn lemma_schema_map_last(entries: Seq<ComponentSchema>, k: Seq<char>)
    ensures
        schema_map(entries).contains_key(k) <==> exists|i: int|
            0 <= i < entries.len() && entries[i].component_id@ == k,
        forall|i: int|
            0 <= i < entries.len() && entries[i].component_id@ == k && (forall|j: int|
                i < j < entries.len() ==> entries[j].component_id@ != k) ==> schema_map(
                entries,
            ).contains_key(k) && schema_map(entries)[k] == entries[i],
    decreases entries.len(),
{
    if entries.len() > 0 {
        lemma_schema_map_last(entries.drop_last(), k);
        let last = entries.len() - 1;
        assert forall|i: int|
            0 <= i < entries.len() && entries[i].component_id@ == k && (forall|j: int|
                i < j < entries.len() ==> entries[j].component_id@ != k) implies schema_map(
            entries,
        ).contains_key(k) && schema_map(entries)[k] == entries[i] by {
            if i != last {
                assert(entries[last].component_id@ != k);
                assert(entries.drop_last()[i] == entries[i]);
                assert forall|j: int|
                    i < j < entries.drop_last().len() implies entries.drop_last()[j].component_id@
                    != k by {
                    assert(entries.drop_last()[j] == entries[j]);
                }
            }
        }
        if exists|i: int| 0 <= i < entries.len() && entries[i].component_id@ == k {
            let i = choose|i: int| 0 <= i < entries.len() && entries[i].component_id@ == k;
            if i < last {
                assert(entries.drop_last()[i] == entries[i]);
            }
            assert(schema_map(entries).contains_key(k));
        }
    }
}

/// The index of the last schema entry carrying component id `k`.
pub open spec fn last_schema_index(entries: Seq<ComponentSchema>, k: Seq<char>) -> int
    decreases entries.len(),
{
    if entries.len() == 0 {
        0
    } else if entries.last().component_id@ == k {
        entries.len() - 1
    } else {
        last_schema_index(entries.drop_last(), k)
    }
}

/// When some entry carries id `k`, `last_schema_index` names its last
/// occurrence.
pub proof fn lemma_last_schema_index(entries: Seq<ComponentSchema>, k: Seq<char>)
    requires
        exists|i: int| 0 <= i < entries.len() && entries[i].component_id@ == k,
    ensures
        0 <= last_schema_index(entries, k) < entries.len(),
        entries[last_schema_index(entries, k)].component_id@ == k,
        forall|j: int|
            last_schema_index(entries, k) < j < entries.len() ==> entries[j].component_id@ != k,
    decreases entries.len(),
{
    if entries.last().component_id@ == k {
    } else {
        let i = choose|i: int| 0 <= i < entries.len() && entries[i].component_id@ == k;
        assert(i < entries.len() - 1);
        assert(entries.drop_last()[i] == entries[i]);
        lemma_last_schema_index(entries.drop_last(), k);
        let l = last_schema_index(entries.drop_last(), k);
        assert(entries.drop_last()[l] == entries[l]);
        assert forall|j: int| l < j < entries.len() implies entries[j].component_id@ != k by {
            if j < entries.len() - 1 {
                assert(entries.drop_last()[j] == entries[j]);
            }
        }
    }
}

/// An index that carries id `k` with no later occurrence is the last index.
pub proof fn lemma_last_schema_index_unique(entries: Seq<ComponentSchema>, idx: int)
    requires
        0 <= idx < entries.len(),
        forall|j: int| idx < j < entries.len() ==> entries[j].component_id@
            != entries[idx].component_id@,
    ensures
        last_schema_index(entries, entries[idx].component_id@) == idx,
{
    let k = entries[idx].component_id@;
    assert(exists|i: int| 0 <= i < entries.len() && entries[i].component_id@ == k) by {
        assert(entries[idx].component_id@ == k);
    }
    lemma_last_schema_index(entries, k);
    let l = last_schema_index(entries, k);
    if l < idx {
        assert(entries[idx].component_id@ != k);
    } else if l > idx {
        assert(entries[l].component_id@ != k);
    }
}

/// Index of the last schema for component id `key`, scanning backward.
#[verifier::loop_isolation(false)]
fn schema_find(entries: &Vec<ComponentSchema>, key: &str) -> (r: Option<usize>)
    ensures
        match r {
            Some(i) => i < entries@.len() && entries@[i as int].component_id@ == key@
                && schema_map(entries@).contains_key(key@) && schema_map(entries@)[key@]
                == entries@[i as int] && (forall|l: int|
                i < l < entries@.len() ==> entries@[l].component_id@ != key@),
            None => !schema_map(entries@).contains_key(key@),
        },
{
    let want = key.to_owned();
    let mut i: usize = entries.len();
    while i > 0
        invariant
            0 <= i <= entries@.len(),
            forall|j: int| i <= j < entries@.len() ==> entries@[j].component_id@ != key@,
        decreases i,
    {
        i = i - 1;
        if entries[i].component_id == want {
            proof {
                lemma_schema_map_last(entries@, key@);
            }
            return Some(i);
        }
        proof {
            assert(entries@[i as int].component_id@ != key@);
        }
    }
    proof {
        lemma_schema_map_last(entries@, key@);
    }
    None
}

/// The version-history mapping a history list denotes, keyed by component
/// id, valued by the version sequence; a later entry overrides an earlier.
pub open spec fn hist_map(entries: Seq<(String, Vec<u32>)>) -> Map<Seq<char>, Seq<u32>>
    decreases entries.len(),
{
    if entries.len() == 0 {
        Map::empty()
    } else {
        hist_map(entries.drop_last()).insert(entries.last().0@, entries.last().1@)
    }
}

/// `hist_map` contains an id iff some entry carries it, and maps it to the
/// content of the last entry that does.
pub proof fn lemma_hist_map_last(entries: Seq<(String, Vec<u32>)>, k: Seq<char>)
    ensures
        hist_map(entries).contains_key(k) <==> exists|i: int|
            0 <= i < entries.len() && entries[i].0@ == k,
        forall|i: int|
            0 <= i < entries.len() && entries[i].0@ == k && (forall|j: int|
                i < j < entries.len() ==> entries[j].0@ != k) ==> hist_map(
                entries,
            ).contains_key(k) && hist_map(entries)[k] == entries[i].1@,
    decreases entries.len(),
{
    if entries.len() > 0 {
        lemma_hist_map_last(entries.drop_last(), k);
        let last = entries.len() - 1;
        assert forall|i: int|
            0 <= i < entries.len() && entries[i].0@ == k && (forall|j: int|
                i < j < entries.len() ==> entries[j].0@ != k) implies hist_map(
            entries,
        ).contains_key(k) && hist_map(entries)[k] == entries[i].1@ by {
            if i != last {
                assert(entries[last].0@ != k);
                assert(entries.drop_last()[i] == entries[i]);
                assert forall|j: int|
                    i < j < entries.drop_last().len() implies entries.drop_last()[j].0@ != k by {
                    assert(entries.drop_last()[j] == entries[j]);
                }
            }
        }
        if exists|i: int| 0 <= i < entries.len() && entries[i].0@ == k {
            let i = choose|i: int| 0 <= i < entries.len() && entries[i].0@ == k;
            if i < last {
                assert(entries.drop_last()[i] == entries[i]);
            }
            assert(hist_map(entries).contains_key(k));
        }
    }
}

/// Index of the last history entry for component id `key`.
#[verifier::loop_isolation(false)]
fn hist_find(entries: &Vec<(String, Vec<u32>)>, key: &str) -> (r: Option<usize>)
    ensures
        match r {
            Some(i) => i < entries@.len() && entries@[i as int].0@ == key@ && hist_map(
                entries@,
            ).contains_key(key@) && hist_map(entries@)[key@] == entries@[i as int].1@,
            None => !hist_map(entries@).contains_key(key@),
        },
{
    let want = key.to_owned();
    let mut i: usize = entries.len();
    while i > 0
        invariant
            0 <= i <= entries@.len(),
            forall|j: int| i <= j < entries@.len() ==> entries@[j].0@ != key@,
        decreases i,
    {
        i = i - 1;
        if entries[i].0 == want {
            proof {
                lemma_hist_map_last(entries@, key@);
            }
            return Some(i);
        }
        proof {
            assert(entries@[i as int].0@ != key@);
        }
    }
    proof {
        lemma_hist_map_last(entries@, key@);
    }
    None
}

/// The storage behind a registry handle: the current schema per component
/// id and the history of registered versions. Handles share one of these
/// through a reader/writer lock.
pub struct RegistryState {
    schemas: Vec<ComponentSchema>,
    version_history: Vec<(String, Vec<u32>)>,
}

/// When does registering a version succeed: the component is new, or the
/// version advances past the stored one.
pub open spec fn spec_register_ok(
    m: Map<Seq<char>, ComponentSchema>,
    id: Seq<char>,
    version: SchemaVersion,
) -> bool {
    !m.contains_key(id) || m[id].version < version
}

impl RegistryState {
    /// The stored schemas, as a mapping from component id.
    pub closed spec fn spec_schemas(&self) -> Map<Seq<char>, ComponentSchema> {
        schema_map(self.schemas@)
    }

    /// The version history per component id, in registration order.
    pub closed spec fn spec_history(&self) -> Map<Seq<char>, Seq<u32>> {
        hist_map(self.version_history@)
    }

    pub fn new() -> (r: RegistryState)
        ensures
            r.spec_schemas() == Map::<Seq<char>, ComponentSchema>::empty(),
            r.spec_history() == Map::<Seq<char>, Seq<u32>>::empty(),
    {
        let r = RegistryState { schemas: Vec::new(), version_history: Vec::new() };
        proof {
            assert(r.spec_schemas() =~= Map::<Seq<char>, ComponentSchema>::empty());
            assert(r.spec_history() =~= Map::<Seq<char>, Seq<u32>>::empty());
        }
        r
    }

    /// Store a schema. Succeeds iff the component is new or the version
    /// advances strictly; then the schema replaces the stored one and the
    /// version is appended to the component's history. On failure nothing
    /// changes.
    pub fn register(&mut self, schema: ComponentSchema) -> (r: Result<(), LinkError>)
        ensures
            r is Ok <==> spec_register_ok(
                old(self).spec_schemas(),
                schema.component_id@,
                schema.version,
            ),
            r is Ok ==> final(self).spec_schemas() == old(self).spec_schemas().insert(
                schema.component_id@,
                schema,
            ) && final(self).spec_history() == old(self).spec_history().insert(
                schema.component_id@,
                (if old(self).spec_history().contains_key(schema.component_id@) {
                    old(self).spec_history()[schema.component_id@]
                } else {
                    Seq::<u32>::empty()
                }).push(schema.version),
            ),
            r matches Err(e) ==> e is Unknown && final(self).spec_schemas() == old(
                self,
            ).spec_schemas() && final(self).spec_history() == old(self).spec_history(),
    {
        let ghost m = self.spec_schemas();
        let ghost hm = self.spec_history();
        match schema_find(&self.schemas, self.lookup_key(&schema.component_id).as_str()) {
            Some(i) => {
                if self.schemas[i].version >= schema.version {
                    let mut msg = String::from_str("Schema version ");
                    let n = u64_to_string(schema.version as u64);
                    msg.append(n.as_str());
                    msg.append(" already exists or is newer for component ");
                    msg.append(schema.component_id.as_str());
                    return Err(LinkError::Unknown(msg));
                }
            },
            None => {},
        }
        let mut history: Vec<u32> = match hist_find(
            &self.version_history,
            self.lookup_key(&schema.component_id).as_str(),
        ) {
            Some(i) => self.version_history[i].1.clone(),
            None => Vec::new(),
        };
        proof {
            if hm.contains_key(schema.component_id@) {
                assert(history@ == hm[schema.component_id@]);
            } else {
                assert(history@ =~= Seq::<u32>::empty());
            }
        }
        history.push(schema.version);
        let key = schema.component_id.clone();
        let ghost hist_view = history@;
        self.version_history.push((key, history));
        let ghost sv = schema;
        self.schemas.push(schema);
        proof {
            assert(self.schemas@.drop_last() =~= old(self).schemas@);
            assert(self.version_history@.drop_last() =~= old(self).version_history@);
            assert(self.spec_schemas() == m.insert(sv.component_id@, sv));
            assert(self.spec_history() =~= hm.insert(sv.component_id@, hist_view));
        }
        Ok(())
    }

    /// A borrowed copy of the id string for lookups.
    fn lookup_key(&self, id: &String) -> (r: String)
        ensures
            r@ == id@,
    {
        id.clone()
    }

    /// The stored schema for this component, or `SchemaNotFound`.
    pub fn get(&self, component_id: &str) -> (r: Result<ComponentSchema, LinkError>)
        ensures
            r matches Ok(s) ==> self.spec_schemas().contains_key(component_id@)
                && s.deep_view() == self.spec_schemas()[component_id@].deep_view(),
            r matches Err(e) ==> !self.spec_schemas().contains_key(component_id@) && (e
                matches LinkError::SchemaNotFound(missing) && missing@ == component_id@),
    {
        match schema_find(&self.schemas, component_id) {
            Some(i) => Ok(self.schemas[i].clone()),
            None => Err(LinkError::SchemaNotFound(component_id.to_owned())),
        }
    }

    /// The stored schema iff its version is exactly `version`; otherwise
    /// `SchemaMismatch` (or `SchemaNotFound` for an unknown component).
    pub fn get_version(&self, component_id: &str, version: SchemaVersion) -> (r: Result<
        ComponentSchema,
        LinkError,
    >)
        ensures
            r matches Ok(s) ==> self.spec_schemas().contains_key(component_id@)
                && s.deep_view() == self.spec_schemas()[component_id@].deep_view()
                && s.version == version,
            r matches Err(e) ==> !self.spec_schemas().contains_key(component_id@) && e
                is SchemaNotFound || self.spec_schemas().contains_key(component_id@) && self
                .spec_schemas()[component_id@].version != version && (e
                matches LinkError::SchemaMismatch { expected, actual } && expected@
                == crate::text::spec_u64_chars(version as u64) && actual@
                == crate::text::spec_u64_chars(
                self.spec_schemas()[component_id@].version as u64,
            )),
    {
        let schema = match self.get(component_id) {
            Ok(s) => s,
            Err(e) => {
                return Err(e);
            },
        };
        if schema.version == version {
            Ok(schema)
        } else {
            Err(
                LinkError::SchemaMismatch {
                    expected: u64_to_string(version as u64),
                    actual: u64_to_string(schema.version as u64),
                },
            )
        }
    }

    /// Is a schema stored for this component?
    pub fn has(&self, component_id: &str) -> (r: bool)
        ensures
            r == self.spec_schemas().contains_key(component_id@),
    {
        schema_find(&self.schemas, component_id).is_some()
    }

    /// Every stored schema: one entry per registered component id, each
    /// matching the stored mapping, none missing and none repeated.
    #[verifier::loop_isolation(false)]
    #[verifier::rlimit(50)]
    pub fn get_all(&self) -> (r: Result<Vec<ComponentSchema>, LinkError>)
        ensures
            r matches Ok(v) && (forall|i: int|
                0 <= i < v@.len() ==> self.spec_schemas().contains_key(
                    #[trigger] v@[i].component_id@,
                ) && v@[i].deep_view() == self.spec_schemas()[v@[i].component_id@].deep_view())
                && (forall|i1: int, i2: int|
                0 <= i1 < i2 < v@.len() ==> (#[trigger] v@[i1].component_id@) != (
                #[trigger] v@[i2].component_id@)) && (forall|k: Seq<char>|
                #[trigger] self.spec_schemas().contains_key(k) ==> exists|idx: int|
                    0 <= idx < v@.len() && v@[idx].component_id@ == k),
    {
        let ghost entries = self.schemas@;
        proof {
            assert forall|k: Seq<char>| #[trigger] self.spec_schemas().contains_key(
                k,
            ) implies last_schema_index(entries, k) >= 0 by {
                lemma_schema_map_last(entries, k);
                lemma_last_schema_index(entries, k);
            }
        }
        let mut out: Vec<ComponentSchema> = Vec::new();
        let mut i: usize = 0;
        while i < self.schemas.len()
            invariant
                0 <= i <= entries.len(),
                forall|j: int|
                    0 <= j < out@.len() ==> self.spec_schemas().contains_key(
                        #[trigger] out@[j].component_id@,
                    ) && out@[j].deep_view() == self.spec_schemas()[out@[j].component_id@].deep_view(),
                forall|j: int|
                    0 <= j < out@.len() ==> last_schema_index(
                        entries,
                        #[trigger] out@[j].component_id@,
                    ) < i,
                forall|j1: int, j2: int|
                    0 <= j1 < j2 < out@.len() ==> last_schema_index(
                        entries,
                        #[trigger] out@[j1].component_id@,
                    ) < last_schema_index(entries, #[trigger] out@[j2].component_id@),
                forall|k: Seq<char>|
                    #[trigger] self.spec_schemas().contains_key(k) && last_schema_index(entries, k)
                        < i ==> exists|idx: int|
                        0 <= idx < out@.len() && out@[idx].component_id@ == k,
            decreases entries.len() - i,
        {
            let key = self.lookup_key(&self.schemas[i].component_id);
            match schema_find(&self.schemas, key.as_str()) {
                Some(j) => {
                    if j == i {
                        let s = self.schemas[i].clone();
                        proof {
                            assert(s.deep_view() == entries[i as int].deep_view());
                            assert(s.component_id@ == entries[i as int].component_id@);
                            assert(self.spec_schemas()[key@] == entries[i as int]);
                            lemma_last_schema_index_unique(entries, i as int);
                        }
                        let ghost out0 = out@;
                        out.push(s);
                        proof {
                            assert(out@ =~= out0.push(s));
                            assert forall|k: Seq<char>|
                                #[trigger] self.spec_schemas().contains_key(k)
                                    && last_schema_index(entries, k) < i + 1 implies exists|
                                idx: int,
                            |
                                0 <= idx < out@.len() && out@[idx].component_id@ == k by {
                                lemma_schema_map_last(entries, k);
                                lemma_last_schema_index(entries, k);
                                if last_schema_index(entries, k) == i {
                                    assert(entries[i as int].component_id@ == k);
                                    assert(out@[out@.len() - 1].component_id@ == k);
                                } else {
                                    let idx = choose|idx: int|
                                        0 <= idx < out0.len() && out0[idx].component_id@ == k;
                                    assert(out@[idx].component_id@ == k);
                                }
                            }
                        }
                    } else {
                        proof {
                            // index `i` repeats an id that occurs again
                            // later, so it is the last index for no id
                            assert(j > i) by {
                                if j < i {
                                    assert(entries[i as int].component_id@ != key@);
                                }
                            }
                            lemma_last_schema_index_unique(entries, j as int);
                            assert forall|k: Seq<char>|
                                #[trigger] self.spec_schemas().contains_key(k)
                                    && last_schema_index(entries, k) < i + 1 implies exists|
                                idx: int,
                            |
                                0 <= idx < out@.len() && out@[idx].component_id@ == k by {
                                lemma_schema_map_last(entries, k);
                                lemma_last_schema_index(entries, k);
                                if last_schema_index(entries, k) == i {
                                    assert(entries[i as int].component_id@ == k);
                                    assert(last_schema_index(entries, key@) == j);
                                    assert(false);
                                }
                            }
                        }
                    }
                },
                None => {
                    proof {
                        lemma_schema_map_last(entries, key@);
                        assert(entries[i as int].component_id@ == key@);
                        assert(false);
                    }
                },
            }
            i = i + 1;
        }
        proof {
            assert forall|k: Seq<char>| #[trigger] self.spec_schemas().contains_key(
                k,
            ) implies exists|idx: int| 0 <= idx < out@.len() && out@[idx].component_id@ == k by {
                lemma_schema_map_last(entries, k);
                lemma_last_schema_index(entries, k);
            }
            assert forall|i1: int, i2: int|
                0 <= i1 < i2 < out@.len() implies (#[trigger] out@[i1].component_id@) != (
            #[trigger] out@[i2].component_id@) by {
                if out@[i1].component_id@ == out@[i2].component_id@ {
                    assert(last_schema_index(entries, out@[i1].component_id@)
                        < last_schema_index(entries, out@[i2].component_id@));
                }
            }
        }
        Ok(out)
    }

    /// The versions registered for this component, oldest first; empty when
    /// none ever was.
    pub fn get_version_history(&self, component_id: &str) -> (r: Result<Vec<u32>, LinkError>)
        ensures
            r matches Ok(v) && v@ == (if self.spec_history().contains_key(component_id@) {
                self.spec_history()[component_id@]
            } else {
                Seq::<u32>::empty()
            }),
    {
        match hist_find(&self.version_history, component_id) {
            Some(i) => Ok(self.version_history[i].1.clone()),
            None => {
                let v: Vec<u32> = Vec::new();
                proof {
                    assert(v@ =~= Seq::<u32>::empty());
                }
                Ok(v)
            },
        }
    }

    /// Clients may only advance: a new version is compatible iff it is at
    /// least the old one.
    pub fn validate_compatibility(&self, old_version: SchemaVersion, new_version: SchemaVersion) -> (r:
        bool)
        ensures
            r == (new_version >= old_version),
    {
        new_version >= old_version
    }

    /// Drop every schema and every history entry.
    pub fn clear(&mut self) -> (r: Result<(), LinkError>)
        ensures
            r is Ok,
            final(self).spec_schemas() == Map::<Seq<char>, ComponentSchema>::empty(),
            final(self).spec_history() == Map::<Seq<char>, Seq<u32>>::empty(),
    {
        self.schemas.clear();
        self.version_history.clear();
        proof {
            assert(self.schemas@ =~= Seq::<ComponentSchema>::empty());
            assert(self.version_history@ =~= Seq::<(String, Vec<u32>)>::empty());
            assert(self.spec_schemas() =~= Map::<Seq<char>, ComponentSchema>::empty());
            assert(self.spec_history() =~= Map::<Seq<char>, Seq<u32>>::empty());
        }
        Ok(())
    }

}


/// The shared lock admits every registry state.
pub struct RegistryStorable;

impl RwLockPredicate<RegistryState> for RegistryStorable {
    open spec fn inv(self, v: RegistryState) -> bool {
        true
    }
}

/// Relies on Arc::clone: the returned handle refers to the same allocation
/// as the original, so the two are equal in the verifier's model, which
/// identifies a shared pointer with its content.
#[verifier::external_body]
fn clone_storage(v: &Arc<RwLock<RegistryState, RegistryStorable>>) -> (res: Arc<
    RwLock<RegistryState, RegistryStorable>,
>)
    ensures
        res == *v,
{
    Arc::clone(v)
}

/// What a lookup reports against one observed storage state.
pub open spec fn spec_get_outcome(
    m: Map<Seq<char>, ComponentSchema>,
    id: Seq<char>,
    r: Result<ComponentSchema, LinkError>,
) -> bool {
    match r {
        Ok(s) => m.contains_key(id) && s.deep_view() == m[id].deep_view(),
        Err(e) => !m.contains_key(id) && (e matches LinkError::SchemaNotFound(missing)
            && missing@ == id),
    }
}

/// What a registration reports against the storage state it observed and
/// updated.
pub open spec fn spec_register_outcome(
    m: Map<Seq<char>, ComponentSchema>,
    id: Seq<char>,
    version: SchemaVersion,
    r: Result<(), LinkError>,
) -> bool {
    &&& r is Ok <==> spec_register_ok(m, id, version)
    &&& r matches Err(e) ==> e is Unknown
}

/// What a versioned lookup reports against one observed storage state.
pub open spec fn spec_get_version_outcome(
    m: Map<Seq<char>, ComponentSchema>,
    id: Seq<char>,
    version: SchemaVersion,
    r: Result<ComponentSchema, LinkError>,
) -> bool {
    match r {
        Ok(s) => m.contains_key(id) && s.deep_view() == m[id].deep_view() && s.version == version,
        Err(e) => (!m.contains_key(id) && e is SchemaNotFound) || (m.contains_key(id)
            && m[id].version != version && (e matches LinkError::SchemaMismatch {
            expected,
            actual,
        } && expected@ == crate::text::spec_u64_chars(version as u64) && actual@
            == crate::text::spec_u64_chars(m[id].version as u64))),
    }
}

/// What a history lookup reports against one observed history state.
pub open spec fn spec_history_outcome(
    h: Map<Seq<char>, Seq<u32>>,
    id: Seq<char>,
    r: Result<Vec<u32>, LinkError>,
) -> bool {
    r matches Ok(v) && v@ == (if h.contains_key(id) {
        h[id]
    } else {
        Seq::<u32>::empty()
    })
}

/// What listing every schema reports against one observed storage state:
/// every entry stored, nothing missing, nothing repeated.
pub open spec fn spec_get_all_outcome(
    m: Map<Seq<char>, ComponentSchema>,
    r: Result<Vec<ComponentSchema>, LinkError>,
) -> bool {
    r matches Ok(v) && (forall|i: int|
        0 <= i < v@.len() ==> m.contains_key(#[trigger] v@[i].component_id@)
            && v@[i].deep_view() == m[v@[i].component_id@].deep_view()) && (forall|
        i1: int,
        i2: int,
    |
        0 <= i1 < i2 < v@.len() ==> (#[trigger] v@[i1].component_id@) != (
        #[trigger] v@[i2].component_id@)) && (forall|k: Seq<char>|
        #[trigger] m.contains_key(k) ==> exists|idx: int|
            0 <= idx < v@.len() && v@[idx].component_id@ == k)
}

/// Registry handle: versioned component schemas behind a shared
/// reader/writer lock. Clones share the underlying storage — a register or
/// clear through one handle is observable through every other — while the
/// current wire version is a per-handle setting.
pub struct SchemaRegistry {
    storage: Arc<RwLock<RegistryState, RegistryStorable>>,
    current_version: SchemaVersion,
}

impl SchemaRegistry {
    /// The shared lock this handle goes through; equal for handles that
    /// share storage.
    pub closed spec fn spec_storage(&self) -> Arc<RwLock<RegistryState, RegistryStorable>> {
        self.storage
    }

    pub closed spec fn spec_current_version(&self) -> SchemaVersion {
        self.current_version
    }

    pub fn new() -> (r: SchemaRegistry)
        ensures
            r.spec_current_version() == 1,
    {
        SchemaRegistry {
            storage: Arc::new(RwLock::new(RegistryState::new(), Ghost(RegistryStorable))),
            current_version: 1,
        }
    }

    /// Store a schema in the shared storage. Against the state observed
    /// under the lock: succeeds iff the component is new or the version
    /// advances strictly; then the schema replaces the stored one and the
    /// version joins the component's history, visible through every handle.
    pub fn register(&self, schema: ComponentSchema) -> (r: Result<(), LinkError>)
        ensures
            exists|m: Map<Seq<char>, ComponentSchema>|
                #[trigger] spec_register_outcome(m, schema.component_id@, schema.version, r),
    {
        let ghost id = schema.component_id@;
        let ghost version = schema.version;
        let (mut state, write_handle) = self.storage.acquire_write();
        let ghost m0 = state.spec_schemas();
        let r = state.register(schema);
        write_handle.release_write(state);
        proof {
            assert(spec_register_outcome(m0, id, version, r));
        }
        r
    }

    /// The stored schema for this component in the shared storage, or
    /// `SchemaNotFound` carrying the id.
    pub fn get(&self, component_id: &str) -> (r: Result<ComponentSchema, LinkError>)
        ensures
            exists|m: Map<Seq<char>, ComponentSchema>|
                #[trigger] spec_get_outcome(m, component_id@, r),
    {
        let read_handle = self.storage.acquire_read();
        let state = read_handle.borrow();
        let ghost m0 = state.spec_schemas();
        let r = state.get(component_id);
        read_handle.release_read();
        proof {
            assert(spec_get_outcome(m0, component_id@, r));
        }
        r
    }

    /// The stored schema iff its version is exactly `version`; otherwise
    /// `SchemaMismatch` (or `SchemaNotFound` for an unknown component).
    pub fn get_version(&self, component_id: &str, version: SchemaVersion) -> (r: Result<
        ComponentSchema,
        LinkError,
    >)
        ensures
            exists|m: Map<Seq<char>, ComponentSchema>|
                #[trigger] spec_get_version_outcome(m, component_id@, version, r),
    {
        let read_handle = self.storage.acquire_read();
        let state = read_handle.borrow();
        let ghost m0 = state.spec_schemas();
        let r = state.get_version(component_id, version);
        read_handle.release_read();
        proof {
            assert(spec_get_version_outcome(m0, component_id@, version, r));
        }
        r
    }

    /// Is a schema stored for this component in the shared storage?
    pub fn has(&self, component_id: &str) -> (r: bool)
        ensures
            exists|m: Map<Seq<char>, ComponentSchema>| r == #[trigger] m.contains_key(
                component_id@,
            ),
    {
        let read_handle = self.storage.acquire_read();
        let state = read_handle.borrow();
        let ghost m0 = state.spec_schemas();
        let r = state.has(component_id);
        read_handle.release_read();
        proof {
            assert(r == m0.contains_key(component_id@));
        }
        r
    }

    /// Every stored schema: one entry per registered component id, each
    /// matching the observed storage, none missing and none repeated.
    pub fn get_all(&self) -> (r: Result<Vec<ComponentSchema>, LinkError>)
        ensures
            exists|m: Map<Seq<char>, ComponentSchema>| #[trigger] spec_get_all_outcome(m, r),
    {
        let read_handle = self.storage.acquire_read();
        let state = read_handle.borrow();
        let ghost m0 = state.spec_schemas();
        let r = state.get_all();
        read_handle.release_read();
        proof {
            assert(spec_get_all_outcome(m0, r));
        }
        r
    }

    /// The versions registered for this component, oldest first; empty when
    /// none ever was.
    pub fn get_version_history(&self, component_id: &str) -> (r: Result<Vec<u32>, LinkError>)
        ensures
            exists|h: Map<Seq<char>, Seq<u32>>|
                #[trigger] spec_history_outcome(h, component_id@, r),
    {
        let read_handle = self.storage.acquire_read();
        let state = read_handle.borrow();
        let ghost h0 = state.spec_history();
        let r = state.get_version_history(component_id);
        read_handle.release_read();
        proof {
            assert(spec_history_outcome(h0, component_id@, r));
        }
        r
    }

    /// Clients may only advance: a new version is compatible iff it is at
    /// least the old one.
    pub fn validate_compatibility(&self, old_version: SchemaVersion, new_version: SchemaVersion) -> (r:
        bool)
        ensures
            r == (new_version >= old_version),
    {
        new_version >= old_version
    }

    /// Drop every schema and every history entry from the shared storage,
    /// for every handle.
    pub fn clear(&self) -> (r: Result<(), LinkError>)
        ensures
            r is Ok,
    {
        let (mut state, write_handle) = self.storage.acquire_write();
        let _ = state.clear();
        write_handle.release_write(state);
        Ok(())
    }

    pub fn get_current_version(&self) -> (v: SchemaVersion)
        ensures
            v == self.spec_current_version(),
    {
        self.current_version
    }

    /// The wire version is a per-handle setting; other handles keep theirs.
    pub fn set_current_version(&mut self, version: SchemaVersion)
        ensures
            final(self).spec_current_version() == version,
            final(self).spec_storage() == old(self).spec_storage(),
    {
        self.current_version = version;
    }
}

impl Clone for SchemaRegistry {
    /// A clone is a new handle to the same storage: later registrations
    /// through either handle are observable through both. The current wire
    /// version is copied and thereafter independent.
    fn clone(&self) -> (res: Self)
        ensures
            res.spec_storage() == self.spec_storage(),
            res.spec_current_version() == self.spec_current_version(),
    {
        SchemaRegistry {
            storage: clone_storage(&self.storage),
            current_version: self.current_version,
        }
    }
}

impl Default for SchemaRegistry {
    fn default() -> (r: Self)
        ensures
            r.spec_current_version() == 1,
    {
        SchemaRegistry::new()
    }
}

/// Schema monotonicity law: after a successful registration of some
/// version, registering the same component again succeeds exactly when the
/// new version is strictly greater.
pub proof fn lemma_register_monotonic(
    m: Map<Seq<char>, ComponentSchema>,
    first: ComponentSchema,
    next_version: SchemaVersion,
)
    requires
        spec_register_ok(m, first.component_id@, first.version),
    ensures
        spec_register_ok(
            m.insert(first.component_id@, first),
            first.component_id@,
            next_version,
        ) <==> next_version > first.version,
{
}

/// The field types a component presents, keyed by field name; a later entry
/// overrides an earlier one.
pub open spec fn field_type_map(entries: Seq<(String, FieldType)>) -> Map<Seq<char>, FieldType> {
    assoc_map(entries)
}

/// Is a presented component acceptable for its declared schema: every
/// non-optional declared field is present, and every present declared field
/// carries the declared type. Extra fields are ignored.
pub open spec fn spec_component_valid(
    schema: ComponentSchema,
    fields: Map<Seq<char>, FieldType>,
) -> bool {
    forall|i: int|
        0 <= i < schema.fields@.len() ==> {
            let f = #[trigger] schema.fields@[i];
            &&& (!f.optional ==> fields.contains_key(f.field_id@))
            &&& (fields.contains_key(f.field_id@) ==> fields[f.field_id@] == f.field_type)
        }
}

/// Validates presented components against a registry of schemas.
/// What a validation reports against one observed storage state.
pub open spec fn spec_validate_outcome(
    m: Map<Seq<char>, ComponentSchema>,
    id: Seq<char>,
    fm: Map<Seq<char>, FieldType>,
    r: Result<(), LinkError>,
) -> bool {
    match r {
        Ok(_) => m.contains_key(id) && spec_component_valid(m[id], fm),
        Err(e) => (!m.contains_key(id) && e is SchemaNotFound) || (m.contains_key(id)
            && !spec_component_valid(m[id], fm) && e is InvalidMessage),
    }
}

/// Hold the presented fields against one declared schema: accepted iff
/// every non-optional declared field is present and every present declared
/// field carries the declared type; a failure is an `InvalidMessage`.
#[verifier::loop_isolation(false)]
pub fn check_fields(schema: &ComponentSchema, fields: &Vec<(String, FieldType)>) -> (r: Result<
    (),
    LinkError,
>)
    ensures
        r is Ok <==> spec_component_valid(*schema, field_type_map(fields@)),
        r matches Err(e) ==> e is InvalidMessage,
{
    let ghost fm = field_type_map(fields@);
    let mut i: usize = 0;
    while i < schema.fields.len()
        invariant
            0 <= i <= schema.fields@.len(),
            forall|j: int|
                0 <= j < i ==> {
                    let f = #[trigger] schema.fields@[j];
                    &&& (!f.optional ==> fm.contains_key(f.field_id@))
                    &&& (fm.contains_key(f.field_id@) ==> fm[f.field_id@] == f.field_type)
                },
        decreases schema.fields@.len() - i,
    {
        let field_schema = &schema.fields[i];
        let present = assoc_find(fields, field_schema.field_id.as_str());
        if !field_schema.optional && present.is_none() {
            proof {
                assert(!spec_component_valid(*schema, fm)) by {
                    assert(schema.fields@[i as int].optional == false);
                    assert(!fm.contains_key(schema.fields@[i as int].field_id@));
                }
            }
            let mut msg = String::from_str("Required field '");
            msg.append(field_schema.field_id.as_str());
            msg.append("' missing in component '");
            msg.append(schema.component_id.as_str());
            msg.append("'");
            return Err(LinkError::InvalidMessage(msg));
        }
        match present {
            Some(idx) => {
                if !(fields[idx].1 == field_schema.field_type) {
                    proof {
                        assert(!spec_component_valid(*schema, fm)) by {
                            assert(fm.contains_key(schema.fields@[i as int].field_id@));
                            assert(fm[schema.fields@[i as int].field_id@] != schema.fields@[
                                i as int].field_type);
                        }
                    }
                    let mut msg = String::from_str("Field '");
                    msg.append(field_schema.field_id.as_str());
                    msg.append("' has wrong type in component '");
                    msg.append(schema.component_id.as_str());
                    msg.append("'");
                    return Err(LinkError::InvalidMessage(msg));
                }
            },
            None => {},
        }
        i = i + 1;
    }
    Ok(())
}

/// Two schemas with the same structural content validate the same field
/// mappings.
proof fn lemma_component_valid_deep(
    a: ComponentSchema,
    b: ComponentSchema,
    fm: Map<Seq<char>, FieldType>,
)
    requires
        a.deep_view() == b.deep_view(),
    ensures
        spec_component_valid(a, fm) == spec_component_valid(b, fm),
{
    let ad = a.fields.deep_view();
    let bd = b.fields.deep_view();
    assert(ad == bd);
    assert(ad.len() == a.fields@.len());
    assert(bd.len() == b.fields@.len());
    assert forall|j: int|
        0 <= j < a.fields@.len() implies #[trigger] a.fields@[j].deep_view()
        == b.fields@[j].deep_view() by {
        assert(ad[j] == a.fields@[j].deep_view());
        assert(bd[j] == b.fields@[j].deep_view());
    }
    assert forall|j: int|
        0 <= j < a.fields@.len() implies #[trigger] a.fields@[j].field_id@ == b.fields@[j].field_id@
            && a.fields@[j].optional == b.fields@[j].optional && a.fields@[j].field_type
            == b.fields@[j].field_type by {
        assert(a.fields@[j].deep_view() == b.fields@[j].deep_view());
    }
    if spec_component_valid(a, fm) {
        assert forall|i: int| 0 <= i < b.fields@.len() implies {
            let f = #[trigger] b.fields@[i];
            &&& (!f.optional ==> fm.contains_key(f.field_id@))
            &&& (fm.contains_key(f.field_id@) ==> fm[f.field_id@] == f.field_type)
        } by {
            let fa = a.fields@[i];
            assert(fa.field_id@ == b.fields@[i].field_id@);
        }
    }
    if spec_component_valid(b, fm) {
        assert forall|i: int| 0 <= i < a.fields@.len() implies {
            let f = #[trigger] a.fields@[i];
            &&& (!f.optional ==> fm.contains_key(f.field_id@))
            &&& (fm.contains_key(f.field_id@) ==> fm[f.field_id@] == f.field_type)
        } by {
            let fb = b.fields@[i];
            assert(fb.field_id@ == a.fields@[i].field_id@);
        }
    }
}

pub struct SchemaValidator {
    registry: SchemaRegistry,
}

impl SchemaValidator {
    pub closed spec fn spec_registry(&self) -> SchemaRegistry {
        self.registry
    }

    pub fn new(registry: SchemaRegistry) -> (v: SchemaValidator)
        ensures
            v.spec_registry() == registry,
    {
        SchemaValidator { registry }
    }

    /// Accepts iff, against the storage state observed under the lock, the
    /// component has a schema and the presented fields meet it: an unknown
    /// component is a `SchemaNotFound`, a missing required field or a wrong
    /// type an `InvalidMessage`.
    pub fn validate_component(&self, component_id: &str, fields: &Vec<(String, FieldType)>) -> (r:
        Result<(), LinkError>)
        ensures
            exists|m: Map<Seq<char>, ComponentSchema>|
                #[trigger] spec_validate_outcome(m, component_id@, field_type_map(fields@), r),
    {
        let ghost fm = field_type_map(fields@);
        let schema = match self.registry.get(component_id) {
            Ok(s) => s,
            Err(e) => {
                proof {
                    let m = choose|m: Map<Seq<char>, ComponentSchema>|
                        #[trigger] spec_get_outcome(m, component_id@, Err::<
                            ComponentSchema,
                            LinkError,
                        >(e));
                    assert(spec_validate_outcome(m, component_id@, fm, Err::<(), LinkError>(e)));
                }
                return Err(e);
            },
        };
        let ghost m = choose|m: Map<Seq<char>, ComponentSchema>|
            #[trigger] spec_get_outcome(m, component_id@, Ok::<ComponentSchema, LinkError>(schema));
        let r = check_fields(&schema, fields);
        proof {
            lemma_component_valid_deep(schema, m[component_id@], fm);
            assert(spec_validate_outcome(m, component_id@, fm, r));
        }
        r
    }

    pub fn get_registry(&self) -> (r: &SchemaRegistry)
        ensures
            r == self.spec_registry(),
    {
        &self.registry
    }
}

} // verus!

