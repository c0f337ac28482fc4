//! Delta compression: turning a stream of world snapshots into minimal
//! change sets.
//!
//! The diff semantics are given by spec functions over the deep views:
//! snapshots index their entities by id (a later duplicate overrides an
//! earlier one), entities index their components by id, and `Structured`
//! components index their fields by name. The executable compressor is
//! proved to emit exactly the changes those spec functions describe.

use vstd::prelude::*;

use crate::json::{json_fields_of, parse_json_object_fields};
use crate::protocol::{
    ComponentData, ComponentDataV, DeltaChange, DeltaChangeV, EntityId, FieldDelta, FieldDeltaV,
    FieldValue, FieldValueV, SerializedComponent, SerializedComponentV, SerializedEntity,
    SerializedEntityV, fv_pairs_view, fv_seq_view, fv_view, lemma_fv_pairs_view_props,
    lemma_fv_seq_view_props, lemma_vec_fv_deep_view, lemma_vec_fv_pairs_deep_view,
};
use crate::serialization::{Delta, WorldSnapshot, WorldSnapshotV};

verus! {

/// The mapping a sequence of key/value pairs denotes: a later pair with the
/// same key overrides an earlier one.
pub open spec fn field_map(pairs: Seq<(Seq<char>, FieldValueV)>) -> Map<Seq<char>, FieldValueV>
    decreases pairs.len(),
{
    if pairs.len() == 0 {
        Map::empty()
    } else {
        field_map(pairs.drop_last()).insert(pairs.last().0, pairs.last().1)
    }
}

/// The component mapping an entity's component list denotes; a later
/// duplicate id overrides an earlier one.
pub open spec fn comp_map(cs: Seq<SerializedComponentV>) -> Map<Seq<char>, ComponentDataV>
    decreases cs.len(),
{
    if cs.len() == 0 {
        Map::empty()
    } else {
        comp_map(cs.drop_last()).insert(cs.last().id, cs.last().data)
    }
}

/// The entity mapping a snapshot's entity list denotes; a later duplicate id
/// overrides an earlier one.
pub open spec fn ent_map(es: Seq<SerializedEntityV>) -> Map<EntityId, Seq<SerializedComponentV>>
    decreases es.len(),
{
    if es.len() == 0 {
        Map::empty()
    } else {
        ent_map(es.drop_last()).insert(es.last().id, es.last().components)
    }
}

/// Two component payloads are equal when their variants match and the
/// contents are structurally equal: byte-wise for `Binary`, text-wise for
/// `Json`, and as field mappings for `Structured`.
pub open spec fn spec_data_equal(a: ComponentDataV, b: ComponentDataV) -> bool {
    match (a, b) {
        (ComponentDataV::Binary(x), ComponentDataV::Binary(y)) => x == y,
        (ComponentDataV::Json(x), ComponentDataV::Json(y)) => x == y,
        (ComponentDataV::Structured(x), ComponentDataV::Structured(y)) => field_map(x)
            == field_map(y),
        _ => false,
    }
}

/// Index `i` names the pair that counts for its key: no later pair repeats it.
pub open spec fn is_last_field(pairs: Seq<(Seq<char>, FieldValueV)>, i: int) -> bool {
    forall|j: int| i < j < pairs.len() ==> pairs[j].0 != pairs[i].0
}

/// The field transitions for the keys of `curr`, scanned from index `i` on:
/// a key absent from `prev` is an addition, a key present with a different
/// value is an update.
pub open spec fn spec_field_updates(
    prev: Seq<(Seq<char>, FieldValueV)>,
    curr: Seq<(Seq<char>, FieldValueV)>,
    i: int,
) -> Seq<FieldDeltaV>
    decreases curr.len() - i,
{
    if i < 0 || i >= curr.len() {
        Seq::empty()
    } else {
        let head: Seq<FieldDeltaV> = if is_last_field(curr, i) {
            let k = curr[i].0;
            let v = curr[i].1;
            if !field_map(prev).contains_key(k) {
                seq![FieldDeltaV { field_id: k, old_value: None, new_value: v }]
            } else if field_map(prev)[k] != v {
                seq![
                    FieldDeltaV { field_id: k, old_value: Some(field_map(prev)[k]), new_value: v },
                ]
            } else {
                Seq::empty()
            }
        } else {
            Seq::empty()
        };
        head + spec_field_updates(prev, curr, i + 1)
    }
}

/// The removals: keys of `prev` that `curr` no longer has, each reported
/// with its old value and a `Null` new value.
pub open spec fn spec_field_removals(
    prev: Seq<(Seq<char>, FieldValueV)>,
    curr: Seq<(Seq<char>, FieldValueV)>,
    i: int,
) -> Seq<FieldDeltaV>
    decreases prev.len() - i,
{
    if i < 0 || i >= prev.len() {
        Seq::empty()
    } else {
        let head: Seq<FieldDeltaV> = if is_last_field(prev, i) && !field_map(curr).contains_key(
            prev[i].0,
        ) {
            seq![
                FieldDeltaV {
                    field_id: prev[i].0,
                    old_value: Some(field_map(prev)[prev[i].0]),
                    new_value: FieldValueV::Null,
                },
            ]
        } else {
            Seq::empty()
        };
        head + spec_field_removals(prev, curr, i + 1)
    }
}

/// All field transitions between two field mappings: the updates for the
/// current keys, then the removals for the vanished ones.
pub open spec fn spec_field_deltas(
    prev: Seq<(Seq<char>, FieldValueV)>,
    curr: Seq<(Seq<char>, FieldValueV)>,
) -> Seq<FieldDeltaV> {
    spec_field_updates(prev, curr, 0) + spec_field_removals(prev, curr, 0)
}

/// What the field compressor yields for a pair of payloads: nothing when
/// disabled or when the payloads are not both field mappings; for a pair of
/// JSON texts, the diff of their parsed objects when both parse as objects.
pub open spec fn spec_field_deltas_opt(
    enabled: bool,
    prev: ComponentDataV,
    curr: ComponentDataV,
) -> Option<Seq<FieldDeltaV>> {
    if !enabled {
        None
    } else {
        match (prev, curr) {
            (ComponentDataV::Structured(p), ComponentDataV::Structured(c)) => Some(
                spec_field_deltas(p, c),
            ),
            (ComponentDataV::Json(p), ComponentDataV::Json(c)) => match (
                json_fields_of(p),
                json_fields_of(c),
            ) {
                (Some(pf), Some(cf)) => Some(spec_field_deltas(pf, cf)),
                _ => None,
            },
            _ => None,
        }
    }
}

/// `field_map` contains a key iff some pair carries it, and maps it to the
/// value of the last pair that does.
pub proof fn lemma_field_map_last(pairs: Seq<(Seq<char>, FieldValueV)>, k: Seq<char>)
    ensures
        field_map(pairs).contains_key(k) <==> exists|i: int|
            0 <= i < pairs.len() && pairs[i].0 == k,
        forall|i: int|
            0 <= i < pairs.len() && pairs[i].0 == k && is_last_field(pairs, i) ==> field_map(
                pairs,
            ).contains_key(k) && field_map(pairs)[k] == pairs[i].1,
    decreases pairs.len(),
{
    if pairs.len() > 0 {
        lemma_field_map_last(pairs.drop_last(), k);
        let last = pairs.len() - 1;
        if field_map(pairs).contains_key(k) {
            if pairs.last().0 == k {
                assert(pairs[last].0 == k);
            }
        }
        assert forall|i: int|
            0 <= i < pairs.len() && pairs[i].0 == k && is_last_field(pairs, i) implies field_map(
            pairs,
        ).contains_key(k) && field_map(pairs)[k] == pairs[i].1 by {
            if i == last {
            } else {
                assert(pairs[last].0 != k);
                assert(pairs.drop_last()[i] == pairs[i]);
                assert(is_last_field(pairs.drop_last(), i)) by {
                    assert forall|j: int|
                        i < j < pairs.drop_last().len() implies pairs.drop_last()[j].0 != pairs
                        .drop_last()[i].0 by {
                        assert(pairs.drop_last()[j] == pairs[j]);
                    }
                }
            }
        }
        if exists|i: int| 0 <= i < pairs.len() && pairs[i].0 == k {
            let i = choose|i: int| 0 <= i < pairs.len() && pairs[i].0 == k;
            if i < last {
                assert(pairs.drop_last()[i] == pairs[i]);
            }
            assert(field_map(pairs).contains_key(k));
        }
    }
}


/// Byte-wise equality of two byte vectors.
#[verifier::loop_isolation(false)]
fn bytes_equal(x: &Vec<u8>, y: &Vec<u8>) -> (r: bool)
    ensures
        r == (x@ == y@),
{
    if x.len() != y.len() {
        return false;
    }
    let mut i: usize = 0;
    while i < x.len()
        invariant
            0 <= i <= x@.len(),
            x@.len() == y@.len(),
            forall|j: int| 0 <= j < i ==> x@[j] == y@[j],
        decreases x@.len() - i,
    {
        if x[i] != y[i] {
            return false;
        }
        i = i + 1;
    }
    proof {
        assert(x@ =~= y@);
    }
    true
}

/// Structural equality of two field values: scalar by value, strings and
/// byte blobs element-wise, arrays in order, mappings entry by entry in
/// order.
#[verifier::loop_isolation(false)]
pub fn value_equal(a: &FieldValue, b: &FieldValue) -> (r: bool)
    ensures
        r == (fv_view(*a) == fv_view(*b)),
    decreases a,
{
    broadcast use {lemma_fv_seq_view_props, lemma_fv_pairs_view_props};

    match (a, b) {
        (FieldValue::Null, FieldValue::Null) => true,
        (FieldValue::Bool(x), FieldValue::Bool(y)) => *x == *y,
        (FieldValue::U8(x), FieldValue::U8(y)) => *x == *y,
        (FieldValue::U16(x), FieldValue::U16(y)) => *x == *y,
        (FieldValue::U32(x), FieldValue::U32(y)) => *x == *y,
        (FieldValue::U64(x), FieldValue::U64(y)) => *x == *y,
        (FieldValue::I8(x), FieldValue::I8(y)) => *x == *y,
        (FieldValue::I16(x), FieldValue::I16(y)) => *x == *y,
        (FieldValue::I32(x), FieldValue::I32(y)) => *x == *y,
        (FieldValue::I64(x), FieldValue::I64(y)) => *x == *y,
        (FieldValue::F32(x), FieldValue::F32(y)) => *x == *y,
        (FieldValue::F64(x), FieldValue::F64(y)) => *x == *y,
        (FieldValue::Text(x), FieldValue::Text(y)) => *x == *y,
        (FieldValue::Bytes(x), FieldValue::Bytes(y)) => bytes_equal(x, y),
        (FieldValue::Array(x), FieldValue::Array(y)) => {
            if x.len() != y.len() {
                proof {
                    assert(fv_seq_view(x@).len() != fv_seq_view(y@).len());
                }
                return false;
            }
            let mut i: usize = 0;
            while i < x.len()
                invariant
                    *a == FieldValue::Array(*x),
                    0 <= i <= x@.len(),
                    x@.len() == y@.len(),
                    forall|j: int| 0 <= j < i ==> fv_view(x@[j]) == fv_view(y@[j]),
                decreases x@.len() - i,
            {
                proof {
                    assert(decreases_to!(*a => (*a)->Array_0));
                    assert((*a)->Array_0 == *x);
                    assert(decreases_to!(*x => x@));
                    assert(decreases_to!(x@ => x@[i as int]));
                }
                if !value_equal(&x[i], &y[i]) {
                    proof {
                        assert(fv_seq_view(x@)[i as int] != fv_seq_view(y@)[i as int]);
                    }
                    return false;
                }
                i = i + 1;
            }
            proof {
                assert(fv_seq_view(x@) =~= fv_seq_view(y@));
            }
            true
        },
        (FieldValue::Dict(x), FieldValue::Dict(y)) => {
            if x.len() != y.len() {
                proof {
                    assert(fv_pairs_view(x@).len() != fv_pairs_view(y@).len());
                }
                return false;
            }
            let mut i: usize = 0;
            while i < x.len()
                invariant
                    *a == FieldValue::Dict(*x),
                    0 <= i <= x@.len(),
                    x@.len() == y@.len(),
                    forall|j: int|
                        0 <= j < i ==> x@[j].0@ == y@[j].0@ && fv_view(x@[j].1) == fv_view(
                            y@[j].1,
                        ),
                decreases x@.len() - i,
            {
                proof {
                    assert(decreases_to!(*a => (*a)->Dict_0));
                    assert((*a)->Dict_0 == *x);
                    assert(decreases_to!(*x => x@));
                    assert(decreases_to!(x@ => x@[i as int]));
                    assert(decreases_to!(x@[i as int] => x@[i as int].1));
                }
                let (kx, vx) = &x[i];
                let (ky, vy) = &y[i];
                if !(*kx == *ky) {
                    proof {
                        assert(fv_pairs_view(x@)[i as int].0 != fv_pairs_view(y@)[i as int].0);
                    }
                    return false;
                }
                if !value_equal(vx, vy) {
                    proof {
                        assert(fv_pairs_view(x@)[i as int].1 != fv_pairs_view(y@)[i as int].1);
                    }
                    return false;
                }
                i = i + 1;
            }
            proof {
                assert forall|j: int| 0 <= j < x@.len() implies fv_pairs_view(x@)[j]
                    == fv_pairs_view(y@)[j] by {
                    assert(fv_pairs_view(x@)[j] == (x@[j].0@, fv_view(x@[j].1)));
                    assert(fv_pairs_view(y@)[j] == (y@[j].0@, fv_view(y@[j].1)));
                }
                assert(fv_pairs_view(x@) =~= fv_pairs_view(y@));
            }
            true
        },
        _ => false,
    }
}

/// Look a field up by name; a later entry with the same name wins.
#[verifier::loop_isolation(false)]
fn lookup_field<'a>(pairs: &'a Vec<(String, FieldValue)>, key: &String) -> (r: Option<
    &'a FieldValue,
>)
    ensures
        match r {
            Some(v) => field_map(fv_pairs_view(pairs@)).contains_key(key@) && fv_view(*v)
                == field_map(fv_pairs_view(pairs@))[key@],
            None => !field_map(fv_pairs_view(pairs@)).contains_key(key@),
        },
{
    broadcast use lemma_fv_pairs_view_props;

    let ghost pv = fv_pairs_view(pairs@);
    let mut i: usize = pairs.len();
    while i > 0
        invariant
            pv == fv_pairs_view(pairs@),
            0 <= i <= pairs@.len(),
            forall|j: int| i <= j < pairs@.len() ==> pairs@[j].0@ != key@,
        decreases i,
    {
        i = i - 1;
        let (k, v) = &pairs[i];
        if *k == *key {
            proof {
                assert(pv[i as int].0 == key@);
                assert(is_last_field(pv, i as int)) by {
                    assert forall|j: int| i < j < pv.len() implies pv[j].0 != pv[i as int].0 by {
                        assert(pv[j].0 == pairs@[j].0@);
                    }
                }
                lemma_field_map_last(pv, key@);
                assert(fv_view(pairs@[i as int].1) == pv[i as int].1);
            }
            return Some(v);
        }
    }
    proof {
        lemma_field_map_last(pv, key@);
        assert forall|j: int| 0 <= j < pv.len() implies pv[j].0 != key@ by {
            assert(pv[j].0 == pairs@[j].0@);
        }
    }
    None
}

/// Equality of two field mappings as mappings: same names, same values,
/// whatever the entry order or duplication.
#[verifier::loop_isolation(false)]
fn structured_equal(x: &Vec<(String, FieldValue)>, y: &Vec<(String, FieldValue)>) -> (r: bool)
    ensures
        r == (field_map(fv_pairs_view(x@)) == field_map(fv_pairs_view(y@))),
{
    broadcast use lemma_fv_pairs_view_props;

    let ghost xm = field_map(fv_pairs_view(x@));
    let ghost ym = field_map(fv_pairs_view(y@));
    let mut i: usize = 0;
    while i < x.len()
        invariant
            xm == field_map(fv_pairs_view(x@)),
            ym == field_map(fv_pairs_view(y@)),
            0 <= i <= x@.len(),
            forall|j: int|
                0 <= j < i ==> ym.contains_key(#[trigger] x@[j].0@) && ym[x@[j].0@] == xm[x@[j].0@],
        decreases x@.len() - i,
    {
        let (k, _v) = &x[i];
        proof {
            lemma_field_map_last(fv_pairs_view(x@), k@);
            assert(fv_pairs_view(x@)[i as int].0 == k@);
            assert(xm.contains_key(k@));
        }
        let xv = lookup_field(x, k);
        let yv = lookup_field(y, k);
        match (xv, yv) {
            (Some(xval), Some(yval)) => {
                if !value_equal(xval, yval) {
                    proof {
                        assert(xm[k@] != ym[k@]);
                    }
                    return false;
                }
            },
            _ => {
                proof {
                    assert(!ym.contains_key(k@));
                }
                return false;
            },
        }
        i = i + 1;
    }
    let mut i: usize = 0;
    while i < y.len()
        invariant
            xm == field_map(fv_pairs_view(x@)),
            ym == field_map(fv_pairs_view(y@)),
            0 <= i <= y@.len(),
            forall|j: int|
                0 <= j < x@.len() ==> ym.contains_key(#[trigger] x@[j].0@) && ym[x@[j].0@]
                    == xm[x@[j].0@],
            forall|j: int| 0 <= j < i ==> xm.contains_key(#[trigger] y@[j].0@),
        decreases y@.len() - i,
    {
        let (k, _v) = &y[i];
        let xv = lookup_field(x, k);
        if xv.is_none() {
            proof {
                lemma_field_map_last(fv_pairs_view(y@), k@);
                assert(fv_pairs_view(y@)[i as int].0 == k@);
                assert(ym.contains_key(k@));
                assert(!xm.contains_key(k@));
            }
            return false;
        }
        i = i + 1;
    }
    proof {
        assert forall|k: Seq<char>| #[trigger] xm.dom().contains(k) implies ym.dom().contains(k)
            && ym[k] == xm[k] by {
            lemma_field_map_last(fv_pairs_view(x@), k);
            let j = choose|j: int|
                0 <= j < fv_pairs_view(x@).len() && fv_pairs_view(x@)[j].0 == k;
            assert(x@[j].0@ == k);
        }
        assert forall|k: Seq<char>| #[trigger] ym.dom().contains(k) implies xm.dom().contains(
            k,
        ) by {
            lemma_field_map_last(fv_pairs_view(y@), k);
            let j = choose|j: int|
                0 <= j < fv_pairs_view(y@).len() && fv_pairs_view(y@)[j].0 == k;
            assert(y@[j].0@ == k);
        }
        assert forall|k: Seq<char>| xm.dom().contains(k) == ym.dom().contains(k) by {
            if xm.dom().contains(k) {
                assert(ym.dom().contains(k));
            }
            if ym.dom().contains(k) {
                assert(xm.dom().contains(k));
            }
        }
        assert(xm.dom() =~= ym.dom());
        assert(xm =~= ym);
    }
    true
}

/// Equality of two component payloads, as the diff sees it.
pub fn data_equal(a: &ComponentData, b: &ComponentData) -> (r: bool)
    ensures
        r == spec_data_equal(a.deep_view(), b.deep_view()),
{
    broadcast use lemma_vec_fv_pairs_deep_view;

    match (a, b) {
        (ComponentData::Binary(x), ComponentData::Binary(y)) => bytes_equal(x, y),
        (ComponentData::Json(x), ComponentData::Json(y)) => *x == *y,
        (ComponentData::Structured(x), ComponentData::Structured(y)) => structured_equal(x, y),
        _ => false,
    }
}


/// Does index `i` carry the last occurrence of its key?
#[verifier::loop_isolation(false)]
fn is_last_pair(pairs: &Vec<(String, FieldValue)>, i: usize) -> (r: bool)
    requires
        i < pairs@.len(),
    ensures
        r == is_last_field(fv_pairs_view(pairs@), i as int),
{
    broadcast use lemma_fv_pairs_view_props;

    let ghost pv = fv_pairs_view(pairs@);
    let n = pairs.len();
    let mut j: usize = i + 1;
    while j < n
        invariant
            i < j <= pairs@.len(),
            forall|l: int| i < l < j ==> pv[l].0 != pv[i as int].0,
        decreases pairs@.len() - j,
    {
        if pairs[j].0 == pairs[i].0 {
            proof {
                assert(pv[j as int].0 == pv[i as int].0);
            }
            return false;
        }
        j = j + 1;
    }
    true
}

/// Compute the field transitions between two field mappings; the result is
/// exactly `spec_field_deltas` of the two views.
#[verifier::loop_isolation(false)]
fn field_deltas_pairs(prev: &Vec<(String, FieldValue)>, curr: &Vec<(String, FieldValue)>) -> (out:
    Vec<FieldDelta>)
    ensures
        out.deep_view() == spec_field_deltas(fv_pairs_view(prev@), fv_pairs_view(curr@)),
{
    broadcast use lemma_fv_pairs_view_props;

    let ghost pv = fv_pairs_view(prev@);
    let ghost cv = fv_pairs_view(curr@);
    let mut out: Vec<FieldDelta> = Vec::new();
    let mut i: usize = 0;
    while i < curr.len()
        invariant
            0 <= i <= curr@.len(),
            out.deep_view() + spec_field_updates(pv, cv, i as int) == spec_field_updates(
                pv,
                cv,
                0,
            ),
        decreases curr@.len() - i,
    {
        let ghost out0 = out.deep_view();
        let ghost rest = spec_field_updates(pv, cv, i + 1);
        let ghost head = spec_field_updates(pv, cv, i as int).take(
            spec_field_updates(pv, cv, i as int).len() - rest.len(),
        );
        let (k, v) = &curr[i];
        proof {
            assert(cv[i as int] == (k@, fv_view(*v)));
        }
        if is_last_pair(curr, i) {
            match lookup_field(prev, k) {
                None => {
                    let fd = FieldDelta {
                        field_id: k.clone(),
                        old_value: None,
                        new_value: v.clone(),
                    };
                    let ghost fdv = FieldDeltaV {
                        field_id: k@,
                        old_value: None,
                        new_value: fv_view(*v),
                    };
                    proof {
                        assert(fd.deep_view() == fdv);
                        assert(spec_field_updates(pv, cv, i as int) == seq![fdv] + rest);
                    }
                    out.push(fd);
                    proof {
                        assert(out.deep_view() =~= out0.push(fdv));
                        assert(out0.push(fdv) + rest =~= out0 + (seq![fdv] + rest));
                    }
                },
                Some(pval) => {
                    if !value_equal(pval, v) {
                        let fd = FieldDelta {
                            field_id: k.clone(),
                            old_value: Some(pval.clone()),
                            new_value: v.clone(),
                        };
                        let ghost fdv = FieldDeltaV {
                            field_id: k@,
                            old_value: Some(field_map(pv)[k@]),
                            new_value: fv_view(*v),
                        };
                        proof {
                            assert(fd.deep_view() == fdv);
                            assert(spec_field_updates(pv, cv, i as int) == seq![fdv] + rest);
                        }
                        out.push(fd);
                        proof {
                            assert(out.deep_view() =~= out0.push(fdv));
                            assert(out0.push(fdv) + rest =~= out0 + (seq![fdv] + rest));
                        }
                    } else {
                        proof {
                            assert(spec_field_updates(pv, cv, i as int) == rest)  by {
                                assert(Seq::<FieldDeltaV>::empty() + rest =~= rest);
                            }
                        }
                    }
                },
            }
        } else {
            proof {
                assert(spec_field_updates(pv, cv, i as int) == rest) by {
                    assert(Seq::<FieldDeltaV>::empty() + rest =~= rest);
                }
            }
        }
        i = i + 1;
    }
    proof {
        assert(spec_field_updates(pv, cv, curr@.len() as int) == Seq::<FieldDeltaV>::empty());
        assert(out.deep_view() + Seq::<FieldDeltaV>::empty() =~= out.deep_view());
    }
    let ghost updates = out.deep_view();
    let mut i: usize = 0;
    while i < prev.len()
        invariant
            0 <= i <= prev@.len(),
            out.deep_view() + spec_field_removals(pv, cv, i as int) == updates
                + spec_field_removals(pv, cv, 0),
        decreases prev@.len() - i,
    {
        let ghost out0 = out.deep_view();
        let ghost rest = spec_field_removals(pv, cv, i + 1);
        let (k, v) = &prev[i];
        proof {
            assert(pv[i as int] == (k@, fv_view(*v)));
        }
        if is_last_pair(prev, i) {
            match lookup_field(curr, k) {
                None => {
                    let old_val = match lookup_field(prev, k) {
                        Some(pval) => Some(pval.clone()),
                        None => None,
                    };
                    proof {
                        lemma_field_map_last(pv, k@);
                    }
                    let fd = FieldDelta {
                        field_id: k.clone(),
                        old_value: old_val,
                        new_value: FieldValue::Null,
                    };
                    let ghost fdv = FieldDeltaV {
                        field_id: k@,
                        old_value: Some(field_map(pv)[k@]),
                        new_value: FieldValueV::Null,
                    };
                    proof {
                        assert(fd.deep_view() == fdv);
                        assert(spec_field_removals(pv, cv, i as int) == seq![fdv] + rest);
                    }
                    out.push(fd);
                    proof {
                        assert(out.deep_view() =~= out0.push(fdv));
                        assert(out0.push(fdv) + rest =~= out0 + (seq![fdv] + rest));
                    }
                },
                Some(_) => {
                    proof {
                        assert(spec_field_removals(pv, cv, i as int) == rest) by {
                            assert(Seq::<FieldDeltaV>::empty() + rest =~= rest);
                        }
                    }
                },
            }
        } else {
            proof {
                assert(spec_field_removals(pv, cv, i as int) == rest) by {
                    assert(Seq::<FieldDeltaV>::empty() + rest =~= rest);
                }
            }
        }
        i = i + 1;
    }
    proof {
        assert(spec_field_removals(pv, cv, prev@.len() as int) == Seq::<FieldDeltaV>::empty());
        assert(out.deep_view() + Seq::<FieldDeltaV>::empty() =~= out.deep_view());
    }
    out
}

/// Computes per-field transitions between two components when both sides
/// allow it.
pub struct FieldCompressor {
    enabled: bool,
}

impl FieldCompressor {
    /// Whether fine-grained diffing is switched on.
    pub closed spec fn spec_enabled(&self) -> bool {
        self.enabled
    }

    pub fn new() -> (c: FieldCompressor)
        ensures
            c.spec_enabled(),
    {
        FieldCompressor { enabled: true }
    }

    pub fn with_enabled(enabled: bool) -> (c: FieldCompressor)
        ensures
            c.spec_enabled() == enabled,
    {
        FieldCompressor { enabled }
    }

    pub fn is_enabled(&self) -> (r: bool)
        ensures
            r == self.spec_enabled(),
    {
        self.enabled
    }

    pub fn set_enabled(&mut self, enabled: bool)
        ensures
            final(self).spec_enabled() == enabled,
    {
        self.enabled = enabled;
    }

    /// The transitions between the fields of `prev` and `curr`, exactly as
    /// `spec_field_deltas_opt` describes them: `None` when disabled, when
    /// the payload variants are incompatible, or when a JSON payload is not
    /// an object.
    pub fn compute_field_deltas(
        &self,
        prev: &SerializedComponent,
        curr: &SerializedComponent,
    ) -> (r: Option<Vec<FieldDelta>>)
        ensures
            r.deep_view() == spec_field_deltas_opt(
                self.spec_enabled(),
                prev.data.deep_view(),
                curr.data.deep_view(),
            ),
    {
        broadcast use lemma_vec_fv_pairs_deep_view;

        if !self.enabled {
            return None;
        }
        match (&prev.data, &curr.data) {
            (ComponentData::Structured(p), ComponentData::Structured(c)) => Some(
                field_deltas_pairs(p, c),
            ),
            (ComponentData::Json(p), ComponentData::Json(c)) => {
                let pf = parse_json_object_fields(p.as_str());
                let cf = parse_json_object_fields(c.as_str());
                match (pf, cf) {
                    (Some(pp), Some(cc)) => {
                        let out = field_deltas_pairs(&pp, &cc);
                        proof {
                            assert(fv_pairs_view(pp@) == json_fields_of(p@)->Some_0);
                            assert(fv_pairs_view(cc@) == json_fields_of(c@)->Some_0);
                        }
                        Some(out)
                    },
                    _ => None,
                }
            },
            _ => None,
        }
    }
}

impl Default for FieldCompressor {
    fn default() -> (c: Self)
        ensures
            c.spec_enabled(),
    {
        FieldCompressor::new()
    }
}


/// Does index `i` carry the last occurrence of its component id?
pub open spec fn is_last_comp(cs: Seq<SerializedComponentV>, i: int) -> bool {
    forall|j: int| i < j < cs.len() ==> cs[j].id != cs[i].id
}

/// Does index `i` carry the last occurrence of its entity id?
pub open spec fn is_last_ent(es: Seq<SerializedEntityV>, i: int) -> bool {
    forall|j: int| i < j < es.len() ==> es[j].id != es[i].id
}

/// `comp_map` contains an id iff some component carries it, and maps it to
/// the data of the last component that does.
pub proof fn lemma_comp_map_last(cs: Seq<SerializedComponentV>, k: Seq<char>)
    ensures
        comp_map(cs).contains_key(k) <==> exists|i: int| 0 <= i < cs.len() && cs[i].id == k,
        forall|i: int|
            0 <= i < cs.len() && cs[i].id == k && is_last_comp(cs, i) ==> comp_map(
                cs,
            ).contains_key(k) && comp_map(cs)[k] == cs[i].data,
    decreases cs.len(),
{
    if cs.len() > 0 {
        lemma_comp_map_last(cs.drop_last(), k);
        let last = cs.len() - 1;
        assert forall|i: int|
            0 <= i < cs.len() && cs[i].id == k && is_last_comp(cs, i) implies comp_map(
            cs,
        ).contains_key(k) && comp_map(cs)[k] == cs[i].data by {
            if i != last {
                assert(cs[last].id != k);
                assert(cs.drop_last()[i] == cs[i]);
                assert(is_last_comp(cs.drop_last(), i)) by {
                    assert forall|j: int|
                        i < j < cs.drop_last().len() implies cs.drop_last()[j].id != cs
                        .drop_last()[i].id by {
                        assert(cs.drop_last()[j] == cs[j]);
                    }
                }
            }
        }
        if exists|i: int| 0 <= i < cs.len() && cs[i].id == k {
            let i = choose|i: int| 0 <= i < cs.len() && cs[i].id == k;
            if i < last {
                assert(cs.drop_last()[i] == cs[i]);
            }
            assert(comp_map(cs).contains_key(k));
        }
    }
}

/// `ent_map` contains an id iff some entity carries it, and maps it to the
/// components of the last entity that does.
pub proof fn lemma_ent_map_last(es: Seq<SerializedEntityV>, k: EntityId)
    ensures
        ent_map(es).contains_key(k) <==> exists|i: int| 0 <= i < es.len() && es[i].id == k,
        forall|i: int|
            0 <= i < es.len() && es[i].id == k && is_last_ent(es, i) ==> ent_map(
                es,
            ).contains_key(k) && ent_map(es)[k] == es[i].components,
    decreases es.len(),
{
    if es.len() > 0 {
        lemma_ent_map_last(es.drop_last(), k);
        let last = es.len() - 1;
        assert forall|i: int|
            0 <= i < es.len() && es[i].id == k && is_last_ent(es, i) implies ent_map(
            es,
        ).contains_key(k) && ent_map(es)[k] == es[i].components by {
            if i != last {
                assert(es[last].id != k);
                assert(es.drop_last()[i] == es[i]);
                assert(is_last_ent(es.drop_last(), i)) by {
                    assert forall|j: int|
                        i < j < es.drop_last().len() implies es.drop_last()[j].id != es
                        .drop_last()[i].id by {
                        assert(es.drop_last()[j] == es[j]);
                    }
                }
            }
        }
        if exists|i: int| 0 <= i < es.len() && es[i].id == k {
            let i = choose|i: int| 0 <= i < es.len() && es[i].id == k;
            if i < last {
                assert(es.drop_last()[i] == es[i]);
            }
            assert(ent_map(es).contains_key(k));
        }
    }
}

/// One `ComponentAdded` per component, in list order, duplicates included.
pub open spec fn spec_component_adds(
    eid: EntityId,
    cs: Seq<SerializedComponentV>,
    i: int,
) -> Seq<DeltaChangeV>
    decreases cs.len() - i,
{
    if i < 0 || i >= cs.len() {
        Seq::empty()
    } else {
        seq![
            DeltaChangeV::ComponentAdded {
                entity_id: eid,
                component_id: cs[i].id,
                data: cs[i].data,
            },
        ] + spec_component_adds(eid, cs, i + 1)
    }
}

/// The change a current component contributes when its entity existed
/// before: an addition when its id is new; nothing when it is unchanged;
/// otherwise a field-level update when the field compressor yields a
/// non-empty diff, else a whole-component update.
pub open spec fn spec_comp_updates(
    enabled: bool,
    eid: EntityId,
    pcs: Seq<SerializedComponentV>,
    ccs: Seq<SerializedComponentV>,
    i: int,
) -> Seq<DeltaChangeV>
    decreases ccs.len() - i,
{
    if i < 0 || i >= ccs.len() {
        Seq::empty()
    } else {
        let head: Seq<DeltaChangeV> = if is_last_comp(ccs, i) {
            let c = ccs[i];
            if !comp_map(pcs).contains_key(c.id) {
                seq![
                    DeltaChangeV::ComponentAdded {
                        entity_id: eid,
                        component_id: c.id,
                        data: c.data,
                    },
                ]
            } else if spec_data_equal(comp_map(pcs)[c.id], c.data) {
                Seq::empty()
            } else {
                let fd = spec_field_deltas_opt(enabled, comp_map(pcs)[c.id], c.data);
                if fd is Some && fd->Some_0.len() > 0 {
                    seq![
                        DeltaChangeV::FieldsUpdated {
                            entity_id: eid,
                            component_id: c.id,
                            fields: fd->Some_0,
                        },
                    ]
                } else {
                    seq![
                        DeltaChangeV::ComponentUpdated {
                            entity_id: eid,
                            component_id: c.id,
                            data: c.data,
                        },
                    ]
                }
            }
        } else {
            Seq::empty()
        };
        head + spec_comp_updates(enabled, eid, pcs, ccs, i + 1)
    }
}

/// One `ComponentRemoved` for each component id that vanished.
pub open spec fn spec_comp_removals(
    eid: EntityId,
    pcs: Seq<SerializedComponentV>,
    ccs: Seq<SerializedComponentV>,
    i: int,
) -> Seq<DeltaChangeV>
    decreases pcs.len() - i,
{
    if i < 0 || i >= pcs.len() {
        Seq::empty()
    } else {
        let head: Seq<DeltaChangeV> = if is_last_comp(pcs, i) && !comp_map(ccs).contains_key(
            pcs[i].id,
        ) {
            seq![DeltaChangeV::ComponentRemoved { entity_id: eid, component_id: pcs[i].id }]
        } else {
            Seq::empty()
        };
        head + spec_comp_removals(eid, pcs, ccs, i + 1)
    }
}

/// All changes within one entity that exists on both sides.
pub open spec fn spec_component_changes(
    enabled: bool,
    eid: EntityId,
    pcs: Seq<SerializedComponentV>,
    ccs: Seq<SerializedComponentV>,
) -> Seq<DeltaChangeV> {
    spec_comp_updates(enabled, eid, pcs, ccs, 0) + spec_comp_removals(eid, pcs, ccs, 0)
}

/// The changes the current entities contribute: for a new entity, its
/// addition followed by all its components; for a shared one, its component
/// diff.
pub open spec fn spec_entity_updates(
    enabled: bool,
    prev: Seq<SerializedEntityV>,
    curr: Seq<SerializedEntityV>,
    i: int,
) -> Seq<DeltaChangeV>
    decreases curr.len() - i,
{
    if i < 0 || i >= curr.len() {
        Seq::empty()
    } else {
        let head: Seq<DeltaChangeV> = if is_last_ent(curr, i) {
            let e = curr[i];
            if !ent_map(prev).contains_key(e.id) {
                seq![DeltaChangeV::EntityAdded { entity_id: e.id }] + spec_component_adds(
                    e.id,
                    e.components,
                    0,
                )
            } else {
                spec_component_changes(enabled, e.id, ent_map(prev)[e.id], e.components)
            }
        } else {
            Seq::empty()
        };
        head + spec_entity_updates(enabled, prev, curr, i + 1)
    }
}

/// One `EntityRemoved` for each entity id that vanished.
pub open spec fn spec_entity_removals(
    prev: Seq<SerializedEntityV>,
    curr: Seq<SerializedEntityV>,
    i: int,
) -> Seq<DeltaChangeV>
    decreases prev.len() - i,
{
    if i < 0 || i >= prev.len() {
        Seq::empty()
    } else {
        let head: Seq<DeltaChangeV> = if is_last_ent(prev, i) && !ent_map(curr).contains_key(
            prev[i].id,
        ) {
            seq![DeltaChangeV::EntityRemoved { entity_id: prev[i].id }]
        } else {
            Seq::empty()
        };
        head + spec_entity_removals(prev, curr, i + 1)
    }
}

/// The full diff between two snapshots' entities.
pub open spec fn spec_snapshot_changes(
    enabled: bool,
    prev: Seq<SerializedEntityV>,
    curr: Seq<SerializedEntityV>,
) -> Seq<DeltaChangeV> {
    spec_entity_updates(enabled, prev, curr, 0) + spec_entity_removals(prev, curr, 0)
}

/// The first-ever delta: every entity is added, with all its components,
/// in list order.
pub open spec fn spec_initial_changes(es: Seq<SerializedEntityV>, i: int) -> Seq<DeltaChangeV>
    decreases es.len() - i,
{
    if i < 0 || i >= es.len() {
        Seq::empty()
    } else {
        seq![DeltaChangeV::EntityAdded { entity_id: es[i].id }] + spec_component_adds(
            es[i].id,
            es[i].components,
            0,
        ) + spec_initial_changes(es, i + 1)
    }
}


/// Does index `i` hold the last occurrence of its component id?
#[verifier::loop_isolation(false)]
fn is_last_comp_at(cs: &Vec<SerializedComponent>, i: usize) -> (r: bool)
    requires
        i < cs@.len(),
    ensures
        r == is_last_comp(cs.deep_view(), i as int),
{
    let ghost cv = cs.deep_view();
    let n = cs.len();
    let mut j: usize = i + 1;
    while j < n
        invariant
            i < j <= cs@.len(),
            forall|l: int| i < l < j ==> cv[l].id != cv[i as int].id,
        decreases cs@.len() - j,
    {
        if cs[j].id == cs[i].id {
            proof {
                assert(cv[j as int].id == cv[i as int].id);
            }
            return false;
        }
        j = j + 1;
    }
    true
}

/// Does index `i` hold the last occurrence of its entity id?
#[verifier::loop_isolation(false)]
fn is_last_ent_at(es: &Vec<SerializedEntity>, i: usize) -> (r: bool)
    requires
        i < es@.len(),
    ensures
        r == is_last_ent(es.deep_view(), i as int),
{
    let ghost ev = es.deep_view();
    let n = es.len();
    let mut j: usize = i + 1;
    while j < n
        invariant
            i < j <= es@.len(),
            forall|l: int| i < l < j ==> ev[l].id != ev[i as int].id,
        decreases es@.len() - j,
    {
        if es[j].id == es[i].id {
            proof {
                assert(ev[j as int].id == ev[i as int].id);
            }
            return false;
        }
        j = j + 1;
    }
    true
}

/// Look a component up by id; a later duplicate wins.
#[verifier::loop_isolation(false)]
fn lookup_comp<'a>(cs: &'a Vec<SerializedComponent>, id: &String) -> (r: Option<
    &'a SerializedComponent,
>)
    ensures
        match r {
            Some(c) => comp_map(cs.deep_view()).contains_key(id@) && c.id@ == id@
                && c.data.deep_view() == comp_map(cs.deep_view())[id@],
            None => !comp_map(cs.deep_view()).contains_key(id@),
        },
{
    let ghost cv = cs.deep_view();
    let mut i: usize = cs.len();
    while i > 0
        invariant
            0 <= i <= cs@.len(),
            forall|j: int| i <= j < cs@.len() ==> cv[j].id != id@,
        decreases i,
    {
        i = i - 1;
        if cs[i].id == *id {
            proof {
                assert(cv[i as int].id == id@);
                assert(is_last_comp(cv, i as int));
                lemma_comp_map_last(cv, id@);
            }
            return Some(&cs[i]);
        }
        proof {
            assert(cv[i as int].id != id@);
        }
    }
    proof {
        lemma_comp_map_last(cv, id@);
    }
    None
}

/// Look an entity up by id; a later duplicate wins.
#[verifier::loop_isolation(false)]
fn lookup_ent<'a>(es: &'a Vec<SerializedEntity>, id: EntityId) -> (r: Option<&'a SerializedEntity>)
    ensures
        match r {
            Some(e) => ent_map(es.deep_view()).contains_key(id) && e.id == id
                && e.components.deep_view() == ent_map(es.deep_view())[id],
            None => !ent_map(es.deep_view()).contains_key(id),
        },
{
    let ghost ev = es.deep_view();
    let mut i: usize = es.len();
    while i > 0
        invariant
            0 <= i <= es@.len(),
            forall|j: int| i <= j < es@.len() ==> ev[j].id != id,
        decreases i,
    {
        i = i - 1;
        if es[i].id == id {
            proof {
                assert(ev[i as int].id == id);
                assert(is_last_ent(ev, i as int));
                lemma_ent_map_last(ev, id);
            }
            return Some(&es[i]);
        }
        proof {
            assert(ev[i as int].id != id);
        }
    }
    proof {
        lemma_ent_map_last(ev, id);
    }
    None
}

/// Turns a stream of snapshots into deltas, each one minimal with respect
/// to the snapshot before it.
pub struct DeltaCompressor {
    previous_snapshot: Option<WorldSnapshot>,
    field_compressor: FieldCompressor,
}

impl DeltaCompressor {
    /// The stored previous snapshot, if a delta has been produced before.
    pub closed spec fn spec_prev(&self) -> Option<WorldSnapshotV> {
        self.previous_snapshot.deep_view()
    }

    /// Whether field-level compression is switched on.
    pub closed spec fn spec_field_enabled(&self) -> bool {
        self.field_compressor.spec_enabled()
    }

    pub fn new() -> (c: DeltaCompressor)
        ensures
            c.spec_prev() is None,
            c.spec_field_enabled(),
    {
        DeltaCompressor { previous_snapshot: None, field_compressor: FieldCompressor::new() }
    }

    pub fn with_field_compression(enable: bool) -> (c: DeltaCompressor)
        ensures
            c.spec_prev() is None,
            c.spec_field_enabled() == enable,
    {
        DeltaCompressor {
            previous_snapshot: None,
            field_compressor: FieldCompressor::with_enabled(enable),
        }
    }

    /// Produce the delta from the stored previous snapshot to `current_snapshot`
    /// and store the latter as the new base. The first call reports every
    /// entity as added, with base timestamp zero; later calls report exactly
    /// the diff `spec_snapshot_changes` describes.
    pub fn create_delta(&mut self, current_snapshot: WorldSnapshot) -> (d: Delta)
        ensures
            final(self).spec_prev() == Some(current_snapshot.deep_view()),
            final(self).spec_field_enabled() == old(self).spec_field_enabled(),
            d.timestamp == current_snapshot.timestamp,
            d.base_timestamp == match old(self).spec_prev() {
                Some(p) => p.timestamp,
                None => 0u64,
            },
            d.changes.deep_view() == match old(self).spec_prev() {
                Some(p) => spec_snapshot_changes(
                    old(self).spec_field_enabled(),
                    p.entities,
                    current_snapshot.deep_view().entities,
                ),
                None => spec_initial_changes(current_snapshot.deep_view().entities, 0),
            },
    {
        let timestamp = current_snapshot.timestamp;
        let base_timestamp = match &self.previous_snapshot {
            Some(s) => s.timestamp,
            None => 0u64,
        };
        let changes = match &self.previous_snapshot {
            Some(prev) => self.compute_changes(prev, &current_snapshot),
            None => self.create_initial_delta(&current_snapshot),
        };
        self.previous_snapshot = Some(current_snapshot);
        Delta { changes, timestamp, base_timestamp }
    }

    /// Two components are equal when both their ids and their payloads are.
    fn components_equal(&self, a: &SerializedComponent, b: &SerializedComponent) -> (r: bool)
        ensures
            r == (a.id@ == b.id@ && spec_data_equal(a.data.deep_view(), b.data.deep_view())),
    {
        if !(a.id == b.id) {
            return false;
        }
        data_equal(&a.data, &b.data)
    }

    /// Append the diff of one entity shared by both snapshots.
    #[verifier::loop_isolation(false)]
    fn compute_component_changes(
        &self,
        entity_id: EntityId,
        prev_entity: &SerializedEntity,
        curr_entity: &SerializedEntity,
        changes: &mut Vec<DeltaChange>,
    )
        ensures
            final(changes).deep_view() == old(changes).deep_view() + spec_component_changes(
                self.spec_field_enabled(),
                entity_id,
                prev_entity.components.deep_view(),
                curr_entity.components.deep_view(),
            ),
    {
        let ghost en = self.spec_field_enabled();
        let ghost pcs = prev_entity.components.deep_view();
        let ghost ccs = curr_entity.components.deep_view();
        let ghost base = changes.deep_view();
        let mut i: usize = 0;
        while i < curr_entity.components.len()
            invariant
                0 <= i <= curr_entity.components@.len(),
                changes.deep_view() + spec_comp_updates(en, entity_id, pcs, ccs, i as int) == base
                    + spec_comp_updates(en, entity_id, pcs, ccs, 0),
            decreases curr_entity.components@.len() - i,
        {
            let ghost out0 = changes.deep_view();
            let ghost rest = spec_comp_updates(en, entity_id, pcs, ccs, i + 1);
            if is_last_comp_at(&curr_entity.components, i) {
                let c = &curr_entity.components[i];
                proof {
                    assert(ccs[i as int].id == c.id@);
                    assert(ccs[i as int].data == c.data.deep_view());
                }
                match lookup_comp(&prev_entity.components, &c.id) {
                    None => {
                        let ghost dcv = DeltaChangeV::ComponentAdded {
                            entity_id,
                            component_id: ccs[i as int].id,
                            data: ccs[i as int].data,
                        };
                        changes.push(
                            DeltaChange::ComponentAdded {
                                entity_id,
                                component_id: c.id.clone(),
                                data: c.data.clone(),
                            },
                        );
                        proof {
                            assert(changes.deep_view() =~= out0.push(dcv));
                            assert(spec_comp_updates(en, entity_id, pcs, ccs, i as int)
                                == seq![dcv] + rest);
                            assert(out0.push(dcv) + rest =~= out0 + (seq![dcv] + rest));
                        }
                    },
                    Some(pc) => {
                        if self.components_equal(pc, c) {
                            proof {
                                assert(spec_comp_updates(en, entity_id, pcs, ccs, i as int)
                                    == rest) by {
                                    assert(Seq::<DeltaChangeV>::empty() + rest =~= rest);
                                }
                            }
                        } else {
                            let fds_opt = self.field_compressor.compute_field_deltas(pc, c);
                            let mut took_fields = false;
                            match fds_opt {
                                Some(fds) => {
                                    if fds.len() > 0 {
                                        took_fields = true;
                                        let ghost dcv = DeltaChangeV::FieldsUpdated {
                                            entity_id,
                                            component_id: ccs[i as int].id,
                                            fields: fds.deep_view(),
                                        };
                                        changes.push(
                                            DeltaChange::FieldsUpdated {
                                                entity_id,
                                                component_id: c.id.clone(),
                                                fields: fds,
                                            },
                                        );
                                        proof {
                                            assert(changes.deep_view() =~= out0.push(dcv));
                                            assert(spec_comp_updates(
                                                en,
                                                entity_id,
                                                pcs,
                                                ccs,
                                                i as int,
                                            ) == seq![dcv] + rest);
                                            assert(out0.push(dcv) + rest =~= out0 + (seq![dcv]
                                                + rest));
                                        }
                                    }
                                },
                                None => {},
                            }
                            if !took_fields {
                                let ghost dcv = DeltaChangeV::ComponentUpdated {
                                    entity_id,
                                    component_id: ccs[i as int].id,
                                    data: ccs[i as int].data,
                                };
                                changes.push(
                                    DeltaChange::ComponentUpdated {
                                        entity_id,
                                        component_id: c.id.clone(),
                                        data: c.data.clone(),
                                    },
                                );
                                proof {
                                    assert(changes.deep_view() =~= out0.push(dcv));
                                    assert(spec_comp_updates(en, entity_id, pcs, ccs, i as int)
                                        == seq![dcv] + rest);
                                    assert(out0.push(dcv) + rest =~= out0 + (seq![dcv] + rest));
                                }
                            }
                        }
                    },
                }
            } else {
                proof {
                    assert(spec_comp_updates(en, entity_id, pcs, ccs, i as int) == rest) by {
                        assert(Seq::<DeltaChangeV>::empty() + rest =~= rest);
                    }
                }
            }
            i = i + 1;
        }
        proof {
            assert(changes.deep_view() + Seq::<DeltaChangeV>::empty() =~= changes.deep_view());
        }
        let ghost mid = changes.deep_view();
        let mut i: usize = 0;
        while i < prev_entity.components.len()
            invariant
                0 <= i <= prev_entity.components@.len(),
                changes.deep_view() + spec_comp_removals(entity_id, pcs, ccs, i as int) == mid
                    + spec_comp_removals(entity_id, pcs, ccs, 0),
            decreases prev_entity.components@.len() - i,
        {
            let ghost out0 = changes.deep_view();
            let ghost rest = spec_comp_removals(entity_id, pcs, ccs, i + 1);
            let mut removed = false;
            if is_last_comp_at(&prev_entity.components, i) {
                let p = &prev_entity.components[i];
                proof {
                    assert(pcs[i as int].id == p.id@);
                }
                if lookup_comp(&curr_entity.components, &p.id).is_none() {
                    removed = true;
                    let ghost dcv = DeltaChangeV::ComponentRemoved {
                        entity_id,
                        component_id: pcs[i as int].id,
                    };
                    changes.push(
                        DeltaChange::ComponentRemoved { entity_id, component_id: p.id.clone() },
                    );
                    proof {
                        assert(changes.deep_view() =~= out0.push(dcv));
                        assert(spec_comp_removals(entity_id, pcs, ccs, i as int) == seq![dcv]
                            + rest);
                        assert(out0.push(dcv) + rest =~= out0 + (seq![dcv] + rest));
                    }
                }
            }
            if !removed {
                proof {
                    assert(spec_comp_removals(entity_id, pcs, ccs, i as int) == rest) by {
                        assert(Seq::<DeltaChangeV>::empty() + rest =~= rest);
                    }
                }
            }
            i = i + 1;
        }
        proof {
            assert(changes.deep_view() + Seq::<DeltaChangeV>::empty() =~= changes.deep_view());
        }
    }

    /// The diff between two whole snapshots.
    #[verifier::loop_isolation(false)]
    fn compute_changes(&self, prev: &WorldSnapshot, curr: &WorldSnapshot) -> (out: Vec<
        DeltaChange,
    >)
        ensures
            out.deep_view() == spec_snapshot_changes(
                self.spec_field_enabled(),
                prev.deep_view().entities,
                curr.deep_view().entities,
            ),
    {
        let ghost en = self.spec_field_enabled();
        let ghost pv = prev.entities.deep_view();
        let ghost cv = curr.entities.deep_view();
        let mut out: Vec<DeltaChange> = Vec::new();
        let mut i: usize = 0;
        while i < curr.entities.len()
            invariant
                0 <= i <= curr.entities@.len(),
                out.deep_view() + spec_entity_updates(en, pv, cv, i as int) == spec_entity_updates(
                    en,
                    pv,
                    cv,
                    0,
                ),
            decreases curr.entities@.len() - i,
        {
            let ghost out0 = out.deep_view();
            let ghost rest = spec_entity_updates(en, pv, cv, i + 1);
            if is_last_ent_at(&curr.entities, i) {
                let e = &curr.entities[i];
                proof {
                    assert(cv[i as int].id == e.id);
                    assert(cv[i as int].components == e.components.deep_view());
                }
                match lookup_ent(&prev.entities, e.id) {
                    None => {
                        let ghost ea = DeltaChangeV::EntityAdded { entity_id: cv[i as int].id };
                        let ghost adds = spec_component_adds(
                            cv[i as int].id,
                            cv[i as int].components,
                            0,
                        );
                        out.push(DeltaChange::EntityAdded { entity_id: e.id });
                        proof {
                            assert(out.deep_view() =~= out0.push(ea));
                        }
                        push_component_adds(e.id, &e.components, &mut out);
                        proof {
                            assert(spec_entity_updates(en, pv, cv, i as int) == (seq![ea] + adds)
                                + rest);
                            assert(out.deep_view() =~= out0 + (seq![ea] + adds));
                            assert(out.deep_view() + rest =~= out0 + ((seq![ea] + adds) + rest));
                        }
                    },
                    Some(pe) => {
                        let ghost head = spec_component_changes(
                            en,
                            cv[i as int].id,
                            ent_map(pv)[cv[i as int].id],
                            cv[i as int].components,
                        );
                        self.compute_component_changes(e.id, pe, e, &mut out);
                        proof {
                            assert(pe.components.deep_view() == ent_map(pv)[cv[i as int].id]);
                            assert(spec_entity_updates(en, pv, cv, i as int) == head + rest);
                            assert(out.deep_view() =~= out0 + head);
                            assert(out.deep_view() + rest =~= out0 + (head + rest));
                        }
                    },
                }
            } else {
                proof {
                    assert(spec_entity_updates(en, pv, cv, i as int) == rest) by {
                        assert(Seq::<DeltaChangeV>::empty() + rest =~= rest);
                    }
                }
            }
            i = i + 1;
        }
        proof {
            assert(out.deep_view() + Seq::<DeltaChangeV>::empty() =~= out.deep_view());
        }
        let ghost mid = out.deep_view();
        let mut i: usize = 0;
        while i < prev.entities.len()
            invariant
                0 <= i <= prev.entities@.len(),
                out.deep_view() + spec_entity_removals(pv, cv, i as int) == mid
                    + spec_entity_removals(pv, cv, 0),
            decreases prev.entities@.len() - i,
        {
            let ghost out0 = out.deep_view();
            let ghost rest = spec_entity_removals(pv, cv, i + 1);
            let mut removed = false;
            if is_last_ent_at(&prev.entities, i) {
                let p = &prev.entities[i];
                proof {
                    assert(pv[i as int].id == p.id);
                }
                if lookup_ent(&curr.entities, p.id).is_none() {
                    removed = true;
                    let ghost dcv = DeltaChangeV::EntityRemoved { entity_id: pv[i as int].id };
                    out.push(DeltaChange::EntityRemoved { entity_id: p.id });
                    proof {
                        assert(out.deep_view() =~= out0.push(dcv));
                        assert(spec_entity_removals(pv, cv, i as int) == seq![dcv] + rest);
                        assert(out0.push(dcv) + rest =~= out0 + (seq![dcv] + rest));
                    }
                }
            }
            if !removed {
                proof {
                    assert(spec_entity_removals(pv, cv, i as int) == rest) by {
                        assert(Seq::<DeltaChangeV>::empty() + rest =~= rest);
                    }
                }
            }
            i = i + 1;
        }
        proof {
            assert(out.deep_view() + Seq::<DeltaChangeV>::empty() =~= out.deep_view());
        }
        out
    }

    /// Drop the stored previous snapshot, so that the next delta is a full
    /// initial one.
    pub fn reset(&mut self)
        ensures
            final(self).spec_prev() is None,
            final(self).spec_field_enabled() == old(self).spec_field_enabled(),
    {
        self.previous_snapshot = None;
    }

    pub fn get_previous_snapshot(&self) -> (r: Option<&WorldSnapshot>)
        ensures
            match r {
                Some(s) => self.spec_prev() == Some(s.deep_view()),
                None => self.spec_prev() is None,
            },
    {
        self.previous_snapshot.as_ref()
    }

    /// Every entity of the snapshot as an addition, with all its components.
    #[verifier::loop_isolation(false)]
    fn create_initial_delta(&self, snapshot: &WorldSnapshot) -> (out: Vec<DeltaChange>)
        ensures
            out.deep_view() == spec_initial_changes(snapshot.deep_view().entities, 0),
    {
        let ghost ev = snapshot.entities.deep_view();
        let mut out: Vec<DeltaChange> = Vec::new();
        let mut i: usize = 0;
        while i < snapshot.entities.len()
            invariant
                0 <= i <= snapshot.entities@.len(),
                out.deep_view() + spec_initial_changes(ev, i as int) == spec_initial_changes(
                    ev,
                    0,
                ),
            decreases snapshot.entities@.len() - i,
        {
            let ghost out0 = out.deep_view();
            let ghost rest = spec_initial_changes(ev, i + 1);
            let ghost ea = DeltaChangeV::EntityAdded { entity_id: ev[i as int].id };
            let ghost adds = spec_component_adds(ev[i as int].id, ev[i as int].components, 0);
            let entity = &snapshot.entities[i];
            out.push(DeltaChange::EntityAdded { entity_id: entity.id });
            proof {
                assert(out.deep_view() =~= out0.push(ea));
            }
            push_component_adds(entity.id, &entity.components, &mut out);
            proof {
                assert(ev[i as int].components == entity.components.deep_view());
                assert(spec_initial_changes(ev, i as int) == seq![ea] + adds + rest);
                assert(out.deep_view() =~= out0 + (seq![ea] + adds));
                assert(out.deep_view() + rest =~= out0 + (seq![ea] + adds + rest));
            }
            i = i + 1;
        }
        proof {
            assert(out.deep_view() + Seq::<DeltaChangeV>::empty() =~= out.deep_view());
        }
        out
    }
}

/// Append a `ComponentAdded` for every component, in list order.
#[verifier::loop_isolation(false)]
fn push_component_adds(eid: EntityId, cs: &Vec<SerializedComponent>, out: &mut Vec<DeltaChange>)
    ensures
        final(out).deep_view() == old(out).deep_view() + spec_component_adds(
            eid,
            cs.deep_view(),
            0,
        ),
{
    let ghost cv = cs.deep_view();
    let ghost base = out.deep_view();
    let mut i: usize = 0;
    while i < cs.len()
        invariant
            0 <= i <= cs@.len(),
            out.deep_view() + spec_component_adds(eid, cv, i as int) == base
                + spec_component_adds(eid, cv, 0),
        decreases cs@.len() - i,
    {
        let ghost out0 = out.deep_view();
        let ghost rest = spec_component_adds(eid, cv, i + 1);
        let c = &cs[i];
        let ghost dcv = DeltaChangeV::ComponentAdded {
            entity_id: eid,
            component_id: cv[i as int].id,
            data: cv[i as int].data,
        };
        out.push(
            DeltaChange::ComponentAdded {
                entity_id: eid,
                component_id: c.id.clone(),
                data: c.data.clone(),
            },
        );
        proof {
            assert(out.deep_view() =~= out0.push(dcv));
            assert(spec_component_adds(eid, cv, i as int) == seq![dcv] + rest);
            assert(out0.push(dcv) + rest =~= out0 + (seq![dcv] + rest));
            assert((base + spec_component_adds(eid, cv, 0)) == (out0 + (seq![dcv] + rest)) ==> (
            out.deep_view() + rest) =~= base + spec_component_adds(eid, cv, 0));
        }
        i = i + 1;
    }
    proof {
        assert(out.deep_view() + Seq::<DeltaChangeV>::empty() =~= out.deep_view());
    }
}


impl Default for DeltaCompressor {
    fn default() -> (c: Self)
        ensures
            c.spec_prev() is None,
            c.spec_field_enabled(),
    {
        DeltaCompressor::new()
    }
}

proof fn lemma_comp_updates_self(
    enabled: bool,
    eid: EntityId,
    cs: Seq<SerializedComponentV>,
    i: int,
)
    requires
        i >= 0,
    ensures
        spec_comp_updates(enabled, eid, cs, cs, i) == Seq::<DeltaChangeV>::empty(),
    decreases cs.len() - i,
{
    if i < cs.len() {
        lemma_comp_updates_self(enabled, eid, cs, i + 1);
        if is_last_comp(cs, i) {
            lemma_comp_map_last(cs, cs[i].id);
            assert(comp_map(cs).contains_key(cs[i].id));
            assert(comp_map(cs)[cs[i].id] == cs[i].data);
            assert(spec_data_equal(cs[i].data, cs[i].data));
        }
        assert(Seq::<DeltaChangeV>::empty() + Seq::<DeltaChangeV>::empty()
            =~= Seq::<DeltaChangeV>::empty());
    }
}

proof fn lemma_comp_removals_self(eid: EntityId, cs: Seq<SerializedComponentV>, i: int)
    requires
        i >= 0,
    ensures
        spec_comp_removals(eid, cs, cs, i) == Seq::<DeltaChangeV>::empty(),
    decreases cs.len() - i,
{
    if i < cs.len() {
        lemma_comp_removals_self(eid, cs, i + 1);
        lemma_comp_map_last(cs, cs[i].id);
        assert(comp_map(cs).contains_key(cs[i].id));
        assert(Seq::<DeltaChangeV>::empty() + Seq::<DeltaChangeV>::empty()
            =~= Seq::<DeltaChangeV>::empty());
    }
}

proof fn lemma_entity_updates_self(enabled: bool, es: Seq<SerializedEntityV>, i: int)
    requires
        i >= 0,
    ensures
        spec_entity_updates(enabled, es, es, i) == Seq::<DeltaChangeV>::empty(),
    decreases es.len() - i,
{
    if i < es.len() {
        lemma_entity_updates_self(enabled, es, i + 1);
        if is_last_ent(es, i) {
            lemma_ent_map_last(es, es[i].id);
            assert(ent_map(es).contains_key(es[i].id));
            assert(ent_map(es)[es[i].id] == es[i].components);
            lemma_comp_updates_self(enabled, es[i].id, es[i].components, 0);
            lemma_comp_removals_self(es[i].id, es[i].components, 0);
            assert(spec_component_changes(enabled, es[i].id, es[i].components, es[i].components)
                =~= Seq::<DeltaChangeV>::empty());
        }
        assert(Seq::<DeltaChangeV>::empty() + Seq::<DeltaChangeV>::empty()
            =~= Seq::<DeltaChangeV>::empty());
    }
}

proof fn lemma_entity_removals_self(es: Seq<SerializedEntityV>, i: int)
    requires
        i >= 0,
    ensures
        spec_entity_removals(es, es, i) == Seq::<DeltaChangeV>::empty(),
    decreases es.len() - i,
{
    if i < es.len() {
        lemma_entity_removals_self(es, i + 1);
        lemma_ent_map_last(es, es[i].id);
        assert(ent_map(es).contains_key(es[i].id));
        assert(Seq::<DeltaChangeV>::empty() + Seq::<DeltaChangeV>::empty()
            =~= Seq::<DeltaChangeV>::empty());
    }
}

/// Empty-delta law: diffing a snapshot against itself yields no changes, so
/// feeding the compressor the same snapshot twice makes the second delta
/// empty.
pub proof fn lemma_same_snapshot_empty_delta(enabled: bool, es: Seq<SerializedEntityV>)
    ensures
        spec_snapshot_changes(enabled, es, es) == Seq::<DeltaChangeV>::empty(),
{
    lemma_entity_updates_self(enabled, es, 0);
    lemma_entity_removals_self(es, 0);
    assert(Seq::<DeltaChangeV>::empty() + Seq::<DeltaChangeV>::empty()
        =~= Seq::<DeltaChangeV>::empty());
}

proof fn lemma_single_field_updates(
    prev: Seq<(Seq<char>, FieldValueV)>,
    curr: Seq<(Seq<char>, FieldValueV)>,
    f: Seq<char>,
    i: int,
)
    requires
        0 <= i <= curr.len(),
        field_map(prev).dom() == field_map(curr).dom(),
        field_map(prev).contains_key(f),
        forall|k: Seq<char>|
            field_map(prev).dom().contains(k) && k != f ==> field_map(prev)[k] == field_map(
                curr,
            )[k],
    ensures
        (exists|j: int| i <= j < curr.len() && curr[j].0 == f) ==> spec_field_updates(
            prev,
            curr,
            i,
        ) == seq![
            FieldDeltaV {
                field_id: f,
                old_value: Some(field_map(prev)[f]),
                new_value: field_map(curr)[f],
            },
        ] || field_map(prev)[f] == field_map(curr)[f] && spec_field_updates(prev, curr, i)
            == Seq::<FieldDeltaV>::empty(),
        !(exists|j: int| i <= j < curr.len() && curr[j].0 == f) ==> spec_field_updates(
            prev,
            curr,
            i,
        ) == Seq::<FieldDeltaV>::empty(),
    decreases curr.len() - i,
{
    if i < curr.len() {
        lemma_single_field_updates(prev, curr, f, i + 1);
        let k = curr[i].0;
        if is_last_field(curr, i) {
            lemma_field_map_last(curr, k);
            assert(field_map(curr).contains_key(k));
            assert(field_map(curr)[k] == curr[i].1);
            assert(field_map(prev).dom().contains(k));
            if k == f {
                assert(!(exists|j: int| i + 1 <= j < curr.len() && curr[j].0 == f));
                if field_map(prev)[f] != curr[i].1 {
                    assert(spec_field_updates(prev, curr, i) =~= seq![
                        FieldDeltaV {
                            field_id: f,
                            old_value: Some(field_map(prev)[f]),
                            new_value: field_map(curr)[f],
                        },
                    ]);
                } else {
                    assert(spec_field_updates(prev, curr, i) =~= Seq::<FieldDeltaV>::empty());
                }
            } else {
                assert(field_map(prev)[k] == field_map(curr)[k]);
                assert(field_map(prev)[k] == curr[i].1);
                assert(Seq::<FieldDeltaV>::empty() + spec_field_updates(prev, curr, i + 1)
                    =~= spec_field_updates(prev, curr, i + 1));
                if exists|j: int| i <= j < curr.len() && curr[j].0 == f {
                    let j = choose|j: int| i <= j < curr.len() && curr[j].0 == f;
                    assert(j != i);
                    assert(exists|j2: int| i + 1 <= j2 < curr.len() && curr[j2].0 == f) by {
                        assert(i + 1 <= j < curr.len() && curr[j].0 == f);
                    }
                }
            }
        } else {
            // an overridden duplicate contributes nothing
            assert(Seq::<FieldDeltaV>::empty() + spec_field_updates(prev, curr, i + 1)
                =~= spec_field_updates(prev, curr, i + 1));
            if exists|j: int| i <= j < curr.len() && curr[j].0 == f {
                if k == f {
                    let j2 = choose|j2: int| i < j2 < curr.len() && curr[j2].0 == curr[i].0;
                    assert(exists|j3: int| i + 1 <= j3 < curr.len() && curr[j3].0 == f) by {
                        assert(i + 1 <= j2 < curr.len() && curr[j2].0 == f);
                    }
                } else {
                    let j = choose|j: int| i <= j < curr.len() && curr[j].0 == f;
                    assert(j != i);
                    assert(exists|j3: int| i + 1 <= j3 < curr.len() && curr[j3].0 == f) by {
                        assert(i + 1 <= j < curr.len() && curr[j].0 == f);
                    }
                }
            }
        }
    }
}

proof fn lemma_no_field_removals(
    prev: Seq<(Seq<char>, FieldValueV)>,
    curr: Seq<(Seq<char>, FieldValueV)>,
    i: int,
)
    requires
        i >= 0,
        field_map(prev).dom() == field_map(curr).dom(),
    ensures
        spec_field_removals(prev, curr, i) == Seq::<FieldDeltaV>::empty(),
    decreases prev.len() - i,
{
    if i < prev.len() {
        lemma_no_field_removals(prev, curr, i + 1);
        lemma_field_map_last(prev, prev[i].0);
        assert(field_map(prev).contains_key(prev[i].0));
        assert(field_map(curr).contains_key(prev[i].0));
        assert(Seq::<FieldDeltaV>::empty() + Seq::<FieldDeltaV>::empty()
            =~= Seq::<FieldDeltaV>::empty());
    }
}

/// Field-level diff law: for two field mappings over the same names whose
/// values agree everywhere but at one field `f`, the diff is exactly one
/// transition, for `f`, carrying the old and the new value.
pub proof fn lemma_single_field_diff(
    prev: Seq<(Seq<char>, FieldValueV)>,
    curr: Seq<(Seq<char>, FieldValueV)>,
    f: Seq<char>,
)
    requires
        field_map(prev).dom() == field_map(curr).dom(),
        field_map(prev).contains_key(f),
        field_map(prev)[f] != field_map(curr)[f],
        forall|k: Seq<char>|
            field_map(prev).dom().contains(k) && k != f ==> field_map(prev)[k] == field_map(
                curr,
            )[k],
    ensures
        spec_field_deltas(prev, curr) == seq![
            FieldDeltaV {
                field_id: f,
                old_value: Some(field_map(prev)[f]),
                new_value: field_map(curr)[f],
            },
        ],
{
    lemma_single_field_updates(prev, curr, f, 0);
    lemma_field_map_last(curr, f);
    assert(exists|j: int| 0 <= j < curr.len() && curr[j].0 == f);
    lemma_no_field_removals(prev, curr, 0);
    assert(spec_field_updates(prev, curr, 0) + Seq::<FieldDeltaV>::empty() =~= spec_field_updates(
        prev,
        curr,
        0,
    ));
}


/// A receiver's materialized world: entities to components to data.
pub open spec fn world_of_from(
    w: Map<EntityId, Map<Seq<char>, ComponentDataV>>,
    es: Seq<SerializedEntityV>,
    i: int,
) -> Map<EntityId, Map<Seq<char>, ComponentDataV>>
    decreases es.len() - i,
{
    if i < 0 || i >= es.len() {
        w
    } else {
        world_of_from(w.insert(es[i].id, comp_map(es[i].components)), es, i + 1)
    }
}

/// The world a snapshot's entity list denotes.
pub open spec fn world_of(es: Seq<SerializedEntityV>) -> Map<
    EntityId,
    Map<Seq<char>, ComponentDataV>,
> {
    world_of_from(Map::empty(), es, 0)
}

/// How a receiver folds one change into its world. A re-added entity starts
/// over empty; component changes to an absent entity are dropped. Field
/// transitions are a refinement of `ComponentUpdated` and leave this
/// component-level model unchanged; `apply_model_change` refines it to
/// patch them field by field.
pub open spec fn apply_change(
    w: Map<EntityId, Map<Seq<char>, ComponentDataV>>,
    c: DeltaChangeV,
) -> Map<EntityId, Map<Seq<char>, ComponentDataV>> {
    match c {
        DeltaChangeV::EntityAdded { entity_id } => w.insert(entity_id, Map::empty()),
        DeltaChangeV::EntityRemoved { entity_id } => w.remove(entity_id),
        DeltaChangeV::ComponentAdded { entity_id, component_id, data } => if w.contains_key(
            entity_id,
        ) {
            w.insert(entity_id, w[entity_id].insert(component_id, data))
        } else {
            w
        },
        DeltaChangeV::ComponentUpdated { entity_id, component_id, data } => if w.contains_key(
            entity_id,
        ) {
            w.insert(entity_id, w[entity_id].insert(component_id, data))
        } else {
            w
        },
        DeltaChangeV::ComponentRemoved { entity_id, component_id } => if w.contains_key(
            entity_id,
        ) {
            w.insert(entity_id, w[entity_id].remove(component_id))
        } else {
            w
        },
        DeltaChangeV::FieldsUpdated { entity_id, component_id, fields } => w,
    }
}

/// Fold a whole change sequence into the world, in order.
pub open spec fn apply_changes(
    w: Map<EntityId, Map<Seq<char>, ComponentDataV>>,
    cs: Seq<DeltaChangeV>,
) -> Map<EntityId, Map<Seq<char>, ComponentDataV>>
    decreases cs.len(),
{
    if cs.len() == 0 {
        w
    } else {
        apply_changes(apply_change(w, cs.first()), cs.drop_first())
    }
}

/// Applying a concatenation applies the parts in order.
pub proof fn lemma_apply_changes_concat(
    w: Map<EntityId, Map<Seq<char>, ComponentDataV>>,
    a: Seq<DeltaChangeV>,
    b: Seq<DeltaChangeV>,
)
    ensures
        apply_changes(w, a + b) == apply_changes(apply_changes(w, a), b),
    decreases a.len(),
{
    if a.len() == 0 {
        assert(a + b =~= b);
    } else {
        assert((a + b).first() == a.first());
        assert((a + b).drop_first() =~= a.drop_first() + b);
        lemma_apply_changes_concat(apply_change(w, a.first()), a.drop_first(), b);
    }
}

/// The component mapping built by folding inserts forward from `m`.
pub open spec fn comp_map_from(
    m: Map<Seq<char>, ComponentDataV>,
    cs: Seq<SerializedComponentV>,
    i: int,
) -> Map<Seq<char>, ComponentDataV>
    decreases cs.len() - i,
{
    if i < 0 || i >= cs.len() {
        m
    } else {
        comp_map_from(m.insert(cs[i].id, cs[i].data), cs, i + 1)
    }
}

/// The forward fold overlays the remaining components onto `m`.
pub proof fn lemma_comp_map_from_union(
    m: Map<Seq<char>, ComponentDataV>,
    cs: Seq<SerializedComponentV>,
    i: int,
)
    requires
        0 <= i <= cs.len(),
    ensures
        comp_map_from(m, cs, i) == m.union_prefer_right(comp_map(cs.skip(i))),
    decreases cs.len() - i,
{
    if i == cs.len() {
        assert(cs.skip(i) =~= Seq::<SerializedComponentV>::empty());
        assert(comp_map(cs.skip(i)) =~= Map::<Seq<char>, ComponentDataV>::empty());
        assert(m.union_prefer_right(Map::empty()) =~= m);
    } else {
        lemma_comp_map_from_union(m.insert(cs[i].id, cs[i].data), cs, i + 1);
        let tail = cs.skip(i + 1);
        let whole = cs.skip(i);
        assert(whole.len() == cs.len() - i);
        assert forall|j: int| 0 <= j < tail.len() implies tail[j] == whole[j + 1] by {}
        assert(whole[0] == cs[i]);
        assert(m.insert(cs[i].id, cs[i].data).union_prefer_right(comp_map(tail))
            =~= m.union_prefer_right(comp_map(whole))) by {
            let lhs = m.insert(cs[i].id, cs[i].data).union_prefer_right(comp_map(tail));
            let rhs = m.union_prefer_right(comp_map(whole));
            assert forall|k: Seq<char>| #![trigger lhs.dom().contains(k)]
                #![trigger rhs.dom().contains(k)]
                lhs.dom().contains(k) == rhs.dom().contains(k) && (lhs.dom().contains(k)
                    ==> lhs[k] == rhs[k]) by {
                lemma_comp_map_last(tail, k);
                lemma_comp_map_last(whole, k);
                if comp_map(tail).contains_key(k) {
                    let j = choose|j: int| 0 <= j < tail.len() && tail[j].id == k;
                    assert(whole[j + 1].id == k);
                    assert(comp_map(whole).contains_key(k));
                    let l = last_index_comp(tail, k);
                    lemma_last_index_comp(tail, k);
                    assert(comp_map(tail)[k] == tail[l].data);
                    assert(is_last_comp(whole, l + 1)) by {
                        assert forall|j2: int| #![trigger whole[j2]]
                            l + 1 < j2 < whole.len() implies whole[j2].id != whole[l + 1].id by {
                            assert(whole[j2] == tail[j2 - 1]);
                        }
                    }
                    assert(comp_map(whole)[k] == whole[l + 1].data);
                } else if k == cs[i].id {
                    assert(whole[0].id == k);
                    assert(comp_map(whole).contains_key(k));
                    assert(is_last_comp(whole, 0)) by {
                        assert forall|j2: int| #![trigger whole[j2]] 0 < j2 < whole.len()
                            implies whole[j2].id != whole[0].id by {
                            assert(whole[j2] == tail[j2 - 1]);
                            if whole[j2].id == k {
                                assert(comp_map(tail).contains_key(k));
                            }
                        }
                    }
                    assert(comp_map(whole)[k] == cs[i].data);
                } else {
                    if comp_map(whole).contains_key(k) {
                        let j = choose|j: int| 0 <= j < whole.len() && whole[j].id == k;
                        assert(j != 0);
                        assert(tail[j - 1].id == k);
                        assert(comp_map(tail).contains_key(k));
                    }
                }
            }
            assert(lhs.dom() =~= rhs.dom());
            assert(lhs =~= rhs);
        }
    }
}

/// The index of the last occurrence of component id `k`.
pub open spec fn last_index_comp(cs: Seq<SerializedComponentV>, k: Seq<char>) -> int
    decreases cs.len(),
{
    if cs.len() == 0 {
        0
    } else if cs.last().id == k {
        cs.len() - 1
    } else {
        last_index_comp(cs.drop_last(), k)
    }
}

/// When some component carries id `k`, `last_index_comp` names its last
/// occurrence.
pub proof fn lemma_last_index_comp(cs: Seq<SerializedComponentV>, k: Seq<char>)
    requires
        exists|i: int| 0 <= i < cs.len() && cs[i].id == k,
    ensures
        0 <= last_index_comp(cs, k) < cs.len(),
        cs[last_index_comp(cs, k)].id == k,
        is_last_comp(cs, last_index_comp(cs, k)),
    decreases cs.len(),
{
    if cs.last().id == k {
    } else {
        let i = choose|i: int| 0 <= i < cs.len() && cs[i].id == k;
        assert(i < cs.len() - 1);
        assert(cs.drop_last()[i] == cs[i]);
        lemma_last_index_comp(cs.drop_last(), k);
        let l = last_index_comp(cs.drop_last(), k);
        assert(cs.drop_last()[l] == cs[l]);
        assert forall|j: int| l < j < cs.len() implies cs[j].id != cs[l].id by {
            if j < cs.len() - 1 {
                assert(cs.drop_last()[j] == cs[j]);
            }
        }
    }
}


proof fn lemma_comp_adds_apply(
    w: Map<EntityId, Map<Seq<char>, ComponentDataV>>,
    eid: EntityId,
    cs: Seq<SerializedComponentV>,
    i: int,
    m: Map<Seq<char>, ComponentDataV>,
)
    requires
        0 <= i <= cs.len(),
        w.contains_key(eid),
        w[eid] == m,
    ensures
        apply_changes(w, spec_component_adds(eid, cs, i)) == w.insert(
            eid,
            comp_map_from(m, cs, i),
        ),
    decreases cs.len() - i,
{
    if i == cs.len() {
        assert(w.insert(eid, m) =~= w);
    } else {
        let ca = DeltaChangeV::ComponentAdded {
            entity_id: eid,
            component_id: cs[i].id,
            data: cs[i].data,
        };
        let changes = spec_component_adds(eid, cs, i);
        let rest = spec_component_adds(eid, cs, i + 1);
        assert(changes == seq![ca] + rest);
        assert(changes.first() == ca);
        assert(changes.drop_first() =~= rest);
        let m1 = m.insert(cs[i].id, cs[i].data);
        let w1 = w.insert(eid, m1);
        assert(apply_change(w, ca) == w1);
        lemma_comp_adds_apply(w1, eid, cs, i + 1, m1);
        assert(w1.insert(eid, comp_map_from(m1, cs, i + 1)) =~= w.insert(
            eid,
            comp_map_from(m, cs, i),
        ));
    }
}

proof fn lemma_initial_apply(
    w: Map<EntityId, Map<Seq<char>, ComponentDataV>>,
    es: Seq<SerializedEntityV>,
    i: int,
)
    requires
        0 <= i <= es.len(),
    ensures
        apply_changes(w, spec_initial_changes(es, i)) == world_of_from(w, es, i),
    decreases es.len() - i,
{
    if i < es.len() {
        let e = es[i].id;
        let ecs = es[i].components;
        let ea = DeltaChangeV::EntityAdded { entity_id: e };
        let adds = spec_component_adds(e, ecs, 0);
        let rest = spec_initial_changes(es, i + 1);
        assert(spec_initial_changes(es, i) == (seq![ea] + adds) + rest);
        lemma_apply_changes_concat(w, seq![ea] + adds, rest);
        lemma_apply_changes_concat(w, seq![ea], adds);
        assert(seq![ea].first() == ea);
        assert(seq![ea].drop_first() =~= Seq::<DeltaChangeV>::empty());
        let w1 = w.insert(e, Map::empty());
        assert(apply_changes(apply_change(w, ea), Seq::<DeltaChangeV>::empty()) == apply_change(
            w,
            ea,
        ));
        assert(apply_changes(w, seq![ea]) == w1);
        lemma_comp_adds_apply(w1, e, ecs, 0, Map::empty());
        lemma_comp_map_from_union(Map::empty(), ecs, 0);
        assert(ecs.skip(0) =~= ecs);
        assert(Map::<Seq<char>, ComponentDataV>::empty().union_prefer_right(comp_map(ecs))
            =~= comp_map(ecs));
        let w2 = w1.insert(e, comp_map(ecs));
        assert(apply_changes(w, seq![ea] + adds) == w2);
        assert(w2 =~= w.insert(e, comp_map(ecs)));
        lemma_initial_apply(w.insert(e, comp_map(ecs)), es, i + 1);
    }
}

/// Delta soundness for an initial delta: applying the first-ever delta's
/// changes to the empty world reconstructs exactly the world the snapshot
/// denotes.
pub proof fn lemma_initial_delta_sound(es: Seq<SerializedEntityV>)
    ensures
        apply_changes(Map::empty(), spec_initial_changes(es, 0)) == world_of(es),
{
    lemma_initial_apply(Map::empty(), es, 0);
}


/// Equivalence of two component mappings: the same component names, with
/// payloads equal as the diff's own equality sees them.
pub open spec fn comp_equiv(
    m1: Map<Seq<char>, ComponentDataV>,
    m2: Map<Seq<char>, ComponentDataV>,
) -> bool {
    m1.dom() == m2.dom() && forall|c: Seq<char>|
        #[trigger] m1.dom().contains(c) ==> spec_data_equal(m1[c], m2[c])
}

/// Equivalence of two worlds: the same entities, with equivalent component
/// mappings.
pub open spec fn world_equiv(
    w1: Map<EntityId, Map<Seq<char>, ComponentDataV>>,
    w2: Map<EntityId, Map<Seq<char>, ComponentDataV>>,
) -> bool {
    w1.dom() == w2.dom() && forall|e: EntityId|
        #[trigger] w1.dom().contains(e) ==> comp_equiv(w1[e], w2[e])
}

/// What the component-update changes leave of an entity's mapping `m`, by
/// the same scan the diff makes.
pub open spec fn upd_comps(
    m: Map<Seq<char>, ComponentDataV>,
    pcs: Seq<SerializedComponentV>,
    ccs: Seq<SerializedComponentV>,
    i: int,
) -> Map<Seq<char>, ComponentDataV>
    decreases ccs.len() - i,
{
    if i < 0 || i >= ccs.len() {
        m
    } else if is_last_comp(ccs, i) {
        let c = ccs[i];
        if comp_map(pcs).contains_key(c.id) && spec_data_equal(comp_map(pcs)[c.id], c.data) {
            upd_comps(m, pcs, ccs, i + 1)
        } else {
            upd_comps(m.insert(c.id, c.data), pcs, ccs, i + 1)
        }
    } else {
        upd_comps(m, pcs, ccs, i + 1)
    }
}

/// What the component-removal changes leave of `m`.
pub open spec fn rem_comps(
    m: Map<Seq<char>, ComponentDataV>,
    pcs: Seq<SerializedComponentV>,
    ccs: Seq<SerializedComponentV>,
    i: int,
) -> Map<Seq<char>, ComponentDataV>
    decreases pcs.len() - i,
{
    if i < 0 || i >= pcs.len() {
        m
    } else if is_last_comp(pcs, i) && !comp_map(ccs).contains_key(pcs[i].id) {
        rem_comps(m.remove(pcs[i].id), pcs, ccs, i + 1)
    } else {
        rem_comps(m, pcs, ccs, i + 1)
    }
}

proof fn lemma_apply_comp_updates(
    w: Map<EntityId, Map<Seq<char>, ComponentDataV>>,
    eid: EntityId,
    m: Map<Seq<char>, ComponentDataV>,
    pcs: Seq<SerializedComponentV>,
    ccs: Seq<SerializedComponentV>,
    i: int,
)
    requires
        0 <= i,
        w.contains_key(eid),
        w[eid] == m,
    ensures
        apply_changes(w, spec_comp_updates(false, eid, pcs, ccs, i)) == w.insert(
            eid,
            upd_comps(m, pcs, ccs, i),
        ),
    decreases ccs.len() - i,
{
    let changes = spec_comp_updates(false, eid, pcs, ccs, i);
    if i >= ccs.len() {
        assert(w.insert(eid, m) =~= w);
    } else {
        let rest = spec_comp_updates(false, eid, pcs, ccs, i + 1);
        if is_last_comp(ccs, i) {
            let c = ccs[i];
            if !comp_map(pcs).contains_key(c.id) {
                let dcv = DeltaChangeV::ComponentAdded {
                    entity_id: eid,
                    component_id: c.id,
                    data: c.data,
                };
                assert(changes == seq![dcv] + rest);
                assert(changes.first() == dcv);
                assert(changes.drop_first() =~= rest);
                let w1 = w.insert(eid, m.insert(c.id, c.data));
                assert(apply_change(w, dcv) == w1);
                lemma_apply_comp_updates(w1, eid, m.insert(c.id, c.data), pcs, ccs, i + 1);
                assert(w1.insert(eid, upd_comps(m.insert(c.id, c.data), pcs, ccs, i + 1))
                    =~= w.insert(eid, upd_comps(m, pcs, ccs, i)));
            } else if spec_data_equal(comp_map(pcs)[c.id], c.data) {
                assert(changes =~= rest);
                lemma_apply_comp_updates(w, eid, m, pcs, ccs, i + 1);
            } else {
                let fd = spec_field_deltas_opt(false, comp_map(pcs)[c.id], c.data);
                assert(fd is None);
                let dcv = DeltaChangeV::ComponentUpdated {
                    entity_id: eid,
                    component_id: c.id,
                    data: c.data,
                };
                assert(changes == seq![dcv] + rest);
                assert(changes.first() == dcv);
                assert(changes.drop_first() =~= rest);
                let w1 = w.insert(eid, m.insert(c.id, c.data));
                assert(apply_change(w, dcv) == w1);
                lemma_apply_comp_updates(w1, eid, m.insert(c.id, c.data), pcs, ccs, i + 1);
                assert(w1.insert(eid, upd_comps(m.insert(c.id, c.data), pcs, ccs, i + 1))
                    =~= w.insert(eid, upd_comps(m, pcs, ccs, i)));
            }
        } else {
            assert(changes =~= rest);
            lemma_apply_comp_updates(w, eid, m, pcs, ccs, i + 1);
        }
    }
}

proof fn lemma_apply_comp_removals(
    w: Map<EntityId, Map<Seq<char>, ComponentDataV>>,
    eid: EntityId,
    m: Map<Seq<char>, ComponentDataV>,
    pcs: Seq<SerializedComponentV>,
    ccs: Seq<SerializedComponentV>,
    i: int,
)
    requires
        0 <= i,
        w.contains_key(eid),
        w[eid] == m,
    ensures
        apply_changes(w, spec_comp_removals(eid, pcs, ccs, i)) == w.insert(
            eid,
            rem_comps(m, pcs, ccs, i),
        ),
    decreases pcs.len() - i,
{
    let changes = spec_comp_removals(eid, pcs, ccs, i);
    if i >= pcs.len() {
        assert(w.insert(eid, m) =~= w);
    } else {
        let rest = spec_comp_removals(eid, pcs, ccs, i + 1);
        if is_last_comp(pcs, i) && !comp_map(ccs).contains_key(pcs[i].id) {
            let dcv = DeltaChangeV::ComponentRemoved { entity_id: eid, component_id: pcs[i].id };
            assert(changes == seq![dcv] + rest);
            assert(changes.first() == dcv);
            assert(changes.drop_first() =~= rest);
            let w1 = w.insert(eid, m.remove(pcs[i].id));
            assert(apply_change(w, dcv) == w1);
            lemma_apply_comp_removals(w1, eid, m.remove(pcs[i].id), pcs, ccs, i + 1);
            assert(w1.insert(eid, rem_comps(m.remove(pcs[i].id), pcs, ccs, i + 1)) =~= w.insert(
                eid,
                rem_comps(m, pcs, ccs, i),
            ));
        } else {
            assert(changes =~= rest);
            lemma_apply_comp_removals(w, eid, m, pcs, ccs, i + 1);
        }
    }
}

/// The index of the last occurrence of a component id, made total.
#[verifier::rlimit(100)]
#[verifier::spinoff_prover]
proof fn lemma_upd_comps_char(
    m: Map<Seq<char>, ComponentDataV>,
    pcs: Seq<SerializedComponentV>,
    ccs: Seq<SerializedComponentV>,
    i: int,
)
    requires
        0 <= i,
    ensures
        forall|k: Seq<char>|
            #![trigger upd_comps(m, pcs, ccs, i).dom().contains(k)]
            {
                let out = upd_comps(m, pcs, ccs, i);
                if exists|j: int| i <= j < ccs.len() && is_last_comp(ccs, j) && ccs[j].id == k {
                    let j = choose|j: int|
                        i <= j < ccs.len() && is_last_comp(ccs, j) && ccs[j].id == k;
                    if comp_map(pcs).contains_key(k) && spec_data_equal(
                        comp_map(pcs)[k],
                        ccs[j].data,
                    ) {
                        out.dom().contains(k) == m.dom().contains(k) && (m.dom().contains(k)
                            ==> out[k] == m[k])
                    } else {
                        out.dom().contains(k) && out[k] == ccs[j].data
                    }
                } else {
                    out.dom().contains(k) == m.dom().contains(k) && (m.dom().contains(k) ==> out[k]
                        == m[k])
                }
            },
    decreases ccs.len() - i,
{
    if i < ccs.len() {
        if is_last_comp(ccs, i) {
            let c = ccs[i];
            if comp_map(pcs).contains_key(c.id) && spec_data_equal(comp_map(pcs)[c.id], c.data) {
                lemma_upd_comps_char(m, pcs, ccs, i + 1);
            } else {
                lemma_upd_comps_char(m.insert(c.id, c.data), pcs, ccs, i + 1);
            }
        } else {
            lemma_upd_comps_char(m, pcs, ccs, i + 1);
        }
        assert forall|k: Seq<char>|
            #![trigger upd_comps(m, pcs, ccs, i).dom().contains(k)]
            true implies {
            let out = upd_comps(m, pcs, ccs, i);
            if exists|j: int| i <= j < ccs.len() && is_last_comp(ccs, j) && ccs[j].id == k {
                let j = choose|j: int|
                    i <= j < ccs.len() && is_last_comp(ccs, j) && ccs[j].id == k;
                if comp_map(pcs).contains_key(k) && spec_data_equal(comp_map(pcs)[k], ccs[j].data) {
                    out.dom().contains(k) == m.dom().contains(k) && (m.dom().contains(k) ==> out[k]
                        == m[k])
                } else {
                    out.dom().contains(k) && out[k] == ccs[j].data
                }
            } else {
                out.dom().contains(k) == m.dom().contains(k) && (m.dom().contains(k) ==> out[k]
                    == m[k])
            }
        } by {
            let out = upd_comps(m, pcs, ccs, i);
            // uniqueness: two last occurrences with the same id coincide
            assert(forall|j1: int, j2: int|
                i <= j1 < ccs.len() && i <= j2 < ccs.len() && is_last_comp(ccs, j1)
                    && is_last_comp(ccs, j2) && #[trigger] (ccs[j1].id) == #[trigger] (
                ccs[j2].id) ==> j1 == j2);
            if is_last_comp(ccs, i) {
                let c = ccs[i];
                if comp_map(pcs).contains_key(c.id) && spec_data_equal(
                    comp_map(pcs)[c.id],
                    c.data,
                ) {
                    let out2 = upd_comps(m, pcs, ccs, i + 1);
                    assert(out == out2);
                    assert(out2.dom().contains(k) == out.dom().contains(k));
                    if exists|j: int| i <= j < ccs.len() && is_last_comp(ccs, j) && ccs[j].id
                        == k {
                        let j = choose|j: int|
                            i <= j < ccs.len() && is_last_comp(ccs, j) && ccs[j].id == k;
                        if j == i {
                            assert(!(exists|j2: int|
                                i + 1 <= j2 < ccs.len() && is_last_comp(ccs, j2) && ccs[j2].id
                                    == k));
                        } else {
                            assert(exists|j2: int|
                                i + 1 <= j2 < ccs.len() && is_last_comp(ccs, j2) && ccs[j2].id
                                    == k) by {
                                assert(i + 1 <= j < ccs.len() && is_last_comp(ccs, j)
                                    && ccs[j].id == k);
                            }
                            let j2 = choose|j2: int|
                                i + 1 <= j2 < ccs.len() && is_last_comp(ccs, j2) && ccs[j2].id
                                    == k;
                            assert(j2 == j);
                        }
                    }
                } else {
                    let m2 = m.insert(c.id, c.data);
                    let out2 = upd_comps(m2, pcs, ccs, i + 1);
                    assert(out == out2);
                    assert(out2.dom().contains(k) == out.dom().contains(k));
                    if exists|j: int| i <= j < ccs.len() && is_last_comp(ccs, j) && ccs[j].id
                        == k {
                        let j = choose|j: int|
                            i <= j < ccs.len() && is_last_comp(ccs, j) && ccs[j].id == k;
                        if j == i {
                            assert(k == c.id);
                            assert(!(exists|j2: int|
                                i + 1 <= j2 < ccs.len() && is_last_comp(ccs, j2) && ccs[j2].id
                                    == k));
                            assert(m2.dom().contains(k) && m2[k] == c.data);
                        } else {
                            assert(c.id != k);
                            assert(exists|j2: int|
                                i + 1 <= j2 < ccs.len() && is_last_comp(ccs, j2) && ccs[j2].id
                                    == k) by {
                                assert(i + 1 <= j < ccs.len() && is_last_comp(ccs, j)
                                    && ccs[j].id == k);
                            }
                            let j2 = choose|j2: int|
                                i + 1 <= j2 < ccs.len() && is_last_comp(ccs, j2) && ccs[j2].id
                                    == k;
                            assert(j2 == j);
                            assert(m2.dom().contains(k) == m.dom().contains(k));
                        }
                    } else {
                        assert(c.id != k) by {
                            if c.id == k {
                                assert(i <= i < ccs.len() && is_last_comp(ccs, i) && ccs[i].id
                                    == k);
                            }
                        }
                        assert(m2.dom().contains(k) == m.dom().contains(k) && (m.dom().contains(k)
                            ==> m2[k] == m[k]));
                    }
                }
            } else {
                let out2 = upd_comps(m, pcs, ccs, i + 1);
                assert(out == out2);
                assert(out2.dom().contains(k) == out.dom().contains(k));
                if exists|j: int| i <= j < ccs.len() && is_last_comp(ccs, j) && ccs[j].id == k {
                    let j = choose|j: int|
                        i <= j < ccs.len() && is_last_comp(ccs, j) && ccs[j].id == k;
                    assert(j != i);
                    assert(exists|j2: int|
                        i + 1 <= j2 < ccs.len() && is_last_comp(ccs, j2) && ccs[j2].id == k) by {
                        assert(i + 1 <= j < ccs.len() && is_last_comp(ccs, j) && ccs[j].id == k);
                    }
                    let j2 = choose|j2: int|
                        i + 1 <= j2 < ccs.len() && is_last_comp(ccs, j2) && ccs[j2].id == k;
                    assert(j2 == j);
                }
            }
        }
    }
}

proof fn lemma_rem_comps_char(
    m: Map<Seq<char>, ComponentDataV>,
    pcs: Seq<SerializedComponentV>,
    ccs: Seq<SerializedComponentV>,
    i: int,
)
    requires
        0 <= i,
    ensures
        forall|k: Seq<char>|
            #![trigger rem_comps(m, pcs, ccs, i).dom().contains(k)]
            {
                let out = rem_comps(m, pcs, ccs, i);
                if (exists|j: int| i <= j < pcs.len() && is_last_comp(pcs, j) && pcs[j].id == k)
                    && !comp_map(ccs).contains_key(k) {
                    !out.dom().contains(k)
                } else {
                    out.dom().contains(k) == m.dom().contains(k) && (m.dom().contains(k) ==> out[k]
                        == m[k])
                }
            },
    decreases pcs.len() - i,
{
    if i < pcs.len() {
        if is_last_comp(pcs, i) && !comp_map(ccs).contains_key(pcs[i].id) {
            lemma_rem_comps_char(m.remove(pcs[i].id), pcs, ccs, i + 1);
        } else {
            lemma_rem_comps_char(m, pcs, ccs, i + 1);
        }
        assert forall|k: Seq<char>|
            #![trigger rem_comps(m, pcs, ccs, i).dom().contains(k)]
            true implies {
            let out = rem_comps(m, pcs, ccs, i);
            if (exists|j: int| i <= j < pcs.len() && is_last_comp(pcs, j) && pcs[j].id == k)
                && !comp_map(ccs).contains_key(k) {
                !out.dom().contains(k)
            } else {
                out.dom().contains(k) == m.dom().contains(k) && (m.dom().contains(k) ==> out[k]
                    == m[k])
            }
        } by {
            let out = rem_comps(m, pcs, ccs, i);
            assert(forall|j1: int, j2: int|
                i <= j1 < pcs.len() && i <= j2 < pcs.len() && is_last_comp(pcs, j1)
                    && is_last_comp(pcs, j2) && #[trigger] (pcs[j1].id) == #[trigger] (
                pcs[j2].id) ==> j1 == j2);
            if is_last_comp(pcs, i) && !comp_map(ccs).contains_key(pcs[i].id) {
                let c = pcs[i];
                let m2 = m.remove(c.id);
                let out2 = rem_comps(m2, pcs, ccs, i + 1);
                assert(out == out2);
                assert(out2.dom().contains(k) == out.dom().contains(k));
                if (exists|j: int| i <= j < pcs.len() && is_last_comp(pcs, j) && pcs[j].id == k)
                    && !comp_map(ccs).contains_key(k) {
                    let j = choose|j: int|
                        i <= j < pcs.len() && is_last_comp(pcs, j) && pcs[j].id == k;
                    if j == i {
                        assert(k == c.id);
                        assert(!(exists|j2: int|
                            i + 1 <= j2 < pcs.len() && is_last_comp(pcs, j2) && pcs[j2].id == k));
                        assert(!m2.dom().contains(k));
                    } else {
                        assert(c.id != k);
                        assert(exists|j2: int|
                            i + 1 <= j2 < pcs.len() && is_last_comp(pcs, j2) && pcs[j2].id
                                == k) by {
                            assert(i + 1 <= j < pcs.len() && is_last_comp(pcs, j) && pcs[j].id
                                == k);
                        }
                    }
                } else {
                    if k == c.id {
                        assert(!comp_map(ccs).contains_key(k) ==> !(exists|j: int|
                            i <= j < pcs.len() && is_last_comp(pcs, j) && pcs[j].id == k));
                        assert(comp_map(ccs).contains_key(k));
                        assert(false);
                    } else {
                        assert(m2.dom().contains(k) == m.dom().contains(k) && (m.dom().contains(
                            k,
                        ) ==> m2[k] == m[k]));
                        if exists|j2: int|
                            i + 1 <= j2 < pcs.len() && is_last_comp(pcs, j2) && pcs[j2].id == k {
                            let j2 = choose|j2: int|
                                i + 1 <= j2 < pcs.len() && is_last_comp(pcs, j2) && pcs[j2].id
                                    == k;
                            assert(i <= j2 < pcs.len() && is_last_comp(pcs, j2) && pcs[j2].id
                                == k);
                            assert(comp_map(ccs).contains_key(k));
                        }
                    }
                }
            } else {
                let out2 = rem_comps(m, pcs, ccs, i + 1);
                assert(out == out2);
                assert(out2.dom().contains(k) == out.dom().contains(k));
                if (exists|j: int| i <= j < pcs.len() && is_last_comp(pcs, j) && pcs[j].id == k)
                    && !comp_map(ccs).contains_key(k) {
                    let j = choose|j: int|
                        i <= j < pcs.len() && is_last_comp(pcs, j) && pcs[j].id == k;
                    assert(j != i) by {
                        if j == i {
                            assert(is_last_comp(pcs, i));
                            lemma_comp_map_last(ccs, k);
                        }
                    }
                    assert(exists|j2: int|
                        i + 1 <= j2 < pcs.len() && is_last_comp(pcs, j2) && pcs[j2].id == k) by {
                        assert(i + 1 <= j < pcs.len() && is_last_comp(pcs, j) && pcs[j].id == k);
                    }
                }
            }
        }
    }
}

/// Component-level delta soundness: applying the diff of one shared entity
/// to the component mapping its previous state denotes yields a mapping
/// equivalent to the one its current state denotes.
pub proof fn lemma_component_changes_sound(
    w: Map<EntityId, Map<Seq<char>, ComponentDataV>>,
    eid: EntityId,
    pcs: Seq<SerializedComponentV>,
    ccs: Seq<SerializedComponentV>,
)
    requires
        w.contains_key(eid),
        w[eid] == comp_map(pcs),
    ensures
        apply_changes(w, spec_component_changes(false, eid, pcs, ccs)) == w.insert(
            eid,
            rem_comps(upd_comps(comp_map(pcs), pcs, ccs, 0), pcs, ccs, 0),
        ),
        comp_equiv(rem_comps(upd_comps(comp_map(pcs), pcs, ccs, 0), pcs, ccs, 0), comp_map(ccs)),
{
    let pm = comp_map(pcs);
    let cm = comp_map(ccs);
    lemma_apply_changes_concat(
        w,
        spec_comp_updates(false, eid, pcs, ccs, 0),
        spec_comp_removals(eid, pcs, ccs, 0),
    );
    lemma_apply_comp_updates(w, eid, pm, pcs, ccs, 0);
    let mid = upd_comps(pm, pcs, ccs, 0);
    let w1 = w.insert(eid, mid);
    lemma_apply_comp_removals(w1, eid, mid, pcs, ccs, 0);
    let out = rem_comps(mid, pcs, ccs, 0);
    assert(w1.insert(eid, out) =~= w.insert(eid, out));
    lemma_upd_comps_char(pm, pcs, ccs, 0);
    lemma_rem_comps_char(mid, pcs, ccs, 0);
    assert forall|k: Seq<char>| #[trigger] out.dom().contains(k) implies cm.dom().contains(k)
        && spec_data_equal(out[k], cm[k]) by {
        lemma_comp_map_last(ccs, k);
        lemma_comp_map_last(pcs, k);
        if exists|j: int| 0 <= j < ccs.len() && is_last_comp(ccs, j) && ccs[j].id == k {
            let j = choose|j: int| 0 <= j < ccs.len() && is_last_comp(ccs, j) && ccs[j].id == k;
            assert(cm.contains_key(k) && cm[k] == ccs[j].data);
            if pm.contains_key(k) && spec_data_equal(pm[k], ccs[j].data) {
                assert(mid.dom().contains(k) == pm.dom().contains(k));
                assert(out[k] == pm[k]);
            } else {
                assert(mid[k] == ccs[j].data);
                assert(out[k] == ccs[j].data);
                lemma_data_equal_refl(ccs[j].data);
            }
        } else {
            assert(!cm.contains_key(k)) by {
                if cm.contains_key(k) {
                    let j0 = last_index_comp(ccs, k);
                    lemma_last_index_comp(ccs, k);
                    assert(is_last_comp(ccs, j0) && ccs[j0].id == k);
                }
            }
            assert(mid.dom().contains(k) == pm.dom().contains(k));
            assert(pm.contains_key(k));
            let j1 = last_index_comp(pcs, k);
            lemma_last_index_comp(pcs, k);
            assert(!out.dom().contains(k));
            assert(false);
        }
    }
    assert forall|k: Seq<char>| #[trigger] cm.dom().contains(k) implies out.dom().contains(k) by {
        lemma_comp_map_last(ccs, k);
        let j = last_index_comp(ccs, k);
        lemma_last_index_comp(ccs, k);
        assert(is_last_comp(ccs, j) && ccs[j].id == k);
        if pm.contains_key(k) && spec_data_equal(pm[k], ccs[j].data) {
            assert(mid.dom().contains(k));
        } else {
            assert(mid.dom().contains(k));
        }
        assert(out.dom().contains(k) == mid.dom().contains(k));
    }
    assert(out.dom() =~= cm.dom());
}

/// The diff's payload equality is reflexive.
proof fn lemma_data_equal_refl(d: ComponentDataV)
    ensures
        spec_data_equal(d, d),
{
}


/// The world after the entity-update changes, by the same scan the diff
/// makes: a new entity appears with its components; a shared one present in
/// the world has its mapping transformed by the component diff; everything
/// else stays.
pub open spec fn upd_world(
    w: Map<EntityId, Map<Seq<char>, ComponentDataV>>,
    prev: Seq<SerializedEntityV>,
    curr: Seq<SerializedEntityV>,
    i: int,
) -> Map<EntityId, Map<Seq<char>, ComponentDataV>>
    decreases curr.len() - i,
{
    if i < 0 || i >= curr.len() {
        w
    } else if is_last_ent(curr, i) {
        let e = curr[i];
        if !ent_map(prev).contains_key(e.id) {
            upd_world(w.insert(e.id, comp_map(e.components)), prev, curr, i + 1)
        } else if w.contains_key(e.id) {
            let pcs = ent_map(prev)[e.id];
            upd_world(
                w.insert(
                    e.id,
                    rem_comps(upd_comps(w[e.id], pcs, e.components, 0), pcs, e.components, 0),
                ),
                prev,
                curr,
                i + 1,
            )
        } else {
            upd_world(w, prev, curr, i + 1)
        }
    } else {
        upd_world(w, prev, curr, i + 1)
    }
}

/// The world after the entity removals.
pub open spec fn rem_world(
    w: Map<EntityId, Map<Seq<char>, ComponentDataV>>,
    prev: Seq<SerializedEntityV>,
    curr: Seq<SerializedEntityV>,
    i: int,
) -> Map<EntityId, Map<Seq<char>, ComponentDataV>>
    decreases prev.len() - i,
{
    if i < 0 || i >= prev.len() {
        w
    } else if is_last_ent(prev, i) && !ent_map(curr).contains_key(prev[i].id) {
        rem_world(w.remove(prev[i].id), prev, curr, i + 1)
    } else {
        rem_world(w, prev, curr, i + 1)
    }
}

proof fn lemma_apply_comp_changes_missing(
    w: Map<EntityId, Map<Seq<char>, ComponentDataV>>,
    eid: EntityId,
    pcs: Seq<SerializedComponentV>,
    ccs: Seq<SerializedComponentV>,
)
    requires
        !w.contains_key(eid),
    ensures
        apply_changes(w, spec_component_changes(false, eid, pcs, ccs)) == w,
{
    lemma_apply_changes_concat(
        w,
        spec_comp_updates(false, eid, pcs, ccs, 0),
        spec_comp_removals(eid, pcs, ccs, 0),
    );
    lemma_apply_comp_updates_missing(w, eid, pcs, ccs, 0);
    lemma_apply_comp_removals_missing(w, eid, pcs, ccs, 0);
}

proof fn lemma_apply_comp_updates_missing(
    w: Map<EntityId, Map<Seq<char>, ComponentDataV>>,
    eid: EntityId,
    pcs: Seq<SerializedComponentV>,
    ccs: Seq<SerializedComponentV>,
    i: int,
)
    requires
        0 <= i,
        !w.contains_key(eid),
    ensures
        apply_changes(w, spec_comp_updates(false, eid, pcs, ccs, i)) == w,
    decreases ccs.len() - i,
{
    if i < ccs.len() {
        let changes = spec_comp_updates(false, eid, pcs, ccs, i);
        let rest = spec_comp_updates(false, eid, pcs, ccs, i + 1);
        lemma_apply_comp_updates_missing(w, eid, pcs, ccs, i + 1);
        if is_last_comp(ccs, i) {
            let c = ccs[i];
            if !comp_map(pcs).contains_key(c.id) || !spec_data_equal(comp_map(pcs)[c.id], c.data) {
                assert(changes.len() == 1 + rest.len());
                assert(changes.first() == changes[0]);
                assert(changes.drop_first() =~= rest);
                assert(apply_change(w, changes.first()) == w);
            } else {
                assert(changes =~= rest);
            }
        } else {
            assert(changes =~= rest);
        }
    }
}

proof fn lemma_apply_comp_removals_missing(
    w: Map<EntityId, Map<Seq<char>, ComponentDataV>>,
    eid: EntityId,
    pcs: Seq<SerializedComponentV>,
    ccs: Seq<SerializedComponentV>,
    i: int,
)
    requires
        0 <= i,
        !w.contains_key(eid),
    ensures
        apply_changes(w, spec_comp_removals(eid, pcs, ccs, i)) == w,
    decreases pcs.len() - i,
{
    if i < pcs.len() {
        let changes = spec_comp_removals(eid, pcs, ccs, i);
        let rest = spec_comp_removals(eid, pcs, ccs, i + 1);
        lemma_apply_comp_removals_missing(w, eid, pcs, ccs, i + 1);
        if is_last_comp(pcs, i) && !comp_map(ccs).contains_key(pcs[i].id) {
            assert(changes.first() == changes[0]);
            assert(changes.drop_first() =~= rest);
            assert(apply_change(w, changes.first()) == w);
        } else {
            assert(changes =~= rest);
        }
    }
}

proof fn lemma_apply_entity_updates(
    w: Map<EntityId, Map<Seq<char>, ComponentDataV>>,
    prev: Seq<SerializedEntityV>,
    curr: Seq<SerializedEntityV>,
    i: int,
)
    requires
        0 <= i,
    ensures
        apply_changes(w, spec_entity_updates(false, prev, curr, i)) == upd_world(
            w,
            prev,
            curr,
            i,
        ),
    decreases curr.len() - i,
{
    if i < curr.len() {
        let changes = spec_entity_updates(false, prev, curr, i);
        let rest = spec_entity_updates(false, prev, curr, i + 1);
        if is_last_ent(curr, i) {
            let e = curr[i];
            if !ent_map(prev).contains_key(e.id) {
                let ea = DeltaChangeV::EntityAdded { entity_id: e.id };
                let adds = spec_component_adds(e.id, e.components, 0);
                assert(changes == (seq![ea] + adds) + rest);
                lemma_apply_changes_concat(w, seq![ea] + adds, rest);
                lemma_apply_changes_concat(w, seq![ea], adds);
                assert(seq![ea].first() == ea);
                assert(seq![ea].drop_first() =~= Seq::<DeltaChangeV>::empty());
                let w1 = w.insert(e.id, Map::empty());
                assert(apply_changes(apply_change(w, ea), Seq::<DeltaChangeV>::empty())
                    == apply_change(w, ea));
                assert(apply_changes(w, seq![ea]) == w1);
                lemma_comp_adds_apply(w1, e.id, e.components, 0, Map::empty());
                lemma_comp_map_from_union(Map::empty(), e.components, 0);
                assert(e.components.skip(0) =~= e.components);
                assert(Map::<Seq<char>, ComponentDataV>::empty().union_prefer_right(
                    comp_map(e.components),
                ) =~= comp_map(e.components));
                let w2 = w1.insert(e.id, comp_map(e.components));
                assert(w2 =~= w.insert(e.id, comp_map(e.components)));
                lemma_apply_entity_updates(w.insert(e.id, comp_map(e.components)), prev, curr, i + 1);
            } else {
                let pcs = ent_map(prev)[e.id];
                let head = spec_component_changes(false, e.id, pcs, e.components);
                assert(changes == head + rest);
                lemma_apply_changes_concat(w, head, rest);
                if w.contains_key(e.id) {
                    lemma_apply_changes_concat(
                        w,
                        spec_comp_updates(false, e.id, pcs, e.components, 0),
                        spec_comp_removals(e.id, pcs, e.components, 0),
                    );
                    lemma_apply_comp_updates(w, e.id, w[e.id], pcs, e.components, 0);
                    let mid = upd_comps(w[e.id], pcs, e.components, 0);
                    let w1 = w.insert(e.id, mid);
                    lemma_apply_comp_removals(w1, e.id, mid, pcs, e.components, 0);
                    let out = rem_comps(mid, pcs, e.components, 0);
                    assert(w1.insert(e.id, out) =~= w.insert(e.id, out));
                    lemma_apply_entity_updates(w.insert(e.id, out), prev, curr, i + 1);
                } else {
                    lemma_apply_comp_changes_missing(w, e.id, pcs, e.components);
                    lemma_apply_entity_updates(w, prev, curr, i + 1);
                }
            }
        } else {
            assert(changes =~= rest);
            lemma_apply_entity_updates(w, prev, curr, i + 1);
        }
    }
}

proof fn lemma_apply_entity_removals(
    w: Map<EntityId, Map<Seq<char>, ComponentDataV>>,
    prev: Seq<SerializedEntityV>,
    curr: Seq<SerializedEntityV>,
    i: int,
)
    requires
        0 <= i,
    ensures
        apply_changes(w, spec_entity_removals(prev, curr, i)) == rem_world(w, prev, curr, i),
    decreases prev.len() - i,
{
    if i < prev.len() {
        let changes = spec_entity_removals(prev, curr, i);
        let rest = spec_entity_removals(prev, curr, i + 1);
        if is_last_ent(prev, i) && !ent_map(curr).contains_key(prev[i].id) {
            let dcv = DeltaChangeV::EntityRemoved { entity_id: prev[i].id };
            assert(changes == seq![dcv] + rest);
            assert(changes.first() == dcv);
            assert(changes.drop_first() =~= rest);
            assert(apply_change(w, dcv) == w.remove(prev[i].id));
            lemma_apply_entity_removals(w.remove(prev[i].id), prev, curr, i + 1);
        } else {
            assert(changes =~= rest);
            lemma_apply_entity_removals(w, prev, curr, i + 1);
        }
    }
}


/// The world a snapshot denotes, folded from the end; agrees with
/// `world_of`.
pub open spec fn world_back(es: Seq<SerializedEntityV>) -> Map<
    EntityId,
    Map<Seq<char>, ComponentDataV>,
>
    decreases es.len(),
{
    if es.len() == 0 {
        Map::empty()
    } else {
        world_back(es.drop_last()).insert(es.last().id, comp_map(es.last().components))
    }
}

/// The index of the last occurrence of entity id `k`.
pub open spec fn last_index_ent(es: Seq<SerializedEntityV>, k: EntityId) -> int
    decreases es.len(),
{
    if es.len() == 0 {
        0
    } else if es.last().id == k {
        es.len() - 1
    } else {
        last_index_ent(es.drop_last(), k)
    }
}

pub proof fn lemma_last_index_ent(es: Seq<SerializedEntityV>, k: EntityId)
    requires
        exists|i: int| 0 <= i < es.len() && es[i].id == k,
    ensures
        0 <= last_index_ent(es, k) < es.len(),
        es[last_index_ent(es, k)].id == k,
        is_last_ent(es, last_index_ent(es, k)),
    decreases es.len(),
{
    if es.last().id == k {
    } else {
        let i = choose|i: int| 0 <= i < es.len() && es[i].id == k;
        assert(i < es.len() - 1);
        assert(es.drop_last()[i] == es[i]);
        lemma_last_index_ent(es.drop_last(), k);
        let l = last_index_ent(es.drop_last(), k);
        assert(es.drop_last()[l] == es[l]);
        assert forall|j: int| l < j < es.len() implies es[j].id != es[l].id by {
            if j < es.len() - 1 {
                assert(es.drop_last()[j] == es[j]);
            }
        }
    }
}

/// `world_back` contains an id iff some entity carries it, and maps it to
/// the component mapping of the last entity that does.
pub proof fn lemma_world_back_last(es: Seq<SerializedEntityV>, k: EntityId)
    ensures
        world_back(es).contains_key(k) <==> exists|i: int| 0 <= i < es.len() && es[i].id == k,
        forall|i: int|
            0 <= i < es.len() && es[i].id == k && is_last_ent(es, i) ==> world_back(
                es,
            ).contains_key(k) && world_back(es)[k] == comp_map(es[i].components),
    decreases es.len(),
{
    if es.len() > 0 {
        lemma_world_back_last(es.drop_last(), k);
        let last = es.len() - 1;
        assert forall|i: int|
            0 <= i < es.len() && es[i].id == k && is_last_ent(es, i) implies world_back(
            es,
        ).contains_key(k) && world_back(es)[k] == comp_map(es[i].components) by {
            if i != last {
                assert(es[last].id != k);
                assert(es.drop_last()[i] == es[i]);
                assert(is_last_ent(es.drop_last(), i)) by {
                    assert forall|j: int|
                        i < j < es.drop_last().len() implies es.drop_last()[j].id != es
                        .drop_last()[i].id by {
                        assert(es.drop_last()[j] == es[j]);
                    }
                }
            }
        }
        if exists|i: int| 0 <= i < es.len() && es[i].id == k {
            let i = choose|i: int| 0 <= i < es.len() && es[i].id == k;
            if i < last {
                assert(es.drop_last()[i] == es[i]);
            }
            assert(world_back(es).contains_key(k));
        }
    }
}

/// The forward world fold overlays the remaining entities onto `w`.
pub proof fn lemma_world_of_from_union(
    w: Map<EntityId, Map<Seq<char>, ComponentDataV>>,
    es: Seq<SerializedEntityV>,
    i: int,
)
    requires
        0 <= i <= es.len(),
    ensures
        world_of_from(w, es, i) == w.union_prefer_right(world_back(es.skip(i))),
    decreases es.len() - i,
{
    if i == es.len() {
        assert(es.skip(i) =~= Seq::<SerializedEntityV>::empty());
        assert(world_back(es.skip(i)) =~= Map::<EntityId, Map<Seq<char>, ComponentDataV>>::empty());
        assert(w.union_prefer_right(Map::empty()) =~= w);
    } else {
        lemma_world_of_from_union(w.insert(es[i].id, comp_map(es[i].components)), es, i + 1);
        let tail = es.skip(i + 1);
        let whole = es.skip(i);
        assert forall|j: int| 0 <= j < tail.len() implies tail[j] == whole[j + 1] by {}
        assert(whole[0] == es[i]);
        let lhs = w.insert(es[i].id, comp_map(es[i].components)).union_prefer_right(
            world_back(tail),
        );
        let rhs = w.union_prefer_right(world_back(whole));
        assert forall|k: EntityId| #![trigger lhs.dom().contains(k)]
            #![trigger rhs.dom().contains(k)]
            lhs.dom().contains(k) == rhs.dom().contains(k) && (lhs.dom().contains(k) ==> lhs[k]
                == rhs[k]) by {
            lemma_world_back_last(tail, k);
            lemma_world_back_last(whole, k);
            if world_back(tail).contains_key(k) {
                let j = choose|j: int| 0 <= j < tail.len() && tail[j].id == k;
                assert(whole[j + 1].id == k);
                assert(world_back(whole).contains_key(k));
                let l = last_index_ent(tail, k);
                lemma_last_index_ent(tail, k);
                assert(world_back(tail)[k] == comp_map(tail[l].components));
                assert(is_last_ent(whole, l + 1)) by {
                    assert forall|j2: int| #![trigger whole[j2]]
                        l + 1 < j2 < whole.len() implies whole[j2].id != whole[l + 1].id by {
                        assert(whole[j2] == tail[j2 - 1]);
                    }
                }
                assert(world_back(whole)[k] == comp_map(whole[l + 1].components));
            } else if k == es[i].id {
                assert(whole[0].id == k);
                assert(world_back(whole).contains_key(k));
                assert(is_last_ent(whole, 0)) by {
                    assert forall|j2: int| #![trigger whole[j2]] 0 < j2 < whole.len()
                        implies whole[j2].id != whole[0].id by {
                        assert(whole[j2] == tail[j2 - 1]);
                        if whole[j2].id == k {
                            assert(world_back(tail).contains_key(k));
                        }
                    }
                }
                assert(world_back(whole)[k] == comp_map(es[i].components));
            } else {
                if world_back(whole).contains_key(k) {
                    let j = choose|j: int| 0 <= j < whole.len() && whole[j].id == k;
                    assert(j != 0);
                    assert(tail[j - 1].id == k);
                    assert(world_back(tail).contains_key(k));
                }
            }
        }
        assert(lhs.dom() =~= rhs.dom());
        assert(lhs =~= rhs);
    }
}

/// The world a snapshot denotes has exactly its entity mapping's ids, each
/// with the component mapping of its last occurrence.
pub proof fn lemma_world_of_entmap(es: Seq<SerializedEntityV>)
    ensures
        world_of(es).dom() == ent_map(es).dom(),
        forall|k: EntityId|
            #[trigger] world_of(es).contains_key(k) ==> world_of(es)[k] == comp_map(
                ent_map(es)[k],
            ),
    decreases es.len(),
{
    lemma_world_of_from_union(Map::empty(), es, 0);
    assert(es.skip(0) =~= es);
    assert(world_of(es) =~= world_back(es));
    lemma_world_back_entmap(es);
}

proof fn lemma_world_back_entmap(es: Seq<SerializedEntityV>)
    ensures
        world_back(es).dom() == ent_map(es).dom(),
        forall|k: EntityId|
            #[trigger] world_back(es).contains_key(k) ==> world_back(es)[k] == comp_map(
                ent_map(es)[k],
            ),
    decreases es.len(),
{
    if es.len() > 0 {
        lemma_world_back_entmap(es.drop_last());
        assert(world_back(es).dom() =~= ent_map(es).dom());
    } else {
        assert(world_back(es).dom() =~= ent_map(es).dom());
    }
}


proof fn lemma_upd_world_char(
    w: Map<EntityId, Map<Seq<char>, ComponentDataV>>,
    prev: Seq<SerializedEntityV>,
    curr: Seq<SerializedEntityV>,
    i: int,
)
    requires
        0 <= i,
    ensures
        forall|k: EntityId|
            #![trigger upd_world(w, prev, curr, i).dom().contains(k)]
            {
                let out = upd_world(w, prev, curr, i);
                if exists|j: int| i <= j < curr.len() && is_last_ent(curr, j) && curr[j].id == k {
                    let j = choose|j: int|
                        i <= j < curr.len() && is_last_ent(curr, j) && curr[j].id == k;
                    if !ent_map(prev).contains_key(k) {
                        out.dom().contains(k) && out[k] == comp_map(curr[j].components)
                    } else if w.contains_key(k) {
                        out.dom().contains(k) && out[k] == rem_comps(
                            upd_comps(w[k], ent_map(prev)[k], curr[j].components, 0),
                            ent_map(prev)[k],
                            curr[j].components,
                            0,
                        )
                    } else {
                        !out.dom().contains(k)
                    }
                } else {
                    out.dom().contains(k) == w.dom().contains(k) && (w.dom().contains(k) ==> out[k]
                        == w[k])
                }
            },
    decreases curr.len() - i,
{
    if i >= curr.len() {
        assert(upd_world(w, prev, curr, i) == w);
    }
    if i < curr.len() {
        let e = curr[i];
        if is_last_ent(curr, i) {
            if !ent_map(prev).contains_key(e.id) {
                lemma_upd_world_char(w.insert(e.id, comp_map(e.components)), prev, curr, i + 1);
            } else if w.contains_key(e.id) {
                let pcs = ent_map(prev)[e.id];
                lemma_upd_world_char(
                    w.insert(
                        e.id,
                        rem_comps(upd_comps(w[e.id], pcs, e.components, 0), pcs, e.components, 0),
                    ),
                    prev,
                    curr,
                    i + 1,
                );
            } else {
                lemma_upd_world_char(w, prev, curr, i + 1);
            }
        } else {
            lemma_upd_world_char(w, prev, curr, i + 1);
        }
        assert forall|k: EntityId|
            #![trigger upd_world(w, prev, curr, i).dom().contains(k)]
            true implies {
            let out = upd_world(w, prev, curr, i);
            if exists|j: int| i <= j < curr.len() && is_last_ent(curr, j) && curr[j].id == k {
                let j = choose|j: int|
                    i <= j < curr.len() && is_last_ent(curr, j) && curr[j].id == k;
                if !ent_map(prev).contains_key(k) {
                    out.dom().contains(k) && out[k] == comp_map(curr[j].components)
                } else if w.contains_key(k) {
                    out.dom().contains(k) && out[k] == rem_comps(
                        upd_comps(w[k], ent_map(prev)[k], curr[j].components, 0),
                        ent_map(prev)[k],
                        curr[j].components,
                        0,
                    )
                } else {
                    !out.dom().contains(k)
                }
            } else {
                out.dom().contains(k) == w.dom().contains(k) && (w.dom().contains(k) ==> out[k]
                    == w[k])
            }
        } by {
            let out = upd_world(w, prev, curr, i);
            assert(forall|j1: int, j2: int|
                i <= j1 < curr.len() && i <= j2 < curr.len() && is_last_ent(curr, j1)
                    && is_last_ent(curr, j2) && #[trigger] (curr[j1].id) == #[trigger] (
                curr[j2].id) ==> j1 == j2);
            if is_last_ent(curr, i) {
                let w2 = if !ent_map(prev).contains_key(e.id) {
                    w.insert(e.id, comp_map(e.components))
                } else if w.contains_key(e.id) {
                    let pcs = ent_map(prev)[e.id];
                    w.insert(
                        e.id,
                        rem_comps(upd_comps(w[e.id], pcs, e.components, 0), pcs, e.components, 0),
                    )
                } else {
                    w
                };
                let out2 = upd_world(w2, prev, curr, i + 1);
                assert(out == out2);
                assert(out2.dom().contains(k) == out.dom().contains(k));
                if exists|j: int| i <= j < curr.len() && is_last_ent(curr, j) && curr[j].id == k {
                    let j = choose|j: int|
                        i <= j < curr.len() && is_last_ent(curr, j) && curr[j].id == k;
                    if j == i {
                        assert(k == e.id);
                        assert(!(exists|j2: int|
                            i + 1 <= j2 < curr.len() && is_last_ent(curr, j2) && curr[j2].id
                                == k));
                    } else {
                        assert(e.id != k);
                        assert(exists|j2: int|
                            i + 1 <= j2 < curr.len() && is_last_ent(curr, j2) && curr[j2].id
                                == k) by {
                            assert(i + 1 <= j < curr.len() && is_last_ent(curr, j) && curr[j].id
                                == k);
                        }
                        let j2 = choose|j2: int|
                            i + 1 <= j2 < curr.len() && is_last_ent(curr, j2) && curr[j2].id == k;
                        assert(j2 == j);
                        assert(w2.dom().contains(k) == w.dom().contains(k) && (w.dom().contains(
                            k,
                        ) ==> w2[k] == w[k]));
                    }
                } else {
                    assert(e.id != k) by {
                        if e.id == k {
                            assert(i <= i < curr.len() && is_last_ent(curr, i) && curr[i].id == k);
                        }
                    }
                    assert(w2.dom().contains(k) == w.dom().contains(k) && (w.dom().contains(k)
                        ==> w2[k] == w[k]));
                }
            } else {
                let out2 = upd_world(w, prev, curr, i + 1);
                assert(out == out2);
                assert(out2.dom().contains(k) == out.dom().contains(k));
                if exists|j: int| i <= j < curr.len() && is_last_ent(curr, j) && curr[j].id == k {
                    let j = choose|j: int|
                        i <= j < curr.len() && is_last_ent(curr, j) && curr[j].id == k;
                    assert(j != i);
                    assert(exists|j2: int|
                        i + 1 <= j2 < curr.len() && is_last_ent(curr, j2) && curr[j2].id == k) by {
                        assert(i + 1 <= j < curr.len() && is_last_ent(curr, j) && curr[j].id == k);
                    }
                    let j2 = choose|j2: int|
                        i + 1 <= j2 < curr.len() && is_last_ent(curr, j2) && curr[j2].id == k;
                    assert(j2 == j);
                }
            }
        }
    }
}

proof fn lemma_rem_world_char(
    w: Map<EntityId, Map<Seq<char>, ComponentDataV>>,
    prev: Seq<SerializedEntityV>,
    curr: Seq<SerializedEntityV>,
    i: int,
)
    requires
        0 <= i,
    ensures
        forall|k: EntityId|
            #![trigger rem_world(w, prev, curr, i).dom().contains(k)]
            {
                let out = rem_world(w, prev, curr, i);
                if (exists|j: int| i <= j < prev.len() && is_last_ent(prev, j) && prev[j].id == k)
                    && !ent_map(curr).contains_key(k) {
                    !out.dom().contains(k)
                } else {
                    out.dom().contains(k) == w.dom().contains(k) && (w.dom().contains(k) ==> out[k]
                        == w[k])
                }
            },
    decreases prev.len() - i,
{
    if i < prev.len() {
        if is_last_ent(prev, i) && !ent_map(curr).contains_key(prev[i].id) {
            lemma_rem_world_char(w.remove(prev[i].id), prev, curr, i + 1);
        } else {
            lemma_rem_world_char(w, prev, curr, i + 1);
        }
        assert forall|k: EntityId|
            #![trigger rem_world(w, prev, curr, i).dom().contains(k)]
            true implies {
            let out = rem_world(w, prev, curr, i);
            if (exists|j: int| i <= j < prev.len() && is_last_ent(prev, j) && prev[j].id == k)
                && !ent_map(curr).contains_key(k) {
                !out.dom().contains(k)
            } else {
                out.dom().contains(k) == w.dom().contains(k) && (w.dom().contains(k) ==> out[k]
                    == w[k])
            }
        } by {
            let out = rem_world(w, prev, curr, i);
            assert(forall|j1: int, j2: int|
                i <= j1 < prev.len() && i <= j2 < prev.len() && is_last_ent(prev, j1)
                    && is_last_ent(prev, j2) && #[trigger] (prev[j1].id) == #[trigger] (
                prev[j2].id) ==> j1 == j2);
            if is_last_ent(prev, i) && !ent_map(curr).contains_key(prev[i].id) {
                let c = prev[i];
                let w2 = w.remove(c.id);
                let out2 = rem_world(w2, prev, curr, i + 1);
                assert(out == out2);
                assert(out2.dom().contains(k) == out.dom().contains(k));
                if (exists|j: int| i <= j < prev.len() && is_last_ent(prev, j) && prev[j].id == k)
                    && !ent_map(curr).contains_key(k) {
                    let j = choose|j: int|
                        i <= j < prev.len() && is_last_ent(prev, j) && prev[j].id == k;
                    if j == i {
                        assert(k == c.id);
                        assert(!(exists|j2: int|
                            i + 1 <= j2 < prev.len() && is_last_ent(prev, j2) && prev[j2].id
                                == k));
                        assert(!w2.dom().contains(k));
                    } else {
                        assert(c.id != k);
                        assert(exists|j2: int|
                            i + 1 <= j2 < prev.len() && is_last_ent(prev, j2) && prev[j2].id
                                == k) by {
                            assert(i + 1 <= j < prev.len() && is_last_ent(prev, j) && prev[j].id
                                == k);
                        }
                    }
                } else {
                    if k == c.id {
                        assert(i <= i < prev.len() && is_last_ent(prev, i) && prev[i].id == k);
                        assert(false);
                    } else {
                        assert(w2.dom().contains(k) == w.dom().contains(k) && (w.dom().contains(
                            k,
                        ) ==> w2[k] == w[k]));
                        if exists|j2: int|
                            i + 1 <= j2 < prev.len() && is_last_ent(prev, j2) && prev[j2].id
                                == k {
                            let j2 = choose|j2: int|
                                i + 1 <= j2 < prev.len() && is_last_ent(prev, j2) && prev[j2].id
                                    == k;
                            assert(i <= j2 < prev.len() && is_last_ent(prev, j2) && prev[j2].id
                                == k);
                            assert(ent_map(curr).contains_key(k));
                        }
                    }
                }
            } else {
                let out2 = rem_world(w, prev, curr, i + 1);
                assert(out == out2);
                assert(out2.dom().contains(k) == out.dom().contains(k));
                if (exists|j: int| i <= j < prev.len() && is_last_ent(prev, j) && prev[j].id == k)
                    && !ent_map(curr).contains_key(k) {
                    let j = choose|j: int|
                        i <= j < prev.len() && is_last_ent(prev, j) && prev[j].id == k;
                    assert(j != i) by {
                        if j == i {
                            assert(is_last_ent(prev, i));
                        }
                    }
                    assert(exists|j2: int|
                        i + 1 <= j2 < prev.len() && is_last_ent(prev, j2) && prev[j2].id == k) by {
                        assert(i + 1 <= j < prev.len() && is_last_ent(prev, j) && prev[j].id == k);
                    }
                }
            }
        }
    }
}

/// Two component mappings are equivalent to themselves.
proof fn lemma_comp_equiv_refl(m: Map<Seq<char>, ComponentDataV>)
    ensures
        comp_equiv(m, m),
{
    assert forall|c: Seq<char>| #[trigger] m.dom().contains(c) implies spec_data_equal(
        m[c],
        m[c],
    ) by {
        lemma_data_equal_refl(m[c]);
    }
}

/// Delta soundness: with field-level compression off, applying the diff
/// between two snapshots to the world the first denotes yields a world
/// equivalent to the one the second denotes — the same entities, the same
/// component names, and payloads equal as the diff's own equality sees
/// them. Starting from the empty world, `lemma_initial_delta_sound` covers
/// the first delta and this lemma every later one, so the emitted deltas
/// reconstruct every snapshot in turn. With field-level compression on,
/// `lemma_delta_sound_with_field_compression` states the same law in one
/// theorem over the field-level world model.
pub proof fn lemma_delta_sound(prev: Seq<SerializedEntityV>, curr: Seq<SerializedEntityV>)
    ensures
        world_equiv(
            apply_changes(world_of(prev), spec_snapshot_changes(false, prev, curr)),
            world_of(curr),
        ),
{
    let w0 = world_of(prev);
    lemma_apply_changes_concat(
        w0,
        spec_entity_updates(false, prev, curr, 0),
        spec_entity_removals(prev, curr, 0),
    );
    lemma_apply_entity_updates(w0, prev, curr, 0);
    let w1 = upd_world(w0, prev, curr, 0);
    lemma_apply_entity_removals(w1, prev, curr, 0);
    let t = rem_world(w1, prev, curr, 0);
    lemma_upd_world_char(w0, prev, curr, 0);
    lemma_rem_world_char(w1, prev, curr, 0);
    lemma_world_of_entmap(prev);
    lemma_world_of_entmap(curr);
    let wc = world_of(curr);
    assert forall|k: EntityId| #[trigger] t.dom().contains(k) implies wc.dom().contains(k)
        && comp_equiv(t[k], wc[k]) by {
        lemma_ent_map_last(curr, k);
        lemma_ent_map_last(prev, k);
        if exists|j: int| 0 <= j < curr.len() && is_last_ent(curr, j) && curr[j].id == k {
            let j = choose|j: int| 0 <= j < curr.len() && is_last_ent(curr, j) && curr[j].id == k;
            assert(ent_map(curr).contains_key(k));
            assert(ent_map(curr)[k] == curr[j].components);
            assert(wc.dom().contains(k));
            assert(wc[k] == comp_map(curr[j].components));
            assert(t.dom().contains(k) == w1.dom().contains(k) && w1[k] == t[k]);
            if !ent_map(prev).contains_key(k) {
                assert(w1[k] == comp_map(curr[j].components));
                lemma_comp_equiv_refl(comp_map(curr[j].components));
            } else {
                assert(w0.dom().contains(k));
                assert(w0[k] == comp_map(ent_map(prev)[k]));
                assert(w1[k] == rem_comps(
                    upd_comps(w0[k], ent_map(prev)[k], curr[j].components, 0),
                    ent_map(prev)[k],
                    curr[j].components,
                    0,
                ));
                let probe = Map::<EntityId, Map<Seq<char>, ComponentDataV>>::empty().insert(
                    k,
                    comp_map(ent_map(prev)[k]),
                );
                lemma_component_changes_sound(probe, k, ent_map(prev)[k], curr[j].components);
            }
        } else {
            assert(!ent_map(curr).contains_key(k)) by {
                if ent_map(curr).contains_key(k) {
                    let j0 = last_index_ent(curr, k);
                    lemma_last_index_ent(curr, k);
                }
            }
            assert(w1.dom().contains(k) == w0.dom().contains(k));
            assert(t.dom().contains(k));
            if w0.dom().contains(k) {
                assert(ent_map(prev).contains_key(k));
                let j1 = last_index_ent(prev, k);
                lemma_last_index_ent(prev, k);
                assert((exists|j: int|
                    0 <= j < prev.len() && is_last_ent(prev, j) && prev[j].id == k)
                    && !ent_map(curr).contains_key(k));
                assert(!t.dom().contains(k));
                assert(false);
            } else {
                assert(!w1.dom().contains(k));
                assert(!t.dom().contains(k));
                assert(false);
            }
        }
    }
    assert forall|k: EntityId| #[trigger] wc.dom().contains(k) implies t.dom().contains(k) by {
        lemma_ent_map_last(curr, k);
        let j = last_index_ent(curr, k);
        lemma_last_index_ent(curr, k);
        assert(exists|j2: int| 0 <= j2 < curr.len() && is_last_ent(curr, j2) && curr[j2].id == k)
            by {
            assert(0 <= j < curr.len() && is_last_ent(curr, j) && curr[j].id == k);
        }
        if !ent_map(prev).contains_key(k) {
            assert(w1.dom().contains(k));
        } else {
            assert(w0.dom().contains(k));
            assert(w1.dom().contains(k));
        }
        assert(t.dom().contains(k) == w1.dom().contains(k));
    }
    assert(t.dom() =~= wc.dom());
}


/// How a receiver folds field transitions into a `Structured` component's
/// field mapping: a `Null` new value removes the field, anything else sets
/// it.
pub open spec fn apply_field_deltas(
    m: Map<Seq<char>, FieldValueV>,
    fds: Seq<FieldDeltaV>,
) -> Map<Seq<char>, FieldValueV>
    decreases fds.len(),
{
    if fds.len() == 0 {
        m
    } else {
        let head = fds.first();
        let m2 = if head.new_value is Null {
            m.remove(head.field_id)
        } else {
            m.insert(head.field_id, head.new_value)
        };
        apply_field_deltas(m2, fds.drop_first())
    }
}

/// Applying a concatenation applies the parts in order.
pub proof fn lemma_apply_fds_concat(
    m: Map<Seq<char>, FieldValueV>,
    a: Seq<FieldDeltaV>,
    b: Seq<FieldDeltaV>,
)
    ensures
        apply_field_deltas(m, a + b) == apply_field_deltas(apply_field_deltas(m, a), b),
    decreases a.len(),
{
    if a.len() == 0 {
        assert(a + b =~= b);
    } else {
        assert((a + b).first() == a.first());
        assert((a + b).drop_first() =~= a.drop_first() + b);
        let head = a.first();
        let m2 = if head.new_value is Null {
            m.remove(head.field_id)
        } else {
            m.insert(head.field_id, head.new_value)
        };
        lemma_apply_fds_concat(m2, a.drop_first(), b);
    }
}

/// `m` after the update transitions of the scan from index `i`.
pub open spec fn upd_fields(
    m: Map<Seq<char>, FieldValueV>,
    prev: Seq<(Seq<char>, FieldValueV)>,
    curr: Seq<(Seq<char>, FieldValueV)>,
    i: int,
) -> Map<Seq<char>, FieldValueV>
    decreases curr.len() - i,
{
    if i < 0 || i >= curr.len() {
        m
    } else if is_last_field(curr, i) && !(field_map(prev).contains_key(curr[i].0) && field_map(
        prev,
    )[curr[i].0] == curr[i].1) {
        upd_fields(m.insert(curr[i].0, curr[i].1), prev, curr, i + 1)
    } else {
        upd_fields(m, prev, curr, i + 1)
    }
}

/// `m` after the removal transitions of the scan from index `i`.
pub open spec fn rem_fields(
    m: Map<Seq<char>, FieldValueV>,
    prev: Seq<(Seq<char>, FieldValueV)>,
    curr: Seq<(Seq<char>, FieldValueV)>,
    i: int,
) -> Map<Seq<char>, FieldValueV>
    decreases prev.len() - i,
{
    if i < 0 || i >= prev.len() {
        m
    } else if is_last_field(prev, i) && !field_map(curr).contains_key(prev[i].0) {
        rem_fields(m.remove(prev[i].0), prev, curr, i + 1)
    } else {
        rem_fields(m, prev, curr, i + 1)
    }
}

proof fn lemma_apply_field_updates(
    m: Map<Seq<char>, FieldValueV>,
    prev: Seq<(Seq<char>, FieldValueV)>,
    curr: Seq<(Seq<char>, FieldValueV)>,
    i: int,
)
    requires
        0 <= i,
        forall|j: int| 0 <= j < curr.len() ==> !((#[trigger] curr[j].1) is Null),
    ensures
        apply_field_deltas(m, spec_field_updates(prev, curr, i)) == upd_fields(m, prev, curr, i),
    decreases curr.len() - i,
{
    if i < curr.len() {
        let fds = spec_field_updates(prev, curr, i);
        let rest = spec_field_updates(prev, curr, i + 1);
        if is_last_field(curr, i) && !(field_map(prev).contains_key(curr[i].0) && field_map(
            prev,
        )[curr[i].0] == curr[i].1) {
            let fdv = if !field_map(prev).contains_key(curr[i].0) {
                FieldDeltaV { field_id: curr[i].0, old_value: None, new_value: curr[i].1 }
            } else {
                FieldDeltaV {
                    field_id: curr[i].0,
                    old_value: Some(field_map(prev)[curr[i].0]),
                    new_value: curr[i].1,
                }
            };
            assert(fds == seq![fdv] + rest);
            assert(fds.first() == fdv);
            assert(fds.drop_first() =~= rest);
            assert(!(fdv.new_value is Null));
            lemma_apply_field_updates(m.insert(curr[i].0, curr[i].1), prev, curr, i + 1);
        } else {
            assert(fds =~= rest);
            lemma_apply_field_updates(m, prev, curr, i + 1);
        }
    }
}

proof fn lemma_apply_field_removals(
    m: Map<Seq<char>, FieldValueV>,
    prev: Seq<(Seq<char>, FieldValueV)>,
    curr: Seq<(Seq<char>, FieldValueV)>,
    i: int,
)
    requires
        0 <= i,
    ensures
        apply_field_deltas(m, spec_field_removals(prev, curr, i)) == rem_fields(m, prev, curr, i),
    decreases prev.len() - i,
{
    if i < prev.len() {
        let fds = spec_field_removals(prev, curr, i);
        let rest = spec_field_removals(prev, curr, i + 1);
        if is_last_field(prev, i) && !field_map(curr).contains_key(prev[i].0) {
            let fdv = FieldDeltaV {
                field_id: prev[i].0,
                old_value: Some(field_map(prev)[prev[i].0]),
                new_value: FieldValueV::Null,
            };
            assert(fds == seq![fdv] + rest);
            assert(fds.first() == fdv);
            assert(fds.drop_first() =~= rest);
            lemma_apply_field_removals(m.remove(prev[i].0), prev, curr, i + 1);
        } else {
            assert(fds =~= rest);
            lemma_apply_field_removals(m, prev, curr, i + 1);
        }
    }
}

#[verifier::rlimit(100)]
#[verifier::spinoff_prover]
proof fn lemma_upd_fields_char(
    m: Map<Seq<char>, FieldValueV>,
    prev: Seq<(Seq<char>, FieldValueV)>,
    curr: Seq<(Seq<char>, FieldValueV)>,
    i: int,
)
    requires
        0 <= i,
    ensures
        forall|k: Seq<char>|
            #![trigger upd_fields(m, prev, curr, i).dom().contains(k)]
            {
                let out = upd_fields(m, prev, curr, i);
                if exists|j: int| i <= j < curr.len() && is_last_field(curr, j) && curr[j].0
                    == k {
                    let j = choose|j: int|
                        i <= j < curr.len() && is_last_field(curr, j) && curr[j].0 == k;
                    if field_map(prev).contains_key(k) && field_map(prev)[k] == curr[j].1 {
                        out.dom().contains(k) == m.dom().contains(k) && (m.dom().contains(k)
                            ==> out[k] == m[k])
                    } else {
                        out.dom().contains(k) && out[k] == curr[j].1
                    }
                } else {
                    out.dom().contains(k) == m.dom().contains(k) && (m.dom().contains(k) ==> out[k]
                        == m[k])
                }
            },
    decreases curr.len() - i,
{
    if i >= curr.len() {
        assert(upd_fields(m, prev, curr, i) == m);
    }
    if i < curr.len() {
        if is_last_field(curr, i) && !(field_map(prev).contains_key(curr[i].0) && field_map(
            prev,
        )[curr[i].0] == curr[i].1) {
            lemma_upd_fields_char(m.insert(curr[i].0, curr[i].1), prev, curr, i + 1);
        } else {
            lemma_upd_fields_char(m, prev, curr, i + 1);
        }
        assert forall|k: Seq<char>|
            #![trigger upd_fields(m, prev, curr, i).dom().contains(k)]
            true implies {
            let out = upd_fields(m, prev, curr, i);
            if exists|j: int| i <= j < curr.len() && is_last_field(curr, j) && curr[j].0 == k {
                let j = choose|j: int|
                    i <= j < curr.len() && is_last_field(curr, j) && curr[j].0 == k;
                if field_map(prev).contains_key(k) && field_map(prev)[k] == curr[j].1 {
                    out.dom().contains(k) == m.dom().contains(k) && (m.dom().contains(k)
                        ==> out[k] == m[k])
                } else {
                    out.dom().contains(k) && out[k] == curr[j].1
                }
            } else {
                out.dom().contains(k) == m.dom().contains(k) && (m.dom().contains(k) ==> out[k]
                    == m[k])
            }
        } by {
            let out = upd_fields(m, prev, curr, i);
            assert(forall|j1: int, j2: int|
                i <= j1 < curr.len() && i <= j2 < curr.len() && is_last_field(curr, j1)
                    && is_last_field(curr, j2) && #[trigger] (curr[j1].0) == #[trigger] (
                curr[j2].0) ==> j1 == j2);
            if is_last_field(curr, i) {
                let w2 = if !(field_map(prev).contains_key(curr[i].0) && field_map(
                    prev,
                )[curr[i].0] == curr[i].1) {
                    m.insert(curr[i].0, curr[i].1)
                } else {
                    m
                };
                let out2 = upd_fields(w2, prev, curr, i + 1);
                assert(out == out2);
                assert(out2.dom().contains(k) == out.dom().contains(k));
                if exists|j: int| i <= j < curr.len() && is_last_field(curr, j) && curr[j].0
                    == k {
                    let j = choose|j: int|
                        i <= j < curr.len() && is_last_field(curr, j) && curr[j].0 == k;
                    if j == i {
                        assert(k == curr[i].0);
                        assert(!(exists|j2: int|
                            i + 1 <= j2 < curr.len() && is_last_field(curr, j2) && curr[j2].0
                                == k));
                    } else {
                        assert(curr[i].0 != k);
                        assert(exists|j2: int|
                            i + 1 <= j2 < curr.len() && is_last_field(curr, j2) && curr[j2].0
                                == k) by {
                            assert(i + 1 <= j < curr.len() && is_last_field(curr, j)
                                && curr[j].0 == k);
                        }
                        let j2 = choose|j2: int|
                            i + 1 <= j2 < curr.len() && is_last_field(curr, j2) && curr[j2].0
                                == k;
                        assert(j2 == j);
                        assert(w2.dom().contains(k) == m.dom().contains(k) && (m.dom().contains(
                            k,
                        ) ==> w2[k] == m[k]));
                    }
                } else {
                    assert(curr[i].0 != k) by {
                        if curr[i].0 == k {
                            assert(i <= i < curr.len() && is_last_field(curr, i) && curr[i].0
                                == k);
                        }
                    }
                    assert(w2.dom().contains(k) == m.dom().contains(k) && (m.dom().contains(k)
                        ==> w2[k] == m[k]));
                }
            } else {
                let out2 = upd_fields(m, prev, curr, i + 1);
                assert(out == out2);
                assert(out2.dom().contains(k) == out.dom().contains(k));
                if exists|j: int| i <= j < curr.len() && is_last_field(curr, j) && curr[j].0
                    == k {
                    let j = choose|j: int|
                        i <= j < curr.len() && is_last_field(curr, j) && curr[j].0 == k;
                    assert(j != i);
                    assert(exists|j2: int|
                        i + 1 <= j2 < curr.len() && is_last_field(curr, j2) && curr[j2].0 == k)
                        by {
                        assert(i + 1 <= j < curr.len() && is_last_field(curr, j) && curr[j].0
                            == k);
                    }
                    let j2 = choose|j2: int|
                        i + 1 <= j2 < curr.len() && is_last_field(curr, j2) && curr[j2].0 == k;
                    assert(j2 == j);
                }
            }
        }
    }
}

#[verifier::rlimit(100)]
#[verifier::spinoff_prover]
proof fn lemma_rem_fields_char(
    m: Map<Seq<char>, FieldValueV>,
    prev: Seq<(Seq<char>, FieldValueV)>,
    curr: Seq<(Seq<char>, FieldValueV)>,
    i: int,
)
    requires
        0 <= i,
    ensures
        forall|k: Seq<char>|
            #![trigger rem_fields(m, prev, curr, i).dom().contains(k)]
            {
                let out = rem_fields(m, prev, curr, i);
                if (exists|j: int| i <= j < prev.len() && is_last_field(prev, j) && prev[j].0
                    == k) && !field_map(curr).contains_key(k) {
                    !out.dom().contains(k)
                } else {
                    out.dom().contains(k) == m.dom().contains(k) && (m.dom().contains(k) ==> out[k]
                        == m[k])
                }
            },
    decreases prev.len() - i,
{
    if i >= prev.len() {
        assert(rem_fields(m, prev, curr, i) == m);
    }
    if i < prev.len() {
        if is_last_field(prev, i) && !field_map(curr).contains_key(prev[i].0) {
            lemma_rem_fields_char(m.remove(prev[i].0), prev, curr, i + 1);
        } else {
            lemma_rem_fields_char(m, prev, curr, i + 1);
        }
        assert forall|k: Seq<char>|
            #![trigger rem_fields(m, prev, curr, i).dom().contains(k)]
            true implies {
            let out = rem_fields(m, prev, curr, i);
            if (exists|j: int| i <= j < prev.len() && is_last_field(prev, j) && prev[j].0 == k)
                && !field_map(curr).contains_key(k) {
                !out.dom().contains(k)
            } else {
                out.dom().contains(k) == m.dom().contains(k) && (m.dom().contains(k) ==> out[k]
                    == m[k])
            }
        } by {
            let out = rem_fields(m, prev, curr, i);
            assert(forall|j1: int, j2: int|
                i <= j1 < prev.len() && i <= j2 < prev.len() && is_last_field(prev, j1)
                    && is_last_field(prev, j2) && #[trigger] (prev[j1].0) == #[trigger] (
                prev[j2].0) ==> j1 == j2);
            if is_last_field(prev, i) && !field_map(curr).contains_key(prev[i].0) {
                let m2 = m.remove(prev[i].0);
                let out2 = rem_fields(m2, prev, curr, i + 1);
                assert(out == out2);
                assert(out2.dom().contains(k) == out.dom().contains(k));
                if (exists|j: int| i <= j < prev.len() && is_last_field(prev, j) && prev[j].0
                    == k) && !field_map(curr).contains_key(k) {
                    let j = choose|j: int|
                        i <= j < prev.len() && is_last_field(prev, j) && prev[j].0 == k;
                    if j == i {
                        assert(k == prev[i].0);
                        assert(!(exists|j2: int|
                            i + 1 <= j2 < prev.len() && is_last_field(prev, j2) && prev[j2].0
                                == k));
                        assert(!m2.dom().contains(k));
                    } else {
                        assert(prev[i].0 != k);
                        assert(exists|j2: int|
                            i + 1 <= j2 < prev.len() && is_last_field(prev, j2) && prev[j2].0
                                == k) by {
                            assert(i + 1 <= j < prev.len() && is_last_field(prev, j)
                                && prev[j].0 == k);
                        }
                    }
                } else {
                    if k == prev[i].0 {
                        assert(i <= i < prev.len() && is_last_field(prev, i) && prev[i].0 == k);
                        assert(false);
                    } else {
                        assert(m2.dom().contains(k) == m.dom().contains(k) && (m.dom().contains(
                            k,
                        ) ==> m2[k] == m[k]));
                        if exists|j2: int|
                            i + 1 <= j2 < prev.len() && is_last_field(prev, j2) && prev[j2].0
                                == k {
                            let j2 = choose|j2: int|
                                i + 1 <= j2 < prev.len() && is_last_field(prev, j2) && prev[j2].0
                                    == k;
                            assert(i <= j2 < prev.len() && is_last_field(prev, j2) && prev[j2].0
                                == k);
                            assert(field_map(curr).contains_key(k));
                        }
                    }
                }
            } else {
                let out2 = rem_fields(m, prev, curr, i + 1);
                assert(out == out2);
                assert(out2.dom().contains(k) == out.dom().contains(k));
                if (exists|j: int| i <= j < prev.len() && is_last_field(prev, j) && prev[j].0
                    == k) && !field_map(curr).contains_key(k) {
                    let j = choose|j: int|
                        i <= j < prev.len() && is_last_field(prev, j) && prev[j].0 == k;
                    assert(j != i) by {
                        if j == i {
                            assert(is_last_field(prev, i));
                            lemma_field_map_last(curr, k);
                        }
                    }
                    assert(exists|j2: int|
                        i + 1 <= j2 < prev.len() && is_last_field(prev, j2) && prev[j2].0 == k)
                        by {
                        assert(i + 1 <= j < prev.len() && is_last_field(prev, j) && prev[j].0
                            == k);
                    }
                }
            }
        }
    }
}

/// The index of the last occurrence of field name `k`.
pub open spec fn last_index_field(pairs: Seq<(Seq<char>, FieldValueV)>, k: Seq<char>) -> int
    decreases pairs.len(),
{
    if pairs.len() == 0 {
        0
    } else if pairs.last().0 == k {
        pairs.len() - 1
    } else {
        last_index_field(pairs.drop_last(), k)
    }
}

/// When some pair carries name `k`, `last_index_field` names its last
/// occurrence.
pub proof fn lemma_last_index_field(pairs: Seq<(Seq<char>, FieldValueV)>, k: Seq<char>)
    requires
        exists|i: int| 0 <= i < pairs.len() && pairs[i].0 == k,
    ensures
        0 <= last_index_field(pairs, k) < pairs.len(),
        pairs[last_index_field(pairs, k)].0 == k,
        is_last_field(pairs, last_index_field(pairs, k)),
    decreases pairs.len(),
{
    if pairs.last().0 == k {
    } else {
        let i = choose|i: int| 0 <= i < pairs.len() && pairs[i].0 == k;
        assert(i < pairs.len() - 1);
        assert(pairs.drop_last()[i] == pairs[i]);
        lemma_last_index_field(pairs.drop_last(), k);
        let l = last_index_field(pairs.drop_last(), k);
        assert(pairs.drop_last()[l] == pairs[l]);
        assert forall|j: int| l < j < pairs.len() implies pairs[j].0 != pairs[l].0 by {
            if j < pairs.len() - 1 {
                assert(pairs.drop_last()[j] == pairs[j]);
            }
        }
    }
}

/// Field-level delta soundness: as long as the current component gives no
/// field the value `Null` — the one value the wire cannot tell from a
/// removal — applying the computed field transitions to the previous field
/// mapping reconstructs the current one exactly.
pub proof fn lemma_field_deltas_sound(
    prev: Seq<(Seq<char>, FieldValueV)>,
    curr: Seq<(Seq<char>, FieldValueV)>,
)
    requires
        forall|j: int| 0 <= j < curr.len() ==> !((#[trigger] curr[j].1) is Null),
    ensures
        apply_field_deltas(field_map(prev), spec_field_deltas(prev, curr)) == field_map(curr),
{
    let pm = field_map(prev);
    let cm = field_map(curr);
    lemma_apply_fds_concat(pm, spec_field_updates(prev, curr, 0), spec_field_removals(prev, curr, 0));
    lemma_apply_field_updates(pm, prev, curr, 0);
    let mid = upd_fields(pm, prev, curr, 0);
    lemma_apply_field_removals(mid, prev, curr, 0);
    let out = rem_fields(mid, prev, curr, 0);
    lemma_upd_fields_char(pm, prev, curr, 0);
    lemma_rem_fields_char(mid, prev, curr, 0);
    assert forall|k: Seq<char>| #[trigger] out.dom().contains(k) implies cm.dom().contains(k)
        && out[k] == cm[k] by {
        lemma_field_map_last(curr, k);
        lemma_field_map_last(prev, k);
        if exists|j: int| 0 <= j < curr.len() && is_last_field(curr, j) && curr[j].0 == k {
            let j = choose|j: int| 0 <= j < curr.len() && is_last_field(curr, j) && curr[j].0 == k;
            assert(cm.contains_key(k) && cm[k] == curr[j].1);
            if pm.contains_key(k) && pm[k] == curr[j].1 {
                assert(mid.dom().contains(k) == pm.dom().contains(k));
                assert(out[k] == pm[k]);
            } else {
                assert(mid[k] == curr[j].1);
                assert(out[k] == curr[j].1);
            }
        } else {
            assert(!cm.contains_key(k)) by {
                if cm.contains_key(k) {
                    lemma_last_index_field(curr, k);
                }
            }
            assert(mid.dom().contains(k) == pm.dom().contains(k));
            assert(pm.contains_key(k));
            lemma_last_index_field(prev, k);
            assert(!out.dom().contains(k));
            assert(false);
        }
    }
    assert forall|k: Seq<char>| #[trigger] cm.dom().contains(k) implies out.dom().contains(k) by {
        lemma_field_map_last(curr, k);
        lemma_last_index_field(curr, k);
        let j = last_index_field(curr, k);
        assert(exists|j2: int| 0 <= j2 < curr.len() && is_last_field(curr, j2) && curr[j2].0 == k)
            by {
            assert(0 <= j < curr.len() && is_last_field(curr, j) && curr[j].0 == k);
        }
        if pm.contains_key(k) && pm[k] == curr[j as int].1 {
            assert(mid.dom().contains(k));
        } else {
            assert(mid.dom().contains(k));
        }
        assert(out.dom().contains(k) == mid.dom().contains(k));
    }
    assert(out.dom() =~= cm.dom());
    assert(out =~= cm);
}


/// A component's payload up to the diff's own equality: `Structured`
/// payloads collapse to their field mapping, so two payloads are
/// `spec_data_equal` exactly when their models are equal.
pub enum ComponentModel {
    Binary(Seq<u8>),
    Json(Seq<char>),
    Structured(Map<Seq<char>, FieldValueV>),
}

pub open spec fn data_model(d: ComponentDataV) -> ComponentModel {
    match d {
        ComponentDataV::Binary(b) => ComponentModel::Binary(b),
        ComponentDataV::Json(s) => ComponentModel::Json(s),
        ComponentDataV::Structured(p) => ComponentModel::Structured(field_map(p)),
    }
}

/// The diff's payload equality is exactly model equality.
pub proof fn lemma_data_equal_model(a: ComponentDataV, b: ComponentDataV)
    ensures
        spec_data_equal(a, b) <==> data_model(a) == data_model(b),
{
}

/// The component model mapping an entity's component list denotes.
pub open spec fn comp_model_map(cs: Seq<SerializedComponentV>) -> Map<Seq<char>, ComponentModel>
    decreases cs.len(),
{
    if cs.len() == 0 {
        Map::empty()
    } else {
        comp_model_map(cs.drop_last()).insert(cs.last().id, data_model(cs.last().data))
    }
}

/// `comp_model_map` is `comp_map` with each payload taken to its model.
pub proof fn lemma_comp_model_map(cs: Seq<SerializedComponentV>)
    ensures
        comp_model_map(cs).dom() == comp_map(cs).dom(),
        forall|k: Seq<char>|
            #[trigger] comp_model_map(cs).contains_key(k) ==> comp_model_map(cs)[k] == data_model(
                comp_map(cs)[k],
            ),
    decreases cs.len(),
{
    if cs.len() > 0 {
        lemma_comp_model_map(cs.drop_last());
        assert(comp_model_map(cs).dom() =~= comp_map(cs).dom());
    } else {
        assert(comp_model_map(cs).dom() =~= comp_map(cs).dom());
    }
}

/// No component payload is a JSON text.
pub open spec fn json_free(cs: Seq<SerializedComponentV>) -> bool {
    forall|i: int| 0 <= i < cs.len() ==> !((#[trigger] cs[i].data) is Json)
}

/// No `Structured` payload gives a field the value `Null`.
pub open spec fn null_free(cs: Seq<SerializedComponentV>) -> bool {
    forall|i: int|
        0 <= i < cs.len() ==> match #[trigger] cs[i].data {
            ComponentDataV::Structured(p) => forall|j: int|
                0 <= j < p.len() ==> !((#[trigger] p[j].1) is Null),
            _ => true,
        }
}

/// How a receiver with a field-level world folds one change in: like
/// `apply_change`, but `Structured` payloads live as field mappings and a
/// `FieldsUpdated` patches the mapping field by field.
pub open spec fn apply_model_change(
    w: Map<EntityId, Map<Seq<char>, ComponentModel>>,
    c: DeltaChangeV,
) -> Map<EntityId, Map<Seq<char>, ComponentModel>> {
    match c {
        DeltaChangeV::EntityAdded { entity_id } => w.insert(entity_id, Map::empty()),
        DeltaChangeV::EntityRemoved { entity_id } => w.remove(entity_id),
        DeltaChangeV::ComponentAdded { entity_id, component_id, data } => if w.contains_key(
            entity_id,
        ) {
            w.insert(entity_id, w[entity_id].insert(component_id, data_model(data)))
        } else {
            w
        },
        DeltaChangeV::ComponentUpdated { entity_id, component_id, data } => if w.contains_key(
            entity_id,
        ) {
            w.insert(entity_id, w[entity_id].insert(component_id, data_model(data)))
        } else {
            w
        },
        DeltaChangeV::ComponentRemoved { entity_id, component_id } => if w.contains_key(
            entity_id,
        ) {
            w.insert(entity_id, w[entity_id].remove(component_id))
        } else {
            w
        },
        DeltaChangeV::FieldsUpdated { entity_id, component_id, fields } => if w.contains_key(
            entity_id,
        ) && w[entity_id].contains_key(component_id) && w[entity_id][component_id] is Structured {
            w.insert(
                entity_id,
                w[entity_id].insert(
                    component_id,
                    ComponentModel::Structured(
                        apply_field_deltas(w[entity_id][component_id]->Structured_0, fields),
                    ),
                ),
            )
        } else {
            w
        },
    }
}

/// Fold a whole change sequence into the field-level world, in order.
pub open spec fn apply_model_changes(
    w: Map<EntityId, Map<Seq<char>, ComponentModel>>,
    cs: Seq<DeltaChangeV>,
) -> Map<EntityId, Map<Seq<char>, ComponentModel>>
    decreases cs.len(),
{
    if cs.len() == 0 {
        w
    } else {
        apply_model_changes(apply_model_change(w, cs.first()), cs.drop_first())
    }
}

/// Applying a concatenation applies the parts in order.
pub proof fn lemma_apply_model_changes_concat(
    w: Map<EntityId, Map<Seq<char>, ComponentModel>>,
    a: Seq<DeltaChangeV>,
    b: Seq<DeltaChangeV>,
)
    ensures
        apply_model_changes(w, a + b) == apply_model_changes(apply_model_changes(w, a), b),
    decreases a.len(),
{
    if a.len() == 0 {
        assert(a + b =~= b);
    } else {
        assert((a + b).first() == a.first());
        assert((a + b).drop_first() =~= a.drop_first() + b);
        lemma_apply_model_changes_concat(apply_model_change(w, a.first()), a.drop_first(), b);
    }
}


/// What the component-update changes leave of an entity's model mapping.
pub open spec fn upd_models(
    m: Map<Seq<char>, ComponentModel>,
    pcs: Seq<SerializedComponentV>,
    ccs: Seq<SerializedComponentV>,
    i: int,
) -> Map<Seq<char>, ComponentModel>
    decreases ccs.len() - i,
{
    if i < 0 || i >= ccs.len() {
        m
    } else if is_last_comp(ccs, i) {
        let c = ccs[i];
        if comp_map(pcs).contains_key(c.id) && spec_data_equal(comp_map(pcs)[c.id], c.data) {
            upd_models(m, pcs, ccs, i + 1)
        } else {
            upd_models(m.insert(c.id, data_model(c.data)), pcs, ccs, i + 1)
        }
    } else {
        upd_models(m, pcs, ccs, i + 1)
    }
}

/// What the component-removal changes leave of the model mapping.
pub open spec fn rem_models(
    m: Map<Seq<char>, ComponentModel>,
    pcs: Seq<SerializedComponentV>,
    ccs: Seq<SerializedComponentV>,
    i: int,
) -> Map<Seq<char>, ComponentModel>
    decreases pcs.len() - i,
{
    if i < 0 || i >= pcs.len() {
        m
    } else if is_last_comp(pcs, i) && !comp_map(ccs).contains_key(pcs[i].id) {
        rem_models(m.remove(pcs[i].id), pcs, ccs, i + 1)
    } else {
        rem_models(m, pcs, ccs, i + 1)
    }
}

#[verifier::rlimit(100)]
#[verifier::spinoff_prover]
proof fn lemma_apply_model_comp_updates(
    w: Map<EntityId, Map<Seq<char>, ComponentModel>>,
    eid: EntityId,
    m: Map<Seq<char>, ComponentModel>,
    pcs: Seq<SerializedComponentV>,
    ccs: Seq<SerializedComponentV>,
    i: int,
)
    requires
        0 <= i,
        w.contains_key(eid),
        w[eid] == m,
        json_free(ccs),
        null_free(ccs),
        forall|j: int|
            i <= j < ccs.len() && is_last_comp(ccs, j) && comp_map(pcs).contains_key(
                #[trigger] ccs[j].id,
            ) ==> m.contains_key(ccs[j].id) && m[ccs[j].id] == data_model(
                comp_map(pcs)[ccs[j].id],
            ),
    ensures
        apply_model_changes(w, spec_comp_updates(true, eid, pcs, ccs, i)) == w.insert(
            eid,
            upd_models(m, pcs, ccs, i),
        ),
    decreases ccs.len() - i,
{
    let changes = spec_comp_updates(true, eid, pcs, ccs, i);
    if i >= ccs.len() {
        assert(w.insert(eid, m) =~= w);
    } else {
        let rest = spec_comp_updates(true, eid, pcs, ccs, i + 1);
        if is_last_comp(ccs, i) {
            let c = ccs[i];
            // a later last occurrence never repeats this id
            assert(forall|j: int|
                i + 1 <= j < ccs.len() && is_last_comp(ccs, j) ==> (#[trigger] ccs[j].id)
                    != c.id);
            if !comp_map(pcs).contains_key(c.id) {
                let dcv = DeltaChangeV::ComponentAdded {
                    entity_id: eid,
                    component_id: c.id,
                    data: c.data,
                };
                assert(changes == seq![dcv] + rest);
                assert(changes.first() == dcv);
                assert(changes.drop_first() =~= rest);
                let m1 = m.insert(c.id, data_model(c.data));
                let w1 = w.insert(eid, m1);
                assert(apply_model_change(w, dcv) == w1);
                lemma_apply_model_comp_updates(w1, eid, m1, pcs, ccs, i + 1);
                assert(w1.insert(eid, upd_models(m1, pcs, ccs, i + 1)) =~= w.insert(
                    eid,
                    upd_models(m, pcs, ccs, i),
                ));
            } else if spec_data_equal(comp_map(pcs)[c.id], c.data) {
                assert(changes =~= rest);
                lemma_apply_model_comp_updates(w, eid, m, pcs, ccs, i + 1);
            } else {
                let fd = spec_field_deltas_opt(true, comp_map(pcs)[c.id], c.data);
                let m1 = m.insert(c.id, data_model(c.data));
                let w1 = w.insert(eid, m1);
                if fd is Some && fd->Some_0.len() > 0 {
                    let dcv = DeltaChangeV::FieldsUpdated {
                        entity_id: eid,
                        component_id: c.id,
                        fields: fd->Some_0,
                    };
                    assert(changes == seq![dcv] + rest);
                    assert(changes.first() == dcv);
                    assert(changes.drop_first() =~= rest);
                    // with a Json-free current side the diff came from two
                    // structured payloads, and the patch rebuilds the
                    // current field mapping
                    assert(!(c.data is Json));
                    let pd = comp_map(pcs)[c.id];
                    assert(pd is Structured && c.data is Structured);
                    let pp = pd->Structured_0;
                    let cp = c.data->Structured_0;
                    assert(fd->Some_0 == spec_field_deltas(pp, cp));
                    assert(m.contains_key(c.id) && m[c.id] == data_model(pd));
                    assert(m[c.id] is Structured && m[c.id]->Structured_0 == field_map(pp));
                    assert(forall|j: int| 0 <= j < cp.len() ==> !((#[trigger] cp[j].1) is Null));
                    lemma_field_deltas_sound(pp, cp);
                    assert(apply_field_deltas(field_map(pp), fd->Some_0) == field_map(cp));
                    assert(apply_model_change(w, dcv) == w1);
                    lemma_apply_model_comp_updates(w1, eid, m1, pcs, ccs, i + 1);
                    assert(w1.insert(eid, upd_models(m1, pcs, ccs, i + 1)) =~= w.insert(
                        eid,
                        upd_models(m, pcs, ccs, i),
                    ));
                } else {
                    let dcv = DeltaChangeV::ComponentUpdated {
                        entity_id: eid,
                        component_id: c.id,
                        data: c.data,
                    };
                    assert(changes == seq![dcv] + rest);
                    assert(changes.first() == dcv);
                    assert(changes.drop_first() =~= rest);
                    assert(apply_model_change(w, dcv) == w1);
                    lemma_apply_model_comp_updates(w1, eid, m1, pcs, ccs, i + 1);
                    assert(w1.insert(eid, upd_models(m1, pcs, ccs, i + 1)) =~= w.insert(
                        eid,
                        upd_models(m, pcs, ccs, i),
                    ));
                }
            }
        } else {
            assert(changes =~= rest);
            lemma_apply_model_comp_updates(w, eid, m, pcs, ccs, i + 1);
        }
    }
}

proof fn lemma_apply_model_comp_removals(
    w: Map<EntityId, Map<Seq<char>, ComponentModel>>,
    eid: EntityId,
    m: Map<Seq<char>, ComponentModel>,
    pcs: Seq<SerializedComponentV>,
    ccs: Seq<SerializedComponentV>,
    i: int,
)
    requires
        0 <= i,
        w.contains_key(eid),
        w[eid] == m,
    ensures
        apply_model_changes(w, spec_comp_removals(eid, pcs, ccs, i)) == w.insert(
            eid,
            rem_models(m, pcs, ccs, i),
        ),
    decreases pcs.len() - i,
{
    let changes = spec_comp_removals(eid, pcs, ccs, i);
    if i >= pcs.len() {
        assert(w.insert(eid, m) =~= w);
    } else {
        let rest = spec_comp_removals(eid, pcs, ccs, i + 1);
        if is_last_comp(pcs, i) && !comp_map(ccs).contains_key(pcs[i].id) {
            let dcv = DeltaChangeV::ComponentRemoved { entity_id: eid, component_id: pcs[i].id };
            assert(changes == seq![dcv] + rest);
            assert(changes.first() == dcv);
            assert(changes.drop_first() =~= rest);
            let w1 = w.insert(eid, m.remove(pcs[i].id));
            assert(apply_model_change(w, dcv) == w1);
            lemma_apply_model_comp_removals(w1, eid, m.remove(pcs[i].id), pcs, ccs, i + 1);
            assert(w1.insert(eid, rem_models(m.remove(pcs[i].id), pcs, ccs, i + 1)) =~= w.insert(
                eid,
                rem_models(m, pcs, ccs, i),
            ));
        } else {
            assert(changes =~= rest);
            lemma_apply_model_comp_removals(w, eid, m, pcs, ccs, i + 1);
        }
    }
}


#[verifier::rlimit(100)]
#[verifier::spinoff_prover]
proof fn lemma_upd_models_char(
    m: Map<Seq<char>, ComponentModel>,
    pcs: Seq<SerializedComponentV>,
    ccs: Seq<SerializedComponentV>,
    i: int,
)
    requires
        0 <= i,
    ensures
        forall|k: Seq<char>|
            #![trigger upd_models(m, pcs, ccs, i).dom().contains(k)]
            {
                let out = upd_models(m, pcs, ccs, i);
                if exists|j: int| i <= j < ccs.len() && is_last_comp(ccs, j) && ccs[j].id == k {
                    let j = choose|j: int|
                        i <= j < ccs.len() && is_last_comp(ccs, j) && ccs[j].id == k;
                    if comp_map(pcs).contains_key(k) && spec_data_equal(
                        comp_map(pcs)[k],
                        ccs[j].data,
                    ) {
                        out.dom().contains(k) == m.dom().contains(k) && (m.dom().contains(k)
                            ==> out[k] == m[k])
                    } else {
                        out.dom().contains(k) && out[k] == data_model(ccs[j].data)
                    }
                } else {
                    out.dom().contains(k) == m.dom().contains(k) && (m.dom().contains(k) ==> out[k]
                        == m[k])
                }
            },
    decreases ccs.len() - i,
{
    if i >= ccs.len() {
        assert(upd_models(m, pcs, ccs, i) == m);
    }
    if i < ccs.len() {
        if is_last_comp(ccs, i) {
            let c = ccs[i];
            if comp_map(pcs).contains_key(c.id) && spec_data_equal(comp_map(pcs)[c.id], c.data) {
                lemma_upd_models_char(m, pcs, ccs, i + 1);
            } else {
                lemma_upd_models_char(m.insert(c.id, data_model(c.data)), pcs, ccs, i + 1);
            }
        } else {
            lemma_upd_models_char(m, pcs, ccs, i + 1);
        }
        assert forall|k: Seq<char>|
            #![trigger upd_models(m, pcs, ccs, i).dom().contains(k)]
            true implies {
            let out = upd_models(m, pcs, ccs, i);
            if exists|j: int| i <= j < ccs.len() && is_last_comp(ccs, j) && ccs[j].id == k {
                let j = choose|j: int|
                    i <= j < ccs.len() && is_last_comp(ccs, j) && ccs[j].id == k;
                if comp_map(pcs).contains_key(k) && spec_data_equal(comp_map(pcs)[k], ccs[j].data) {
                    out.dom().contains(k) == m.dom().contains(k) && (m.dom().contains(k)
                        ==> out[k] == m[k])
                } else {
                    out.dom().contains(k) && out[k] == data_model(ccs[j].data)
                }
            } else {
                out.dom().contains(k) == m.dom().contains(k) && (m.dom().contains(k) ==> out[k]
                    == m[k])
            }
        } by {
            let out = upd_models(m, pcs, ccs, i);
            assert(forall|j1: int, j2: int|
                i <= j1 < ccs.len() && i <= j2 < ccs.len() && is_last_comp(ccs, j1)
                    && is_last_comp(ccs, j2) && #[trigger] (ccs[j1].id) == #[trigger] (
                ccs[j2].id) ==> j1 == j2);
            if is_last_comp(ccs, i) {
                let c = ccs[i];
                if comp_map(pcs).contains_key(c.id) && spec_data_equal(
                    comp_map(pcs)[c.id],
                    c.data,
                ) {
                    let out2 = upd_models(m, pcs, ccs, i + 1);
                    assert(out == out2);
                    assert(out2.dom().contains(k) == out.dom().contains(k));
                    if exists|j: int| i <= j < ccs.len() && is_last_comp(ccs, j) && ccs[j].id
                        == k {
                        let j = choose|j: int|
                            i <= j < ccs.len() && is_last_comp(ccs, j) && ccs[j].id == k;
                        if j == i {
                            assert(!(exists|j2: int|
                                i + 1 <= j2 < ccs.len() && is_last_comp(ccs, j2) && ccs[j2].id
                                    == k));
                        } else {
                            assert(exists|j2: int|
                                i + 1 <= j2 < ccs.len() && is_last_comp(ccs, j2) && ccs[j2].id
                                    == k) by {
                                assert(i + 1 <= j < ccs.len() && is_last_comp(ccs, j)
                                    && ccs[j].id == k);
                            }
                            let j2 = choose|j2: int|
                                i + 1 <= j2 < ccs.len() && is_last_comp(ccs, j2) && ccs[j2].id
                                    == k;
                            assert(j2 == j);
                        }
                    }
                } else {
                    let m2 = m.insert(c.id, data_model(c.data));
                    let out2 = upd_models(m2, pcs, ccs, i + 1);
                    assert(out == out2);
                    assert(out2.dom().contains(k) == out.dom().contains(k));
                    if exists|j: int| i <= j < ccs.len() && is_last_comp(ccs, j) && ccs[j].id
                        == k {
                        let j = choose|j: int|
                            i <= j < ccs.len() && is_last_comp(ccs, j) && ccs[j].id == k;
                        if j == i {
                            assert(k == c.id);
                            assert(!(exists|j2: int|
                                i + 1 <= j2 < ccs.len() && is_last_comp(ccs, j2) && ccs[j2].id
                                    == k));
                            assert(m2.dom().contains(k) && m2[k] == data_model(c.data));
                        } else {
                            assert(c.id != k);
                            assert(exists|j2: int|
                                i + 1 <= j2 < ccs.len() && is_last_comp(ccs, j2) && ccs[j2].id
                                    == k) by {
                                assert(i + 1 <= j < ccs.len() && is_last_comp(ccs, j)
                                    && ccs[j].id == k);
                            }
                            let j2 = choose|j2: int|
                                i + 1 <= j2 < ccs.len() && is_last_comp(ccs, j2) && ccs[j2].id
                                    == k;
                            assert(j2 == j);
                            assert(m2.dom().contains(k) == m.dom().contains(k));
                        }
                    } else {
                        assert(c.id != k) by {
                            if c.id == k {
                                assert(i <= i < ccs.len() && is_last_comp(ccs, i) && ccs[i].id
                                    == k);
                            }
                        }
                        assert(m2.dom().contains(k) == m.dom().contains(k) && (m.dom().contains(
                            k,
                        ) ==> m2[k] == m[k]));
                    }
                }
            } else {
                let out2 = upd_models(m, pcs, ccs, i + 1);
                assert(out == out2);
                assert(out2.dom().contains(k) == out.dom().contains(k));
                if exists|j: int| i <= j < ccs.len() && is_last_comp(ccs, j) && ccs[j].id == k {
                    let j = choose|j: int|
                        i <= j < ccs.len() && is_last_comp(ccs, j) && ccs[j].id == k;
                    assert(j != i);
                    assert(exists|j2: int|
                        i + 1 <= j2 < ccs.len() && is_last_comp(ccs, j2) && ccs[j2].id == k) by {
                        assert(i + 1 <= j < ccs.len() && is_last_comp(ccs, j) && ccs[j].id == k);
                    }
                    let j2 = choose|j2: int|
                        i + 1 <= j2 < ccs.len() && is_last_comp(ccs, j2) && ccs[j2].id == k;
                    assert(j2 == j);
                }
            }
        }
    }
}

#[verifier::rlimit(100)]
#[verifier::spinoff_prover]
proof fn lemma_rem_models_char(
    m: Map<Seq<char>, ComponentModel>,
    pcs: Seq<SerializedComponentV>,
    ccs: Seq<SerializedComponentV>,
    i: int,
)
    requires
        0 <= i,
    ensures
        forall|k: Seq<char>|
            #![trigger rem_models(m, pcs, ccs, i).dom().contains(k)]
            {
                let out = rem_models(m, pcs, ccs, i);
                if (exists|j: int| i <= j < pcs.len() && is_last_comp(pcs, j) && pcs[j].id == k)
                    && !comp_map(ccs).contains_key(k) {
                    !out.dom().contains(k)
                } else {
                    out.dom().contains(k) == m.dom().contains(k) && (m.dom().contains(k) ==> out[k]
                        == m[k])
                }
            },
    decreases pcs.len() - i,
{
    if i >= pcs.len() {
        assert(rem_models(m, pcs, ccs, i) == m);
    }
    if i < pcs.len() {
        if is_last_comp(pcs, i) && !comp_map(ccs).contains_key(pcs[i].id) {
            lemma_rem_models_char(m.remove(pcs[i].id), pcs, ccs, i + 1);
        } else {
            lemma_rem_models_char(m, pcs, ccs, i + 1);
        }
        assert forall|k: Seq<char>|
            #![trigger rem_models(m, pcs, ccs, i).dom().contains(k)]
            true implies {
            let out = rem_models(m, pcs, ccs, i);
            if (exists|j: int| i <= j < pcs.len() && is_last_comp(pcs, j) && pcs[j].id == k)
                && !comp_map(ccs).contains_key(k) {
                !out.dom().contains(k)
            } else {
                out.dom().contains(k) == m.dom().contains(k) && (m.dom().contains(k) ==> out[k]
                    == m[k])
            }
        } by {
            let out = rem_models(m, pcs, ccs, i);
            assert(forall|j1: int, j2: int|
                i <= j1 < pcs.len() && i <= j2 < pcs.len() && is_last_comp(pcs, j1)
                    && is_last_comp(pcs, j2) && #[trigger] (pcs[j1].id) == #[trigger] (
                pcs[j2].id) ==> j1 == j2);
            if is_last_comp(pcs, i) && !comp_map(ccs).contains_key(pcs[i].id) {
                let c = pcs[i];
                let m2 = m.remove(c.id);
                let out2 = rem_models(m2, pcs, ccs, i + 1);
                assert(out == out2);
                assert(out2.dom().contains(k) == out.dom().contains(k));
                if (exists|j: int| i <= j < pcs.len() && is_last_comp(pcs, j) && pcs[j].id == k)
                    && !comp_map(ccs).contains_key(k) {
                    let j = choose|j: int|
                        i <= j < pcs.len() && is_last_comp(pcs, j) && pcs[j].id == k;
                    if j == i {
                        assert(k == c.id);
                        assert(!(exists|j2: int|
                            i + 1 <= j2 < pcs.len() && is_last_comp(pcs, j2) && pcs[j2].id == k));
                        assert(!m2.dom().contains(k));
                    } else {
                        assert(c.id != k);
                        assert(exists|j2: int|
                            i + 1 <= j2 < pcs.len() && is_last_comp(pcs, j2) && pcs[j2].id
                                == k) by {
                            assert(i + 1 <= j < pcs.len() && is_last_comp(pcs, j) && pcs[j].id
                                == k);
                        }
                    }
                } else {
                    if k == c.id {
                        assert(i <= i < pcs.len() && is_last_comp(pcs, i) && pcs[i].id == k);
                        assert(false);
                    } else {
                        assert(m2.dom().contains(k) == m.dom().contains(k) && (m.dom().contains(
                            k,
                        ) ==> m2[k] == m[k]));
                        if exists|j2: int|
                            i + 1 <= j2 < pcs.len() && is_last_comp(pcs, j2) && pcs[j2].id == k {
                            let j2 = choose|j2: int|
                                i + 1 <= j2 < pcs.len() && is_last_comp(pcs, j2) && pcs[j2].id
                                    == k;
                            assert(i <= j2 < pcs.len() && is_last_comp(pcs, j2) && pcs[j2].id
                                == k);
                            assert(comp_map(ccs).contains_key(k));
                        }
                    }
                }
            } else {
                let out2 = rem_models(m, pcs, ccs, i + 1);
                assert(out == out2);
                assert(out2.dom().contains(k) == out.dom().contains(k));
                if (exists|j: int| i <= j < pcs.len() && is_last_comp(pcs, j) && pcs[j].id == k)
                    && !comp_map(ccs).contains_key(k) {
                    let j = choose|j: int|
                        i <= j < pcs.len() && is_last_comp(pcs, j) && pcs[j].id == k;
                    assert(j != i) by {
                        if j == i {
                            assert(is_last_comp(pcs, i));
                            lemma_comp_map_last(ccs, k);
                        }
                    }
                    assert(exists|j2: int|
                        i + 1 <= j2 < pcs.len() && is_last_comp(pcs, j2) && pcs[j2].id == k) by {
                        assert(i + 1 <= j < pcs.len() && is_last_comp(pcs, j) && pcs[j].id == k);
                    }
                }
            }
        }
    }
}

/// Component-level delta soundness with field compression on: applying the
/// diff of one shared entity to the field-level model its previous state
/// denotes yields exactly the model its current state denotes, as long as
/// the current components carry no JSON payload and give no field the
/// value `Null`.
pub proof fn lemma_component_changes_model_sound(
    w: Map<EntityId, Map<Seq<char>, ComponentModel>>,
    eid: EntityId,
    pcs: Seq<SerializedComponentV>,
    ccs: Seq<SerializedComponentV>,
)
    requires
        w.contains_key(eid),
        w[eid] == comp_model_map(pcs),
        json_free(ccs),
        null_free(ccs),
    ensures
        apply_model_changes(w, spec_component_changes(true, eid, pcs, ccs)) == w.insert(
            eid,
            comp_model_map(ccs),
        ),
{
    let pm = comp_model_map(pcs);
    let cm = comp_model_map(ccs);
    lemma_comp_model_map(pcs);
    lemma_comp_model_map(ccs);
    lemma_apply_model_changes_concat(
        w,
        spec_comp_updates(true, eid, pcs, ccs, 0),
        spec_comp_removals(eid, pcs, ccs, 0),
    );
    assert forall|j: int|
        0 <= j < ccs.len() && is_last_comp(ccs, j) && comp_map(pcs).contains_key(
            #[trigger] ccs[j].id,
        ) implies pm.contains_key(ccs[j].id) && pm[ccs[j].id] == data_model(
        comp_map(pcs)[ccs[j].id],
    ) by {}
    lemma_apply_model_comp_updates(w, eid, pm, pcs, ccs, 0);
    let mid = upd_models(pm, pcs, ccs, 0);
    let w1 = w.insert(eid, mid);
    lemma_apply_model_comp_removals(w1, eid, mid, pcs, ccs, 0);
    let out = rem_models(mid, pcs, ccs, 0);
    assert(w1.insert(eid, out) =~= w.insert(eid, out));
    lemma_upd_models_char(pm, pcs, ccs, 0);
    lemma_rem_models_char(mid, pcs, ccs, 0);
    assert forall|k: Seq<char>| #[trigger] out.dom().contains(k) implies cm.dom().contains(k)
        && out[k] == cm[k] by {
        lemma_comp_map_last(ccs, k);
        lemma_comp_map_last(pcs, k);
        if exists|j: int| 0 <= j < ccs.len() && is_last_comp(ccs, j) && ccs[j].id == k {
            let j = choose|j: int| 0 <= j < ccs.len() && is_last_comp(ccs, j) && ccs[j].id == k;
            assert(comp_map(ccs).contains_key(k) && comp_map(ccs)[k] == ccs[j].data);
            assert(cm.contains_key(k) && cm[k] == data_model(ccs[j].data));
            if comp_map(pcs).contains_key(k) && spec_data_equal(comp_map(pcs)[k], ccs[j].data) {
                assert(mid.dom().contains(k) == pm.dom().contains(k));
                assert(out[k] == pm[k]);
                assert(pm[k] == data_model(comp_map(pcs)[k]));
                lemma_data_equal_model(comp_map(pcs)[k], ccs[j].data);
            } else {
                assert(mid[k] == data_model(ccs[j].data));
                assert(out[k] == data_model(ccs[j].data));
            }
        } else {
            assert(!comp_map(ccs).contains_key(k)) by {
                if comp_map(ccs).contains_key(k) {
                    let j0 = last_index_comp(ccs, k);
                    lemma_last_index_comp(ccs, k);
                }
            }
            assert(!cm.contains_key(k));
            assert(mid.dom().contains(k) == pm.dom().contains(k));
            assert(pm.contains_key(k));
            assert(comp_map(pcs).contains_key(k));
            lemma_last_index_comp(pcs, k);
            assert(!out.dom().contains(k));
            assert(false);
        }
    }
    assert forall|k: Seq<char>| #[trigger] cm.dom().contains(k) implies out.dom().contains(k) by {
        lemma_comp_map_last(ccs, k);
        let j = last_index_comp(ccs, k);
        lemma_last_index_comp(ccs, k);
        assert(exists|j2: int| 0 <= j2 < ccs.len() && is_last_comp(ccs, j2) && ccs[j2].id == k)
            by {
            assert(0 <= j < ccs.len() && is_last_comp(ccs, j) && ccs[j].id == k);
        }
        if comp_map(pcs).contains_key(k) && spec_data_equal(comp_map(pcs)[k], ccs[j as int].data) {
            assert(mid.dom().contains(k));
        } else {
            assert(mid.dom().contains(k));
        }
        assert(out.dom().contains(k) == mid.dom().contains(k));
    }
    assert(out.dom() =~= cm.dom());
    assert(out =~= cm);
}


/// The field-level world a snapshot denotes.
pub open spec fn world_model_of(es: Seq<SerializedEntityV>) -> Map<
    EntityId,
    Map<Seq<char>, ComponentModel>,
>
    decreases es.len(),
{
    if es.len() == 0 {
        Map::empty()
    } else {
        world_model_of(es.drop_last()).insert(
            es.last().id,
            comp_model_map(es.last().components),
        )
    }
}

/// The field-level world has exactly the entity mapping's ids, each with
/// the component model of its last occurrence.
pub proof fn lemma_world_model_entmap(es: Seq<SerializedEntityV>)
    ensures
        world_model_of(es).dom() == ent_map(es).dom(),
        forall|k: EntityId|
            #[trigger] world_model_of(es).contains_key(k) ==> world_model_of(es)[k]
                == comp_model_map(ent_map(es)[k]),
    decreases es.len(),
{
    if es.len() > 0 {
        lemma_world_model_entmap(es.drop_last());
        assert(world_model_of(es).dom() =~= ent_map(es).dom());
    } else {
        assert(world_model_of(es).dom() =~= ent_map(es).dom());
    }
}

/// The component model built by folding inserts forward from `m`.
pub open spec fn comp_model_from(
    m: Map<Seq<char>, ComponentModel>,
    cs: Seq<SerializedComponentV>,
    i: int,
) -> Map<Seq<char>, ComponentModel>
    decreases cs.len() - i,
{
    if i < 0 || i >= cs.len() {
        m
    } else {
        comp_model_from(m.insert(cs[i].id, data_model(cs[i].data)), cs, i + 1)
    }
}

/// The forward model fold overlays the remaining components onto `m`.
pub proof fn lemma_comp_model_from_union(
    m: Map<Seq<char>, ComponentModel>,
    cs: Seq<SerializedComponentV>,
    i: int,
)
    requires
        0 <= i <= cs.len(),
    ensures
        comp_model_from(m, cs, i) == m.union_prefer_right(comp_model_map(cs.skip(i))),
    decreases cs.len() - i,
{
    if i == cs.len() {
        assert(cs.skip(i) =~= Seq::<SerializedComponentV>::empty());
        assert(comp_model_map(cs.skip(i)) =~= Map::<Seq<char>, ComponentModel>::empty());
        assert(m.union_prefer_right(Map::empty()) =~= m);
    } else {
        lemma_comp_model_from_union(m.insert(cs[i].id, data_model(cs[i].data)), cs, i + 1);
        let tail = cs.skip(i + 1);
        let whole = cs.skip(i);
        assert forall|j: int| 0 <= j < tail.len() implies tail[j] == whole[j + 1] by {}
        assert(whole[0] == cs[i]);
        let lhs = m.insert(cs[i].id, data_model(cs[i].data)).union_prefer_right(
            comp_model_map(tail),
        );
        let rhs = m.union_prefer_right(comp_model_map(whole));
        lemma_comp_model_map(tail);
        lemma_comp_model_map(whole);
        assert forall|k: Seq<char>| #![trigger lhs.dom().contains(k)]
            #![trigger rhs.dom().contains(k)]
            lhs.dom().contains(k) == rhs.dom().contains(k) && (lhs.dom().contains(k) ==> lhs[k]
                == rhs[k]) by {
            lemma_comp_map_last(tail, k);
            lemma_comp_map_last(whole, k);
            if comp_map(tail).contains_key(k) {
                let j = choose|j: int| 0 <= j < tail.len() && tail[j].id == k;
                assert(whole[j + 1].id == k);
                assert(comp_map(whole).contains_key(k));
                let l = last_index_comp(tail, k);
                lemma_last_index_comp(tail, k);
                assert(comp_map(tail)[k] == tail[l].data);
                assert(is_last_comp(whole, l + 1)) by {
                    assert forall|j2: int| #![trigger whole[j2]]
                        l + 1 < j2 < whole.len() implies whole[j2].id != whole[l + 1].id by {
                        assert(whole[j2] == tail[j2 - 1]);
                    }
                }
                assert(comp_map(whole)[k] == whole[l + 1].data);
            } else if k == cs[i].id {
                assert(whole[0].id == k);
                assert(comp_map(whole).contains_key(k));
                assert(is_last_comp(whole, 0)) by {
                    assert forall|j2: int| #![trigger whole[j2]] 0 < j2 < whole.len()
                        implies whole[j2].id != whole[0].id by {
                        assert(whole[j2] == tail[j2 - 1]);
                        if whole[j2].id == k {
                            assert(comp_map(tail).contains_key(k));
                        }
                    }
                }
                assert(comp_map(whole)[k] == cs[i].data);
            } else {
                if comp_map(whole).contains_key(k) {
                    let j = choose|j: int| 0 <= j < whole.len() && whole[j].id == k;
                    assert(j != 0);
                    assert(tail[j - 1].id == k);
                    assert(comp_map(tail).contains_key(k));
                }
            }
        }
        assert(lhs.dom() =~= rhs.dom());
        assert(lhs =~= rhs);
    }
}

proof fn lemma_comp_model_adds_apply(
    w: Map<EntityId, Map<Seq<char>, ComponentModel>>,
    eid: EntityId,
    cs: Seq<SerializedComponentV>,
    i: int,
    m: Map<Seq<char>, ComponentModel>,
)
    requires
        0 <= i <= cs.len(),
        w.contains_key(eid),
        w[eid] == m,
    ensures
        apply_model_changes(w, spec_component_adds(eid, cs, i)) == w.insert(
            eid,
            comp_model_from(m, cs, i),
        ),
    decreases cs.len() - i,
{
    if i == cs.len() {
        assert(w.insert(eid, m) =~= w);
    } else {
        let ca = DeltaChangeV::ComponentAdded {
            entity_id: eid,
            component_id: cs[i].id,
            data: cs[i].data,
        };
        let changes = spec_component_adds(eid, cs, i);
        let rest = spec_component_adds(eid, cs, i + 1);
        assert(changes == seq![ca] + rest);
        assert(changes.first() == ca);
        assert(changes.drop_first() =~= rest);
        let m1 = m.insert(cs[i].id, data_model(cs[i].data));
        let w1 = w.insert(eid, m1);
        assert(apply_model_change(w, ca) == w1);
        lemma_comp_model_adds_apply(w1, eid, cs, i + 1, m1);
        assert(w1.insert(eid, comp_model_from(m1, cs, i + 1)) =~= w.insert(
            eid,
            comp_model_from(m, cs, i),
        ));
    }
}

/// The world after the entity-update changes, in the field-level model:
/// every last-occurrence current entity ends up with the model its
/// components denote, new and shared alike.
pub open spec fn upd_model_world(
    w: Map<EntityId, Map<Seq<char>, ComponentModel>>,
    curr: Seq<SerializedEntityV>,
    i: int,
) -> Map<EntityId, Map<Seq<char>, ComponentModel>>
    decreases curr.len() - i,
{
    if i < 0 || i >= curr.len() {
        w
    } else if is_last_ent(curr, i) {
        upd_model_world(
            w.insert(curr[i].id, comp_model_map(curr[i].components)),
            curr,
            i + 1,
        )
    } else {
        upd_model_world(w, curr, i + 1)
    }
}

/// The world after the entity removals, in the field-level model.
pub open spec fn rem_model_world(
    w: Map<EntityId, Map<Seq<char>, ComponentModel>>,
    prev: Seq<SerializedEntityV>,
    curr: Seq<SerializedEntityV>,
    i: int,
) -> Map<EntityId, Map<Seq<char>, ComponentModel>>
    decreases prev.len() - i,
{
    if i < 0 || i >= prev.len() {
        w
    } else if is_last_ent(prev, i) && !ent_map(curr).contains_key(prev[i].id) {
        rem_model_world(w.remove(prev[i].id), prev, curr, i + 1)
    } else {
        rem_model_world(w, prev, curr, i + 1)
    }
}

/// Does every current entity's component list stay off JSON payloads and
/// `Null` field values?
pub open spec fn model_safe(es: Seq<SerializedEntityV>) -> bool {
    forall|i: int|
        0 <= i < es.len() ==> json_free(#[trigger] es[i].components) && null_free(
            es[i].components,
        )
}

#[verifier::rlimit(100)]
#[verifier::spinoff_prover]
proof fn lemma_apply_model_entity_updates(
    w: Map<EntityId, Map<Seq<char>, ComponentModel>>,
    prev: Seq<SerializedEntityV>,
    curr: Seq<SerializedEntityV>,
    i: int,
)
    requires
        0 <= i,
        model_safe(curr),
        forall|j: int|
            i <= j < curr.len() && is_last_ent(curr, j) && ent_map(prev).contains_key(
                #[trigger] curr[j].id,
            ) ==> w.contains_key(curr[j].id) && w[curr[j].id] == comp_model_map(
                ent_map(prev)[curr[j].id],
            ),
    ensures
        apply_model_changes(w, spec_entity_updates(true, prev, curr, i)) == upd_model_world(
            w,
            curr,
            i,
        ),
    decreases curr.len() - i,
{
    if i < curr.len() {
        let changes = spec_entity_updates(true, prev, curr, i);
        let rest = spec_entity_updates(true, prev, curr, i + 1);
        if is_last_ent(curr, i) {
            let e = curr[i];
            assert(forall|j: int|
                i + 1 <= j < curr.len() && is_last_ent(curr, j) ==> (#[trigger] curr[j].id)
                    != e.id);
            if !ent_map(prev).contains_key(e.id) {
                let ea = DeltaChangeV::EntityAdded { entity_id: e.id };
                let adds = spec_component_adds(e.id, e.components, 0);
                assert(changes == (seq![ea] + adds) + rest);
                lemma_apply_model_changes_concat(w, seq![ea] + adds, rest);
                lemma_apply_model_changes_concat(w, seq![ea], adds);
                assert(seq![ea].first() == ea);
                assert(seq![ea].drop_first() =~= Seq::<DeltaChangeV>::empty());
                let w1 = w.insert(e.id, Map::empty());
                assert(apply_model_changes(apply_model_change(w, ea), Seq::<DeltaChangeV>::empty())
                    == apply_model_change(w, ea));
                assert(apply_model_changes(w, seq![ea]) == w1);
                lemma_comp_model_adds_apply(w1, e.id, e.components, 0, Map::empty());
                lemma_comp_model_from_union(Map::empty(), e.components, 0);
                assert(e.components.skip(0) =~= e.components);
                assert(Map::<Seq<char>, ComponentModel>::empty().union_prefer_right(
                    comp_model_map(e.components),
                ) =~= comp_model_map(e.components));
                let w2 = w1.insert(e.id, comp_model_map(e.components));
                assert(w2 =~= w.insert(e.id, comp_model_map(e.components)));
                lemma_apply_model_entity_updates(
                    w.insert(e.id, comp_model_map(e.components)),
                    prev,
                    curr,
                    i + 1,
                );
            } else {
                let pcs = ent_map(prev)[e.id];
                let head = spec_component_changes(true, e.id, pcs, e.components);
                assert(changes == head + rest);
                lemma_apply_model_changes_concat(w, head, rest);
                assert(w.contains_key(e.id) && w[e.id] == comp_model_map(pcs));
                lemma_component_changes_model_sound(w, e.id, pcs, e.components);
                lemma_apply_model_entity_updates(
                    w.insert(e.id, comp_model_map(e.components)),
                    prev,
                    curr,
                    i + 1,
                );
            }
        } else {
            assert(changes =~= rest);
            lemma_apply_model_entity_updates(w, prev, curr, i + 1);
        }
    }
}

proof fn lemma_apply_model_entity_removals(
    w: Map<EntityId, Map<Seq<char>, ComponentModel>>,
    prev: Seq<SerializedEntityV>,
    curr: Seq<SerializedEntityV>,
    i: int,
)
    requires
        0 <= i,
    ensures
        apply_model_changes(w, spec_entity_removals(prev, curr, i)) == rem_model_world(
            w,
            prev,
            curr,
            i,
        ),
    decreases prev.len() - i,
{
    if i < prev.len() {
        let changes = spec_entity_removals(prev, curr, i);
        let rest = spec_entity_removals(prev, curr, i + 1);
        if is_last_ent(prev, i) && !ent_map(curr).contains_key(prev[i].id) {
            let dcv = DeltaChangeV::EntityRemoved { entity_id: prev[i].id };
            assert(changes == seq![dcv] + rest);
            assert(changes.first() == dcv);
            assert(changes.drop_first() =~= rest);
            assert(apply_model_change(w, dcv) == w.remove(prev[i].id));
            lemma_apply_model_entity_removals(w.remove(prev[i].id), prev, curr, i + 1);
        } else {
            assert(changes =~= rest);
            lemma_apply_model_entity_removals(w, prev, curr, i + 1);
        }
    }
}


#[verifier::rlimit(100)]
#[verifier::spinoff_prover]
proof fn lemma_upd_model_world_char(
    w: Map<EntityId, Map<Seq<char>, ComponentModel>>,
    curr: Seq<SerializedEntityV>,
    i: int,
)
    requires
        0 <= i,
    ensures
        forall|k: EntityId|
            #![trigger upd_model_world(w, curr, i).dom().contains(k)]
            {
                let out = upd_model_world(w, curr, i);
                if exists|j: int| i <= j < curr.len() && is_last_ent(curr, j) && curr[j].id == k {
                    let j = choose|j: int|
                        i <= j < curr.len() && is_last_ent(curr, j) && curr[j].id == k;
                    out.dom().contains(k) && out[k] == comp_model_map(curr[j].components)
                } else {
                    out.dom().contains(k) == w.dom().contains(k) && (w.dom().contains(k) ==> out[k]
                        == w[k])
                }
            },
    decreases curr.len() - i,
{
    if i >= curr.len() {
        assert(upd_model_world(w, curr, i) == w);
    }
    if i < curr.len() {
        let e = curr[i];
        if is_last_ent(curr, i) {
            lemma_upd_model_world_char(w.insert(e.id, comp_model_map(e.components)), curr, i + 1);
        } else {
            lemma_upd_model_world_char(w, curr, i + 1);
        }
        assert forall|k: EntityId|
            #![trigger upd_model_world(w, curr, i).dom().contains(k)]
            true implies {
            let out = upd_model_world(w, curr, i);
            if exists|j: int| i <= j < curr.len() && is_last_ent(curr, j) && curr[j].id == k {
                let j = choose|j: int|
                    i <= j < curr.len() && is_last_ent(curr, j) && curr[j].id == k;
                out.dom().contains(k) && out[k] == comp_model_map(curr[j].components)
            } else {
                out.dom().contains(k) == w.dom().contains(k) && (w.dom().contains(k) ==> out[k]
                    == w[k])
            }
        } by {
            let out = upd_model_world(w, curr, i);
            assert(forall|j1: int, j2: int|
                i <= j1 < curr.len() && i <= j2 < curr.len() && is_last_ent(curr, j1)
                    && is_last_ent(curr, j2) && #[trigger] (curr[j1].id) == #[trigger] (
                curr[j2].id) ==> j1 == j2);
            if is_last_ent(curr, i) {
                let w2 = w.insert(e.id, comp_model_map(e.components));
                let out2 = upd_model_world(w2, curr, i + 1);
                assert(out == out2);
                assert(out2.dom().contains(k) == out.dom().contains(k));
                if exists|j: int| i <= j < curr.len() && is_last_ent(curr, j) && curr[j].id == k {
                    let j = choose|j: int|
                        i <= j < curr.len() && is_last_ent(curr, j) && curr[j].id == k;
                    if j == i {
                        assert(k == e.id);
                        assert(!(exists|j2: int|
                            i + 1 <= j2 < curr.len() && is_last_ent(curr, j2) && curr[j2].id
                                == k));
                        assert(w2.dom().contains(k) && w2[k] == comp_model_map(e.components));
                    } else {
                        assert(e.id != k);
                        assert(exists|j2: int|
                            i + 1 <= j2 < curr.len() && is_last_ent(curr, j2) && curr[j2].id
                                == k) by {
                            assert(i + 1 <= j < curr.len() && is_last_ent(curr, j) && curr[j].id
                                == k);
                        }
                        let j2 = choose|j2: int|
                            i + 1 <= j2 < curr.len() && is_last_ent(curr, j2) && curr[j2].id == k;
                        assert(j2 == j);
                    }
                } else {
                    assert(e.id != k) by {
                        if e.id == k {
                            assert(i <= i < curr.len() && is_last_ent(curr, i) && curr[i].id == k);
                        }
                    }
                    assert(w2.dom().contains(k) == w.dom().contains(k) && (w.dom().contains(k)
                        ==> w2[k] == w[k]));
                }
            } else {
                let out2 = upd_model_world(w, curr, i + 1);
                assert(out == out2);
                assert(out2.dom().contains(k) == out.dom().contains(k));
                if exists|j: int| i <= j < curr.len() && is_last_ent(curr, j) && curr[j].id == k {
                    let j = choose|j: int|
                        i <= j < curr.len() && is_last_ent(curr, j) && curr[j].id == k;
                    assert(j != i);
                    assert(exists|j2: int|
                        i + 1 <= j2 < curr.len() && is_last_ent(curr, j2) && curr[j2].id == k)
                        by {
                        assert(i + 1 <= j < curr.len() && is_last_ent(curr, j) && curr[j].id
                            == k);
                    }
                    let j2 = choose|j2: int|
                        i + 1 <= j2 < curr.len() && is_last_ent(curr, j2) && curr[j2].id == k;
                    assert(j2 == j);
                }
            }
        }
    }
}

#[verifier::rlimit(100)]
#[verifier::spinoff_prover]
proof fn lemma_rem_model_world_char(
    w: Map<EntityId, Map<Seq<char>, ComponentModel>>,
    prev: Seq<SerializedEntityV>,
    curr: Seq<SerializedEntityV>,
    i: int,
)
    requires
        0 <= i,
    ensures
        forall|k: EntityId|
            #![trigger rem_model_world(w, prev, curr, i).dom().contains(k)]
            {
                let out = rem_model_world(w, prev, curr, i);
                if (exists|j: int| i <= j < prev.len() && is_last_ent(prev, j) && prev[j].id == k)
                    && !ent_map(curr).contains_key(k) {
                    !out.dom().contains(k)
                } else {
                    out.dom().contains(k) == w.dom().contains(k) && (w.dom().contains(k) ==> out[k]
                        == w[k])
                }
            },
    decreases prev.len() - i,
{
    if i >= prev.len() {
        assert(rem_model_world(w, prev, curr, i) == w);
    }
    if i < prev.len() {
        if is_last_ent(prev, i) && !ent_map(curr).contains_key(prev[i].id) {
            lemma_rem_model_world_char(w.remove(prev[i].id), prev, curr, i + 1);
        } else {
            lemma_rem_model_world_char(w, prev, curr, i + 1);
        }
        assert forall|k: EntityId|
            #![trigger rem_model_world(w, prev, curr, i).dom().contains(k)]
            true implies {
            let out = rem_model_world(w, prev, curr, i);
            if (exists|j: int| i <= j < prev.len() && is_last_ent(prev, j) && prev[j].id == k)
                && !ent_map(curr).contains_key(k) {
                !out.dom().contains(k)
            } else {
                out.dom().contains(k) == w.dom().contains(k) && (w.dom().contains(k) ==> out[k]
                    == w[k])
            }
        } by {
            let out = rem_model_world(w, prev, curr, i);
            assert(forall|j1: int, j2: int|
                i <= j1 < prev.len() && i <= j2 < prev.len() && is_last_ent(prev, j1)
                    && is_last_ent(prev, j2) && #[trigger] (prev[j1].id) == #[trigger] (
                prev[j2].id) ==> j1 == j2);
            if is_last_ent(prev, i) && !ent_map(curr).contains_key(prev[i].id) {
                let c = prev[i];
                let w2 = w.remove(c.id);
                let out2 = rem_model_world(w2, prev, curr, i + 1);
                assert(out == out2);
                assert(out2.dom().contains(k) == out.dom().contains(k));
                if (exists|j: int| i <= j < prev.len() && is_last_ent(prev, j) && prev[j].id == k)
                    && !ent_map(curr).contains_key(k) {
                    let j = choose|j: int|
                        i <= j < prev.len() && is_last_ent(prev, j) && prev[j].id == k;
                    if j == i {
                        assert(k == c.id);
                        assert(!(exists|j2: int|
                            i + 1 <= j2 < prev.len() && is_last_ent(prev, j2) && prev[j2].id
                                == k));
                        assert(!w2.dom().contains(k));
                    } else {
                        assert(c.id != k);
                        assert(exists|j2: int|
                            i + 1 <= j2 < prev.len() && is_last_ent(prev, j2) && prev[j2].id
                                == k) by {
                            assert(i + 1 <= j < prev.len() && is_last_ent(prev, j) && prev[j].id
                                == k);
                        }
                    }
                } else {
                    if k == c.id {
                        assert(i <= i < prev.len() && is_last_ent(prev, i) && prev[i].id == k);
                        assert(false);
                    } else {
                        assert(w2.dom().contains(k) == w.dom().contains(k) && (w.dom().contains(
                            k,
                        ) ==> w2[k] == w[k]));
                        if exists|j2: int|
                            i + 1 <= j2 < prev.len() && is_last_ent(prev, j2) && prev[j2].id
                                == k {
                            let j2 = choose|j2: int|
                                i + 1 <= j2 < prev.len() && is_last_ent(prev, j2) && prev[j2].id
                                    == k;
                            assert(i <= j2 < prev.len() && is_last_ent(prev, j2) && prev[j2].id
                                == k);
                            assert(ent_map(curr).contains_key(k));
                        }
                    }
                }
            } else {
                let out2 = rem_model_world(w, prev, curr, i + 1);
                assert(out == out2);
                assert(out2.dom().contains(k) == out.dom().contains(k));
                if (exists|j: int| i <= j < prev.len() && is_last_ent(prev, j) && prev[j].id == k)
                    && !ent_map(curr).contains_key(k) {
                    let j = choose|j: int|
                        i <= j < prev.len() && is_last_ent(prev, j) && prev[j].id == k;
                    assert(j != i) by {
                        if j == i {
                            assert(is_last_ent(prev, i));
                        }
                    }
                    assert(exists|j2: int|
                        i + 1 <= j2 < prev.len() && is_last_ent(prev, j2) && prev[j2].id == k)
                        by {
                        assert(i + 1 <= j < prev.len() && is_last_ent(prev, j) && prev[j].id
                            == k);
                    }
                }
            }
        }
    }
}

/// Delta soundness with field compression on, in one theorem: for a
/// current snapshot whose components carry no JSON payload and give no
/// field the value `Null` — the inputs on which field-level transitions
/// are lossy on the wire — applying the diff to the field-level world the
/// previous snapshot denotes yields exactly the world the current one
/// denotes, `FieldsUpdated` patches included.
pub proof fn lemma_delta_sound_with_field_compression(
    prev: Seq<SerializedEntityV>,
    curr: Seq<SerializedEntityV>,
)
    requires
        model_safe(curr),
    ensures
        apply_model_changes(
            world_model_of(prev),
            spec_snapshot_changes(true, prev, curr),
        ) == world_model_of(curr),
{
    let w0 = world_model_of(prev);
    lemma_apply_model_changes_concat(
        w0,
        spec_entity_updates(true, prev, curr, 0),
        spec_entity_removals(prev, curr, 0),
    );
    lemma_world_model_entmap(prev);
    lemma_world_model_entmap(curr);
    assert forall|j: int|
        0 <= j < curr.len() && is_last_ent(curr, j) && ent_map(prev).contains_key(
            #[trigger] curr[j].id,
        ) implies w0.contains_key(curr[j].id) && w0[curr[j].id] == comp_model_map(
        ent_map(prev)[curr[j].id],
    ) by {}
    lemma_apply_model_entity_updates(w0, prev, curr, 0);
    let w1 = upd_model_world(w0, curr, 0);
    lemma_apply_model_entity_removals(w1, prev, curr, 0);
    let t = rem_model_world(w1, prev, curr, 0);
    lemma_upd_model_world_char(w0, curr, 0);
    lemma_rem_model_world_char(w1, prev, curr, 0);
    let wc = world_model_of(curr);
    assert forall|k: EntityId| #[trigger] t.dom().contains(k) implies wc.dom().contains(k)
        && t[k] == wc[k] by {
        lemma_ent_map_last(curr, k);
        lemma_ent_map_last(prev, k);
        if exists|j: int| 0 <= j < curr.len() && is_last_ent(curr, j) && curr[j].id == k {
            let j = choose|j: int| 0 <= j < curr.len() && is_last_ent(curr, j) && curr[j].id == k;
            assert(ent_map(curr).contains_key(k));
            assert(ent_map(curr)[k] == curr[j].components);
            assert(wc.dom().contains(k));
            assert(wc[k] == comp_model_map(curr[j].components));
            assert(t.dom().contains(k) == w1.dom().contains(k) && w1[k] == t[k]);
            assert(w1[k] == comp_model_map(curr[j].components));
        } else {
            assert(!ent_map(curr).contains_key(k)) by {
                if ent_map(curr).contains_key(k) {
                    lemma_last_index_ent(curr, k);
                }
            }
            assert(w1.dom().contains(k) == w0.dom().contains(k));
            assert(t.dom().contains(k));
            if w0.dom().contains(k) {
                assert(ent_map(prev).contains_key(k));
                lemma_last_index_ent(prev, k);
                let j1 = last_index_ent(prev, k);
                assert((exists|j: int|
                    0 <= j < prev.len() && is_last_ent(prev, j) && prev[j].id == k)
                    && !ent_map(curr).contains_key(k)) by {
                    assert(0 <= j1 < prev.len() && is_last_ent(prev, j1) && prev[j1].id == k);
                }
                assert(!t.dom().contains(k));
                assert(false);
            } else {
                assert(!w1.dom().contains(k));
                assert(!t.dom().contains(k));
                assert(false);
            }
        }
    }
    assert forall|k: EntityId| #[trigger] wc.dom().contains(k) implies t.dom().contains(k) by {
        lemma_ent_map_last(curr, k);
        let j = last_index_ent(curr, k);
        lemma_last_index_ent(curr, k);
        assert(exists|j2: int| 0 <= j2 < curr.len() && is_last_ent(curr, j2) && curr[j2].id == k)
            by {
            assert(0 <= j < curr.len() && is_last_ent(curr, j) && curr[j].id == k);
        }
        assert(w1.dom().contains(k));
        assert(t.dom().contains(k) == w1.dom().contains(k));
    }
    assert(t.dom() =~= wc.dom());
    assert(t =~= wc);
}


/// The field-level world folded forward from `w`.
pub open spec fn world_model_from(
    w: Map<EntityId, Map<Seq<char>, ComponentModel>>,
    es: Seq<SerializedEntityV>,
    i: int,
) -> Map<EntityId, Map<Seq<char>, ComponentModel>>
    decreases es.len() - i,
{
    if i < 0 || i >= es.len() {
        w
    } else {
        world_model_from(w.insert(es[i].id, comp_model_map(es[i].components)), es, i + 1)
    }
}

/// The forward world fold overlays the remaining entities onto `w`.
pub proof fn lemma_world_model_from_union(
    w: Map<EntityId, Map<Seq<char>, ComponentModel>>,
    es: Seq<SerializedEntityV>,
    i: int,
)
    requires
        0 <= i <= es.len(),
    ensures
        world_model_from(w, es, i) == w.union_prefer_right(world_model_of(es.skip(i))),
    decreases es.len() - i,
{
    if i == es.len() {
        assert(es.skip(i) =~= Seq::<SerializedEntityV>::empty());
        assert(world_model_of(es.skip(i)) =~= Map::<
            EntityId,
            Map<Seq<char>, ComponentModel>,
        >::empty());
        assert(w.union_prefer_right(Map::empty()) =~= w);
    } else {
        lemma_world_model_from_union(
            w.insert(es[i].id, comp_model_map(es[i].components)),
            es,
            i + 1,
        );
        let tail = es.skip(i + 1);
        let whole = es.skip(i);
        assert forall|j: int| 0 <= j < tail.len() implies tail[j] == whole[j + 1] by {}
        assert(whole[0] == es[i]);
        let lhs = w.insert(es[i].id, comp_model_map(es[i].components)).union_prefer_right(
            world_model_of(tail),
        );
        let rhs = w.union_prefer_right(world_model_of(whole));
        lemma_world_model_entmap(tail);
        lemma_world_model_entmap(whole);
        assert forall|k: EntityId| #![trigger lhs.dom().contains(k)]
            #![trigger rhs.dom().contains(k)]
            lhs.dom().contains(k) == rhs.dom().contains(k) && (lhs.dom().contains(k) ==> lhs[k]
                == rhs[k]) by {
            lemma_ent_map_last(tail, k);
            lemma_ent_map_last(whole, k);
            if ent_map(tail).contains_key(k) {
                let j = choose|j: int| 0 <= j < tail.len() && tail[j].id == k;
                assert(whole[j + 1].id == k);
                assert(ent_map(whole).contains_key(k));
                let l = last_index_ent(tail, k);
                lemma_last_index_ent(tail, k);
                assert(ent_map(tail)[k] == tail[l].components);
                assert(is_last_ent(whole, l + 1)) by {
                    assert forall|j2: int| #![trigger whole[j2]]
                        l + 1 < j2 < whole.len() implies whole[j2].id != whole[l + 1].id by {
                        assert(whole[j2] == tail[j2 - 1]);
                    }
                }
                assert(ent_map(whole)[k] == whole[l + 1].components);
            } else if k == es[i].id {
                assert(whole[0].id == k);
                assert(ent_map(whole).contains_key(k));
                assert(is_last_ent(whole, 0)) by {
                    assert forall|j2: int| #![trigger whole[j2]] 0 < j2 < whole.len()
                        implies whole[j2].id != whole[0].id by {
                        assert(whole[j2] == tail[j2 - 1]);
                        if whole[j2].id == k {
                            assert(ent_map(tail).contains_key(k));
                        }
                    }
                }
                assert(ent_map(whole)[k] == es[i].components);
            } else {
                if ent_map(whole).contains_key(k) {
                    let j = choose|j: int| 0 <= j < whole.len() && whole[j].id == k;
                    assert(j != 0);
                    assert(tail[j - 1].id == k);
                    assert(ent_map(tail).contains_key(k));
                }
            }
        }
        assert(lhs.dom() =~= rhs.dom());
        assert(lhs =~= rhs);
    }
}

proof fn lemma_initial_model_apply(
    w: Map<EntityId, Map<Seq<char>, ComponentModel>>,
    es: Seq<SerializedEntityV>,
    i: int,
)
    requires
        0 <= i <= es.len(),
    ensures
        apply_model_changes(w, spec_initial_changes(es, i)) == world_model_from(w, es, i),
    decreases es.len() - i,
{
    if i < es.len() {
        let e = es[i].id;
        let ecs = es[i].components;
        let ea = DeltaChangeV::EntityAdded { entity_id: e };
        let adds = spec_component_adds(e, ecs, 0);
        let rest = spec_initial_changes(es, i + 1);
        assert(spec_initial_changes(es, i) == (seq![ea] + adds) + rest);
        lemma_apply_model_changes_concat(w, seq![ea] + adds, rest);
        lemma_apply_model_changes_concat(w, seq![ea], adds);
        assert(seq![ea].first() == ea);
        assert(seq![ea].drop_first() =~= Seq::<DeltaChangeV>::empty());
        let w1 = w.insert(e, Map::empty());
        assert(apply_model_changes(apply_model_change(w, ea), Seq::<DeltaChangeV>::empty())
            == apply_model_change(w, ea));
        assert(apply_model_changes(w, seq![ea]) == w1);
        lemma_comp_model_adds_apply(w1, e, ecs, 0, Map::empty());
        lemma_comp_model_from_union(Map::empty(), ecs, 0);
        assert(ecs.skip(0) =~= ecs);
        assert(Map::<Seq<char>, ComponentModel>::empty().union_prefer_right(comp_model_map(ecs))
            =~= comp_model_map(ecs));
        let w2 = w1.insert(e, comp_model_map(ecs));
        assert(apply_model_changes(w, seq![ea] + adds) == w2);
        assert(w2 =~= w.insert(e, comp_model_map(ecs)));
        lemma_initial_model_apply(w.insert(e, comp_model_map(ecs)), es, i + 1);
    }
}

/// Delta soundness for an initial delta, in the field-level model: the
/// first-ever delta reconstructs from the empty world exactly the world
/// its snapshot denotes. With `lemma_delta_sound_with_field_compression`
/// for every later delta, a whole snapshot sequence is reconstructed in
/// turn with field compression on.
pub proof fn lemma_initial_delta_model_sound(es: Seq<SerializedEntityV>)
    ensures
        apply_model_changes(Map::empty(), spec_initial_changes(es, 0)) == world_model_of(es),
{
    lemma_initial_model_apply(Map::empty(), es, 0);
    lemma_world_model_from_union(Map::empty(), es, 0);
    assert(es.skip(0) =~= es);
    assert(Map::<EntityId, Map<Seq<char>, ComponentModel>>::empty().union_prefer_right(
        world_model_of(es),
    ) =~= world_model_of(es));
}

} // verus!


















