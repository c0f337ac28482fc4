//! The link's own byte codec: a compact fixed-schema binary encoding for
//! messages, snapshots, deltas and components.
//!
//! Scalars go little-endian; strings and byte blobs carry a 32-bit length
//! prefix; tagged unions carry one tag byte in declaration order. Every
//! encoder is matched by a spec-level parser, and a round-trip theorem shows
//! that parsing an encoding yields the encoded value back — whatever bytes
//! follow it in the buffer.

use vstd::bytes::{
    lemma_auto_spec_u16_to_from_le_bytes, lemma_auto_spec_u32_to_from_le_bytes,
    lemma_auto_spec_u64_to_from_le_bytes, spec_u16_from_le_bytes, spec_u16_to_le_bytes,
    spec_u32_from_le_bytes, spec_u32_to_le_bytes, spec_u64_from_le_bytes, spec_u64_to_le_bytes,
    u16_from_le_bytes, u16_to_le_bytes, u32_from_le_bytes, u32_to_le_bytes, u64_from_le_bytes,
    u64_to_le_bytes,
};
use vstd::prelude::*;
use vstd::slice::slice_subrange;
use vstd::string::{StrSliceExecFns, StringExecFns};
use vstd::utf8::{decode_utf8, encode_utf8, encode_utf8_decode_utf8, encode_utf8_valid_utf8, valid_utf8};

use crate::protocol::{ComponentData, ComponentDataV, FieldValue, FieldValueV, SerializedComponent, SerializedComponentV, SerializedEntity, SerializedEntityV};
use crate::serialization::{WorldSnapshot, WorldSnapshotV};

verus! {

/// Append all of `data` to `out`.
pub fn push_all(out: &mut Vec<u8>, data: &Vec<u8>)
    ensures
        final(out)@ == old(out)@ + data@,
{
    let mut i: usize = 0;
    while i < data.len()
        invariant
            0 <= i <= data@.len(),
            out@ == old(out)@ + data@.take(i as int),
        decreases data@.len() - i,
    {
        out.push(data[i]);
        proof {
            assert(out@ =~= old(out)@ + data@.take(i + 1));
        }
        i = i + 1;
    }
    proof {
        assert(old(out)@ + data@.take(data@.len() as int) =~= old(out)@ + data@);
    }
}

pub open spec fn ser_u8(x: u8) -> Seq<u8> {
    seq![x]
}

pub open spec fn parse_u8(b: Seq<u8>, pos: int) -> Option<(u8, int)> {
    if 0 <= pos && pos + 1 <= b.len() {
        Some((b[pos], pos + 1))
    } else {
        None
    }
}

fn enc_u8(x: u8, out: &mut Vec<u8>)
    ensures
        final(out)@ == old(out)@ + ser_u8(x),
{
    out.push(x);
    proof {
        assert(out@ =~= old(out)@ + ser_u8(x));
    }
}

fn dec_u8(b: &Vec<u8>, pos: usize) -> (r: Option<(u8, usize)>)
    ensures
        match r {
            Some((v, p)) => parse_u8(b@, pos as int) == Some((v, p as int)) && pos < p <= b@.len(),
            None => parse_u8(b@, pos as int) is None,
        },
{
    let n = b.len();
    if pos < n {
        Some((b[pos], pos + 1))
    } else {
        None
    }
}

pub open spec fn ser_u16(x: u16) -> Seq<u8> {
    spec_u16_to_le_bytes(x)
}

pub open spec fn parse_u16(b: Seq<u8>, pos: int) -> Option<(u16, int)> {
    if 0 <= pos && pos + 2 <= b.len() {
        Some((spec_u16_from_le_bytes(b.subrange(pos, pos + 2)), pos + 2))
    } else {
        None
    }
}

fn enc_u16(x: u16, out: &mut Vec<u8>)
    ensures
        final(out)@ == old(out)@ + ser_u16(x),
{
    let bytes = u16_to_le_bytes(x);
    push_all(out, &bytes);
}

fn dec_u16(b: &Vec<u8>, pos: usize) -> (r: Option<(u16, usize)>)
    ensures
        match r {
            Some((v, p)) => parse_u16(b@, pos as int) == Some((v, p as int)) && pos < p
                <= b@.len(),
            None => parse_u16(b@, pos as int) is None,
        },
{
    let n = b.len();
    if n >= 2 && pos <= n - 2 {
        let s = slice_subrange(b.as_slice(), pos, pos + 2);
        let v = u16_from_le_bytes(s);
        Some((v, pos + 2))
    } else {
        None
    }
}

pub open spec fn ser_u32(x: u32) -> Seq<u8> {
    spec_u32_to_le_bytes(x)
}

pub open spec fn parse_u32(b: Seq<u8>, pos: int) -> Option<(u32, int)> {
    if 0 <= pos && pos + 4 <= b.len() {
        Some((spec_u32_from_le_bytes(b.subrange(pos, pos + 4)), pos + 4))
    } else {
        None
    }
}

fn enc_u32(x: u32, out: &mut Vec<u8>)
    ensures
        final(out)@ == old(out)@ + ser_u32(x),
{
    let bytes = u32_to_le_bytes(x);
    push_all(out, &bytes);
}

fn dec_u32(b: &Vec<u8>, pos: usize) -> (r: Option<(u32, usize)>)
    ensures
        match r {
            Some((v, p)) => parse_u32(b@, pos as int) == Some((v, p as int)) && pos < p
                <= b@.len(),
            None => parse_u32(b@, pos as int) is None,
        },
{
    let n = b.len();
    if n >= 4 && pos <= n - 4 {
        let s = slice_subrange(b.as_slice(), pos, pos + 4);
        let v = u32_from_le_bytes(s);
        Some((v, pos + 4))
    } else {
        None
    }
}

pub open spec fn ser_u64(x: u64) -> Seq<u8> {
    spec_u64_to_le_bytes(x)
}

pub open spec fn parse_u64(b: Seq<u8>, pos: int) -> Option<(u64, int)> {
    if 0 <= pos && pos + 8 <= b.len() {
        Some((spec_u64_from_le_bytes(b.subrange(pos, pos + 8)), pos + 8))
    } else {
        None
    }
}

fn enc_u64(x: u64, out: &mut Vec<u8>)
    ensures
        final(out)@ == old(out)@ + ser_u64(x),
{
    let bytes = u64_to_le_bytes(x);
    push_all(out, &bytes);
}

fn dec_u64(b: &Vec<u8>, pos: usize) -> (r: Option<(u64, usize)>)
    ensures
        match r {
            Some((v, p)) => parse_u64(b@, pos as int) == Some((v, p as int)) && pos < p
                <= b@.len(),
            None => parse_u64(b@, pos as int) is None,
        },
{
    let n = b.len();
    if n >= 8 && pos <= n - 8 {
        let s = slice_subrange(b.as_slice(), pos, pos + 8);
        let v = u64_from_le_bytes(s);
        Some((v, pos + 8))
    } else {
        None
    }
}

/// Parsing an integer encoding embedded in a larger buffer yields the value.
pub proof fn lemma_parse_ser_u16(x: u16, b: Seq<u8>, pos: int)
    requires
        0 <= pos,
        pos + 2 <= b.len(),
        b.subrange(pos, pos + 2) == ser_u16(x),
    ensures
        parse_u16(b, pos) == Some((x, pos + 2)),
{
    lemma_auto_spec_u16_to_from_le_bytes();
    assert(spec_u16_to_le_bytes(x).len() == 2);
    assert(spec_u16_from_le_bytes(spec_u16_to_le_bytes(x)) == x);
}

pub proof fn lemma_parse_ser_u32(x: u32, b: Seq<u8>, pos: int)
    requires
        0 <= pos,
        pos + 4 <= b.len(),
        b.subrange(pos, pos + 4) == ser_u32(x),
    ensures
        parse_u32(b, pos) == Some((x, pos + 4)),
{
    lemma_auto_spec_u32_to_from_le_bytes();
    assert(spec_u32_to_le_bytes(x).len() == 4);
    assert(spec_u32_from_le_bytes(spec_u32_to_le_bytes(x)) == x);
}

pub proof fn lemma_parse_ser_u64(x: u64, b: Seq<u8>, pos: int)
    requires
        0 <= pos,
        pos + 8 <= b.len(),
        b.subrange(pos, pos + 8) == ser_u64(x),
    ensures
        parse_u64(b, pos) == Some((x, pos + 8)),
{
    lemma_auto_spec_u64_to_from_le_bytes();
    assert(spec_u64_to_le_bytes(x).len() == 8);
    assert(spec_u64_from_le_bytes(spec_u64_to_le_bytes(x)) == x);
}

/// A byte blob: 32-bit length, then the bytes. Longer blobs cannot be
/// framed.
pub open spec fn wf_blob(s: Seq<u8>) -> bool {
    s.len() <= u32::MAX
}

pub open spec fn ser_blob(s: Seq<u8>) -> Seq<u8> {
    ser_u32(s.len() as u32) + s
}

pub open spec fn parse_blob(b: Seq<u8>, pos: int) -> Option<(Seq<u8>, int)> {
    match parse_u32(b, pos) {
        Some((len, p)) => if p + len <= b.len() {
            Some((b.subrange(p, p + len), p + len))
        } else {
            None
        },
        None => None,
    }
}

pub proof fn lemma_parse_ser_blob(s: Seq<u8>, b: Seq<u8>, pos: int)
    requires
        0 <= pos,
        wf_blob(s),
        pos + ser_blob(s).len() <= b.len(),
        b.subrange(pos, pos + ser_blob(s).len() as int) == ser_blob(s),
    ensures
        parse_blob(b, pos) == Some((s, pos + ser_blob(s).len())),
{
    lemma_auto_spec_u32_to_from_le_bytes();
    let lenb = ser_u32(s.len() as u32);
    assert(lenb.len() == 4);
    assert(b.subrange(pos, pos + 4) =~= lenb) by {
        assert forall|i: int| 0 <= i < 4 implies b.subrange(pos, pos + 4)[i] == lenb[i] by {
            assert(b.subrange(pos, pos + ser_blob(s).len() as int)[i] == ser_blob(s)[i]);
        }
    }
    lemma_parse_ser_u32(s.len() as u32, b, pos);
    let p = pos + 4;
    assert(b.subrange(p, p + s.len() as int) =~= s) by {
        assert forall|i: int| 0 <= i < s.len() implies b.subrange(p, p + s.len() as int)[i]
            == s[i] by {
            assert(b.subrange(pos, pos + ser_blob(s).len() as int)[4 + i] == ser_blob(s)[4 + i]);
        }
    }
}

fn enc_blob(data: &Vec<u8>, out: &mut Vec<u8>)
    requires
        data@.len() <= u32::MAX,
    ensures
        final(out)@ == old(out)@ + ser_blob(data@),
{
    enc_u32(data.len() as u32, out);
    push_all(out, data);
    proof {
        assert(final(out)@ =~= old(out)@ + ser_blob(data@));
    }
}

fn dec_blob(b: &Vec<u8>, pos: usize) -> (r: Option<(Vec<u8>, usize)>)
    ensures
        match r {
            Some((v, p)) => parse_blob(b@, pos as int) == Some((v@, p as int)) && pos < p
                <= b@.len(),
            None => parse_blob(b@, pos as int) is None,
        },
{
    match dec_u32(b, pos) {
        Some((len, p)) => {
            let len_us = len as usize;
            if len_us <= b.len() && p <= b.len() - len_us {
                let s = slice_subrange(b.as_slice(), p, p + len_us);
                let v = vstd::slice::slice_to_vec(s);
                proof {
                    assert(v@ =~= b@.subrange(p as int, p as int + len as int));
                }
                Some((v, p + len_us))
            } else {
                None
            }
        },
        None => None,
    }
}

/// A string: its UTF-8 bytes as a blob.
pub open spec fn wf_string(s: Seq<char>) -> bool {
    encode_utf8(s).len() <= u32::MAX
}

pub open spec fn ser_string(s: Seq<char>) -> Seq<u8> {
    ser_blob(encode_utf8(s))
}

pub open spec fn parse_string(b: Seq<u8>, pos: int) -> Option<(Seq<char>, int)> {
    match parse_blob(b, pos) {
        Some((bytes, p)) => if valid_utf8(bytes) {
            Some((decode_utf8(bytes), p))
        } else {
            None
        },
        None => None,
    }
}

pub proof fn lemma_parse_ser_string(s: Seq<char>, b: Seq<u8>, pos: int)
    requires
        0 <= pos,
        wf_string(s),
        pos + ser_string(s).len() <= b.len(),
        b.subrange(pos, pos + ser_string(s).len() as int) == ser_string(s),
    ensures
        parse_string(b, pos) == Some((s, pos + ser_string(s).len())),
{
    broadcast use encode_utf8_valid_utf8;

    lemma_parse_ser_blob(encode_utf8(s), b, pos);
    encode_utf8_decode_utf8(s);
}

fn enc_string(s: &String, out: &mut Vec<u8>)
    requires
        wf_string(s@),
    ensures
        final(out)@ == old(out)@ + ser_string(s@),
{
    let bytes = s.as_str().as_bytes_vec();
    enc_blob(&bytes, out);
}

fn dec_string(b: &Vec<u8>, pos: usize) -> (r: Option<(String, usize)>)
    ensures
        match r {
            Some((v, p)) => parse_string(b@, pos as int) == Some((v@, p as int)) && pos < p
                <= b@.len(),
            None => parse_string(b@, pos as int) is None,
        },
{
    match dec_blob(b, pos) {
        Some((bytes, p)) => {
            let ghost bv = bytes@;
            match String::from_utf8(bytes) {
                Ok(s) => {
                    proof {
                        broadcast use encode_utf8_valid_utf8;

                        assert(valid_utf8(bv));
                        encode_utf8_decode_utf8(s@);
                    }
                    Some((s, p))
                },
                Err(_) => None,
            }
        },
        None => None,
    }
}


/// Splitting a matched concatenation in the buffer aligns its two parts.
pub proof fn lemma_subrange_chain(b: Seq<u8>, pos: int, s1: Seq<u8>, s2: Seq<u8>)
    requires
        0 <= pos,
        pos + s1.len() + s2.len() <= b.len(),
        b.subrange(pos, pos + s1.len() + s2.len()) == s1 + s2,
    ensures
        b.subrange(pos, pos + s1.len() as int) == s1,
        b.subrange(pos + s1.len() as int, pos + s1.len() + s2.len()) == s2,
{
    let whole = b.subrange(pos, pos + s1.len() + s2.len());
    assert(b.subrange(pos, pos + s1.len() as int) =~= s1) by {
        assert forall|i: int| 0 <= i < s1.len() implies b.subrange(
            pos,
            pos + s1.len() as int,
        )[i] == s1[i] by {
            assert(whole[i] == (s1 + s2)[i]);
        }
    }
    assert(b.subrange(pos + s1.len() as int, pos + s1.len() + s2.len()) =~= s2) by {
        assert forall|i: int| 0 <= i < s2.len() implies b.subrange(
            pos + s1.len() as int,
            pos + s1.len() + s2.len(),
        )[i] == s2[i] by {
            assert(whole[s1.len() + i] == (s1 + s2)[s1.len() + i]);
        }
    }
}

/// Which field values fit on the wire: every length below the 32-bit frame
/// limit, recursively.
pub open spec fn wf_fv(v: FieldValueV) -> bool
    decreases v,
{
    match v {
        FieldValueV::Text(s) => wf_string(s),
        FieldValueV::Bytes(bs) => wf_blob(bs),
        FieldValueV::Array(a) => a.len() <= u32::MAX && wf_fv_seq(a),
        FieldValueV::Dict(m) => m.len() <= u32::MAX && wf_fv_pairs(m),
        _ => true,
    }
}

pub open spec fn wf_fv_seq(s: Seq<FieldValueV>) -> bool
    decreases s,
{
    s.len() == 0 || (wf_fv(s.first()) && wf_fv_seq(s.drop_first()))
}

pub open spec fn wf_fv_pairs(s: Seq<(Seq<char>, FieldValueV)>) -> bool
    decreases s,
{
    s.len() == 0 || (wf_string(s.first().0) && wf_fv(s.first().1) && wf_fv_pairs(s.drop_first()))
}

/// The encoding of one field value: a tag byte in declaration order, then
/// the payload.
pub open spec fn ser_fv(v: FieldValueV) -> Seq<u8>
    decreases v,
{
    match v {
        FieldValueV::Null => seq![0u8],
        FieldValueV::Bool(x) => seq![1u8] + seq![if x { 1u8 } else { 0u8 }],
        FieldValueV::U8(x) => seq![2u8] + ser_u8(x),
        FieldValueV::U16(x) => seq![3u8] + ser_u16(x),
        FieldValueV::U32(x) => seq![4u8] + ser_u32(x),
        FieldValueV::U64(x) => seq![5u8] + ser_u64(x),
        FieldValueV::I8(x) => seq![6u8] + ser_u8(x as u8),
        FieldValueV::I16(x) => seq![7u8] + ser_u16(x as u16),
        FieldValueV::I32(x) => seq![8u8] + ser_u32(x as u32),
        FieldValueV::I64(x) => seq![9u8] + ser_u64(x as u64),
        FieldValueV::F32(x) => seq![10u8] + ser_u32(x),
        FieldValueV::F64(x) => seq![11u8] + ser_u64(x),
        FieldValueV::Text(s) => seq![12u8] + ser_string(s),
        FieldValueV::Bytes(bs) => seq![13u8] + ser_blob(bs),
        FieldValueV::Array(a) => seq![14u8] + ser_u32(a.len() as u32) + ser_fv_seq(a),
        FieldValueV::Dict(m) => seq![15u8] + ser_u32(m.len() as u32) + ser_fv_pairs(m),
    }
}

pub open spec fn ser_fv_seq(s: Seq<FieldValueV>) -> Seq<u8>
    decreases s,
{
    if s.len() == 0 {
        Seq::empty()
    } else {
        ser_fv(s.first()) + ser_fv_seq(s.drop_first())
    }
}

pub open spec fn ser_fv_pairs(s: Seq<(Seq<char>, FieldValueV)>) -> Seq<u8>
    decreases s,
{
    if s.len() == 0 {
        Seq::empty()
    } else {
        ser_string(s.first().0) + ser_fv(s.first().1) + ser_fv_pairs(s.drop_first())
    }
}

/// Appending one element extends the element-sequence encoding at the end.
pub proof fn lemma_ser_fv_seq_push(s: Seq<FieldValueV>, x: FieldValueV)
    ensures
        ser_fv_seq(s.push(x)) == ser_fv_seq(s) + ser_fv(x),
    decreases s.len(),
{
    if s.len() == 0 {
        assert(s.push(x).first() == x);
        assert(s.push(x).drop_first() =~= Seq::<FieldValueV>::empty());
        assert(ser_fv_seq(Seq::<FieldValueV>::empty()) == Seq::<u8>::empty());
        assert(ser_fv_seq(s.push(x)) =~= ser_fv_seq(s) + ser_fv(x));
    } else {
        assert(s.push(x).first() == s.first());
        assert(s.push(x).drop_first() =~= s.drop_first().push(x));
        lemma_ser_fv_seq_push(s.drop_first(), x);
        assert(ser_fv(s.first()) + (ser_fv_seq(s.drop_first()) + ser_fv(x)) =~= (ser_fv(s.first())
            + ser_fv_seq(s.drop_first())) + ser_fv(x));
    }
}

pub proof fn lemma_ser_fv_pairs_push(s: Seq<(Seq<char>, FieldValueV)>, x: (Seq<char>, FieldValueV))
    ensures
        ser_fv_pairs(s.push(x)) == ser_fv_pairs(s) + (ser_string(x.0) + ser_fv(x.1)),
    decreases s.len(),
{
    if s.len() == 0 {
        assert(s.push(x).first() == x);
        assert(s.push(x).drop_first() =~= Seq::<(Seq<char>, FieldValueV)>::empty());
        assert(ser_fv_pairs(Seq::<(Seq<char>, FieldValueV)>::empty()) == Seq::<u8>::empty());
        assert(ser_fv_pairs(s.push(x)) =~= ser_fv_pairs(s) + (ser_string(x.0) + ser_fv(x.1)));
    } else {
        assert(s.push(x).first() == s.first());
        assert(s.push(x).drop_first() =~= s.drop_first().push(x));
        lemma_ser_fv_pairs_push(s.drop_first(), x);
        assert(ser_string(s.first().0) + ser_fv(s.first().1) + (ser_fv_pairs(s.drop_first()) + (
        ser_string(x.0) + ser_fv(x.1))) =~= (ser_string(s.first().0) + ser_fv(s.first().1)
            + ser_fv_pairs(s.drop_first())) + (ser_string(x.0) + ser_fv(x.1)));
    }
}



/// The parser for one field value.
pub open spec fn parse_fv(b: Seq<u8>, pos: int) -> Option<(FieldValueV, int)>
    decreases b.len() - pos, 0int,
{
    match parse_u8(b, pos) {
        None => None,
        Some((tag, p)) => {
            if tag == 0 {
                Some((FieldValueV::Null, p))
            } else if tag == 1 {
                match parse_u8(b, p) {
                    Some((x, p2)) => if x == 0 {
                        Some((FieldValueV::Bool(false), p2))
                    } else if x == 1 {
                        Some((FieldValueV::Bool(true), p2))
                    } else {
                        None
                    },
                    None => None,
                }
            } else if tag == 2 {
                match parse_u8(b, p) {
                    Some((x, p2)) => Some((FieldValueV::U8(x), p2)),
                    None => None,
                }
            } else if tag == 3 {
                match parse_u16(b, p) {
                    Some((x, p2)) => Some((FieldValueV::U16(x), p2)),
                    None => None,
                }
            } else if tag == 4 {
                match parse_u32(b, p) {
                    Some((x, p2)) => Some((FieldValueV::U32(x), p2)),
                    None => None,
                }
            } else if tag == 5 {
                match parse_u64(b, p) {
                    Some((x, p2)) => Some((FieldValueV::U64(x), p2)),
                    None => None,
                }
            } else if tag == 6 {
                match parse_u8(b, p) {
                    Some((x, p2)) => Some((FieldValueV::I8(x as i8), p2)),
                    None => None,
                }
            } else if tag == 7 {
                match parse_u16(b, p) {
                    Some((x, p2)) => Some((FieldValueV::I16(x as i16), p2)),
                    None => None,
                }
            } else if tag == 8 {
                match parse_u32(b, p) {
                    Some((x, p2)) => Some((FieldValueV::I32(x as i32), p2)),
                    None => None,
                }
            } else if tag == 9 {
                match parse_u64(b, p) {
                    Some((x, p2)) => Some((FieldValueV::I64(x as i64), p2)),
                    None => None,
                }
            } else if tag == 10 {
                match parse_u32(b, p) {
                    Some((x, p2)) => Some((FieldValueV::F32(x), p2)),
                    None => None,
                }
            } else if tag == 11 {
                match parse_u64(b, p) {
                    Some((x, p2)) => Some((FieldValueV::F64(x), p2)),
                    None => None,
                }
            } else if tag == 12 {
                match parse_string(b, p) {
                    Some((s, p2)) => Some((FieldValueV::Text(s), p2)),
                    None => None,
                }
            } else if tag == 13 {
                match parse_blob(b, p) {
                    Some((bs, p2)) => Some((FieldValueV::Bytes(bs), p2)),
                    None => None,
                }
            } else if tag == 14 {
                match parse_u32(b, p) {
                    Some((n, p2)) => if p2 > pos {
                        match parse_fv_seq(b, p2, n as int) {
                            Some((a, p3)) => Some((FieldValueV::Array(a), p3)),
                            None => None,
                        }
                    } else {
                        None
                    },
                    None => None,
                }
            } else if tag == 15 {
                match parse_u32(b, p) {
                    Some((n, p2)) => if p2 > pos {
                        match parse_fv_pairs(b, p2, n as int) {
                            Some((m, p3)) => Some((FieldValueV::Dict(m), p3)),
                            None => None,
                        }
                    } else {
                        None
                    },
                    None => None,
                }
            } else {
                None
            }
        },
    }
}

/// Parse `count` consecutive field values.
pub open spec fn parse_fv_seq(b: Seq<u8>, pos: int, count: int) -> Option<(Seq<FieldValueV>, int)>
    decreases b.len() - pos, count + 1,
{
    if count <= 0 {
        Some((Seq::empty(), pos))
    } else if pos < 0 || pos > b.len() {
        None
    } else {
        match parse_fv(b, pos) {
            Some((v, p)) => if p > pos && p <= b.len() {
                match parse_fv_seq(b, p, count - 1) {
                    Some((rest, p2)) => Some((seq![v] + rest, p2)),
                    None => None,
                }
            } else {
                None
            },
            None => None,
        }
    }
}

/// Parse `count` consecutive name/value pairs.
pub open spec fn parse_fv_pairs(b: Seq<u8>, pos: int, count: int) -> Option<
    (Seq<(Seq<char>, FieldValueV)>, int),
>
    decreases b.len() - pos, count + 1,
{
    if count <= 0 {
        Some((Seq::empty(), pos))
    } else if pos < 0 || pos > b.len() {
        None
    } else {
        match parse_string(b, pos) {
            Some((k, p)) => if p > pos && p <= b.len() {
                match parse_fv(b, p) {
                    Some((v, p2)) => if p2 > p && p2 <= b.len() {
                        match parse_fv_pairs(b, p2, count - 1) {
                            Some((rest, p3)) => Some((seq![(k, v)] + rest, p3)),
                            None => None,
                        }
                    } else {
                        None
                    },
                    None => None,
                }
            } else {
                None
            },
            None => None,
        }
    }
}


/// Element-wise access to sequence well-formedness.
pub proof fn lemma_wf_fv_seq_index(s: Seq<FieldValueV>, i: int)
    requires
        wf_fv_seq(s),
        0 <= i < s.len(),
    ensures
        wf_fv(s[i]),
    decreases i,
{
    if i == 0 {
        assert(s.first() == s[0]);
    } else {
        lemma_wf_fv_seq_index(s.drop_first(), i - 1);
        assert(s.drop_first()[i - 1] == s[i]);
    }
}

pub proof fn lemma_wf_fv_pairs_index(s: Seq<(Seq<char>, FieldValueV)>, i: int)
    requires
        wf_fv_pairs(s),
        0 <= i < s.len(),
    ensures
        wf_string(s[i].0),
        wf_fv(s[i].1),
    decreases i,
{
    if i == 0 {
        assert(s.first() == s[0]);
    } else {
        lemma_wf_fv_pairs_index(s.drop_first(), i - 1);
        assert(s.drop_first()[i - 1] == s[i]);
    }
}

/// Parsing a field-value encoding embedded in a buffer yields the value and
/// stops right after it.
pub proof fn lemma_parse_ser_fv(v: FieldValueV, b: Seq<u8>, pos: int)
    requires
        wf_fv(v),
        0 <= pos,
        pos + ser_fv(v).len() <= b.len(),
        b.subrange(pos, pos + ser_fv(v).len() as int) == ser_fv(v),
    ensures
        parse_fv(b, pos) == Some((v, pos + ser_fv(v).len())),
    decreases v, 0int,
{
    lemma_auto_spec_u16_to_from_le_bytes();
    lemma_auto_spec_u32_to_from_le_bytes();
    lemma_auto_spec_u64_to_from_le_bytes();
    let s = ser_fv(v);
    assert(b[pos] == s[0]) by {
        assert(b.subrange(pos, pos + s.len() as int)[0] == s[0]);
    }
    let p = pos + 1;
    match v {
        FieldValueV::Null => {},
        FieldValueV::Bool(x) => {
            assert(b[p] == s[1]) by {
                assert(b.subrange(pos, pos + s.len() as int)[1] == s[1]);
            }
        },
        FieldValueV::U8(x) => {
            assert(b[p] == s[1]) by {
                assert(b.subrange(pos, pos + s.len() as int)[1] == s[1]);
            }
        },
        FieldValueV::U16(x) => {
            assert(ser_u16(x).len() == 2);
            lemma_subrange_chain(b, pos, seq![3u8], ser_u16(x));
            lemma_parse_ser_u16(x, b, p);
        },
        FieldValueV::U32(x) => {
            assert(ser_u32(x).len() == 4);
            lemma_subrange_chain(b, pos, seq![4u8], ser_u32(x));
            lemma_parse_ser_u32(x, b, p);
        },
        FieldValueV::U64(x) => {
            assert(ser_u64(x).len() == 8);
            lemma_subrange_chain(b, pos, seq![5u8], ser_u64(x));
            lemma_parse_ser_u64(x, b, p);
        },
        FieldValueV::I8(x) => {
            assert(b[p] == s[1]) by {
                assert(b.subrange(pos, pos + s.len() as int)[1] == s[1]);
            }
            assert((x as u8) as i8 == x) by (bit_vector);
        },
        FieldValueV::I16(x) => {
            assert(ser_u16(x as u16).len() == 2);
            lemma_subrange_chain(b, pos, seq![7u8], ser_u16(x as u16));
            lemma_parse_ser_u16(x as u16, b, p);
            assert((x as u16) as i16 == x) by (bit_vector);
        },
        FieldValueV::I32(x) => {
            assert(ser_u32(x as u32).len() == 4);
            lemma_subrange_chain(b, pos, seq![8u8], ser_u32(x as u32));
            lemma_parse_ser_u32(x as u32, b, p);
            assert((x as u32) as i32 == x) by (bit_vector);
        },
        FieldValueV::I64(x) => {
            assert(ser_u64(x as u64).len() == 8);
            lemma_subrange_chain(b, pos, seq![9u8], ser_u64(x as u64));
            lemma_parse_ser_u64(x as u64, b, p);
            assert((x as u64) as i64 == x) by (bit_vector);
        },
        FieldValueV::F32(x) => {
            assert(ser_u32(x).len() == 4);
            lemma_subrange_chain(b, pos, seq![10u8], ser_u32(x));
            lemma_parse_ser_u32(x, b, p);
        },
        FieldValueV::F64(x) => {
            assert(ser_u64(x).len() == 8);
            lemma_subrange_chain(b, pos, seq![11u8], ser_u64(x));
            lemma_parse_ser_u64(x, b, p);
        },
        FieldValueV::Text(t) => {
            lemma_subrange_chain(b, pos, seq![12u8], ser_string(t));
            lemma_parse_ser_string(t, b, p);
        },
        FieldValueV::Bytes(bs) => {
            lemma_subrange_chain(b, pos, seq![13u8], ser_blob(bs));
            lemma_parse_ser_blob(bs, b, p);
        },
        FieldValueV::Array(a) => {
            assert(ser_u32(a.len() as u32).len() == 4);
            assert(ser_fv(v) =~= seq![14u8] + (ser_u32(a.len() as u32) + ser_fv_seq(a)));
            lemma_subrange_chain(b, pos, seq![14u8], ser_u32(a.len() as u32) + ser_fv_seq(a));
            lemma_subrange_chain(b, p, ser_u32(a.len() as u32), ser_fv_seq(a));
            lemma_parse_ser_u32(a.len() as u32, b, p);
            let p2 = p + 4;
            assert(decreases_to!(v => a));
            lemma_parse_ser_fv_seq(a, b, p2);
        },
        FieldValueV::Dict(m) => {
            assert(ser_u32(m.len() as u32).len() == 4);
            assert(ser_fv(v) =~= seq![15u8] + (ser_u32(m.len() as u32) + ser_fv_pairs(m)));
            lemma_subrange_chain(b, pos, seq![15u8], ser_u32(m.len() as u32) + ser_fv_pairs(m));
            lemma_subrange_chain(b, p, ser_u32(m.len() as u32), ser_fv_pairs(m));
            lemma_parse_ser_u32(m.len() as u32, b, p);
            let p2 = p + 4;
            assert(decreases_to!(v => m));
            lemma_parse_ser_fv_pairs(m, b, p2);
        },
    }
}

pub proof fn lemma_parse_ser_fv_seq(s: Seq<FieldValueV>, b: Seq<u8>, pos: int)
    requires
        wf_fv_seq(s),
        0 <= pos,
        pos + ser_fv_seq(s).len() <= b.len(),
        b.subrange(pos, pos + ser_fv_seq(s).len() as int) == ser_fv_seq(s),
    ensures
        parse_fv_seq(b, pos, s.len() as int) == Some((s, pos + ser_fv_seq(s).len())),
    decreases s, 1int,
{
    if s.len() == 0 {
        assert(parse_fv_seq(b, pos, 0) == Some((Seq::<FieldValueV>::empty(), pos)));
        assert(s =~= Seq::<FieldValueV>::empty());
    } else {
        let head = ser_fv(s.first());
        let tail = ser_fv_seq(s.drop_first());
        lemma_subrange_chain(b, pos, head, tail);
        assert(decreases_to!(s => s.first())) by {
            vstd::seq::axiom_seq_index_decreases(s, 0);
            assert(s[0] == s.first());
        }
        lemma_parse_ser_fv(s.first(), b, pos);
        let p = pos + head.len();
        assert(ser_fv(s.first()).len() > 0);
        lemma_parse_ser_fv_seq(s.drop_first(), b, p);
        assert(seq![s.first()] + s.drop_first() =~= s);
    }
}

pub proof fn lemma_parse_ser_fv_pairs(s: Seq<(Seq<char>, FieldValueV)>, b: Seq<u8>, pos: int)
    requires
        wf_fv_pairs(s),
        0 <= pos,
        pos + ser_fv_pairs(s).len() <= b.len(),
        b.subrange(pos, pos + ser_fv_pairs(s).len() as int) == ser_fv_pairs(s),
    ensures
        parse_fv_pairs(b, pos, s.len() as int) == Some((s, pos + ser_fv_pairs(s).len())),
    decreases s, 1int,
{
    if s.len() == 0 {
        assert(parse_fv_pairs(b, pos, 0) == Some((Seq::<(Seq<char>, FieldValueV)>::empty(), pos)));
        assert(s =~= Seq::<(Seq<char>, FieldValueV)>::empty());
    } else {
        let kb = ser_string(s.first().0);
        let vb = ser_fv(s.first().1);
        let tail = ser_fv_pairs(s.drop_first());
        assert(ser_fv_pairs(s) == (kb + vb) + tail);
        lemma_subrange_chain(b, pos, kb + vb, tail);
        lemma_subrange_chain(b, pos, kb, vb);
        lemma_parse_ser_string(s.first().0, b, pos);
        let p = pos + kb.len();
        assert(kb.len() >= 4);
        assert(decreases_to!(s => s.first())) by {
            vstd::seq::axiom_seq_index_decreases(s, 0);
            assert(s[0] == s.first());
        }
        assert(decreases_to!(s.first() => s.first().1));
        lemma_parse_ser_fv(s.first().1, b, p);
        let p2 = p + vb.len();
        assert(vb.len() > 0);
        lemma_parse_ser_fv_pairs(s.drop_first(), b, p2);
        assert(seq![s.first()] + s.drop_first() =~= s);
    }
}


/// Prefix a parsed tail with already-decoded elements.
pub open spec fn prepend_fvs(pre: Seq<FieldValueV>, r: Option<(Seq<FieldValueV>, int)>) -> Option<
    (Seq<FieldValueV>, int),
> {
    match r {
        Some((s, p)) => Some((pre + s, p)),
        None => None,
    }
}

pub open spec fn prepend_pairs(
    pre: Seq<(Seq<char>, FieldValueV)>,
    r: Option<(Seq<(Seq<char>, FieldValueV)>, int)>,
) -> Option<(Seq<(Seq<char>, FieldValueV)>, int)> {
    match r {
        Some((s, p)) => Some((pre + s, p)),
        None => None,
    }
}

/// Encode one field value.
#[verifier::loop_isolation(false)]
fn enc_fv(v: &FieldValue, out: &mut Vec<u8>)
    requires
        wf_fv(v.deep_view()),
    ensures
        final(out)@ == old(out)@ + ser_fv(v.deep_view()),
    decreases v,
{
    broadcast use {crate::protocol::lemma_fv_seq_view_props, crate::protocol::lemma_fv_pairs_view_props};

    match v {
        FieldValue::Null => {
            enc_u8(0, out);
        },
        FieldValue::Bool(x) => {
            enc_u8(1, out);
            enc_u8(if *x { 1 } else { 0 }, out);
            proof {
                assert(final(out)@ =~= old(out)@ + ser_fv(v.deep_view()));
            }
        },
        FieldValue::U8(x) => {
            enc_u8(2, out);
            enc_u8(*x, out);
            proof {
                assert(final(out)@ =~= old(out)@ + ser_fv(v.deep_view()));
            }
        },
        FieldValue::U16(x) => {
            enc_u8(3, out);
            enc_u16(*x, out);
            proof {
                assert(final(out)@ =~= old(out)@ + ser_fv(v.deep_view()));
            }
        },
        FieldValue::U32(x) => {
            enc_u8(4, out);
            enc_u32(*x, out);
            proof {
                assert(final(out)@ =~= old(out)@ + ser_fv(v.deep_view()));
            }
        },
        FieldValue::U64(x) => {
            enc_u8(5, out);
            enc_u64(*x, out);
            proof {
                assert(final(out)@ =~= old(out)@ + ser_fv(v.deep_view()));
            }
        },
        FieldValue::I8(x) => {
            enc_u8(6, out);
            enc_u8(*x as u8, out);
            proof {
                assert(final(out)@ =~= old(out)@ + ser_fv(v.deep_view()));
            }
        },
        FieldValue::I16(x) => {
            enc_u8(7, out);
            enc_u16(*x as u16, out);
            proof {
                assert(final(out)@ =~= old(out)@ + ser_fv(v.deep_view()));
            }
        },
        FieldValue::I32(x) => {
            enc_u8(8, out);
            enc_u32(*x as u32, out);
            proof {
                assert(final(out)@ =~= old(out)@ + ser_fv(v.deep_view()));
            }
        },
        FieldValue::I64(x) => {
            enc_u8(9, out);
            enc_u64(*x as u64, out);
            proof {
                assert(final(out)@ =~= old(out)@ + ser_fv(v.deep_view()));
            }
        },
        FieldValue::F32(x) => {
            enc_u8(10, out);
            enc_u32(*x, out);
            proof {
                assert(final(out)@ =~= old(out)@ + ser_fv(v.deep_view()));
            }
        },
        FieldValue::F64(x) => {
            enc_u8(11, out);
            enc_u64(*x, out);
            proof {
                assert(final(out)@ =~= old(out)@ + ser_fv(v.deep_view()));
            }
        },
        FieldValue::Text(s) => {
            enc_u8(12, out);
            enc_string(s, out);
            proof {
                assert(final(out)@ =~= old(out)@ + ser_fv(v.deep_view()));
            }
        },
        FieldValue::Bytes(bs) => {
            enc_u8(13, out);
            enc_blob(bs, out);
            proof {
                assert(final(out)@ =~= old(out)@ + ser_fv(v.deep_view()));
            }
        },
        FieldValue::Array(a) => {
            let ghost av = crate::protocol::fv_seq_view(a@);
            enc_u8(14, out);
            enc_u32(a.len() as u32, out);
            let ghost base = out@;
            let mut i: usize = 0;
            while i < a.len()
                invariant
                    *v == FieldValue::Array(*a),
                    0 <= i <= a@.len(),
                    out@ == base + ser_fv_seq(av.take(i as int)),
                decreases a@.len() - i,
            {
                proof {
                    assert(decreases_to!(*v => (*v)->Array_0));
                    assert((*v)->Array_0 == *a);
                    assert(decreases_to!(*a => a@));
                    assert(decreases_to!(a@ => a@[i as int]));
                    assert(av[i as int] == crate::protocol::fv_view(a@[i as int]));
                    lemma_wf_fv_seq_index(av, i as int);
                }
                let ghost out0 = out@;
                enc_fv(&a[i], out);
                proof {
                    lemma_ser_fv_seq_push(av.take(i as int), av[i as int]);
                    assert(av.take(i + 1) =~= av.take(i as int).push(av[i as int]));
                    assert(out@ =~= base + ser_fv_seq(av.take(i + 1)));
                }
                i = i + 1;
            }
            proof {
                assert(av.take(a@.len() as int) =~= av);
                assert(final(out)@ =~= old(out)@ + ser_fv(v.deep_view()));
            }
        },
        FieldValue::Dict(m) => {
            let ghost mv = crate::protocol::fv_pairs_view(m@);
            enc_u8(15, out);
            enc_u32(m.len() as u32, out);
            let ghost base = out@;
            let mut i: usize = 0;
            while i < m.len()
                invariant
                    *v == FieldValue::Dict(*m),
                    0 <= i <= m@.len(),
                    out@ == base + ser_fv_pairs(mv.take(i as int)),
                decreases m@.len() - i,
            {
                proof {
                    assert(decreases_to!(*v => (*v)->Dict_0));
                    assert((*v)->Dict_0 == *m);
                    assert(decreases_to!(*m => m@));
                    assert(decreases_to!(m@ => m@[i as int]));
                    assert(decreases_to!(m@[i as int] => m@[i as int].1));
                    assert(mv[i as int] == (m@[i as int].0@, crate::protocol::fv_view(
                        m@[i as int].1,
                    )));
                    lemma_wf_fv_pairs_index(mv, i as int);
                }
                let (k, val) = &m[i];
                enc_string(k, out);
                enc_fv(val, out);
                proof {
                    lemma_ser_fv_pairs_push(mv.take(i as int), mv[i as int]);
                    assert(mv.take(i + 1) =~= mv.take(i as int).push(mv[i as int]));
                    assert(out@ =~= base + ser_fv_pairs(mv.take(i + 1)));
                }
                i = i + 1;
            }
            proof {
                assert(mv.take(m@.len() as int) =~= mv);
                assert(final(out)@ =~= old(out)@ + ser_fv(v.deep_view()));
            }
        },
    }
}

/// Decode one field value.
#[verifier::loop_isolation(false)]
fn dec_fv(b: &Vec<u8>, pos: usize) -> (r: Option<(FieldValue, usize)>)
    ensures
        match r {
            Some((v, p)) => parse_fv(b@, pos as int) == Some((v.deep_view(), p as int)) && pos < p
                <= b@.len(),
            None => parse_fv(b@, pos as int) is None,
        },
    decreases b@.len() - pos, 0int,
{
    broadcast use {crate::protocol::lemma_fv_seq_view_props, crate::protocol::lemma_fv_pairs_view_props};

    let (tag, p) = match dec_u8(b, pos) {
        Some(x) => x,
        None => {
            return None;
        },
    };
    if tag == 0 {
        Some((FieldValue::Null, p))
    } else if tag == 1 {
        match dec_u8(b, p) {
            Some((x, p2)) => {
                if x == 0 {
                    Some((FieldValue::Bool(false), p2))
                } else if x == 1 {
                    Some((FieldValue::Bool(true), p2))
                } else {
                    None
                }
            },
            None => None,
        }
    } else if tag == 2 {
        match dec_u8(b, p) {
            Some((x, p2)) => Some((FieldValue::U8(x), p2)),
            None => None,
        }
    } else if tag == 3 {
        match dec_u16(b, p) {
            Some((x, p2)) => Some((FieldValue::U16(x), p2)),
            None => None,
        }
    } else if tag == 4 {
        match dec_u32(b, p) {
            Some((x, p2)) => Some((FieldValue::U32(x), p2)),
            None => None,
        }
    } else if tag == 5 {
        match dec_u64(b, p) {
            Some((x, p2)) => Some((FieldValue::U64(x), p2)),
            None => None,
        }
    } else if tag == 6 {
        match dec_u8(b, p) {
            Some((x, p2)) => Some((FieldValue::I8(x as i8), p2)),
            None => None,
        }
    } else if tag == 7 {
        match dec_u16(b, p) {
            Some((x, p2)) => Some((FieldValue::I16(x as i16), p2)),
            None => None,
        }
    } else if tag == 8 {
        match dec_u32(b, p) {
            Some((x, p2)) => Some((FieldValue::I32(x as i32), p2)),
            None => None,
        }
    } else if tag == 9 {
        match dec_u64(b, p) {
            Some((x, p2)) => Some((FieldValue::I64(x as i64), p2)),
            None => None,
        }
    } else if tag == 10 {
        match dec_u32(b, p) {
            Some((x, p2)) => Some((FieldValue::F32(x), p2)),
            None => None,
        }
    } else if tag == 11 {
        match dec_u64(b, p) {
            Some((x, p2)) => Some((FieldValue::F64(x), p2)),
            None => None,
        }
    } else if tag == 12 {
        match dec_string(b, p) {
            Some((s, p2)) => Some((FieldValue::Text(s), p2)),
            None => None,
        }
    } else if tag == 13 {
        match dec_blob(b, p) {
            Some((bs, p2)) => Some((FieldValue::Bytes(bs), p2)),
            None => None,
        }
    } else if tag == 14 {
        match dec_u32(b, p) {
            Some((n, p2)) => {
                match dec_fv_list(b, p2, n) {
                    Some((items, p3)) => {
                        let r = FieldValue::Array(items);
                        proof {
                            crate::protocol::lemma_vec_fv_deep_view(r->Array_0);
                        }
                        Some((r, p3))
                    },
                    None => None,
                }
            },
            None => None,
        }
    } else if tag == 15 {
        match dec_u32(b, p) {
            Some((n, p2)) => {
                match dec_pair_list(b, p2, n) {
                    Some((items, p3)) => {
                        let r = FieldValue::Dict(items);
                        proof {
                            crate::protocol::lemma_vec_fv_pairs_deep_view(r->Dict_0);
                        }
                        Some((r, p3))
                    },
                    None => None,
                }
            },
            None => None,
        }
    } else {
        None
    }
}

/// Decode `count` consecutive field values.
#[verifier::loop_isolation(false)]
fn dec_fv_list(b: &Vec<u8>, pos: usize, count: u32) -> (r: Option<(Vec<FieldValue>, usize)>)
    requires
        pos <= b@.len(),
    ensures
        match r {
            Some((v, p)) => parse_fv_seq(b@, pos as int, count as int) == Some(
                (v.deep_view(), p as int),
            ) && pos <= p <= b@.len(),
            None => parse_fv_seq(b@, pos as int, count as int) is None,
        },
    decreases b@.len() - pos, 1int,
{
    broadcast use crate::protocol::lemma_fv_seq_view_props;

    let ghost target = parse_fv_seq(b@, pos as int, count as int);
    let mut acc: Vec<FieldValue> = Vec::new();
    let mut cur: usize = pos;
    let mut i: u32 = 0;
    proof {
        assert(acc.deep_view() =~= Seq::<FieldValueV>::empty());
        assert(prepend_fvs(acc.deep_view(), parse_fv_seq(b@, cur as int, (count - i) as int))
            == target) by {
            if parse_fv_seq(b@, cur as int, count as int) is Some {
                assert(Seq::<FieldValueV>::empty() + parse_fv_seq(
                    b@,
                    cur as int,
                    count as int,
                )->Some_0.0 =~= parse_fv_seq(b@, cur as int, count as int)->Some_0.0);
            }
        }
    }
    while i < count
        invariant
            0 <= i <= count,
            pos <= cur <= b@.len(),
            prepend_fvs(acc.deep_view(), parse_fv_seq(b@, cur as int, (count - i) as int))
                == target,
        decreases count - i,
    {
        match dec_fv(b, cur) {
            Some((v, p)) => {
                let ghost acc0 = acc.deep_view();
                let ghost rest = parse_fv_seq(b@, p as int, (count - i - 1) as int);
                proof {
                    assert(parse_fv_seq(b@, cur as int, (count - i) as int) == match rest {
                        Some((rs, rp)) => Some((seq![v.deep_view()] + rs, rp)),
                        None => None,
                    });
                }
                acc.push(v);
                proof {
                    assert(acc.deep_view() =~= acc0.push(v.deep_view()));
                    if rest is Some {
                        assert(acc0 + (seq![v.deep_view()] + rest->Some_0.0) =~= acc0.push(
                            v.deep_view(),
                        ) + rest->Some_0.0);
                    }
                }
                cur = p;
                i = i + 1;
            },
            None => {
                return None;
            },
        }
    }
    proof {
        assert(parse_fv_seq(b@, cur as int, 0) == Some((Seq::<FieldValueV>::empty(), cur as int)));
        assert(acc.deep_view() + Seq::<FieldValueV>::empty() =~= acc.deep_view());
    }
    Some((acc, cur))
}

/// Decode `count` consecutive name/value pairs.
#[verifier::loop_isolation(false)]
fn dec_pair_list(b: &Vec<u8>, pos: usize, count: u32) -> (r: Option<
    (Vec<(String, FieldValue)>, usize),
>)
    requires
        pos <= b@.len(),
    ensures
        match r {
            Some((v, p)) => parse_fv_pairs(b@, pos as int, count as int) == Some(
                (v.deep_view(), p as int),
            ) && pos <= p <= b@.len(),
            None => parse_fv_pairs(b@, pos as int, count as int) is None,
        },
    decreases b@.len() - pos, 1int,
{
    broadcast use crate::protocol::lemma_fv_pairs_view_props;

    let ghost target = parse_fv_pairs(b@, pos as int, count as int);
    let mut acc: Vec<(String, FieldValue)> = Vec::new();
    let mut cur: usize = pos;
    let mut i: u32 = 0;
    proof {
        assert(acc.deep_view() =~= Seq::<(Seq<char>, FieldValueV)>::empty());
        assert(prepend_pairs(acc.deep_view(), parse_fv_pairs(b@, cur as int, (count - i) as int))
            == target) by {
            if parse_fv_pairs(b@, cur as int, count as int) is Some {
                assert(Seq::<(Seq<char>, FieldValueV)>::empty() + parse_fv_pairs(
                    b@,
                    cur as int,
                    count as int,
                )->Some_0.0 =~= parse_fv_pairs(b@, cur as int, count as int)->Some_0.0);
            }
        }
    }
    while i < count
        invariant
            0 <= i <= count,
            pos <= cur <= b@.len(),
            prepend_pairs(acc.deep_view(), parse_fv_pairs(b@, cur as int, (count - i) as int))
                == target,
        decreases count - i,
    {
        let (k, p1) = match dec_string(b, cur) {
            Some(x) => x,
            None => {
                return None;
            },
        };
        match dec_fv(b, p1) {
            Some((v, p2)) => {
                let ghost acc0 = acc.deep_view();
                let ghost rest = parse_fv_pairs(b@, p2 as int, (count - i - 1) as int);
                proof {
                    assert(parse_fv_pairs(b@, cur as int, (count - i) as int) == match rest {
                        Some((rs, rp)) => Some((seq![(k@, v.deep_view())] + rs, rp)),
                        None => None,
                    });
                }
                acc.push((k, v));
                proof {
                    assert(acc.deep_view() =~= acc0.push(
                        (acc@.last().0@, acc@.last().1.deep_view()),
                    ));
                    if rest is Some {
                        assert(acc0 + (seq![(acc@.last().0@, acc@.last().1.deep_view())]
                            + rest->Some_0.0) =~= acc0.push(
                            (acc@.last().0@, acc@.last().1.deep_view()),
                        ) + rest->Some_0.0);
                    }
                }
                cur = p2;
                i = i + 1;
            },
            None => {
                return None;
            },
        }
    }
    proof {
        assert(parse_fv_pairs(b@, cur as int, 0) == Some(
            (Seq::<(Seq<char>, FieldValueV)>::empty(), cur as int),
        ));
        assert(acc.deep_view() + Seq::<(Seq<char>, FieldValueV)>::empty() =~= acc.deep_view());
    }
    Some((acc, cur))
}


/// Which component payloads fit on the wire.
pub open spec fn wf_data(d: ComponentDataV) -> bool {
    match d {
        ComponentDataV::Binary(bs) => wf_blob(bs),
        ComponentDataV::Json(s) => wf_string(s),
        ComponentDataV::Structured(m) => m.len() <= u32::MAX && wf_fv_pairs(m),
    }
}

/// The encoding of one component payload: a tag byte, then the content.
pub open spec fn ser_data(d: ComponentDataV) -> Seq<u8> {
    match d {
        ComponentDataV::Binary(bs) => seq![0u8] + ser_blob(bs),
        ComponentDataV::Json(s) => seq![1u8] + ser_string(s),
        ComponentDataV::Structured(m) => seq![2u8] + ser_u32(m.len() as u32) + ser_fv_pairs(m),
    }
}

pub open spec fn parse_data(b: Seq<u8>, pos: int) -> Option<(ComponentDataV, int)> {
    match parse_u8(b, pos) {
        None => None,
        Some((tag, p)) => {
            if tag == 0 {
                match parse_blob(b, p) {
                    Some((bs, p2)) => Some((ComponentDataV::Binary(bs), p2)),
                    None => None,
                }
            } else if tag == 1 {
                match parse_string(b, p) {
                    Some((s, p2)) => Some((ComponentDataV::Json(s), p2)),
                    None => None,
                }
            } else if tag == 2 {
                match parse_u32(b, p) {
                    Some((n, p2)) => match parse_fv_pairs(b, p2, n as int) {
                        Some((m, p3)) => Some((ComponentDataV::Structured(m), p3)),
                        None => None,
                    },
                    None => None,
                }
            } else {
                None
            }
        },
    }
}

pub proof fn lemma_parse_ser_data(d: ComponentDataV, b: Seq<u8>, pos: int)
    requires
        wf_data(d),
        0 <= pos,
        pos + ser_data(d).len() <= b.len(),
        b.subrange(pos, pos + ser_data(d).len() as int) == ser_data(d),
    ensures
        parse_data(b, pos) == Some((d, pos + ser_data(d).len())),
{
    lemma_auto_spec_u32_to_from_le_bytes();
    let s = ser_data(d);
    assert(b[pos] == s[0]) by {
        assert(b.subrange(pos, pos + s.len() as int)[0] == s[0]);
    }
    let p = pos + 1;
    match d {
        ComponentDataV::Binary(bs) => {
            lemma_subrange_chain(b, pos, seq![0u8], ser_blob(bs));
            lemma_parse_ser_blob(bs, b, p);
        },
        ComponentDataV::Json(t) => {
            lemma_subrange_chain(b, pos, seq![1u8], ser_string(t));
            lemma_parse_ser_string(t, b, p);
        },
        ComponentDataV::Structured(m) => {
            assert(ser_u32(m.len() as u32).len() == 4);
            assert(ser_data(d) =~= seq![2u8] + (ser_u32(m.len() as u32) + ser_fv_pairs(m)));
            lemma_subrange_chain(b, pos, seq![2u8], ser_u32(m.len() as u32) + ser_fv_pairs(m));
            lemma_subrange_chain(b, p, ser_u32(m.len() as u32), ser_fv_pairs(m));
            lemma_parse_ser_u32(m.len() as u32, b, p);
            lemma_parse_ser_fv_pairs(m, b, p + 4);
        },
    }
}

fn enc_data(d: &ComponentData, out: &mut Vec<u8>)
    requires
        wf_data(d.deep_view()),
    ensures
        final(out)@ == old(out)@ + ser_data(d.deep_view()),
{
    broadcast use crate::protocol::lemma_fv_pairs_view_props;

    match d {
        ComponentData::Binary(bs) => {
            enc_u8(0, out);
            enc_blob(bs, out);
            proof {
                assert(final(out)@ =~= old(out)@ + ser_data(d.deep_view()));
            }
        },
        ComponentData::Json(s) => {
            enc_u8(1, out);
            enc_string(s, out);
            proof {
                assert(final(out)@ =~= old(out)@ + ser_data(d.deep_view()));
            }
        },
        ComponentData::Structured(m) => {
            proof {
                crate::protocol::lemma_vec_fv_pairs_deep_view(*m);
            }
            enc_u8(2, out);
            enc_u32(m.len() as u32, out);
            enc_pairs(m, out);
            proof {
                assert(final(out)@ =~= old(out)@ + ser_data(d.deep_view()));
            }
        },
    }
}

/// Encode a list of name/value pairs in order.
#[verifier::loop_isolation(false)]
fn enc_pairs(m: &Vec<(String, FieldValue)>, out: &mut Vec<u8>)
    requires
        wf_fv_pairs(m.deep_view()),
    ensures
        final(out)@ == old(out)@ + ser_fv_pairs(m.deep_view()),
{
    broadcast use crate::protocol::lemma_fv_pairs_view_props;

    proof {
        crate::protocol::lemma_vec_fv_pairs_deep_view(*m);
    }
    let ghost mv = crate::protocol::fv_pairs_view(m@);
    let ghost base = out@;
    let mut i: usize = 0;
    while i < m.len()
        invariant
            0 <= i <= m@.len(),
            out@ == base + ser_fv_pairs(mv.take(i as int)),
        decreases m@.len() - i,
    {
        proof {
            assert(mv[i as int] == (m@[i as int].0@, crate::protocol::fv_view(m@[i as int].1)));
            lemma_wf_fv_pairs_index(mv, i as int);
        }
        let (k, val) = &m[i];
        enc_string(k, out);
        enc_fv(val, out);
        proof {
            lemma_ser_fv_pairs_push(mv.take(i as int), mv[i as int]);
            assert(mv.take(i + 1) =~= mv.take(i as int).push(mv[i as int]));
            assert(out@ =~= base + ser_fv_pairs(mv.take(i + 1)));
        }
        i = i + 1;
    }
    proof {
        assert(mv.take(m@.len() as int) =~= mv);
    }
}

fn dec_data(b: &Vec<u8>, pos: usize) -> (r: Option<(ComponentData, usize)>)
    ensures
        match r {
            Some((v, p)) => parse_data(b@, pos as int) == Some((v.deep_view(), p as int)) && pos
                < p <= b@.len(),
            None => parse_data(b@, pos as int) is None,
        },
{
    let (tag, p) = match dec_u8(b, pos) {
        Some(x) => x,
        None => {
            return None;
        },
    };
    if tag == 0 {
        match dec_blob(b, p) {
            Some((bs, p2)) => Some((ComponentData::Binary(bs), p2)),
            None => None,
        }
    } else if tag == 1 {
        match dec_string(b, p) {
            Some((s, p2)) => Some((ComponentData::Json(s), p2)),
            None => None,
        }
    } else if tag == 2 {
        match dec_u32(b, p) {
            Some((n, p2)) => {
                match dec_pair_list(b, p2, n) {
                    Some((items, p3)) => {
                        let r = ComponentData::Structured(items);
                        proof {
                            crate::protocol::lemma_vec_fv_pairs_deep_view(r->Structured_0);
                        }
                        Some((r, p3))
                    },
                    None => None,
                }
            },
            None => None,
        }
    } else {
        None
    }
}

/// Which components fit on the wire.
pub open spec fn wf_component(c: SerializedComponentV) -> bool {
    wf_string(c.id) && wf_data(c.data)
}

pub open spec fn ser_component(c: SerializedComponentV) -> Seq<u8> {
    ser_string(c.id) + ser_data(c.data)
}

pub open spec fn parse_component(b: Seq<u8>, pos: int) -> Option<(SerializedComponentV, int)> {
    match parse_string(b, pos) {
        Some((id, p)) => if p > pos && p <= b.len() {
            match parse_data(b, p) {
                Some((data, p2)) => Some((SerializedComponentV { id, data }, p2)),
                None => None,
            }
        } else {
            None
        },
        None => None,
    }
}

pub proof fn lemma_parse_ser_component(c: SerializedComponentV, b: Seq<u8>, pos: int)
    requires
        wf_component(c),
        0 <= pos,
        pos + ser_component(c).len() <= b.len(),
        b.subrange(pos, pos + ser_component(c).len() as int) == ser_component(c),
    ensures
        parse_component(b, pos) == Some((c, pos + ser_component(c).len())),
{
    lemma_auto_spec_u32_to_from_le_bytes();
    lemma_subrange_chain(b, pos, ser_string(c.id), ser_data(c.data));
    lemma_parse_ser_string(c.id, b, pos);
    assert(ser_string(c.id).len() >= 4);
    lemma_parse_ser_data(c.data, b, pos + ser_string(c.id).len());
}

fn enc_component(c: &SerializedComponent, out: &mut Vec<u8>)
    requires
        wf_component(c.deep_view()),
    ensures
        final(out)@ == old(out)@ + ser_component(c.deep_view()),
{
    enc_string(&c.id, out);
    enc_data(&c.data, out);
    proof {
        assert(final(out)@ =~= old(out)@ + ser_component(c.deep_view()));
    }
}

fn dec_component(b: &Vec<u8>, pos: usize) -> (r: Option<(SerializedComponent, usize)>)
    ensures
        match r {
            Some((v, p)) => parse_component(b@, pos as int) == Some((v.deep_view(), p as int))
                && pos < p <= b@.len(),
            None => parse_component(b@, pos as int) is None,
        },
{
    let (id, p) = match dec_string(b, pos) {
        Some(x) => x,
        None => {
            return None;
        },
    };
    match dec_data(b, p) {
        Some((data, p2)) => Some((SerializedComponent { id, data }, p2)),
        None => None,
    }
}

/// Which entities fit on the wire.
pub open spec fn wf_components(cs: Seq<SerializedComponentV>) -> bool
    decreases cs,
{
    cs.len() == 0 || (wf_component(cs.first()) && wf_components(cs.drop_first()))
}

pub open spec fn wf_entity(e: SerializedEntityV) -> bool {
    e.components.len() <= u32::MAX && wf_components(e.components)
}

pub open spec fn ser_components(cs: Seq<SerializedComponentV>) -> Seq<u8>
    decreases cs,
{
    if cs.len() == 0 {
        Seq::empty()
    } else {
        ser_component(cs.first()) + ser_components(cs.drop_first())
    }
}

pub open spec fn ser_entity(e: SerializedEntityV) -> Seq<u8> {
    ser_u32(e.id) + ser_u32(e.components.len() as u32) + ser_components(e.components)
}

pub open spec fn parse_components(b: Seq<u8>, pos: int, count: int) -> Option<
    (Seq<SerializedComponentV>, int),
>
    decreases b.len() - pos, count + 1,
{
    if count <= 0 {
        Some((Seq::empty(), pos))
    } else if pos < 0 || pos > b.len() {
        None
    } else {
        match parse_component(b, pos) {
            Some((c, p)) => if p > pos && p <= b.len() {
                match parse_components(b, p, count - 1) {
                    Some((rest, p2)) => Some((seq![c] + rest, p2)),
                    None => None,
                }
            } else {
                None
            },
            None => None,
        }
    }
}

pub open spec fn parse_entity(b: Seq<u8>, pos: int) -> Option<(SerializedEntityV, int)> {
    match parse_u32(b, pos) {
        Some((id, p)) => match parse_u32(b, p) {
            Some((n, p2)) => if p2 <= b.len() {
                match parse_components(b, p2, n as int) {
                    Some((cs, p3)) => Some((SerializedEntityV { id, components: cs }, p3)),
                    None => None,
                }
            } else {
                None
            },
            None => None,
        },
        None => None,
    }
}


pub proof fn lemma_wf_components_index(s: Seq<SerializedComponentV>, i: int)
    requires
        wf_components(s),
        0 <= i < s.len(),
    ensures
        wf_component(s[i]),
    decreases i,
{
    if i == 0 {
        assert(s.first() == s[0]);
    } else {
        lemma_wf_components_index(s.drop_first(), i - 1);
        assert(s.drop_first()[i - 1] == s[i]);
    }
}

pub proof fn lemma_ser_components_push(s: Seq<SerializedComponentV>, x: SerializedComponentV)
    ensures
        ser_components(s.push(x)) == ser_components(s) + ser_component(x),
    decreases s.len(),
{
    if s.len() == 0 {
        assert(s.push(x).first() == x);
        assert(s.push(x).drop_first() =~= Seq::<SerializedComponentV>::empty());
        assert(ser_components(Seq::<SerializedComponentV>::empty()) == Seq::<u8>::empty());
        assert(ser_components(s.push(x)) =~= ser_components(s) + ser_component(x));
    } else {
        assert(s.push(x).first() == s.first());
        assert(s.push(x).drop_first() =~= s.drop_first().push(x));
        lemma_ser_components_push(s.drop_first(), x);
        assert(ser_component(s.first()) + (ser_components(s.drop_first()) + ser_component(x)) =~= (
        ser_component(s.first()) + ser_components(s.drop_first())) + ser_component(x));
    }
}

pub proof fn lemma_parse_ser_components(s: Seq<SerializedComponentV>, b: Seq<u8>, pos: int)
    requires
        wf_components(s),
        0 <= pos,
        pos + ser_components(s).len() <= b.len(),
        b.subrange(pos, pos + ser_components(s).len() as int) == ser_components(s),
    ensures
        parse_components(b, pos, s.len() as int) == Some((s, pos + ser_components(s).len())),
    decreases s.len(),
{
    if s.len() == 0 {
        assert(s =~= Seq::<SerializedComponentV>::empty());
    } else {
        let head = ser_component(s.first());
        let tail = ser_components(s.drop_first());
        lemma_subrange_chain(b, pos, head, tail);
        lemma_parse_ser_component(s.first(), b, pos);
        lemma_auto_spec_u32_to_from_le_bytes();
        assert(head.len() >= 4);
        lemma_parse_ser_components(s.drop_first(), b, pos + head.len());
        assert(seq![s.first()] + s.drop_first() =~= s);
    }
}

pub proof fn lemma_parse_ser_entity(e: SerializedEntityV, b: Seq<u8>, pos: int)
    requires
        wf_entity(e),
        0 <= pos,
        pos + ser_entity(e).len() <= b.len(),
        b.subrange(pos, pos + ser_entity(e).len() as int) == ser_entity(e),
    ensures
        parse_entity(b, pos) == Some((e, pos + ser_entity(e).len())),
{
    lemma_auto_spec_u32_to_from_le_bytes();
    assert(ser_entity(e) =~= ser_u32(e.id) + (ser_u32(e.components.len() as u32) + ser_components(
        e.components,
    )));
    lemma_subrange_chain(
        b,
        pos,
        ser_u32(e.id),
        ser_u32(e.components.len() as u32) + ser_components(e.components),
    );
    lemma_subrange_chain(
        b,
        pos + 4,
        ser_u32(e.components.len() as u32),
        ser_components(e.components),
    );
    lemma_parse_ser_u32(e.id, b, pos);
    lemma_parse_ser_u32(e.components.len() as u32, b, pos + 4);
    lemma_parse_ser_components(e.components, b, pos + 8);
}

#[verifier::loop_isolation(false)]
fn enc_entity(e: &SerializedEntity, out: &mut Vec<u8>)
    requires
        wf_entity(e.deep_view()),
    ensures
        final(out)@ == old(out)@ + ser_entity(e.deep_view()),
{
    let ghost cv = e.components.deep_view();
    enc_u32(e.id, out);
    enc_u32(e.components.len() as u32, out);
    let ghost base = out@;
    let mut i: usize = 0;
    while i < e.components.len()
        invariant
            0 <= i <= e.components@.len(),
            out@ == base + ser_components(cv.take(i as int)),
        decreases e.components@.len() - i,
    {
        proof {
            assert(cv[i as int] == e.components@[i as int].deep_view());
            lemma_wf_components_index(cv, i as int);
        }
        enc_component(&e.components[i], out);
        proof {
            lemma_ser_components_push(cv.take(i as int), cv[i as int]);
            assert(cv.take(i + 1) =~= cv.take(i as int).push(cv[i as int]));
            assert(out@ =~= base + ser_components(cv.take(i + 1)));
        }
        i = i + 1;
    }
    proof {
        assert(cv.take(e.components@.len() as int) =~= cv);
        assert(final(out)@ =~= old(out)@ + ser_entity(e.deep_view()));
    }
}

pub open spec fn prepend_components(
    pre: Seq<SerializedComponentV>,
    r: Option<(Seq<SerializedComponentV>, int)>,
) -> Option<(Seq<SerializedComponentV>, int)> {
    match r {
        Some((s, p)) => Some((pre + s, p)),
        None => None,
    }
}

#[verifier::loop_isolation(false)]
fn dec_component_list(b: &Vec<u8>, pos: usize, count: u32) -> (r: Option<
    (Vec<SerializedComponent>, usize),
>)
    requires
        pos <= b@.len(),
    ensures
        match r {
            Some((v, p)) => parse_components(b@, pos as int, count as int) == Some(
                (v.deep_view(), p as int),
            ) && pos <= p <= b@.len(),
            None => parse_components(b@, pos as int, count as int) is None,
        },
{
    let ghost target = parse_components(b@, pos as int, count as int);
    let mut acc: Vec<SerializedComponent> = Vec::new();
    let mut cur: usize = pos;
    let mut i: u32 = 0;
    proof {
        assert(acc.deep_view() =~= Seq::<SerializedComponentV>::empty());
        if parse_components(b@, cur as int, count as int) is Some {
            assert(Seq::<SerializedComponentV>::empty() + parse_components(
                b@,
                cur as int,
                count as int,
            )->Some_0.0 =~= parse_components(b@, cur as int, count as int)->Some_0.0);
        }
    }
    while i < count
        invariant
            0 <= i <= count,
            pos <= cur <= b@.len(),
            prepend_components(
                acc.deep_view(),
                parse_components(b@, cur as int, (count - i) as int),
            ) == target,
        decreases count - i,
    {
        match dec_component(b, cur) {
            Some((v, p)) => {
                let ghost acc0 = acc.deep_view();
                let ghost rest = parse_components(b@, p as int, (count - i - 1) as int);
                acc.push(v);
                proof {
                    assert(acc.deep_view() =~= acc0.push(acc@.last().deep_view()));
                    if rest is Some {
                        assert(acc0 + (seq![acc@.last().deep_view()] + rest->Some_0.0)
                            =~= acc0.push(acc@.last().deep_view()) + rest->Some_0.0);
                    }
                }
                cur = p;
                i = i + 1;
            },
            None => {
                return None;
            },
        }
    }
    proof {
        assert(acc.deep_view() + Seq::<SerializedComponentV>::empty() =~= acc.deep_view());
    }
    Some((acc, cur))
}

fn dec_entity(b: &Vec<u8>, pos: usize) -> (r: Option<(SerializedEntity, usize)>)
    ensures
        match r {
            Some((v, p)) => parse_entity(b@, pos as int) == Some((v.deep_view(), p as int)) && pos
                < p <= b@.len(),
            None => parse_entity(b@, pos as int) is None,
        },
{
    let (id, p) = match dec_u32(b, pos) {
        Some(x) => x,
        None => {
            return None;
        },
    };
    let (n, p2) = match dec_u32(b, p) {
        Some(x) => x,
        None => {
            return None;
        },
    };
    match dec_component_list(b, p2, n) {
        Some((components, p3)) => {
            if p3 > pos {
                Some((SerializedEntity { id, components }, p3))
            } else {
                proof {
                    assert(false);
                }
                None
            }
        },
        None => None,
    }
}

/// Which snapshots fit on the wire.
pub open spec fn wf_entities(es: Seq<SerializedEntityV>) -> bool
    decreases es,
{
    es.len() == 0 || (wf_entity(es.first()) && wf_entities(es.drop_first()))
}

pub open spec fn wf_snapshot(s: WorldSnapshotV) -> bool {
    s.entities.len() <= u32::MAX && wf_entities(s.entities) && wf_string(s.version)
}

pub open spec fn ser_entities(es: Seq<SerializedEntityV>) -> Seq<u8>
    decreases es,
{
    if es.len() == 0 {
        Seq::empty()
    } else {
        ser_entity(es.first()) + ser_entities(es.drop_first())
    }
}

/// The encoding of a whole snapshot: entity count, entities, timestamp,
/// version tag.
pub open spec fn ser_snapshot(s: WorldSnapshotV) -> Seq<u8> {
    ser_u32(s.entities.len() as u32) + ser_entities(s.entities) + ser_u64(s.timestamp)
        + ser_string(s.version)
}

pub open spec fn parse_entities(b: Seq<u8>, pos: int, count: int) -> Option<
    (Seq<SerializedEntityV>, int),
>
    decreases b.len() - pos, count + 1,
{
    if count <= 0 {
        Some((Seq::empty(), pos))
    } else if pos < 0 || pos > b.len() {
        None
    } else {
        match parse_entity(b, pos) {
            Some((e, p)) => if p > pos && p <= b.len() {
                match parse_entities(b, p, count - 1) {
                    Some((rest, p2)) => Some((seq![e] + rest, p2)),
                    None => None,
                }
            } else {
                None
            },
            None => None,
        }
    }
}

pub open spec fn parse_snapshot(b: Seq<u8>, pos: int) -> Option<(WorldSnapshotV, int)> {
    match parse_u32(b, pos) {
        Some((n, p)) => if p <= b.len() {
            match parse_entities(b, p, n as int) {
                Some((es, p2)) => match parse_u64(b, p2) {
                    Some((timestamp, p3)) => match parse_string(b, p3) {
                        Some((version, p4)) => Some(
                            (WorldSnapshotV { entities: es, timestamp, version }, p4),
                        ),
                        None => None,
                    },
                    None => None,
                },
                None => None,
            }
        } else {
            None
        },
        None => None,
    }
}


pub proof fn lemma_wf_entities_index(s: Seq<SerializedEntityV>, i: int)
    requires
        wf_entities(s),
        0 <= i < s.len(),
    ensures
        wf_entity(s[i]),
    decreases i,
{
    if i == 0 {
        assert(s.first() == s[0]);
    } else {
        lemma_wf_entities_index(s.drop_first(), i - 1);
        assert(s.drop_first()[i - 1] == s[i]);
    }
}

pub proof fn lemma_ser_entities_push(s: Seq<SerializedEntityV>, x: SerializedEntityV)
    ensures
        ser_entities(s.push(x)) == ser_entities(s) + ser_entity(x),
    decreases s.len(),
{
    if s.len() == 0 {
        assert(s.push(x).first() == x);
        assert(s.push(x).drop_first() =~= Seq::<SerializedEntityV>::empty());
        assert(ser_entities(Seq::<SerializedEntityV>::empty()) == Seq::<u8>::empty());
        assert(ser_entities(s.push(x)) =~= ser_entities(s) + ser_entity(x));
    } else {
        assert(s.push(x).first() == s.first());
        assert(s.push(x).drop_first() =~= s.drop_first().push(x));
        lemma_ser_entities_push(s.drop_first(), x);
        assert(ser_entity(s.first()) + (ser_entities(s.drop_first()) + ser_entity(x)) =~= (
        ser_entity(s.first()) + ser_entities(s.drop_first())) + ser_entity(x));
    }
}

pub proof fn lemma_parse_ser_entities(s: Seq<SerializedEntityV>, b: Seq<u8>, pos: int)
    requires
        wf_entities(s),
        0 <= pos,
        pos + ser_entities(s).len() <= b.len(),
        b.subrange(pos, pos + ser_entities(s).len() as int) == ser_entities(s),
    ensures
        parse_entities(b, pos, s.len() as int) == Some((s, pos + ser_entities(s).len())),
    decreases s.len(),
{
    if s.len() == 0 {
        assert(s =~= Seq::<SerializedEntityV>::empty());
    } else {
        let head = ser_entity(s.first());
        let tail = ser_entities(s.drop_first());
        lemma_subrange_chain(b, pos, head, tail);
        lemma_parse_ser_entity(s.first(), b, pos);
        lemma_auto_spec_u32_to_from_le_bytes();
        assert(head.len() >= 8);
        lemma_parse_ser_entities(s.drop_first(), b, pos + head.len());
        assert(seq![s.first()] + s.drop_first() =~= s);
    }
}

/// Round trip: parsing a snapshot's encoding — with anything after it in
/// the buffer — yields the snapshot back.
pub proof fn lemma_parse_ser_snapshot(s: WorldSnapshotV, b: Seq<u8>, pos: int)
    requires
        wf_snapshot(s),
        0 <= pos,
        pos + ser_snapshot(s).len() <= b.len(),
        b.subrange(pos, pos + ser_snapshot(s).len() as int) == ser_snapshot(s),
    ensures
        parse_snapshot(b, pos) == Some((s, pos + ser_snapshot(s).len())),
{
    lemma_auto_spec_u32_to_from_le_bytes();
    lemma_auto_spec_u64_to_from_le_bytes();
    let p1 = ser_u32(s.entities.len() as u32);
    let p2 = ser_entities(s.entities);
    let p3 = ser_u64(s.timestamp);
    let p4 = ser_string(s.version);
    assert(ser_snapshot(s) =~= p1 + (p2 + (p3 + p4)));
    lemma_subrange_chain(b, pos, p1, p2 + (p3 + p4));
    lemma_subrange_chain(b, pos + 4, p2, p3 + p4);
    lemma_subrange_chain(b, pos + 4 + p2.len(), p3, p4);
    lemma_parse_ser_u32(s.entities.len() as u32, b, pos);
    lemma_parse_ser_entities(s.entities, b, pos + 4);
    lemma_parse_ser_u64(s.timestamp, b, pos + 4 + p2.len());
    lemma_parse_ser_string(s.version, b, pos + 4 + p2.len() + 8);
}

/// Round-trip law in its plain form: a well-formed snapshot's encoding
/// parses back to the very same snapshot, consuming the whole buffer.
pub proof fn lemma_snapshot_round_trip(s: WorldSnapshotV)
    requires
        wf_snapshot(s),
    ensures
        parse_snapshot(ser_snapshot(s), 0) == Some((s, ser_snapshot(s).len() as int)),
{
    let b = ser_snapshot(s);
    assert(b.subrange(0, b.len() as int) =~= b);
    lemma_parse_ser_snapshot(s, b, 0);
}

/// Encode a whole snapshot with the link's fixed-schema binary codec.
#[verifier::loop_isolation(false)]
pub fn encode_snapshot(s: &WorldSnapshot) -> (out: Vec<u8>)
    requires
        wf_snapshot(s.deep_view()),
    ensures
        out@ == ser_snapshot(s.deep_view()),
{
    let ghost ev = s.entities.deep_view();
    let mut out: Vec<u8> = Vec::new();
    enc_u32(s.entities.len() as u32, &mut out);
    let ghost base = out@;
    let mut i: usize = 0;
    while i < s.entities.len()
        invariant
            0 <= i <= s.entities@.len(),
            out@ == base + ser_entities(ev.take(i as int)),
        decreases s.entities@.len() - i,
    {
        proof {
            assert(ev[i as int] == s.entities@[i as int].deep_view());
            lemma_wf_entities_index(ev, i as int);
        }
        enc_entity(&s.entities[i], &mut out);
        proof {
            lemma_ser_entities_push(ev.take(i as int), ev[i as int]);
            assert(ev.take(i + 1) =~= ev.take(i as int).push(ev[i as int]));
            assert(out@ =~= base + ser_entities(ev.take(i + 1)));
        }
        i = i + 1;
    }
    proof {
        assert(ev.take(s.entities@.len() as int) =~= ev);
    }
    enc_u64(s.timestamp, &mut out);
    enc_string(&s.version, &mut out);
    proof {
        assert(out@ =~= ser_snapshot(s.deep_view()));
    }
    out
}

pub open spec fn prepend_entities(
    pre: Seq<SerializedEntityV>,
    r: Option<(Seq<SerializedEntityV>, int)>,
) -> Option<(Seq<SerializedEntityV>, int)> {
    match r {
        Some((s, p)) => Some((pre + s, p)),
        None => None,
    }
}

#[verifier::loop_isolation(false)]
fn dec_entity_list(b: &Vec<u8>, pos: usize, count: u32) -> (r: Option<
    (Vec<SerializedEntity>, usize),
>)
    requires
        pos <= b@.len(),
    ensures
        match r {
            Some((v, p)) => parse_entities(b@, pos as int, count as int) == Some(
                (v.deep_view(), p as int),
            ) && pos <= p <= b@.len(),
            None => parse_entities(b@, pos as int, count as int) is None,
        },
{
    let ghost target = parse_entities(b@, pos as int, count as int);
    let mut acc: Vec<SerializedEntity> = Vec::new();
    let mut cur: usize = pos;
    let mut i: u32 = 0;
    proof {
        assert(acc.deep_view() =~= Seq::<SerializedEntityV>::empty());
        if parse_entities(b@, cur as int, count as int) is Some {
            assert(Seq::<SerializedEntityV>::empty() + parse_entities(
                b@,
                cur as int,
                count as int,
            )->Some_0.0 =~= parse_entities(b@, cur as int, count as int)->Some_0.0);
        }
    }
    while i < count
        invariant
            0 <= i <= count,
            pos <= cur <= b@.len(),
            prepend_entities(acc.deep_view(), parse_entities(b@, cur as int, (count - i) as int))
                == target,
        decreases count - i,
    {
        match dec_entity(b, cur) {
            Some((v, p)) => {
                let ghost acc0 = acc.deep_view();
                let ghost rest = parse_entities(b@, p as int, (count - i - 1) as int);
                acc.push(v);
                proof {
                    assert(acc.deep_view() =~= acc0.push(acc@.last().deep_view()));
                    if rest is Some {
                        assert(acc0 + (seq![acc@.last().deep_view()] + rest->Some_0.0)
                            =~= acc0.push(acc@.last().deep_view()) + rest->Some_0.0);
                    }
                }
                cur = p;
                i = i + 1;
            },
            None => {
                return None;
            },
        }
    }
    proof {
        assert(acc.deep_view() + Seq::<SerializedEntityV>::empty() =~= acc.deep_view());
    }
    Some((acc, cur))
}

/// Decode a snapshot from the link's fixed-schema binary codec; `None` on
/// any malformed or incomplete input.
pub fn decode_snapshot(b: &Vec<u8>) -> (r: Option<WorldSnapshot>)
    ensures
        match r {
            Some(s) => parse_snapshot(b@, 0) matches Some((sv, p)) && s.deep_view() == sv && p
                == b@.len(),
            None => !(parse_snapshot(b@, 0) matches Some((sv, p)) && p == b@.len()),
        },
{
    let (n, p) = match dec_u32(b, 0) {
        Some(x) => x,
        None => {
            return None;
        },
    };
    let (entities, p2) = match dec_entity_list(b, p, n) {
        Some(x) => x,
        None => {
            return None;
        },
    };
    let (timestamp, p3) = match dec_u64(b, p2) {
        Some(x) => x,
        None => {
            return None;
        },
    };
    let (version, p4) = match dec_string(b, p3) {
        Some(x) => x,
        None => {
            return None;
        },
    };
    if p4 == b.len() {
        Some(WorldSnapshot { entities, timestamp, version })
    } else {
        None
    }
}


/// Encode one component with the link's fixed-schema binary codec.
pub fn encode_component(c: &SerializedComponent) -> (out: Vec<u8>)
    requires
        wf_component(c.deep_view()),
    ensures
        out@ == ser_component(c.deep_view()),
{
    let mut out: Vec<u8> = Vec::new();
    enc_component(c, &mut out);
    proof {
        assert(out@ =~= ser_component(c.deep_view()));
    }
    out
}

/// Decode one component from the link's fixed-schema binary codec; `None`
/// on malformed or incomplete input.
pub fn decode_component(b: &Vec<u8>) -> (r: Option<SerializedComponent>)
    ensures
        match r {
            Some(c) => parse_component(b@, 0) matches Some((cv, p)) && c.deep_view() == cv && p
                == b@.len(),
            None => !(parse_component(b@, 0) matches Some((cv, p)) && p == b@.len()),
        },
{
    match dec_component(b, 0) {
        Some((c, p)) => {
            if p == b.len() {
                Some(c)
            } else {
                None
            }
        },
        None => None,
    }
}

/// Round-trip law for one component: a well-formed component's encoding
/// parses back to the very same component.
pub proof fn lemma_component_round_trip(c: SerializedComponentV)
    requires
        wf_component(c),
    ensures
        parse_component(ser_component(c), 0) == Some((c, ser_component(c).len() as int)),
{
    let b = ser_component(c);
    assert(b.subrange(0, b.len() as int) =~= b);
    lemma_parse_ser_component(c, b, 0);
}

} // verus!





