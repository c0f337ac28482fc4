//! Building human-readable text in verified code: decimal rendering of
//! counters and the byte-size / message summaries the link reports.

use vstd::prelude::*;
use vstd::string::StringExecFns;
use vstd::utf8::{
    decode_utf8, encode_utf8, encode_utf8_decode_utf8, is_leading_byte_width_1,
    partial_valid_utf8_extend_ascii_block, valid_utf8,
};

use crate::protocol::{Message, MessageType};

verus! {

#[verifier::external_type_specification]
#[verifier::external_body]
pub struct ExFromUtf8Error(std::string::FromUtf8Error);

/// Relies on String::from_utf8: it succeeds exactly on valid UTF-8, and the
/// returned string's UTF-8 encoding is the input bytes, which it reuses
/// unchanged.
pub assume_specification[ String::from_utf8 ](v: Vec<u8>) -> (r: Result<
    String,
    std::string::FromUtf8Error,
>)
    ensures
        valid_utf8(v@) ==> r is Ok,
        r matches Ok(s) ==> encode_utf8(s@) == v@,
;

/// The characters an ASCII byte sequence stands for.
pub open spec fn ascii_chars(bytes: Seq<u8>) -> Seq<char> {
    Seq::new(bytes.len(), |i: int| bytes[i] as char)
}

/// A sequence of bytes below 0x80 is valid UTF-8 and decodes byte by byte.
pub proof fn lemma_ascii_decode(bytes: Seq<u8>)
    requires
        forall|i: int| 0 <= i < bytes.len() ==> bytes[i] < 0x80,
    ensures
        valid_utf8(bytes),
        decode_utf8(bytes) == ascii_chars(bytes),
    decreases bytes.len(),
{
    assert forall|i: int| 0 <= i < bytes.len() implies #[trigger] is_leading_byte_width_1(
        bytes[i],
    ) by {}
    partial_valid_utf8_extend_ascii_block(bytes, 0, bytes.len() as int);
    assert(bytes.subrange(0, 0) =~= Seq::<u8>::empty());
    assert(bytes.subrange(0, bytes.len() as int) =~= bytes);
    if bytes.len() == 0 {
        assert(decode_utf8(bytes) =~= ascii_chars(bytes));
    } else {
        let b = bytes[0];
        assert((b & 0x7F) == b && b & 0x7F < 0x80) by (bit_vector)
            requires
                b < 0x80,
        ;
        let rest = bytes.subrange(1, bytes.len() as int);
        lemma_ascii_decode(rest);
        assert((b as u32) as char == b as char);
        assert(decode_utf8(bytes) == seq![b as char] + ascii_chars(rest));
        assert(decode_utf8(bytes) =~= ascii_chars(bytes));
    }
}

/// The ASCII bytes of a number's decimal digits, most significant first.
pub open spec fn spec_u64_bytes(n: u64) -> Seq<u8>
    decreases n,
{
    if n < 10 {
        seq![(48 + n) as u8]
    } else {
        spec_u64_bytes(n / 10).push((48 + n % 10) as u8)
    }
}

/// The characters of a number's decimal rendering.
pub open spec fn spec_u64_chars(n: u64) -> Seq<char> {
    ascii_chars(spec_u64_bytes(n))
}

/// Every digit byte is an ASCII digit.
pub proof fn lemma_u64_bytes_ascii(n: u64)
    ensures
        forall|i: int| 0 <= i < spec_u64_bytes(n).len() ==> 48 <= #[trigger] spec_u64_bytes(n)[i]
            <= 57,
        spec_u64_bytes(n).len() >= 1,
    decreases n,
{
    if n >= 10 {
        lemma_u64_bytes_ascii(n / 10);
    }
}

/// Append a number's decimal digit bytes.
fn push_u64_digits(n: u64, out: &mut Vec<u8>)
    ensures
        final(out)@ == old(out)@ + spec_u64_bytes(n),
    decreases n,
{
    if n >= 10 {
        push_u64_digits(n / 10, out);
        out.push(48 + (n % 10) as u8);
        proof {
            assert(final(out)@ =~= old(out)@ + spec_u64_bytes(n));
        }
    } else {
        out.push(48 + n as u8);
        proof {
            assert(final(out)@ =~= old(out)@ + spec_u64_bytes(n));
        }
    }
}

/// A number rendered in decimal.
pub fn u64_to_string(n: u64) -> (r: String)
    ensures
        r@ == spec_u64_chars(n),
{
    let mut bytes: Vec<u8> = Vec::new();
    push_u64_digits(n, &mut bytes);
    proof {
        assert(bytes@ =~= spec_u64_bytes(n));
        lemma_u64_bytes_ascii(n);
        lemma_ascii_decode(bytes@);
    }
    match String::from_utf8(bytes) {
        Ok(s) => {
            proof {
                encode_utf8_decode_utf8(s@);
                assert(decode_utf8(encode_utf8(s@)) == s@);
            }
            s
        },
        Err(_) => String::new(),
    }
}


/// Scaled rendering with two decimals, rounding to nearest: the whole part,
/// a dot, and the two fraction digits, with a carry when the fraction
/// rounds up to one hundred.
pub open spec fn spec_scaled_chars(b: u64, unit: u64) -> Seq<char>
    recommends
        1024 <= unit <= 1073741824,
{
    let whole = (b / unit) as int;
    let frac = (((b % unit) as int) * 100 + (unit as int) / 2) / (unit as int);
    if frac == 100 {
        spec_u64_chars((whole + 1) as u64) + "."@ + "00"@
    } else if frac < 10 {
        spec_u64_chars(whole as u64) + "."@ + "0"@ + spec_u64_chars(frac as u64)
    } else {
        spec_u64_chars(whole as u64) + "."@ + spec_u64_chars(frac as u64)
    }
}

/// A byte count rendered with a binary unit: plain bytes below 1 KB, else
/// two-decimal KB, MB or GB.
pub open spec fn spec_format_bytes(b: u64) -> Seq<char> {
    if b >= 1073741824 {
        spec_scaled_chars(b, 1073741824) + " GB"@
    } else if b >= 1048576 {
        spec_scaled_chars(b, 1048576) + " MB"@
    } else if b >= 1024 {
        spec_scaled_chars(b, 1024) + " KB"@
    } else {
        spec_u64_chars(b) + " bytes"@
    }
}

/// Render `b` scaled by `unit` with two decimals.
fn scaled_string(b: u64, unit: u64) -> (r: String)
    requires
        1024 <= unit <= 1073741824,
    ensures
        r@ == spec_scaled_chars(b, unit),
{
    let whole = b / unit;
    let rem = b % unit;
    let frac = (rem * 100 + unit / 2) / unit;
    proof {
        let x = (rem as int) * 100 + (unit as int) / 2;
        assert(x < 101 * (unit as int));
        vstd::arithmetic::div_mod::lemma_fundamental_div_mod(x, unit as int);
        if x / (unit as int) > 100 {
            assert((unit as int) * (x / (unit as int)) >= (unit as int) * 101)
                by (nonlinear_arith)
                requires
                    x / (unit as int) >= 101,
                    unit >= 1024,
            ;
            assert(false);
        }
        assert(frac <= 100);
        vstd::arithmetic::div_mod::lemma_fundamental_div_mod(b as int, unit as int);
        if b / unit >= u64::MAX {
            assert((unit as int) * ((b / unit) as int) > u64::MAX) by (nonlinear_arith)
                requires
                    (b / unit) as int >= u64::MAX,
                    unit >= 1024,
            ;
            assert(false);
        }
        assert(whole < u64::MAX);
    }
    if frac == 100 {
        let mut s = u64_to_string(whole + 1);
        s.append(".");
        s.append("00");
        s
    } else if frac < 10 {
        let mut s = u64_to_string(whole);
        s.append(".");
        s.append("0");
        let f = u64_to_string(frac);
        s.append(f.as_str());
        s
    } else {
        let mut s = u64_to_string(whole);
        s.append(".");
        let f = u64_to_string(frac);
        s.append(f.as_str());
        s
    }
}

/// A byte count in human-readable form: `500 bytes`, `1.50 KB`, `2.00 MB`,
/// and so on.
pub fn format_bytes(bytes: usize) -> (r: String)
    ensures
        r@ == spec_format_bytes(bytes as u64),
{
    let b = bytes as u64;
    if b >= 1073741824 {
        let mut s = scaled_string(b, 1073741824);
        s.append(" GB");
        s
    } else if b >= 1048576 {
        let mut s = scaled_string(b, 1048576);
        s.append(" MB");
        s
    } else if b >= 1024 {
        let mut s = scaled_string(b, 1024);
        s.append(" KB");
        s
    } else {
        let mut s = u64_to_string(b);
        s.append(" bytes");
        s
    }
}

/// The one-line summary of a message: its kind and its sequence number.
pub open spec fn spec_message_summary(t: MessageType, sequence: u64) -> Seq<char> {
    let name: Seq<char> = match t {
        MessageType::Snapshot => "Snapshot"@,
        MessageType::Delta => "Delta"@,
        MessageType::RequestSnapshot => "RequestSnapshot"@,
        MessageType::Ack => "Ack"@,
        MessageType::Ping => "Ping"@,
        MessageType::Pong => "Pong"@,
        MessageType::SchemaSync => "SchemaSync"@,
        MessageType::Error => "Error"@,
    };
    name + " (seq: "@ + spec_u64_chars(sequence) + ")"@
}

/// A short description of a message for reporting.
pub fn message_summary(message: &Message) -> (r: String)
    ensures
        r@ == spec_message_summary(message.header.msg_type, message.header.sequence),
{
    let mut s = match message.header.msg_type {
        MessageType::Snapshot => String::from_str("Snapshot"),
        MessageType::Delta => String::from_str("Delta"),
        MessageType::RequestSnapshot => String::from_str("RequestSnapshot"),
        MessageType::Ack => String::from_str("Ack"),
        MessageType::Ping => String::from_str("Ping"),
        MessageType::Pong => String::from_str("Pong"),
        MessageType::SchemaSync => String::from_str("SchemaSync"),
        MessageType::Error => String::from_str("Error"),
    };
    s.append(" (seq: ");
    let seq_text = u64_to_string(message.header.sequence);
    s.append(seq_text.as_str());
    s.append(")");
    s
}

} // verus!

