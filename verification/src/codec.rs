//! Minimal ASN.1-like codec used by the XMM7360 RPC protocol.
//!
//! Integers are `0x02 <len> <big-endian bytes>` and strings are
//! length-prefixed byte buffers tagged `0x55` (8-bit elements), `0x56`
//! (16-bit) or `0x57` (32-bit). Strings carry both a logical element count and
//! a padding count.
use vstd::prelude::*;
use vstd::string::StringExecFns;

use crate::text::{dec_digits, decimal_text, hex_digits, hex_text};

pub mod decode;
pub mod encode;
pub mod laws;

pub use self::decode::{decode_values, decode_would_overflow, unpack, unpack_would_overflow, Reader};
pub use self::encode::{pack, pack_u32};

verus! {

/// Tag for integers.
pub const TAG_INT: u8 = 0x02;
/// String tag for 8-bit elements.
pub const TAG_STRING_U8: u8 = 0x55;
/// String tag for 16-bit elements.
pub const TAG_STRING_U16: u8 = 0x56;
/// String tag for 32-bit elements.
pub const TAG_STRING_U32: u8 = 0x57;

/// The four big-endian bytes of `v`.
pub open spec fn be_bytes(v: u32) -> Seq<u8> {
    seq![
        (v / 0x100_0000) as u8,
        ((v / 0x1_0000) % 0x100) as u8,
        ((v / 0x100) % 0x100) as u8,
        (v % 0x100) as u8,
    ]
}

/// The six-byte integer field that encodes `v` with width 4.
pub open spec fn int_field(v: u32) -> Seq<u8> {
    seq![TAG_INT, 4u8] + be_bytes(v)
}

/// Encode a 32-bit integer as an ASN.1 integer field.
pub fn asn_int(value: u32) -> (field: [u8; 6])
    ensures
        field@ == int_field(value),
{
    let b0 = (value >> 24) as u8;
    let b1 = (value >> 16) as u8;
    let b2 = (value >> 8) as u8;
    let b3 = value as u8;
    assert(b0 == (value / 0x100_0000) as u8 && b1 == ((value / 0x1_0000) % 0x100) as u8
        && b2 == ((value / 0x100) % 0x100) as u8 && b3 == (value % 0x100) as u8) by (bit_vector)
        requires
            b0 == (value >> 24) as u8,
            b1 == (value >> 16) as u8,
            b2 == (value >> 8) as u8,
            b3 == value as u8,
    ;
    let field = [TAG_INT, 4, b0, b1, b2, b3];
    assert(field@ =~= int_field(value));
    field
}

/// Errors produced while encoding or decoding firmware payloads.
#[derive(Debug, PartialEq, Eq, Structural)]
pub enum CodecError {
    /// Ran out of input while decoding.
    UnexpectedEof,
    /// An integer field did not start with the `0x02` tag.
    BadIntTag(u8),
    /// An integer field declared an unsupported width.
    BadIntWidth(u8),
    /// A string field did not start with a known string tag.
    BadStringTag(u8),
    /// A value did not fit in its declared field.
    StringOverflow {
        /// Number of bytes supplied.
        valid: usize,
        /// Declared field capacity.
        capacity: usize,
    },
    /// The format string contained an unknown specifier.
    BadFormat(char),
    /// The format string requested a length without digits.
    MissingLength,
    /// The argument list was shorter than the format string.
    MissingArgument,
    /// An argument had the wrong type for its format specifier.
    WrongArgument,
    /// The argument list was longer than the format string.
    TooManyArguments,
    /// A decoded string did not match its declared element/padding count.
    StringLengthMismatch {
        /// Declared total element count.
        count: usize,
        /// Declared valid element count.
        valid: usize,
        /// Declared padding element count.
        padding: usize,
    },
}

/// What the codec sees of a field: an integer or a byte string.
pub enum FieldModel {
    /// An integer field.
    Int(u32),
    /// A string field, without its padding.
    Bytes(Seq<u8>),
}

/// The bytes of a string value; empty for an integer.
pub open spec fn field_bytes(v: FieldModel) -> Seq<u8> {
    match v {
        FieldModel::Bytes(b) => b,
        FieldModel::Int(_) => Seq::empty(),
    }
}

/// The integer of an integer value; zero for a string.
pub open spec fn field_int(v: FieldModel) -> u32 {
    match v {
        FieldModel::Int(n) => n,
        FieldModel::Bytes(_) => 0,
    }
}

/// A typed argument accepted by [`pack`].
#[derive(Clone, Copy, Debug)]
pub enum Arg<'a> {
    /// An integer (`B`, `H` or `L`).
    Int(u32),
    /// A byte string (`s` or `S`).
    Bytes(&'a [u8]),
}

impl<'a> View for Arg<'a> {
    type V = FieldModel;

    open spec fn view(&self) -> FieldModel {
        match *self {
            Arg::Int(v) => FieldModel::Int(v),
            Arg::Bytes(b) => FieldModel::Bytes(b@),
        }
    }
}

/// The models of a list of arguments.
pub open spec fn arg_models<'a>(args: Seq<Arg<'a>>) -> Seq<FieldModel> {
    Seq::new(args.len(), |i: int| args[i]@)
}

/// A decoded firmware value.
#[derive(Clone, PartialEq, Eq, Debug)]
pub enum Value {
    /// An integer field.
    Int(u32),
    /// A string field, with padding stripped.
    Bytes(Vec<u8>),
}

impl View for Value {
    type V = FieldModel;

    open spec fn view(&self) -> FieldModel {
        match self {
            Value::Int(v) => FieldModel::Int(*v),
            Value::Bytes(b) => FieldModel::Bytes(b@),
        }
    }
}

impl Value {
    /// Borrow the value as an integer, if it is one.
    pub fn as_int(&self) -> (r: Option<u32>)
        ensures
            r == match self@ {
                FieldModel::Int(v) => Some(v),
                FieldModel::Bytes(_) => None::<u32>,
            },
    {
        match self {
            Value::Int(v) => Some(*v),
            Value::Bytes(_) => None,
        }
    }

    /// Borrow the value as bytes, if it is a string.
    pub fn as_bytes(&self) -> (r: Option<&[u8]>)
        ensures
            match self@ {
                FieldModel::Bytes(b) => r matches Some(s) && s@ == b,
                FieldModel::Int(_) => r is None,
            },
    {
        match self {
            Value::Bytes(v) => Some(v.as_slice()),
            Value::Int(_) => None,
        }
    }
}

/// The decimal numbers of `b`, separated by `", "`.
pub open spec fn byte_list(b: Seq<u8>) -> Seq<char>
    decreases b.len(),
{
    if b.len() == 0 {
        Seq::empty()
    } else if b.len() == 1 {
        dec_digits(b[0] as nat)
    } else {
        byte_list(b.drop_last()) + ", "@ + dec_digits(b.last() as nat)
    }
}

/// How a value is shown in diagnostics: an integer in hexadecimal after
/// `0x`, a string as the list of its bytes in decimal.
pub open spec fn value_text(m: FieldModel) -> Seq<char> {
    match m {
        FieldModel::Int(v) => "0x"@ + hex_digits(v as nat),
        FieldModel::Bytes(b) => "["@ + byte_list(b) + "]"@,
    }
}

impl Value {
    /// The value as diagnostics show it ([`value_text`]).
    pub fn debug_text(&self) -> (t: String)
        ensures
            t@ == value_text(self@),
    {
        match self {
            Value::Int(v) => "0x".to_owned().concat(hex_text(*v).as_str()),
            Value::Bytes(b) => {
                let mut out = "[".to_owned();
                let mut i: usize = 0;
                while i < b.len()
                    invariant
                        i <= b@.len(),
                        out@ == "["@ + byte_list(b@.take(i as int)),
                    decreases b@.len() - i,
                {
                    proof {
                        let t = b@.take(i + 1);
                        assert(t.drop_last() =~= b@.take(i as int));
                        assert(t.last() == b@[i as int]);
                        if i == 0 {
                            assert(b@.take(0) =~= Seq::<u8>::empty());
                        }
                    }
                    if i > 0 {
                        out = out.concat(", ");
                    }
                    out = out.concat(decimal_text(b[i] as usize).as_str());
                    i = i + 1;
                }
                assert(b@.take(b@.len() as int) =~= b@);
                out.concat("]")
            },
        }
    }
}

/// The models of a list of decoded values.
pub open spec fn value_models(values: Seq<Value>) -> Seq<FieldModel> {
    Seq::new(values.len(), |i: int| values[i]@)
}

/// `256` to the power `k`.
pub open spec fn pow256(k: nat) -> nat
    decreases k,
{
    if k == 0 {
        1
    } else {
        256 * pow256((k - 1) as nat)
    }
}

/// Powers of 256 grow.
pub proof fn lemma_pow256_monotone(a: nat, b: nat)
    requires
        a <= b,
    ensures
        pow256(a) <= pow256(b),
    decreases b,
{
    if a < b {
        lemma_pow256_monotone(a, (b - 1) as nat);
    }
}

/// The characters of `s`, in order.
pub(crate) fn chars_of(s: &str) -> (chars: Vec<char>)
    ensures
        chars@ == s@,
{
    let mut chars: Vec<char> = Vec::new();
    for c in it: s.chars()
        invariant
            it.seq() == s@,
            chars@ == it.seq().take(it.index()),
    {
        chars.push(c);
    }
    chars
}

} // verus!
