//! Laws of the codec: what decoding gives back of an encoding.
use vstd::prelude::*;
use crate::codec::{CodecError, FieldModel, TAG_INT, be_bytes, field_bytes, int_field, pow256};
use crate::codec::encode::{
    be_min, decimal, digit_run, int_width, is_digit, is_int_spec, lemma_digit_run_bounded,
    lemma_digit_run_exact,
    lemma_pack_field_consumes, length_prefix, pack_field_spec, pack_spec, pack_string_spec,
    packed_len, sized_int_field, string_field, string_tag, zeros,
};
use crate::codec::decode::{
    Parsed, be_value, decode_spec, element_count_at, int_field_at, is_string_tag, le_value,
    lemma_fields_advance, lemma_usize_bytes, lemma_values_shift, prepend_values, string_field_at,
    tag_elem_size, unpack_from, unpack_spec, usize_bytes, values_from,
};

verus! {

/// The big-endian bytes of a `u32` denote it.
proof fn lemma_be_value_be_bytes(v: u32)
    ensures
        be_value(be_bytes(v)) == v,
{
    let b = be_bytes(v);
    assert(b.drop_last().drop_last().drop_last().drop_last() =~= Seq::<u8>::empty());
    assert(b.drop_last().drop_last().drop_last() =~= seq![b[0]]);
    assert(b.drop_last().drop_last() =~= seq![b[0], b[1]]);
    assert(b.drop_last() =~= seq![b[0], b[1], b[2]]);
    assert(be_value(seq![b[0]]) == b[0]) by {
        assert(seq![b[0]].drop_last() =~= Seq::<u8>::empty());
        assert(be_value(Seq::<u8>::empty()) == 0);
    }
    assert(be_value(seq![b[0], b[1]]) == b[0] * 256 + b[1]) by {
        assert(seq![b[0], b[1]].drop_last() =~= seq![b[0]]);
    }
    assert(be_value(seq![b[0], b[1], b[2]]) == (b[0] * 256 + b[1]) * 256 + b[2]) by {
        assert(seq![b[0], b[1], b[2]].drop_last() =~= seq![b[0], b[1]]);
    }
}

/// An integer field reads back as the integer it encodes, and the reader
/// stops just past its six bytes, whatever follows.
pub proof fn law_int_field_roundtrip(v: u32, rest: Seq<u8>)
    ensures
        int_field_at(int_field(v) + rest, 0) == Parsed::Found(v, 6),
{
    let data = int_field(v) + rest;
    lemma_be_value_be_bytes(v);
    assert(data.subrange(2, 6) =~= be_bytes(v));
}

/// Wherever an integer field stands in a payload, it reads back as its
/// integer.
pub proof fn lemma_int_field_at(data: Seq<u8>, pos: int, v: u32)
    requires
        0 <= pos,
        pos + 6 <= data.len(),
        data.subrange(pos, pos + 6) == int_field(v),
    ensures
        int_field_at(data, pos) == Parsed::Found(v, pos + 6),
{
    let f = data.subrange(pos, pos + 6);
    assert(data[pos] == f[0]);
    assert(data[pos + 1] == f[1]);
    lemma_be_value_be_bytes(v);
    assert forall|i: int| 0 <= i < 4 implies #[trigger] data.subrange(pos + 2, pos + 6)[i]
        == be_bytes(v)[i] by {
        assert(data[pos + 2 + i] == f[2 + i]);
    }
    assert(data.subrange(pos + 2, pos + 6) =~= be_bytes(v));
}

/// The element count of a field with fewer than 256 elements reads back.
proof fn lemma_small_count_at(data: Seq<u8>, pos: int, e: nat)
    requires
        0 <= pos,
        e < 256,
        pos + length_prefix(e).len() <= data.len(),
        data.subrange(pos, pos + length_prefix(e).len()) == length_prefix(e),
    ensures
        element_count_at(data, pos) == Parsed::Found(e, pos + length_prefix(e).len()),
{
    let prefix = length_prefix(e);
    assert(data[pos] == prefix[0]);
    if e >= 128 {
        assert(be_min(e / 256) =~= Seq::<u8>::empty());
        assert(be_min(e) =~= seq![e as u8]);
        assert(prefix =~= seq![0x81u8, e as u8]);
        assert(data[pos + 1] == prefix[1]);
        lemma_usize_bytes();
        let s = data.subrange(pos + 1, pos + 2);
        assert(s =~= seq![e as u8]);
        assert(s.drop_last() =~= Seq::<u8>::empty());
        assert(le_value(Seq::<u8>::empty()) == 0);
        assert(pow256(0) == 1);
        assert(s.last() == e as u8);
        assert((e as u8) as nat == e);
        assert(le_value(s) == le_value(s.drop_last()) + (s.last() as nat) * pow256(0));
        assert(le_value(s) == e);
    }
}

/// A string field reads back as the bytes it holds, its padding dropped,
/// whatever follows it, where its element count is below 256 and its byte
/// count fits in a `u32`. (The encoder writes a longer element count
/// big-endian and the decoder reads it little-endian, so such counts do not
/// read back.)
#[verifier::spinoff_prover]
#[verifier::rlimit(80)]
pub proof fn law_string_field_roundtrip(value: Seq<u8>, elem_size: nat, capacity: nat, rest: Seq<u8>)
    requires
        elem_size == 1 || elem_size == 2 || elem_size == 4,
        value.len() % elem_size == 0,
        value.len() / elem_size < 256,
        value.len() / elem_size <= capacity,
        capacity * elem_size <= u32::MAX,
    ensures
        string_field_at(string_field(value, elem_size, capacity) + rest, 0) == Parsed::Found(
            value,
            string_field(value, elem_size, capacity).len() as int,
        ),
{
    let field = string_field(value, elem_size, capacity);
    let data = field + rest;
    let e = value.len() / elem_size;
    let count = capacity * elem_size;
    assert(e * elem_size == value.len()) by (nonlinear_arith)
        requires
            value.len() % elem_size == 0,
            e == value.len() / elem_size,
            elem_size > 0,
    ;
    assert(e * elem_size <= capacity * elem_size) by (nonlinear_arith)
        requires
            e <= capacity,
            elem_size > 0,
    ;
    let padding = (count - value.len()) as nat;
    let prefix = length_prefix(e);
    assert(data[0] == string_tag(elem_size));
    assert(tag_elem_size(data[0]) == elem_size);
    assert(data.subrange(1, 1 + prefix.len() as int) =~= prefix);
    lemma_small_count_at(data, 1, e);
    let p: int = 1 + prefix.len() as int;
    assert(data.subrange(p, p + 6) =~= int_field(count as u32));
    lemma_int_field_at(data, p, count as u32);
    assert(data.subrange(p + 6, p + 12) =~= int_field(padding as u32));
    lemma_int_field_at(data, p + 6, padding as u32);
    assert(data.subrange(p + 12, p + 12 + value.len()) =~= value);
}

/// The integer arguments `vals` as field models.
pub open spec fn int_args(vals: Seq<u32>) -> Seq<FieldModel> {
    Seq::new(vals.len(), |i: int| FieldModel::Int(vals[i]))
}

/// The integer fields for `vals[i..]` by the specifiers `fmt[i..]`.
pub open spec fn int_fields_from(fmt: Seq<char>, vals: Seq<u32>, i: int) -> Seq<u8>
    decreases fmt.len() - i,
{
    if i < 0 || i >= fmt.len() {
        Seq::empty()
    } else {
        sized_int_field(vals[i], int_width(fmt[i])) + int_fields_from(fmt, vals, i + 1)
    }
}

/// A format of integer specifiers encodes its integer arguments field
/// after field.
pub proof fn law_pack_ints(fmt: Seq<char>, vals: Seq<u32>, i: int)
    requires
        0 <= i <= fmt.len(),
        fmt.len() == vals.len(),
        forall|j: int| 0 <= j < fmt.len() ==> is_int_spec(#[trigger] fmt[j]),
    ensures
        pack_spec(fmt.skip(i), int_args(vals).skip(i)) == Ok::<Seq<u8>, CodecError>(
            int_fields_from(fmt, vals, i),
        ),
        packed_len(fmt.skip(i), int_args(vals).skip(i)) == int_fields_from(fmt, vals, i).len(),
    decreases fmt.len() - i,
{
    reveal(pack_field_spec);
    let f = fmt.skip(i);
    let a = int_args(vals).skip(i);
    if i < fmt.len() {
        law_pack_ints(fmt, vals, i + 1);
        assert(f[0] == fmt[i]);
        assert(a[0] == FieldModel::Int(vals[i]));
        assert(f.skip(1) =~= fmt.skip(i + 1));
        assert(a.drop_first() =~= int_args(vals).skip(i + 1));
    } else {
        assert(f =~= Seq::<char>::empty());
        assert(a =~= Seq::<FieldModel>::empty());
    }
}

/// An integer field of width 1, 2 or 4 reads back as the low bytes of its
/// integer, whatever follows it.
pub proof fn law_sized_int_field_roundtrip(v: u32, w: nat, rest: Seq<u8>)
    requires
        w == 1 || w == 2 || w == 4,
    ensures
        int_field_at(sized_int_field(v, w) + rest, 0) == Parsed::Found(
            ((v as nat) % pow256(w)) as u32,
            2 + w as int,
        ),
{
    let data = sized_int_field(v, w) + rest;
    let b = be_bytes(v).skip(4 - w);
    assert(data[0] == TAG_INT && data[1] == w as u8);
    assert(data.subrange(2, 2 + w as int) =~= b);
    assert(pow256(1) == 256 && pow256(2) == 0x1_0000 && pow256(4) == 0x1_0000_0000) by {
        reveal_with_fuel(pow256, 5);
    }
    assert(be_value(Seq::<u8>::empty()) == 0);
    if w == 1 {
        assert(b =~= seq![(v % 0x100) as u8]);
        assert(b.drop_last() =~= Seq::<u8>::empty());
        assert(be_value(b) == v % 0x100);
        assert(be_value(b) == (v as nat) % pow256(w));
    } else if w == 2 {
        let hi = ((v / 0x100) % 0x100) as u8;
        let lo = (v % 0x100) as u8;
        assert(b =~= seq![hi, lo]);
        assert(b.drop_last() =~= seq![hi]);
        assert(seq![hi].drop_last() =~= Seq::<u8>::empty());
        assert(be_value(seq![hi]) == hi);
        assert(be_value(b) == hi * 256 + lo);
        assert(hi as int == (v / 0x100) % 0x100);
        assert(lo as int == v % 0x100);
        assert(((v / 0x100) % 0x100) * 256 + v % 0x100 == v % 0x1_0000) by (nonlinear_arith);
        assert(be_value(b) == (v as nat) % pow256(w));
    } else {
        lemma_be_value_be_bytes(v);
        assert(b =~= be_bytes(v));
        assert((v as nat) % 0x1_0000_0000 == v);
    }
    assert(be_value(b) == (v as nat) % pow256(w));
    assert(int_field_at(data, 0) == Parsed::Found(be_value(b) as u32, 2 + w as int));
}

/// Packing a byte string by `s<capacity>` and reading the packed bytes back
/// by `s` gives the string again, where the string has fewer than 256 bytes
/// and the capacity holds it and fits in a `u32`.
pub proof fn law_pack_unpack_string(value: Seq<u8>, digits: Seq<char>)
    requires
        digits.len() > 0,
        forall|i: int| 0 <= i < digits.len() ==> is_digit(#[trigger] digits[i]),
        value.len() <= decimal(digits) <= u32::MAX,
        value.len() < 256,
    ensures
        pack_spec(seq!['s'] + digits, seq![FieldModel::Bytes(value)]) matches Ok(out)
            && unpack_spec(seq!['s'], out) == Parsed::Found(
            seq![FieldModel::Bytes(value)],
            out.len() as int,
        ),
{
    let capacity = decimal(digits);
    let field = string_field(value, 1, capacity);
    assert(spec_elem_size(seq!['s']) == 1);
    assert(value.len() % 1 == 0 && value.len() / 1 == value.len());
    lemma_pack_string_spec_field(seq!['s'], digits, value);
    law_string_field_roundtrip(value, 1, capacity, Seq::empty());
    assert(field + Seq::<u8>::empty() =~= field);
    lemma_unpack_one_string(field, value);
}

/// A string specifier: `s`, or `S` followed by the element type `B`, `H` or
/// `L`.
pub open spec fn is_string_spec(spec: Seq<char>) -> bool {
    spec == seq!['s'] || (spec.len() == 2 && spec[0] == 'S' && is_int_spec(spec[1]))
}

/// The element size of a string specifier: one byte for `s`, the width of
/// the element type for `S`.
pub open spec fn spec_elem_size(spec: Seq<char>) -> nat {
    if spec.len() == 1 {
        1
    } else {
        int_width(spec[1])
    }
}

/// Packing a string by a string specifier and a capacity of decimal digits
/// gives its string field.
proof fn lemma_pack_string_spec_field(spec: Seq<char>, digits: Seq<char>, value: Seq<u8>)
    requires
        is_string_spec(spec),
        digits.len() > 0,
        forall|i: int| 0 <= i < digits.len() ==> is_digit(#[trigger] digits[i]),
        value.len() % spec_elem_size(spec) == 0,
        value.len() / spec_elem_size(spec) <= decimal(digits) <= usize::MAX,
    ensures
        pack_spec(spec + digits, seq![FieldModel::Bytes(value)]) == Ok::<Seq<u8>, CodecError>(
            string_field(value, spec_elem_size(spec), decimal(digits)),
        ),
{
    reveal(pack_field_spec);
    reveal(pack_string_spec);
    let es = spec_elem_size(spec);
    let fmt = spec + digits;
    let args = seq![FieldModel::Bytes(value)];
    let capacity = decimal(digits);
    let k = spec.len() as int;
    assert(fmt[0] == spec[0]);
    assert(fmt.skip(k) =~= digits);
    if k == 2 {
        assert(fmt[1] == spec[1]);
    }
    lemma_digit_run_exact(digits, digits.len() as int);
    assert(digits.take(digits.len() as int) =~= digits);
    let field = string_field(value, es, capacity);
    assert(pack_string_spec(value, es, digits) == Ok::<(nat, Seq<u8>), CodecError>(
        (digits.len(), field),
    ));
    assert(pack_field_spec(fmt, args[0]) == Ok::<(nat, Seq<u8>), CodecError>(
        ((digits.len() + k) as nat, field),
    ));
    let rest_fmt = fmt.skip(digits.len() + k);
    assert(rest_fmt =~= Seq::<char>::empty());
    assert(args.drop_first() =~= Seq::<FieldModel>::empty());
    assert(pack_spec(rest_fmt, args.drop_first()) == Ok::<Seq<u8>, CodecError>(Seq::empty()));
    assert(field + Seq::<u8>::empty() =~= field);
}

/// A string packed by `s`, `SB`, `SH` or `SL` and a capacity reads back as
/// itself, its padding dropped, whatever follows it, and the reader stops
/// just past the whole field, padding included: where the string is a whole
/// number of elements, fewer than 256 of them and no more than the
/// capacity, and the capacity's bytes fit in a `u32`.
pub proof fn law_pack_string_roundtrip(spec: Seq<char>, digits: Seq<char>, value: Seq<u8>, rest: Seq<u8>)
    requires
        is_string_spec(spec),
        digits.len() > 0,
        forall|i: int| 0 <= i < digits.len() ==> is_digit(#[trigger] digits[i]),
        value.len() % spec_elem_size(spec) == 0,
        value.len() / spec_elem_size(spec) < 256,
        value.len() / spec_elem_size(spec) <= decimal(digits),
        decimal(digits) * spec_elem_size(spec) <= u32::MAX,
    ensures
        pack_spec(spec + digits, seq![FieldModel::Bytes(value)]) matches Ok(out)
            && string_field_at(out + rest, 0) == Parsed::Found(value, out.len() as int),
{
    let es = spec_elem_size(spec);
    assert(decimal(digits) <= decimal(digits) * es) by (nonlinear_arith)
        requires
            es >= 1,
    ;
    lemma_pack_string_spec_field(spec, digits, value);
    law_string_field_roundtrip(value, es, decimal(digits), rest);
}

/// Reading one string by `s` from a payload that holds exactly that string
/// field.
proof fn lemma_unpack_one_string(data: Seq<u8>, value: Seq<u8>)
    requires
        string_field_at(data, 0) == Parsed::Found(value, data.len() as int),
    ensures
        unpack_spec(seq!['s'], data) == Parsed::Found(seq![FieldModel::Bytes(value)], data.len() as int),
{
    let fmt = seq!['s'];
    assert(fmt.drop_first() =~= Seq::<char>::empty());
    assert(unpack_from(fmt.drop_first(), data, data.len() as int) == Parsed::Found(
        Seq::<FieldModel>::empty(),
        data.len() as int,
    ));
    assert(seq![FieldModel::Bytes(value)] + Seq::<FieldModel>::empty() =~= seq![
        FieldModel::Bytes(value),
    ]);
}

/// The capacity that the digits at `fmt[start..]` denote.
pub open spec fn capacity_at(fmt: Seq<char>, start: int) -> nat {
    decimal(fmt.skip(start).take(digit_run(fmt.skip(start)) as int))
}

/// Whether the field that `fmt` starts with, packed from `arg`, reads back:
/// a string must have fewer than 256 elements and a byte count that fits in
/// a `u32`.
pub open spec fn field_reads_back(fmt: Seq<char>, arg: FieldModel) -> bool {
    if fmt[0] == 's' {
        field_bytes(arg).len() < 256 && capacity_at(fmt, 1) <= u32::MAX
    } else if fmt[0] == 'S' {
        field_bytes(arg).len() / int_width(fmt[1]) < 256 && capacity_at(fmt, 2) * int_width(
            fmt[1],
        ) <= u32::MAX
    } else {
        true
    }
}

/// What decoding gives back of the field that `fmt` starts with, packed from
/// `arg`: an integer keeps the low bytes of its specifier's width; a string
/// comes back as it went in.
pub open spec fn read_back(fmt: Seq<char>, arg: FieldModel) -> FieldModel {
    match arg {
        FieldModel::Int(v) => FieldModel::Int(((v as nat) % pow256(int_width(fmt[0]))) as u32),
        FieldModel::Bytes(b) => FieldModel::Bytes(b),
    }
}

/// Every field of the encoding of `args` by `fmt` reads back.
pub open spec fn all_read_back(fmt: Seq<char>, args: Seq<FieldModel>) -> bool
    decreases fmt.len(),
{
    if fmt.len() == 0 || args.len() == 0 {
        true
    } else {
        match pack_field_spec(fmt, args[0]) {
            Ok((n, _)) => {
                proof {
                    lemma_pack_field_consumes(fmt, args[0]);
                }
                field_reads_back(fmt, args[0]) && all_read_back(fmt.skip(n as int), args.drop_first())
            },
            Err(_) => true,
        }
    }
}

/// What decoding gives back of the encoding of `args` by `fmt`, field by
/// field.
pub open spec fn read_back_all(fmt: Seq<char>, args: Seq<FieldModel>) -> Seq<FieldModel>
    decreases fmt.len(),
{
    if fmt.len() == 0 || args.len() == 0 {
        Seq::empty()
    } else {
        match pack_field_spec(fmt, args[0]) {
            Ok((n, _)) => {
                proof {
                    lemma_pack_field_consumes(fmt, args[0]);
                }
                seq![read_back(fmt, args[0])] + read_back_all(fmt.skip(n as int), args.drop_first())
            },
            Err(_) => Seq::empty(),
        }
    }
}

/// A packed field, whatever follows it, decodes as its read-back value and
/// the decoder goes on just past it.
proof fn lemma_packed_field_decodes(fmt: Seq<char>, arg: FieldModel, rest: Seq<u8>)
    requires
        fmt.len() > 0,
        pack_field_spec(fmt, arg) is Ok,
        field_reads_back(fmt, arg),
    ensures
        ({
            let f = pack_field_spec(fmt, arg)->Ok_0.1;
            values_from(f + rest, 0) == prepend_values(
                seq![read_back(fmt, arg)],
                values_from(f + rest, f.len() as int),
            )
        }),
{
    reveal(pack_field_spec);
    reveal(pack_string_spec);
    let f = pack_field_spec(fmt, arg)->Ok_0.1;
    let data = f + rest;
    lemma_fields_advance(data, 0);
    if is_int_spec(fmt[0]) {
        let v = arg->Int_0;
        law_sized_int_field_roundtrip(v, int_width(fmt[0]), rest);
        assert(data[0] == TAG_INT);
    } else {
        let (es, start): (nat, int) = if fmt[0] == 's' {
            (1, 1)
        } else {
            (int_width(fmt[1]), 2)
        };
        let b = arg->Bytes_0;
        let cap = capacity_at(fmt, start);
        assert(f == string_field(b, es, cap));
        law_string_field_roundtrip(b, es, cap, rest);
        assert(data[0] == f[0]);
        assert(is_string_tag(data[0]));
    }
}

/// Decoding the encoding of `args` by `fmt` gives back each field: the
/// strings as they went in and each integer's low bytes of its specifier's
/// width, where every string has fewer than 256 elements and a byte count
/// that fits in a `u32`.
#[verifier::spinoff_prover]
pub proof fn law_decode_packed(fmt: Seq<char>, args: Seq<FieldModel>)
    requires
        pack_spec(fmt, args) is Ok,
        all_read_back(fmt, args),
    ensures
        decode_spec(pack_spec(fmt, args)->Ok_0) == Parsed::Found(
            read_back_all(fmt, args),
            pack_spec(fmt, args)->Ok_0.len() as int,
        ),
    decreases fmt.len(),
{
    let out = pack_spec(fmt, args)->Ok_0;
    if fmt.len() == 0 {
        assert(out =~= Seq::<u8>::empty());
    } else {
        lemma_pack_field_consumes(fmt, args[0]);
        let (n, f) = pack_field_spec(fmt, args[0])->Ok_0;
        let rest_fmt = fmt.skip(n as int);
        let rest_args = args.drop_first();
        assert(field_reads_back(fmt, args[0]) && all_read_back(rest_fmt, rest_args));
        assert(pack_spec(rest_fmt, rest_args) is Ok);
        let rest_out = pack_spec(rest_fmt, rest_args)->Ok_0;
        assert(out == f + rest_out);
        assert(read_back_all(fmt, args) == seq![read_back(fmt, args[0])] + read_back_all(
            rest_fmt,
            rest_args,
        ));
        law_decode_packed(rest_fmt, rest_args);
        lemma_packed_field_decodes(fmt, args[0], rest_out);
        assert(out.skip(f.len() as int) =~= rest_out);
        lemma_values_shift(out, f.len() as int, f.len() as int);
    }
}

/// `pack_u32(v)` is the encoding of `pack("L", &[Arg::Int(v)])`.
pub proof fn law_pack_u32_is_pack_l(v: u32)
    ensures
        pack_spec(seq!['L'], seq![FieldModel::Int(v)]) == Ok::<Seq<u8>, CodecError>(int_field(v)),
{
    reveal(pack_field_spec);
    let fmt = seq!['L'];
    let args = seq![FieldModel::Int(v)];
    assert(fmt.skip(1) =~= Seq::<char>::empty());
    assert(args.drop_first() =~= Seq::<FieldModel>::empty());
    assert(be_bytes(v).skip(0) =~= be_bytes(v));
    assert(sized_int_field(v, 4) =~= int_field(v));
    assert(int_field(v) + Seq::<u8>::empty() =~= int_field(v));
    assert(pack_field_spec(fmt, args[0]) == Ok::<(nat, Seq<u8>), CodecError>((1nat, int_field(v))));
    assert(pack_spec(Seq::<char>::empty(), Seq::<FieldModel>::empty()) == Ok::<Seq<u8>, CodecError>(
        Seq::<u8>::empty(),
    ));
}


/// Text that does not start with a digit cannot lengthen a digit run.
proof fn lemma_digit_run_append(s: Seq<char>, t: Seq<char>)
    requires
        t.len() == 0 || !is_digit(t[0]),
    ensures
        digit_run(s + t) == digit_run(s),
        (s + t).take(digit_run(s) as int) == s.take(digit_run(s) as int),
    decreases s.len(),
{
    lemma_digit_run_bounded(s);
    if s.len() > 0 {
        assert((s + t)[0] == s[0]);
        if is_digit(s[0]) {
            assert((s + t).drop_first() =~= s.drop_first() + t);
            lemma_digit_run_append(s.drop_first(), t);
        }
    } else {
        assert(s + t =~= t);
    }
    assert((s + t).take(digit_run(s) as int) =~= s.take(digit_run(s) as int));
}

/// A string specifier reads the same capacity when more text follows it.
proof fn lemma_pack_string_append(value: Seq<u8>, elem_size: nat, s: Seq<char>, t: Seq<char>)
    requires
        t.len() == 0 || !is_digit(t[0]),
    ensures
        pack_string_spec(value, elem_size, s + t) == pack_string_spec(value, elem_size, s),
{
    reveal(pack_string_spec);
    lemma_digit_run_append(s, t);
}

/// A field's specifier reads the same when more text follows the format.
proof fn lemma_pack_field_append(fmt: Seq<char>, more: Seq<char>, arg: FieldModel)
    requires
        fmt.len() > 0,
        more.len() == 0 || !is_digit(more[0]),
        pack_field_spec(fmt, arg) is Ok,
    ensures
        pack_field_spec(fmt + more, arg) == pack_field_spec(fmt, arg),
{
    reveal(pack_field_spec);
    let whole = fmt + more;
    assert(whole[0] == fmt[0]);
    if fmt[0] == 's' {
        assert(whole.skip(1) =~= fmt.skip(1) + more);
        match arg {
            FieldModel::Bytes(b) => lemma_pack_string_append(b, 1, fmt.skip(1), more),
            FieldModel::Int(_) => {},
        }
    } else if fmt[0] == 'S' {
        assert(fmt.len() >= 2);
        assert(whole[1] == fmt[1]);
        assert(whole.skip(2) =~= fmt.skip(2) + more);
        match arg {
            FieldModel::Bytes(b) => lemma_pack_string_append(b, int_width(fmt[1]), fmt.skip(2), more),
            FieldModel::Int(_) => {},
        }
    }
}

/// Encoding two formats one after the other gives the two encodings joined:
/// where `fmt1` encodes `args1` and `fmt2` encodes `args2`, the format
/// `fmt1` followed by `fmt2` encodes the arguments of both into the bytes of
/// the first followed by the bytes of the second. The second format must not
/// start with a digit, which would extend the last capacity of the first.
pub proof fn law_pack_concat(
    fmt1: Seq<char>,
    args1: Seq<FieldModel>,
    fmt2: Seq<char>,
    args2: Seq<FieldModel>,
)
    requires
        pack_spec(fmt1, args1) is Ok,
        pack_spec(fmt2, args2) is Ok,
        fmt2.len() == 0 || !is_digit(fmt2[0]),
    ensures
        pack_spec(fmt1 + fmt2, args1 + args2) == Ok::<Seq<u8>, CodecError>(
            pack_spec(fmt1, args1).unwrap() + pack_spec(fmt2, args2).unwrap(),
        ),
    decreases fmt1.len(),
{
    let out2 = pack_spec(fmt2, args2).unwrap();
    if fmt1.len() == 0 {
        assert(args1.len() == 0);
        assert(fmt1 + fmt2 =~= fmt2);
        assert(args1 + args2 =~= args2);
        assert(Seq::<u8>::empty() + out2 =~= out2);
    } else {
        assert(args1.len() > 0);
        let (n, field) = pack_field_spec(fmt1, args1[0]).unwrap();
        lemma_pack_field_consumes(fmt1, args1[0]);
        let rest_fmt = fmt1.skip(n as int);
        let rest_args = args1.drop_first();
        law_pack_concat(rest_fmt, rest_args, fmt2, args2);
        lemma_pack_field_append(fmt1, fmt2, args1[0]);
        let fmt = fmt1 + fmt2;
        let args = args1 + args2;
        assert(args[0] == args1[0]);
        assert(fmt.skip(n as int) =~= rest_fmt + fmt2);
        assert(args.drop_first() =~= rest_args + args2);
        let rest_out = pack_spec(rest_fmt, rest_args).unwrap();
        assert(field + (rest_out + out2) =~= (field + rest_out) + out2);
    }
}


/// An integer field that a payload holds reads the same with more bytes
/// after the payload.
proof fn lemma_int_field_prefix(x: Seq<u8>, y: Seq<u8>, pos: int)
    requires
        0 <= pos,
        int_field_at(x, pos) is Found,
    ensures
        int_field_at(x + y, pos) == int_field_at(x, pos),
{
    let d = x + y;
    assert(d[pos] == x[pos]);
    assert(d[pos + 1] == x[pos + 1]);
    let end = pos + 2 + x[pos + 1];
    assert(d.subrange(pos + 2, end) =~= x.subrange(pos + 2, end));
}

/// An element count that a payload holds reads the same with more bytes
/// after the payload.
proof fn lemma_count_prefix(x: Seq<u8>, y: Seq<u8>, pos: int)
    requires
        0 <= pos,
        element_count_at(x, pos) is Found,
    ensures
        element_count_at(x + y, pos) == element_count_at(x, pos),
{
    let d = x + y;
    assert(d[pos] == x[pos]);
    if x[pos] >= 0x80 {
        let n = x[pos] % 16;
        let start = pos + 1;
        assert(n <= usize_bytes());
        assert(d.subrange(start, start + n) =~= x.subrange(start, start + n));
    }
}

/// A string field that a payload holds reads the same with more bytes after
/// the payload.
proof fn lemma_string_field_prefix(x: Seq<u8>, y: Seq<u8>, pos: int)
    requires
        0 <= pos,
        string_field_at(x, pos) is Found,
    ensures
        string_field_at(x + y, pos) == string_field_at(x, pos),
{
    let d = x + y;
    assert(d[pos] == x[pos]);
    lemma_count_prefix(x, y, pos + 1);
    let p = element_count_at(x, pos + 1)->Found_1;
    lemma_fields_advance(x, pos + 1);
    lemma_int_field_prefix(x, y, p);
    let p2 = int_field_at(x, p)->Found_1;
    lemma_fields_advance(x, p);
    lemma_int_field_prefix(x, y, p2);
    let p3 = int_field_at(x, p2)->Found_1;
    let valid = element_count_at(x, pos + 1)->Found_0 * tag_elem_size(x[pos]);
    assert(d.subrange(p3, p3 + valid) =~= x.subrange(p3, p3 + valid));
}

/// Decoding by tags that reaches the end of a payload ends exactly there.
proof fn lemma_values_end(data: Seq<u8>, pos: int)
    requires
        0 <= pos <= data.len(),
    ensures
        values_from(data, pos) matches Parsed::Found(_, q) ==> q == data.len(),
    decreases data.len() - pos,
{
    if pos < data.len() {
        lemma_fields_advance(data, pos);
        if let Parsed::Found(_, q) = int_field_at(data, pos) {
            lemma_values_end(data, q);
        }
        if let Parsed::Found(_, q) = string_field_at(data, pos) {
            lemma_values_end(data, q);
        }
    }
}

/// The values that a payload holds from `pos` on come first when more bytes
/// follow the payload; decoding then goes on where the payload ended.
proof fn lemma_values_prefix(x: Seq<u8>, y: Seq<u8>, pos: int)
    requires
        0 <= pos <= x.len(),
        values_from(x, pos) is Found,
    ensures
        values_from(x + y, pos) == prepend_values(
            values_from(x, pos)->Found_0,
            values_from(x + y, x.len() as int),
        ),
    decreases x.len() - pos,
{
    let d = x + y;
    let tail = values_from(d, x.len() as int);
    if pos == x.len() {
        match tail {
            Parsed::Found(t, _) => {
                assert(Seq::<FieldModel>::empty() + t =~= t);
            },
            _ => {},
        }
    } else {
        assert(d[pos] == x[pos]);
        lemma_fields_advance(x, pos);
        if x[pos] == TAG_INT {
            lemma_int_field_prefix(x, y, pos);
            let (v, q) = (int_field_at(x, pos)->Found_0, int_field_at(x, pos)->Found_1);
            lemma_values_prefix(x, y, q);
            let rest = values_from(x, q)->Found_0;
            match tail {
                Parsed::Found(t, _) => {
                    assert(seq![FieldModel::Int(v)] + (rest + t) =~= (seq![FieldModel::Int(v)]
                        + rest) + t);
                },
                _ => {},
            }
        } else {
            lemma_string_field_prefix(x, y, pos);
            let (v, q) = (string_field_at(x, pos)->Found_0, string_field_at(x, pos)->Found_1);
            lemma_values_prefix(x, y, q);
            let rest = values_from(x, q)->Found_0;
            match tail {
                Parsed::Found(t, _) => {
                    assert(seq![FieldModel::Bytes(v)] + (rest + t) =~= (seq![FieldModel::Bytes(v)]
                        + rest) + t);
                },
                _ => {},
            }
        }
    }
}

/// The empty payload holds no values.
pub proof fn law_decode_empty()
    ensures
        decode_spec(Seq::empty()) == Parsed::Found(Seq::<FieldModel>::empty(), 0),
{
}

/// Decoding two payloads joined gives their values joined: where `x` and `y`
/// each decode in full, `x` followed by `y` decodes to the values of `x`
/// followed by those of `y`, read to its end.
pub proof fn law_decode_concat(x: Seq<u8>, y: Seq<u8>)
    requires
        decode_spec(x) is Found,
        decode_spec(y) is Found,
    ensures
        decode_spec(x + y) == Parsed::Found(
            decode_spec(x)->Found_0 + decode_spec(y)->Found_0,
            (x.len() + y.len()) as int,
        ),
{
    let d = x + y;
    lemma_values_prefix(x, y, 0);
    lemma_values_end(y, 0);
    lemma_values_shift(d, x.len() as int, x.len() as int);
    assert(d.skip(x.len() as int) =~= y);
}

/// A string field's declared count is checked against its valid and padding
/// counts only where it is not 0: a field whose count is 0 reads as its
/// valid bytes, its padding skipped, whatever those counts are; any other
/// count must be their sum, else the field is a length mismatch. The field
/// here is its tag, a one-byte element count, the count and padding fields,
/// the bytes and the padding.
pub proof fn law_string_count_check(
    tag: u8,
    value: Seq<u8>,
    count: u32,
    padding: u32,
    rest: Seq<u8>,
)
    requires
        tag == 0x55 || tag == 0x56 || tag == 0x57,
        value.len() % tag_elem_size(tag) == 0,
        value.len() / tag_elem_size(tag) < 128,
        count != 0 ==> value.len() + padding <= usize::MAX,
    ensures
        ({
            let field = seq![tag, (value.len() / tag_elem_size(tag)) as u8] + int_field(count)
                + int_field(padding) + value + zeros(padding as nat);
            &&& (count == 0 || count == value.len() + padding) ==> string_field_at(field + rest, 0)
                == Parsed::Found(value, field.len() as int)
            &&& (count != 0 && count != value.len() + padding) ==> string_field_at(field + rest, 0)
                == Parsed::<Seq<u8>>::Failed(
                CodecError::StringLengthMismatch {
                    count: count as usize,
                    valid: value.len() as usize,
                    padding: padding as usize,
                },
                14,
            )
        }),
{
    let es = tag_elem_size(tag);
    let e = value.len() / es;
    let field = seq![tag, e as u8] + int_field(count) + int_field(padding) + value + zeros(
        padding as nat,
    );
    let data = field + rest;
    assert(e * es == value.len()) by (nonlinear_arith)
        requires
            value.len() % es == 0,
            e == value.len() / es,
            es > 0,
    ;
    assert(data[0] == tag);
    assert(data[1] == e as u8);
    assert(element_count_at(data, 1) == Parsed::Found(e, 2));
    assert(data.subrange(2, 8) =~= int_field(count));
    lemma_int_field_at(data, 2, count);
    assert(data.subrange(8, 14) =~= int_field(padding));
    lemma_int_field_at(data, 8, padding);
    assert(data.subrange(14, 14 + value.len() as int) =~= value);
}

/// A long element count, `0x80 | k` followed by `k` bytes, reads those bytes
/// little-endian, least significant first, whatever follows: shown here for
/// two and for four bytes.
pub proof fn law_long_count_little_endian(b0: u8, b1: u8, b2: u8, b3: u8, rest: Seq<u8>)
    ensures
        element_count_at(seq![0x82u8, b0, b1] + rest, 0) == Parsed::Found(
            (b0 + 0x100 * b1) as nat,
            3,
        ),
        element_count_at(seq![0x84u8, b0, b1, b2, b3] + rest, 0) == Parsed::Found(
            (b0 + 0x100 * b1 + 0x1_0000 * b2 + 0x100_0000 * b3) as nat,
            5,
        ),
{
    lemma_usize_bytes();
    reveal_with_fuel(pow256, 4);
    let s2 = seq![b0, b1];
    let s4 = seq![b0, b1, b2, b3];
    assert(s4.drop_last() =~= seq![b0, b1, b2]);
    assert(seq![b0, b1, b2].drop_last() =~= s2);
    assert(s2.drop_last() =~= seq![b0]);
    assert(seq![b0].drop_last() =~= Seq::<u8>::empty());
    let s1 = seq![b0];
    let s3 = seq![b0, b1, b2];
    assert(pow256(0) == 1 && pow256(1) == 0x100 && pow256(2) == 0x1_0000 && pow256(3)
        == 0x100_0000);
    assert(le_value(Seq::<u8>::empty()) == 0);
    assert(s1.last() == b0 && s2.last() == b1 && s3.last() == b2 && s4.last() == b3);
    assert(le_value(s1) == le_value(s1.drop_last()) + (b0 as nat) * pow256(0));
    assert(le_value(s1) == b0);
    assert(le_value(s2) == le_value(s1) + (b1 as nat) * pow256(1));
    assert(le_value(s2) == b0 + 0x100 * b1);
    assert(le_value(s3) == le_value(s2) + (b2 as nat) * pow256(2));
    assert(le_value(s3) == b0 + 0x100 * b1 + 0x1_0000 * b2);
    assert(le_value(s4) == le_value(s3) + (b3 as nat) * pow256(3));
    assert(le_value(s4) == b0 + 0x100 * b1 + 0x1_0000 * b2 + 0x100_0000 * b3);
    let d2 = seq![0x82u8, b0, b1] + rest;
    let d4 = seq![0x84u8, b0, b1, b2, b3] + rest;
    assert(d2[0] == 0x82u8);
    assert(d2.subrange(1, 3) =~= s2);
    assert(d4[0] == 0x84u8);
    assert(d4.subrange(1, 5) =~= s4);
}

} // verus!
