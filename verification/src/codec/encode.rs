//! Encoding: the format language of [`pack`] and the fields it writes.
use vstd::prelude::*;
use crate::codec::{
    Arg, CodecError, FieldModel, TAG_INT, TAG_STRING_U16, TAG_STRING_U32, TAG_STRING_U8, arg_models,
    asn_int, be_bytes, chars_of, int_field, pow256,
};

verus! {

/// An ASCII decimal digit.
pub open spec fn is_digit(c: char) -> bool {
    '0' <= c && c <= '9'
}

/// The number of decimal digits at the start of `s`.
pub open spec fn digit_run(s: Seq<char>) -> nat
    decreases s.len(),
{
    if s.len() > 0 && is_digit(s[0]) {
        1 + digit_run(s.drop_first())
    } else {
        0
    }
}

/// The number that the decimal digits `s` denote.
pub open spec fn decimal(s: Seq<char>) -> nat
    decreases s.len(),
{
    if s.len() == 0 {
        0
    } else {
        decimal(s.drop_last()) * 10 + ((s.last() as int - '0' as int) as nat)
    }
}

/// The width in bytes of an integer specifier (`B`, `H` or `L`).
pub open spec fn int_width(c: char) -> nat {
    if c == 'B' {
        1
    } else if c == 'H' {
        2
    } else {
        4
    }
}

/// An integer specifier.
pub open spec fn is_int_spec(c: char) -> bool {
    c == 'B' || c == 'H' || c == 'L'
}

/// The integer field of width `w` (1, 2 or 4): tag, width, the low `w` bytes
/// of `v` in big-endian order.
pub open spec fn sized_int_field(v: u32, w: nat) -> Seq<u8> {
    seq![TAG_INT, w as u8] + be_bytes(v).skip(4 - w)
}

/// The big-endian bytes of `n` without leading zero bytes.
pub open spec fn be_min(n: nat) -> Seq<u8>
    decreases n,
{
    if n == 0 {
        Seq::empty()
    } else {
        be_min(n / 256).push((n % 256) as u8)
    }
}

/// The element count of a string field: one byte below 128, otherwise
/// `0x80 | k` followed by the `k` big-endian bytes of the count.
pub open spec fn length_prefix(elements: nat) -> Seq<u8> {
    if elements < 128 {
        seq![elements as u8]
    } else {
        seq![(0x80 + be_min(elements).len()) as u8] + be_min(elements)
    }
}

/// The string tag for elements of `elem_size` bytes.
pub open spec fn string_tag(elem_size: nat) -> u8 {
    if elem_size == 1 {
        TAG_STRING_U8
    } else if elem_size == 2 {
        TAG_STRING_U16
    } else {
        TAG_STRING_U32
    }
}

/// `n` zero bytes.
pub open spec fn zeros(n: nat) -> Seq<u8> {
    Seq::new(n, |i: int| 0u8)
}

/// The string field holding `value` in a field of `capacity` elements of
/// `elem_size` bytes: tag, element count, byte count, padding count (the two
/// counts as integer fields of their low 32 bits), the value and its zero
/// padding.
pub open spec fn string_field(value: Seq<u8>, elem_size: nat, capacity: nat) -> Seq<u8> {
    let count = capacity * elem_size;
    let padding = (count - value.len()) as nat;
    seq![string_tag(elem_size)] + length_prefix(value.len() / elem_size) + int_field(
        count as u32,
    ) + int_field(padding as u32) + value + zeros(padding)
}

/// The field that a string specifier writes for `value` in elements of
/// `elem_size` bytes, its capacity being the decimal digits at the start of
/// `rest`: on success the number of digits used and the field, otherwise the
/// encoder's error.
#[verifier::opaque]
pub open spec fn pack_string_spec(value: Seq<u8>, elem_size: nat, rest: Seq<char>) -> Result<
    (nat, Seq<u8>),
    CodecError,
> {
    let n = digit_run(rest);
    let capacity = decimal(rest.take(n as int));
    if n == 0 || capacity > usize::MAX {
        Err(CodecError::MissingLength)
    } else if value.len() % elem_size != 0 {
        Err(
            CodecError::StringOverflow {
                valid: value.len() as usize,
                capacity: value.len() as usize,
            },
        )
    } else if value.len() / elem_size > capacity {
        Err(
            CodecError::StringOverflow {
                valid: (value.len() / elem_size) as usize,
                capacity: capacity as usize,
            },
        )
    } else {
        Ok((n, string_field(value, elem_size, capacity)))
    }
}

/// One specifier at the start of `fmt` applied to `arg`: on success, the
/// number of format characters used and the bytes of the field.
#[verifier::opaque]
pub open spec fn pack_field_spec(fmt: Seq<char>, arg: FieldModel) -> Result<
    (nat, Seq<u8>),
    CodecError,
> {
    let ch = fmt[0];
    if is_int_spec(ch) {
        match arg {
            FieldModel::Int(v) => Ok((1nat, sized_int_field(v, int_width(ch)))),
            FieldModel::Bytes(_) => Err(CodecError::WrongArgument),
        }
    } else if ch == 's' {
        match arg {
            FieldModel::Bytes(b) => match pack_string_spec(b, 1, fmt.skip(1)) {
                Ok((n, out)) => Ok((n + 1, out)),
                Err(e) => Err(e),
            },
            FieldModel::Int(_) => Err(CodecError::WrongArgument),
        }
    } else if ch == 'S' {
        if fmt.len() < 2 {
            Err(CodecError::MissingLength)
        } else if !is_int_spec(fmt[1]) {
            Err(CodecError::BadFormat(fmt[1]))
        } else {
            match arg {
                FieldModel::Bytes(b) => match pack_string_spec(b, int_width(fmt[1]), fmt.skip(2)) {
                    Ok((n, out)) => Ok((n + 2, out)),
                    Err(e) => Err(e),
                },
                FieldModel::Int(_) => Err(CodecError::WrongArgument),
            }
        }
    } else {
        Err(CodecError::BadFormat(ch))
    }
}

/// A field's specifier is never empty and never runs past the format.
pub proof fn lemma_pack_field_consumes(fmt: Seq<char>, arg: FieldModel)
    requires
        fmt.len() > 0,
    ensures
        pack_field_spec(fmt, arg) matches Ok((n, _)) ==> 1 <= n <= fmt.len(),
{
    reveal(pack_field_spec);
    reveal(pack_string_spec);
    if fmt.len() >= 1 {
        lemma_digit_run_bounded(fmt.skip(1));
    }
    if fmt.len() >= 2 {
        lemma_digit_run_bounded(fmt.skip(2));
    }
}

/// A digit run is no longer than the text it stands in.
pub proof fn lemma_digit_run_bounded(s: Seq<char>)
    ensures
        digit_run(s) <= s.len(),
    decreases s.len(),
{
    if s.len() > 0 && is_digit(s[0]) {
        lemma_digit_run_bounded(s.drop_first());
    }
}

/// The whole encoding of `args` by `fmt`: the fields in order, or the first
/// error that the encoder meets.
pub open spec fn pack_spec(fmt: Seq<char>, args: Seq<FieldModel>) -> Result<Seq<u8>, CodecError>
    decreases fmt.len(),
{
    if fmt.len() == 0 {
        if args.len() == 0 {
            Ok(Seq::empty())
        } else {
            Err(CodecError::TooManyArguments)
        }
    } else if args.len() == 0 {
        Err(CodecError::MissingArgument)
    } else {
        match pack_field_spec(fmt, args[0]) {
            Ok((n, field)) => {
                proof {
                    lemma_pack_field_consumes(fmt, args[0]);
                }
                match pack_spec(fmt.skip(n as int), args.drop_first()) {
                    Ok(rest) => Ok(field + rest),
                    Err(e) => Err(e),
                }
            },
            Err(e) => Err(e),
        }
    }
}

/// The number of bytes the encoder writes for `args` before it finishes or
/// meets its first error.
pub open spec fn packed_len(fmt: Seq<char>, args: Seq<FieldModel>) -> nat
    decreases fmt.len(),
{
    if fmt.len() == 0 || args.len() == 0 {
        0
    } else {
        match pack_field_spec(fmt, args[0]) {
            Ok((n, field)) => {
                proof {
                    lemma_pack_field_consumes(fmt, args[0]);
                }
                field.len() + packed_len(fmt.skip(n as int), args.drop_first())
            },
            Err(_) => 0,
        }
    }
}

/// A digit run stops at the first character that is not a digit.
pub(crate) proof fn lemma_digit_run_exact(s: Seq<char>, m: int)
    requires
        0 <= m <= s.len(),
        forall|i: int| 0 <= i < m ==> is_digit(#[trigger] s[i]),
        m == s.len() || !is_digit(s[m]),
    ensures
        digit_run(s) == m,
    decreases m,
{
    if m > 0 {
        assert forall|i: int| 0 <= i < m - 1 implies is_digit(#[trigger] s.drop_first()[i]) by {
            assert(s.drop_first()[i] == s[i + 1]);
        }
        lemma_digit_run_exact(s.drop_first(), m - 1);
    }
}

/// Reading one more digit.
proof fn lemma_decimal_step(s: Seq<char>, k: int)
    requires
        0 <= k < s.len(),
    ensures
        decimal(s.take(k + 1)) == decimal(s.take(k)) * 10 + ((s[k] as int - '0' as int) as nat),
{
    assert(s.take(k + 1).drop_last() =~= s.take(k));
}

/// A number below `256^k` has at most `k` significant bytes.
proof fn lemma_be_min_len(n: nat, k: nat)
    requires
        n < pow256(k),
    ensures
        be_min(n).len() <= k,
    decreases k,
{
    if n > 0 && k > 0 {
        lemma_be_min_len(n / 256, (k - 1) as nat);
    }
}

/// Whether `c` is an ASCII decimal digit.
fn is_digit_char(c: char) -> (b: bool)
    ensures
        b == is_digit(c),
{
    '0' <= c && c <= '9'
}

/// Append the integer field for `v`.
pub(crate) fn push_int_field(out: &mut Vec<u8>, v: u32)
    ensures
        final(out)@ == old(out)@ + int_field(v),
{
    let field = asn_int(v);
    let mut i: usize = 0;
    while i < 6
        invariant
            i <= 6,
            field@ == int_field(v),
            out@ == old(out)@ + field@.take(i as int),
        decreases 6 - i,
    {
        out.push(field[i]);
        i += 1;
        assert(field@.take(i as int) =~= field@.take(i - 1).push(field@[i - 1]));
    }
    assert(field@.take(6) =~= field@);
}

/// Append the bytes of `value`.
pub(crate) fn push_bytes(out: &mut Vec<u8>, value: &[u8])
    ensures
        final(out)@ == old(out)@ + value@,
{
    let mut i: usize = 0;
    while i < value.len()
        invariant
            i <= value.len(),
            out@ == old(out)@ + value@.take(i as int),
        decreases value.len() - i,
    {
        out.push(value[i]);
        i += 1;
        assert(value@.take(i as int) =~= value@.take(i - 1).push(value@[i - 1]));
    }
    assert(value@.take(value.len() as int) =~= value@);
}

/// Append the element count of a string field.
fn push_length_prefix(out: &mut Vec<u8>, elements: usize)
    ensures
        final(out)@ == old(out)@ + length_prefix(elements as nat),
{
    if elements < 128 {
        out.push(elements as u8);
        assert(out@ =~= old(out)@ + length_prefix(elements as nat));
    } else {
        // Big-endian variable length; the high bit marks continuation.
        let mut remain = elements;
        let mut bytes: Vec<u8> = Vec::new();
        while remain > 0
            invariant
                be_min(elements as nat) == be_min(remain as nat) + bytes@,
            decreases remain,
        {
            let low = (remain & 0xff) as u8;
            assert(low == (remain % 256) as u8 && (remain >> 8) == remain / 256) by (bit_vector)
                requires
                    low == (remain & 0xff) as u8,
            ;
            let ghost old_bytes = bytes@;
            bytes.insert(0, low);
            let ghost before = remain;
            remain = remain >> 8;
            assert(be_min(before as nat) == be_min(remain as nat).push(low));
            assert(be_min(remain as nat).push(low) + old_bytes =~= be_min(remain as nat) + bytes@);
        }
        assert(be_min(elements as nat) =~= bytes@);
        proof {
            assert(elements < pow256(8)) by {
                reveal_with_fuel(pow256, 9);
            }
            lemma_be_min_len(elements as nat, 8);
        }
        let k = bytes.len() as u8;
        let head = 0x80 | k;
        assert(head == 0x80 + k) by (bit_vector)
            requires
                head == 0x80 | k,
                k <= 8,
        ;
        out.push(head);
        push_bytes(out, bytes.as_slice());
        assert(out@ =~= old(out)@ + length_prefix(elements as nat));
    }
}

/// Read the capacity digits of `chars` that start at `start`: the number of
/// digits and, where it fits in a `usize`, the number they denote.
fn scan_capacity(chars: &Vec<char>, start: usize) -> (r: (usize, Option<usize>))
    requires
        start <= chars.len(),
    ensures
        r.0 == digit_run(chars@.skip(start as int)),
        ({
            let value = decimal(chars@.skip(start as int).take(r.0 as int));
            match r.1 {
                Some(v) => v == value,
                None => value > usize::MAX,
            }
        }),
{
    let ghost rest = chars@.skip(start as int);
    let mut j = start;
    let mut length: usize = 0;
    let mut overflow = false;
    while j < chars.len() && is_digit_char(chars[j])
        invariant
            start <= j <= chars.len(),
            rest == chars@.skip(start as int),
            forall|i: int| start <= i < j ==> is_digit(#[trigger] chars@[i]),
            !overflow ==> length == decimal(rest.take(j - start)),
            overflow ==> decimal(rest.take(j - start)) > usize::MAX,
        decreases chars.len() - j,
    {
        let d = (chars[j] as u32 - '0' as u32) as usize;
        proof {
            lemma_decimal_step(rest, j - start);
            assert(rest[j - start] == chars@[j as int]);
        }
        if !overflow {
            match length.checked_mul(10) {
                Some(m) => match m.checked_add(d) {
                    Some(v) => {
                        length = v;
                    },
                    None => {
                        overflow = true;
                    },
                },
                None => {
                    overflow = true;
                },
            }
        }
        j += 1;
    }
    let n = j - start;
    proof {
        assert forall|i: int| 0 <= i < n implies is_digit(#[trigger] rest[i]) by {
            assert(rest[i] == chars@[start + i]);
        }
        if j < chars.len() {
            assert(rest[n as int] == chars@[j as int]);
        }
        lemma_digit_run_exact(rest, n as int);
    }
    if overflow {
        (n, None)
    } else {
        (n, Some(length))
    }
}

/// Append the string field for `value` with `elements` elements of
/// `elem_size` bytes in a field of `capacity` elements.
fn push_string_field(value: &[u8], elem_size: usize, elements: usize, capacity: usize, out: &mut Vec<u8>)
    requires
        elem_size == 1 || elem_size == 2 || elem_size == 4,
        value.len() % elem_size == 0,
        elements == value.len() / elem_size,
        elements <= capacity,
        old(out).len() + string_field(value@, elem_size as nat, capacity as nat).len() <= usize::MAX,
    ensures
        final(out)@ == old(out)@ + string_field(value@, elem_size as nat, capacity as nat),
{
    let ghost field = string_field(value@, elem_size as nat, capacity as nat);
    proof {
        assert(elements * elem_size == value.len()) by (nonlinear_arith)
            requires
                value.len() % elem_size == 0,
                elements == value.len() / elem_size,
                elem_size > 0,
        ;
        assert(elements * elem_size <= capacity * elem_size) by (nonlinear_arith)
            requires
                elements <= capacity,
                elem_size > 0,
        ;
    }
    let field_tag = if elem_size == 1 {
        TAG_STRING_U8
    } else if elem_size == 2 {
        TAG_STRING_U16
    } else {
        TAG_STRING_U32
    };
    let count = capacity * elem_size;
    let padding = count - value.len();

    out.push(field_tag);
    push_length_prefix(out, elements);
    push_int_field(out, count as u32);
    push_int_field(out, padding as u32);
    push_bytes(out, value);
    let ghost before_padding = out@;
    let new_len = out.len() + padding;
    out.resize(new_len, 0);
    assert(out@ =~= before_padding + zeros(padding as nat));
    assert(out@ =~= old(out)@ + field);
}

/// Encode the string `value` with elements of `elem_size` bytes, taking its
/// capacity from the digits of `chars` that start at `start`. On success,
/// returns the number of digits used.
fn pack_string(
    value: &[u8],
    elem_size: usize,
    chars: &Vec<char>,
    start: usize,
    out: &mut Vec<u8>,
) -> (r: Result<usize, CodecError>)
    requires
        elem_size == 1 || elem_size == 2 || elem_size == 4,
        start <= chars.len(),
        pack_string_spec(value@, elem_size as nat, chars@.skip(start as int)) matches Ok(
            (_, field),
        ) ==> old(out).len() + field.len() <= usize::MAX,
    ensures
        match pack_string_spec(value@, elem_size as nat, chars@.skip(start as int)) {
            Ok((n, field)) => r matches Ok(m) && m == n && final(out)@ == old(out)@ + field,
            Err(e) => r == Err::<usize, CodecError>(e) && final(out)@ == old(out)@,
        },
        r matches Ok(m) ==> m <= chars.len() - start,
{
    reveal(pack_string_spec);
    let (n, capacity) = scan_capacity(chars, start);
    let length = match capacity {
        Some(length) => length,
        None => {
            return Err(CodecError::MissingLength);
        },
    };
    if n == 0 {
        return Err(CodecError::MissingLength);
    }
    if value.len() % elem_size != 0 {
        return Err(CodecError::StringOverflow { valid: value.len(), capacity: value.len() });
    }
    let elements = value.len() / elem_size;
    if elements > length {
        return Err(CodecError::StringOverflow { valid: elements, capacity: length });
    }
    push_string_field(value, elem_size, elements, length, out);
    proof {
        lemma_digit_run_bounded(chars@.skip(start as int));
    }
    Ok(n)
}

/// Encode the field whose specifier starts at `chars[i]` from `arg`. On
/// success, returns the number of format characters used.
fn pack_field(chars: &Vec<char>, i: usize, arg: &Arg<'_>, out: &mut Vec<u8>) -> (r: Result<
    usize,
    CodecError,
>)
    requires
        i < chars.len(),
        pack_field_spec(chars@.skip(i as int), arg@) matches Ok((_, field)) ==> old(out).len()
            + field.len() <= usize::MAX,
    ensures
        match pack_field_spec(chars@.skip(i as int), arg@) {
            Ok((n, field)) => r matches Ok(m) && m == n && final(out)@ == old(out)@ + field,
            Err(e) => r == Err::<usize, CodecError>(e) && final(out)@ == old(out)@,
        },
{
    reveal(pack_field_spec);
    let ghost fmt = chars@.skip(i as int);
    assert(fmt[0] == chars@[i as int]);
    let ch = chars[i];
    if ch == 'B' || ch == 'H' || ch == 'L' {
        let value = match arg {
            Arg::Int(value) => *value,
            Arg::Bytes(_) => {
                return Err(CodecError::WrongArgument);
            },
        };
        let width: usize = if ch == 'B' {
            1
        } else if ch == 'H' {
            2
        } else {
            4
        };
        let field = asn_int(value);
        out.push(TAG_INT);
        out.push(width as u8);
        let mut k: usize = 6 - width;
        while k < 6
            invariant
                6 - width <= k <= 6,
                width == 1 || width == 2 || width == 4,
                field@ == int_field(value),
                out@ == old(out)@ + seq![TAG_INT, width as u8] + field@.subrange(
                    6 - width,
                    k as int,
                ),
            decreases 6 - k,
        {
            out.push(field[k]);
            k += 1;
            assert(field@.subrange(6 - width, k as int) =~= field@.subrange(
                6 - width,
                k - 1,
            ).push(field@[k - 1]));
        }
        assert(field@.subrange(6 - width, 6) =~= be_bytes(value).skip(4 - width));
        assert(out@ =~= old(out)@ + sized_int_field(value, width as nat));
        Ok(1)
    } else if ch == 's' {
        let value = match arg {
            Arg::Bytes(value) => *value,
            Arg::Int(_) => {
                return Err(CodecError::WrongArgument);
            },
        };
        assert(fmt.skip(1) =~= chars@.skip(i + 1));
        proof {
            lemma_digit_run_bounded(chars@.skip(i + 1));
        }
        match pack_string(value, 1, chars, i + 1, out) {
            Ok(n) => Ok(n + 1),
            Err(e) => Err(e),
        }
    } else if ch == 'S' {
        if i + 1 >= chars.len() {
            return Err(CodecError::MissingLength);
        }
        let elem = chars[i + 1];
        assert(fmt[1] == elem);
        let elem_size: usize = if elem == 'B' {
            1
        } else if elem == 'H' {
            2
        } else if elem == 'L' {
            4
        } else {
            return Err(CodecError::BadFormat(elem));
        };
        let value = match arg {
            Arg::Bytes(value) => *value,
            Arg::Int(_) => {
                return Err(CodecError::WrongArgument);
            },
        };
        assert(fmt.skip(2) =~= chars@.skip(i + 2));
        proof {
            lemma_digit_run_bounded(chars@.skip(i + 2));
        }
        match pack_string(value, elem_size, chars, i + 2, out) {
            Ok(n) => Ok(n + 2),
            Err(e) => Err(e),
        }
    } else {
        Err(CodecError::BadFormat(ch))
    }
}

/// `prefix` in front of a successful encoding; an error stays as it is.
pub open spec fn prepend(prefix: Seq<u8>, r: Result<Seq<u8>, CodecError>) -> Result<
    Seq<u8>,
    CodecError,
> {
    match r {
        Ok(rest) => Ok(prefix + rest),
        Err(e) => Err(e),
    }
}

/// Encode `args` according to `fmt`.
///
/// The format language: `B`/`H`/`L` is an 8/16/32-bit integer, `s<len>` a
/// byte string with capacity `<len>`, `S<elem><len>` a string whose elements
/// are of type `<elem>` (`B`, `H` or `L`).
pub fn pack(fmt: &str, args: &[Arg<'_>]) -> (r: Result<Vec<u8>, CodecError>)
    requires
        packed_len(fmt@, arg_models(args@)) <= usize::MAX,
    ensures
        match r {
            Ok(out) => pack_spec(fmt@, arg_models(args@)) == Ok::<Seq<u8>, CodecError>(out@),
            Err(e) => pack_spec(fmt@, arg_models(args@)) == Err::<Seq<u8>, CodecError>(e),
        },
{
    let chars = chars_of(fmt);
    let ghost all_fmt = chars@;
    let ghost all_args = arg_models(args@);
    let mut out: Vec<u8> = Vec::new();
    let mut i: usize = 0;
    let mut k: usize = 0;
    assert(all_fmt.skip(0) =~= all_fmt);
    assert(all_args.skip(0) =~= all_args);
    assert(out@ + Seq::<u8>::empty() =~= Seq::<u8>::empty());
    while i < chars.len()
        invariant
            i <= chars.len(),
            k <= args.len(),
            all_fmt == chars@,
            all_fmt == fmt@,
            all_args == arg_models(args@),
            out.len() + packed_len(all_fmt.skip(i as int), all_args.skip(k as int)) == packed_len(
                all_fmt,
                all_args,
            ),
            packed_len(all_fmt, all_args) <= usize::MAX,
            pack_spec(all_fmt, all_args) == prepend(
                out@,
                pack_spec(all_fmt.skip(i as int), all_args.skip(k as int)),
            ),
        decreases chars.len() - i,
    {
        let ghost f = all_fmt.skip(i as int);
        let ghost a = all_args.skip(k as int);
        if k >= args.len() {
            return Err(CodecError::MissingArgument);
        }
        assert(a[0] == args@[k as int]@);
        let ghost old_out = out@;
        match pack_field(&chars, i, &args[k], &mut out) {
            Ok(n) => {
                proof {
                    lemma_pack_field_consumes(f, a[0]);
                    let (n2, field) = pack_field_spec(f, a[0]).unwrap();
                    assert(n2 == n);
                    assert(out@ == old_out + field);
                    assert(f.skip(n as int) =~= all_fmt.skip(i + n));
                    assert(a.drop_first() =~= all_args.skip(k + 1));
                    assert(pack_spec(f, a) == prepend(field, pack_spec(f.skip(n as int), a.drop_first())));
                    match pack_spec(all_fmt.skip(i + n), all_args.skip(k + 1)) {
                        Ok(rest) => {
                            assert(old_out + (field + rest) =~= out@ + rest);
                        },
                        Err(_) => {},
                    }
                }
                i = i + n;
                k = k + 1;
            },
            Err(e) => {
                return Err(e);
            },
        }
    }
    if k < args.len() {
        return Err(CodecError::TooManyArguments);
    }
    assert(out@ + Seq::<u8>::empty() =~= out@);
    Ok(out)
}

/// Encode a single 32-bit integer (shorthand for `pack("L", &[Arg::Int(v)])`).
pub fn pack_u32(value: u32) -> (out: Vec<u8>)
    ensures
        out@ == int_field(value),
{
    let mut out: Vec<u8> = Vec::new();
    push_int_field(&mut out, value);
    assert(out@ =~= int_field(value));
    out
}

} // verus!
