//! Decoding: the fields a payload holds and the cursor that reads them.
use vstd::prelude::*;
use crate::codec::{
    CodecError, FieldModel, TAG_INT, TAG_STRING_U16, TAG_STRING_U32, TAG_STRING_U8, Value, chars_of,
    lemma_pow256_monotone, pow256, value_models,
};

verus! {

/// The outcome of reading a field at a position of a payload.
pub enum Parsed<T> {
    /// The field, and the position just past it.
    Found(T, int),
    /// The decoder's error, and the position the reader stopped at.
    Failed(CodecError, int),
    /// Arithmetic on the declared lengths overflows a `usize`; such input is
    /// outside the decoder's domain.
    Overflow,
}

/// The big-endian value of `s`.
pub open spec fn be_value(s: Seq<u8>) -> nat
    decreases s.len(),
{
    if s.len() == 0 {
        0
    } else {
        be_value(s.drop_last()) * 256 + (s.last() as nat)
    }
}

/// The little-endian value of `s`.
pub open spec fn le_value(s: Seq<u8>) -> nat
    decreases s.len(),
{
    if s.len() == 0 {
        0
    } else {
        le_value(s.drop_last()) + (s.last() as nat) * pow256((s.len() - 1) as nat)
    }
}

/// Bytes that a `usize` holds.
pub open spec fn usize_bytes() -> int {
    usize::BITS as int / 8
}

/// The integer field at `pos`: tag `0x02`, a width from 1 to 4, then that
/// many big-endian bytes.
pub open spec fn int_field_at(data: Seq<u8>, pos: int) -> Parsed<u32> {
    if pos >= data.len() {
        Parsed::Failed(CodecError::UnexpectedEof, pos)
    } else if data[pos] != TAG_INT {
        Parsed::Failed(CodecError::BadIntTag(data[pos]), pos + 1)
    } else if pos + 1 >= data.len() {
        Parsed::Failed(CodecError::UnexpectedEof, pos + 1)
    } else if data[pos + 1] == 0 || data[pos + 1] > 4 {
        Parsed::Failed(CodecError::BadIntWidth(data[pos + 1]), pos + 2)
    } else if pos + 2 + data[pos + 1] > data.len() {
        Parsed::Failed(CodecError::UnexpectedEof, data.len() as int)
    } else {
        let end = pos + 2 + data[pos + 1];
        Parsed::Found(be_value(data.subrange(pos + 2, end)) as u32, end)
    }
}

/// Whether `tag` is one of the three string tags.
pub open spec fn is_string_tag(tag: u8) -> bool {
    tag == TAG_STRING_U8 || tag == TAG_STRING_U16 || tag == TAG_STRING_U32
}

/// The element size that a string tag stands for.
pub open spec fn tag_elem_size(tag: u8) -> nat {
    if tag == TAG_STRING_U8 {
        1
    } else if tag == TAG_STRING_U16 {
        2
    } else {
        4
    }
}

/// The element count of the string field whose count byte is at `pos`:
/// below `0x80` the byte itself, otherwise the little-endian value of the
/// `byte & 0x0f` bytes that follow.
pub open spec fn element_count_at(data: Seq<u8>, pos: int) -> Parsed<nat> {
    if pos >= data.len() {
        Parsed::Failed(CodecError::UnexpectedEof, pos)
    } else if data[pos] < 0x80 {
        Parsed::Found(data[pos] as nat, pos + 1)
    } else {
        let n = data[pos] % 16;
        let start = pos + 1;
        if n > usize_bytes() && start + usize_bytes() < data.len() {
            Parsed::Overflow
        } else if start + n > data.len() {
            Parsed::Failed(CodecError::UnexpectedEof, data.len() as int)
        } else {
            Parsed::Found(le_value(data.subrange(start, start + n)), start + n)
        }
    }
}

/// The string field at `pos`, with its padding dropped.
pub open spec fn string_field_at(data: Seq<u8>, pos: int) -> Parsed<Seq<u8>> {
    if pos >= data.len() {
        Parsed::Failed(CodecError::UnexpectedEof, pos)
    } else if !is_string_tag(data[pos]) {
        Parsed::Failed(CodecError::BadStringTag(data[pos]), pos + 1)
    } else {
        match element_count_at(data, pos + 1) {
            Parsed::Overflow => Parsed::Overflow,
            Parsed::Failed(e, q) => Parsed::Failed(e, q),
            Parsed::Found(elements, p) => {
                let valid = elements * tag_elem_size(data[pos]);
                if valid > usize::MAX {
                    Parsed::Overflow
                } else {
                    match int_field_at(data, p) {
                        Parsed::Found(count, p2) => match int_field_at(data, p2) {
                            Parsed::Found(padding, p3) => {
                                if count != 0 && valid + padding > usize::MAX {
                                    Parsed::Overflow
                                } else if count != 0 && count != valid + padding {
                                    Parsed::Failed(
                                        CodecError::StringLengthMismatch {
                                            count: count as usize,
                                            valid: valid as usize,
                                            padding: padding as usize,
                                        },
                                        p3,
                                    )
                                } else if p3 + valid > data.len() {
                                    Parsed::Failed(CodecError::UnexpectedEof, p3)
                                } else if p3 + valid + padding > data.len() {
                                    Parsed::Failed(CodecError::UnexpectedEof, p3 + valid)
                                } else {
                                    Parsed::Found(
                                        data.subrange(p3, p3 + valid),
                                        p3 + valid + padding,
                                    )
                                }
                            },
                            Parsed::Failed(e, q) => Parsed::Failed(e, q),
                            Parsed::Overflow => Parsed::Overflow,
                        },
                        Parsed::Failed(e, q) => Parsed::Failed(e, q),
                        Parsed::Overflow => Parsed::Overflow,
                    }
                }
            },
        }
    }
}

/// A field read at `pos` ends past `pos` and within the payload.
pub proof fn lemma_fields_advance(data: Seq<u8>, pos: int)
    ensures
        int_field_at(data, pos) matches Parsed::Found(_, q) ==> pos < q <= data.len(),
        string_field_at(data, pos) matches Parsed::Found(_, q) ==> pos < q <= data.len(),
        element_count_at(data, pos) matches Parsed::Found(_, q) ==> pos < q <= data.len(),
{
}

/// `prefix` in front of the values that follow; failures stay as they are.
pub open spec fn prepend_values(prefix: Seq<FieldModel>, p: Parsed<Seq<FieldModel>>) -> Parsed<
    Seq<FieldModel>,
> {
    match p {
        Parsed::Found(rest, q) => Parsed::Found(prefix + rest, q),
        Parsed::Failed(e, q) => Parsed::Failed(e, q),
        Parsed::Overflow => Parsed::Overflow,
    }
}

/// The values from `pos` to the end of the payload, each read by its tag.
pub open spec fn values_from(data: Seq<u8>, pos: int) -> Parsed<Seq<FieldModel>>
    decreases data.len() - pos,
{
    if pos >= data.len() {
        Parsed::Found(Seq::empty(), pos)
    } else if data[pos] == TAG_INT {
        match int_field_at(data, pos) {
            Parsed::Found(v, q) => {
                proof {
                    lemma_fields_advance(data, pos);
                }
                prepend_values(seq![FieldModel::Int(v)], values_from(data, q))
            },
            Parsed::Failed(e, q) => Parsed::Failed(e, q),
            Parsed::Overflow => Parsed::Overflow,
        }
    } else if is_string_tag(data[pos]) {
        match string_field_at(data, pos) {
            Parsed::Found(v, q) => {
                proof {
                    lemma_fields_advance(data, pos);
                }
                prepend_values(seq![FieldModel::Bytes(v)], values_from(data, q))
            },
            Parsed::Failed(e, q) => Parsed::Failed(e, q),
            Parsed::Overflow => Parsed::Overflow,
        }
    } else {
        Parsed::Failed(CodecError::BadStringTag(data[pos]), pos)
    }
}

/// All the values of a payload.
pub open spec fn decode_spec(data: Seq<u8>) -> Parsed<Seq<FieldModel>> {
    values_from(data, 0)
}

/// The values that `fmt` (`n` for an integer, `s` for a string) reads from
/// `pos`.
pub open spec fn unpack_from(fmt: Seq<char>, data: Seq<u8>, pos: int) -> Parsed<Seq<FieldModel>>
    decreases fmt.len(),
{
    if fmt.len() == 0 {
        Parsed::Found(Seq::empty(), pos)
    } else if fmt[0] == 'n' {
        match int_field_at(data, pos) {
            Parsed::Found(v, q) => prepend_values(
                seq![FieldModel::Int(v)],
                unpack_from(fmt.drop_first(), data, q),
            ),
            Parsed::Failed(e, q) => Parsed::Failed(e, q),
            Parsed::Overflow => Parsed::Overflow,
        }
    } else if fmt[0] == 's' {
        match string_field_at(data, pos) {
            Parsed::Found(v, q) => prepend_values(
                seq![FieldModel::Bytes(v)],
                unpack_from(fmt.drop_first(), data, q),
            ),
            Parsed::Failed(e, q) => Parsed::Failed(e, q),
            Parsed::Overflow => Parsed::Overflow,
        }
    } else {
        Parsed::Failed(CodecError::BadFormat(fmt[0]), pos)
    }
}

/// The values that `fmt` reads from the start of a payload.
pub open spec fn unpack_spec(fmt: Seq<char>, data: Seq<u8>) -> Parsed<Seq<FieldModel>> {
    unpack_from(fmt, data, 0)
}

/// Reading by a format yields one value per specifier, an integer for each
/// `n` and a string for each `s`.
pub proof fn lemma_unpack_shape(fmt: Seq<char>, data: Seq<u8>, pos: int)
    ensures
        unpack_from(fmt, data, pos) matches Parsed::Found(vs, _) ==> {
            &&& vs.len() == fmt.len()
            &&& forall|i: int|
                0 <= i < fmt.len() ==> (fmt[i] == 'n' ==> #[trigger] vs[i] is Int) && (fmt[i]
                    == 's' ==> vs[i] is Bytes)
        },
    decreases fmt.len(),
{
    if fmt.len() > 0 {
        let q = match int_field_at(data, pos) {
            Parsed::Found(_, q) => q,
            _ => pos,
        };
        let q2 = match string_field_at(data, pos) {
            Parsed::Found(_, q) => q,
            _ => pos,
        };
        lemma_unpack_shape(fmt.drop_first(), data, q);
        lemma_unpack_shape(fmt.drop_first(), data, q2);
        if let Parsed::Found(vs, _) = unpack_from(fmt, data, pos) {
            assert forall|i: int| 0 < i < fmt.len() implies #[trigger] fmt[i] == fmt.drop_first()[i
                - 1] by {}
        }
    }
}

/// `p` with its positions counted from `k` bytes further on.
pub open spec fn shifted<T>(p: Parsed<T>, k: int) -> Parsed<T> {
    match p {
        Parsed::Found(v, q) => Parsed::Found(v, q - k),
        Parsed::Failed(e, q) => Parsed::Failed(e, q - k),
        Parsed::Overflow => Parsed::Overflow,
    }
}

/// Reading an integer field does not depend on the bytes before it.
proof fn lemma_int_field_shift(data: Seq<u8>, k: int, pos: int)
    requires
        0 <= k <= pos,
        k <= data.len(),
    ensures
        int_field_at(data.skip(k), pos - k) == shifted(int_field_at(data, pos), k),
{
    let d = data.skip(k);
    if pos + 2 <= data.len() {
        assert(d[pos - k] == data[pos]);
        assert(d[pos - k + 1] == data[pos + 1]);
        let w = data[pos + 1] as int;
        if pos + 2 + w <= data.len() {
            assert(d.subrange(pos - k + 2, pos - k + 2 + w) =~= data.subrange(pos + 2, pos + 2 + w));
        }
    } else if pos < data.len() {
        assert(d[pos - k] == data[pos]);
    }
}

/// Reading an element count does not depend on the bytes before it.
proof fn lemma_count_shift(data: Seq<u8>, k: int, pos: int)
    requires
        0 <= k <= pos,
        k <= data.len(),
    ensures
        element_count_at(data.skip(k), pos - k) == shifted(element_count_at(data, pos), k),
{
    let d = data.skip(k);
    if pos < data.len() {
        assert(d[pos - k] == data[pos]);
        let n = data[pos] % 16;
        if pos + 1 + n <= data.len() {
            assert(d.subrange(pos - k + 1, pos - k + 1 + n) =~= data.subrange(pos + 1, pos + 1 + n));
        }
    }
}

/// Reading a string field does not depend on the bytes before it.
proof fn lemma_string_field_shift(data: Seq<u8>, k: int, pos: int)
    requires
        0 <= k <= pos,
        k <= data.len(),
    ensures
        string_field_at(data.skip(k), pos - k) == shifted(string_field_at(data, pos), k),
{
    let d = data.skip(k);
    if pos < data.len() {
        assert(d[pos - k] == data[pos]);
        lemma_count_shift(data, k, pos + 1);
        lemma_fields_advance(data, pos + 1);
        if let Parsed::Found(_, p) = element_count_at(data, pos + 1) {
            lemma_int_field_shift(data, k, p);
            lemma_fields_advance(data, p);
            if let Parsed::Found(_, p2) = int_field_at(data, p) {
                lemma_int_field_shift(data, k, p2);
                lemma_fields_advance(data, p2);
                if let Parsed::Found(_, p3) = int_field_at(data, p2) {
                    let valid = element_count_at(data, pos + 1)->Found_0 * tag_elem_size(data[pos]);
                    if p3 + valid <= data.len() {
                        assert(d.subrange(p3 - k, p3 - k + valid) =~= data.subrange(p3, p3 + valid));
                    }
                }
            }
        }
    }
}

/// Decoding by tags does not depend on the bytes before the position it
/// starts at.
pub proof fn lemma_values_shift(data: Seq<u8>, k: int, pos: int)
    requires
        0 <= k <= pos,
        k <= data.len(),
    ensures
        values_from(data.skip(k), pos - k) == shifted(values_from(data, pos), k),
    decreases data.len() - pos,
{
    let d = data.skip(k);
    if pos < data.len() {
        assert(d[pos - k] == data[pos]);
        lemma_fields_advance(data, pos);
        lemma_int_field_shift(data, k, pos);
        lemma_string_field_shift(data, k, pos);
        if data[pos] == TAG_INT {
            if let Parsed::Found(_, q) = int_field_at(data, pos) {
                lemma_values_shift(data, k, q);
            }
        } else if is_string_tag(data[pos]) {
            if let Parsed::Found(_, q) = string_field_at(data, pos) {
                lemma_values_shift(data, k, q);
            }
        }
    }
}

/// The exec outcome of decoding a list of values is the one `p` describes.
pub open spec fn values_outcome(p: Parsed<Seq<FieldModel>>, r: Result<Vec<Value>, CodecError>) -> bool {
    match p {
        Parsed::Found(vs, _) => r matches Ok(out) && value_models(out@) == vs,
        Parsed::Failed(e, _) => r == Err::<Vec<Value>, CodecError>(e),
        Parsed::Overflow => false,
    }
}

/// A format reads along the path that decoding by tags takes, so where
/// decoding a payload stays clear of overflow, so does reading it by any
/// format.
pub proof fn law_unpack_within_decode(fmt: Seq<char>, data: Seq<u8>, pos: int)
    requires
        !(values_from(data, pos) is Overflow),
    ensures
        !(unpack_from(fmt, data, pos) is Overflow),
    decreases fmt.len(),
{
    if fmt.len() > 0 && pos < data.len() {
        lemma_fields_advance(data, pos);
        if fmt[0] == 'n' && data[pos] == TAG_INT {
            if let Parsed::Found(_, q) = int_field_at(data, pos) {
                law_unpack_within_decode(fmt.drop_first(), data, q);
            }
        } else if fmt[0] == 's' && is_string_tag(data[pos]) {
            if let Parsed::Found(_, q) = string_field_at(data, pos) {
                law_unpack_within_decode(fmt.drop_first(), data, q);
            }
        }
    }
}

/// A decoder's failure: the codec's error, or declared lengths whose
/// arithmetic overflows a `usize`.
pub(crate) enum Failure {
    Codec(CodecError),
    Overflow,
}

/// The exec outcome `r`, with the reader at `pos`, is the one `p` describes.
pub open spec fn int_outcome(p: Parsed<u32>, r: Result<u32, CodecError>, pos: int) -> bool {
    match p {
        Parsed::Found(v, q) => r == Ok::<u32, CodecError>(v) && pos == q,
        Parsed::Failed(e, q) => r == Err::<u32, CodecError>(e) && pos == q,
        Parsed::Overflow => false,
    }
}

/// The exec outcome `r`, with the reader at `pos`, is the one `p` describes.
pub open spec fn bytes_outcome(p: Parsed<Seq<u8>>, r: Result<Vec<u8>, CodecError>, pos: int) -> bool {
    match p {
        Parsed::Found(v, q) => r matches Ok(out) && out@ == v && pos == q,
        Parsed::Failed(e, q) => r == Err::<Vec<u8>, CodecError>(e) && pos == q,
        Parsed::Overflow => false,
    }
}

/// The outcome of an internal reader, which reports overflow too.
pub(crate) open spec fn failure_outcome_bytes(
    p: Parsed<Seq<u8>>,
    r: Result<Vec<u8>, Failure>,
    pos: int,
) -> bool {
    match p {
        Parsed::Found(v, q) => r matches Ok(out) && out@ == v && pos == q,
        Parsed::Failed(e, q) => r matches Err(Failure::Codec(e2)) && e2 == e && pos == q,
        Parsed::Overflow => r matches Err(Failure::Overflow),
    }
}

/// The outcome of an internal reader, which reports overflow too.
pub(crate) open spec fn failure_outcome_count(
    p: Parsed<nat>,
    r: Result<usize, Failure>,
    pos: int,
) -> bool {
    match p {
        Parsed::Found(v, q) => r matches Ok(out) && out == v && pos == q,
        Parsed::Failed(e, q) => r matches Err(Failure::Codec(e2)) && e2 == e && pos == q,
        Parsed::Overflow => r matches Err(Failure::Overflow),
    }
}

/// A cursor over a firmware payload.
pub struct Reader<'a> {
    data: &'a [u8],
    pos: usize,
}

impl<'a> Reader<'a> {
    #[verifier::type_invariant]
    spec fn in_bounds(self) -> bool {
        self.pos <= self.data@.len()
    }

    /// The payload being read.
    pub closed spec fn bytes(self) -> Seq<u8> {
        self.data@
    }

    /// The position of the next byte to read.
    pub closed spec fn position(self) -> int {
        self.pos as int
    }

    /// Wrap a byte slice.
    pub fn new(data: &'a [u8]) -> (r: Self)
        ensures
            r.bytes() == data@,
            r.position() == 0,
    {
        Reader { data, pos: 0 }
    }

    /// Whether all input has been consumed.
    pub fn is_empty(&self) -> (b: bool)
        ensures
            b == (self.position() >= self.bytes().len()),
    {
        self.pos >= self.data.len()
    }

    /// Peek at the next byte without consuming it.
    pub fn peek_u8(&self) -> (r: Result<u8, CodecError>)
        ensures
            self.position() < self.bytes().len() ==> r == Ok::<u8, CodecError>(
                self.bytes()[self.position()],
            ),
            self.position() >= self.bytes().len() ==> r == Err::<u8, CodecError>(
                CodecError::UnexpectedEof,
            ),
    {
        if self.pos < self.data.len() {
            Ok(self.data[self.pos])
        } else {
            Err(CodecError::UnexpectedEof)
        }
    }

    /// Consume the next byte.
    pub fn take_u8(&mut self) -> (r: Result<u8, CodecError>)
        ensures
            final(self).bytes() == old(self).bytes(),
            old(self).position() < old(self).bytes().len() ==> r == Ok::<u8, CodecError>(
                old(self).bytes()[old(self).position()],
            ) && final(self).position() == old(self).position() + 1,
            old(self).position() >= old(self).bytes().len() ==> r == Err::<u8, CodecError>(
                CodecError::UnexpectedEof,
            ) && final(self).position() == old(self).position(),
    {
        proof {
            use_type_invariant(&*self);
        }
        if self.pos < self.data.len() {
            let byte = self.data[self.pos];
            self.pos = self.pos + 1;
            Ok(byte)
        } else {
            Err(CodecError::UnexpectedEof)
        }
    }

    /// Consume the next `n` bytes.
    pub fn take(&mut self, n: usize) -> (r: Result<&'a [u8], CodecError>)
        ensures
            final(self).bytes() == old(self).bytes(),
            old(self).position() + n <= old(self).bytes().len() ==> (r matches Ok(slice)
                && slice@ == old(self).bytes().subrange(
                old(self).position(),
                old(self).position() + n,
            ) && final(self).position() == old(self).position() + n),
            old(self).position() + n > old(self).bytes().len() ==> r == Err::<&'a [u8], CodecError>(
                CodecError::UnexpectedEof,
            ) && final(self).position() == old(self).position(),
    {
        proof {
            use_type_invariant(&*self);
        }
        assert(self.data@.len() == self.data.len());
        let end = match self.pos.checked_add(n) {
            Some(end) => end,
            None => {
                return Err(CodecError::UnexpectedEof);
            },
        };
        if end > self.data.len() {
            return Err(CodecError::UnexpectedEof);
        }
        let slice = vstd::slice::slice_subrange(self.data, self.pos, end);
        self.pos = end;
        Ok(slice)
    }

    /// Consume an ASN.1 integer field.
    pub fn take_asn_int(&mut self) -> (r: Result<u32, CodecError>)
        ensures
            final(self).bytes() == old(self).bytes(),
            int_outcome(int_field_at(old(self).bytes(), old(self).position()), r, final(self).position()),
    {
        let ghost data = self.bytes();
        let ghost start = self.position();
        let tag = self.take_u8()?;
        if tag != TAG_INT {
            return Err(CodecError::BadIntTag(tag));
        }
        let width = self.take_u8()?;
        if width == 0 || width > 4 {
            return Err(CodecError::BadIntWidth(width));
        }
        let mut value: u32 = 0;
        let mut i: u8 = 0;
        while i < width
            invariant
                1 <= width <= 4,
                i <= width,
                self.bytes() == data,
                data == old(self).bytes(),
                start == old(self).position(),
                0 <= start,
                start + 1 < data.len(),
                data[start] == TAG_INT,
                data[start + 1] == width,
                start + 2 + i <= data.len(),
                self.position() == start + 2 + i,
                value == be_value(data.subrange(start + 2, start + 2 + i)),
                value < pow256(i as nat),
            decreases width - i,
        {
            let byte = self.take_u8()?;
            proof {
                let s = data.subrange(start + 2, start + 2 + i + 1);
                assert(s.drop_last() =~= data.subrange(start + 2, start + 2 + i));
                assert(pow256((i + 1) as nat) == 256 * pow256(i as nat));
                assert(pow256(3) == 0x100_0000) by {
                    reveal_with_fuel(pow256, 4);
                }
                assert(value < 0x100_0000) by {
                    if i < 3 {
                        lemma_pow256_monotone(i as nat, 3);
                    }
                }
                assert((value << 8) | (byte as u32) == value * 256 + byte) by (bit_vector)
                    requires
                        value < 0x100_0000,
                ;
            }
            value = (value << 8) | (byte as u32);
            i = i + 1;
        }
        Ok(value)
    }

    /// Read the element count of a string field.
    fn read_element_count(&mut self) -> (r: Result<usize, Failure>)
        ensures
            final(self).bytes() == old(self).bytes(),
            failure_outcome_count(
                element_count_at(old(self).bytes(), old(self).position()),
                r,
                final(self).position(),
            ),
    {
        proof {
            use_type_invariant(&*self);
        }
        let ghost data = self.bytes();
        let ghost start = self.position() + 1;
        let lead = match self.take_u8() {
            Ok(byte) => byte,
            Err(e) => {
                return Err(Failure::Codec(e));
            },
        };
        if lead & 0x80 == 0 {
            assert(lead & 0x80 == 0 ==> lead < 0x80) by (bit_vector);
            return Ok(lead as usize);
        }
        let n = lead & 0x0f;
        assert(lead & 0x80 != 0 ==> lead >= 0x80) by (bit_vector);
        assert(n == lead % 16) by (bit_vector)
            requires
                n == lead & 0x0f,
        ;
        proof {
            lemma_usize_bytes();
        }
        let mut value: usize = 0;
        let mut pow: usize = 1;
        let mut i: u8 = 0;
        while i < n
            invariant
                n == data[start - 1] % 16,
                data[start - 1] >= 0x80,
                n < 16,
                i <= n,
                1 <= start <= data.len(),
                self.bytes() == data,
                data == old(self).bytes(),
                start == old(self).position() + 1,
                self.position() == start + i,
                start + i <= data.len(),
                i <= usize_bytes(),
                usize_bytes() == 4 || usize_bytes() == 8,
                pow256(usize_bytes() as nat) == usize::MAX + 1,
                i < usize_bytes() ==> pow == pow256(i as nat),
                value == le_value(data.subrange(start, start + i)),
                value < pow256(i as nat),
            decreases n - i,
        {
            let byte = match self.take_u8() {
                Ok(byte) => byte,
                Err(e) => {
                    return Err(Failure::Codec(e));
                },
            };
            if (i as u32) * 8 >= usize::BITS {
                assert(i == usize_bytes());
                return Err(Failure::Overflow);
            }
            proof {
                let s = data.subrange(start, start + i + 1);
                assert(s.drop_last() =~= data.subrange(start, start + i));
                assert(pow256((i + 1) as nat) == 256 * pow256(i as nat));
                lemma_pow256_monotone((i + 1) as nat, usize_bytes() as nat);
                assert(byte * pow <= 255 * pow) by (nonlinear_arith)
                    requires
                        byte <= 255,
                ;
            }
            value = value + (byte as usize) * pow;
            if (i as u32 + 1) * 8 < usize::BITS {
                proof {
                    lemma_pow256_monotone((i + 1) as nat, (usize_bytes() - 1) as nat);
                    assert(pow256(usize_bytes() as nat) == 256 * pow256((usize_bytes() - 1) as nat));
                }
                pow = pow * 256;
            }
            i = i + 1;
        }
        Ok(value)
    }

    /// Read a string field, reporting overflow of its declared lengths.
    fn read_string(&mut self) -> (r: Result<Vec<u8>, Failure>)
        ensures
            final(self).bytes() == old(self).bytes(),
            failure_outcome_bytes(
                string_field_at(old(self).bytes(), old(self).position()),
                r,
                final(self).position(),
            ),
    {
        proof {
            use_type_invariant(&*self);
        }
        let tag = match self.take_u8() {
            Ok(byte) => byte,
            Err(e) => {
                return Err(Failure::Codec(e));
            },
        };
        let elem_size: usize = if tag == TAG_STRING_U8 {
            1
        } else if tag == TAG_STRING_U16 {
            2
        } else if tag == TAG_STRING_U32 {
            4
        } else {
            return Err(Failure::Codec(CodecError::BadStringTag(tag)));
        };
        let elements = self.read_element_count()?;
        let valid = match elements.checked_mul(elem_size) {
            Some(valid) => valid,
            None => {
                return Err(Failure::Overflow);
            },
        };
        let count = match self.take_asn_int() {
            Ok(v) => v as usize,
            Err(e) => {
                return Err(Failure::Codec(e));
            },
        };
        let padding = match self.take_asn_int() {
            Ok(v) => v as usize,
            Err(e) => {
                return Err(Failure::Codec(e));
            },
        };
        if count != 0 {
            match valid.checked_add(padding) {
                Some(total) => {
                    if count != total {
                        return Err(
                            Failure::Codec(
                                CodecError::StringLengthMismatch { count, valid, padding },
                            ),
                        );
                    }
                },
                None => {
                    return Err(Failure::Overflow);
                },
            }
        }
        let payload = match self.take(valid) {
            Ok(slice) => vstd::slice::slice_to_vec(slice),
            Err(e) => {
                return Err(Failure::Codec(e));
            },
        };
        match self.take(padding) {
            Ok(_) => {},
            Err(e) => {
                return Err(Failure::Codec(e));
            },
        }
        Ok(payload)
    }

    /// Consume a string field, stripping padding.
    pub fn take_string(&mut self) -> (r: Result<Vec<u8>, CodecError>)
        requires
            !(string_field_at(old(self).bytes(), old(self).position()) is Overflow),
        ensures
            final(self).bytes() == old(self).bytes(),
            bytes_outcome(
                string_field_at(old(self).bytes(), old(self).position()),
                r,
                final(self).position(),
            ),
    {
        match self.read_string() {
            Ok(payload) => Ok(payload),
            Err(Failure::Codec(e)) => Err(e),
            Err(Failure::Overflow) => Err(CodecError::UnexpectedEof),
        }
    }
}

/// Decode values until the reader is exhausted, reporting overflow of
/// declared lengths.
fn decode_from(data: &[u8]) -> (r: Result<Vec<Value>, Failure>)
    ensures
        match decode_spec(data@) {
            Parsed::Found(vs, _) => r matches Ok(out) && value_models(out@) == vs,
            Parsed::Failed(e, _) => r matches Err(Failure::Codec(e2)) && e2 == e,
            Parsed::Overflow => r matches Err(Failure::Overflow),
        },
{
    let mut reader = Reader::new(data);
    let mut out: Vec<Value> = Vec::new();
    assert(value_models(out@) + Seq::<FieldModel>::empty() =~= Seq::<FieldModel>::empty());
    while !reader.is_empty()
        invariant
            reader.bytes() == data@,
            0 <= reader.position() <= data@.len(),
            decode_spec(data@) == prepend_values(
                value_models(out@),
                values_from(data@, reader.position()),
            ),
        decreases data@.len() - reader.position(),
    {
        let ghost pos = reader.position();
        let ghost before = out@;
        proof {
            lemma_fields_advance(data@, pos);
        }
        let tag = match reader.peek_u8() {
            Ok(tag) => tag,
            Err(e) => {
                return Err(Failure::Codec(e));
            },
        };
        if tag == TAG_INT {
            match reader.take_asn_int() {
                Ok(v) => {
                    out.push(Value::Int(v));
                },
                Err(e) => {
                    return Err(Failure::Codec(e));
                },
            }
        } else if tag == TAG_STRING_U8 || tag == TAG_STRING_U16 || tag == TAG_STRING_U32 {
            match reader.read_string() {
                Ok(bytes) => {
                    out.push(Value::Bytes(bytes));
                },
                Err(e) => {
                    return Err(e);
                },
            }
        } else {
            return Err(Failure::Codec(CodecError::BadStringTag(tag)));
        }
        proof {
            assert(value_models(out@) =~= value_models(before) + seq![out@.last()@]);
            match values_from(data@, reader.position()) {
                Parsed::Found(rest, _) => {
                    assert(value_models(before) + (seq![out@.last()@] + rest) =~= value_models(out@)
                        + rest);
                },
                _ => {},
            }
        }
    }
    assert(value_models(out@) + Seq::<FieldModel>::empty() =~= value_models(out@));
    Ok(out)
}

/// Decode a sequence of values until the input is exhausted.
pub fn decode_values(data: &[u8]) -> (r: Result<Vec<Value>, CodecError>)
    requires
        !(decode_spec(data@) is Overflow),
    ensures
        values_outcome(decode_spec(data@), r),
{
    match decode_from(data) {
        Ok(values) => Ok(values),
        Err(Failure::Codec(e)) => Err(e),
        Err(Failure::Overflow) => Err(CodecError::UnexpectedEof),
    }
}

/// Whether the declared lengths of `data` overflow a `usize` before
/// decoding it ends: the inputs outside [`decode_values`]'s domain.
pub fn decode_would_overflow(data: &[u8]) -> (b: bool)
    ensures
        b == (decode_spec(data@) is Overflow),
{
    match decode_from(data) {
        Err(Failure::Overflow) => true,
        _ => false,
    }
}

/// Decode values according to a `fmt` string of `n` (integer) and `s`
/// (string).
pub fn unpack(fmt: &str, data: &[u8]) -> (r: Result<Vec<Value>, CodecError>)
    requires
        !(unpack_spec(fmt@, data@) is Overflow),
    ensures
        values_outcome(unpack_spec(fmt@, data@), r),
{
    match unpack_checked(fmt, data) {
        Ok(values) => Ok(values),
        Err(Failure::Codec(e)) => Err(e),
        Err(Failure::Overflow) => Err(CodecError::UnexpectedEof),
    }
}

/// Whether the declared lengths that `fmt` reads from `data` overflow a
/// `usize` before [`unpack`] would finish: the inputs outside its domain.
pub fn unpack_would_overflow(fmt: &str, data: &[u8]) -> (b: bool)
    ensures
        b == (unpack_spec(fmt@, data@) is Overflow),
{
    match unpack_checked(fmt, data) {
        Err(Failure::Overflow) => true,
        _ => false,
    }
}

/// Read the values that `fmt` names, reporting overflow of declared lengths.
fn unpack_checked(fmt: &str, data: &[u8]) -> (r: Result<Vec<Value>, Failure>)
    ensures
        match unpack_spec(fmt@, data@) {
            Parsed::Found(vs, _) => r matches Ok(out) && value_models(out@) == vs,
            Parsed::Failed(e, _) => r matches Err(Failure::Codec(e2)) && e2 == e,
            Parsed::Overflow => r matches Err(Failure::Overflow),
        },
{
    let chars = chars_of(fmt);
    let mut reader = Reader::new(data);
    let mut out: Vec<Value> = Vec::new();
    let mut i: usize = 0;
    assert(chars@.skip(0) =~= chars@);
    assert(value_models(out@) + Seq::<FieldModel>::empty() =~= Seq::<FieldModel>::empty());
    while i < chars.len()
        invariant
            i <= chars.len(),
            chars@ == fmt@,
            reader.bytes() == data@,
            unpack_spec(fmt@, data@) == prepend_values(
                value_models(out@),
                unpack_from(chars@.skip(i as int), data@, reader.position()),
            ),
        decreases chars.len() - i,
    {
        let ghost f = chars@.skip(i as int);
        let ghost before = out@;
        assert(f[0] == chars@[i as int]);
        assert(f.drop_first() =~= chars@.skip(i + 1));
        let ch = chars[i];
        if ch == 'n' {
            match reader.take_asn_int() {
                Ok(v) => {
                    out.push(Value::Int(v));
                },
                Err(e) => {
                    return Err(Failure::Codec(e));
                },
            }
        } else if ch == 's' {
            match reader.read_string() {
                Ok(bytes) => {
                    out.push(Value::Bytes(bytes));
                },
                Err(e) => {
                    return Err(e);
                },
            }
        } else {
            return Err(Failure::Codec(CodecError::BadFormat(ch)));
        }
        i = i + 1;
        proof {
            assert(value_models(out@) =~= value_models(before) + seq![out@.last()@]);
            match unpack_from(chars@.skip(i as int), data@, reader.position()) {
                Parsed::Found(rest, _) => {
                    assert(value_models(before) + (seq![out@.last()@] + rest) =~= value_models(out@)
                        + rest);
                },
                _ => {},
            }
        }
    }
    assert(chars@.skip(i as int) =~= Seq::<char>::empty());
    assert(value_models(out@) + Seq::<FieldModel>::empty() =~= value_models(out@));
    Ok(out)
}

/// A `usize` holds exactly `usize_bytes()` bytes.
pub(crate) proof fn lemma_usize_bytes()
    ensures
        usize_bytes() == 4 || usize_bytes() == 8,
        pow256(usize_bytes() as nat) == usize::MAX + 1,
{
    reveal_with_fuel(pow256, 9);
    assert(usize::BITS == 32 || usize::BITS == 64);
}

} // verus!
