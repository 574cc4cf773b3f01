//! Framing of the RPC channel: request headers, the length word that
//! delimits each message, and the classification of incoming messages.
use vstd::prelude::*;
use vstd::string::StringExecFns;

use crate::codec::{
    CodecError, FieldModel, TAG_INT, Value, be_bytes, int_field, pow256, value_models,
};
use crate::codec::decode::{
    Parsed, Reader, be_value, decode_spec, decode_values, decode_would_overflow, int_field_at,
    lemma_fields_advance, lemma_values_shift, values_from,
};
use crate::codec::encode::{push_int_field};
use crate::error::Error;
use crate::text::{dec_digits, decimal_text, hex_digits, hex_text};

verus! {

/// Transaction word used for synchronous requests.
pub const TXID_SYNC: u32 = 0x1100_0100;
/// Transaction word used for asynchronous requests.
pub const TXID_ASYNC: u32 = 0x1100_0101;
/// Sanity bound on a framed message (the largest real message is a few KiB).
pub const MAX_MESSAGE_LEN: usize = 1048576;

/// Whether an RPC request is synchronous or asynchronous.
#[derive(Debug, Clone, Copy, PartialEq, Eq, Structural)]
pub enum Mode {
    /// Wait for the direct response only.
    Sync,
    /// Asynchronous request; acknowledgements and indications may arrive first.
    Async,
}

/// The kind of an incoming firmware message.
#[derive(Debug, Clone, Copy, PartialEq, Eq, Structural)]
pub enum MessageKind {
    /// A direct response to a request.
    Response,
    /// An asynchronous acknowledgement (code >= 2000).
    AsyncAck,
    /// An unsolicited indication.
    Unsolicited,
}

/// A decoded firmware message.
#[derive(Debug)]
pub struct Message {
    /// Transaction id word from the header.
    pub tid: u32,
    /// Classification of the message.
    pub kind: MessageKind,
    /// Command or indication code.
    pub code: u32,
    /// Payload body (with the echoed transaction id stripped for async replies).
    pub body: Vec<u8>,
    /// Decoded payload values.
    pub content: Vec<Value>,
}

/// What a message holds.
pub struct MessageModel {
    pub tid: u32,
    pub kind: MessageKind,
    pub code: u32,
    pub body: Seq<u8>,
    pub content: Seq<FieldModel>,
}

impl View for Message {
    type V = MessageModel;

    open spec fn view(&self) -> MessageModel {
        MessageModel {
            tid: self.tid,
            kind: self.kind,
            code: self.code,
            body: self.body@,
            content: value_models(self.content@),
        }
    }
}

/// The four little-endian bytes of `v`.
pub open spec fn le_bytes(v: u32) -> Seq<u8> {
    seq![
        (v % 0x100) as u8,
        ((v / 0x100) % 0x100) as u8,
        ((v / 0x1_0000) % 0x100) as u8,
        (v / 0x100_0000) as u8,
    ]
}

/// The little-endian value of four bytes.
pub open spec fn le_u32(b: Seq<u8>) -> int {
    b[0] + b[1] * 0x100 + b[2] * 0x1_0000 + b[3] * 0x100_0000
}

/// The big-endian value of four bytes.
pub open spec fn be_u32(b: Seq<u8>) -> int {
    b[0] * 0x100_0000 + b[1] * 0x1_0000 + b[2] * 0x100 + b[3]
}

/// The transaction word of a request in `mode`.
pub open spec fn tid_word(mode: Mode) -> u32 {
    match mode {
        Mode::Sync => TXID_SYNC,
        Mode::Async => TXID_ASYNC,
    }
}

/// The length a request header declares: the body, the 16 bytes of header
/// past the length word, and for an asynchronous request its 6-byte
/// transaction field.
pub open spec fn declared_len(body_len: nat, mode: Mode) -> nat {
    body_len + 16 + if mode is Async {
        6nat
    } else {
        0nat
    }
}

/// The header of a request for `cmd` with a body of `body_len` bytes: the
/// length as a little-endian word and as an integer field, the command, the
/// transaction word, and for an asynchronous request its transaction field.
pub open spec fn header_spec(cmd: u32, body_len: nat, mode: Mode) -> Seq<u8> {
    let total = declared_len(body_len, mode) as u32;
    le_bytes(total) + int_field(total) + int_field(cmd) + be_bytes(tid_word(mode)) + if mode is Async {
        int_field(TXID_ASYNC)
    } else {
        Seq::empty()
    }
}

/// The outcome of parsing a raw message.
pub enum MessageParse {
    /// Shorter than the 20-byte header.
    TooShort,
    /// The header or the body does not decode.
    Codec(CodecError),
    /// An asynchronous response does not echo its transaction id.
    MissingEcho,
    /// Declared lengths in the body overflow a `usize`.
    Overflow,
    /// The message.
    Parsed(MessageModel),
}

/// How a raw message parses: the length field and the code from the header,
/// the transaction word at bytes 16..20, the values of the body from byte
/// 20; a synchronous transaction word marks a response, an asynchronous one
/// an acknowledgement (code 2000 and above) or a response whose echoed
/// transaction field is stripped, any other word an unsolicited indication.
pub open spec fn message_spec(raw: Seq<u8>) -> MessageParse {
    if raw.len() < 20 {
        MessageParse::TooShort
    } else {
        let h = raw.skip(4);
        match int_field_at(h, 0) {
            Parsed::Failed(e, _) => MessageParse::Codec(e),
            Parsed::Overflow => MessageParse::Overflow,
            Parsed::Found(_, p) => match int_field_at(h, p) {
                Parsed::Failed(e, _) => MessageParse::Codec(e),
                Parsed::Overflow => MessageParse::Overflow,
                Parsed::Found(code, _) => {
                    let tid = be_u32(raw.subrange(16, 20)) as u32;
                    let body = raw.skip(20);
                    match decode_spec(body) {
                        Parsed::Overflow => MessageParse::Overflow,
                        Parsed::Failed(e, _) => MessageParse::Codec(e),
                        Parsed::Found(content, _) => {
                            if tid == TXID_SYNC {
                                MessageParse::Parsed(
                                    MessageModel {
                                        tid,
                                        kind: MessageKind::Response,
                                        code,
                                        body,
                                        content,
                                    },
                                )
                            } else if tid & 0xffff_ff00 == TXID_SYNC {
                                if code >= 2000 {
                                    MessageParse::Parsed(
                                        MessageModel {
                                            tid,
                                            kind: MessageKind::AsyncAck,
                                            code,
                                            body,
                                            content,
                                        },
                                    )
                                } else if content.len() == 0 || content[0] != FieldModel::Int(tid) {
                                    MessageParse::MissingEcho
                                } else {
                                    MessageParse::Parsed(
                                        MessageModel {
                                            tid,
                                            kind: MessageKind::Response,
                                            code,
                                            body: body.skip(6),
                                            content: content.drop_first(),
                                        },
                                    )
                                }
                            } else {
                                MessageParse::Parsed(
                                    MessageModel {
                                        tid,
                                        kind: MessageKind::Unsolicited,
                                        code,
                                        body,
                                        content,
                                    },
                                )
                            }
                        },
                    }
                },
            },
        }
    }
}

/// Append the four little-endian bytes of `v`.
fn push_le_u32(out: &mut Vec<u8>, v: u32)
    ensures
        final(out)@ == old(out)@ + le_bytes(v),
{
    let b0 = v as u8;
    let b1 = (v >> 8) as u8;
    let b2 = (v >> 16) as u8;
    let b3 = (v >> 24) as u8;
    assert(b0 == (v % 0x100) as u8 && b1 == ((v / 0x100) % 0x100) as u8 && b2 == ((v / 0x1_0000)
        % 0x100) as u8 && b3 == (v / 0x100_0000) as u8) by (bit_vector)
        requires
            b0 == v as u8,
            b1 == (v >> 8) as u8,
            b2 == (v >> 16) as u8,
            b3 == (v >> 24) as u8,
    ;
    out.push(b0);
    out.push(b1);
    out.push(b2);
    out.push(b3);
    assert(final(out)@ =~= old(out)@ + le_bytes(v));
}

/// Append the four big-endian bytes of `v`.
fn push_be_u32(out: &mut Vec<u8>, v: u32)
    ensures
        final(out)@ == old(out)@ + be_bytes(v),
{
    let b0 = (v >> 24) as u8;
    let b1 = (v >> 16) as u8;
    let b2 = (v >> 8) as u8;
    let b3 = v as u8;
    assert(b0 == (v / 0x100_0000) as u8 && b1 == ((v / 0x1_0000) % 0x100) as u8 && b2 == ((v
        / 0x100) % 0x100) as u8 && b3 == (v % 0x100) as u8) by (bit_vector)
        requires
            b0 == (v >> 24) as u8,
            b1 == (v >> 16) as u8,
            b2 == (v >> 8) as u8,
            b3 == v as u8,
    ;
    out.push(b0);
    out.push(b1);
    out.push(b2);
    out.push(b3);
    assert(final(out)@ =~= old(out)@ + be_bytes(v));
}

/// The header of a request for `cmd` with a body of `body_len` bytes.
pub fn build_header(cmd: u32, body_len: usize, mode: Mode) -> (header: Vec<u8>)
    requires
        body_len + 22 <= usize::MAX,
    ensures
        header@ == header_spec(cmd, body_len as nat, mode),
{
    let tid = match mode {
        Mode::Sync => 0,
        Mode::Async => TXID_ASYNC,
    };
    let tid_word = TXID_SYNC | tid;
    assert(TXID_SYNC | 0u32 == TXID_SYNC && TXID_SYNC | TXID_ASYNC == TXID_ASYNC) by (bit_vector);
    let total = body_len + 16 + if tid != 0 {
        6
    } else {
        0
    };
    let mut header: Vec<u8> = Vec::new();
    push_le_u32(&mut header, total as u32);
    push_int_field(&mut header, total as u32);
    push_int_field(&mut header, cmd);
    push_be_u32(&mut header, tid_word);
    if tid != 0 {
        push_int_field(&mut header, tid);
    }
    assert(header@ =~= header_spec(cmd, body_len as nat, mode));
    header
}

/// The length of the frame at the start of `inbuf`, once it is all there:
/// its little-endian length word plus the four bytes of that word. A
/// length below 20 or above [`MAX_MESSAGE_LEN`] means the channel is out of
/// sync.
pub fn frame_length(inbuf: &[u8]) -> (r: Result<Option<usize>, Error>)
    requires
        inbuf@.len() >= 4 ==> le_u32(inbuf@) + 4 <= usize::MAX,
    ensures
        inbuf@.len() < 4 ==> r matches Ok(None),
        inbuf@.len() >= 4 ==> ({
            let total = le_u32(inbuf@) + 4;
            &&& !(20 <= total <= MAX_MESSAGE_LEN) ==> (r matches Err(Error::Protocol(m)) && m@
                == "invalid RPC frame length "@ + dec_digits(total as nat)
                + ", channel out of sync"@)
            &&& (20 <= total <= MAX_MESSAGE_LEN && inbuf@.len() >= total) ==> r == Ok::<
                Option<usize>,
                Error,
            >(Some(total as usize))
            &&& (20 <= total <= MAX_MESSAGE_LEN && inbuf@.len() < total) ==> r matches Ok(None)
        }),
{
    if inbuf.len() >= 4 {
        let word = (inbuf[0] as u32) + (inbuf[1] as u32) * 0x100 + (inbuf[2] as u32) * 0x1_0000
            + (inbuf[3] as u32) * 0x100_0000;
        let total = word as usize + 4;
        if total < 20 || total > MAX_MESSAGE_LEN {
            let message = "invalid RPC frame length ".to_owned().concat(
                decimal_text(total).as_str(),
            ).concat(", channel out of sync");
            return Err(Error::Protocol(message));
        }
        if inbuf.len() >= total {
            return Ok(Some(total));
        }
    }
    Ok(None)
}

/// What a wait for the port to become readable found.
#[derive(Debug, Clone, Copy, PartialEq, Eq, Structural)]
pub enum Readiness {
    /// The port has data.
    Readable,
    /// The port stayed quiet until the deadline.
    Quiet,
    /// The wait itself failed.
    Failed,
}

/// What `poll(2)`'s answer for the one port means: a negative answer is a
/// failure, zero a port that stayed quiet, anything else a readable port.
pub fn readiness(ready: i32) -> (r: Readiness)
    ensures
        ready < 0 ==> r == Readiness::Failed,
        ready == 0 ==> r == Readiness::Quiet,
        ready > 0 ==> r == Readiness::Readable,
{
    if ready < 0 {
        Readiness::Failed
    } else if ready == 0 {
        Readiness::Quiet
    } else {
        Readiness::Readable
    }
}

/// The time in milliseconds that one `poll(2)` may wait of the
/// `remaining_ms` left before the deadline: all of it, up to `i32::MAX`.
pub fn poll_wait_ms(remaining_ms: u128) -> (t: i32)
    ensures
        t == if remaining_ms > i32::MAX as u128 {
            i32::MAX as int
        } else {
            remaining_ms as int
        },
{
    if remaining_ms > i32::MAX as u128 {
        i32::MAX
    } else {
        remaining_ms as i32
    }
}

/// The big-endian value of `s` is below `256^len`.
proof fn lemma_be_value_bound(s: Seq<u8>)
    ensures
        be_value(s) < pow256(s.len()),
    decreases s.len(),
{
    if s.len() > 0 {
        lemma_be_value_bound(s.drop_last());
        assert(pow256(s.len()) == 256 * pow256((s.len() - 1) as nat));
    }
}

/// A body whose first value is a transaction id of the asynchronous family
/// starts with a six-byte integer field, and the values after it decode on
/// their own.
proof fn lemma_echo_field(body: Seq<u8>, tid: u32)
    requires
        tid >= 0x100_0000,
        decode_spec(body) matches Parsed::Found(vs, _) && vs.len() > 0 && vs[0] == FieldModel::Int(
            tid,
        ),
    ensures
        body.len() >= 6,
        decode_spec(body.skip(6)) matches Parsed::Found(rest, _) && rest == decode_spec(
            body,
        )->Found_0.drop_first(),
{
    let vs = decode_spec(body)->Found_0;
    lemma_fields_advance(body, 0);
    assert(body.len() > 0);
    assert(body[0] == TAG_INT);
    let w = body[1] as int;
    let q = int_field_at(body, 0)->Found_1;
    lemma_be_value_bound(body.subrange(2, 2 + w));
    assert(w == 4) by {
        if w < 4 {
            assert(pow256(3) == 0x100_0000) by {
                reveal_with_fuel(pow256, 4);
            }
            crate::codec::lemma_pow256_monotone(w as nat, 3);
        }
    }
    assert(q == 6);
    lemma_values_shift(body, 6, 6);
    let after = values_from(body, 6);
    assert(after is Found);
    assert(after->Found_0 =~= vs.drop_first());
}

/// Whether the declared lengths of `raw`'s body overflow a `usize` before
/// [`Message::parse`] would finish with it: the inputs outside its domain.
pub fn message_would_overflow(raw: &[u8]) -> (b: bool)
    ensures
        b == (message_spec(raw@) is Overflow),
{
    if raw.len() < 20 {
        return false;
    }
    let mut reader = Reader::new(vstd::slice::slice_subrange(raw, 4, raw.len()));
    if reader.take_asn_int().is_err() {
        return false;
    }
    if reader.take_asn_int().is_err() {
        return false;
    }
    decode_would_overflow(vstd::slice::slice_subrange(raw, 20, raw.len()))
}

impl Message {
    /// Parse one raw message.
    pub fn parse(raw: &[u8]) -> (r: Result<Self, Error>)
        requires
            !(message_spec(raw@) is Overflow),
        ensures
            match message_spec(raw@) {
                MessageParse::TooShort => r matches Err(Error::Protocol(m)) && m@
                    == "message too short: "@ + dec_digits(raw@.len()) + " bytes"@,
                MessageParse::Codec(e) => r matches Err(Error::Codec(e2)) && e2 == e,
                MessageParse::MissingEcho => r matches Err(Error::Protocol(m)) && m@
                    == "async response is missing the echoed id 0x"@ + hex_digits(
                    be_u32(raw@.subrange(16, 20)) as u32 as nat,
                ),
                MessageParse::Overflow => false,
                MessageParse::Parsed(m) => r matches Ok(msg) && msg@ == m,
            },
            r matches Ok(msg) ==> decode_spec(msg.body@) matches Parsed::Found(vs, _) && vs
                == msg@.content,
    {
        if raw.len() < 20 {
            let message = "message too short: ".to_owned().concat(decimal_text(raw.len()).as_str()).concat(
                " bytes",
            );
            return Err(Error::Protocol(message));
        }
        let ghost h = raw@.skip(4);
        let mut reader = Reader::new(vstd::slice::slice_subrange(raw, 4, raw.len()));
        assert(reader.bytes() =~= h);
        match reader.take_asn_int() {
            Ok(_) => {},
            Err(e) => {
                return Err(Error::Codec(e));
            },
        }
        let code = match reader.take_asn_int() {
            Ok(code) => code,
            Err(e) => {
                return Err(Error::Codec(e));
            },
        };
        let tid = (raw[16] as u32) * 0x100_0000 + (raw[17] as u32) * 0x1_0000 + (raw[18] as u32)
            * 0x100 + (raw[19] as u32);
        assert(raw@.subrange(16, 20)[0] == raw@[16] && raw@.subrange(16, 20)[1] == raw@[17]
            && raw@.subrange(16, 20)[2] == raw@[18] && raw@.subrange(16, 20)[3] == raw@[19]);
        let body_full = vstd::slice::slice_subrange(raw, 20, raw.len());
        assert(body_full@ =~= raw@.skip(20));
        let mut content = match decode_values(body_full) {
            Ok(content) => content,
            Err(e) => {
                return Err(Error::Codec(e));
            },
        };
        if tid == TXID_SYNC {
            Ok(
                Message {
                    tid,
                    kind: MessageKind::Response,
                    code,
                    body: vstd::slice::slice_to_vec(body_full),
                    content,
                },
            )
        } else if tid & 0xffff_ff00 == TXID_SYNC {
            if code >= 2000 {
                Ok(
                    Message {
                        tid,
                        kind: MessageKind::AsyncAck,
                        code,
                        body: vstd::slice::slice_to_vec(body_full),
                        content,
                    },
                )
            } else {
                let echoed = if content.len() > 0 {
                    content[0].as_int()
                } else {
                    None
                };
                if echoed != Some(tid) {
                    let message = "async response is missing the echoed id 0x".to_owned().concat(
                        hex_text(tid).as_str(),
                    );
                    return Err(Error::Protocol(message));
                }
                proof {
                    assert(value_models(content@)[0] == content@[0]@);
                    assert(tid & 0xffff_ff00 == TXID_SYNC ==> tid >= 0x100_0000) by (bit_vector);
                    lemma_echo_field(body_full@, tid);
                }
                let ghost before = content@;
                content.remove(0);
                assert(value_models(content@) =~= value_models(before).drop_first());
                let body = vstd::slice::slice_to_vec(
                    vstd::slice::slice_subrange(body_full, 6, body_full.len()),
                );
                assert(body@ =~= body_full@.skip(6));
                Ok(Message { tid, kind: MessageKind::Response, code, body, content })
            }
        } else {
            Ok(
                Message {
                    tid,
                    kind: MessageKind::Unsolicited,
                    code,
                    body: vstd::slice::slice_to_vec(body_full),
                    content,
                },
            )
        }
    }
}

/// What a message says of whether a packet-data attach is allowed: for the
/// attach-permission indication `indication`, its third value, nonzero
/// meaning allowed; nothing for any other message, or where that value is not
/// an integer.
pub open spec fn permission_in(m: MessageModel, indication: u32) -> Option<bool> {
    if m.code == indication && m.content.len() > 2 && m.content[2] is Int {
        Some(m.content[2]->Int_0 != 0)
    } else {
        None
    }
}

/// What an unsolicited message says of whether a packet-data attach is
/// allowed ([`permission_in`]).
pub fn attach_permission(message: &Message, indication: u32) -> (r: Option<bool>)
    ensures
        r == permission_in(message@, indication),
{
    if message.code == indication && message.content.len() > 2 {
        assert(message@.content[2] == message.content@[2]@);
        match message.content[2].as_int() {
            Some(allowed) => Some(allowed != 0),
            None => None,
        }
    } else {
        None
    }
}

/// Whether a message received while a request waits is its answer: a
/// response is; acknowledgements and indications are passed over.
pub fn answers_request(message: &Message) -> (b: bool)
    ensures
        b == (message.kind == MessageKind::Response),
{
    message.kind == MessageKind::Response
}

/// Whether the network allows a packet-data attach, as the firmware last
/// said on the current channel.
pub struct AttachPermission {
    allowed: bool,
}

impl View for AttachPermission {
    type V = bool;

    closed spec fn view(&self) -> bool {
        self.allowed
    }
}

/// Whether an attach is allowed after the messages `messages`, observed in
/// order from `before`: each message that speaks of the permission replaces
/// what was known.
pub open spec fn permission_after(before: bool, messages: Seq<MessageModel>, indication: u32) -> bool
    decreases messages.len(),
{
    if messages.len() == 0 {
        before
    } else {
        match permission_in(messages.last(), indication) {
            Some(allowed) => allowed,
            None => permission_after(before, messages.drop_last(), indication),
        }
    }
}

impl AttachPermission {
    /// A fresh channel: no permission yet.
    pub fn new() -> (p: Self)
        ensures
            !p@,
    {
        AttachPermission { allowed: false }
    }

    /// Whether an attach is allowed.
    pub fn allowed(&self) -> (b: bool)
        ensures
            b == self@,
    {
        self.allowed
    }

    /// Take in what `message` says of the permission.
    pub fn observe(&mut self, message: &Message, indication: u32)
        ensures
            final(self)@ == permission_after(old(self)@, seq![message@], indication),
    {
        if let Some(allowed) = attach_permission(message, indication) {
            self.allowed = allowed;
        }
        proof {
            reveal_with_fuel(permission_after, 2);
            assert(seq![message@].drop_last() =~= Seq::<MessageModel>::empty());
            assert(seq![message@].last() == message@);
        }
    }

    /// Forget the permission, as when the channel is opened anew.
    pub fn reset(&mut self)
        ensures
            !final(self)@,
    {
        self.allowed = false;
    }
}

/// Observing messages one at a time is observing them together.
pub proof fn law_permission_step(before: bool, messages: Seq<MessageModel>, m: MessageModel, indication: u32)
    ensures
        permission_after(permission_after(before, messages, indication), seq![m], indication)
            == permission_after(before, messages.push(m), indication),
{
    reveal_with_fuel(permission_after, 2);
    assert(messages.push(m).drop_last() =~= messages);
    assert(messages.push(m).last() == m);
    assert(seq![m].drop_last() =~= Seq::<MessageModel>::empty());
    assert(seq![m].last() == m);
}

/// The last indication wins: after a run of messages, an attach is allowed
/// exactly as the last message that speaks of the permission says, whatever
/// came before it.
pub proof fn law_last_indication_wins(before: bool, messages: Seq<MessageModel>, i: int, indication: u32)
    requires
        0 <= i < messages.len(),
        permission_in(messages[i], indication) is Some,
        forall|j: int| i < j < messages.len() ==> permission_in(#[trigger] messages[j], indication) is None,
    ensures
        permission_after(before, messages, indication) == permission_in(messages[i], indication)->Some_0,
    decreases messages.len(),
{
    let k = messages.len() - 1;
    assert(messages.last() == messages[k]);
    if i < k {
        let init = messages.drop_last();
        assert(permission_in(messages[k], indication) is None);
        assert(init[i] == messages[i]);
        assert forall|j: int| i < j < init.len() implies permission_in(#[trigger] init[j], indication)
            is None by {
            assert(init[j] == messages[j]);
        }
        law_last_indication_wins(before, init, i, indication);
    }
}

/// Messages that do not speak of the permission leave it as it was.
pub proof fn law_silence_keeps_permission(before: bool, messages: Seq<MessageModel>, indication: u32)
    requires
        forall|j: int| 0 <= j < messages.len() ==> permission_in(#[trigger] messages[j], indication) is None,
    ensures
        permission_after(before, messages, indication) == before,
    decreases messages.len(),
{
    if messages.len() > 0 {
        let init = messages.drop_last();
        assert(messages.last() == messages[messages.len() - 1]);
        assert forall|j: int| 0 <= j < init.len() implies permission_in(#[trigger] init[j], indication)
            is None by {
            assert(init[j] == messages[j]);
        }
        law_silence_keeps_permission(before, init, indication);
    }
}

/// A little-endian word reads back as its value.
proof fn lemma_le_roundtrip(v: u32, rest: Seq<u8>)
    ensures
        le_u32(le_bytes(v) + rest) == v,
{
    let s = le_bytes(v) + rest;
    assert(s[0] == le_bytes(v)[0] && s[1] == le_bytes(v)[1] && s[2] == le_bytes(v)[2] && s[3]
        == le_bytes(v)[3]);
}

/// The first twenty bytes of a request frame.
pub open spec fn frame_prefix(cmd: u32, body_len: nat, mode: Mode) -> Seq<u8> {
    let total = declared_len(body_len, mode) as u32;
    le_bytes(total) + int_field(total) + int_field(cmd) + be_bytes(tid_word(mode))
}

/// The fixed part of a framed request: its length word, the integer fields
/// of its length and command, and its transaction word. The length word and
/// field hold the declared length in 32 bits; where that length fits, the
/// word covers exactly the rest of the frame.
#[verifier::spinoff_prover]
#[verifier::rlimit(40)]
proof fn lemma_frame_header(cmd: u32, body: Seq<u8>, mode: Mode)
    ensures
        ({
            let frame = header_spec(cmd, body.len(), mode) + body;
            let h = frame.skip(4);
            &&& frame.len() >= 20
            &&& body.len() + 22 <= u32::MAX ==> le_u32(frame) + 4 == frame.len()
            &&& int_field_at(h, 0) == Parsed::Found(declared_len(body.len(), mode) as u32, 6)
            &&& int_field_at(h, 6) == Parsed::Found(cmd, 12)
            &&& be_u32(frame.subrange(16, 20)) as u32 == tid_word(mode)
            &&& frame.skip(20) == if mode is Async {
                int_field(TXID_ASYNC) + body
            } else {
                body
            }
        }),
{
    let total = declared_len(body.len(), mode) as u32;
    let prefix = frame_prefix(cmd, body.len(), mode);
    let tail = if mode is Async {
        int_field(TXID_ASYNC) + body
    } else {
        body
    };
    let frame = header_spec(cmd, body.len(), mode) + body;
    assert(frame =~= prefix + tail);
    assert(prefix.len() == 20);
    lemma_le_roundtrip(total, int_field(total) + int_field(cmd) + be_bytes(tid_word(mode)) + tail);
    assert(le_bytes(total) + (int_field(total) + int_field(cmd) + be_bytes(tid_word(mode)) + tail)
        =~= frame);
    let h = frame.skip(4);
    assert(h.subrange(0, 6) =~= int_field(total));
    crate::codec::laws::lemma_int_field_at(h, 0, total);
    assert(h.subrange(6, 12) =~= int_field(cmd));
    crate::codec::laws::lemma_int_field_at(h, 6, cmd);
    assert(frame.subrange(16, 20) =~= be_bytes(tid_word(mode)));
    assert(frame.skip(20) =~= tail);
}

/// The body of an asynchronous request decodes as its transaction id
/// followed by the values of the body proper.
proof fn lemma_async_body(body: Seq<u8>)
    requires
        decode_spec(body) is Found,
    ensures
        ({
            let x = int_field(TXID_ASYNC) + body;
            &&& decode_spec(x) is Found
            &&& decode_spec(x)->Found_0.len() > 0
            &&& decode_spec(x)->Found_0[0] == FieldModel::Int(TXID_ASYNC)
            &&& decode_spec(x)->Found_0.drop_first() == decode_spec(body)->Found_0
            &&& x.skip(6) == body
        }),
{
    let x = int_field(TXID_ASYNC) + body;
    assert(x.skip(6) =~= body);
    lemma_values_shift(x, 6, 6);
    assert(x.subrange(0, 6) =~= int_field(TXID_ASYNC));
    crate::codec::laws::lemma_int_field_at(x, 0, TXID_ASYNC);
    let rest = values_from(x, 6)->Found_0;
    assert(decode_spec(x)->Found_0 =~= seq![FieldModel::Int(TXID_ASYNC)] + rest);
    assert((seq![FieldModel::Int(TXID_ASYNC)] + rest).drop_first() =~= rest);
}

/// A request framed by [`build_header`] reads back as a message for its
/// command with its transaction word, wherever its body decodes: a response
/// with that body and its values, but for an asynchronous request with an
/// acknowledgement code (2000 and above), which reads back as an
/// acknowledgement whose body still starts with the echoed transaction field.
/// Where the declared length fits in 32 bits, the length word covers exactly
/// the rest of the frame.
pub proof fn law_frame_roundtrip(cmd: u32, body: Seq<u8>, mode: Mode)
    requires
        decode_spec(body) is Found,
    ensures
        ({
            let frame = header_spec(cmd, body.len(), mode) + body;
            let values = decode_spec(body)->Found_0;
            &&& body.len() + 22 <= u32::MAX ==> le_u32(frame) + 4 == frame.len()
            &&& message_spec(frame) matches MessageParse::Parsed(m) && m.code == cmd && m.tid
                == tid_word(mode) && if mode is Async && cmd >= 2000 {
                &&& m.kind == MessageKind::AsyncAck
                &&& m.body == int_field(TXID_ASYNC) + body
                &&& m.content == seq![FieldModel::Int(TXID_ASYNC)] + values
            } else {
                &&& m.kind == MessageKind::Response
                &&& m.body == body
                &&& m.content == values
            }
        }),
{
    lemma_frame_header(cmd, body, mode);
    if mode is Async {
        lemma_async_body(body);
        assert(TXID_ASYNC & 0xffff_ff00 == TXID_SYNC) by (bit_vector);
        let x = int_field(TXID_ASYNC) + body;
        let all = decode_spec(x)->Found_0;
        assert(all =~= seq![FieldModel::Int(TXID_ASYNC)] + all.drop_first());
    }
}

} // verus!
