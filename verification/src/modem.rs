//! The decisions of the modem bring-up sequence: what each firmware reply
//! means and which request follows it.
use vstd::prelude::*;
use vstd::string::StringExecFns;

use crate::codec::{Arg, FieldModel, Value, arg_models, field_int, int_field, value_models};
use crate::codec::decode::{Parsed, lemma_unpack_shape, unpack, unpack_from, unpack_spec};
use crate::codec::encode::{pack, pack_u32, push_bytes, push_int_field, sized_int_field};
use crate::codec::laws::{int_args, int_fields_from, law_pack_ints, lemma_int_field_at};
use crate::digest::{sha256, sha256_spec};
use crate::error::Error;
use crate::text::{dec_digits, decimal_text};
use crate::transport::{Mode, le_bytes, le_u32};

verus! {

/// `UtaMsSimOpenReq`.
pub const UTA_MS_SIM_OPEN_REQ: u32 = 0x001;
/// `UtaMsSmsInit`.
pub const UTA_MS_SMS_INIT: u32 = 0x030;
/// `UtaMsCbsInit`.
pub const UTA_MS_CBS_INIT: u32 = 0x025;
/// `UtaMsNetOpen`.
pub const UTA_MS_NET_OPEN: u32 = 0x053;
/// `UtaMsCallCsInit`.
pub const UTA_MS_CALL_CS_INIT: u32 = 0x024;
/// `UtaMsCallPsInitialize`.
pub const UTA_MS_CALL_PS_INITIALIZE: u32 = 0x03a;
/// `UtaMsSsInit`.
pub const UTA_MS_SS_INIT: u32 = 0x026;
/// `UtaMsCallPsAttachApnConfigReq`.
pub const UTA_MS_CALL_PS_ATTACH_APN_CONFIG_REQ: u32 = 0x1af;
/// `UtaMsNetAttachReq`.
pub const UTA_MS_NET_ATTACH_REQ: u32 = 0x05c;
/// `UtaMsCallPsGetNegIpAddrReq`.
pub const UTA_MS_CALL_PS_GET_NEG_IP_ADDR_REQ: u32 = 0x049;
/// `UtaMsCallPsGetNegotiatedDnsReq`.
pub const UTA_MS_CALL_PS_GET_NEGOTIATED_DNS_REQ: u32 = 0x047;
/// `UtaMsCallPsConnectReq`.
pub const UTA_MS_CALL_PS_CONNECT_REQ: u32 = 0x051;
/// `UtaRPCPsConnectToDatachannelReq`.
pub const UTA_RPC_PS_CONNECT_TO_DATACHANNEL_REQ: u32 = 0x07e;
/// `UtaRPCPSConnectSetupReq`.
pub const UTA_RPC_PS_CONNECT_SETUP_REQ: u32 = 0x07d;
/// `UtaModeSetReq`.
pub const UTA_MODE_SET_REQ: u32 = 0x12f;
/// `UtaSysGetInfo`.
pub const UTA_SYS_GET_INFO: u32 = 0x07c;
/// `CsiFccLockQueryReq`.
pub const CSI_FCC_LOCK_QUERY_REQ: u32 = 0x18e;
/// `CsiFccLockGenChallengeReq`.
pub const CSI_FCC_LOCK_GEN_CHALLENGE_REQ: u32 = 0x190;
/// `CsiFccLockVerChallengeReq`.
pub const CSI_FCC_LOCK_VER_CHALLENGE_REQ: u32 = 0x192;
/// The transaction id that `UtaModeSetReq` carries.
pub const MODE_TID: u32 = 15;

/// The integer at `index` of `values`, if there is one.
pub open spec fn int_at_spec(values: Seq<FieldModel>, index: int) -> Option<u32> {
    if 0 <= index < values.len() && values[index] is Int {
        Some(field_int(values[index]))
    } else {
        None
    }
}

/// The integer at position `index` of a decoded payload.
pub fn int_at(values: &[Value], index: usize) -> (r: Result<u32, Error>)
    ensures
        match int_at_spec(value_models(values@), index as int) {
            Some(v) => r == Ok::<u32, Error>(v),
            None => r matches Err(Error::Protocol(m)) && m@ == "expected an integer at position "@
                + dec_digits(index as nat),
        },
{
    if index < values.len() {
        assert(value_models(values@)[index as int] == values@[index as int]@);
        match values[index].as_int() {
            Some(v) => {
                return Ok(v);
            },
            None => {},
        }
    }
    let message = "expected an integer at position ".to_owned().concat(decimal_text(index).as_str());
    Err(Error::Protocol(message))
}

/// The message of [`int_at`] for position 0.
proof fn lemma_first_position_text()
    ensures
        "expected an integer at position "@ + dec_digits(0) == "expected an integer at position 0"@,
{
    reveal_strlit("expected an integer at position ");
    reveal_strlit("expected an integer at position 0");
    assert("expected an integer at position "@ + dec_digits(0) =~= "expected an integer at position 0"@);
}

/// What the outcome of a readiness probe means: an answer means the
/// firmware is ready (`Ok(true)`); a timeout means probing again on a fresh
/// channel (`Ok(false)`) until the deadline has passed, and then a timeout;
/// any other error stands.
pub fn ready_probe_outcome(probe: Result<(), Error>, deadline_passed: bool) -> (r: Result<
    bool,
    Error,
>)
    ensures
        probe is Ok ==> r == Ok::<bool, Error>(true),
        probe matches Err(Error::Timeout) ==> if deadline_passed {
            r matches Err(Error::Timeout)
        } else {
            r == Ok::<bool, Error>(false)
        },
        (probe matches Err(e) && !(e is Timeout)) ==> r == Err::<bool, Error>(probe->Err_0),
{
    match probe {
        Ok(()) => Ok(true),
        Err(Error::Timeout) => {
            if deadline_passed {
                Err(Error::Timeout)
            } else {
                Ok(false)
            }
        },
        Err(error) => Err(error),
    }
}

/// A request to send: its command, body and mode.
#[derive(Debug)]
pub struct Request {
    /// The command.
    pub command: u32,
    /// The encoded body.
    pub body: Vec<u8>,
    /// Whether the request is synchronous or asynchronous.
    pub mode: Mode,
}

/// The readiness probe: a harmless query of the FCC lock status, sent
/// asynchronously with the integer field of 0.
pub fn ready_probe() -> (r: Request)
    ensures
        r.command == CSI_FCC_LOCK_QUERY_REQ,
        r.body@ == int_field(0),
        r.mode == Mode::Async,
{
    Request { command: CSI_FCC_LOCK_QUERY_REQ, body: pack_u32(0), mode: Mode::Async }
}

/// The FCC unlock key, read from `nvm:fix_cat_fcclock.fcclock_hash[0]` on
/// the modem.
pub open spec fn fcc_key() -> Seq<u8> {
    seq![0x3du8, 0xf8u8, 0xc7u8, 0x19u8]
}

/// The answer to an FCC challenge: the first four bytes, little-endian, of
/// the SHA-256 digest of the challenge's little-endian bytes followed by the
/// unlock key.
pub open spec fn fcc_answer_spec(challenge: u32) -> u32 {
    le_u32(sha256_spec(le_bytes(challenge) + fcc_key())) as u32
}

/// The answer to the FCC challenge `challenge`.
pub fn fcc_answer(challenge: u32) -> (answer: u32)
    ensures
        answer == fcc_answer_spec(challenge),
{
    let data = [
        challenge as u8,
        (challenge >> 8) as u8,
        (challenge >> 16) as u8,
        (challenge >> 24) as u8,
        0x3d,
        0xf8,
        0xc7,
        0x19,
    ];
    proof {
        let v = challenge;
        assert((v as u8) == (v % 0x100) as u8 && ((v >> 8) as u8) == ((v / 0x100) % 0x100) as u8
            && ((v >> 16) as u8) == ((v / 0x1_0000) % 0x100) as u8 && ((v >> 24) as u8) == (v
            / 0x100_0000) as u8) by (bit_vector);
        assert(data@ =~= le_bytes(challenge) + fcc_key());
    }
    let digest = sha256(&data);
    (digest[0] as u32) + (digest[1] as u32) * 0x100 + (digest[2] as u32) * 0x1_0000 + (digest[3] as u32)
        * 0x100_0000
}

/// The answer to a challenge is the first four bytes, read little-endian, of
/// the SHA-256 digest of exactly eight bytes: the challenge's four bytes in
/// little-endian order (the bytes that read back as the challenge), then
/// the unlock key `3d f8 c7 19`.
pub proof fn law_fcc_answer_hashes_challenge_and_key(challenge: u32)
    ensures
        le_bytes(challenge).len() == 4,
        le_u32(le_bytes(challenge)) == challenge,
        fcc_answer_spec(challenge) == le_u32(
            sha256_spec(le_bytes(challenge) + seq![0x3du8, 0xf8u8, 0xc7u8, 0x19u8]),
        ) as u32,
{
    let c = challenge as int;
    let b = le_bytes(challenge);
    assert(b[0] == c % 0x100 && b[1] == (c / 0x100) % 0x100 && b[2] == (c / 0x1_0000) % 0x100
        && b[3] == c / 0x100_0000);
    assert(fcc_key() =~= seq![0x3du8, 0xf8u8, 0xc7u8, 0x19u8]);
}

/// Where an FCC unlock stands: which reply it waits for.
#[derive(Debug, Clone, Copy, PartialEq, Eq, Structural)]
pub enum FccStage {
    /// The lock status.
    Status,
    /// The challenge.
    Challenge,
    /// The verdict on the answer.
    Verdict,
}

/// What an FCC unlock does next.
#[derive(Debug)]
pub enum FccAction {
    /// Send `command` with `body` asynchronously and hand its reply to
    /// [`fcc_step`] at `stage`.
    Send { command: u32, body: Vec<u8>, stage: FccStage },
    /// The radio is unlocked, or was never locked.
    Done,
}

/// The format of the reply that `stage` waits for.
pub open spec fn fcc_reply_format(stage: FccStage) -> Seq<char> {
    match stage {
        FccStage::Status => "nnn"@,
        FccStage::Challenge => "nn"@,
        FccStage::Verdict => "n"@,
    }
}

/// The format of the reply that `stage` waits for ([`fcc_reply_format`]).
pub fn reply_format(stage: FccStage) -> (f: &'static str)
    ensures
        f@ == fcc_reply_format(stage),
{
    match stage {
        FccStage::Status => "nnn",
        FccStage::Challenge => "nn",
        FccStage::Verdict => "n",
    }
}

/// Whether `action` sends `command` with the integer field of `v` and waits
/// at `stage`.
pub open spec fn sends(action: FccAction, command: u32, v: u32, stage: FccStage) -> bool {
    action matches FccAction::Send { command: c, body, stage: s } && c == command && body@
        == int_field(v) && s == stage
}

/// Integer fields one after another read back by a format of `n`s.
proof fn lemma_unpack_int_fields(fmt: Seq<char>, vals: Seq<u32>, data: Seq<u8>, pos: int)
    requires
        fmt.len() == vals.len(),
        forall|j: int| 0 <= j < fmt.len() ==> #[trigger] fmt[j] == 'n',
        0 <= pos,
        pos + 6 * fmt.len() == data.len(),
        forall|j: int|
            0 <= j < fmt.len() ==> #[trigger] data.subrange(pos + 6 * j, pos + 6 * j + 6)
                == int_field(vals[j]),
    ensures
        unpack_from(fmt, data, pos) == Parsed::Found(
            Seq::new(vals.len(), |j: int| FieldModel::Int(vals[j])),
            data.len() as int,
        ),
    decreases fmt.len(),
{
    if fmt.len() > 0 {
        assert(fmt[0] == 'n');
        assert(data.subrange(pos + 6 * 0, pos + 6 * 0 + 6) == int_field(vals[0]));
        lemma_int_field_at(data, pos, vals[0]);
        assert forall|j: int| 0 <= j < fmt.len() - 1 implies #[trigger] fmt.drop_first()[j] == 'n' by {
            assert(fmt[j + 1] == 'n');
        }
        assert forall|j: int| 0 <= j < fmt.len() - 1 implies #[trigger] data.subrange(
            pos + 6 + 6 * j,
            pos + 6 + 6 * j + 6,
        ) == int_field(vals.drop_first()[j]) by {
            assert(data.subrange(pos + 6 * (j + 1), pos + 6 * (j + 1) + 6) == int_field(vals[j + 1]));
        }
        lemma_unpack_int_fields(fmt.drop_first(), vals.drop_first(), data, pos + 6);
        let rest = Seq::new(vals.drop_first().len(), |j: int| FieldModel::Int(vals.drop_first()[j]));
        assert(seq![FieldModel::Int(vals[0])] + rest =~= Seq::new(
            vals.len(),
            |j: int| FieldModel::Int(vals[j]),
        ));
    } else {
        assert(Seq::new(vals.len(), |j: int| FieldModel::Int(vals[j])) =~= Seq::<FieldModel>::empty());
    }
}

/// The FCC unlock, step by step, on replies of integer fields: a status
/// `(x, state, mode)` asks for a challenge exactly when `mode != 0` and
/// `state == 0`, and is done otherwise; a challenge `(x, c)` is answered
/// with the answer to `c` (the SHA-256 based [`fcc_answer_spec`] of `c`
/// itself, not of another value of the reply); a verdict `v` completes the
/// unlock when it is 1 and fails it otherwise.
pub proof fn law_fcc_unlock_steps(x: u32, state: u32, mode: u32, c: u32, v: u32, r: Result<FccAction, Error>)
    ensures
        fcc_step_outcome(FccStage::Status, int_field(x) + int_field(state) + int_field(mode), r)
            ==> if mode != 0 && state == 0 {
            r matches Ok(a) && sends(a, CSI_FCC_LOCK_GEN_CHALLENGE_REQ, 0, FccStage::Challenge)
        } else {
            r matches Ok(FccAction::Done)
        },
        fcc_step_outcome(FccStage::Challenge, int_field(x) + int_field(c), r) ==> (r matches Ok(a)
            && sends(a, CSI_FCC_LOCK_VER_CHALLENGE_REQ, fcc_answer_spec(c), FccStage::Verdict)),
        fcc_step_outcome(FccStage::Verdict, int_field(v), r) ==> if v == 1 {
            r matches Ok(FccAction::Done)
        } else {
            r matches Err(Error::FccUnlock)
        },
{
    reveal_strlit("nnn");
    reveal_strlit("nn");
    reveal_strlit("n");
    let d3 = int_field(x) + int_field(state) + int_field(mode);
    let v3 = seq![x, state, mode];
    assert forall|j: int| 0 <= j < 3 implies #[trigger] d3.subrange(6 * j, 6 * j + 6) == int_field(
        v3[j],
    ) by {
        if j == 0 {
            assert(d3.subrange(0, 6) =~= int_field(x));
        } else if j == 1 {
            assert(d3.subrange(6, 12) =~= int_field(state));
        } else {
            assert(d3.subrange(12, 18) =~= int_field(mode));
        }
    }
    lemma_unpack_int_fields("nnn"@, v3, d3, 0);
    let d2 = int_field(x) + int_field(c);
    let v2 = seq![x, c];
    assert forall|j: int| 0 <= j < 2 implies #[trigger] d2.subrange(6 * j, 6 * j + 6) == int_field(
        v2[j],
    ) by {
        if j == 0 {
            assert(d2.subrange(0, 6) =~= int_field(x));
        } else {
            assert(d2.subrange(6, 12) =~= int_field(c));
        }
    }
    lemma_unpack_int_fields("nn"@, v2, d2, 0);
    let d1 = int_field(v);
    let v1 = seq![v];
    assert(d1.subrange(0, 6) =~= int_field(v));
    lemma_unpack_int_fields("n"@, v1, d1, 0);
}

/// The first step of an FCC unlock: query the lock status.
pub fn fcc_begin() -> (action: FccAction)
    ensures
        sends(action, CSI_FCC_LOCK_QUERY_REQ, 0, FccStage::Status),
{
    FccAction::Send { command: CSI_FCC_LOCK_QUERY_REQ, body: pack_u32(0), stage: FccStage::Status }
}

/// What the step of an FCC unlock after the reply `body` at `stage` gives:
/// a reply that does not read by the stage's format is its codec error; a
/// status of `(_, state, mode)` needs an unlock only when `mode != 0` and
/// `state == 0`; the challenge at position 1 is answered with
/// [`fcc_answer_spec`]; a verdict other than 1 is a failed unlock.
pub open spec fn fcc_step_outcome(stage: FccStage, body: Seq<u8>, r: Result<FccAction, Error>) -> bool {
    match unpack_spec(fcc_reply_format(stage), body) {
        Parsed::Failed(e, _) => r matches Err(Error::Codec(e2)) && e2 == e,
        Parsed::Overflow => false,
        Parsed::Found(vs, _) => match stage {
            FccStage::Status => {
                let state = field_int(vs[1]);
                let mode = field_int(vs[2]);
                if mode == 0 || state != 0 {
                    r matches Ok(FccAction::Done)
                } else {
                    r matches Ok(a) && sends(a, CSI_FCC_LOCK_GEN_CHALLENGE_REQ, 0, FccStage::Challenge)
                }
            },
            FccStage::Challenge => r matches Ok(a) && sends(
                a,
                CSI_FCC_LOCK_VER_CHALLENGE_REQ,
                fcc_answer_spec(field_int(vs[1])),
                FccStage::Verdict,
            ),
            FccStage::Verdict => if field_int(vs[0]) == 1 {
                r matches Ok(FccAction::Done)
            } else {
                r matches Err(Error::FccUnlock)
            },
        },
    }
}

/// The step of an FCC unlock after the reply `body` at `stage`. A status of
/// `(_, state, mode)` needs an unlock only when `mode != 0` and
/// `state == 0`; the challenge at position 1 is answered with
/// [`fcc_answer`]; a verdict other than 1 is a failed unlock.
pub fn fcc_step(stage: FccStage, body: &[u8]) -> (r: Result<FccAction, Error>)
    requires
        !(unpack_spec(fcc_reply_format(stage), body@) is Overflow),
    ensures
        fcc_step_outcome(stage, body@, r),
{
    proof {
        reveal_strlit("nnn");
        reveal_strlit("nn");
        reveal_strlit("n");
        lemma_unpack_shape(fcc_reply_format(stage), body@, 0);
    }
    match stage {
        FccStage::Status => {
            let values = match unpack("nnn", body) {
                Ok(values) => values,
                Err(e) => {
                    return Err(Error::Codec(e));
                },
            };
            proof {
                assert("nnn"@[1] == 'n' && "nnn"@[2] == 'n');
            }
            let state = int_at(&values, 1)?;
            let mode = int_at(&values, 2)?;
            if mode == 0 || state != 0 {
                return Ok(FccAction::Done);
            }
            Ok(
                FccAction::Send {
                    command: CSI_FCC_LOCK_GEN_CHALLENGE_REQ,
                    body: pack_u32(0),
                    stage: FccStage::Challenge,
                },
            )
        },
        FccStage::Challenge => {
            let values = match unpack("nn", body) {
                Ok(values) => values,
                Err(e) => {
                    return Err(Error::Codec(e));
                },
            };
            proof {
                assert("nn"@[1] == 'n');
            }
            let challenge = int_at(&values, 1)?;
            let answer = fcc_answer(challenge);
            Ok(
                FccAction::Send {
                    command: CSI_FCC_LOCK_VER_CHALLENGE_REQ,
                    body: pack_u32(answer),
                    stage: FccStage::Verdict,
                },
            )
        },
        FccStage::Verdict => {
            let values = match unpack("n", body) {
                Ok(values) => values,
                Err(e) => {
                    return Err(Error::Codec(e));
                },
            };
            proof {
                assert("n"@[0] == 'n');
            }
            if int_at(&values, 0)? != 1 {
                return Err(Error::FccUnlock);
            }
            Ok(FccAction::Done)
        },
    }
}

/// The body of `UtaModeSetReq` for operating mode `mode`: `LLL` of 0, the
/// request's transaction id and the mode.
pub fn set_mode_request(mode: u32) -> (body: Vec<u8>)
    ensures
        body@ == int_field(0) + int_field(MODE_TID) + int_field(mode),
{
    let args = [Arg::Int(0), Arg::Int(MODE_TID), Arg::Int(mode)];
    let ghost vals = seq![0u32, MODE_TID, mode];
    proof {
        reveal_strlit("LLL");
        let fmt = "LLL"@;
        assert(arg_models(args@) =~= int_args(vals));
        law_pack_ints(fmt, vals, 0);
        assert(fmt.skip(0) =~= fmt);
        assert(int_args(vals).skip(0) =~= int_args(vals));
        reveal_with_fuel(int_fields_from, 4);
        assert(sized_int_field(0, 4) =~= int_field(0));
        assert(sized_int_field(MODE_TID, 4) =~= int_field(MODE_TID));
        assert(sized_int_field(mode, 4) =~= int_field(mode));
    }
    match pack("LLL", &args) {
        Ok(body) => body,
        Err(_) => {
            assert(false);
            Vec::new()
        },
    }
}

/// The firmware accepted a mode change: the first value of its direct
/// response is 0.
pub fn check_mode_set_accepted(content: &[Value]) -> (r: Result<(), Error>)
    ensures
        match int_at_spec(value_models(content@), 0) {
            Some(v) => if v == 0 {
                r is Ok
            } else {
                r matches Err(Error::Protocol(m)) && m@ == "UtaModeSet was rejected by the firmware"@
            },
            None => r matches Err(Error::Protocol(m)) && m@ == "expected an integer at position 0"@,
        },
{
    proof {
        lemma_first_position_text();
    }
    if int_at(content, 0)? != 0 {
        return Err(Error::Protocol("UtaModeSet was rejected by the firmware".to_owned()));
    }
    Ok(())
}

/// The mode-set callback reports the requested `mode`: its first value is
/// that mode.
pub fn check_mode_set_result(content: &[Value], mode: u32) -> (r: Result<(), Error>)
    ensures
        match int_at_spec(value_models(content@), 0) {
            Some(v) => if v == mode {
                r is Ok
            } else {
                r matches Err(Error::Protocol(m)) && m@
                    == "UtaModeSet could not set the mode (FCC lock enabled?)"@
            },
            None => r matches Err(Error::Protocol(m)) && m@ == "expected an integer at position 0"@,
        },
{
    proof {
        lemma_first_position_text();
    }
    if int_at(content, 0)? != mode {
        return Err(
            Error::Protocol("UtaModeSet could not set the mode (FCC lock enabled?)".to_owned()),
        );
    }
    Ok(())
}

/// The status in a reply to `UtaMsNetAttachReq`: its second integer;
/// `u32::MAX` means the network refused the attach.
pub fn attach_status(body: &[u8]) -> (r: Result<u32, Error>)
    requires
        !(unpack_spec("nn"@, body@) is Overflow),
    ensures
        match unpack_spec("nn"@, body@) {
            Parsed::Found(vs, _) => r == Ok::<u32, Error>(field_int(vs[1])),
            Parsed::Failed(e, _) => r matches Err(Error::Codec(e2)) && e2 == e,
            Parsed::Overflow => false,
        },
{
    let values = match unpack("nn", body) {
        Ok(values) => values,
        Err(e) => {
            return Err(Error::Codec(e));
        },
    };
    proof {
        reveal_strlit("nn");
        lemma_unpack_shape("nn"@, body@, 0);
        assert("nn"@[1] == 'n');
    }
    int_at(&values, 1)
}

/// The status of a reply to `UtaMsNetAttachReq` by which the network
/// refuses the attach.
pub const ATTACH_REFUSED: u32 = 0xffff_ffff;

/// What follows the status of an attach request.
#[derive(Debug, Clone, Copy, PartialEq, Eq, Structural)]
pub enum AttachStep {
    /// The network accepted the attach.
    Attached,
    /// Wait until the network allows an attach, then request it once more.
    AwaitPermission,
}

/// What the status of an attach request means: any status but
/// [`ATTACH_REFUSED`] is an attach; a refusal of the first request means
/// waiting for the network's permission and asking again; a refusal of the
/// second request is final.
pub fn attach_step(status: u32, retried: bool) -> (r: Result<AttachStep, Error>)
    ensures
        status != ATTACH_REFUSED ==> r == Ok::<AttachStep, Error>(AttachStep::Attached),
        status == ATTACH_REFUSED && !retried ==> r == Ok::<AttachStep, Error>(
            AttachStep::AwaitPermission,
        ),
        status == ATTACH_REFUSED && retried ==> r matches Err(Error::AttachRefused),
{
    if status != ATTACH_REFUSED {
        Ok(AttachStep::Attached)
    } else if !retried {
        Ok(AttachStep::AwaitPermission)
    } else {
        Err(Error::AttachRefused)
    }
}

/// Whether an address is the unspecified address 0.0.0.0.
pub open spec fn is_unspecified(a: Seq<u8>) -> bool {
    a == seq![0u8, 0u8, 0u8, 0u8]
}

/// The address the network assigned among the three candidates: on IPv6
/// networks the first (or first two) slots hold IPv6 bytes, so it is the last
/// candidate that is not 0.0.0.0.
pub fn assigned_address(addresses: &[[u8; 4]; 3]) -> (r: Option<[u8; 4]>)
    ensures
        match r {
            Some(a) => exists|i: int|
                0 <= i < 3 && a == addresses@[i] && !is_unspecified(a@) && forall|j: int|
                    i < j < 3 ==> is_unspecified(#[trigger] addresses@[j]@),
            None => forall|j: int| 0 <= j < 3 ==> is_unspecified(#[trigger] addresses@[j]@),
        },
{
    let mut i: usize = 3;
    while i > 0
        invariant
            i <= 3,
            forall|j: int| i <= j < 3 ==> is_unspecified(#[trigger] addresses@[j]@),
        decreases i,
    {
        let a = addresses[i - 1];
        if a[0] != 0 || a[1] != 0 || a[2] != 0 || a[3] != 0 {
            assert(!is_unspecified(a@));
            return Some(a);
        }
        assert(a@ =~= seq![0u8, 0u8, 0u8, 0u8]);
        i = i - 1;
    }
    None
}

/// What one poll for the negotiated addresses means: the assigned address
/// where there is one ([`assigned_address`]); otherwise another poll while
/// the deadline has not passed, and no address once it has.
pub fn ip_poll_outcome(addresses: &[[u8; 4]; 3], deadline_passed: bool) -> (r: Result<
    Option<[u8; 4]>,
    Error,
>)
    ensures
        match r {
            Ok(Some(a)) => exists|i: int|
                0 <= i < 3 && a == addresses@[i] && !is_unspecified(a@) && forall|j: int|
                    i < j < 3 ==> is_unspecified(#[trigger] addresses@[j]@),
            Ok(None) => !deadline_passed && forall|j: int|
                0 <= j < 3 ==> is_unspecified(#[trigger] addresses@[j]@),
            Err(e) => e is NoIp && deadline_passed && forall|j: int|
                0 <= j < 3 ==> is_unspecified(#[trigger] addresses@[j]@),
        },
{
    match assigned_address(addresses) {
        Some(a) => Ok(Some(a)),
        None => {
            if deadline_passed {
                Err(Error::NoIp)
            } else {
                Ok(None)
            }
        },
    }
}

/// The body of `UtaRPCPSConnectSetupReq`: the reply to the packet-switched
/// connect without its last six bytes, the reply to the data-channel
/// connect, and the integer field of 0.
pub fn connect_setup_body(ps_connect: &[u8], datachannel: &[u8]) -> (r: Result<Vec<u8>, Error>)
    ensures
        ps_connect@.len() < 6 ==> (r matches Err(Error::Protocol(m)) && m@
            == "packet-switched connect response is too short"@),
        ps_connect@.len() >= 6 ==> (r matches Ok(setup) && setup@ == ps_connect@.subrange(
            0,
            ps_connect@.len() - 6,
        ) + datachannel@ + int_field(0)),
{
    if ps_connect.len() < 6 {
        return Err(Error::Protocol("packet-switched connect response is too short".to_owned()));
    }
    let mut setup = vstd::slice::slice_to_vec(
        vstd::slice::slice_subrange(ps_connect, 0, ps_connect.len() - 6),
    );
    push_bytes(&mut setup, datachannel);
    push_int_field(&mut setup, 0);
    Ok(setup)
}

} // verus!
