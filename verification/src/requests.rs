//! Request and response payloads of the XMM7360 RPC protocol.
use vstd::prelude::*;
use vstd::string::StringSliceAdditionalSpecFns;

use crate::codec::{
    Arg, CodecError, FieldModel, arg_models, field_bytes, field_int, int_field, value_models,
};
use crate::codec::decode::{Parsed, lemma_unpack_shape, unpack, unpack_spec};
use crate::codec::encode::{
    decimal, digit_run, length_prefix, pack, pack_field_spec, pack_spec, pack_string_spec,
    packed_len, sized_int_field, string_field,
};
use crate::codec::laws::{int_args, int_fields_from, law_pack_ints};

verus! {

/// `UtaMsNetAttachReq`.
pub fn net_attach() -> (out: Vec<u8>)
    ensures
        out@ == sized_int_field(0, 1) + int_field(0) + int_field(0) + int_field(0) + int_field(0)
            + sized_int_field(0xffff, 2) + sized_int_field(0xffff, 2) + int_field(0) + int_field(
            0,
        ),
{
    let args = [
        Arg::Int(0),
        Arg::Int(0),
        Arg::Int(0),
        Arg::Int(0),
        Arg::Int(0),
        Arg::Int(0xffff),
        Arg::Int(0xffff),
        Arg::Int(0),
        Arg::Int(0),
    ];
    let ghost vals = seq![0u32, 0, 0, 0, 0, 0xffff, 0xffff, 0, 0];
    proof {
        reveal_strlit("BLLLLHHLL");
        let fmt = "BLLLLHHLL"@;
        assert(arg_models(args@) =~= int_args(vals));
        law_pack_ints(fmt, vals, 0);
        assert(fmt.skip(0) =~= fmt);
        assert(int_args(vals).skip(0) =~= int_args(vals));
        reveal_with_fuel(int_fields_from, 10);
    }
    match pack("BLLLLHHLL", &args) {
        Ok(out) => out,
        Err(_) => {
            assert(false);
            Vec::new()
        },
    }
}

/// `UtaMsCallPsGetNegIpAddrReq`.
pub fn get_neg_ip() -> (out: Vec<u8>)
    ensures
        out@ == sized_int_field(0, 1) + int_field(0) + int_field(0),
{
    pack_three_zeros()
}

/// `UtaMsCallPsGetNegotiatedDnsReq`.
pub fn get_neg_dns() -> (out: Vec<u8>)
    ensures
        out@ == sized_int_field(0, 1) + int_field(0) + int_field(0),
{
    pack_three_zeros()
}

/// The body `BLL` of zeros that both negotiation queries send.
fn pack_three_zeros() -> (out: Vec<u8>)
    ensures
        out@ == sized_int_field(0, 1) + int_field(0) + int_field(0),
{
    let args = [Arg::Int(0), Arg::Int(0), Arg::Int(0)];
    let ghost vals = seq![0u32, 0, 0];
    proof {
        reveal_strlit("BLL");
        let fmt = "BLL"@;
        assert(arg_models(args@) =~= int_args(vals));
        law_pack_ints(fmt, vals, 0);
        assert(fmt.skip(0) =~= fmt);
        assert(int_args(vals).skip(0) =~= int_args(vals));
        reveal_with_fuel(int_fields_from, 4);
        assert(sized_int_field(0, 4) =~= int_field(0));
    }
    match pack("BLL", &args) {
        Ok(out) => out,
        Err(_) => {
            assert(false);
            Vec::new()
        },
    }
}

/// `UtaMsCallPsConnectReq`.
pub fn ps_connect() -> (out: Vec<u8>)
    ensures
        out@ == sized_int_field(0, 1) + int_field(6) + int_field(0) + int_field(0),
{
    let args = [Arg::Int(0), Arg::Int(6), Arg::Int(0), Arg::Int(0)];
    let ghost vals = seq![0u32, 6, 0, 0];
    proof {
        reveal_strlit("BLLL");
        let fmt = "BLLL"@;
        assert(arg_models(args@) =~= int_args(vals));
        law_pack_ints(fmt, vals, 0);
        assert(fmt.skip(0) =~= fmt);
        assert(int_args(vals).skip(0) =~= int_args(vals));
        reveal_with_fuel(int_fields_from, 5);
        assert(sized_int_field(0, 4) =~= int_field(0));
        assert(sized_int_field(6, 4) =~= int_field(6));
    }
    match pack("BLLL", &args) {
        Ok(out) => out,
        Err(_) => {
            assert(false);
            Vec::new()
        },
    }
}

/// The digits `24` denote a capacity of 24.
proof fn lemma_digits_24()
    ensures
        digit_run(seq!['2', '4']) == 2,
        decimal(seq!['2', '4'].take(2)) == 24,
{
    let digits = seq!['2', '4'];
    assert(digits.drop_first() =~= seq!['4']);
    assert(seq!['4'].drop_first() =~= Seq::<char>::empty());
    assert(digit_run(Seq::<char>::empty()) == 0);
    assert(digit_run(seq!['4']) == 1);
    assert(digits.take(2) =~= digits);
    assert(digits.drop_last() =~= seq!['2']);
    assert(seq!['2'].drop_last() =~= Seq::<char>::empty());
    assert(decimal(Seq::<char>::empty()) == 0);
    assert(decimal(seq!['2']) == 2);
}

/// What `pack("s24", ..)` makes of one byte string.
proof fn lemma_pack_s24(value: Seq<u8>)
    ensures
        value.len() <= 24 ==> pack_spec(seq!['s', '2', '4'], seq![FieldModel::Bytes(value)])
            == Ok::<Seq<u8>, CodecError>(string_field(value, 1, 24)),
        value.len() > 24 ==> pack_spec(seq!['s', '2', '4'], seq![FieldModel::Bytes(value)])
            == Err::<Seq<u8>, CodecError>(
            CodecError::StringOverflow { valid: value.len() as usize, capacity: 24 },
        ),
        packed_len(seq!['s', '2', '4'], seq![FieldModel::Bytes(value)]) <= 38,
{
    reveal(pack_field_spec);
    reveal(pack_string_spec);
    let fmt = seq!['s', '2', '4'];
    let args = seq![FieldModel::Bytes(value)];
    lemma_digits_24();
    assert(fmt.skip(1) =~= seq!['2', '4']);
    assert(fmt.skip(3) =~= Seq::<char>::empty());
    assert(args.drop_first() =~= Seq::<FieldModel>::empty());
    assert(pack_spec(Seq::<char>::empty(), Seq::<FieldModel>::empty()) == Ok::<Seq<u8>, CodecError>(
        Seq::<u8>::empty(),
    ));
    assert(packed_len(Seq::<char>::empty(), Seq::<FieldModel>::empty()) == 0);
    if value.len() <= 24 {
        let field = string_field(value, 1, 24);
        assert(pack_field_spec(fmt, args[0]) == Ok::<(nat, Seq<u8>), CodecError>((3nat, field)));
        assert(field + Seq::<u8>::empty() =~= field);
        assert(length_prefix(value.len()) =~= seq![value.len() as u8]);
    }
}

/// The specifier `s0` packs an empty string into an empty field.
proof fn lemma_pack_field_s0()
    ensures
        pack_field_spec(seq!['s', '0', 'L'], FieldModel::Bytes(Seq::empty()))
            == Ok::<(nat, Seq<u8>), CodecError>((2nat, string_field(Seq::empty(), 1, 0))),
{
    reveal(pack_field_spec);
    reveal(pack_string_spec);
    let f1 = seq!['s', '0', 'L'];
    let digits = f1.skip(1);
    assert(digits =~= seq!['0', 'L']);
    assert(digits.drop_first() =~= seq!['L']);
    assert(digit_run(seq!['L']) == 0);
    assert(digit_run(digits) == 1);
    assert(digits.take(1) =~= seq!['0']);
    assert(seq!['0'].drop_last() =~= Seq::<char>::empty());
    assert(decimal(Seq::<char>::empty()) == 0);
    assert(decimal(seq!['0']) == 0);
}

/// The specifier `L` packs an integer into a four-byte integer field.
proof fn lemma_pack_field_l(fmt: Seq<char>, v: u32)
    requires
        fmt.len() > 0,
        fmt[0] == 'L',
    ensures
        pack_field_spec(fmt, FieldModel::Int(v)) == Ok::<(nat, Seq<u8>), CodecError>(
            (1nat, int_field(v)),
        ),
{
    reveal(pack_field_spec);
    assert(sized_int_field(v, 4) =~= int_field(v));
}

/// What `pack("Ls0L", ..)` makes of its three arguments.
proof fn lemma_pack_sys_get_info(index: u32)
    ensures
        pack_spec(
            seq!['L', 's', '0', 'L'],
            seq![FieldModel::Int(0), FieldModel::Bytes(Seq::empty()), FieldModel::Int(index)],
        ) == Ok::<Seq<u8>, CodecError>(
            int_field(0) + string_field(Seq::empty(), 1, 0) + int_field(index),
        ),
        packed_len(
            seq!['L', 's', '0', 'L'],
            seq![FieldModel::Int(0), FieldModel::Bytes(Seq::empty()), FieldModel::Int(index)],
        ) == (int_field(0) + string_field(Seq::empty(), 1, 0) + int_field(index)).len(),
{
    let empty_bytes = Seq::<u8>::empty();
    let empty_chars = Seq::<char>::empty();
    let empty_args = Seq::<FieldModel>::empty();
    let fmt = seq!['L', 's', '0', 'L'];
    let args = seq![FieldModel::Int(0), FieldModel::Bytes(empty_bytes), FieldModel::Int(index)];
    let f1 = fmt.skip(1);
    let a1 = args.drop_first();
    assert(f1 =~= seq!['s', '0', 'L']);
    assert(a1 =~= seq![FieldModel::Bytes(empty_bytes), FieldModel::Int(index)]);
    let f3 = f1.skip(2);
    let a3 = a1.drop_first();
    assert(f3 =~= seq!['L']);
    assert(a3 =~= seq![FieldModel::Int(index)]);
    assert(f3.skip(1) =~= empty_chars);
    assert(a3.drop_first() =~= empty_args);
    let s = string_field(empty_bytes, 1, 0);
    lemma_pack_field_s0();
    lemma_pack_field_l(f3, index);
    lemma_pack_field_l(fmt, 0);
    assert(pack_spec(empty_chars, empty_args) == Ok::<Seq<u8>, CodecError>(empty_bytes));
    assert(packed_len(empty_chars, empty_args) == 0);
    assert(pack_spec(f3, a3) == Ok::<Seq<u8>, CodecError>(int_field(index))) by {
        assert(int_field(index) + empty_bytes =~= int_field(index));
    }
    assert(pack_spec(f1, a1) == Ok::<Seq<u8>, CodecError>(s + int_field(index)));
    assert(packed_len(f3, a3) == int_field(index).len());
    assert(packed_len(f1, a1) == s.len() + int_field(index).len());
    assert(int_field(0) + (s + int_field(index)) =~= int_field(0) + s + int_field(index));
}

/// `UtaRPCPsConnectToDatachannelReq`: the NUL-terminated `path` in a string
/// field of 24 bytes.
pub fn connect_to_datachannel(path: &str) -> (r: Result<Vec<u8>, CodecError>)
    ensures
        ({
            let buffer = path.spec_bytes().push(0u8);
            &&& buffer.len() <= 24 ==> (r matches Ok(out) && out@ == string_field(buffer, 1, 24))
            &&& buffer.len() > 24 ==> r == Err::<Vec<u8>, CodecError>(
                CodecError::StringOverflow { valid: buffer.len() as usize, capacity: 24 },
            )
        }),
{
    let mut buffer = vstd::slice::slice_to_vec(path.as_bytes());
    buffer.push(0);
    let args = [Arg::Bytes(buffer.as_slice())];
    proof {
        reveal_strlit("s24");
        assert("s24"@ =~= seq!['s', '2', '4']);
        assert(arg_models(args@) =~= seq![FieldModel::Bytes(buffer@)]);
        lemma_pack_s24(buffer@);
    }
    pack("s24", &args)
}

/// `UtaSysGetInfo`: the query for information field `index`.
pub fn sys_get_info(index: u32) -> (out: Vec<u8>)
    ensures
        out@ == int_field(0) + string_field(Seq::empty(), 1, 0) + int_field(index),
{
    let empty: [u8; 0] = [];
    let args = [Arg::Int(0), Arg::Bytes(&empty), Arg::Int(index)];
    proof {
        reveal_strlit("Ls0L");
        assert("Ls0L"@ =~= seq!['L', 's', '0', 'L']);
        assert(empty@ =~= Seq::<u8>::empty());
        assert(arg_models(args@) =~= seq![
            FieldModel::Int(0),
            FieldModel::Bytes(Seq::empty()),
            FieldModel::Int(index),
        ]);
        lemma_pack_sys_get_info(index);
    }
    match pack("Ls0L", &args) {
        Ok(out) => out,
        Err(_) => {
            assert(false);
            Vec::new()
        },
    }
}


/// The first four bytes of `b` as an IPv4 address.
fn ipv4_at(b: &[u8], start: usize) -> (a: [u8; 4])
    requires
        start + 4 <= b@.len(),
    ensures
        a@ == b@.subrange(start as int, start + 4),
{
    let a = [b[start], b[start + 1], b[start + 2], b[start + 3]];
    assert(a@ =~= b@.subrange(start as int, start + 4));
    a
}

/// Decode `UtaMsCallPsGetNegIpAddrRspCb` into its three candidate addresses:
/// the first twelve bytes of its string, four by four.
pub fn parse_neg_ip(body: &[u8]) -> (r: Result<[[u8; 4]; 3], CodecError>)
    requires
        !(unpack_spec("nsnnnn"@, body@) is Overflow),
    ensures
        match unpack_spec("nsnnnn"@, body@) {
            Parsed::Found(vs, _) => {
                let a = field_bytes(vs[1]);
                &&& a.len() < 12 ==> r == Err::<[[u8; 4]; 3], CodecError>(
                    CodecError::UnexpectedEof,
                )
                &&& a.len() >= 12 ==> (r matches Ok(addrs) && addrs[0]@ == a.subrange(0, 4)
                    && addrs[1]@ == a.subrange(4, 8) && addrs[2]@ == a.subrange(8, 12))
            },
            Parsed::Failed(e, _) => r == Err::<[[u8; 4]; 3], CodecError>(e),
            Parsed::Overflow => false,
        },
{
    let values = unpack("nsnnnn", body)?;
    proof {
        reveal_strlit("nsnnnn");
        lemma_unpack_shape("nsnnnn"@, body@, 0);
        let vs = unpack_spec("nsnnnn"@, body@)->Found_0;
        assert("nsnnnn"@[1] == 's');
        assert(vs[1] is Bytes);
        assert(value_models(values@)[1] == values@[1]@);
    }
    let addresses = match values[1].as_bytes() {
        Some(bytes) => bytes,
        None => {
            return Err(CodecError::MissingArgument);
        },
    };
    if addresses.len() < 12 {
        return Err(CodecError::UnexpectedEof);
    }
    Ok([ipv4_at(addresses, 0), ipv4_at(addresses, 4), ipv4_at(addresses, 8)])
}

/// Decode `UtaSysGetInfoRspCb` into the requested string field.
pub fn parse_sys_info(body: &[u8]) -> (r: Result<Vec<u8>, CodecError>)
    requires
        !(unpack_spec("nns"@, body@) is Overflow),
    ensures
        match unpack_spec("nns"@, body@) {
            Parsed::Found(vs, _) => r matches Ok(out) && out@ == field_bytes(vs[2]),
            Parsed::Failed(e, _) => r == Err::<Vec<u8>, CodecError>(e),
            Parsed::Overflow => false,
        },
{
    let values = unpack("nns", body)?;
    proof {
        reveal_strlit("nns");
        lemma_unpack_shape("nns"@, body@, 0);
        let vs = unpack_spec("nns"@, body@)->Found_0;
        assert("nns"@[2] == 's');
        assert(vs[2] is Bytes);
        assert(value_models(values@)[2] == values@[2]@);
    }
    match values[values.len() - 1].as_bytes() {
        Some(bytes) => Ok(vstd::slice::slice_to_vec(bytes)),
        None => Err(CodecError::MissingArgument),
    }
}

/// Negotiated DNS servers, split by address family.
#[derive(Debug, Clone, PartialEq, Eq)]
pub struct DnsServers {
    /// IPv4 servers, as their four octets.
    pub v4: Vec<[u8; 4]>,
    /// IPv6 servers, as their sixteen octets.
    pub v6: Vec<[u8; 16]>,
}

impl Default for DnsServers {
    fn default() -> (r: Self)
        ensures
            r.v4@.len() == 0,
            r.v6@.len() == 0,
    {
        DnsServers { v4: Vec::new(), v6: Vec::new() }
    }
}

/// The octets of each IPv4 address.
pub open spec fn v4_octets(a: Seq<[u8; 4]>) -> Seq<Seq<u8>> {
    Seq::new(a.len(), |i: int| a[i]@)
}

/// The octets of each IPv6 address.
pub open spec fn v6_octets(a: Seq<[u8; 16]>) -> Seq<Seq<u8>> {
    Seq::new(a.len(), |i: int| a[i]@)
}

/// The servers of kind `kind` among the first `n` (server, kind) pairs of a
/// DNS reply: the first `width` bytes of each server's string, where the
/// string is that long.
pub open spec fn dns_entries(vs: Seq<FieldModel>, kind: u32, width: nat, n: int) -> Seq<Seq<u8>>
    decreases n,
{
    if n <= 0 {
        Seq::empty()
    } else {
        let prev = dns_entries(vs, kind, width, n - 1);
        let value = vs[2 * (n - 1) + 1];
        if field_int(vs[2 * (n - 1) + 2]) == kind && value is Bytes && field_bytes(value).len()
            >= width {
            prev.push(field_bytes(value).take(width as int))
        } else {
            prev
        }
    }
}

/// Whether the pair at `i` of a DNS reply is a server of kind `kind` whose
/// string holds at least `width` bytes.
pub open spec fn is_dns_server(vs: Seq<FieldModel>, kind: u32, width: nat, i: int) -> bool {
    field_int(vs[2 * i + 2]) == kind && vs[2 * i + 1] is Bytes && field_bytes(vs[2 * i + 1]).len()
        >= width
}

/// The servers of a kind are every pair of that kind with a long enough
/// string, each cut to its first `width` bytes, in the order of the pairs:
/// none is dropped, none repeated, none added.
pub proof fn law_dns_entries_keep_every_server(vs: Seq<FieldModel>, kind: u32, width: nat, n: nat)
    ensures
        dns_entries(vs, kind, width, n as int) == Seq::new(n, |i: int| i).filter_map(
            |i: int|
                if is_dns_server(vs, kind, width, i) {
                    Some(field_bytes(vs[2 * i + 1]).take(width as int))
                } else {
                    None
                },
        ),
    decreases n,
{
    let f = |i: int|
        if is_dns_server(vs, kind, width, i) {
            Some(field_bytes(vs[2 * i + 1]).take(width as int))
        } else {
            None
        };
    let idx = Seq::new(n, |i: int| i);
    if n > 0 {
        law_dns_entries_keep_every_server(vs, kind, width, (n - 1) as nat);
        assert(idx.drop_last() =~= Seq::new((n - 1) as nat, |i: int| i));
        assert(idx.last() == n - 1);
        let prev = dns_entries(vs, kind, width, n - 1);
        if is_dns_server(vs, kind, width, n - 1) {
            assert(prev + seq![field_bytes(vs[2 * (n - 1) + 1]).take(width as int)] =~= prev.push(
                field_bytes(vs[2 * (n - 1) + 1]).take(width as int),
            ));
        }
        assert(idx.filter_map(f) == idx.drop_last().filter_map(f) + match f(idx.last()) {
            Some(x) => seq![x],
            None => Seq::<Seq<u8>>::empty(),
        }) by {
            match f(idx.last()) {
                Some(x) => {},
                None => {
                    assert(idx.drop_last().filter_map(f) + Seq::<Seq<u8>>::empty()
                        =~= idx.drop_last().filter_map(f));
                },
            }
        }
    } else {
        assert(idx =~= Seq::<int>::empty());
    }
}

/// The format of a DNS reply: an integer, sixteen (server, kind) pairs, then
/// a string and four integers.
proof fn lemma_dns_format()
    ensures
        "nsnsnsnsnsnsnsnsnsnsnsnsnsnsnsnsnnsnnnn"@.len() == 39,
        forall|i: int|
            0 <= i < 16 ==> #[trigger] "nsnsnsnsnsnsnsnsnsnsnsnsnsnsnsnsnnsnnnn"@[2 * i + 1] == 's' && "nsnsnsnsnsnsnsnsnsnsnsnsnsnsnsnsnnsnnnn"@[2 * i + 2] == 'n',
{
    reveal_strlit("nsnsnsnsnsnsnsnsnsnsnsnsnsnsnsnsnnsnnnn");
}

/// Decode `UtaMsCallPsGetNegotiatedDnsRspCb`: of its sixteen (server, kind)
/// pairs, the servers of kind 1 with at least four bytes are IPv4 servers
/// and those of kind 2 with at least sixteen bytes IPv6 servers.
pub fn parse_dns(body: &[u8]) -> (r: Result<DnsServers, CodecError>)
    requires
        !(unpack_spec("nsnsnsnsnsnsnsnsnsnsnsnsnsnsnsnsnnsnnnn"@, body@) is Overflow),
    ensures
        match unpack_spec("nsnsnsnsnsnsnsnsnsnsnsnsnsnsnsnsnnsnnnn"@, body@) {
            Parsed::Found(vs, _) => r matches Ok(servers) && v4_octets(servers.v4@) == dns_entries(
                vs,
                1,
                4,
                16,
            ) && v6_octets(servers.v6@) == dns_entries(vs, 2, 16, 16),
            Parsed::Failed(e, _) => r == Err::<DnsServers, CodecError>(e),
            Parsed::Overflow => false,
        },
{
    let values = unpack("nsnsnsnsnsnsnsnsnsnsnsnsnsnsnsnsnnsnnnn", body)?;
    let ghost vs = unpack_spec("nsnsnsnsnsnsnsnsnsnsnsnsnsnsnsnsnnsnnnn"@, body@)->Found_0;
    proof {
        lemma_dns_format();
        lemma_unpack_shape("nsnsnsnsnsnsnsnsnsnsnsnsnsnsnsnsnnsnnnn"@, body@, 0);
    }
    let mut servers = DnsServers { v4: Vec::new(), v6: Vec::new() };
    let mut i: usize = 0;
    while i < 16
        invariant
            i <= 16,
            value_models(values@) == vs,
            vs.len() == 39,
            forall|j: int| 0 <= j < 16 ==> #[trigger] vs[2 * j + 2] is Int && vs[2 * j + 1] is Bytes,
            v4_octets(servers.v4@) == dns_entries(vs, 1, 4, i as int),
            v6_octets(servers.v6@) == dns_entries(vs, 2, 16, i as int),
        decreases 16 - i,
    {
        let value = &values[2 * i + 1];
        assert(vs[2 * i + 1] == value@);
        assert(vs[2 * i + 2] == values@[2 * i + 2]@);
        assert(vs[2 * i + 2] is Int && vs[2 * i + 1] is Bytes);
        let kind = match values[2 * i + 2].as_int() {
            Some(kind) => kind,
            None => {
                return Ok(servers);
            },
        };
        match value.as_bytes() {
            Some(bytes) => {
                if kind == 1 && bytes.len() >= 4 {
                    let ghost before = servers.v4@;
                    servers.v4.push(ipv4_at(bytes, 0));
                    assert(v4_octets(servers.v4@) =~= v4_octets(before).push(bytes@.take(4)));
                } else if kind == 2 && bytes.len() >= 16 {
                    let ghost before = servers.v6@;
                    let mut octets = [0u8; 16];
                    let mut k: usize = 0;
                    while k < 16
                        invariant
                            k <= 16,
                            bytes@.len() >= 16,
                            forall|m: int| 0 <= m < k ==> octets@[m] == bytes@[m],
                        decreases 16 - k,
                    {
                        octets[k] = bytes[k];
                        k += 1;
                    }
                    assert(octets@ =~= bytes@.take(16));
                    servers.v6.push(octets);
                    assert(v6_octets(servers.v6@) =~= v6_octets(before).push(bytes@.take(16)));
                }
            },
            None => {},
        }
        i = i + 1;
    }
    Ok(servers)
}

} // verus!
