use xmmrpc::codec::{asn_int, pack, Arg, CodecError};
use xmmrpc::requests::{
    connect_to_datachannel, get_neg_dns, get_neg_ip, net_attach, parse_dns, parse_neg_ip,
    parse_sys_info, ps_connect, sys_get_info, DnsServers,
};

#[test]
fn static_request_bodies() {
    assert_eq!(
        net_attach(),
        vec![
            2, 1, 0, 2, 4, 0, 0, 0, 0, 2, 4, 0, 0, 0, 0, 2, 4, 0, 0, 0, 0, 2, 4, 0, 0, 0, 0, 2, 2,
            0xff, 0xff, 2, 2, 0xff, 0xff, 2, 4, 0, 0, 0, 0, 2, 4, 0, 0, 0, 0,
        ]
    );
    let zeros = vec![2, 1, 0, 2, 4, 0, 0, 0, 0, 2, 4, 0, 0, 0, 0];
    assert_eq!(get_neg_ip(), zeros);
    assert_eq!(get_neg_dns(), zeros);
    assert_eq!(
        ps_connect(),
        vec![2, 1, 0, 2, 4, 0, 0, 0, 6, 2, 4, 0, 0, 0, 0, 2, 4, 0, 0, 0, 0]
    );
    assert_eq!(
        sys_get_info(3),
        vec![
            2, 4, 0, 0, 0, 0, 0x55, 0, 2, 4, 0, 0, 0, 0, 2, 4, 0, 0, 0, 0, 2, 4, 0, 0, 0, 3,
        ]
    );
}

#[test]
fn datachannel_path_is_nul_terminated_and_padded() {
    let out = connect_to_datachannel("/x").unwrap();
    let mut expected = vec![0x55, 3, 2, 4, 0, 0, 0, 24, 2, 4, 0, 0, 0, 21, b'/', b'x', 0];
    expected.resize(expected.len() + 21, 0);
    assert_eq!(out, expected);
    let long = "/sioscc/PCIE/IOSM/IPS/0/more";
    assert_eq!(
        connect_to_datachannel(long),
        Err(CodecError::StringOverflow { valid: 29, capacity: 24 })
    );
}

#[test]
fn negotiated_addresses() {
    let addresses: Vec<u8> = (1..=12).collect();
    let mut body = asn_int(0).to_vec();
    body.extend_from_slice(&pack("s12", &[Arg::Bytes(&addresses)]).unwrap());
    for _ in 0..4 {
        body.extend_from_slice(&asn_int(0));
    }
    let parsed = parse_neg_ip(&body).unwrap();
    assert_eq!(parsed, [[1, 2, 3, 4], [5, 6, 7, 8], [9, 10, 11, 12]]);

    let mut short = asn_int(0).to_vec();
    short.extend_from_slice(&pack("s8", &[Arg::Bytes(&[1, 2, 3, 4])]).unwrap());
    for _ in 0..4 {
        short.extend_from_slice(&asn_int(0));
    }
    assert_eq!(parse_neg_ip(&short), Err(CodecError::UnexpectedEof));
    assert_eq!(parse_neg_ip(&[]), Err(CodecError::UnexpectedEof));
}

fn dns_body(entries: &[(&[u8], u32)]) -> Vec<u8> {
    let mut body = asn_int(0).to_vec();
    for i in 0..16 {
        let (bytes, kind) = entries.get(i).copied().unwrap_or((&[], 0));
        body.extend_from_slice(&pack("s16", &[Arg::Bytes(bytes)]).unwrap());
        body.extend_from_slice(&asn_int(kind));
    }
    body.extend_from_slice(&asn_int(0));
    body.extend_from_slice(&pack("s0", &[Arg::Bytes(&[])]).unwrap());
    for _ in 0..4 {
        body.extend_from_slice(&asn_int(0));
    }
    body
}

#[test]
fn negotiated_dns_servers() {
    let v6: Vec<u8> = (0..16).collect();
    let body = dns_body(&[(&[8, 8, 8, 8], 1), (&v6, 2), (&[1, 1], 1), (&[9, 9, 9, 9], 3)]);
    let servers = parse_dns(&body).unwrap();
    let mut expected_v6 = [0u8; 16];
    expected_v6.copy_from_slice(&v6);
    assert_eq!(
        servers,
        DnsServers {
            v4: vec![[8, 8, 8, 8]],
            v6: vec![expected_v6],
        }
    );
    assert_eq!(parse_dns(&dns_body(&[])).unwrap(), DnsServers::default());
    assert!(parse_dns(&[0x02]).is_err());
}

#[test]
fn system_information_string() {
    let mut body = asn_int(0).to_vec();
    body.extend_from_slice(&asn_int(1));
    body.extend_from_slice(&pack("s8", &[Arg::Bytes(b"fw-1.0")]).unwrap());
    assert_eq!(parse_sys_info(&body).unwrap(), b"fw-1.0".to_vec());
    assert_eq!(parse_sys_info(&body[..6]), Err(CodecError::UnexpectedEof));
}
