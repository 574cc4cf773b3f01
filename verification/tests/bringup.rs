use xmmrpc::codec::{asn_int, pack_u32, Value};
use xmmrpc::config::{choose_config_file, config_candidates, Cli, FileConfig, Settings};
use xmmrpc::error::Error;
use xmmrpc::transport::Mode;
use xmmrpc::modem::{
    assigned_address, attach_status, check_mode_set_accepted, check_mode_set_result,
    attach_step, connect_setup_body, fcc_answer, fcc_begin, fcc_step, int_at, ip_poll_outcome,
    ready_probe, ready_probe_outcome, reply_format, set_mode_request, AttachStep, FccAction, ATTACH_REFUSED,
    FccStage, CSI_FCC_LOCK_GEN_CHALLENGE_REQ, CSI_FCC_LOCK_QUERY_REQ,
    CSI_FCC_LOCK_VER_CHALLENGE_REQ,
};

fn ints(values: &[u32]) -> Vec<u8> {
    let mut out = Vec::new();
    for v in values {
        out.extend_from_slice(&asn_int(*v));
    }
    out
}

#[test]
fn exit_codes() {
    assert_eq!(Error::AttachRefused.exit_code(), 2);
    assert_eq!(Error::NoIp.exit_code(), 2);
    assert_eq!(Error::Timeout.exit_code(), 1);
    assert_eq!(Error::FccUnlock.exit_code(), 1);
    assert_eq!(Error::netlink("x".to_string()).exit_code(), 1);
}

#[test]
fn fcc_answer_is_sha256_of_challenge_and_key() {
    assert_eq!(fcc_answer(0), 0x6461_deef);
    assert_eq!(fcc_answer(0x1234_5678), 0x401c_f881);
}

#[test]
fn fcc_unlock_sequence() {
    match fcc_begin() {
        FccAction::Send { command, body, stage } => {
            assert_eq!(command, CSI_FCC_LOCK_QUERY_REQ);
            assert_eq!(body, pack_u32(0));
            assert_eq!(stage, FccStage::Status);
        }
        FccAction::Done => panic!("the unlock starts with a query"),
    }
    // Unlocked already, or no lock mode.
    assert!(matches!(fcc_step(FccStage::Status, &ints(&[0, 1, 1])), Ok(FccAction::Done)));
    assert!(matches!(fcc_step(FccStage::Status, &ints(&[0, 0, 0])), Ok(FccAction::Done)));
    // Locked: ask for a challenge.
    match fcc_step(FccStage::Status, &ints(&[0, 0, 1])).unwrap() {
        FccAction::Send { command, body, stage } => {
            assert_eq!(command, CSI_FCC_LOCK_GEN_CHALLENGE_REQ);
            assert_eq!(body, pack_u32(0));
            assert_eq!(stage, FccStage::Challenge);
        }
        FccAction::Done => panic!("a locked modem needs a challenge"),
    }
    match fcc_step(FccStage::Challenge, &ints(&[0, 0x1234_5678])).unwrap() {
        FccAction::Send { command, body, stage } => {
            assert_eq!(command, CSI_FCC_LOCK_VER_CHALLENGE_REQ);
            assert_eq!(body, pack_u32(0x401c_f881));
            assert_eq!(stage, FccStage::Verdict);
        }
        FccAction::Done => panic!("a challenge needs an answer"),
    }
    assert!(matches!(fcc_step(FccStage::Verdict, &ints(&[1])), Ok(FccAction::Done)));
    assert!(matches!(fcc_step(FccStage::Verdict, &ints(&[0])), Err(Error::FccUnlock)));
    assert!(matches!(fcc_step(FccStage::Verdict, &[]), Err(Error::Codec(_))));
}

#[test]
fn mode_set() {
    assert_eq!(set_mode_request(1), ints(&[0, 15, 1]));
    assert!(check_mode_set_accepted(&[Value::Int(0)]).is_ok());
    assert!(matches!(check_mode_set_accepted(&[Value::Int(3)]), Err(Error::Protocol(_))));
    assert!(matches!(check_mode_set_accepted(&[]), Err(Error::Protocol(_))));
    assert!(check_mode_set_result(&[Value::Int(1)], 1).is_ok());
    assert!(matches!(check_mode_set_result(&[Value::Int(4)], 1), Err(Error::Protocol(_))));
}

#[test]
fn integers_by_position() {
    let values = [Value::Int(4), Value::Bytes(vec![1])];
    assert_eq!(int_at(&values, 0).unwrap(), 4);
    match int_at(&values, 1) {
        Err(Error::Protocol(message)) => assert_eq!(message, "expected an integer at position 1"),
        other => panic!("unexpected {other:?}"),
    }
    assert!(matches!(int_at(&values, 2), Err(Error::Protocol(_))));
}

#[test]
fn attach_status_is_the_second_integer() {
    assert_eq!(attach_status(&ints(&[0, u32::MAX])).unwrap(), u32::MAX);
    assert_eq!(attach_status(&ints(&[0, 3])).unwrap(), 3);
    assert!(matches!(attach_status(&ints(&[0])), Err(Error::Codec(_))));
}

#[test]
fn last_nonzero_candidate_is_the_address() {
    assert_eq!(
        assigned_address(&[[32, 1, 13, 184], [10, 0, 0, 1], [0, 0, 0, 0]]),
        Some([10, 0, 0, 1])
    );
    assert_eq!(
        assigned_address(&[[1, 2, 3, 4], [5, 6, 7, 8], [9, 9, 9, 9]]),
        Some([9, 9, 9, 9])
    );
    assert_eq!(assigned_address(&[[0; 4]; 3]), None);
}

#[test]
fn connect_setup_joins_the_two_replies() {
    let ps = [9u8, 9, 2, 4, 0, 0, 0, 7];
    let setup = connect_setup_body(&ps, &[5, 5]).unwrap();
    assert_eq!(setup, vec![9, 9, 5, 5, 2, 4, 0, 0, 0, 0]);
    assert!(matches!(connect_setup_body(&[1, 2], &[]), Err(Error::Protocol(_))));
}

fn empty_cli() -> Cli {
    Cli {
        config: None,
        apn: None,
        interface: None,
        rpc_port: None,
        default_route: None,
        metric: None,
        ip_fetch_interval: None,
        ip_wait: None,
        write_resolv: None,
        resolv_conf: None,
        datachannel_path: None,
        version: false,
    }
}

#[test]
fn settings_take_the_command_line_then_the_file_then_defaults() {
    let mut cli = empty_cli();
    cli.apn = Some("internet".to_string());
    cli.metric = Some(5);
    let mut file = FileConfig::default();
    file.metric = Some(7);
    file.interface = Some("wwan1".to_string());
    file.write_resolv = Some(false);
    let settings = Settings::resolve(&cli, file).unwrap();
    assert_eq!(settings.apn, "internet");
    assert_eq!(settings.metric, 5);
    assert_eq!(settings.interface, "wwan1");
    assert!(!settings.write_resolv);
    assert!(settings.default_route);
    assert_eq!(settings.rpc_port, "/dev/wwan0xmmrpc0");
    assert_eq!(settings.ip_fetch_interval, 1);
    assert_eq!(settings.ip_wait, 120);
    assert_eq!(settings.resolv_conf, "/etc/resolv.conf");
    assert_eq!(settings.datachannel_path, "/sioscc/PCIE/IOSM/IPS/0");
}

#[test]
fn settings_need_a_nonempty_apn() {
    let cli = empty_cli();
    assert!(matches!(Settings::resolve(&cli, FileConfig::default()), Err(Error::Config(_))));
    let mut cli = empty_cli();
    cli.apn = Some(String::new());
    let mut file = FileConfig::default();
    file.apn = Some("ignored".to_string());
    assert!(matches!(Settings::resolve(&cli, file), Err(Error::Config(_))));
    let mut file = FileConfig::default();
    file.apn = Some("from-file".to_string());
    assert_eq!(Settings::resolve(&empty_cli(), file).unwrap().apn, "from-file");
}

#[test]
fn explicit_config_file_wins() {
    let candidates = vec![("a".to_string(), false), ("b".to_string(), true), ("c".to_string(), true)];
    assert_eq!(choose_config_file(Some("x".to_string()), &candidates), Some("x".to_string()));
    assert_eq!(choose_config_file(None, &candidates), Some("b".to_string()));
    assert_eq!(choose_config_file(None, &candidates[..1]), None);
}

#[test]
fn readiness_probe_outcomes() {
    assert!(matches!(ready_probe_outcome(Ok(()), true), Ok(true)));
    assert!(matches!(ready_probe_outcome(Err(Error::Timeout), false), Ok(false)));
    assert!(matches!(ready_probe_outcome(Err(Error::Timeout), true), Err(Error::Timeout)));
    assert!(matches!(
        ready_probe_outcome(Err(Error::FccUnlock), false),
        Err(Error::FccUnlock)
    ));
}

#[test]
fn readiness_probe_request() {
    let probe = ready_probe();
    assert_eq!(probe.command, CSI_FCC_LOCK_QUERY_REQ);
    assert_eq!(probe.body, asn_int(0).to_vec());
    assert_eq!(probe.mode, Mode::Async);
}

#[test]
fn attach_refusal_is_retried_once() {
    assert!(matches!(attach_step(0, false), Ok(AttachStep::Attached)));
    assert!(matches!(attach_step(7, true), Ok(AttachStep::Attached)));
    assert!(matches!(attach_step(ATTACH_REFUSED, false), Ok(AttachStep::AwaitPermission)));
    match attach_step(ATTACH_REFUSED, true) {
        Err(error) => {
            assert!(matches!(error, Error::AttachRefused));
            assert_eq!(error.exit_code(), 2);
        }
        other => panic!("unexpected {other:?}"),
    }
}

#[test]
fn address_polling_until_the_deadline() {
    let none = [[0u8; 4]; 3];
    assert!(matches!(ip_poll_outcome(&none, false), Ok(None)));
    match ip_poll_outcome(&none, true) {
        Err(error) => {
            assert!(matches!(error, Error::NoIp));
            assert_eq!(error.exit_code(), 2);
        }
        other => panic!("unexpected {other:?}"),
    }
    let some = [[10, 0, 0, 1], [10, 0, 0, 2], [0, 0, 0, 0]];
    assert_eq!(ip_poll_outcome(&some, true).unwrap(), Some([10, 0, 0, 2]));
    assert_eq!(ip_poll_outcome(&some, false).unwrap(), Some([10, 0, 0, 2]));
}

#[test]
fn configuration_file_search_order() {
    let paths = config_candidates(Some("/work/xmmrpc.toml".to_owned()));
    assert_eq!(paths, vec!["/work/xmmrpc.toml".to_owned(), "/etc/xmmrpc.toml".to_owned()]);
    assert_eq!(config_candidates(None), vec!["/etc/xmmrpc.toml".to_owned()]);
    let candidates = vec![(paths[0].clone(), false), (paths[1].clone(), true)];
    assert_eq!(choose_config_file(None, &candidates), Some("/etc/xmmrpc.toml".to_owned()));
}

#[test]
fn mode_set_replies_without_an_integer() {
    for reply in [check_mode_set_accepted(&[]), check_mode_set_result(&[Value::Bytes(vec![1])], 1)] {
        match reply {
            Err(Error::Protocol(message)) => {
                assert_eq!(message, "expected an integer at position 0")
            }
            other => panic!("unexpected {other:?}"),
        }
    }
}

#[test]
fn fcc_reply_formats() {
    assert_eq!(reply_format(FccStage::Status), "nnn");
    assert_eq!(reply_format(FccStage::Challenge), "nn");
    assert_eq!(reply_format(FccStage::Verdict), "n");
}
