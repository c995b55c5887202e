use flowstation::config::{clamp_incident, CfgDapnet};
use flowstation::message::{parse_rwth_message, rwth_message, DapnetMessage, RwthFields};
use flowstation::worker::{
    callout_command, forward_message, forward_sds, forward_targets, forward_telegram, sds_command,
    ControlCommand, DapnetWorker, Delivery, ForwardResults, ForwardTarget, PollAction,
};

fn settings() -> CfgDapnet {
    CfgDapnet {
        enabled: true,
        api_url: String::new(),
        poll_interval_secs: 10,
        forward_sds: true,
        forward_callout: true,
        forward_telegram: true,
        sds_source_issi: 11,
        sds_dest_issi: 12,
        sds_dest_is_group: true,
        callout_source_issi: 21,
        callout_dest_issi: 22,
        callout_incident_base: 5,
        callout_text_prefix: "DAPNET".to_string(),
        telegram_prefix: "P".to_string(),
        rwth_core_enabled: true,
        rwth_core_host: String::new(),
        rwth_core_port: 0,
        rwth_core_device: String::new(),
        rwth_core_version: String::new(),
        rwth_core_callsign: String::new(),
        rwth_core_authkey: String::new(),
        messages_limit: 2,
    }
}

fn message(id: &str, msg_type: u8, text: &str) -> DapnetMessage {
    let fields = RwthFields {
        msg_id: 1,
        body: String::new(),
        msg_type,
        speed: None,
        ric: None,
        function: None,
        text: text.to_string(),
        recipient: "R".to_string(),
        callsign: "DL1ABC".to_string(),
    };
    rwth_message(fields, id, "t".to_string())
}

#[test]
fn duplicates_are_not_forwarded() {
    let mut w = DapnetWorker::new(&settings());
    let m = message("a", 6, "x");
    assert_eq!(w.accept_message(&m, 2), Delivery::Forward);
    assert_eq!(w.accept_message(&m, 2), Delivery::Duplicate);
    assert_eq!(w.accept_message(&message("b", 5, "x"), 2), Delivery::NotText);
    assert_eq!(w.accept_message(&message("b", 6, "x"), 2), Delivery::Forward);
    assert_eq!(w.accept_message(&m, 2), Delivery::Duplicate);
    assert_eq!(w.accept_message(&message("c", 6, "x"), 2), Delivery::Forward);
    assert_eq!(w.accept_message(&m, 2), Delivery::Forward);
}

#[test]
fn the_last_ids_are_remembered() {
    let mut w = DapnetWorker::new(&settings());
    for id in ["1", "2", "3", "4"] {
        assert!(w.remember_seen(id, 3));
    }
    assert!(!w.remember_seen("2", 3));
    assert!(!w.remember_seen("4", 3));
    assert!(w.remember_seen("1", 3));
    assert!(!w.remember_seen("3", 3));
    assert!(w.remember_seen("5", 1));
    assert!(w.remember_seen("4", 1));
}

#[test]
fn a_line_is_forwarded_once() {
    let mut w = DapnetWorker::new(&settings());
    let line = "#3C 6:1:3EC:3:Alarm";
    assert_eq!(w.accept_message(&parse_rwth_message(line).unwrap(), 1), Delivery::Forward);
    assert_eq!(w.accept_message(&parse_rwth_message(line).unwrap(), 1), Delivery::Duplicate);
    let other = "#3D 6:1:3EC:3:Alarm";
    assert_eq!(w.accept_message(&parse_rwth_message(other).unwrap(), 1), Delivery::Forward);
}

#[test]
fn repeats_do_not_push_an_id_out() {
    let mut w = DapnetWorker::new(&settings());
    assert!(w.remember_seen("a", 3));
    assert!(w.remember_seen("b", 3));
    for _ in 0..5 {
        assert!(!w.remember_seen("b", 3));
        assert!(!w.remember_seen("a", 3));
    }
    assert!(w.remember_seen("c", 3));
    assert!(!w.remember_seen("a", 3));
    assert!(w.remember_seen("d", 3));
    assert!(w.remember_seen("a", 3));
}

#[test]
fn nothing_is_remembered_without_room() {
    let mut w = DapnetWorker::new(&settings());
    assert!(w.remember_seen("a", 0));
    assert!(w.remember_seen("a", 0));
}

#[test]
fn incidents_go_round() {
    let mut cfg = settings();
    cfg.callout_incident_base = 255;
    let mut w = DapnetWorker::new(&cfg);
    assert_eq!(w.next_incident(), 255);
    assert_eq!(w.next_incident(), 256);
    for n in 1..=256u16 {
        assert_eq!(w.next_incident(), n);
    }
    assert_eq!(w.next_incident(), 1);
    cfg.callout_incident_base = 0;
    assert_eq!(DapnetWorker::new(&cfg).next_incident(), 1);
    cfg.callout_incident_base = 999;
    assert_eq!(DapnetWorker::new(&cfg).next_incident(), 256);
    assert_eq!(clamp_incident(0), 1);
    assert_eq!(clamp_incident(256), 256);
    assert_eq!(clamp_incident(257), 256);
}

#[test]
fn polls_find_changes() {
    let mut cfg = settings();
    let mut w = DapnetWorker::new(&cfg);
    let step = w.poll(&cfg);
    assert_eq!(step.action, PollAction::Receive);
    assert!(step.changed);
    assert!(!step.no_target);
    assert_eq!(step.sleep_secs, 10);
    assert_eq!(w.next_incident(), 5);
    assert!(!w.poll(&cfg).changed);
    assert_eq!(w.next_incident(), 6);
    cfg.callout_incident_base = 9;
    assert!(!w.poll(&cfg).changed);
    assert_eq!(w.next_incident(), 9);
    cfg.enabled = false;
    let step = w.poll(&cfg);
    assert_eq!(step.action, PollAction::Disabled);
    assert!(step.changed);
    assert_eq!(w.next_incident(), 10);
    cfg.enabled = true;
    cfg.rwth_core_enabled = false;
    cfg.forward_sds = false;
    cfg.forward_callout = false;
    cfg.forward_telegram = false;
    let step = w.poll(&cfg);
    assert_eq!(step.action, PollAction::NoReceiver);
    assert!(step.changed);
    assert!(step.no_target);
    assert_eq!(w.next_incident(), 9);
    assert!(!w.poll(&cfg).no_target);
}

#[test]
fn sds() {
    let mut cfg = settings();
    let m = message("a", 6, " hi ");
    assert_eq!(forward_sds(&cfg, &m, true), Ok("DL1ABC - hi".to_string()));
    assert_eq!(forward_sds(&cfg, &m, false), Err("CMCE control sender unavailable".to_string()));
    match sds_command(&cfg, 16, vec![1, 2]) {
        ControlCommand::SendSds { handle, source_ssi, dest_ssi, dest_is_group, len_bits, payload } => {
            assert_eq!((handle, source_ssi, dest_ssi, dest_is_group), (0, 11, 12, true));
            assert_eq!((len_bits, payload), (16, vec![1, 2]));
        }
        _ => panic!("an SDS is sent as such"),
    }
    cfg.sds_dest_issi = 0;
    assert_eq!(forward_sds(&cfg, &m, false), Err("sds_dest_issi is 0".to_string()));
}

#[test]
fn callout() {
    let mut cfg = settings();
    let mut w = DapnetWorker::new(&cfg);
    let m = message("a", 6, " hi ");
    assert_eq!(
        w.forward_callout(&cfg, &m, false).unwrap_err(),
        "CMCE control sender unavailable"
    );
    let job = w.forward_callout(&cfg, &m, true).unwrap();
    assert_eq!((job.incident, job.text.as_str(), job.truncated), (5, "DAPNET hi", false));
    let job = w.forward_callout(&cfg, &message("b", 6, &"x".repeat(100)), true).unwrap();
    assert_eq!((job.incident, job.truncated), (6, true));
    assert_eq!(job.text, format!("DAPNET {}", "x".repeat(73)));
    cfg.callout_dest_issi = 0;
    assert_eq!(w.forward_callout(&cfg, &m, true).unwrap_err(), "callout_dest_issi is 0");
    assert_eq!(w.next_incident(), 7);
}

#[test]
fn callout_payloads() {
    let cfg = settings();
    match callout_command(&cfg, vec![7; 8191]) {
        Ok(ControlCommand::SendRawSdsType4 {
            handle,
            source_ssi,
            dest_ssi,
            dest_is_group,
            len_bits,
            payload,
        }) => {
            assert_eq!((handle, source_ssi, dest_ssi, dest_is_group), (0, 21, 22, false));
            assert_eq!((len_bits, payload.len()), (65528, 8191));
        }
        _ => panic!("a payload that fits is sent raw"),
    }
    assert_eq!(
        callout_command(&cfg, vec![7; 8192]).unwrap_err(),
        "payload too large (8192 bytes)"
    );
}

#[test]
fn telegram() {
    let cfg = settings();
    let m = message("a", 6, "hi");
    let alert = forward_telegram(&cfg, &m, true).unwrap();
    assert_eq!((alert.prefix, alert.callsign, alert.text), ("P".into(), "DL1ABC".into(), "hi".into()));
    assert_eq!(
        forward_telegram(&cfg, &m, false).unwrap_err(),
        "Telegram alerter unavailable"
    );
}

#[test]
fn reports() {
    let mut cfg = settings();
    let m = message("a", 6, "hi");
    assert_eq!(
        forward_targets(&cfg),
        vec![ForwardTarget::Sds, ForwardTarget::Callout, ForwardTarget::Telegram]
    );
    let all = ForwardResults { sds: true, callout: true, telegram: true };
    let log = forward_message(&cfg, &m, all);
    assert_eq!(log.paths, vec!["sds", "callout", "telegram"]);
    assert_eq!(log.direction, "rx");
    assert_eq!((log.id, log.callsign), (m.id.clone(), m.callsign.clone()));
    assert_eq!((log.recipient, log.text), (m.recipient.clone(), m.text.clone()));
    assert_eq!(log.priority, None);
    cfg.forward_callout = false;
    assert_eq!(forward_targets(&cfg), vec![ForwardTarget::Sds, ForwardTarget::Telegram]);
    assert_eq!(forward_message(&cfg, &m, all).paths, vec!["sds", "telegram"]);
    let none = ForwardResults { sds: false, callout: true, telegram: false };
    assert!(forward_message(&cfg, &m, none).paths.is_empty());
}
