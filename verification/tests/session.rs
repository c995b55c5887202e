use flowstation::config::CfgDapnet;
use flowstation::message::rwth_line_id;
use flowstation::session::{
    core_address, handle_rwth_line, handle_rwth_message, login_line, read_step, LineAction,
    ReadEvent, ReadStep,
};

fn settings() -> CfgDapnet {
    CfgDapnet {
        enabled: true,
        api_url: String::new(),
        poll_interval_secs: 10,
        forward_sds: false,
        forward_callout: false,
        forward_telegram: false,
        sds_source_issi: 0,
        sds_dest_issi: 0,
        sds_dest_is_group: false,
        callout_source_issi: 0,
        callout_dest_issi: 0,
        callout_incident_base: 1,
        callout_text_prefix: String::new(),
        telegram_prefix: String::new(),
        rwth_core_enabled: true,
        rwth_core_host: " core.example ".to_string(),
        rwth_core_port: 43434,
        rwth_core_device: " ".to_string(),
        rwth_core_version: "2.1".to_string(),
        rwth_core_callsign: " DL1ABC ".to_string(),
        rwth_core_authkey: " KeY ".to_string(),
        messages_limit: 100,
    }
}

fn reply_of(line: &str) -> Option<String> {
    let mut logged_in = false;
    match handle_rwth_line(line, &mut logged_in) {
        LineAction::Reply(reply) => Some(reply),
        LineAction::Refuse { reply, .. } => Some(reply),
        LineAction::Deliver { reply, .. } => Some(reply),
        _ => None,
    }
}

#[test]
fn address_and_missing_settings() {
    let mut cfg = settings();
    assert_eq!(core_address(&cfg), Ok("core.example:43434".to_string()));
    cfg.rwth_core_authkey = " ".to_string();
    assert_eq!(core_address(&cfg), Err("RWTH core authkey is empty".to_string()));
    cfg.rwth_core_callsign = String::new();
    assert_eq!(core_address(&cfg), Err("RWTH core callsign is empty".to_string()));
    cfg.rwth_core_host = "\t".to_string();
    assert_eq!(core_address(&cfg), Err("RWTH core host is empty".to_string()));
}

#[test]
fn login() {
    let mut cfg = settings();
    assert_eq!(login_line(&cfg), "[FlowStation v2.1 dl1abc KeY]\r\n");
    cfg.rwth_core_device = " Box ".to_string();
    cfg.rwth_core_version = String::new();
    assert_eq!(login_line(&cfg), "[Box v1.0 dl1abc KeY]\r\n");
}

#[test]
fn read_steps() {
    match read_step(&ReadEvent::Line("#00 x\r\n\r".to_string())) {
        ReadStep::Handle(line) => assert_eq!(line, "#00 x"),
        _ => panic!("a line is handled"),
    }
    assert!(matches!(read_step(&ReadEvent::Line("\r\n".to_string())), ReadStep::Again));
    assert!(matches!(read_step(&ReadEvent::Idle), ReadStep::Again));
    match read_step(&ReadEvent::Closed) {
        ReadStep::Stop(reason) => assert_eq!(reason, "RWTH core closed connection"),
        _ => panic!("a closed connection is given up"),
    }
    match read_step(&ReadEvent::Failed("broken".to_string())) {
        ReadStep::Stop(reason) => assert_eq!(reason, "read failed: broken"),
        _ => panic!("a broken connection is given up"),
    }
}

#[test]
fn greeting_logs_in() {
    let mut logged_in = false;
    assert!(matches!(handle_rwth_line("3:time", &mut logged_in), LineAction::Reply(_)));
    assert!(!logged_in);
    match handle_rwth_line("2:1A2B", &mut logged_in) {
        LineAction::Reply(reply) => assert_eq!(reply, "2:1A2B:0000\r\n+\r\n"),
        _ => panic!("a greeting is answered"),
    }
    assert!(logged_in);
    assert!(matches!(handle_rwth_line("+", &mut logged_in), LineAction::Ignore));
    assert!(logged_in);
}

#[test]
fn kinds_of_lines() {
    let mut logged_in = false;
    assert!(matches!(handle_rwth_line("+ok", &mut logged_in), LineAction::Ignore));
    assert!(matches!(handle_rwth_line("-bad", &mut logged_in), LineAction::CoreError));
    assert_eq!(reply_of("3:0012"), Some("+\r\n".to_string()));
    match handle_rwth_line("4:0123", &mut logged_in) {
        LineAction::Schedule(schedule) => assert_eq!(schedule, "0123"),
        _ => panic!("a schedule is taken"),
    }
    match handle_rwth_line("7:no", &mut logged_in) {
        LineAction::Reject(reason) => assert_eq!(reason, "login rejected by RWTH core: 7:no"),
        _ => panic!("a rejected login ends the connection"),
    }
    match handle_rwth_line("4x", &mut logged_in) {
        LineAction::Refuse { reply, reason } => {
            assert_eq!(reply, "-\r\n");
            assert_eq!(reason, "unknown RWTH core message type '4x'");
        }
        _ => panic!("an unknown line is refused"),
    }
    assert_eq!(reply_of(""), Some("-\r\n".to_string()));
    assert!(!logged_in);
}

#[test]
fn messages_are_acknowledged_with_the_next_id() {
    match handle_rwth_message("#FF 6:1:3EC:3:hello") {
        LineAction::Deliver { reply, message } => {
            assert_eq!(reply, "#00 +\r\n");
            assert_eq!(message.text, "hello");
            assert!(message.timestamp.ends_with("+00:00"));
        }
        _ => panic!("a message is delivered"),
    }
    match handle_rwth_message("#09 6:1:3EC:3:") {
        LineAction::Refuse { reply, reason } => {
            assert_eq!(reply, "#0A -\r\n");
            assert_eq!(reason, "malformed RWTH core message: empty message text");
        }
        _ => panic!("an empty message is refused"),
    }
    match handle_rwth_message("#xy 6:1:3EC:3:a") {
        LineAction::Refuse { reply, reason } => {
            assert_eq!(reply, "-\r\n");
            assert_eq!(reason, "malformed RWTH core message without valid id");
        }
        _ => panic!("a message without id is refused"),
    }
    for id in 0..=255u8 {
        let reply = reply_of(&format!("#{id:02X} 6:1:3EC:3:a")).unwrap();
        assert_eq!(rwth_line_id(&reply), Some(id.wrapping_add(1)));
    }
}
