use flowstation::config::DapnetRuntimeOverride;
use flowstation::dashboard::{
    backup_path, dapnet_section, mask_secret, rewrite_dapnet_section, toml_escape,
};
use flowstation::rf_test::{apply_rf_test_patch, CfgRfTest, CfgRfTestDto};

fn settings() -> DapnetRuntimeOverride {
    DapnetRuntimeOverride {
        enabled: true,
        api_url: "http://x/\"y\"".to_string(),
        username: "u\\v".to_string(),
        password: "p".to_string(),
        poll_interval_secs: 0,
        forward_sds: true,
        forward_callout: false,
        forward_telegram: true,
        sds_source_issi: 1,
        sds_dest_issi: 2,
        sds_dest_is_group: false,
        callout_source_issi: 3,
        callout_dest_issi: 4,
        callout_incident_base: 300,
        callout_text_prefix: "pre".to_string(),
        telegram_prefix: "tg".to_string(),
        rwth_core_enabled: true,
        rwth_core_host: "h".to_string(),
        rwth_core_port: 43434,
        rwth_core_device: "d".to_string(),
        rwth_core_version: "v".to_string(),
        rwth_core_callsign: "c".to_string(),
        rwth_core_authkey: "k".to_string(),
        rwth_messages_limit: 0,
    }
}

const SECTION: &str = "[dapnet]
enabled = true
api_url = \"http://x/\\\"y\\\"\"
username = \"u\\\\v\"
password = \"p\"
poll_interval_secs = 1

forward_sds = true
forward_callout = false
forward_telegram = true

sds_source_issi = 1
sds_dest_issi = 2
sds_dest_is_group = false

callout_source_issi = 3
callout_dest_issi = 4
callout_incident_base = 256
callout_text_prefix = \"pre\"

telegram_prefix = \"tg\"

rwth_core_enabled = true
rwth_core_host = \"h\"
rwth_core_port = 43434
rwth_core_device = \"d\"
rwth_core_version = \"v\"
rwth_core_callsign = \"c\"
rwth_core_authkey = \"k\"
rwth_messages_limit = 1";

#[test]
fn section_holds_the_settings() {
    assert_eq!(dapnet_section(&settings()), SECTION);
}

#[test]
fn section_is_toml() {
    let mut ov = settings();
    ov.poll_interval_secs = 60;
    ov.rwth_messages_limit = 20;
    ov.callout_incident_base = 7;
    let file: toml::Value = dapnet_section(&ov).parse().unwrap();
    let section = file.get("dapnet").unwrap();
    assert_eq!(section.get("api_url").unwrap().as_str(), Some("http://x/\"y\""));
    assert_eq!(section.get("username").unwrap().as_str(), Some("u\\v"));
    assert_eq!(section.get("poll_interval_secs").unwrap().as_integer(), Some(60));
    assert_eq!(section.get("callout_incident_base").unwrap().as_integer(), Some(7));
    assert_eq!(section.get("rwth_messages_limit").unwrap().as_integer(), Some(20));
    assert_eq!(section.get("forward_callout").unwrap().as_bool(), Some(false));
}

#[test]
fn section_is_replaced() {
    let original = "a = 1\r\n\n  [dapnet] # old\nenabled = false\n[ not a section\n\n[other]\nb = 2\n";
    let expected = format!("a = 1\r\n\n{SECTION}\n[other]\nb = 2\n");
    assert_eq!(rewrite_dapnet_section(original, &settings()), expected);
}

#[test]
fn section_is_replaced_at_the_end() {
    let original = "[other]\nb = 2\n[dapnet]\nenabled = false";
    let expected = format!("[other]\nb = 2\n{SECTION}");
    assert_eq!(rewrite_dapnet_section(original, &settings()), expected);
}

#[test]
fn every_section_is_replaced() {
    let original = "[dapnet]\nx = 1\n[dapnet]\ny = 2\n";
    let expected = format!("{SECTION}\n{SECTION}\n");
    assert_eq!(rewrite_dapnet_section(original, &settings()), expected);
}

#[test]
fn section_is_added() {
    let ov = settings();
    assert_eq!(rewrite_dapnet_section("", &ov), SECTION);
    assert_eq!(rewrite_dapnet_section("\n", &ov), format!("\n{SECTION}\n"));
    assert_eq!(rewrite_dapnet_section("a = 1", &ov), format!("a = 1\n\n{SECTION}"));
    assert_eq!(rewrite_dapnet_section("a = 1\n\n", &ov), format!("a = 1\n\n{SECTION}\n"));
}

#[test]
fn last_write_wins() {
    let mut second = settings();
    second.rwth_core_host = "elsewhere".to_string();
    for original in ["", "\n", "a = 1", "a = 1\n[dapnet]\nx\n\n[b]\nc\n", "[dapnet]", "x\r\n[y]\r\n", "x\r\r\n"] {
        let once = rewrite_dapnet_section(original, &second);
        let twice = rewrite_dapnet_section(&rewrite_dapnet_section(original, &settings()), &second);
        assert_eq!(once, twice);
        assert_eq!(rewrite_dapnet_section(&once, &second), once);
    }
}

#[test]
fn line_ends_are_kept() {
    let ov = settings();
    let original = "[a]\r\nx = 1\r\n";
    let added = rewrite_dapnet_section(original, &ov);
    assert_eq!(added, format!("[a]\r\nx = 1\r\n\n{SECTION}\n"));
    assert!(added.starts_with(original));
    assert_eq!(
        rewrite_dapnet_section("x\r\n[dapnet]\r\ny\r\n[b]\r\nz", &ov),
        format!("x\r\n{SECTION}\n[b]\r\nz")
    );
    assert_eq!(rewrite_dapnet_section("x\r\n\r\n", &ov), format!("x\r\n\r\n{SECTION}\n"));
    assert_eq!(rewrite_dapnet_section("x\r\r\n", &ov), format!("x\r\r\n\n{SECTION}\n"));
    assert_eq!(rewrite_dapnet_section("\r", &ov), format!("\r\n\n{SECTION}"));
    assert_eq!(rewrite_dapnet_section("[dapnet]\r\ny\r\n", &ov), format!("{SECTION}\n"));
}

#[test]
fn parts_between_sections_are_kept() {
    let original = "a\r\n\n[dapnet]\nx\n[b]\r\nc\n [dapnet] \ny\n[d]\n";
    let expected = format!("a\r\n\n{SECTION}\n[b]\r\nc\n{SECTION}\n[d]\n");
    assert_eq!(rewrite_dapnet_section(original, &settings()), expected);
}

#[test]
fn settings_are_read_back() {
    let mut ov = settings();
    ov.password = "tab\there \\ \"q\" = [x] # y ä".to_string();
    ov.poll_interval_secs = i64::MAX as u64;
    let original = "[a]\r\nx = 1\r\n[dapnet]\r\nold = true\r\n[b]\r\ny = 2\r\n";
    let file: toml::Value = rewrite_dapnet_section(original, &ov).parse().unwrap();
    assert_eq!(file.get("a").unwrap().get("x").unwrap().as_integer(), Some(1));
    assert_eq!(file.get("b").unwrap().get("y").unwrap().as_integer(), Some(2));
    let table = file.get("dapnet").unwrap().as_table().unwrap();
    assert_eq!(table.len(), 24);
    let flag = |key: &str| table.get(key).unwrap().as_bool().unwrap();
    let number = |key: &str| table.get(key).unwrap().as_integer().unwrap();
    let text = |key: &str| table.get(key).unwrap().as_str().unwrap().to_string();
    assert_eq!(flag("enabled"), ov.enabled);
    assert_eq!(text("api_url"), ov.api_url);
    assert_eq!(text("username"), ov.username);
    assert_eq!(text("password"), ov.password);
    assert_eq!(number("poll_interval_secs"), i64::MAX);
    assert_eq!(flag("forward_sds"), ov.forward_sds);
    assert_eq!(flag("forward_callout"), ov.forward_callout);
    assert_eq!(flag("forward_telegram"), ov.forward_telegram);
    assert_eq!(number("sds_source_issi"), 1);
    assert_eq!(number("sds_dest_issi"), 2);
    assert_eq!(flag("sds_dest_is_group"), ov.sds_dest_is_group);
    assert_eq!(number("callout_source_issi"), 3);
    assert_eq!(number("callout_dest_issi"), 4);
    assert_eq!(number("callout_incident_base"), 256);
    assert_eq!(text("callout_text_prefix"), ov.callout_text_prefix);
    assert_eq!(text("telegram_prefix"), ov.telegram_prefix);
    assert_eq!(flag("rwth_core_enabled"), ov.rwth_core_enabled);
    assert_eq!(text("rwth_core_host"), ov.rwth_core_host);
    assert_eq!(number("rwth_core_port"), 43434);
    assert_eq!(text("rwth_core_device"), ov.rwth_core_device);
    assert_eq!(text("rwth_core_version"), ov.rwth_core_version);
    assert_eq!(text("rwth_core_callsign"), ov.rwth_core_callsign);
    assert_eq!(text("rwth_core_authkey"), ov.rwth_core_authkey);
    assert_eq!(number("rwth_messages_limit"), 1);
}

#[test]
fn backup_stands_beside_the_file() {
    assert_eq!(backup_path("/etc/station.toml"), "/etc/station.toml.dapnet.bak");
}

#[test]
fn escaping() {
    assert_eq!(toml_escape("a\"b\\c"), "a\\\"b\\\\c");
    assert_eq!(toml_escape(""), "");
    for s in ["", "\\", "\"", "\\\"", "x\\\\\"y", "ä"] {
        assert_eq!(toml_escape(s), s.replace('\\', "\\\\").replace('"', "\\\""));
        let line = format!("v = \"{}\"", toml_escape(s));
        let file: toml::Value = line.parse().unwrap();
        assert_eq!(file.get("v").unwrap().as_str(), Some(s));
    }
}

#[test]
fn masking() {
    assert_eq!(mask_secret(""), "");
    assert_eq!(mask_secret("  \t"), "");
    assert_eq!(mask_secret(" abc "), "•••");
    assert_eq!(mask_secret("0123456789"), "••••••••••");
    assert_eq!(mask_secret("0123456789a"), "0123…789a");
    assert_eq!(mask_secret("öäüß-secret-öäüß"), "öäüß…öäüß");
    assert_eq!(mask_secret("abcd1111111wxyz"), mask_secret("abcd222222222wxyz"));
}

#[test]
fn rf_test_settings() {
    assert_eq!(CfgRfTest::default().local_echo_carrier, None);
    let mut dto = CfgRfTestDto::default();
    assert!(dto.extra.is_empty());
    assert_eq!(apply_rf_test_patch(dto.clone()).local_echo_carrier, None);
    dto.local_echo_carrier = Some(7);
    dto.extra.insert("unknown".to_string(), toml::Value::Boolean(true));
    assert_eq!(apply_rf_test_patch(dto).local_echo_carrier, Some(7));
}
