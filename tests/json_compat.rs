use serde_json::Value;
use yakv::command::Command;
use yakv::protocol::{decode_command, Response};

const TRICKY: &str = "q\"b\\s/\n\r\t\u{8}\u{c}\u{1}\u{1f}\u{7f} é ключ 🎉";

#[test]
fn text_literals_match_serde_json() {
    for s in ["", "plain", TRICKY] {
        let mut ours = Vec::new();
        yakv::json::write_text(&mut ours, s);
        assert_eq!(ours, serde_json::to_vec(s).unwrap());
    }
}

#[test]
fn serde_json_reads_our_commands() {
    let bytes = Command::set(TRICKY.to_string(), "v".to_string()).encode();
    let v: Value = serde_json::from_slice(&bytes).unwrap();
    let inner = v.get("Set").unwrap();
    assert_eq!(inner.get("key").unwrap().as_str().unwrap(), TRICKY);
    assert_eq!(inner.get("value").unwrap().as_str().unwrap(), "v");
    let rm: Value = serde_json::from_slice(&Command::remove("k".to_string()).encode()).unwrap();
    assert_eq!(rm.get("Remove").unwrap().get("key").unwrap().as_str().unwrap(), "k");
}

#[test]
fn we_read_serde_json_text() {
    let key = serde_json::to_string(TRICKY).unwrap();
    let text = format!("{{\"Get\":{{\"key\":{}}}}}", key);
    let c = decode_command(&text.into_bytes()).unwrap();
    assert_eq!(c, Command::get(TRICKY.to_string()));
}

#[test]
fn serde_json_reads_our_responses() {
    let r = Response::new(true, Some(TRICKY.to_string()), None);
    let v: Value = serde_json::from_slice(&r.encode()).unwrap();
    assert_eq!(v.get("is_error").unwrap().as_bool(), Some(true));
    assert_eq!(v.get("error_msg").unwrap().as_str().unwrap(), TRICKY);
    assert!(v.get("value").unwrap().is_null());
}
