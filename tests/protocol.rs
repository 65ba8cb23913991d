use std::convert::TryInto;
use yakv::command::{decode_command_at, Command};
use yakv::error::KvError;
use yakv::protocol::{
    decode_command, decode_frame, encode_frame, parse_frame_header, Payload, PayloadType, Response,
    YakvMessage, MAX_FRAME_LEN,
};
use yakv::server::{
    client_output, error_response, handle_command, handle_store_command, response_for, ClientOutput,
};
use yakv::KvStore;

#[test]
fn test_message_from_bytes() {
    let cmd = Command::remove("key".to_string());
    let (length, bytes) = YakvMessage::get_len_payload_bytes(Payload::Command(cmd)).unwrap();
    let len_bytes: [u8; 4] = bytes[..4].try_into().unwrap();
    let actual_len = u32::from_be_bytes(len_bytes);
    assert_eq!(length, actual_len);

    let res_payload = Payload::Response("OK".to_string());
    let (length, bytes) = YakvMessage::get_len_payload_bytes(res_payload).unwrap();
    let len_bytes = bytes[..4].try_into().expect("Valid 4 bytes required");
    let actual_len = u32::from_be_bytes(len_bytes);
    assert_eq!(length, actual_len);

    let str_bytes: Vec<u8> = bytes[4..].try_into().unwrap();
    assert_eq!("OK".to_string(), String::from_utf8(str_bytes).unwrap());
}

#[test]
fn commands_encode_canonically() {
    let set = Command::set("k".to_string(), "v".to_string());
    assert_eq!(set.encode(), br#"{"Set":{"key":"k","value":"v"}}"#.to_vec());
    let get = Command::get("k".to_string());
    assert_eq!(get.encode(), br#"{"Get":{"key":"k"}}"#.to_vec());
    let rm = Command::remove("k".to_string());
    assert_eq!(rm.encode(), br#"{"Remove":{"key":"k"}}"#.to_vec());
}

#[test]
fn strings_are_escaped() {
    let c = Command::set("a\"b\\c".to_string(), "x\ny\t\u{1}z".to_string());
    assert_eq!(
        c.encode(),
        br#"{"Set":{"key":"a\"b\\c","value":"x\ny\t\u0001z"}}"#.to_vec()
    );
}

#[test]
fn commands_round_trip() {
    let cases = vec![
        Command::set("foo".to_string(), "bar".to_string()),
        Command::set("ключ".to_string(), "値 \u{7f} \u{1f} \" \\ \r \u{8} \u{c}".to_string()),
        Command::get("".to_string()),
        Command::remove("k e y".to_string()),
    ];
    for c in cases {
        let bytes = c.encode();
        assert_eq!(decode_command(&bytes).unwrap(), c);
    }
}

#[test]
fn records_decode_one_after_another() {
    let a = Command::set("a".to_string(), "1".to_string());
    let b = Command::remove("a".to_string());
    let mut bytes = a.encode();
    let first_len = bytes.len();
    bytes.extend(b.encode());
    let (c1, end1) = decode_command_at(&bytes, 0).unwrap();
    assert_eq!(c1, a);
    assert_eq!(end1, first_len);
    let (c2, end2) = decode_command_at(&bytes, end1).unwrap();
    assert_eq!(c2, b);
    assert_eq!(end2, bytes.len());
}

#[test]
fn malformed_commands_are_rejected() {
    assert!(matches!(decode_command(&b"{}".to_vec()), Err(KvError::Serialization(_))));
    let mut trailing = Command::get("k".to_string()).encode();
    trailing.push(b' ');
    assert!(matches!(decode_command(&trailing), Err(KvError::Serialization(_))));
    let spaced = br#"{"Get": {"key":"k"}}"#.to_vec();
    assert!(decode_command(&spaced).is_err());
    let cut = br#"{"Set":{"key":"k","value":"v"#.to_vec();
    assert!(decode_command(&cut).is_err());
}

#[test]
fn responses_encode_and_round_trip() {
    let hit = Response::new(false, None, Some("bar".to_string()));
    assert_eq!(
        hit.encode(),
        br#"{"is_error":false,"error_msg":null,"value":"bar"}"#.to_vec()
    );
    let fail = Response::new(true, Some("Key not found: x".to_string()), None);
    assert_eq!(
        fail.encode(),
        br#"{"is_error":true,"error_msg":"Key not found: x","value":null}"#.to_vec()
    );
    let empty: Response = Default::default();
    assert_eq!(
        empty.encode(),
        br#"{"is_error":false,"error_msg":null,"value":null}"#.to_vec()
    );
    for r in vec![hit, fail, empty] {
        assert_eq!(Response::decode(&r.encode()).unwrap(), r);
    }
    assert!(matches!(Response::decode(&b"null".to_vec()), Err(KvError::Serialization(_))));
}

#[test]
fn frames_round_trip() {
    let payload = b"hello".to_vec();
    let f = encode_frame(&payload).unwrap();
    assert_eq!(f, vec![0, 0, 0, 5, b'h', b'e', b'l', b'l', b'o']);
    assert_eq!(decode_frame(&f).unwrap(), payload);
    let empty = encode_frame(&[]).unwrap();
    assert_eq!(empty, vec![0, 0, 0, 0]);
    assert_eq!(decode_frame(&empty).unwrap(), Vec::<u8>::new());
    let big = vec![7u8; 300];
    let fb = encode_frame(&big).unwrap();
    assert_eq!(&fb[..4], &[0, 0, 1, 44]);
    assert_eq!(decode_frame(&fb).unwrap(), big);
}

#[test]
fn framing_errors() {
    assert!(matches!(decode_frame(&vec![0, 0, 1]), Err(KvError::Framing(_))));
    assert!(matches!(decode_frame(&vec![0, 0, 0, 3, 1]), Err(KvError::Framing(_))));
    assert!(matches!(decode_frame(&vec![0, 0, 0, 1, 1, 2]), Err(KvError::Framing(_))));
    assert!(matches!(parse_frame_header(&[1, 0, 0, 1]), Err(KvError::Framing(_))));
    assert_eq!(parse_frame_header(&[1, 0, 0, 0]).unwrap(), MAX_FRAME_LEN);
    assert_eq!(parse_frame_header(&[0, 1, 2, 3]).unwrap(), 66051);
    assert!(matches!(parse_frame_header(&[0, 0, 0]), Err(KvError::Framing(_))));
    let over = vec![0u8; MAX_FRAME_LEN as usize + 1];
    assert!(matches!(encode_frame(&over), Err(KvError::Framing(_))));
}

#[test]
fn messages_from_payloads() {
    let bytes = Command::get("foo".to_string()).encode();
    let m = YakvMessage::from_payload(bytes.len() as u32, bytes.clone(), PayloadType::Command).unwrap();
    assert_eq!(m.length as usize, bytes.len());
    assert!(matches!(m.payload, Payload::Command(Command::Get { ref key }) if key == "foo"));
    let r = YakvMessage::from_payload(2, b"OK".to_vec(), PayloadType::Response).unwrap();
    assert!(matches!(r.payload, Payload::Response(ref t) if t == "OK"));
    let e = YakvMessage::from_payload(0, Vec::new(), PayloadType::Response).unwrap();
    assert!(matches!(e.payload, Payload::Empty));
    assert!(matches!(
        YakvMessage::from_payload(3, b"OK".to_vec(), PayloadType::Response),
        Err(KvError::Framing(_))
    ));
    assert!(matches!(
        YakvMessage::from_payload(2, vec![0xff, 0xfe], PayloadType::Response),
        Err(KvError::Serialization(_))
    ));
    let x = YakvMessage::from_payload(1, vec![1], PayloadType::Empty).unwrap();
    assert!(matches!(x.payload, Payload::Empty));
}

#[test]
fn server_answers_commands() {
    let mut store = KvStore::open(Vec::new()).unwrap();
    let r = handle_command(&mut store, Command::set("foo".to_string(), "bar".to_string()));
    assert_eq!(r, Response::new(false, None, None));
    let r = handle_command(&mut store, Command::get("foo".to_string()));
    assert_eq!(r, Response::new(false, None, Some("bar".to_string())));
    let r = handle_command(&mut store, Command::remove("foo".to_string()));
    assert_eq!(r, Response::new(false, None, None));
    let r = handle_command(&mut store, Command::get("foo".to_string()));
    assert_eq!(r, Response::new(false, None, None));
    let r = handle_command(&mut store, Command::remove("foo".to_string()));
    assert_eq!(r, Response::new(true, Some("Key not found: foo".to_string()), None));
}

#[test]
fn error_messages() {
    assert_eq!(KvError::NotFound("k".to_string()).message(), "Key not found: k");
    assert_eq!(KvError::UnexpectedCommand.message(), "Unexpected command");
    assert_eq!(KvError::EngineMismatch.message(), "Engine mismatch");
    assert_eq!(KvError::Io("disk".to_string()).message(), "IO error: disk");
    assert_eq!(KvError::Serialization("x".to_string()).message(), "Malformed: x");
    assert_eq!(KvError::Framing("y".to_string()).message(), "Framing: y");
    assert_eq!(KvError::Other("z".to_string()).message(), "z");
    let r = error_response(KvError::EngineMismatch);
    assert_eq!(r, Response::new(true, Some("Engine mismatch".to_string()), None));
}

#[test]
fn client_shows_responses() {
    let hit = client_output(Response::new(false, None, Some("bar".to_string())), true);
    assert_eq!(hit, ClientOutput { exit_code: 0, stdout: Some("bar".to_string()), stderr: None });
    let miss = client_output(Response::new(false, None, None), true);
    assert_eq!(
        miss,
        ClientOutput { exit_code: 0, stdout: Some("Key not found".to_string()), stderr: None }
    );
    let done = client_output(Response::new(false, None, None), false);
    assert_eq!(done, ClientOutput { exit_code: 0, stdout: None, stderr: None });
    let fail = client_output(Response::new(true, Some("Key not found: foo".to_string()), None), false);
    assert_eq!(
        fail,
        ClientOutput { exit_code: 1, stdout: None, stderr: Some("Key not found: foo".to_string()) }
    );
}

#[test]
fn store_dispatch_answers_exactly() {
    let mut store = KvStore::open(Vec::new()).unwrap();
    let r = handle_store_command(&mut store, Command::set("foo".to_string(), "bar".to_string()));
    assert_eq!(r, Response::new(false, None, None));
    let r = handle_store_command(&mut store, Command::get("foo".to_string()));
    assert_eq!(r, Response::new(false, None, Some("bar".to_string())));
    let r = handle_store_command(&mut store, Command::remove("foo".to_string()));
    assert_eq!(r, Response::new(false, None, None));
    let r = handle_store_command(&mut store, Command::get("foo".to_string()));
    assert_eq!(r, Response::new(false, None, None));
    let r = handle_store_command(&mut store, Command::remove("foo".to_string()));
    assert_eq!(r, Response::new(true, Some("Key not found: foo".to_string()), None));
}

#[test]
fn responses_for_outcomes() {
    assert_eq!(response_for(Ok(None)), Response::new(false, None, None));
    assert_eq!(response_for(Ok(Some("v".to_string()))), Response::new(false, None, Some("v".to_string())));
    assert_eq!(
        response_for(Err(KvError::Io("disk full".to_string()))),
        Response::new(true, Some("IO error: disk full".to_string()), None)
    );
}

#[test]
fn response_text_matches_its_bytes() {
    let r = Response::new(false, None, Some("ключ \u{1} \"x\"".to_string()));
    assert_eq!(r.to_text().into_bytes(), r.encode());
}
