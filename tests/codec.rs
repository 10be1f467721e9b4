use maelstrom_echo::json::{parse_decimal, push_decimal, Json};
use maelstrom_echo::message::{decode, encode, Body, DecodeError, Message, Payload};

fn read_payload(key: u32) -> Payload {
    Payload {
        kind: "read".to_string(),
        fields: vec![("key".to_string(), Json::Num(key.to_string()))],
    }
}

#[test]
fn main_serialization_works() {
    let message = r#"{"src": "test1", "dest": "test2", "body": {"type": "read", "msg_id": 123, "key": 3}}"#;

    let message_expect = Message {
        src: "test1".to_string(),
        dest: "test2".to_string(),
        body: Body { msg_id: Some(123), in_reply_to: None, payload: read_payload(3) },
    };

    let res = decode(message).unwrap();

    assert_eq!(res, message_expect);
}

#[test]
fn main_deserialization_works() {
    let message = Message {
        src: "test1".to_string(),
        dest: "test2".to_string(),
        body: Body { msg_id: Some(123), in_reply_to: None, payload: read_payload(3) },
    };

    let res: String = encode(&message);

    let message_result = decode(&res).unwrap();

    assert_eq!(message_result, message);
}

#[test]
fn message_serialization_works() {
    let message = r#"{"src": "test1", "dest": "test2", "body": {"type": "read", "msg_id": 123, "key": 3}}"#;

    let message_expect = Message {
        src: "test1".to_string(),
        dest: "test2".to_string(),
        body: Body { msg_id: Some(123), in_reply_to: None, payload: read_payload(3) },
    };

    let res = decode(message).unwrap();

    assert_eq!(res, message_expect);
}

#[test]
fn message_deserialization_works() {
    let message = Message {
        src: "test1".to_string(),
        dest: "test2".to_string(),
        body: Body { msg_id: Some(123), in_reply_to: None, payload: read_payload(3) },
    };

    let res: String = encode(&message);

    let message_result = decode(&res).unwrap();

    assert_eq!(message_result, message);
}

#[test]
fn encode_writes_bit_exact_wire_form() {
    let m = Message {
        src: "n1".to_string(),
        dest: "c1".to_string(),
        body: Body {
            msg_id: Some(2),
            in_reply_to: Some(2),
            payload: Payload {
                kind: "echo_ok".to_string(),
                fields: vec![("echo".to_string(), Json::Str("hello".to_string()))],
            },
        },
    };
    assert_eq!(
        encode(&m),
        "{\"src\":\"n1\",\"dest\":\"c1\",\"body\":{\"type\":\"echo_ok\",\"in_reply_to\":2,\"msg_id\":2,\"echo\":\"hello\"}}\n"
    );
}

#[test]
fn encode_omits_absent_ids() {
    let m = Message {
        src: "a".to_string(),
        dest: "b".to_string(),
        body: Body {
            msg_id: None,
            in_reply_to: None,
            payload: Payload { kind: "x".to_string(), fields: vec![] },
        },
    };
    let line = encode(&m);
    assert_eq!(line, "{\"src\":\"a\",\"dest\":\"b\",\"body\":{\"type\":\"x\"}}\n");
    assert!(!line.contains("null"));
}

#[test]
fn round_trip_keeps_nested_payload() {
    let m = Message {
        src: "c1".to_string(),
        dest: "n1".to_string(),
        body: Body {
            msg_id: Some(u64::MAX),
            in_reply_to: Some(0),
            payload: Payload {
                kind: "topology".to_string(),
                fields: vec![
                    (
                        "topology".to_string(),
                        Json::Obj(vec![(
                            "n1".to_string(),
                            Json::Arr(vec![Json::Str("n2".to_string()), Json::Null, Json::Bool(true)]),
                        )]),
                    ),
                    ("weight".to_string(), Json::Num("-4".to_string())),
                ],
            },
        },
    };
    let line = encode(&m);
    assert!(line.ends_with("}\n"));
    assert_eq!(line.matches('\n').count(), 1);
    assert_eq!(decode(&line).unwrap(), m);
}

#[test]
fn encode_of_decode_gives_the_line_back() {
    let lines = [
        "{\"src\":\"n1\",\"dest\":\"c1\",\"body\":{\"type\":\"init_ok\",\"in_reply_to\":1,\"msg_id\":1}}\n",
        "{\"src\":\"n1\",\"dest\":\"c1\",\"body\":{\"type\":\"echo_ok\",\"in_reply_to\":2,\"msg_id\":2,\"echo\":\"hello\"}}\n",
    ];
    for l in lines {
        assert_eq!(encode(&decode(l).unwrap()), l);
    }
}

#[test]
fn quoting_escapes_special_characters() {
    let m = Message {
        src: "q\"uote".to_string(),
        dest: "back\\slash\n".to_string(),
        body: Body {
            msg_id: None,
            in_reply_to: None,
            payload: Payload { kind: "t".to_string(), fields: vec![] },
        },
    };
    let line = encode(&m);
    assert!(line.starts_with("{\"src\":\"q\\\"uote\",\"dest\":\"back\\\\slash\\n\""));
    assert_eq!(line.matches('\n').count(), 1);
    assert_eq!(decode(&line).unwrap(), m);
}

#[test]
fn decode_refuses_malformed_lines() {
    let bad = [
        "not json",
        "",
        "[1,2]",
        "{\"dest\":\"n1\",\"body\":{\"type\":\"echo\"}}",
        "{\"src\":\"c1\",\"body\":{\"type\":\"echo\"}}",
        "{\"src\":\"c1\",\"dest\":\"n1\"}",
        "{\"src\":\"c1\",\"dest\":\"n1\",\"body\":{\"msg_id\":1}}",
        "{\"src\":\"c1\",\"dest\":\"n1\",\"body\":{\"type\":5}}",
        "{\"src\":1,\"dest\":\"n1\",\"body\":{\"type\":\"echo\"}}",
        "{\"src\":\"c1\",\"dest\":\"n1\",\"body\":{\"type\":\"echo\",\"msg_id\":-1}}",
        "{\"src\":\"c1\",\"dest\":\"n1\",\"body\":{\"type\":\"echo\",\"msg_id\":1.5}}",
        "{\"src\":\"c1\",\"dest\":\"n1\",\"body\":{\"type\":\"echo\",\"msg_id\":\"1\"}}",
        "{\"src\":\"c1\",\"dest\":\"n1\",\"body\":{\"type\":\"echo\",\"in_reply_to\":null}}",
        "{\"src\":\"c1\",\"dest\":\"n1\",\"body\":{\"type\":\"echo\",\"msg_id\":18446744073709551616}}",
    ];
    for l in bad {
        assert_eq!(decode(l), Err(DecodeError::MalformedInput), "{}", l);
    }
}

#[test]
fn decode_tolerates_unknown_keys_and_keeps_them() {
    let m = decode("{\"src\":\"c1\",\"dest\":\"n1\",\"extra\":1,\"body\":{\"type\":\"echo\",\"echo\":\"x\",\"misc\":[1]}}").unwrap();
    assert_eq!(m.body.msg_id, None);
    assert_eq!(m.body.payload.kind, "echo");
    assert_eq!(m.body.payload.fields.len(), 2);
    assert!(m.body.payload.fields.contains(&("misc".to_string(), Json::Arr(vec![Json::Num("1".to_string())]))));
}

#[test]
fn decimal_reading_and_writing() {
    let mut out = Vec::new();
    push_decimal(0, &mut out);
    assert_eq!(out, vec!['0']);
    let mut out = Vec::new();
    push_decimal(18446744073709551615, &mut out);
    assert_eq!(out.iter().collect::<String>(), "18446744073709551615");
    assert_eq!(parse_decimal(&"4096".chars().collect()), Some(4096));
    assert_eq!(parse_decimal(&"18446744073709551615".chars().collect()), Some(u64::MAX));
    assert_eq!(parse_decimal(&"18446744073709551616".chars().collect()), None);
    assert_eq!(parse_decimal(&"".chars().collect()), None);
    assert_eq!(parse_decimal(&"12a".chars().collect()), None);
}

#[test]
fn switch_src_dest_builds_the_reply() {
    let m = decode("{\"src\":\"c1\",\"dest\":\"n1\",\"body\":{\"type\":\"echo\",\"msg_id\":7,\"echo\":\"e\"}}").unwrap();
    let p = m.get_payload();
    assert_eq!(p, m.body.payload);
    let r = m.switch_src_dest(p, Some(9));
    assert_eq!(r.src, "n1");
    assert_eq!(r.dest, "c1");
    assert_eq!(r.body.in_reply_to, Some(7));
    assert_eq!(r.body.msg_id, Some(9));
}
