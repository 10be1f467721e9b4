use maelstrom_echo::echo::{handle_echo, Echo};
use maelstrom_echo::json::Json;
use maelstrom_echo::message::{decode, Payload};
use maelstrom_echo::node::{Handler, Init, InitOk, Node, Refusal, Registry};

const INIT: &str = "{\"src\":\"c1\",\"dest\":\"n1\",\"body\":{\"type\":\"init\",\"msg_id\":1,\"node_id\":\"n1\",\"node_ids\":[\"n1\"]}}";
const ECHO: &str = "{\"src\":\"c1\",\"dest\":\"n1\",\"body\":{\"type\":\"echo\",\"msg_id\":2,\"echo\":\"hello\"}}";

fn field<'a>(line: &str, key: &str) -> Option<Json> {
    let m = decode(line.trim_end_matches('\n')).unwrap();
    m.body.payload.fields.iter().find(|(k, _)| k == key).map(|(_, v)| v.copy())
}

fn kind(line: &str) -> String {
    decode(line).unwrap().body.payload.kind
}

#[test]
fn handshake_then_echo() {
    let mut n = Node::new();
    assert_eq!(
        n.step(INIT).unwrap(),
        "{\"src\":\"n1\",\"dest\":\"c1\",\"body\":{\"type\":\"init_ok\",\"in_reply_to\":1,\"msg_id\":1}}\n"
    );
    assert_eq!(
        n.step(ECHO).unwrap(),
        "{\"src\":\"n1\",\"dest\":\"c1\",\"body\":{\"type\":\"echo_ok\",\"in_reply_to\":2,\"msg_id\":2,\"echo\":\"hello\"}}\n"
    );
}

#[test]
fn echo_before_init() {
    let mut n = Node::new();
    let out = n.step(ECHO).unwrap();
    assert_eq!(kind(&out), "error");
    assert_eq!(field(&out, "code"), Some(Json::Num("11".to_string())));
    assert_eq!(decode(&out).unwrap().body.in_reply_to, Some(2));
    assert!(!n.is_ready());
}

#[test]
fn double_init() {
    let mut n = Node::new();
    assert_eq!(kind(&n.step(INIT).unwrap()), "init_ok");
    let out = n.step(INIT).unwrap();
    assert_eq!(kind(&out), "error");
    assert_eq!(field(&out, "code"), Some(Json::Num("22".to_string())));
}

#[test]
fn unknown_type() {
    let mut n = Node::new();
    n.step(INIT).unwrap();
    let out = n.step("{\"src\":\"c1\",\"dest\":\"n1\",\"body\":{\"type\":\"read\",\"msg_id\":3,\"key\":9}}").unwrap();
    assert_eq!(kind(&out), "error");
    assert_eq!(field(&out, "code"), Some(Json::Num("10".to_string())));
    assert_eq!(decode(&out).unwrap().body.in_reply_to, Some(3));
}

#[test]
fn empty_echo() {
    let mut n = Node::new();
    n.step(INIT).unwrap();
    let out = n.step("{\"src\":\"c1\",\"dest\":\"n1\",\"body\":{\"type\":\"echo\",\"msg_id\":5,\"echo\":\"\"}}").unwrap();
    assert_eq!(kind(&out), "echo_ok");
    assert_eq!(field(&out, "echo"), Some(Json::Str(String::new())));
}

#[test]
fn malformed_line_gets_no_reply() {
    let mut n = Node::new();
    n.step(INIT).unwrap();
    assert_eq!(n.step("not json"), None);
    let out = n.step(ECHO).unwrap();
    assert_eq!(kind(&out), "echo_ok");
    assert_eq!(decode(&out).unwrap().body.msg_id, Some(2));
}

#[test]
fn echo_keeps_unicode_and_escapes() {
    let mut n = Node::new();
    n.step(INIT).unwrap();
    let text = "sn\u{2603}w \"q\" \\ \n tab\t";
    let line = format!(
        "{{\"src\":\"c1\",\"dest\":\"n1\",\"body\":{{\"type\":\"echo\",\"msg_id\":4,\"echo\":{}}}}}",
        "\"sn\u{2603}w \\\"q\\\" \\\\ \\n tab\\t\""
    );
    let out = n.step(&line).unwrap();
    assert_eq!(field(&out, "echo"), Some(Json::Str(text.to_string())));
    assert_eq!(out.matches('\n').count(), 1);
}

#[test]
fn replies_swap_ends_and_correlate() {
    let mut n = Node::new();
    n.step(INIT).unwrap();
    let out = n.step("{\"src\":\"c7\",\"dest\":\"n1\",\"body\":{\"type\":\"echo\",\"echo\":\"x\"}}").unwrap();
    let r = decode(&out).unwrap();
    assert_eq!(r.src, "n1");
    assert_eq!(r.dest, "c7");
    assert_eq!(r.body.in_reply_to, None);
}

#[test]
fn outbound_ids_increase_over_a_session() {
    let mut n = Node::new();
    let mut ids = Vec::new();
    for line in [ECHO, INIT, ECHO, "garbage", INIT, ECHO] {
        if let Some(out) = n.step(line) {
            ids.push(decode(&out).unwrap().body.msg_id.unwrap());
        }
    }
    assert_eq!(ids, vec![1, 2, 3, 4, 5]);
}

#[test]
fn bad_init_payload_is_refused() {
    let mut n = Node::new();
    let out = n
        .step("{\"src\":\"c1\",\"dest\":\"n1\",\"body\":{\"type\":\"init\",\"msg_id\":1,\"node_id\":\"n9\",\"node_ids\":[\"n1\"]}}")
        .unwrap();
    assert_eq!(field(&out, "code"), Some(Json::Num("12".to_string())));
    assert!(!n.is_ready());
    let out = n.step(INIT).unwrap();
    assert_eq!(kind(&out), "init_ok");
    assert!(n.is_ready());
}

#[test]
fn echo_without_text_is_a_bad_request() {
    let mut n = Node::new();
    n.step(INIT).unwrap();
    let out = n.step("{\"src\":\"c1\",\"dest\":\"n1\",\"body\":{\"type\":\"echo\",\"msg_id\":3,\"echo\":7}}").unwrap();
    assert_eq!(field(&out, "code"), Some(Json::Num("12".to_string())));
    assert!(matches!(field(&out, "text"), Some(Json::Str(_))));
}

#[test]
fn refusal_codes() {
    assert_eq!(Refusal::NotSupported.code(), 10);
    assert_eq!(Refusal::NotYetInitialized.code(), 11);
    assert_eq!(Refusal::BadRequest.code(), 12);
    assert_eq!(Refusal::AlreadyInitialized.code(), 22);
}

#[test]
fn registry_keeps_keys_unique() {
    let mut r = Registry::builtin();
    assert_eq!(r.lookup(&"echo".to_string()), Some(Handler::Echo));
    assert_eq!(r.lookup(&"init".to_string()), Some(Handler::Init));
    assert_eq!(r.lookup(&"read".to_string()), None);
    assert!(!r.register("echo".to_string(), Handler::Init));
    assert_eq!(r.lookup(&"echo".to_string()), Some(Handler::Echo));
    assert!(r.register("echo2".to_string(), Handler::Echo));
    assert_eq!(r.lookup(&"echo2".to_string()), Some(Handler::Echo));
    assert_eq!(Handler::Echo.reply_kind(), "echo_ok");
    assert_eq!(Handler::Init.reply_kind(), "init_ok");
    assert!(Handler::Echo.needs_init());
    assert!(!Handler::Init.needs_init());
}

#[test]
fn registered_kind_is_dispatched() {
    let mut n = Node::new();
    assert!(n.register("say".to_string(), Handler::Echo));
    n.step(INIT).unwrap();
    let out = n.step("{\"src\":\"c1\",\"dest\":\"n1\",\"body\":{\"type\":\"say\",\"msg_id\":3,\"echo\":\"hi\"}}").unwrap();
    assert_eq!(kind(&out), "echo_ok");
}

#[test]
fn handle_echo_answers_an_echo_line() {
    assert_eq!(
        handle_echo(ECHO, Some(2)).unwrap(),
        "{\"src\":\"n1\",\"dest\":\"c1\",\"body\":{\"type\":\"echo_ok\",\"in_reply_to\":2,\"msg_id\":2,\"echo\":\"hello\"}}\n"
    );
    assert_eq!(handle_echo("not json", Some(1)), None);
    assert_eq!(handle_echo(INIT, Some(1)), None);
}

#[test]
fn payload_readers() {
    let p = decode(INIT).unwrap().body.payload;
    let i = Init::from_payload(&p).unwrap();
    assert_eq!(i.node_id, "n1");
    assert_eq!(i.node_ids, vec!["n1".to_string()]);
    assert_eq!(Echo::from_payload(&p), None);
    let e = Echo::from_payload(&decode(ECHO).unwrap().body.payload).unwrap();
    assert_eq!(e.echo, "hello");
    let q: Payload = e.to_reply();
    assert_eq!(q.kind, "echo_ok");
    let ok = InitOk {}.to_reply();
    assert_eq!(ok.kind, "init_ok");
    assert!(ok.fields.is_empty());
}

#[test]
fn identity_is_installed_once() {
    let mut n = Node::new();
    assert_eq!(n.node_id(), None);
    assert_eq!(n.node_ids(), None);
    n.step("{\"src\":\"c1\",\"dest\":\"n2\",\"body\":{\"type\":\"init\",\"msg_id\":1,\"node_id\":\"n2\",\"node_ids\":[\"n1\",\"n2\",\"n3\"]}}")
        .unwrap();
    assert_eq!(n.node_id(), Some("n2".to_string()));
    assert_eq!(n.node_ids(), Some(vec!["n1".to_string(), "n2".to_string(), "n3".to_string()]));
    n.step(INIT).unwrap();
    assert_eq!(n.node_id(), Some("n2".to_string()));
}
