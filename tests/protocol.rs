use gossip_node::{Body, Message};

fn envelope(body: Body) -> Message {
    Message { src: "c1".to_string(), dest: "n1".to_string(), body }
}

#[test]
fn init_is_answered_with_init_ok() {
    let m = envelope(Body::Init { msg_id: 7, node_id: "n1".to_string(), node_ids: vec!["n1".to_string()] });
    let r = m.reply("unused".to_string()).expect("init is answered");
    assert_eq!(r.src, "n1");
    assert_eq!(r.dest, "c1");
    assert!(matches!(r.body, Body::InitOk { in_reply_to: 7 }));
}

#[test]
fn generate_reply_carries_the_given_id() {
    let m = envelope(Body::Generate { msg_id: 3 });
    let r = m.reply("abc".to_string()).expect("generate is answered");
    assert_eq!(r.src, "n1");
    assert_eq!(r.dest, "c1");
    match r.body {
        Body::GenerateOk { msg_id, in_reply_to, id } => {
            assert_eq!(msg_id, 3);
            assert_eq!(in_reply_to, 3);
            assert_eq!(id, "abc");
        }
        other => panic!("unexpected reply {:?}", other),
    }
}

#[test]
fn replies_and_errors_are_not_answered() {
    assert!(envelope(Body::InitOk { in_reply_to: 1 }).reply("x".to_string()).is_none());
    assert!(envelope(Body::GenerateOk { msg_id: 1, in_reply_to: 1, id: "x".to_string() })
        .reply("x".to_string())
        .is_none());
    assert!(envelope(Body::Error { in_reply_to: 1, code: 13, text: "boom".to_string() })
        .respond()
        .is_none());
}

fn generated_id(m: &Message) -> String {
    match m.respond().expect("generate is answered").body {
        Body::GenerateOk { id, .. } => id,
        other => panic!("unexpected reply {:?}", other),
    }
}

#[test]
fn generated_ids_are_hyphenated_version_four() {
    let id = generated_id(&envelope(Body::Generate { msg_id: 1 }));
    let chars: Vec<char> = id.chars().collect();
    assert_eq!(chars.len(), 36);
    for (i, c) in chars.iter().enumerate() {
        if i == 8 || i == 13 || i == 18 || i == 23 {
            assert_eq!(*c, '-');
        } else {
            assert!(c.is_ascii_hexdigit() && !c.is_ascii_uppercase());
        }
    }
    assert_eq!(chars[14], '4');
}

#[test]
fn generated_ids_differ() {
    let m = envelope(Body::Generate { msg_id: 1 });
    assert_ne!(generated_id(&m), generated_id(&m));
}

#[test]
fn init_respond_needs_no_id() {
    let m = envelope(Body::Init { msg_id: 9, node_id: "n1".to_string(), node_ids: vec![] });
    let r = m.respond().expect("init is answered");
    assert!(matches!(r.body, Body::InitOk { in_reply_to: 9 }));
}
