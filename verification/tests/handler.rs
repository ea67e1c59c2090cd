use lighthouse_protocol::Value;
use miracle::client_handler;
use miracle::handler::{
    receive_step, respond, ClientHandler, Effect, Frame, HandlerError, ReceiveStep, Reply, Request, Verb,
};
use miracle::state::{State, StateError};

fn names(path: &[&str]) -> Vec<String> {
    path.iter().map(|s| s.to_string()).collect()
}

fn request(id: i32, verb: Verb, path: &[&str], payload: Value) -> Request {
    Request { request_id: id, verb, path: names(path), payload }
}

fn run(h: &mut ClientHandler, s: &mut State, id: i32, verb: Verb, path: &[&str], payload: Value) -> (Result<(Reply, i32), HandlerError>, Effect) {
    h.process_message(s, request(id, verb, path, payload))
}

#[test]
fn get_after_post_gives_the_payload() {
    let (mut h, mut s) = (ClientHandler::new(), State::new());
    let (res, effect) = run(&mut h, &mut s, 1, Verb::Post, &["a"], Value::from(3));
    assert!(matches!(res, Ok((Reply::Nil, 200))));
    match effect {
        Effect::Notify { path, value } => {
            assert_eq!(path, names(&["a"]));
            assert_eq!(value, Value::from(3));
        },
        other => panic!("unexpected {:?}", other),
    }
    match run(&mut h, &mut s, 2, Verb::Get, &["a"], Value::Nil).0 {
        Ok((Reply::Value(v), 200)) => assert_eq!(v, Value::from(3)),
        other => panic!("unexpected {:?}", other),
    }
}

#[test]
fn post_without_parent_is_refused() {
    let (mut h, mut s) = (ClientHandler::new(), State::new());
    let (res, effect) = run(&mut h, &mut s, 1, Verb::Post, &["x", "y"], Value::from(3));
    match res {
        Err(HandlerError::State(StateError::ParentMissing(p))) => assert_eq!(p, names(&["x"])),
        other => panic!("unexpected {:?}", other),
    }
    assert!(matches!(effect, Effect::Nothing));
    assert!(!s.path_exists(&names(&["x", "y"])).unwrap());
}

#[test]
fn create_makes_nil_resource_once() {
    let (mut h, mut s) = (ClientHandler::new(), State::new());
    let (res, effect) = run(&mut h, &mut s, 1, Verb::Create, &["c"], Value::from(9));
    assert!(matches!(res, Ok((Reply::Nil, 200))));
    assert!(matches!(effect, Effect::Notify { value: Value::Nil, .. }));
    assert!(s.get(&names(&["c"])).unwrap().is_nil());
    match run(&mut h, &mut s, 2, Verb::Create, &["c"], Value::Nil).0 {
        Err(HandlerError::AlreadyExists(p)) => assert_eq!(p, names(&["c"])),
        other => panic!("unexpected {:?}", other),
    }
}

#[test]
fn put_needs_an_existing_path() {
    let (mut h, mut s) = (ClientHandler::new(), State::new());
    match run(&mut h, &mut s, 1, Verb::Put, &["p"], Value::from(1)).0 {
        Err(HandlerError::DoesNotExist(p)) => assert_eq!(p, names(&["p"])),
        other => panic!("unexpected {:?}", other),
    }
    run(&mut h, &mut s, 2, Verb::Create, &["p"], Value::Nil);
    let (res, effect) = run(&mut h, &mut s, 3, Verb::Put, &["p"], Value::from(1));
    assert!(matches!(res, Ok((Reply::Nil, 200))));
    assert!(matches!(effect, Effect::Notify { .. }));
    assert_eq!(s.get(&names(&["p"])).unwrap(), Value::from(1));
}

#[test]
fn mkdir_list_and_delete() {
    let (mut h, mut s) = (ClientHandler::new(), State::new());
    let (res, effect) = run(&mut h, &mut s, 1, Verb::Mkdir, &["d"], Value::Nil);
    assert!(matches!(res, Ok((Reply::Nil, 200))));
    assert!(matches!(effect, Effect::Nothing));
    run(&mut h, &mut s, 2, Verb::Post, &["d", "x"], Value::from(1));
    match run(&mut h, &mut s, 3, Verb::List, &["d"], Value::Nil).0 {
        Ok((Reply::Tree(t), 200)) => {
            assert_eq!(t.entries.len(), 1);
            assert_eq!(t.entries[0].0, "x");
        },
        other => panic!("unexpected {:?}", other),
    }
    assert!(matches!(run(&mut h, &mut s, 4, Verb::List, &["d", "x"], Value::Nil).0, Err(HandlerError::State(StateError::NotADirectory))));
    assert!(matches!(run(&mut h, &mut s, 5, Verb::Get, &["d"], Value::Nil).0, Err(HandlerError::State(StateError::NotAResource))));
    assert!(matches!(run(&mut h, &mut s, 6, Verb::Delete, &["d"], Value::Nil).0, Ok((Reply::Nil, 200))));
    assert!(matches!(run(&mut h, &mut s, 7, Verb::List, &["d"], Value::Nil).0, Err(HandlerError::State(StateError::NotFound))));
}

#[test]
fn stream_then_stop() {
    let (mut h, mut s) = (ClientHandler::new(), State::new());
    run(&mut h, &mut s, 1, Verb::Post, &["v"], Value::from(4));
    let (res, effect) = run(&mut h, &mut s, 7, Verb::Stream, &["v"], Value::Nil);
    match res {
        Ok((Reply::Value(v), 200)) => assert_eq!(v, Value::from(4)),
        other => panic!("unexpected {:?}", other),
    }
    match effect {
        Effect::StartStream { request_id, path } => {
            assert_eq!(request_id, 7);
            assert_eq!(path, names(&["v"]));
        },
        other => panic!("unexpected {:?}", other),
    }
    assert!(matches!(run(&mut h, &mut s, 7, Verb::Stream, &["v"], Value::Nil).0, Err(HandlerError::StreamExists(7))));
    let (res, effect) = run(&mut h, &mut s, 7, Verb::Stop, &["v"], Value::Nil);
    assert!(matches!(res, Ok((Reply::Nil, 200))));
    assert!(matches!(effect, Effect::StopStream { request_id: 7 }));
    assert!(matches!(run(&mut h, &mut s, 7, Verb::Stop, &["v"], Value::Nil).0, Err(HandlerError::NoStream(7))));
}

#[test]
fn stream_of_missing_path_is_refused_and_not_kept() {
    let (mut h, mut s) = (ClientHandler::new(), State::new());
    assert!(matches!(run(&mut h, &mut s, 3, Verb::Stream, &["none"], Value::Nil).0, Err(HandlerError::State(StateError::NotFound))));
    assert!(matches!(run(&mut h, &mut s, 3, Verb::Stop, &["none"], Value::Nil).0, Err(HandlerError::NoStream(3))));
}

#[test]
fn stop_on_other_path_is_refused_and_forgets_stream() {
    let (mut h, mut s) = (ClientHandler::new(), State::new());
    run(&mut h, &mut s, 1, Verb::Post, &["a"], Value::from(1));
    run(&mut h, &mut s, 2, Verb::Stream, &["a"], Value::Nil);
    match run(&mut h, &mut s, 2, Verb::Stop, &["b"], Value::Nil) {
        (Err(HandlerError::StreamOnOtherPath(2, p)), Effect::Nothing) => assert_eq!(p, names(&["a"])),
        other => panic!("unexpected {:?}", other),
    }
    assert!(matches!(run(&mut h, &mut s, 2, Verb::Stop, &["a"], Value::Nil).0, Err(HandlerError::NoStream(2))));
}

#[test]
fn stream_ended_forgets_stream() {
    let (mut h, mut s) = (ClientHandler::new(), State::new());
    run(&mut h, &mut s, 1, Verb::Post, &["a"], Value::from(1));
    run(&mut h, &mut s, 5, Verb::Stream, &["a"], Value::Nil);
    h.stream_ended(5);
    assert!(matches!(run(&mut h, &mut s, 5, Verb::Stream, &["a"], Value::Nil).0, Ok(_)));
}

#[test]
fn unimplemented_verbs_are_refused() {
    let (mut h, mut s) = (ClientHandler::new(), State::new());
    assert!(matches!(run(&mut h, &mut s, 1, Verb::Link, &["a"], Value::Nil).0, Err(HandlerError::UnimplementedVerb(Verb::Link))));
    assert!(matches!(run(&mut h, &mut s, 1, Verb::Unlink, &[], Value::Nil).0, Err(HandlerError::UnimplementedVerb(Verb::Unlink))));
    match run(&mut h, &mut s, 1, Verb::Unknown("FOO".to_string()), &["a"], Value::Nil).0 {
        Err(HandlerError::UnimplementedVerb(Verb::Unknown(v))) => assert_eq!(v, "FOO"),
        other => panic!("unexpected {:?}", other),
    }
}

#[test]
fn reaches_tree_tells_which_requests_need_a_path() {
    let (mut h, mut s) = (ClientHandler::new(), State::new());
    assert!(h.reaches_tree(&request(1, Verb::Get, &[], Value::Nil)));
    assert!(!h.reaches_tree(&request(1, Verb::Stop, &[], Value::Nil)));
    assert!(h.reaches_tree(&request(1, Verb::Stream, &[], Value::Nil)));
    run(&mut h, &mut s, 1, Verb::Post, &["a"], Value::from(1));
    run(&mut h, &mut s, 1, Verb::Stream, &["a"], Value::Nil);
    assert!(!h.reaches_tree(&request(1, Verb::Stream, &[], Value::Nil)));
}

#[test]
fn handle_message_answers_200_or_400() {
    let (mut h, mut s) = (ClientHandler::new(), State::new());
    let (ok, _) = h.handle_message(&mut s, request(11, Verb::Mkdir, &["d"], Value::Nil));
    assert_eq!(ok.request_id, Some(11));
    assert_eq!(ok.code, 200);
    assert!(ok.response.is_none());
    assert!(ok.warnings.is_empty());
    let (bad, effect) = h.handle_message(&mut s, request(12, Verb::Get, &["d"], Value::Nil));
    assert_eq!(bad.request_id, Some(12));
    assert_eq!(bad.code, 400);
    assert!(matches!(bad.payload, Reply::Nil));
    assert!(matches!(bad.response, Some(HandlerError::State(StateError::NotAResource))));
    assert!(matches!(effect, Effect::Nothing));
}

#[test]
fn respond_keeps_the_code_of_a_success() {
    let r = respond(3, Ok((Reply::Value(Value::from(1)), 200)));
    assert_eq!(r.code, 200);
    assert!(matches!(r.payload, Reply::Value(_)));
    let e = respond(4, Err(HandlerError::NoStream(4)));
    assert_eq!(e.code, 400);
    assert_eq!(e.request_id, Some(4));
}

#[test]
fn receive_steps_of_the_handler() {
    assert!(matches!(receive_step(Frame::Binary(vec![1, 2])), ReceiveStep::Deliver(b) if b == vec![1, 2]));
    assert!(matches!(receive_step(Frame::Ping), ReceiveStep::Skip));
    assert!(matches!(receive_step(Frame::Other), ReceiveStep::Skip));
    assert!(matches!(receive_step(Frame::Close), ReceiveStep::End));
    assert!(matches!(receive_step(Frame::ResetWithoutClosingHandshake), ReceiveStep::End));
    assert!(matches!(receive_step(Frame::Error), ReceiveStep::Fail));
}

#[test]
fn receive_steps_of_the_first_handler() {
    assert!(matches!(client_handler::receive_step(Frame::Binary(vec![3])), ReceiveStep::Deliver(b) if b == vec![3]));
    assert!(matches!(client_handler::receive_step(Frame::Close), ReceiveStep::Skip));
    assert!(matches!(client_handler::receive_step(Frame::Ping), ReceiveStep::Skip));
    assert!(matches!(client_handler::receive_step(Frame::ResetWithoutClosingHandshake), ReceiveStep::End));
    assert!(matches!(client_handler::receive_step(Frame::Error), ReceiveStep::Fail));
}

#[test]
fn first_handler_acknowledges_every_request() {
    let r = client_handler::acknowledge(42);
    assert_eq!(r.request_id, Some(42));
    assert_eq!(r.code, 200);
    assert!(matches!(r.payload, Reply::Nil));
    assert!(r.response.is_none());
}

fn encoded(verb: lighthouse_protocol::Verb, path: &[&str], payload: Value) -> Vec<u8> {
    let message = lighthouse_protocol::ClientMessage {
        request_id: 17,
        verb,
        path: names(path),
        meta: std::collections::HashMap::new(),
        authentication: lighthouse_protocol::Authentication::new("user", "token"),
        payload,
    };
    rmp_serde::to_vec_named(&message).unwrap()
}

#[test]
fn receive_message_decodes_client_messages() {
    let bytes = encoded(lighthouse_protocol::Verb::Put, &["a", "b"], Value::from(12));
    let request = miracle::handler::receive_message(&bytes).unwrap();
    assert_eq!(request.request_id, 17);
    assert!(matches!(request.verb, Verb::Put));
    assert_eq!(request.path, names(&["a", "b"]));
    assert_eq!(request.payload, Value::from(12));
    let bytes = encoded(lighthouse_protocol::Verb::Unknown("WHAT".to_string()), &[], Value::Nil);
    match miracle::handler::receive_message(&bytes).unwrap().verb {
        Verb::Unknown(v) => assert_eq!(v, "WHAT"),
        other => panic!("unexpected {:?}", other),
    }
    let bytes = encoded(lighthouse_protocol::Verb::Stream, &["s"], Value::Nil);
    assert!(matches!(miracle::handler::receive_message(&bytes).unwrap().verb, Verb::Stream));
}

#[test]
fn receive_message_refuses_other_bytes() {
    assert!(miracle::handler::receive_message(&[0xc1, 0x00]).is_none());
    assert!(miracle::handler::receive_message(&[]).is_none());
    let not_a_message = rmp_serde::to_vec_named(&42).unwrap();
    assert!(miracle::handler::receive_message(&not_a_message).is_none());
}
