use secure_channel::client::{open_response, seal_request};
use secure_channel::codec::{
    request_from_json, request_to_json, response_from_json, response_to_json,
};
use secure_channel::crypto::generate_key;
use secure_channel::protocol::{Request, Response};
use secure_channel::server::{env_get, env_set, Effect, Server};
use secure_channel::ChannelError;

#[test]
fn test_request_serialization() {
    let request = Request::GetEnv {
        name: "PATH".to_string(),
    };
    let json = request_to_json(&request);
    let deserialized: Request = request_from_json(&json).unwrap();

    match deserialized {
        Request::GetEnv { name } => assert_eq!(name, "PATH"),
        _ => panic!("Wrong request type"),
    }
}

#[test]
fn test_response_serialization() {
    let response = Response::success(Some("test_value".to_string()));
    let json = response_to_json(&response);
    let deserialized: Response = response_from_json(&json).unwrap();

    match deserialized {
        Response::Success { data } => assert_eq!(data, Some("test_value".to_string())),
        _ => panic!("Wrong response type"),
    }
}

#[test]
fn request_wire_text_is_exact() {
    assert_eq!(request_to_json(&Request::Ping), "{\"type\":\"ping\"}");
    assert_eq!(
        request_to_json(&Request::GetAllEnv),
        "{\"type\":\"get_all_env\"}"
    );
    assert_eq!(
        request_to_json(&Request::GetEnv {
            name: "PATH".to_string()
        }),
        "{\"type\":\"get_env\",\"name\":\"PATH\"}"
    );
    assert_eq!(
        request_to_json(&Request::SetEnv {
            name: "A".to_string(),
            value: "b c".to_string()
        }),
        "{\"type\":\"set_env\",\"name\":\"A\",\"value\":\"b c\"}"
    );
    assert_eq!(
        request_to_json(&Request::SendData {
            key: "text".to_string(),
            data: "hi".to_string()
        }),
        "{\"type\":\"send_data\",\"key\":\"text\",\"data\":\"hi\"}"
    );
}

#[test]
fn response_wire_text_is_exact() {
    assert_eq!(response_to_json(&Response::Pong), "{\"type\":\"pong\"}");
    assert_eq!(
        response_to_json(&Response::success(None)),
        "{\"type\":\"success\",\"data\":null}"
    );
    assert_eq!(
        response_to_json(&Response::success(Some("v".to_string()))),
        "{\"type\":\"success\",\"data\":\"v\"}"
    );
    assert_eq!(
        response_to_json(&Response::error("boom".to_string())),
        "{\"type\":\"error\",\"message\":\"boom\"}"
    );
    assert_eq!(
        response_to_json(&Response::env_vars(vec![])),
        "{\"type\":\"env_vars\",\"vars\":{}}"
    );
    assert_eq!(
        response_to_json(&Response::env_vars(vec![
            ("A".to_string(), "1".to_string()),
            ("B".to_string(), "2".to_string()),
        ])),
        "{\"type\":\"env_vars\",\"vars\":{\"A\":\"1\",\"B\":\"2\"}}"
    );
}

#[test]
fn string_escaping_round_trips() {
    let tricky = "quote\" slash\\ nl\n tab\t cr\r bell\u{07} nul\u{00} high\u{1f} ünïcødé";
    let req = Request::SendData {
        key: "k".to_string(),
        data: tricky.to_string(),
    };
    let json = request_to_json(&req);
    assert!(json.contains("\\\""));
    assert!(json.contains("\\\\"));
    assert!(json.contains("\\n"));
    assert!(json.contains("\\t"));
    assert!(json.contains("\\r"));
    assert!(json.contains("\\u0007"));
    assert!(json.contains("\\u0000"));
    assert!(json.contains("\\u001f"));
    assert_eq!(request_from_json(&json).unwrap(), req);
}

#[test]
fn env_vars_round_trips_with_tricky_pairs() {
    let resp = Response::env_vars(vec![
        ("PA\"TH".to_string(), "a:b:c".to_string()),
        ("EMPTY".to_string(), "".to_string()),
    ]);
    let json = response_to_json(&resp);
    assert_eq!(response_from_json(&json).unwrap(), resp);
}

#[test]
fn parser_rejects_what_the_encoder_never_writes() {
    assert!(request_from_json("").is_none());
    assert!(request_from_json("{\"type\":\"reboot\"}").is_none());
    assert!(request_from_json("{\"type\":\"ping\"} ").is_none());
    assert!(request_from_json("{\"type\":\"get_env\",\"name\":\"A\"").is_none());
    // a non-canonical escape: uppercase hex digits
    assert!(request_from_json("{\"type\":\"get_env\",\"name\":\"\\u000B\"}").is_none());
    // the canonical spelling of the same name
    assert!(request_from_json("{\"type\":\"get_env\",\"name\":\"\\u000b\"}").is_some());
    assert!(response_from_json("{\"type\":\"env_vars\",\"vars\":{,}}").is_none());
    assert!(response_from_json("{\"type\":\"env_vars\",\"vars\":{\"A\":\"1\",}}").is_none());
}

fn exchange(
    server: &Server,
    env: &Vec<(String, String)>,
    request: Request,
) -> (Response, Option<Effect>) {
    let key = server.key;
    let sealed = seal_request(&request, &key).unwrap();
    let (sealed_resp, effect) = server.process_encrypted_request(sealed, env);
    let response = open_response(&sealed_resp.unwrap(), &key).unwrap();
    (response, effect)
}

#[test]
fn scenario_ping_pong() {
    let server = Server::new(generate_key());
    let env = vec![];
    let (response, effect) = exchange(&server, &env, Request::Ping);
    assert_eq!(response, Response::Pong);
    assert!(effect.is_none());
}

#[test]
fn scenario_get_env_found() {
    let server = Server::new(generate_key());
    let env = vec![("FOO".to_string(), "bar".to_string())];
    let (response, effect) = exchange(
        &server,
        &env,
        Request::GetEnv {
            name: "FOO".to_string(),
        },
    );
    assert_eq!(response, Response::success(Some("bar".to_string())));
    assert!(effect.is_none());
}

#[test]
fn scenario_get_env_missing() {
    let server = Server::new(generate_key());
    let env = vec![("FOO".to_string(), "bar".to_string())];
    let (response, _) = exchange(
        &server,
        &env,
        Request::GetEnv {
            name: "DOES_NOT_EXIST_XYZ".to_string(),
        },
    );
    assert_eq!(
        response,
        Response::error("Environment variable 'DOES_NOT_EXIST_XYZ' not found".to_string())
    );
}

#[test]
fn scenario_set_env_then_get_env() {
    let server = Server::new(generate_key());
    let mut env = vec![("FOO".to_string(), "bar".to_string())];
    let (response, effect) = exchange(
        &server,
        &env,
        Request::SetEnv {
            name: "FOO".to_string(),
            value: "baz".to_string(),
        },
    );
    assert_eq!(
        response,
        Response::success(Some("Environment variable 'FOO' set".to_string()))
    );
    // the host applies the returned effect to its own environment
    match effect.unwrap() {
        Effect::SetVar { name, value } => {
            env = env_set(env, name, value);
        }
        other => panic!("unexpected effect {:?}", other),
    }
    // a fresh exchange against the same host process sees the new value
    let (response, _) = exchange(
        &server,
        &env,
        Request::GetEnv {
            name: "FOO".to_string(),
        },
    );
    assert_eq!(response, Response::success(Some("baz".to_string())));
}

#[test]
fn scenario_send_data() {
    let server = Server::new(generate_key());
    let env = vec![];
    let (response, effect) = exchange(
        &server,
        &env,
        Request::SendData {
            key: "text".to_string(),
            data: "Hello!".to_string(),
        },
    );
    assert_eq!(
        response,
        Response::success(Some("Data received for key 'text'".to_string()))
    );
    // the text sink collaborator observes the delivered text
    match effect.unwrap() {
        Effect::Deliver { key, data } => {
            assert_eq!(key, "text");
            assert_eq!(data, "Hello!");
        }
        other => panic!("unexpected effect {:?}", other),
    }
}

#[test]
fn scenario_get_all_env() {
    let server = Server::new(generate_key());
    let env = vec![
        ("A".to_string(), "1".to_string()),
        ("B".to_string(), "2".to_string()),
    ];
    let (response, _) = exchange(&server, &env, Request::GetAllEnv);
    assert_eq!(response, Response::env_vars(env.clone()));
}

#[test]
fn host_rejects_garbage_exactly() {
    let server = Server::new(generate_key());
    let env = vec![];
    // too short for an envelope
    let (r, eff) = server.process_encrypted_request(vec![1, 2, 3], &env);
    assert_eq!(r.unwrap_err(), ChannelError::MalformedInput);
    assert!(eff.is_none());
    // sealed under another key
    let other = Server::new(generate_key());
    let sealed = seal_request(&Request::Ping, &other.key).unwrap();
    let (r, _) = server.process_encrypted_request(sealed, &env);
    assert_eq!(r.unwrap_err(), ChannelError::AuthenticationFailure);
    // sealed under the right key, but not a request
    let sealed = secure_channel::crypto::encrypt(b"hello there", &server.key).unwrap();
    let (r, _) = server.process_encrypted_request(sealed, &env);
    assert_eq!(r.unwrap_err(), ChannelError::ProtocolError);
    // sealed under the right key, but not text
    let sealed = secure_channel::crypto::encrypt(&[0xff, 0xfe], &server.key).unwrap();
    let (r, _) = server.process_encrypted_request(sealed, &env);
    assert_eq!(r.unwrap_err(), ChannelError::MalformedInput);
}

#[test]
fn client_rejects_tampered_response() {
    let server = Server::new(generate_key());
    let env = vec![];
    let sealed = seal_request(&Request::Ping, &server.key).unwrap();
    let (sealed_resp, _) = server.process_encrypted_request(sealed, &env);
    let mut bad = sealed_resp.unwrap();
    let last = bad.len() - 1;
    bad[last] ^= 0x80;
    assert_eq!(
        open_response(&bad, &server.key).unwrap_err(),
        ChannelError::AuthenticationFailure
    );
}

#[test]
fn env_set_replaces_and_preserves() {
    let env = vec![
        ("A".to_string(), "1".to_string()),
        ("B".to_string(), "2".to_string()),
    ];
    let env = env_set(env, "A".to_string(), "9".to_string());
    assert_eq!(env_get(&env, &"A".to_string()), Some("9".to_string()));
    assert_eq!(env_get(&env, &"B".to_string()), Some("2".to_string()));
    let env = env_set(env, "C".to_string(), "3".to_string());
    assert_eq!(env_get(&env, &"C".to_string()), Some("3".to_string()));
    assert_eq!(env_get(&env, &"A".to_string()), Some("9".to_string()));
    assert_eq!(env_get(&env, &"Z".to_string()), None);
}
