use maze_engine::GlobalHeaders;
use maze_engine::HeaderError;
use maze_engine::HitCount;
use maze_engine::PostForm;
use maze_engine::PostJson;
use maze_engine::check_token;
use maze_engine::count;
use maze_engine::internal_server_error;
use maze_engine::normal_request;
use maze_engine::post;
use maze_engine::post_json;
use maze_engine::post_with_body;
use maze_engine::token_error;
use std::collections::HashMap;

#[test]
fn echoes_body() {
    assert_eq!(post_with_body(String::from("ping")), "ping");
}

#[test]
fn formats_form() {
    let form = PostForm { lang: String::from("rust"), body: String::from("hi") };
    assert_eq!(post(form), "lang: rust, body: hi");
}

#[test]
fn formats_json_post() {
    let data = PostJson { lang: String::from("go"), body: String::from("x") };
    assert_eq!(post_json(data), "lang: go, body: x");
}

#[test]
fn error_texts() {
    assert_eq!(token_error(), "token error");
    assert_eq!(internal_server_error(), "internal server error");
}

#[test]
fn token_decisions() {
    assert_eq!(check_token(None).unwrap_err(), HeaderError::TokenMiss);
    assert_eq!(check_token(Some("999")).unwrap_err(), HeaderError::BadToken);
    assert_eq!(check_token(Some("123")).unwrap().token, "123");
}

#[test]
fn hit_counter() {
    let mut hits = HitCount { count: 0 };
    assert_eq!(count(&mut hits), "hit count: 0");
    assert_eq!(count(&mut hits), "hit count: 1");
    let mut hits = HitCount { count: 41 };
    assert_eq!(count(&mut hits), "hit count: 41");
    assert_eq!(hits.count, 42);
}

#[test]
fn assembles_normal_response() {
    let mut data: HashMap<String, String> = HashMap::new();
    data.insert(String::from("k"), String::from("v"));
    let headers = GlobalHeaders { token: String::from("123") };
    let r = normal_request(7, None, data.clone(), headers);
    assert_eq!(r.id, 7);
    assert_eq!(r.name, "");
    assert_eq!(r.json_data, data);
    let headers = GlobalHeaders { token: String::from("123") };
    let r = normal_request(8, Some(String::from("ada")), data.clone(), headers);
    assert_eq!(r.name, "ada");
}
