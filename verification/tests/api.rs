use how2cli::api::{
    bearer, chat_completions_url, completion_from, completion_result, models_in, models_result,
    models_url, ApiError,
};
use how2cli::stream::StreamDecoder;

#[test]
fn endpoints() {
    assert_eq!(chat_completions_url("https://x.io"), "https://x.io/v1/chat/completions");
    assert_eq!(chat_completions_url("https://x.io//"), "https://x.io/v1/chat/completions");
    assert_eq!(models_url("http://h/"), "http://h/v1/models");
    assert_eq!(bearer("sk-1"), "Bearer sk-1");
}

#[test]
fn completion_replies() {
    let ok = r#"{"choices":[{"message":{"content":"COMMAND: ls"}}]}"#;
    assert_eq!(completion_result(true, "200 OK", ok).unwrap(), "COMMAND: ls");
    let missing = r#"{"choices":[]}"#;
    assert!(matches!(completion_result(true, "200 OK", missing), Err(ApiError::MissingContent)));
    assert!(matches!(completion_result(true, "200 OK", "not json"), Err(ApiError::Decode)));
    let e = completion_result(false, "401 Unauthorized", "bad key").unwrap_err();
    assert_eq!(e.message(), "API 請求失敗 (401 Unauthorized): bad key");
    assert_eq!(ApiError::MissingContent.message(), "無法解析 API 回應");
    assert!(matches!(completion_from(None), Err(ApiError::Decode)));
    assert_eq!(completion_from(Some(Some("x".to_string()))).unwrap(), "x");
}

#[test]
fn model_lists() {
    let body = r#"{"data":[{"id":"a"},{"id":3},{"id":"b"}]}"#;
    assert_eq!(models_result(true, "200 OK", body).unwrap(), vec!["a".to_string(), "b".to_string()]);
    assert_eq!(models_result(true, "200 OK", r#"{"data":1}"#).unwrap(), Vec::<String>::new());
    assert!(matches!(models_result(true, "200 OK", "{"), Err(ApiError::Decode)));
    assert!(matches!(models_result(false, "500", "x"), Err(ApiError::Http(_, _))));
    assert_eq!(
        models_in(r#"{"data":[{"x":1},{"id":"m"}]}"#).unwrap(),
        vec!["m".to_string()]
    );
}

#[test]
fn stream_decoding() {
    let mut d = StreamDecoder::new();
    let p1 = d.push_chunk("data: {\"choices\":[{\"delta\":{\"content\":\"Hel\"}}]}\n\ndata: {\"choi");
    assert_eq!(p1, vec!["Hel".to_string()]);
    assert_eq!(d.full_response(), "Hel");
    let p2 = d.push_chunk("ces\":[{\"delta\":{\"content\":\"lo\"}}]}\n: comment\ndata: [DONE]\ndata: x\n");
    assert_eq!(p2, vec!["lo".to_string()]);
    assert!(d.is_done());
    let p3 = d.push_chunk("data: {\"choices\":[{\"delta\":{\"content\":\"!\"}}]}\n");
    assert!(p3.is_empty());
    assert_eq!(d.into_response(), "Hello");
}

#[test]
fn stream_chunking_does_not_matter() {
    let text = "data: {\"choices\":[{\"delta\":{\"content\":\"a\"}}]}\r\ndata: {\"choices\":[{\"delta\":{}}]}\ndata: {\"choices\":[{\"delta\":{\"content\":\"b\"}}]}\n";
    let mut whole = StreamDecoder::new();
    let all = whole.push_chunk(text);
    for cut in 0..text.len() {
        if !text.is_char_boundary(cut) {
            continue;
        }
        let mut d = StreamDecoder::new();
        let mut pieces = d.push_chunk(&text[..cut]);
        pieces.extend(d.push_chunk(&text[cut..]));
        assert_eq!(pieces, all);
        assert_eq!(d.full_response(), whole.full_response());
    }
    assert_eq!(whole.full_response(), "ab");
    assert!(!whole.is_done());
}

#[test]
fn answer_is_the_pieces_shown() {
    let mut d = StreamDecoder::new();
    let mut shown = String::new();
    for chunk in [
        "data: {\"choices\":[{\"delta\":{\"content\":\"do\"}}]}\nda",
        "ta: {\"choices\":[{\"delta\":{\"content\":\"cker\"}}]}\n",
        "data: {\"choices\":[{\"delta\":{\"content\":\" ps\"}}]}\n\n",
    ] {
        for p in d.push_chunk(chunk) {
            shown.push_str(&p);
        }
    }
    assert_eq!(shown, "docker ps");
    assert_eq!(d.full_response(), shown);
}
