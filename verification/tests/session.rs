use how2cli::session::{
    frame_exchange, history_from_messages, sanitize_path, session_file_name, session_records,
    Message,
};

fn m(role: &str, content: &str) -> Message {
    Message { role: role.to_string(), content: content.to_string() }
}

fn p(a: &str, b: &str) -> (String, String) {
    (a.to_string(), b.to_string())
}

#[test]
fn pairs_user_with_assistant() {
    let msgs = vec![
        m("user", "q1"),
        m("assistant", "a1"),
        m("user", "lost"),
        m("user", "q2"),
        m("system", "x"),
        m("assistant", "a2"),
        m("assistant", "orphan"),
    ];
    assert_eq!(history_from_messages(&msgs, None), vec![p("q1", "a1"), p("q2", "a2")]);
}

#[test]
fn limit_keeps_most_recent() {
    let msgs = vec![
        m("user", "1"),
        m("assistant", "a"),
        m("user", "2"),
        m("assistant", "b"),
        m("user", "3"),
        m("assistant", "c"),
    ];
    assert_eq!(history_from_messages(&msgs, Some(4)), vec![p("2", "b"), p("3", "c")]);
    assert_eq!(history_from_messages(&msgs, Some(3)), vec![p("3", "c")]);
    assert_eq!(history_from_messages(&msgs, Some(1)), Vec::<(String, String)>::new());
    assert_eq!(history_from_messages(&msgs, Some(0)), Vec::<(String, String)>::new());
    assert_eq!(history_from_messages(&msgs, Some(100)).len(), 3);
}

#[test]
fn appended_exchange_comes_back_last() {
    let mut msgs = vec![m("user", "dangling")];
    msgs.push(m("user", "what is my ip"));
    msgs.push(m("assistant", "curl ifconfig.me"));
    let h = history_from_messages(&msgs, Some(2));
    assert_eq!(h, vec![p("what is my ip", "curl ifconfig.me")]);
}

#[test]
fn records_skip_blank_lines() {
    assert_eq!(session_records("a\n\n  \nb\r\n"), vec!["a", "b"]);
    assert_eq!(session_records(""), Vec::<&str>::new());
}

#[test]
fn framing_exchange() {
    assert_eq!(frame_exchange(Some("{\"u\":1}"), Some("{\"a\":2}")), "{\"u\":1}\n{\"a\":2}\n");
    assert_eq!(frame_exchange(None, Some("x")), "x\n");
    assert_eq!(frame_exchange(None, None), "");
    let framed = frame_exchange(Some("u"), Some("a"));
    assert_eq!(session_records(&framed), vec!["u", "a"]);
}

#[test]
fn sanitize_examples() {
    assert_eq!(sanitize_path("/home/joe/dev/project-a"), "home_joe_dev_project-a");
    assert_eq!(sanitize_path("C:\\Users\\joe"), "C:_Users_joe");
    assert_eq!(sanitize_path("__/x"), "x");
    assert_eq!(sanitize_path("/"), "");
    assert_eq!(session_file_name("/tmp"), "tmp.jsonl");
}

#[test]
fn exchange_appended_to_existing_file_reads_back_last() {
    let prior = "u1\na1\n\nu2\n";
    let text = format!("{}{}", prior, frame_exchange(Some("u3"), Some("a3")));
    assert_eq!(session_records(&text), vec!["u1", "a1", "u2", "u3", "a3"]);
    let msgs: Vec<Message> = session_records(&text)
        .into_iter()
        .map(|r| m(if r.starts_with('u') { "user" } else { "assistant" }, r))
        .collect();
    assert_eq!(history_from_messages(&msgs, None), vec![p("u1", "a1"), p("u3", "a3")]);
}
