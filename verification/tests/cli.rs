use how2cli::cli::{is_think_mode, join_query, pick_response, result_layout, search_model_name};
use how2cli::config::Config;

#[test]
fn think_mode_by_program_name() {
    assert!(is_think_mode(Some("/usr/local/bin/ht")));
    assert!(is_think_mode(Some("ht")));
    assert!(!is_think_mode(Some("/usr/local/bin/h")));
    assert!(!is_think_mode(Some("hts")));
    assert!(!is_think_mode(None));
}

#[test]
fn search_model_choice() {
    let c = Config {
        base_url: String::new(),
        api_key: String::new(),
        fast_model: "deepseek-chat".to_string(),
        slow_model: String::new(),
        fast_timeout: 30,
        slow_timeout: 300,
        custom_prompt: String::new(),
        session_limit: 100,
        modes: vec![],
        show_token_usage: true,
        stream_output: true,
    };
    assert_eq!(search_model_name(None, &c), "deepseek-chat-search");
    assert_eq!(search_model_name(Some("gpt-4o"), &c), "gpt-4o-search");
}

#[test]
fn response_choice() {
    assert_eq!(pick_response(Some("s".to_string()), Ok("d".to_string())), Ok("s".to_string()));
    assert_eq!(pick_response(None, Ok("d".to_string())), Ok("d".to_string()));
    assert_eq!(pick_response(None, Err("e".to_string())), Err("e".to_string()));
}

#[test]
fn query_joining() {
    let w = vec!["list".to_string(), "all".to_string(), "docker".to_string()];
    assert_eq!(join_query(&w), "list all docker");
    assert_eq!(join_query(&vec![]), "");
    assert_eq!(join_query(&vec!["x".to_string()]), "x");
}

#[test]
fn layout() {
    assert_eq!(result_layout("ls", "lists", true), (true, true));
    assert_eq!(result_layout("", "lists", false), (false, false));
    assert_eq!(result_layout("ls", "", true), (true, false));
}
