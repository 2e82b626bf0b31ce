use how2cli::config::{
    file_config_from_answers, mode_defaults, mode_from_answers, parse_u64, resolve_config,
    resolve_settings, validate_mode_count, Config, EnvSettings, FileConfig, ModeConfig,
};

fn no_env() -> EnvSettings {
    EnvSettings {
        base_url: None,
        api_key: None,
        fast_model: None,
        slow_model: None,
        fast_timeout: None,
        slow_timeout: None,
        custom_prompt: None,
        session_limit: None,
    }
}

fn empty_file() -> FileConfig {
    FileConfig {
        base_url: None,
        api_key: None,
        fast_model: None,
        slow_model: None,
        fast_timeout: None,
        slow_timeout: None,
        custom_prompt: None,
        session_limit: None,
        modes: None,
        show_token_usage: None,
        stream_output: None,
    }
}

fn sample() -> Config {
    Config {
        base_url: "https://api.example.com".to_string(),
        api_key: "sk-1".to_string(),
        fast_model: "gpt-4o-mini".to_string(),
        slow_model: "gpt-4o".to_string(),
        fast_timeout: 60,
        slow_timeout: 600,
        custom_prompt: String::new(),
        session_limit: 200,
        modes: vec![ModeConfig { name: Some("talk".to_string()), flags: Some("-t".to_string()) }],
        show_token_usage: false,
        stream_output: true,
    }
}

#[test]
fn defaults_apply() {
    let c = resolve_settings(no_env(), empty_file());
    assert_eq!(c.base_url, "https://ds.fsmallcold.top");
    assert_eq!(c.api_key, "");
    assert_eq!(c.fast_model, "deepseek-chat");
    assert_eq!(c.slow_model, "deepseek-reasoner");
    assert_eq!(c.fast_timeout, 30);
    assert_eq!(c.slow_timeout, 300);
    assert_eq!(c.session_limit, 100);
    assert!(c.modes.is_empty());
    assert!(c.show_token_usage);
    assert!(c.stream_output);
}

#[test]
fn missing_key_is_an_error() {
    let r = resolve_config(no_env(), empty_file());
    assert_eq!(r.unwrap_err(), "未找到 API key。請執行 `h --setup` 進行設定。");
}

#[test]
fn environment_beats_file() {
    let mut env = no_env();
    env.fast_model = Some("env-model".to_string());
    env.fast_timeout = Some("45".to_string());
    env.session_limit = Some("abc".to_string());
    let mut file = empty_file();
    file.fast_model = Some("file-model".to_string());
    file.api_key = Some("sk-file".to_string());
    file.fast_timeout = Some(10);
    file.session_limit = Some(7);
    let c = resolve_config(env, file).unwrap();
    assert_eq!(c.fast_model, "env-model");
    assert_eq!(c.api_key, "sk-file");
    assert_eq!(c.fast_timeout, 45);
    assert_eq!(c.session_limit, 7);
}

#[test]
fn parse_numbers() {
    assert_eq!(parse_u64("42"), Some(42));
    assert_eq!(parse_u64("+7"), Some(7));
    assert_eq!(parse_u64("18446744073709551615"), Some(u64::MAX));
    assert_eq!(parse_u64("18446744073709551616"), None);
    assert_eq!(parse_u64(""), None);
    assert_eq!(parse_u64("+"), None);
    assert_eq!(parse_u64("-1"), None);
    assert_eq!(parse_u64(" 1"), None);
    assert_eq!(parse_u64("1x"), None);
}

#[test]
fn search_model_name() {
    assert_eq!(sample().search_model(), "gpt-4o-mini-search");
}

#[test]
fn mode_count_limit() {
    assert!(validate_mode_count(9).is_ok());
    assert_eq!(validate_mode_count(10).unwrap_err(), "最多只能定義 9 個模式");
}

#[test]
fn mode_answers() {
    let m = mode_from_answers(String::new(), "-t -u".to_string());
    assert_eq!(m.name, None);
    assert_eq!(m.flags, Some("-t -u".to_string()));
    let existing = vec![ModeConfig { name: Some("a".to_string()), flags: None }];
    assert_eq!(mode_defaults(&existing, 0), ("a".to_string(), String::new()));
    assert_eq!(mode_defaults(&existing, 3), (String::new(), String::new()));
}

#[test]
fn setup_round_trip() {
    let c = sample();
    let file = file_config_from_answers(c.clone());
    assert_eq!(file.custom_prompt, None);
    assert_eq!(file.fast_timeout, Some(60));
    let back = resolve_config(no_env(), file).unwrap();
    assert_eq!(back.base_url, c.base_url);
    assert_eq!(back.api_key, c.api_key);
    assert_eq!(back.fast_model, c.fast_model);
    assert_eq!(back.slow_model, c.slow_model);
    assert_eq!(back.fast_timeout, c.fast_timeout);
    assert_eq!(back.slow_timeout, c.slow_timeout);
    assert_eq!(back.custom_prompt, c.custom_prompt);
    assert_eq!(back.session_limit, c.session_limit);
    assert_eq!(back.modes.len(), 1);
    assert_eq!(back.modes[0].flags, Some("-t".to_string()));
    assert_eq!(back.show_token_usage, c.show_token_usage);
    assert_eq!(back.stream_output, c.stream_output);
}

#[test]
fn default_mode_is_empty() {
    let m = ModeConfig::default();
    assert_eq!(m.name, None);
    assert_eq!(m.flags, None);
}

fn same_settings(x: &Config, y: &Config) -> bool {
    x.base_url == y.base_url
        && x.api_key == y.api_key
        && x.fast_model == y.fast_model
        && x.slow_model == y.slow_model
        && x.fast_timeout == y.fast_timeout
        && x.slow_timeout == y.slow_timeout
        && x.custom_prompt == y.custom_prompt
        && x.session_limit == y.session_limit
        && x.modes.len() == y.modes.len()
        && x.modes.iter().zip(y.modes.iter()).all(|(a, b)| a.name == b.name && a.flags == b.flags)
        && x.show_token_usage == y.show_token_usage
        && x.stream_output == y.stream_output
}

#[test]
fn setup_loses_nothing_when_loading_sees_more_variables() {
    let mut file = empty_file();
    file.api_key = Some("sk-file".to_string());
    file.slow_timeout = Some(120);
    file.modes = Some(vec![ModeConfig { name: Some("talk".to_string()), flags: Some("-t".to_string()) }]);
    let mut setup_env = no_env();
    setup_env.fast_model = Some("m-env".to_string());
    setup_env.fast_timeout = Some("not a number".to_string());
    let mut load_env = setup_env.clone();
    load_env.base_url = Some("https://other.example".to_string());
    load_env.session_limit = Some("8".to_string());
    let answers = resolve_settings(setup_env, file.clone());
    let saved = file_config_from_answers(answers);
    let after = resolve_settings(load_env.clone(), saved);
    let before = resolve_settings(load_env, file);
    assert!(same_settings(&after, &before));
    assert_eq!(after.fast_model, "m-env");
    assert_eq!(after.fast_timeout, 30);
    assert_eq!(after.slow_timeout, 120);
    assert_eq!(after.session_limit, 8);
    assert_eq!(after.base_url, "https://other.example");
}
