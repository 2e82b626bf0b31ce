use how2cli::prompt::{
    build_direct_prompt, build_search_prompt, build_talk_prompt, extract_first_code_line,
    parse_response, parse_response_lowered, try_parse_response,
};
use how2cli::shell::ShellContext;

fn ctx() -> ShellContext {
    ShellContext {
        os: "linux".to_string(),
        shell: "zsh".to_string(),
        package_manager: "pacman".to_string(),
    }
}

#[test]
fn test_parse_standard_response() {
    let resp = "COMMAND: docker ps -a\nEXPLANATION: Lists all containers including stopped ones.";
    let (cmd, exp) = parse_response(resp);
    assert_eq!(cmd, "docker ps -a");
    assert!(exp.contains("Lists all containers"));
}

#[test]
fn test_parse_with_backticks() {
    let resp = "COMMAND: `docker ps -a`\nEXPLANATION: Lists all docker containers.";
    let (cmd, _) = parse_response(resp);
    assert_eq!(cmd, "docker ps -a");
}

#[test]
fn parse_exact_explanation() {
    let (cmd, exp) = parse_response("  command: ls -la \n explanation:  long listing  ");
    assert_eq!(cmd, "ls -la");
    assert_eq!(exp, "long listing");
}

#[test]
fn parse_explanation_first() {
    let (cmd, exp) = parse_response("EXPLANATION: shows files\nCOMMAND: ls");
    assert_eq!(cmd, "ls");
    assert_eq!(exp, "shows files");
}

#[test]
fn parse_command_only() {
    let (cmd, exp) = parse_response("Command: ```uname -a```");
    assert_eq!(cmd, "uname -a");
    assert_eq!(exp, "");
}

#[test]
fn parse_explanation_only_uses_code_line_before() {
    let (cmd, exp) = parse_response("$ df -h\nExplanation: disk usage");
    assert_eq!(cmd, "df -h");
    assert_eq!(exp, "disk usage");
}

#[test]
fn parse_explanation_only_nothing_before() {
    let (cmd, exp) = parse_response("Explanation: nothing to run");
    assert_eq!(cmd, "");
    assert_eq!(exp, "nothing to run");
}

#[test]
fn parse_no_markers() {
    let text = "Try this:\n```bash\nfree -m\n```\n";
    let (cmd, exp) = parse_response(text);
    assert_eq!(cmd, "free -m");
    assert_eq!(exp, "Try this:\n```bash\nfree -m\n```");
}

#[test]
fn parse_empty() {
    let (cmd, exp) = parse_response("   ");
    assert_eq!(cmd, "");
    assert_eq!(exp, "");
}

#[test]
fn parse_non_ascii_text() {
    let (cmd, exp) = parse_response("COMMAND: echo 你好\nEXPLANATION: 印出問候");
    assert_eq!(cmd, "echo 你好");
    assert_eq!(exp, "印出問候");
}

#[test]
fn lowered_form_is_used_for_markers() {
    let (cmd, exp) = parse_response_lowered("X COMMAND: a EXPLANATION: b", "x command: a explanation: b");
    assert_eq!(cmd, "a");
    assert_eq!(exp, "b");
}

#[test]
fn try_parse_gives_some_for_plain_replies() {
    let r = try_parse_response("COMMAND: pwd\nEXPLANATION: where you are");
    assert_eq!(r, Some(("pwd".to_string(), "where you are".to_string())));
}

#[test]
fn formatted_replies_read_back_exactly() {
    let cases = [
        ("grep -rn 'TODO' .", "Sucht rekursiv nach \u{201e}TODO\u{201c} \u{2013} mit Zeilennummern."),
        ("Get-ChildItem -Recurse", ""),
        ("", "nothing to run"),
        ("echo COMMAND: x", "prints it"),
    ];
    for (c, e) in cases {
        let reply = format!("COMMAND: {}\nEXPLANATION: {}", c, e);
        assert_eq!(try_parse_response(&reply), Some((c.to_string(), e.to_string())));
    }
}

#[test]
fn try_parse_refuses_cuts_inside_characters() {
    // U+0130 is two bytes; its lower-case form is three, which moves the
    // marker offsets found in the lower-case text off the text's characters.
    let r = try_parse_response("\u{130}COMMAND:\u{e9}");
    assert_eq!(r, None);
    // the same shift, landing on a character boundary: the cut is made there
    let s = try_parse_response("\u{130}COMMAND: ls");
    assert_eq!(s, Some(("ls".to_string(), String::new())));
}

#[test]
fn code_line_from_fence() {
    assert_eq!(extract_first_code_line("intro\n```\n\n  ls -l  \n```"), "ls -l");
}

#[test]
fn code_line_skips_comments_and_short_lines() {
    assert_eq!(extract_first_code_line("# note\n// c\nab\ngit status"), "git status");
}

#[test]
fn code_line_dollar_prompt() {
    assert_eq!(extract_first_code_line("  $  whoami "), "whoami");
}

#[test]
fn code_line_falls_back_to_first_line() {
    assert_eq!(extract_first_code_line(" # a \nb"), "# a");
    assert_eq!(extract_first_code_line(""), "");
}

#[test]
fn code_line_counts_bytes_not_characters() {
    // two characters, four bytes: longer than two bytes
    assert_eq!(extract_first_code_line("\u{e9}\u{e9}"), "\u{e9}\u{e9}");
}

#[test]
fn talk_prompt_default_and_custom() {
    assert_eq!(build_talk_prompt(""), "You are a helpful assistant. Answer concisely.");
    assert_eq!(build_talk_prompt("Be brief"), "Be brief");
}

#[test]
fn direct_prompt_text() {
    let p = build_direct_prompt(&ctx(), "");
    assert_eq!(
        p,
        "You are a command-line expert. The user is on linux using zsh shell with pacman package manager.\n\
         The user will describe what they want to do. Give the exact shell command and a brief explanation.\n\
         Respond ONLY in this format:\n\
         COMMAND: <the command>\n\
         EXPLANATION: <brief explanation of what the command does, what each flag means, help the user understand and remember>"
    );
    let q = build_direct_prompt(&ctx(), "Use Chinese");
    assert_eq!(q, format!("{}\n\nAdditional instructions from user:\nUse Chinese", p));
}

#[test]
fn search_prompt_text() {
    let p = build_search_prompt(&ctx(), "x");
    assert!(p.starts_with("You are a command-line expert. The user is on linux using zsh shell with pacman package manager.\nThe user will describe what they want to do. Think carefully and verify your answer. Search for the most accurate and up-to-date command. Consider edge cases and common pitfalls.\nRespond ONLY in this format:\n"));
    assert!(p.ends_with("remember>\n\nAdditional instructions from user:\nx"));
}
