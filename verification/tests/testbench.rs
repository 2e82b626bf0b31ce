use how2cli::testbench::{
    base_of_lowered_words, command_matches, extract_all_bases, extract_base_from_segment,
};

fn v(xs: &[&str]) -> Vec<String> {
    xs.iter().map(|s| s.to_string()).collect()
}

#[test]
fn base_of_compound_command() {
    assert_eq!(extract_base_from_segment("docker ps -a"), v(&["docker", "ps"]));
}

#[test]
fn base_skips_sudo() {
    assert_eq!(extract_base_from_segment("sudo ss -tulpn"), v(&["ss"]));
    assert_eq!(extract_base_from_segment("SUDO Git Log"), v(&["git", "log"]));
}

#[test]
fn base_of_simple_command() {
    assert_eq!(extract_base_from_segment("find . -name '*.txt'"), v(&["find"]));
}

#[test]
fn base_stops_at_flag() {
    assert_eq!(extract_base_from_segment("git --version"), v(&["git"]));
}

#[test]
fn base_of_empty_and_lone_sudo() {
    assert_eq!(extract_base_from_segment("   "), Vec::<String>::new());
    assert_eq!(extract_base_from_segment("sudo"), Vec::<String>::new());
}

#[test]
fn base_from_lowered_words() {
    assert_eq!(base_of_lowered_words(&v(&["sudo", "apt", "install", "x"])), v(&["apt", "install"]));
    assert_eq!(base_of_lowered_words(&v(&["sudo", "sudo", "ls"])), v(&["sudo"]));
}

#[test]
fn all_bases_of_pipeline() {
    assert_eq!(
        extract_all_bases("echo hello | tr a-z A-Z"),
        vec![v(&["echo"]), v(&["tr"])]
    );
    assert_eq!(
        extract_all_bases("cat /dev/urandom | tr -dc a-z | head -c 16; ls"),
        vec![v(&["cat"]), v(&["tr"]), v(&["head"]), v(&["ls"])]
    );
    assert_eq!(extract_all_bases(" | ; "), Vec::<Vec<String>>::new());
}

#[test]
fn matching_commands() {
    assert!(command_matches("sudo docker ps -a", &v(&["docker ps"])));
    assert!(command_matches("ls -la | grep x", &v(&["du -sh", "grep foo"])));
    assert!(!command_matches("docker images", &v(&["docker ps"])));
    assert!(!command_matches("", &v(&[""])));
    assert!(!command_matches("ls", &[]));
}

#[test]
fn matching_is_symmetric_on_examples() {
    let pairs = [("docker ps", "sudo docker ps -q"), ("ls", "pwd"), ("a | b", "b")];
    for (a, b) in pairs {
        assert_eq!(
            command_matches(a, &v(&[b])),
            command_matches(b, &v(&[a]))
        );
    }
}

#[test]
fn a_command_matches_itself_when_it_has_a_base() {
    assert!(command_matches("git commit -m x", &v(&["git commit -m x"])));
    assert!(!command_matches("  ;  ", &v(&["  ;  "])));
}

#[test]
fn leading_sudo_keeps_bases_and_matches() {
    let lines = ["docker ps -a | grep web", "  ls -la; git status", "| tr a-z A-Z", ""];
    let expected = v(&["git status", "docker ps", "ls"]);
    for line in lines {
        for w in ["sudo", "SUDO", "Sudo"] {
            let prefixed = format!("{} {}", w, line);
            assert_eq!(extract_all_bases(&prefixed), extract_all_bases(line));
            assert_eq!(command_matches(&prefixed, &expected), command_matches(line, &expected));
        }
    }
}
