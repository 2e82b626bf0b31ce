use how2cli::shell::{choose_package_manager, detect_shell, package_manager_candidate, ShellContext, ShellProbe};

#[test]
fn package_manager_choice() {
    assert_eq!(choose_package_manager(&vec![false, true, true]), "apt");
    assert_eq!(choose_package_manager(&vec![false, false, false, false, true]), "zypper");
    assert_eq!(choose_package_manager(&vec![false; 5]), "unknown");
    assert_eq!(choose_package_manager(&vec![false, false, false, false, false, true]), "unknown");
    assert_eq!(choose_package_manager(&vec![]), "unknown");
    assert_eq!(package_manager_candidate(0), Some("pacman"));
    assert_eq!(package_manager_candidate(5), None);
}

#[test]
fn shell_names() {
    assert_eq!(detect_shell(false, false, &Some("/usr/bin/zsh".to_string())), "zsh");
    assert_eq!(detect_shell(false, false, &Some("/".to_string())), "sh");
    assert_eq!(detect_shell(false, false, &None), "sh");
    assert_eq!(detect_shell(true, true, &None), "powershell");
    assert_eq!(detect_shell(true, false, &Some("/bin/bash".to_string())), "cmd");
}

#[test]
fn detect_from_probe() {
    let probe = ShellProbe {
        os: "linux".to_string(),
        windows: false,
        powershell: false,
        shell_var: Some("/bin/bash".to_string()),
        package_managers_found: vec![false, false, true],
    };
    let ctx = ShellContext::detect(&probe);
    assert_eq!(ctx.os, "linux");
    assert_eq!(ctx.shell, "bash");
    assert_eq!(ctx.package_manager, "brew");
}
