//! The user's environment as the prompts describe it: operating system,
//! shell and package manager.

use vstd::prelude::*;
use crate::text::owned;
use crate::path::{file_name, file_name_of};

verus! {

/// What a prompt tells the model about the user's machine.
#[derive(Debug, Clone)]
pub struct ShellContext {
    pub os: String,
    pub shell: String,
    pub package_manager: String,
}

/// What was observed of the environment: the operating system's name, whether
/// it is Windows, whether `PSModulePath` is set, the `SHELL` variable, and for
/// each package manager probed in order whether it was found.
#[derive(Debug, Clone)]
pub struct ShellProbe {
    pub os: String,
    pub windows: bool,
    pub powershell: bool,
    pub shell_var: Option<String>,
    pub package_managers_found: Vec<bool>,
}

/// The package managers looked for, in order of preference.
pub open spec fn package_manager_name(i: int) -> Seq<char> {
    if i == 0 {
        "pacman"@
    } else if i == 1 {
        "apt"@
    } else if i == 2 {
        "brew"@
    } else if i == 3 {
        "dnf"@
    } else {
        "zypper"@
    }
}

/// Number of package managers looked for.
pub open spec fn package_manager_count() -> int {
    5
}

/// The `i`-th package manager to look for, if there is one.
pub fn package_manager_candidate(i: usize) -> (r: Option<&'static str>)
    ensures
        r matches Some(n) ==> i < package_manager_count() && n@ == package_manager_name(i as int),
        r is None ==> i >= package_manager_count(),
{
    if i == 0 {
        Some("pacman")
    } else if i == 1 {
        Some("apt")
    } else if i == 2 {
        Some("brew")
    } else if i == 3 {
        Some("dnf")
    } else if i == 4 {
        Some("zypper")
    } else {
        None
    }
}

/// Index of the first package manager (among those looked for) that was found.
pub open spec fn first_found(found: Seq<bool>, i: int) -> Option<int>
    decreases package_manager_count() - i,
{
    if i < 0 || i >= package_manager_count() || i >= found.len() {
        None
    } else if found[i] {
        Some(i)
    } else {
        first_found(found, i + 1)
    }
}

/// The package manager named to the model.
pub open spec fn package_manager_of(found: Seq<bool>) -> Seq<char> {
    match first_found(found, 0) {
        Some(i) => package_manager_name(i),
        None => "unknown"@,
    }
}

proof fn lemma_first_found_is(found: Seq<bool>, k: int, i: int)
    requires
        0 <= k <= i < 5,
        i < found.len(),
        found[i],
        forall|j: int| 0 <= j < i ==> !found[j],
    ensures
        first_found(found, k) == Some(i),
    decreases i - k,
{
    if k < i {
        lemma_first_found_is(found, k + 1, i);
    }
}

proof fn lemma_none_found(found: Seq<bool>, k: int)
    requires
        0 <= k,
        forall|j: int| 0 <= j < found.len() && j < 5 ==> !found[j],
    ensures
        first_found(found, k) is None,
    decreases 5 - k,
{
    if k < 5 && k < found.len() {
        lemma_none_found(found, k + 1);
    }
}

/// Package managers are preferred in the order pacman, apt, brew, dnf,
/// zypper: when the `i`-th of them is found and none before it, it is the one
/// named.
pub proof fn first_found_manager_is_named(found: Seq<bool>, i: int)
    requires
        0 <= i < 5,
        i < found.len(),
        found[i],
        forall|j: int| 0 <= j < i ==> !found[j],
    ensures
        package_manager_of(found) == seq!["pacman"@, "apt"@, "brew"@, "dnf"@, "zypper"@][i],
{
    lemma_first_found_is(found, 0, i);
}

/// When none of pacman, apt, brew, dnf and zypper is found, `unknown` is
/// named.
pub proof fn no_manager_found_is_unknown(found: Seq<bool>)
    requires
        forall|j: int| 0 <= j < found.len() && j < 5 ==> !found[j],
    ensures
        package_manager_of(found) == "unknown"@,
{
    lemma_none_found(found, 0);
}

/// The first package manager that was found, or `unknown`.
pub fn choose_package_manager(found: &Vec<bool>) -> (r: String)
    ensures
        r@ == package_manager_of(found@),
{
    let mut i: usize = 0;
    while i < found.len()
        invariant
            i <= found@.len(),
            i <= package_manager_count(),
            first_found(found@, 0) == first_found(found@, i as int),
        decreases found@.len() - i,
    {
        match package_manager_candidate(i) {
            Some(name) => {
                if found[i] {
                    return owned(name);
                }
            },
            None => {
                return owned("unknown");
            },
        }
        i += 1;
    }
    owned("unknown")
}

/// The shell named to the model.
pub open spec fn shell_of(windows: bool, powershell: bool, shell_var: Option<Seq<char>>) -> Seq<
    char,
> {
    if windows {
        if powershell {
            "powershell"@
        } else {
            "cmd"@
        }
    } else {
        match shell_var {
            Some(v) => match file_name_of(v) {
                Some(n) => n,
                None => "sh"@,
            },
            None => "sh"@,
        }
    }
}

pub open spec fn opt_view(o: Option<String>) -> Option<Seq<char>> {
    match o {
        Some(s) => Some(s@),
        None => None,
    }
}

/// On Windows, PowerShell when `PSModulePath` is set and cmd otherwise;
/// elsewhere the file name of `SHELL`, or `sh`.
pub fn detect_shell(windows: bool, powershell: bool, shell_var: &Option<String>) -> (r: String)
    ensures
        r@ == shell_of(windows, powershell, opt_view(*shell_var)),
{
    if windows {
        if powershell {
            owned("powershell")
        } else {
            owned("cmd")
        }
    } else {
        match shell_var {
            Some(v) => match file_name(v.as_str()) {
                Some(n) => n,
                None => owned("sh"),
            },
            None => owned("sh"),
        }
    }
}

impl ShellContext {
    /// The context described by what was observed of the environment.
    pub fn detect(probe: &ShellProbe) -> (r: ShellContext)
        ensures
            r.os@ == probe.os@,
            r.shell@ == shell_of(probe.windows, probe.powershell, opt_view(probe.shell_var)),
            r.package_manager@ == package_manager_of(probe.package_managers_found@),
    {
        ShellContext {
            os: owned(probe.os.as_str()),
            shell: detect_shell(probe.windows, probe.powershell, &probe.shell_var),
            package_manager: choose_package_manager(&probe.package_managers_found),
        }
    }
}

} // verus!
