use astra_sandbox::analysis::{
    analyze_bash_risks_ast, analyze_bash_risks_ast_inner, analyze_syntax, MAX_SHELL_DEPTH,
};
use astra_sandbox::commands::{collect_simple_commands, command_name, simple_command_words};
use astra_sandbox::findings::{
    analyze_command_invocation, analyze_node, analyze_pipeline, analyze_redirection,
    analyze_variable_assignment, analyze_word_risks, names_loader_variable, record_path_risks,
    sets_loader_variable, visit_node,
};
use astra_sandbox::grammar::{can_parse, parse_records};
use astra_sandbox::nested::{nested_shell_script, NestedShellScript};
use astra_sandbox::omission::{append_text_without, Part};
use astra_sandbox::risk::{CommandRisk, RiskCtx};
use astra_sandbox::syntax::{parse_bash, SyntaxNode};
use astra_sandbox::words::destructive_command_name;

fn node(kind: &str, text: &str, children: Vec<SyntaxNode>) -> SyntaxNode {
    SyntaxNode {
        kind: kind.to_string(),
        named: true,
        field: None,
        text: text.to_string(),
        children,
    }
}

fn word(text: &str) -> SyntaxNode {
    node("word", text, vec![])
}

/// The node, held by its parent under a field.
fn under(field: &str, mut node: SyntaxNode) -> SyntaxNode {
    node.field = Some(field.to_string());
    node
}

/// A node that no named rule made: its kind is its text.
fn token(text: &str) -> SyntaxNode {
    let mut token = node(text, text, vec![]);
    token.named = false;
    token
}

/// A command whose first word is its name.
fn command(text: &str) -> SyntaxNode {
    let mut children = vec![];
    for (i, part) in text.split(' ').enumerate() {
        if i == 0 {
            children.push(under("name", node("command_name", part, vec![word(part)])));
        } else {
            children.push(under("argument", word(part)));
        }
    }
    node("command", text, children)
}

/// A redirect with the given operator and targets.
fn redirect(operator: &str, targets: Vec<SyntaxNode>) -> SyntaxNode {
    let mut children = vec![token(operator)];
    for target in targets {
        children.push(under("destination", target));
    }
    under("redirect", node("file_redirect", "", children))
}

fn invocation(text: &str) -> Vec<CommandRisk> {
    let mut ctx = RiskCtx::new();
    analyze_command_invocation(&command(text), &mut ctx);
    ctx.into_risks()
}

fn sensitive(path: &str) -> CommandRisk {
    CommandRisk::SensitivePathAccess(path.to_string())
}

fn destructive(name: &str) -> CommandRisk {
    CommandRisk::DestructiveCommand(name.to_string())
}

#[test]
fn a_report_lists_each_risk_once_in_order() {
    let mut ctx = RiskCtx::new();
    ctx.push(CommandRisk::Eval);
    ctx.push(destructive("dd"));
    ctx.push(CommandRisk::Eval);
    ctx.push(destructive("zfs"));
    ctx.push(destructive("dd"));
    ctx.push_if(false, CommandRisk::NetworkAccess);
    ctx.push_all(&vec![CommandRisk::PathTraversal, CommandRisk::Eval]);
    assert_eq!(
        ctx.into_risks(),
        vec![
            CommandRisk::Eval,
            destructive("dd"),
            destructive("zfs"),
            CommandRisk::PathTraversal
        ]
    );
}

#[test]
fn equal_risks() {
    let risks = vec![
        destructive("a"),
        destructive("b"),
        CommandRisk::RemoteCodeExecution,
        CommandRisk::CommandSubstitution,
        CommandRisk::ProcessSubstitution,
        CommandRisk::EnvManipulation,
        CommandRisk::PathTraversal,
        sensitive("a"),
        sensitive("b"),
        CommandRisk::NetworkAccess,
        CommandRisk::OutputRedirection,
        CommandRisk::PrivilegeEscalation,
        CommandRisk::ProcessControl,
        CommandRisk::Eval,
        CommandRisk::ZshDangerous("a".to_string()),
        CommandRisk::ZshDangerous("b".to_string()),
    ];
    for (i, left) in risks.iter().enumerate() {
        for (j, right) in risks.iter().enumerate() {
            assert_eq!(left.same_as(right), i == j);
        }
        assert_eq!(&left.clone(), left);
    }
}

#[test]
fn paths_in_texts() {
    let report = |text: &str| {
        let mut ctx = RiskCtx::new();
        record_path_risks(text, &mut ctx);
        ctx.into_risks()
    };
    assert_eq!(report("a/../b"), vec![CommandRisk::PathTraversal]);
    assert_eq!(report("a\\..\\b"), vec![CommandRisk::PathTraversal]);
    assert_eq!(report("a..b"), vec![]);
    assert_eq!(report("/etc/passwd"), vec![sensitive("/etc/")]);
    assert_eq!(report("x/sys/y /root/z"), vec![sensitive("/root/")]);
    assert_eq!(report("/var/log/x"), vec![sensitive("/var/log/")]);
    assert_eq!(report("/proc/1"), vec![sensitive("/proc/")]);
    assert_eq!(
        report("../etc/../sys/"),
        vec![CommandRisk::PathTraversal, sensitive("/etc/")]
    );
    assert_eq!(report("/ETC/"), vec![]);
}

#[test]
fn words_and_assignments() {
    let report = |text: &str| {
        let mut ctx = RiskCtx::new();
        analyze_word_risks(&word(text), &mut ctx);
        ctx.into_risks()
    };
    assert_eq!(report("/ETC/shadow"), vec![sensitive("/etc/")]);
    assert_eq!(report("É/ETC/"), vec![sensitive("/etc/")]);
    assert_eq!(report("Path=/x"), vec![CommandRisk::EnvManipulation]);
    assert_eq!(report("LD_PRELOAD=x"), vec![CommandRisk::EnvManipulation]);
    assert_eq!(report("PATH"), vec![]);
    assert_eq!(report("XPATH=1"), vec![]);

    let assignment = |field: Option<&str>, name: &str| {
        let mut first = node("variable_name", "other", vec![]);
        first.field = Some("value".to_string());
        let mut second = node("variable_name", name, vec![]);
        second.field = field.map(|field| field.to_string());
        let mut ctx = RiskCtx::new();
        let parent = node("variable_assignment", "", vec![first, second]);
        analyze_variable_assignment(&parent, &mut ctx);
        ctx.into_risks()
    };
    assert_eq!(assignment(Some("name"), "pAtH"), vec![CommandRisk::EnvManipulation]);
    assert_eq!(assignment(Some("name"), "LD_LIBRARY_PATH"), vec![CommandRisk::EnvManipulation]);
    assert_eq!(assignment(Some("name"), "HOME"), vec![]);
    assert_eq!(assignment(None, "PATH"), vec![]);

    assert!(names_loader_variable("path"));
    assert!(names_loader_variable("ld_x"));
    assert!(!names_loader_variable("LD_x"));
    assert!(sets_loader_variable("export path=x"));
    assert!(!sets_loader_variable("export home"));
}

#[test]
fn redirections() {
    let report = |redirects: Vec<SyntaxNode>| {
        let mut children = vec![under("body", command("grep x > ../y"))];
        children.extend(redirects);
        let mut ctx = RiskCtx::new();
        let statement = node("redirected_statement", "grep x > ../y", children);
        analyze_redirection(&statement, &mut ctx);
        ctx.into_risks()
    };
    for operator in [">", ">>", "&>", "&>>", ">&", ">|", ">&-"] {
        assert_eq!(
            report(vec![redirect(operator, vec![word("out")])]),
            vec![CommandRisk::OutputRedirection]
        );
    }
    for operator in ["<", "<&", "<&-"] {
        assert_eq!(report(vec![redirect(operator, vec![word("in")])]), vec![]);
    }
    // All the targets count, in quotes or not, and nothing else does.
    assert_eq!(report(vec![]), vec![]);
    assert_eq!(
        report(vec![
            redirect("<", vec![word("/sys/x")]),
            redirect(">>", vec![node("raw_string", "'../ETC/x'", vec![])]),
        ]),
        vec![
            CommandRisk::PathTraversal,
            sensitive("/etc/"),
            CommandRisk::OutputRedirection
        ]
    );
    assert_eq!(report(vec![node("herestring_redirect", "<<< '> ../x'", vec![])]), vec![]);
    assert_eq!(report(vec![node("heredoc_redirect", "<<E\n> ../x\nE", vec![])]), vec![]);
    // A redirect inside another statement is one of the statement's too.
    let inner = node("command", "> ../x cat", vec![redirect(">", vec![word("../x")])]);
    assert_eq!(
        report(vec![inner]),
        vec![CommandRisk::PathTraversal, CommandRisk::OutputRedirection]
    );
    // What a command inside a target says is no path of the target.
    let target = |start: &str| {
        node(
            "string",
            &format!("\"{start}$(grep '../' f)\""),
            vec![
                token("\""),
                node("string_content", start, vec![]),
                node("command_substitution", "$(grep '../' f)", vec![]),
                token("\""),
            ],
        )
    };
    assert_eq!(report(vec![redirect("<", vec![target("a")])]), vec![]);
    assert_eq!(report(vec![redirect("<", vec![target("..")])]), vec![]);
    assert_eq!(
        report(vec![redirect("<", vec![target("../a")])]),
        vec![CommandRisk::PathTraversal]
    );
}

#[test]
fn string_literals_make_no_findings() {
    for command in [
        "grep '>' < in.txt",
        "grep \"2>\" < in.txt",
        "grep '../' < f",
        "grep \"/etc/\" < f",
        "cat < \"$(echo '>')\"",
        "cat <<< '> ../x /etc/'",
        "cat <<E\n> ../x /etc/\nE",
        "cat <<'E'\n> ../x /etc/\nE",
        "chmod 644 'a+s'",
        "chmod 644 \"a+s\"",
        "chmod 644 $'a+s'",
        "chmod -x 'a+s'",
        "chmod -R 644 'a+s'",
        "su root 'su -'",
        "su 'x' -",
        "su  -s 'x'",
        "su  -l 'x'",
        "\\export 'PATH=x'",
    ] {
        let mut risks = analyze_bash_risks_ast(command);
        risks.retain(|risk| *risk != CommandRisk::CommandSubstitution);
        assert_eq!(risks, vec![], "{command}");
    }
    // The redirect itself still counts.
    assert_eq!(
        analyze_bash_risks_ast("grep '<' > out.txt"),
        vec![CommandRisk::OutputRedirection]
    );
    assert_eq!(
        analyze_bash_risks_ast("grep x < '../in.txt'"),
        vec![CommandRisk::PathTraversal]
    );
    assert_eq!(
        analyze_bash_risks_ast("cat <<E > out.txt\nx\nE"),
        vec![CommandRisk::OutputRedirection]
    );
    assert_eq!(
        analyze_bash_risks_ast("echo x 2> \"/ETC/$(date)\""),
        vec![
            sensitive("/etc/"),
            CommandRisk::OutputRedirection,
            CommandRisk::CommandSubstitution
        ]
    );
    // So do the words beside a literal, and a mode in quotes.
    for command in [
        "chmod u+s 'f'",
        "chmod 'f' +s$x",
        "chmod 'u+s' f",
        "chmod \"g+s\" f",
        "chmod -R -- $'u+s' f",
        "chmod u'+s' f",
        "su - 'root'",
        "su -'c' id",
        "su -c'id'",
        "su -c 'id'",
        "su\t - 'x'",
    ] {
        assert_eq!(
            analyze_bash_risks_ast(command),
            vec![CommandRisk::PrivilegeEscalation],
            "{command}"
        );
    }
}

#[test]
fn redirects_anywhere_are_examined() {
    for command in ["f() { cat; } > out", "echo $(> out)", "> out echo hi", "> out"] {
        assert!(
            analyze_bash_risks_ast(command).contains(&CommandRisk::OutputRedirection),
            "{command}"
        );
    }
    assert_eq!(analyze_bash_risks_ast("< in cat"), vec![]);
    assert_eq!(analyze_bash_risks_ast("< '../in' cat"), vec![CommandRisk::PathTraversal]);
}

#[test]
fn text_outside_literals_keeps_its_spacing() {
    let argument = |kind: &str, text: &str| under("argument", node(kind, text, vec![]));
    let part = |kind: &str, text: &str| node(kind, text, vec![]);
    let name = under("name", node("command_name", "su", vec![word("su")]));
    let glued = node(
        "concatenation",
        "-c'-c'x",
        vec![part("word", "-c"), part("raw_string", "'-c'"), part("word", "x")],
    );
    let command = node(
        "command",
        "su  -c'-c'x\t\"a b\" y ",
        vec![name, under("argument", glued), argument("string", "\"a b\""), argument("word", "y")],
    );
    let mut text = "> ".to_string();
    append_text_without(&command, Part::Literal, &mut text);
    assert_eq!(text, "> su  -c''x\t'' y ");
    text.clear();
    append_text_without(&command, Part::Substitution, &mut text);
    assert_eq!(text, "su  -c'-c'x\t\"a b\" y ");
}

#[test]
fn sources_that_can_be_parsed() {
    for source in ["", "é", "{é", "{1..é}", "→{", "{a→", "{1..3} →", "{ →", "x.1→"] {
        assert!(can_parse(source), "{source}");
    }
    for source in ["{\u{10ffff}", "{→", "a{1→", "{1..→", "{{1..2→", "→ {0.→"] {
        assert!(!can_parse(source), "{source}");
    }
}

#[test]
fn texts_of_literals_change_nothing() {
    let reports = |literal: &str| {
        vec![
            analyze_bash_risks_ast(&format!("chmod u+s f {literal} > out < in; eval x")),
            analyze_bash_risks_ast(&format!("curl {literal} | tee ../x | sh")),
            analyze_bash_risks_ast(&format!("export A={literal} PATH=x")),
        ]
    };
    assert_eq!(reports("'x'"), reports("'> /etc/../x; sudo dd | +s PATH='"));
    assert_eq!(reports("\"x\""), reports("\"> /etc/../x; sudo dd | +s PATH=\""));
}

#[test]
fn pipelines() {
    let report = |stages: &[&str]| {
        let children = stages.iter().map(|text| command(text)).collect();
        let mut ctx = RiskCtx::new();
        analyze_pipeline(&node("pipeline", "", children), &mut ctx);
        ctx.into_risks()
    };
    assert_eq!(
        report(&["curl x", "tee y", "fish"]),
        vec![CommandRisk::NetworkAccess, CommandRisk::RemoteCodeExecution]
    );
    assert_eq!(report(&["nc x", "cat"]), vec![CommandRisk::NetworkAccess]);
    assert_eq!(report(&["bash", "curl x"]), vec![CommandRisk::NetworkAccess]);
    assert_eq!(report(&["cat x", "bash"]), vec![]);
    // Names in a pipeline are taken as they are written.
    assert_eq!(report(&["CURL x", "bash"]), vec![]);
    assert_eq!(report(&[]), vec![]);
}

#[test]
fn invocations() {
    assert_eq!(invocation("sudo ls"), vec![CommandRisk::PrivilegeEscalation]);
    assert_eq!(invocation("DOAS ls"), vec![CommandRisk::PrivilegeEscalation]);
    assert_eq!(invocation("su"), vec![]);
    assert_eq!(invocation("su root"), vec![]);
    assert_eq!(invocation("su -"), vec![CommandRisk::PrivilegeEscalation]);
    assert_eq!(invocation("su  -"), vec![CommandRisk::PrivilegeEscalation]);
    assert_eq!(invocation("su  -l"), vec![]);
    assert_eq!(invocation("chmod o+s f"), vec![CommandRisk::PrivilegeEscalation]);
    assert_eq!(invocation("chmod 755 f"), vec![]);
    for tool in ["curl", "wget", "nc", "ncat", "netcat", "ssh", "SCP"] {
        assert_eq!(invocation(tool), vec![CommandRisk::NetworkAccess]);
    }
    assert_eq!(invocation("export Path=x"), vec![CommandRisk::EnvManipulation]);
    assert_eq!(invocation("export LD_DEBUG"), vec![CommandRisk::EnvManipulation]);
    assert_eq!(invocation("export HOME=x"), vec![]);
    assert_eq!(invocation("export A=path="), vec![CommandRisk::EnvManipulation]);
    let export = |argument: &str| {
        let mut command = command("export");
        command.text = format!("export {argument}");
        command.children.push(under("argument", node("raw_string", argument, vec![])));
        let mut ctx = RiskCtx::new();
        analyze_command_invocation(&command, &mut ctx);
        ctx.into_risks()
    };
    assert_eq!(export("'Path=x'"), vec![CommandRisk::EnvManipulation]);
    assert_eq!(export("'LD_DEBUG'"), vec![CommandRisk::EnvManipulation]);
    assert_eq!(export("'A=path='"), vec![]);
    for tool in ["kill", "pkill", "killall"] {
        assert_eq!(invocation(tool), vec![CommandRisk::ProcessControl]);
    }
    assert_eq!(invocation("eval x"), vec![CommandRisk::Eval]);
    for builtin in ["zmodload", "sysopen", "ztcp", "zsocket", "zselect"] {
        assert_eq!(
            invocation(&builtin.to_uppercase()),
            vec![CommandRisk::ZshDangerous(format!("{builtin} builtin"))]
        );
    }
    assert_eq!(invocation("ls"), vec![]);
}

#[test]
fn names_of_commands() {
    assert_eq!(command_name(&command("ls -l")), Some("ls".to_string()));
    let direct = node("simple_command", "", vec![word("A=1"), word(" "), word(" ls ")]);
    assert_eq!(command_name(&direct), Some("ls".to_string()));
    for kept in ["=x", "-a=b", "./a=b"] {
        let direct = node("simple_command", "", vec![word(kept)]);
        assert_eq!(command_name(&direct), Some(kept.to_string()));
    }
    let unnamed = node("command", "", vec![node("command_name", "$x", vec![])]);
    assert_eq!(command_name(&unnamed), None);
    // A name that is no plain word is passed over.
    let later = node(
        "command",
        "",
        vec![node("command_name", "$x", vec![node("expansion", "$x", vec![])]), word("y")],
    );
    assert_eq!(command_name(&later), Some("y".to_string()));
}

#[test]
fn nodes_by_themselves() {
    let report = |node: &SyntaxNode| {
        let mut ctx = RiskCtx::new();
        analyze_node(node, &mut ctx);
        ctx.into_risks()
    };
    for kind in ["command_substitution", "old_command_substitution"] {
        assert_eq!(report(&node(kind, "", vec![])), vec![CommandRisk::CommandSubstitution]);
    }
    assert_eq!(
        report(&node("process_substitution", "", vec![])),
        vec![CommandRisk::ProcessSubstitution]
    );
    for kind in [
        "redirected_statement",
        "redirection",
        "file_redirect",
        "herestring_redirect",
        "heredoc_redirect",
    ] {
        let inner = redirect(">", vec![word("x")]);
        assert_eq!(report(&node(kind, "", vec![inner])), vec![CommandRisk::OutputRedirection]);
        assert_eq!(report(&node(kind, ">", vec![])), vec![]);
    }
    assert_eq!(
        report(&node("redirection", "", vec![token(">")])),
        vec![CommandRisk::OutputRedirection]
    );
    assert_eq!(report(&command("eval x")), vec![CommandRisk::Eval]);
    // Literals tell of nothing.
    for kind in ["string", "raw_string", "string_content", "heredoc_body", "comment"] {
        let literal = node(kind, "sudo dd > /etc/../x | PATH=1", vec![]);
        assert_eq!(report(&literal), vec![]);
    }
    // A node comes before its children.
    let mut ctx = RiskCtx::new();
    let tree = node(
        "command_substitution",
        "",
        vec![command("eval x"), node("string", "", vec![word("../")])],
    );
    visit_node(&tree, &mut ctx);
    assert_eq!(
        ctx.into_risks(),
        vec![CommandRisk::CommandSubstitution, CommandRisk::Eval, CommandRisk::PathTraversal]
    );
}

#[test]
fn commands_in_a_tree() {
    let mut hidden = command("hidden x");
    hidden.named = false;
    let mut outer = command("outer a");
    let string = node("string", " \"b c\" ", vec![command("inner d")]);
    outer.children.push(under("argument", string));
    outer.children.push(under("argument", node("number", "9", vec![])));
    outer.children.push(under("argument", token("==")));
    outer.children.push(under("argument", word("  ")));
    outer.children.push(under("redirect", word("e")));
    outer.children.push(word("f"));
    outer.children.push(token("&&"));
    let tree = node("program", "", vec![outer, hidden, node("command", "", vec![])]);
    let mut commands = vec![vec!["before".to_string()]];
    collect_simple_commands(&tree, &mut commands);
    let words = |text: &str| -> Vec<String> { text.split('|').map(str::to_string).collect() };
    assert_eq!(
        commands,
        vec![words("before"), words("outer|a|\"b c\"|9|=="), words("inner|d")]
    );
}

#[test]
fn words_of_a_command_line() {
    assert_eq!(
        simple_command_words("ls -l; echo 'a b' && cat f|wc"),
        Some(vec![
            vec!["ls".to_string(), "-l".to_string()],
            vec!["echo".to_string(), "'a b'".to_string()],
            vec!["cat".to_string(), "f".to_string()],
            vec!["wc".to_string()],
        ])
    );
    assert_eq!(simple_command_words(""), Some(vec![]));
}

#[test]
fn no_argument_is_missing() {
    for (command, words) in [
        ("echo $HOME x", vec!["echo", "$HOME", "x"]),
        ("echo ${HOME} 1 -2", vec!["echo", "${HOME}", "1", "-2"]),
        ("echo $'a' $\"b\" \"c\" 'd'", vec!["echo", "$'a'", "\"b\"", "\"c\"", "'d'"]),
        ("echo $((1 + 2)) {1..3} a$b", vec!["echo", "$((1 + 2))", "{1..3}", "a$b"]),
        ("test a == b", vec!["test", "a", "==", "b"]),
        ("echo $ x", vec!["echo", "$", "x"]),
        ("A=1 2>err cat f <<< x", vec!["cat", "f"]),
        ("$CMD x", vec!["$CMD", "x"]),
    ] {
        let words: Vec<String> = words.iter().map(|word| word.to_string()).collect();
        assert_eq!(simple_command_words(command), Some(vec![words]), "{command}");
    }
    assert_eq!(
        simple_command_words("diff <(cat a) $(cat b)"),
        Some(vec![
            vec!["diff".to_string(), "<(cat a)".to_string(), "$(cat b)".to_string()],
            vec!["cat".to_string(), "a".to_string()],
            vec!["cat".to_string(), "b".to_string()],
        ])
    );
    for (command, name) in [
        ("sudo -u $U dd if=x", "dd"),
        ("sudo -u 1000 wipefs -a /dev/sdb", "wipefs"),
        ("bash -o $X -c 'dd if=x'", "dd"),
    ] {
        assert!(analyze_bash_risks_ast(command).contains(&destructive(name)), "{command}");
    }
}

#[test]
fn syntax_trees() {
    let root = parse_bash("FOO=1 ls é").unwrap();
    assert_eq!(root.kind, "program");
    assert_eq!(root.text, "FOO=1 ls é");
    let command = &root.children[0];
    assert_eq!(command.kind, "command");
    assert!(command.named);
    let kinds: Vec<&str> = command.children.iter().map(|child| child.kind.as_str()).collect();
    assert_eq!(kinds, vec!["variable_assignment", "command_name", "word"]);
    let name = command.children[0].child_by_field_name("name").unwrap();
    assert_eq!(name.text, "FOO");
    assert_eq!(command.children[1].field, Some("name".to_string()));
    assert!(command.children[0].child_by_field_name("body").is_none());
    assert_eq!(command.children[1].children[0].text, "ls");
    assert_eq!(command.children[2].text, "é");
}

#[test]
fn nodes_are_listed_before_their_descendants() {
    fn list(node: &SyntaxNode, depth: u32, out: &mut Vec<(String, u32, String)>) {
        out.push((node.kind.clone(), depth, node.text.clone()));
        for child in &node.children {
            list(child, depth + 1, out);
        }
    }
    let source = "for i in 1 2; do echo \"$(date) $i\" | tee -a log; done\nexit 1";
    let records = parse_records(source).unwrap();
    let mut listed = vec![];
    list(&parse_bash(source).unwrap(), 0, &mut listed);
    assert_eq!(listed.len(), records.len());
    for (entry, record) in listed.iter().zip(&records) {
        assert_eq!(entry.0, record.kind);
        assert_eq!(entry.1, record.depth);
        assert_eq!(Some(&entry.2), record.text.as_ref());
    }
    assert!(can_parse(source));
}

#[test]
fn scripts_are_followed_to_a_depth() {
    assert_eq!(MAX_SHELL_DEPTH, 16);
    let script = "sh -c 'dd if=/dev/zero'";
    assert_eq!(
        analyze_bash_risks_ast_inner(script, 15),
        vec![destructive("dd")]
    );
    assert_eq!(
        analyze_bash_risks_ast_inner(script, 16),
        vec![CommandRisk::RemoteCodeExecution]
    );
    assert_eq!(
        analyze_bash_risks_ast_inner("dd if=/dev/zero", 99),
        vec![destructive("dd")]
    );
    // Beyond the bound the depth does not matter.
    for depth in [17, 1000, usize::MAX] {
        for command in [script, "eval x > y", "bash +c z"] {
            assert_eq!(
                analyze_bash_risks_ast_inner(command, depth),
                analyze_bash_risks_ast_inner(command, 16)
            );
        }
    }
}

#[test]
fn scripts_that_do_not_show_fail_closed() {
    for script in ["$CMD", "$1", "$@", "$'dd if=x'", "$((1))", "<(curl x)"] {
        for command in [format!("bash -c {script}"), format!("sudo sh -ec {script} arg")] {
            assert!(
                analyze_bash_risks_ast(&command).contains(&CommandRisk::RemoteCodeExecution),
                "{command}"
            );
        }
    }
    assert_eq!(analyze_bash_risks_ast("bash -c \"$CMD\""), vec![]);
    assert_eq!(
        analyze_bash_risks_ast("bash -c $\"dd if=x\""),
        vec![destructive("dd")]
    );
}

#[test]
fn reports_go_with_the_list_of_commands() {
    let command = "sudo dd if=x; bash -c 'eval y | wipefs z'; echo shred";
    let report = analyze_bash_risks_ast(command);
    let mut destroyed = vec![];
    for words in simple_command_words(command).unwrap() {
        if let Some(name) = destructive_command_name(&words) {
            destroyed.push(destructive(name));
        }
        if let NestedShellScript::Script(script) = nested_shell_script(&words) {
            for risk in analyze_bash_risks_ast_inner(script, 1) {
                assert!(report.contains(&risk), "{risk:?}");
                if matches!(risk, CommandRisk::DestructiveCommand(_)) {
                    destroyed.push(risk);
                }
            }
        }
    }
    assert_eq!(destroyed, vec![destructive("dd"), destructive("wipefs")]);
    let mut reported = report;
    reported.retain(|risk| matches!(risk, CommandRisk::DestructiveCommand(_)));
    assert_eq!(reported, destroyed);
}

#[test]
fn wrapping_hides_nothing() {
    let script = "curl x | sh; eval y > ../z";
    let inner = analyze_bash_risks_ast(script);
    let outer = analyze_bash_risks_ast(&format!("env A=1 bash --norc -c '{script}'"));
    for risk in &inner {
        assert!(outer.contains(risk), "{risk:?}");
    }
    assert!(inner.contains(&CommandRisk::RemoteCodeExecution));
}

#[test]
fn reports_on_given_trees() {
    let tree = node("program", "", vec![command("sudo sh -c x"), command("bash --huh")]);
    let mut commands = vec![];
    collect_simple_commands(&tree, &mut commands);
    let nested = vec![vec![CommandRisk::Eval, CommandRisk::NetworkAccess], vec![]];
    assert_eq!(
        analyze_syntax(&tree, &commands, 0, &nested),
        vec![
            CommandRisk::Eval,
            CommandRisk::NetworkAccess,
            CommandRisk::RemoteCodeExecution,
            CommandRisk::PrivilegeEscalation,
        ]
    );
    // Too deep: the script's own risks do not count.
    assert_eq!(
        analyze_syntax(&tree, &commands, 16, &nested),
        vec![CommandRisk::RemoteCodeExecution, CommandRisk::PrivilegeEscalation]
    );
}

#[test]
fn reports_on_command_lines() {
    assert_eq!(
        analyze_bash_risks_ast("DD if=/dev/zero of=/dev/sda"),
        vec![destructive("dd")]
    );
    assert_eq!(
        analyze_bash_risks_ast("cat /ETC/passwd"),
        vec![sensitive("/etc/")]
    );
    assert_eq!(
        analyze_bash_risks_ast("cat ../../Etc/passwd > ~/out"),
        vec![
            CommandRisk::OutputRedirection,
            CommandRisk::PathTraversal,
            sensitive("/etc/")
        ]
    );
    assert_eq!(analyze_bash_risks_ast("echo 'dd ../ sudo > x'"), vec![]);
    assert_eq!(
        analyze_bash_risks_ast("export LD_PRELOAD=x"),
        vec![CommandRisk::EnvManipulation]
    );
    assert_eq!(
        analyze_bash_risks_ast("echo é; kill 1; kill 2"),
        vec![CommandRisk::ProcessControl]
    );
    // Outside ASCII the tree is still the command's own.
    assert_eq!(
        analyze_bash_risks_ast("dd if=/dev/zero of=/dev/sda # é"),
        vec![destructive("dd")]
    );
    // Twice the same command, twice the same report.
    assert_eq!(
        analyze_bash_risks_ast("curl x | sh"),
        analyze_bash_risks_ast("curl x | sh")
    );
}
