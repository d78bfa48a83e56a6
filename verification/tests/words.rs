use astra_sandbox::nested::{nested_shell_script, NestedShellScript};
use astra_sandbox::text::{
    contains_char, contains_text, is_one_of, same_text, starts_with, strip, text_after_separator,
    text_before, text_second_field, to_chars, to_lowercase, trim, Edge,
};
use astra_sandbox::words::{
    command_basename, destructive_command_name, destructive_commands, effective_command_index,
    is_assignment, skip_options, unquote_shell_word,
};

fn words(list: &[&str]) -> Vec<String> {
    list.iter().map(|word| word.to_string()).collect()
}

fn script_of(list: &[&str]) -> Option<String> {
    let words = words(list);
    match nested_shell_script(&words) {
        NestedShellScript::Script(script) => Some(script.to_string()),
        _ => None,
    }
}

fn is_ambiguous(list: &[&str]) -> bool {
    matches!(nested_shell_script(&words(list)), NestedShellScript::Ambiguous)
}

fn has_no_script(list: &[&str]) -> bool {
    matches!(nested_shell_script(&words(list)), NestedShellScript::Nothing)
}

#[test]
fn trimming_agrees_with_std() {
    for text in [
        "",
        " ",
        "a",
        "  a b\t\n",
        "\u{a0}\u{2003}x\u{3000}",
        "\u{85}\u{1680}y\u{2028}\u{2029}\u{202f}\u{205f}",
        "\u{200b}z\u{feff}",
        "é ü",
    ] {
        assert_eq!(trim(text), text.trim());
    }
    for code in 0u32..0x3100 {
        if let Some(c) = char::from_u32(code) {
            let text = c.to_string();
            assert_eq!(trim(&text).is_empty(), c.is_whitespace(), "{code:x}");
        }
    }
}

#[test]
fn stripping_quotes() {
    assert_eq!(strip("'a'", Edge::Quote), "a");
    assert_eq!(strip("\"'a b'\"", Edge::Quote), "a b");
    assert_eq!(strip("''", Edge::Quote), "");
    assert_eq!(strip("a'b", Edge::Quote), "a'b");
    // Stripping twice is stripping once.
    for text in ["\"'x'\"", "''a\"", "b"] {
        assert_eq!(strip(strip(text, Edge::Quote), Edge::Quote), strip(text, Edge::Quote));
    }
}

#[test]
fn searching_agrees_with_std() {
    let texts = ["", "a", "ab", "aab", "abc/../x", "x=y=z", "éè=é", "--long=v"];
    let parts = ["", "a", "ab", "..", "../", "é", "="];
    for text in texts {
        for part in parts {
            assert_eq!(contains_text(text, part), text.contains(part), "{text} {part}");
            assert_eq!(starts_with(text, part), text.starts_with(part), "{text} {part}");
            assert_eq!(same_text(text, part), text == part, "{text} {part}");
        }
        assert_eq!(contains_char(text, '='), text.contains('='));
        assert_eq!(text_before(text, '='), text.split('=').next().unwrap());
        assert_eq!(
            text_after_separator(text),
            text.rsplit(['/', '\\']).next().unwrap()
        );
        assert_eq!(to_chars(text), text.chars().collect::<Vec<char>>());
    }
    assert_eq!(text_after_separator("C:\\bin\\dd"), "dd");
    assert_eq!(text_after_separator("/usr/sbin/"), "");
}

#[test]
fn second_field_agrees_with_std() {
    for text in ["", " ", "su", "su -", "  su \t - root", "su\n-\n", "é ü x"] {
        assert_eq!(
            text_second_field(text),
            text.split_whitespace().nth(1).unwrap_or("")
        );
    }
}

#[test]
fn membership_in_a_list() {
    assert!(is_one_of("dd", &vec!["fdisk", "dd"]));
    assert!(!is_one_of("d", &vec!["fdisk", "dd"]));
    assert!(!is_one_of("", &vec![]));
}

#[test]
fn lower_case_inside_and_outside_ascii() {
    assert_eq!(to_lowercase("LD_Preload=1"), "ld_preload=1");
    assert_eq!(to_lowercase("ÉCOLE/ETC/"), "école/etc/");
    assert_eq!(to_lowercase("İ"), "i\u{307}");
}

#[test]
fn unquoting_trims_first() {
    assert_eq!(unquote_shell_word("  'dd'  "), "dd");
    assert_eq!(unquote_shell_word("\"'nested'\""), "nested");
    // Whitespace inside the quotes stays.
    assert_eq!(unquote_shell_word("' dd '"), " dd ");
}

#[test]
fn basenames() {
    assert_eq!(command_basename("/usr/bin/DD"), "dd");
    assert_eq!(command_basename("'C:\\Tools\\Format.COM'"), "format.com");
    assert_eq!(command_basename("É/ÉX"), "Éx");
    assert_eq!(command_basename(""), "");
    // The directory and the capitals do not matter.
    assert_eq!(command_basename("/a/b/Sudo"), command_basename("sudo"));
}

#[test]
fn assignments() {
    for word in ["X=1", "_a9=b", "'MODE=secure'", "A="] {
        assert!(is_assignment(word), "{word}");
    }
    for word in ["X", "=1", "9X=1", "a-b=1", "--opt=1", "a/b=1", "é=1", ""] {
        assert!(!is_assignment(word), "{word}");
    }
}

#[test]
fn options_are_skipped() {
    let with_value = vec!["-u", "--user"];
    let list = words(&["sudo", "-n", "-u", "root", "--user=x", "dd"]);
    assert_eq!(skip_options(&list, 1, &with_value), Some(5));
    // `--` ends the options.
    assert_eq!(skip_options(&words(&["--", "-x"]), 0, &with_value), Some(1));
    assert_eq!(skip_options(&words(&["--"]), 0, &with_value), None);
    // `-` alone is no option.
    assert_eq!(skip_options(&words(&["-a", "-"]), 0, &with_value), Some(1));
    // A value is missing.
    assert_eq!(skip_options(&words(&["-u"]), 0, &with_value), None);
    assert_eq!(skip_options(&words(&["-u", "root"]), 0, &with_value), None);
    assert_eq!(skip_options(&words(&["-a"]), 7, &with_value), None);
}

#[test]
fn effective_programs() {
    assert_eq!(effective_command_index(&words(&["dd"])), Some(0));
    assert_eq!(effective_command_index(&words(&["sudo", "dd"])), Some(1));
    assert_eq!(
        effective_command_index(&words(&["sudo", "-u", "root", "env", "-i", "A=1", "B=2", "dd"])),
        Some(7)
    );
    assert_eq!(
        effective_command_index(&words(&["nohup", "command", "/usr/bin/ENV", "dd"])),
        Some(3)
    );
    assert_eq!(effective_command_index(&words(&["env", "A=1"])), None);
    assert_eq!(effective_command_index(&words(&["sudo"])), None);
    assert_eq!(effective_command_index(&words(&["sudo", "-u", "root"])), None);
    assert_eq!(effective_command_index(&[]), None);
    // Only `env` takes assignments.
    assert_eq!(effective_command_index(&words(&["sudo", "A=1", "dd"])), Some(1));
}

#[test]
fn destructive_programs_by_name() {
    for name in destructive_commands() {
        assert_eq!(destructive_command_name(&words(&[name])), Some(name));
        let path = format!("/sbin/{}", name.to_uppercase());
        assert_eq!(destructive_command_name(&words(&[&path])), Some(name));
    }
    assert_eq!(destructive_commands().len(), 20);
    assert_eq!(destructive_command_name(&words(&["mkfs.ext4", "/dev/sda"])), Some("mkfs"));
    assert_eq!(destructive_command_name(&words(&["mkfs"])), Some("mkfs"));
    assert_eq!(destructive_command_name(&words(&["mkfsx"])), None);
    assert_eq!(destructive_command_name(&words(&["echo", "dd"])), None);
    assert_eq!(destructive_command_name(&[]), None);
}

#[test]
fn launchers_are_transparent() {
    for launcher in ["command", "builtin", "exec", "nohup", "env", "sudo", "doas", "pkexec"] {
        assert_eq!(
            destructive_command_name(&words(&[launcher, "wipefs", "-a"])),
            destructive_command_name(&words(&["wipefs", "-a"]))
        );
        assert_eq!(script_of(&[launcher, "sh", "-c", "x y"]), Some("x y".to_string()));
        // With an option, and with an option and its value.
        assert_eq!(
            destructive_command_name(&words(&[launcher, "-x", "wipefs"])),
            Some("wipefs")
        );
    }
    assert_eq!(
        destructive_command_name(&words(&["sudo", "--user", "root", "wipefs"])),
        Some("wipefs")
    );
    assert_eq!(
        destructive_command_name(&words(&["env", "-u", "HOME", "X=1", "wipefs"])),
        Some("wipefs")
    );
}

#[test]
fn arguments_are_not_inspected() {
    let index = effective_command_index(&words(&["sudo", "python3", "a"]));
    assert_eq!(index, Some(1));
    assert_eq!(
        effective_command_index(&words(&["sudo", "python3", "-c", "dd", "sudo", "dd"])),
        index
    );
    assert_eq!(destructive_command_name(&words(&["python3", "-c", "dd"])), None);
}

#[test]
fn scripts_behind_c() {
    for shell in ["bash", "sh", "dash", "zsh", "ksh", "/bin/BASH"] {
        assert_eq!(script_of(&[shell, "-c", "'dd x'"]), Some("dd x".to_string()));
    }
    assert_eq!(script_of(&["bash", "-lc", "a"]), Some("a".to_string()));
    assert_eq!(script_of(&["bash", "-oc", "pipefail", "a"]), Some("a".to_string()));
    assert_eq!(script_of(&["bash", "-oO", "x", "y", "-c", "a"]), Some("a".to_string()));
    assert_eq!(script_of(&["bash", "--norc", "-c", "a"]), Some("a".to_string()));
    assert_eq!(script_of(&["bash", "--rcfile", "f", "-c", "a"]), Some("a".to_string()));
    assert_eq!(script_of(&["bash", "--init-file=f", "-c", "a"]), Some("a".to_string()));
    assert_eq!(script_of(&["bash", "+x", "-c", "a"]), Some("a".to_string()));
    // What follows the script does not change it.
    assert_eq!(script_of(&["bash", "-c", "a", "b", "-c", "d"]), Some("a".to_string()));
}

#[test]
fn ambiguous_scripts() {
    assert!(is_ambiguous(&["bash", "--unknown", "-c", "a"]));
    assert!(is_ambiguous(&["bash", "--norc=1", "-c", "a"]));
    assert!(is_ambiguous(&["bash", "+c", "a"]));
    assert!(is_ambiguous(&["bash", "--rcfile"]));
    assert!(is_ambiguous(&["bash", "-c"]));
    assert!(is_ambiguous(&["bash", "-oc", "pipefail"]));
    assert!(is_ambiguous(&["bash", "-o"]));
    assert!(is_ambiguous(&["bash", "-Z", "-c", "a"]));
    assert!(is_ambiguous(&["bash", "+", "a"]));
    assert!(is_ambiguous(&["bash", "-cé", "a"]));
    // A word that does not show the script.
    for word in ["$CMD", " $_x1 ", "$?", "$", "$'dd'", "$((1))", "$[1]", "<(a)", ">(a)"] {
        assert!(is_ambiguous(&["bash", "-c", word, "a"]), "{word}");
    }
    for word in ["\"$CMD\"", "'$CMD'", "${CMD}", "$(cat f)", "$CMD/x", "a$CMD", "$??", "5"] {
        assert!(script_of(&["bash", "-c", word]).is_some(), "{word}");
    }
}

#[test]
fn commands_without_a_script() {
    assert!(has_no_script(&["bash"]));
    assert!(has_no_script(&["bash", "script.sh", "-c", "a"]));
    assert!(has_no_script(&["bash", "--", "-c", "a"]));
    assert!(has_no_script(&["bash", "-", "-c", "a"]));
    assert!(has_no_script(&["bash", "-x"]));
    assert!(has_no_script(&["bash", "-o", "pipefail"]));
    assert!(has_no_script(&["bash", "--rcfile", "f"]));
    assert!(has_no_script(&["fish", "-c", "a"]));
    assert!(has_no_script(&["python3", "-c", "a"]));
    assert!(has_no_script(&["sudo"]));
    assert!(has_no_script(&[]));
}
