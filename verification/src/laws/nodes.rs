//! Laws of single nodes: what each kind of node tells, risk by risk.
use vstd::prelude::*;

use crate::commands::{is_command, name_of, words_of};
use crate::findings::{
    climbs, downloads, escalates, exports_loader_variable, first_occurring, has_loader_export,
    is_chmod_option, is_download_tool, is_loader_export, is_loader_variable, is_network_tool,
    is_pipeline_shell, is_process_control, is_redirection, is_zsh_builtin, mode_among,
    named_command_findings, own_findings, path_findings, redirection_findings,
    sensitive_directories, stage_names,
};
use crate::laws::redirects::{is_output, law_writing_redirects_are_found};
use crate::laws::reports::{lemma_concat_contains, nodes_of};
use crate::laws::texts::law_text_before_a_character;
use crate::omission::{text_without, Part};
use crate::redirects::{targets_within, writes_within};
use crate::risk::{if_found, Risk};
use crate::syntax::{field_child, Syntax};
use crate::text::{ascii_lowercase, before, lowercase, occurs_in, second_field};
use crate::words::unquoted;

verus! {

/// The node invokes a command whose name, in small letters, is `name`.
pub open spec fn invokes_by_name(node: Syntax, name: Seq<char>) -> bool {
    &&& node.kind == "command"@ || node.kind == "simple_command"@
    &&& name_of(node) is Some
    &&& ascii_lowercase(name_of(node)->0) == name
}

/// The node, a child of a pipeline, is one of its stages: a command with a name.
pub open spec fn is_stage(node: Syntax) -> bool {
    &&& node.named
    &&& node.kind == "command"@ || node.kind == "simple_command"@
    &&& name_of(node) is Some
}

/// The stage reads from the network.
pub open spec fn is_download_stage(node: Syntax) -> bool {
    is_stage(node) && {
        let name = name_of(node)->0;
        name == "curl"@ || name == "wget"@ || name == "nc"@ || name == "ncat"@ || name
            == "netcat"@
    }
}

/// The stage is a shell.
pub open spec fn is_shell_stage(node: Syntax) -> bool {
    is_stage(node) && {
        let name = name_of(node)->0;
        name == "sh"@ || name == "bash"@ || name == "zsh"@ || name == "fish"@ || name == "dash"@
            || name == "ksh"@
    }
}

/// One of the stages reads from the network.
pub open spec fn has_download_stage(children: Seq<Syntax>) -> bool {
    exists|i: int| 0 <= i < children.len() && is_download_stage(#[trigger] children[i])
}

/// The last of the stages is a shell.
pub open spec fn ends_in_shell_stage(children: Seq<Syntax>) -> bool {
    exists|j: int|
        0 <= j < children.len() && is_shell_stage(#[trigger] children[j]) && forall|k: int|
            j < k < children.len() ==> !is_stage(#[trigger] children[k])
}

proof fn lemma_stages(children: Seq<Syntax>, n: nat)
    requires
        n <= children.len(),
    ensures
        ({
            let names = stage_names(children, n);
            &&& downloads(names) <==> exists|i: int|
                0 <= i < n && is_download_stage(#[trigger] children[i])
            &&& names.len() > 0 <==> exists|i: int| 0 <= i < n && is_stage(#[trigger] children[i])
            &&& names.len() > 0 && is_pipeline_shell(names.last()) <==> exists|j: int|
                0 <= j < n && is_shell_stage(#[trigger] children[j]) && forall|k: int|
                    j < k < n ==> !is_stage(#[trigger] children[k])
        }),
    decreases n,
{
    let names = stage_names(children, n);
    if n > 0 {
        lemma_stages(children, (n - 1) as nat);
        let before = stage_names(children, (n - 1) as nat);
        let child = children[n - 1];
        if is_stage(child) {
            let name = name_of(child)->0;
            assert(names == before.push(name));
            assert(names.last() == name);
            if downloads(names) {
                let i = choose|i: int|
                    0 <= i < names.len() && is_download_tool(#[trigger] names[i]);
                if i < before.len() {
                    assert(before[i] == names[i]);
                    assert(downloads(before));
                } else {
                    assert(is_download_stage(children[n - 1]));
                }
            }
            if exists|i: int| 0 <= i < n && is_download_stage(#[trigger] children[i]) {
                let i = choose|i: int| 0 <= i < n && is_download_stage(#[trigger] children[i]);
                if i < n - 1 {
                    assert(downloads(before));
                    let k = choose|k: int|
                        0 <= k < before.len() && is_download_tool(#[trigger] before[k]);
                    assert(names[k] == before[k]);
                } else {
                    assert(is_download_tool(names[before.len() as int]));
                }
            }
            if is_pipeline_shell(names.last()) {
                assert(is_shell_stage(children[n - 1]));
            }
        } else {
            assert(names == before);
            if exists|j: int|
                0 <= j < n - 1 && is_shell_stage(#[trigger] children[j]) && forall|k: int|
                    j < k < n - 1 ==> !is_stage(#[trigger] children[k]) {
                let j = choose|j: int|
                    0 <= j < n - 1 && is_shell_stage(#[trigger] children[j]) && forall|k: int|
                        j < k < n - 1 ==> !is_stage(#[trigger] children[k]);
                assert forall|k: int| j < k < n implies !is_stage(#[trigger] children[k]) by {}
                assert(is_shell_stage(children[j]));
            }
        }
    }
}

/// A pipeline tells of the network exactly where one of its stages reads from it, and of remote
/// code exactly where, besides, the last stage is a shell. Every child that is a command with a
/// name is a stage, whatever its arguments.
pub proof fn law_pipelines_by_their_stages(node: Syntax)
    requires
        node.kind == "pipeline"@,
    ensures
        own_findings(node).contains(Risk::NetworkAccess) <==> has_download_stage(node.children),
        own_findings(node).contains(Risk::RemoteCodeExecution) <==> has_download_stage(
            node.children,
        ) && ends_in_shell_stage(node.children),
        forall|risk: Risk| #[trigger]
            own_findings(node).contains(risk) ==> risk is NetworkAccess || risk
                is RemoteCodeExecution,
{
    lemma_kinds();
    let names = stage_names(node.children, node.children.len());
    lemma_stages(node.children, node.children.len());
    let network = if_found(downloads(names), Risk::NetworkAccess);
    let remote = if_found(
        downloads(names) && is_pipeline_shell(names.last()),
        Risk::RemoteCodeExecution,
    );
    assert(own_findings(node) == network + remote);
    assert forall|risk: Risk| #[trigger] own_findings(node).contains(risk) <==> network.contains(
        risk,
    ) || remote.contains(risk) by {
        lemma_concat_contains(network, remote, risk);
    }
    lemma_if_found(downloads(names), Risk::NetworkAccess);
    lemma_if_found(
        downloads(names) && is_pipeline_shell(names.last()),
        Risk::RemoteCodeExecution,
    );
}

proof fn lemma_if_found(found: bool, risk: Risk)
    ensures
        forall|other: Risk| #[trigger]
            if_found(found, risk).contains(other) <==> found && other == risk,
{
    if found {
        assert(if_found(found, risk)[0] == risk);
    }
}

proof fn lemma_kinds()
    ensures
        "word"@.len() == 4,
        "variable_assignment"@.len() == 19 && "variable_assignment"@[0] == 'v',
        "command_substitution"@.len() == 20 && "command_substitution"@[0] == 'c',
        "old_command_substitution"@.len() == 24,
        "process_substitution"@.len() == 20 && "process_substitution"@[0] == 'p',
        "pipeline"@.len() == 8,
        "redirected_statement"@.len() == 20 && "redirected_statement"@[0] == 'r',
        "redirection"@.len() == 11,
        "file_redirect"@.len() == 13,
        "herestring_redirect"@.len() == 19 && "herestring_redirect"@[0] == 'h',
        "heredoc_redirect"@.len() == 16,
        "command"@.len() == 7,
        "simple_command"@.len() == 14,
{
    reveal_strlit("word");
    reveal_strlit("variable_assignment");
    reveal_strlit("command_substitution");
    reveal_strlit("old_command_substitution");
    reveal_strlit("process_substitution");
    reveal_strlit("pipeline");
    reveal_strlit("redirected_statement");
    reveal_strlit("redirection");
    reveal_strlit("file_redirect");
    reveal_strlit("herestring_redirect");
    reveal_strlit("heredoc_redirect");
    reveal_strlit("command");
    reveal_strlit("simple_command");
}

/// The text, in small letters, goes up a directory.
pub open spec fn goes_up(lower: Seq<char>) -> bool {
    occurs_in("../"@, lower) || occurs_in("..\\"@, lower)
}

/// The text, in small letters, names the sensitive directory `path`, and none that is looked for
/// before it.
pub open spec fn names_sensitive(lower: Seq<char>, path: Seq<char>) -> bool {
    &&& occurs_in(path, lower)
    &&& {
        ||| path == "/etc/"@
        ||| path == "/root/"@ && !occurs_in("/etc/"@, lower)
        ||| path == "/var/log/"@ && !occurs_in("/etc/"@, lower) && !occurs_in("/root/"@, lower)
        ||| path == "/proc/"@ && !occurs_in("/etc/"@, lower) && !occurs_in("/root/"@, lower)
            && !occurs_in("/var/log/"@, lower)
        ||| path == "/sys/"@ && !occurs_in("/etc/"@, lower) && !occurs_in("/root/"@, lower)
            && !occurs_in("/var/log/"@, lower) && !occurs_in("/proc/"@, lower)
    }
}

proof fn lemma_sensitive(lower: Seq<char>)
    ensures
        first_occurring(sensitive_directories(), lower) == (if occurs_in("/etc/"@, lower) {
            seq!["/etc/"@]
        } else if occurs_in("/root/"@, lower) {
            seq!["/root/"@]
        } else if occurs_in("/var/log/"@, lower) {
            seq!["/var/log/"@]
        } else if occurs_in("/proc/"@, lower) {
            seq!["/proc/"@]
        } else if occurs_in("/sys/"@, lower) {
            seq!["/sys/"@]
        } else {
            Seq::empty()
        }),
{
    let all = sensitive_directories();
    let one = all.drop_first();
    let two = one.drop_first();
    let three = two.drop_first();
    let four = three.drop_first();
    let five = four.drop_first();
    assert(all[0] == "/etc/"@);
    assert(one[0] == "/root/"@);
    assert(two[0] == "/var/log/"@);
    assert(three[0] == "/proc/"@);
    assert(four[0] == "/sys/"@);
    assert(five.len() == 0);
    assert(first_occurring(five, lower) =~= Seq::empty());
    reveal_with_fuel(first_occurring, 7);
}

proof fn lemma_paths(lower: Seq<char>)
    ensures
        path_findings(lower).contains(Risk::PathTraversal) <==> goes_up(lower),
        forall|path: Seq<char>| #[trigger]
            path_findings(lower).contains(Risk::SensitivePathAccess(path)) <==> names_sensitive(
                lower,
                path,
            ),
        forall|risk: Risk| #[trigger]
            path_findings(lower).contains(risk) ==> risk is PathTraversal || risk
                is SensitivePathAccess,
        path_findings(lower).len() <= 2,
        path_findings(lower).len() == 2 ==> path_findings(lower)[0] is PathTraversal
            && path_findings(lower)[1] is SensitivePathAccess,
{
    lemma_sensitive(lower);
    lemma_sensitive_differ();
    lemma_if_found(climbs(lower), Risk::PathTraversal);
    let first = if_found(climbs(lower), Risk::PathTraversal);
    let found = first_occurring(sensitive_directories(), lower);
    let second = found.map_values(|path: Seq<char>| Risk::SensitivePathAccess(path));
    assert forall|risk: Risk| #[trigger] path_findings(lower).contains(risk) <==> first.contains(
        risk,
    ) || second.contains(risk) by {
        lemma_concat_contains(first, second, risk);
    }
    if found.len() > 0 {
        assert(second[0] == Risk::SensitivePathAccess(found[0]));
        assert(found.len() == 1);
        assert forall|risk: Risk| second.contains(risk) implies risk == second[0] by {}
    }
}

proof fn lemma_sensitive_differ()
    ensures
        "/etc/"@.len() == 5 && "/etc/"@[1] == 'e',
        "/root/"@.len() == 6 && "/root/"@[1] == 'r',
        "/var/log/"@.len() == 9,
        "/proc/"@.len() == 6 && "/proc/"@[1] == 'p',
        "/sys/"@.len() == 5 && "/sys/"@[1] == 's',
{
    reveal_strlit("/etc/");
    reveal_strlit("/root/");
    reveal_strlit("/var/log/");
    reveal_strlit("/proc/");
    reveal_strlit("/sys/");
}

/// The variable, by its name in small letters, decides which programs or libraries are loaded.
pub open spec fn names_loader(lower: Seq<char>) -> bool {
    lower == "path"@ || exists|rest: Seq<char>| lower == #[trigger] ("ld_"@ + rest)
}

/// One text starts with another.
pub open spec fn starts(text: Seq<char>, head: Seq<char>) -> bool {
    exists|rest: Seq<char>| text == #[trigger] (head + rest)
}

proof fn lemma_starts(text: Seq<char>, head: Seq<char>)
    ensures
        head.is_prefix_of(text) <==> starts(text, head),
{
    if head.is_prefix_of(text) {
        let rest = text.skip(head.len() as int);
        assert(text =~= head + rest) by {
            assert forall|i: int| 0 <= i < head.len() implies text[i] == head[i] by {
                assert(text.subrange(0, head.len() as int)[i] == text[i]);
            }
        }
    }
    if starts(text, head) {
        let rest = choose|rest: Seq<char>| text == #[trigger] (head + rest);
        assert(text.subrange(0, head.len() as int) =~= head);
    }
}

proof fn lemma_loader(lower: Seq<char>)
    ensures
        is_loader_variable(lower) <==> names_loader(lower),
{
    lemma_starts(lower, "ld_"@);
    if starts(lower, "ld_"@) {
        let rest = choose|rest: Seq<char>| lower == #[trigger] ("ld_"@ + rest);
        assert(names_loader(lower));
    }
}

/// The word sets such a variable: what stands before the first equals sign is its name.
pub open spec fn sets_loader(text: Seq<char>) -> bool {
    exists|name: Seq<char>, value: Seq<char>|
        text == #[trigger] (name + seq!['='] + value) && !name.contains('=') && names_loader(
            lowercase(name),
        )
}

proof fn lemma_sets_loader(text: Seq<char>)
    ensures
        text.contains('=') && is_loader_variable(lowercase(before(text, '='))) <==> sets_loader(
            text,
        ),
{
    lemma_loader(lowercase(before(text, '=')));
    if text.contains('=') {
        let at = lemma_first_sign(text);
        let name = text.take(at);
        let value = text.skip(at + 1);
        assert(text =~= name + seq!['='] + value);
        law_text_before_a_character(name, '=', value);
        if is_loader_variable(lowercase(before(text, '='))) {
            assert(text == name + seq!['='] + value);
        }
    }
    if sets_loader(text) {
        let (name, value) = choose|name: Seq<char>, value: Seq<char>|
            text == #[trigger] (name + seq!['='] + value) && !name.contains('=') && names_loader(
                lowercase(name),
            );
        law_text_before_a_character(name, '=', value);
        assert(text[name.len() as int] == '=');
    }
}

proof fn lemma_first_sign(text: Seq<char>) -> (at: int)
    requires
        text.contains('='),
    ensures
        0 <= at < text.len(),
        text[at] == '=',
        !text.take(at).contains('='),
    decreases text.len(),
{
    let any = choose|i: int| 0 <= i < text.len() && text[i] == '=';
    if text.take(any).contains('=') {
        let shorter = text.take(any);
        let at = lemma_first_sign(shorter);
        assert(shorter.take(at) =~= text.take(at));
        at
    } else {
        any
    }
}

/// A word tells of the paths in it, and of the environment exactly where it sets a variable that
/// decides what is loaded.
pub proof fn law_words_by_their_text(node: Syntax)
    requires
        node.kind == "word"@,
    ensures
        own_findings(node).contains(Risk::PathTraversal) <==> goes_up(lowercase(node.text)),
        forall|path: Seq<char>| #[trigger]
            own_findings(node).contains(Risk::SensitivePathAccess(path)) <==> names_sensitive(
                lowercase(node.text),
                path,
            ),
        own_findings(node).contains(Risk::EnvManipulation) <==> sets_loader(node.text),
        forall|risk: Risk| #[trigger]
            own_findings(node).contains(risk) ==> risk is PathTraversal || risk
                is SensitivePathAccess || risk is EnvManipulation,
{
    let lower = lowercase(node.text);
    let found = node.text.contains('=') && is_loader_variable(lowercase(before(node.text, '=')));
    lemma_paths(lower);
    lemma_sets_loader(node.text);
    lemma_if_found(found, Risk::EnvManipulation);
    assert forall|risk: Risk| #[trigger] own_findings(node).contains(risk) <==> path_findings(
        lower,
    ).contains(risk) || if_found(found, Risk::EnvManipulation).contains(risk) by {
        lemma_concat_contains(path_findings(lower), if_found(found, Risk::EnvManipulation), risk);
    }
}

/// An assignment tells of the environment exactly where its variable, the child under the field
/// `name`, decides what is loaded.
pub proof fn law_assignments_by_their_name(node: Syntax, risk: Risk)
    requires
        node.kind == "variable_assignment"@,
    ensures
        own_findings(node).contains(risk) <==> risk is EnvManipulation && field_child(
            node,
            "name"@,
        ) is Some && names_loader(lowercase(field_child(node, "name"@)->0.text)),
{
    lemma_kinds();
    if let Some(name) = field_child(node, "name"@) {
        lemma_loader(lowercase(name.text));
        lemma_if_found(is_loader_variable(lowercase(name.text)), Risk::EnvManipulation);
    }
}

/// A substitution of a command or a process tells of itself, and of nothing else.
pub proof fn law_substitutions_by_their_kind(node: Syntax, risk: Risk)
    ensures
        node.kind == "command_substitution"@ || node.kind == "old_command_substitution"@ ==> (
        own_findings(node).contains(risk) <==> risk is CommandSubstitution),
        node.kind == "process_substitution"@ ==> (own_findings(node).contains(risk) <==> risk
            is ProcessSubstitution),
{
    lemma_kinds();
    if node.kind == "command_substitution"@ || node.kind == "old_command_substitution"@ {
        assert(own_findings(node) =~= seq![Risk::CommandSubstitution]);
        assert(own_findings(node)[0] == Risk::CommandSubstitution);
    }
    if node.kind == "process_substitution"@ {
        assert(own_findings(node) =~= seq![Risk::ProcessSubstitution]);
        assert(own_findings(node)[0] == Risk::ProcessSubstitution);
    }
}

/// The kinds of redirection.
pub open spec fn redirects(kind: Seq<char>) -> bool {
    ||| kind == "redirected_statement"@ || kind == "redirection"@ || kind == "file_redirect"@
    ||| kind == "herestring_redirect"@ || kind == "heredoc_redirect"@
}

/// A redirection tells of the paths among its targets, and of output exactly where one of the
/// nodes in it redirects with an operator that writes.
pub proof fn law_redirections_by_their_redirects(node: Syntax)
    requires
        redirects(node.kind),
    ensures
        own_findings(node).contains(Risk::PathTraversal) <==> goes_up(
            lowercase(targets_within(node)),
        ),
        forall|path: Seq<char>| #[trigger]
            own_findings(node).contains(Risk::SensitivePathAccess(path)) <==> names_sensitive(
                lowercase(targets_within(node)),
                path,
            ),
        own_findings(node).contains(Risk::OutputRedirection) <==> exists|i: int|
            0 <= i < nodes_of(node).len() && is_output(#[trigger] nodes_of(node)[i]),
        forall|risk: Risk| #[trigger]
            own_findings(node).contains(risk) ==> risk is PathTraversal || risk
                is SensitivePathAccess || risk is OutputRedirection,
{
    lemma_kinds();
    let lower = lowercase(targets_within(node));
    let found = writes_within(node);
    lemma_paths(lower);
    law_writing_redirects_are_found(node);
    lemma_if_found(found, Risk::OutputRedirection);
    assert(own_findings(node) == redirection_findings(node));
    assert forall|risk: Risk| #[trigger] own_findings(node).contains(risk) <==> path_findings(
        lower,
    ).contains(risk) || if_found(found, Risk::OutputRedirection).contains(risk) by {
        lemma_concat_contains(
            path_findings(lower),
            if_found(found, Risk::OutputRedirection),
            risk,
        );
    }
}

/// The word, behind `chmod`, starts with a dash and takes no permission away.
pub open spec fn is_switch(word: Seq<char>) -> bool {
    &&& word.len() > 0 && word[0] == '-'
    &&& word.len() > 1 ==> {
        let c = word[1];
        !(c == 'r' || c == 'w' || c == 'x' || c == 'X' || c == 's' || c == 't' || c == 'u' || c
            == 'g' || c == 'o')
    }
}

proof fn lemma_switch(word: Seq<char>)
    ensures
        is_chmod_option(word) <==> is_switch(word),
{
    reveal_strlit("-");
    reveal_strlit("rwxXstugo");
    assert("-"@ =~= seq!['-']);
    let letters = "rwxXstugo"@;
    assert(letters.len() == 9);
    assert(letters[0] == 'r' && letters[1] == 'w' && letters[2] == 'x' && letters[3] == 'X');
    assert(letters[4] == 's' && letters[5] == 't' && letters[6] == 'u' && letters[7] == 'g');
    assert(letters[8] == 'o');
    if word.len() > 0 {
        assert(word.subrange(0, 1)[0] == word[0]);
        assert(word.subrange(0, 1) =~= seq![word[0]]);
    }
}

/// The mode of a `chmod` is its first argument that is no option, without quotes.
pub proof fn law_mode_is_the_first_plain_argument(
    words: Seq<Seq<char>>,
    from: int,
    at: int,
)
    requires
        0 <= from <= at <= words.len(),
        forall|i: int| from <= i < at ==> is_switch(unquoted(#[trigger] words[i])),
        at < words.len() ==> !is_switch(unquoted(words[at])),
    ensures
        mode_among(words, from) == (if at < words.len() {
            unquoted(words[at])
        } else {
            Seq::empty()
        }),
    decreases at - from,
{
    if from < words.len() {
        lemma_switch(unquoted(words[from]));
    }
    if from < at {
        law_mode_is_the_first_plain_argument(words, from + 1, at);
    }
}

/// The words of an `export` that set a variable which decides what is loaded.
pub open spec fn exports_loader_word(words: Seq<Seq<char>>) -> bool {
    exists|i: int|
        1 <= i < words.len() && (starts(lowercase(unquoted(#[trigger] words[i])), "path="@)
            || starts(lowercase(unquoted(words[i])), "ld_"@))
}

proof fn lemma_exports(words: Seq<Seq<char>>)
    ensures
        has_loader_export(words) <==> exports_loader_word(words),
{
    assert forall|i: int| 1 <= i < words.len() implies is_loader_export(#[trigger] words[i]) == (
    starts(lowercase(unquoted(words[i])), "path="@) || starts(
        lowercase(unquoted(words[i])),
        "ld_"@,
    )) by {
        lemma_starts(lowercase(unquoted(words[i])), "path="@);
        lemma_starts(lowercase(unquoted(words[i])), "ld_"@);
    }
    if has_loader_export(words) {
        let i = choose|i: int| 1 <= i < words.len() && is_loader_export(#[trigger] words[i]);
        assert(starts(lowercase(unquoted(words[i])), "path="@) || starts(
            lowercase(unquoted(words[i])),
            "ld_"@,
        ));
    }
    if exports_loader_word(words) {
        let i = choose|i: int|
            1 <= i < words.len() && (starts(lowercase(unquoted(#[trigger] words[i])), "path="@)
                || starts(lowercase(unquoted(words[i])), "ld_"@));
        assert(is_loader_export(words[i]));
    }
}

proof fn lemma_invocation_parts(node: Syntax, name: Seq<char>, risk: Risk)
    requires
        node.kind == "command"@ || node.kind == "simple_command"@,
        name_of(node) == Some(name),
    ensures
        ({
            let lower = ascii_lowercase(name);
            let text = text_without(node, Part::Literal);
            let words = words_of(node);
            own_findings(node).contains(risk) <==> {
                ||| risk is PrivilegeEscalation && escalates(lower, text, words)
                ||| risk is NetworkAccess && is_network_tool(lower)
                ||| risk is EnvManipulation && lower == "export"@ && (exports_loader_variable(
                    lowercase(text),
                ) || has_loader_export(words))
                ||| risk is ProcessControl && is_process_control(lower)
                ||| risk is Eval && lower == "eval"@
                ||| risk == Risk::ZshDangerous(lower + " builtin"@) && is_zsh_builtin(lower)
            }
        }),
{
    lemma_kinds();
    let lower = ascii_lowercase(name);
    let text = text_without(node, Part::Literal);
    let words = words_of(node);
    let env = lower == "export"@ && (exports_loader_variable(lowercase(text)) || has_loader_export(
        words,
    ));
    let first = if_found(escalates(lower, text, words), Risk::PrivilegeEscalation);
    let second = if_found(is_network_tool(lower), Risk::NetworkAccess);
    let third = if_found(env, Risk::EnvManipulation);
    let fourth = if_found(is_process_control(lower), Risk::ProcessControl);
    let fifth = if_found(lower == "eval"@, Risk::Eval);
    let sixth = if_found(is_zsh_builtin(lower), Risk::ZshDangerous(lower + " builtin"@));
    assert(own_findings(node) == first + second + third + fourth + fifth + sixth);
    lemma_concat_contains(first, second, risk);
    lemma_concat_contains(first + second, third, risk);
    lemma_concat_contains(first + second + third, fourth, risk);
    lemma_concat_contains(first + second + third + fourth, fifth, risk);
    lemma_concat_contains(first + second + third + fourth + fifth, sixth, risk);
    lemma_if_found(escalates(lower, text, words), Risk::PrivilegeEscalation);
    lemma_if_found(is_network_tool(lower), Risk::NetworkAccess);
    lemma_if_found(env, Risk::EnvManipulation);
    lemma_if_found(is_process_control(lower), Risk::ProcessControl);
    lemma_if_found(lower == "eval"@, Risk::Eval);
    lemma_if_found(is_zsh_builtin(lower), Risk::ZshDangerous(lower + " builtin"@));
}

/// A command without a name tells of nothing.
pub proof fn law_nameless_commands_tell_of_nothing(node: Syntax, risk: Risk)
    requires
        node.kind == "command"@ || node.kind == "simple_command"@,
        name_of(node) is None,
    ensures
        !own_findings(node).contains(risk),
{
    lemma_kinds();
}

/// A gain of privileges is told of by `sudo` and `doas`, whatever their arguments; by `su` where
/// its text, outside literals, has a dash behind it or as its second field; by `chmod` where
/// `+s` is in its text outside literals or in its mode; and by no other command.
pub proof fn law_escalation_by_name(node: Syntax)
    requires
        node.kind == "command"@ || node.kind == "simple_command"@,
    ensures
        own_findings(node).contains(Risk::PrivilegeEscalation) <==> {
            ||| invokes_by_name(node, "sudo"@)
            ||| invokes_by_name(node, "doas"@)
            ||| invokes_by_name(node, "su"@) && (occurs_in(
                "su -"@,
                text_without(node, Part::Literal),
            ) || second_field(text_without(node, Part::Literal)) == "-"@)
            ||| invokes_by_name(node, "chmod"@) && (occurs_in(
                "+s"@,
                text_without(node, Part::Literal),
            ) || occurs_in("+s"@, mode_among(words_of(node), 1)))
        },
{
    match name_of(node) {
        Some(name) => lemma_invocation_parts(node, name, Risk::PrivilegeEscalation),
        None => law_nameless_commands_tell_of_nothing(node, Risk::PrivilegeEscalation),
    }
}

/// Whatever their text and their words, `sudo` and `doas` gain privileges.
pub proof fn law_sudo_always_escalates(text: Seq<char>, words: Seq<Seq<char>>)
    ensures
        named_command_findings("sudo"@, text, words).contains(Risk::PrivilegeEscalation),
        named_command_findings("doas"@, text, words).contains(Risk::PrivilegeEscalation),
{
    assert(named_command_findings("sudo"@, text, words)[0] == Risk::PrivilegeEscalation);
    assert(named_command_findings("doas"@, text, words)[0] == Risk::PrivilegeEscalation);
}

/// The network is told of by the tools that reach it, whatever their arguments, and by no other
/// command.
pub proof fn law_network_by_name(node: Syntax)
    requires
        node.kind == "command"@ || node.kind == "simple_command"@,
    ensures
        own_findings(node).contains(Risk::NetworkAccess) <==> {
            ||| invokes_by_name(node, "curl"@)
            ||| invokes_by_name(node, "wget"@)
            ||| invokes_by_name(node, "nc"@)
            ||| invokes_by_name(node, "ncat"@)
            ||| invokes_by_name(node, "netcat"@)
            ||| invokes_by_name(node, "ssh"@)
            ||| invokes_by_name(node, "scp"@)
        },
{
    match name_of(node) {
        Some(name) => lemma_invocation_parts(node, name, Risk::NetworkAccess),
        None => law_nameless_commands_tell_of_nothing(node, Risk::NetworkAccess),
    }
}

/// A change of the environment is told of by `export`, where its text outside literals holds
/// `path=` or `ld_`, in any mixture of capitals, or one of its arguments starts with them; and
/// by no other command.
pub proof fn law_exports_by_their_variables(node: Syntax)
    requires
        node.kind == "command"@ || node.kind == "simple_command"@,
    ensures
        own_findings(node).contains(Risk::EnvManipulation) <==> invokes_by_name(node, "export"@)
            && {
            ||| occurs_in("path="@, lowercase(text_without(node, Part::Literal)))
            ||| occurs_in("ld_"@, lowercase(text_without(node, Part::Literal)))
            ||| exports_loader_word(words_of(node))
        },
{
    lemma_exports(words_of(node));
    match name_of(node) {
        Some(name) => lemma_invocation_parts(node, name, Risk::EnvManipulation),
        None => law_nameless_commands_tell_of_nothing(node, Risk::EnvManipulation),
    }
}

/// Signals to processes, the evaluation of text, and the builtins of zsh that reach past the
/// shell are told of by name, whatever the arguments.
pub proof fn law_control_by_name(node: Syntax, what: Seq<char>)
    requires
        node.kind == "command"@ || node.kind == "simple_command"@,
    ensures
        own_findings(node).contains(Risk::ProcessControl) <==> {
            ||| invokes_by_name(node, "kill"@)
            ||| invokes_by_name(node, "pkill"@)
            ||| invokes_by_name(node, "killall"@)
        },
        own_findings(node).contains(Risk::Eval) <==> invokes_by_name(node, "eval"@),
        own_findings(node).contains(Risk::ZshDangerous(what)) <==> {
            ||| invokes_by_name(node, "zmodload"@) && what == "zmodload"@ + " builtin"@
            ||| invokes_by_name(node, "sysopen"@) && what == "sysopen"@ + " builtin"@
            ||| invokes_by_name(node, "ztcp"@) && what == "ztcp"@ + " builtin"@
            ||| invokes_by_name(node, "zsocket"@) && what == "zsocket"@ + " builtin"@
            ||| invokes_by_name(node, "zselect"@) && what == "zselect"@ + " builtin"@
        },
{
    match name_of(node) {
        Some(name) => {
            lemma_invocation_parts(node, name, Risk::ProcessControl);
            lemma_invocation_parts(node, name, Risk::Eval);
            lemma_invocation_parts(node, name, Risk::ZshDangerous(what));
        },
        None => {
            law_nameless_commands_tell_of_nothing(node, Risk::ProcessControl);
            law_nameless_commands_tell_of_nothing(node, Risk::Eval);
            law_nameless_commands_tell_of_nothing(node, Risk::ZshDangerous(what));
        },
    }
}

/// A command by itself tells of nothing else.
pub proof fn law_commands_tell_of_nothing_else(node: Syntax, risk: Risk)
    requires
        node.kind == "command"@ || node.kind == "simple_command"@,
        own_findings(node).contains(risk),
    ensures
        risk is PrivilegeEscalation || risk is NetworkAccess || risk is EnvManipulation || risk
            is ProcessControl || risk is Eval || risk is ZshDangerous,
{
    match name_of(node) {
        Some(name) => lemma_invocation_parts(node, name, risk),
        None => law_nameless_commands_tell_of_nothing(node, risk),
    }
}

/// A node of any other kind tells of nothing.
pub proof fn law_other_kinds_tell_of_nothing(node: Syntax, risk: Risk)
    requires
        node.kind != "word"@,
        node.kind != "variable_assignment"@,
        node.kind != "command_substitution"@,
        node.kind != "old_command_substitution"@,
        node.kind != "process_substitution"@,
        node.kind != "pipeline"@,
        !redirects(node.kind),
        node.kind != "command"@,
        node.kind != "simple_command"@,
    ensures
        !own_findings(node).contains(risk),
{
}

/// The order in which one node tells of risks.
pub open spec fn rank(risk: Risk) -> int {
    match risk {
        Risk::PathTraversal => 0,
        Risk::SensitivePathAccess(_) => 1,
        Risk::PrivilegeEscalation => 2,
        Risk::NetworkAccess => 3,
        Risk::RemoteCodeExecution => 4,
        Risk::EnvManipulation => 5,
        Risk::OutputRedirection => 6,
        Risk::ProcessControl => 7,
        Risk::Eval => 8,
        Risk::ZshDangerous(_) => 9,
        _ => 10,
    }
}

/// Each entry ranks behind those before it.
pub open spec fn is_ranked(findings: Seq<Risk>) -> bool {
    forall|i: int, j: int|
        0 <= i < j < findings.len() ==> rank(#[trigger] findings[i]) < rank(#[trigger] findings[j])
}

spec fn ranks_up_to(findings: Seq<Risk>, most: int) -> bool {
    forall|i: int| 0 <= i < findings.len() ==> rank(#[trigger] findings[i]) <= most
}

proof fn lemma_ranked_with(findings: Seq<Risk>, found: bool, risk: Risk, most: int)
    requires
        is_ranked(findings),
        ranks_up_to(findings, most),
        most < rank(risk),
    ensures
        is_ranked(findings + if_found(found, risk)),
        ranks_up_to(findings + if_found(found, risk), rank(risk)),
{
    let all = findings + if_found(found, risk);
    assert forall|i: int, j: int| 0 <= i < j < all.len() implies rank(#[trigger] all[i]) < rank(
        #[trigger] all[j],
    ) by {
        assert(all[i] == findings[i]);
        if j < findings.len() {
            assert(all[j] == findings[j]);
        } else {
            assert(all[j] == risk);
        }
    }
    assert forall|i: int| 0 <= i < all.len() implies rank(#[trigger] all[i]) <= rank(risk) by {
        if i < findings.len() {
            assert(all[i] == findings[i]);
        }
    }
}

proof fn lemma_paths_ranked(lower: Seq<char>)
    ensures
        is_ranked(path_findings(lower)),
        ranks_up_to(path_findings(lower), 1),
{
    lemma_paths(lower);
    assert forall|i: int| 0 <= i < path_findings(lower).len() implies rank(
        #[trigger] path_findings(lower)[i],
    ) <= 1 by {
        assert(path_findings(lower).contains(path_findings(lower)[i]));
    }
}

proof fn lemma_named_ranked(lower: Seq<char>, text: Seq<char>, words: Seq<Seq<char>>)
    ensures
        is_ranked(named_command_findings(lower, text, words)),
{
    let env = lower == "export"@ && (exports_loader_variable(lowercase(text)) || has_loader_export(
        words,
    ));
    let nothing = Seq::<Risk>::empty();
    let first = if_found(escalates(lower, text, words), Risk::PrivilegeEscalation);
    let second = if_found(is_network_tool(lower), Risk::NetworkAccess);
    let third = if_found(env, Risk::EnvManipulation);
    let fourth = if_found(is_process_control(lower), Risk::ProcessControl);
    let fifth = if_found(lower == "eval"@, Risk::Eval);
    let what = Risk::ZshDangerous(lower + " builtin"@);
    lemma_ranked_with(nothing, escalates(lower, text, words), Risk::PrivilegeEscalation, 1);
    assert(nothing + first =~= first);
    lemma_ranked_with(first, is_network_tool(lower), Risk::NetworkAccess, 2);
    lemma_ranked_with(first + second, env, Risk::EnvManipulation, 3);
    lemma_ranked_with(
        first + second + third,
        is_process_control(lower),
        Risk::ProcessControl,
        5,
    );
    lemma_ranked_with(first + second + third + fourth, lower == "eval"@, Risk::Eval, 7);
    lemma_ranked_with(
        first + second + third + fourth + fifth,
        is_zsh_builtin(lower),
        what,
        8,
    );
}

/// A node tells of each kind of risk once, and always in the same order.
pub proof fn law_order_within_a_node(node: Syntax)
    ensures
        is_ranked(own_findings(node)),
{
    let nothing = Seq::<Risk>::empty();
    if node.kind == "word"@ {
        let text = node.text;
        let found = text.contains('=') && is_loader_variable(lowercase(before(text, '=')));
        lemma_paths_ranked(lowercase(text));
        lemma_ranked_with(path_findings(lowercase(text)), found, Risk::EnvManipulation, 1);
    } else if node.kind == "pipeline"@ {
        let names = stage_names(node.children, node.children.len());
        let network = if_found(downloads(names), Risk::NetworkAccess);
        lemma_ranked_with(nothing, downloads(names), Risk::NetworkAccess, 0);
        assert(nothing + network =~= network);
        lemma_ranked_with(
            network,
            downloads(names) && is_pipeline_shell(names.last()),
            Risk::RemoteCodeExecution,
            3,
        );
    } else if is_redirection(node.kind) {
        lemma_paths_ranked(lowercase(targets_within(node)));
        lemma_ranked_with(
            path_findings(lowercase(targets_within(node))),
            writes_within(node),
            Risk::OutputRedirection,
            1,
        );
    } else if is_command(node) {
        if let Some(name) = name_of(node) {
            lemma_named_ranked(
                ascii_lowercase(name),
                text_without(node, Part::Literal),
                words_of(node),
            );
        }
    }
}

} // verus!
