//! What a single node of a syntax tree tells about the risks of a command.
use vstd::prelude::*;
use vstd::string::*;

use crate::commands::{
    command_name, command_words, is_command, is_command_node, name_of, words_of,
};
use crate::omission::{append_text_without, is_command_substitution, text_without, Part};
use crate::redirects::{append_targets_within, node_writes_within, targets_within, writes_within};
use crate::risk::{if_found, lemma_record_concat, record_all, CommandRisk, Risk, RiskCtx};
use crate::syntax::{field_child, Syntax, SyntaxNode};
use crate::text::{
    ascii_lowercase, before, contains_char, contains_text, lowercase, occurs_in, same_text,
    second_field, starts_with, text_before, text_second_field, to_chars, to_lowercase, views,
};
use crate::words::{unquote_shell_word, unquoted, word_views};

verus! {

/// A variable, by its name in lower case, that decides which programs or libraries are loaded.
pub open spec fn is_loader_variable(lower: Seq<char>) -> bool {
    lower == "path"@ || "ld_"@.is_prefix_of(lower)
}

/// Whether a variable, by its name in lower case, decides what is loaded.
pub fn names_loader_variable(lower: &str) -> (result: bool)
    ensures
        result == is_loader_variable(lower@),
{
    same_text(lower, "path") || starts_with(lower, "ld_")
}

/// The directories whose paths are sensitive.
pub open spec fn sensitive_directories() -> Seq<Seq<char>> {
    seq!["/etc/"@, "/root/"@, "/var/log/"@, "/proc/"@, "/sys/"@]
}

fn sensitive_paths() -> (result: Vec<&'static str>)
    ensures
        views(result@) == sensitive_directories(),
{
    let paths: Vec<&'static str> = vec!["/etc/", "/root/", "/var/log/", "/proc/", "/sys/"];
    assert(views(paths@) =~= sensitive_directories());
    paths
}

/// The first of `parts` that occurs in `text`, as a list, empty where none does.
pub open spec fn first_occurring(parts: Seq<Seq<char>>, text: Seq<char>) -> Seq<Seq<char>>
    decreases parts.len(),
{
    if parts.len() == 0 {
        Seq::empty()
    } else if occurs_in(parts[0], text) {
        seq![parts[0]]
    } else {
        first_occurring(parts.drop_first(), text)
    }
}

/// The text climbs out of a directory.
pub open spec fn climbs(lower: Seq<char>) -> bool {
    occurs_in("../"@, lower) || occurs_in("..\\"@, lower)
}

/// What the paths in a text, in lower case, tell: that it climbs out of a directory, and the
/// first sensitive directory that it names.
pub open spec fn path_findings(lower: Seq<char>) -> Seq<Risk> {
    if_found(climbs(lower), Risk::PathTraversal) + first_occurring(
        sensitive_directories(),
        lower,
    ).map_values(|path: Seq<char>| Risk::SensitivePathAccess(path))
}

/// Records what the paths in a text, in lower case, tell.
pub fn record_path_risks(lower: &str, ctx: &mut RiskCtx)
    ensures
        final(ctx)@ == record_all(old(ctx)@, path_findings(lower@)),
{
    let ghost traversal = if_found(climbs(lower@), Risk::PathTraversal);
    let found = contains_text(lower, "../") || contains_text(lower, "..\\");
    ctx.push_if(found, CommandRisk::PathTraversal);
    let ghost between = ctx@;
    let paths = sensitive_paths();
    let ghost all = views(paths@);
    let ghost as_risk = |path: Seq<char>| Risk::SensitivePathAccess(path);
    proof {
        lemma_record_concat(
            old(ctx)@,
            traversal,
            first_occurring(all, lower@).map_values(as_risk),
        );
    }
    let mut i: usize = 0;
    assert(all.skip(0) =~= all);
    while i < paths.len()
        invariant
            i <= paths@.len(),
            all == views(paths@),
            as_risk == (|path: Seq<char>| Risk::SensitivePathAccess(path)),
            ctx@ == between,
            between == record_all(old(ctx)@, traversal),
            record_all(old(ctx)@, path_findings(lower@)) == record_all(
                between,
                first_occurring(all, lower@).map_values(as_risk),
            ),
            first_occurring(all, lower@) == first_occurring(all.skip(i as int), lower@),
        decreases paths@.len() - i,
    {
        assert(all.skip(i as int)[0] == paths@[i as int]@);
        assert(all.skip(i as int).drop_first() =~= all.skip(i + 1));
        if contains_text(lower, paths[i]) {
            let path = paths[i].to_string();
            let ghost risk = Risk::SensitivePathAccess(path@);
            assert(seq![path@].map_values(as_risk) =~= if_found(true, risk));
            ctx.push_if(true, CommandRisk::SensitivePathAccess(path));
            return ;
        }
        i += 1;
    }
    assert(all.skip(i as int) =~= Seq::empty());
    assert(Seq::<Seq<char>>::empty().map_values(as_risk) =~= Seq::empty());
}

/// What a word tells: its paths, and whether it assigns to a variable that decides what is
/// loaded.
pub open spec fn word_findings(text: Seq<char>) -> Seq<Risk> {
    path_findings(lowercase(text)) + if_found(
        text.contains('=') && is_loader_variable(lowercase(before(text, '='))),
        Risk::EnvManipulation,
    )
}

pub fn analyze_word_risks(node: &SyntaxNode, ctx: &mut RiskCtx)
    ensures
        final(ctx)@ == record_all(old(ctx)@, word_findings(node@.text)),
{
    let text = node.text.as_str();
    let lower = to_lowercase(text);
    record_path_risks(lower.as_str(), ctx);
    let found = contains_char(text, '=') && names_loader_variable(
        to_lowercase(text_before(text, '=')).as_str(),
    );
    ctx.push_if(found, CommandRisk::EnvManipulation);
    proof {
        lemma_record_concat(
            old(ctx)@,
            path_findings(lowercase(text@)),
            if_found(found, Risk::EnvManipulation),
        );
    }
}

/// What an assignment tells: whether its variable, the child in the field `name`, decides what
/// is loaded.
pub open spec fn assignment_findings(node: Syntax) -> Seq<Risk> {
    match field_child(node, "name"@) {
        Some(name) => if_found(is_loader_variable(lowercase(name.text)), Risk::EnvManipulation),
        None => Seq::empty(),
    }
}

pub fn analyze_variable_assignment(node: &SyntaxNode, ctx: &mut RiskCtx)
    ensures
        final(ctx)@ == record_all(old(ctx)@, assignment_findings(node@)),
{
    let name_node = match node.child_by_field_name("name") {
        Some(name_node) => name_node,
        None => return ,
    };
    let name = to_lowercase(name_node.text.as_str());
    ctx.push_if(names_loader_variable(name.as_str()), CommandRisk::EnvManipulation);
}

/// What a redirection tells: the paths among the targets of its redirects, and whether one of
/// these writes.
pub open spec fn redirection_findings(node: Syntax) -> Seq<Risk> {
    path_findings(lowercase(targets_within(node))) + if_found(
        writes_within(node),
        Risk::OutputRedirection,
    )
}

pub fn analyze_redirection(node: &SyntaxNode, ctx: &mut RiskCtx)
    ensures
        final(ctx)@ == record_all(old(ctx)@, redirection_findings(node@)),
{
    let mut targets = String::new();
    append_targets_within(node, &mut targets);
    assert(targets@ =~= targets_within(node@));
    let lower = to_lowercase(targets.as_str());
    record_path_risks(lower.as_str(), ctx);
    let found = node_writes_within(node);
    ctx.push_if(found, CommandRisk::OutputRedirection);
    proof {
        lemma_record_concat(
            old(ctx)@,
            path_findings(lower@),
            if_found(found, Risk::OutputRedirection),
        );
    }
}

/// A program that reads from the network into a pipeline.
pub open spec fn is_download_tool(name: Seq<char>) -> bool {
    name == "curl"@ || name == "wget"@ || name == "nc"@ || name == "ncat"@ || name == "netcat"@
}

fn is_download_tool_name(name: &str) -> (result: bool)
    ensures
        result == is_download_tool(name@),
{
    same_text(name, "curl") || same_text(name, "wget") || same_text(name, "nc") || same_text(
        name,
        "ncat",
    ) || same_text(name, "netcat")
}

/// A shell that runs what it reads from a pipeline.
pub open spec fn is_pipeline_shell(name: Seq<char>) -> bool {
    name == "sh"@ || name == "bash"@ || name == "zsh"@ || name == "fish"@ || name == "dash"@
        || name == "ksh"@
}

fn is_pipeline_shell_name(name: &str) -> (result: bool)
    ensures
        result == is_pipeline_shell(name@),
{
    same_text(name, "sh") || same_text(name, "bash") || same_text(name, "zsh") || same_text(
        name,
        "fish",
    ) || same_text(name, "dash") || same_text(name, "ksh")
}

/// The names of the commands among the first `n` children of a pipeline.
pub open spec fn stage_names(children: Seq<Syntax>, n: nat) -> Seq<Seq<char>>
    decreases n,
{
    if n == 0 || n > children.len() {
        Seq::empty()
    } else {
        let names = stage_names(children, (n - 1) as nat);
        let child = children[n - 1];
        match name_of(child) {
            Some(name) => if child.named && is_command(child) {
                names.push(name)
            } else {
                names
            },
            None => names,
        }
    }
}

/// One of the commands reads from the network.
pub open spec fn downloads(names: Seq<Seq<char>>) -> bool {
    exists|i: int| 0 <= i < names.len() && is_download_tool(#[trigger] names[i])
}

/// What a pipeline with commands of these names tells: whether it reads from the network, and
/// whether a shell at its end runs what it reads.
pub open spec fn pipeline_findings(names: Seq<Seq<char>>) -> Seq<Risk> {
    if_found(downloads(names), Risk::NetworkAccess) + if_found(
        downloads(names) && is_pipeline_shell(names.last()),
        Risk::RemoteCodeExecution,
    )
}

pub fn analyze_pipeline(node: &SyntaxNode, ctx: &mut RiskCtx)
    ensures
        final(ctx)@ == record_all(
            old(ctx)@,
            pipeline_findings(stage_names(node@.children, node@.children.len())),
        ),
{
    let ghost children = node@.children;
    let ghost mut names: Seq<Seq<char>> = Seq::empty();
    let mut has_network = false;
    let mut ends_in_shell = false;
    let mut i: usize = 0;
    while i < node.children.len()
        invariant
            i <= node.children@.len(),
            children == node@.children,
            names == stage_names(children, i as nat),
            has_network == downloads(names),
            ends_in_shell == (names.len() > 0 && is_pipeline_shell(names.last())),
        decreases node.children@.len() - i,
    {
        let child = &node.children[i];
        assert(child@ == children[i as int]);
        if child.named && is_command_node(child) {
            if let Some(name) = command_name(child) {
                let network = is_download_tool_name(name.as_str());
                proof {
                    let extended = names.push(name@);
                    if network {
                        assert(is_download_tool(extended[names.len() as int]));
                    }
                    if has_network {
                        let k = choose|k: int|
                            0 <= k < names.len() && is_download_tool(#[trigger] names[k]);
                        assert(extended[k] == names[k]);
                    }
                    if downloads(extended) {
                        let k = choose|k: int|
                            0 <= k < extended.len() && is_download_tool(#[trigger] extended[k]);
                        if k < names.len() {
                            assert(extended[k] == names[k]);
                        }
                    }
                    names = extended;
                }
                has_network = has_network || network;
                ends_in_shell = is_pipeline_shell_name(name.as_str());
            }
        }
        i += 1;
    }
    ctx.push_if(has_network, CommandRisk::NetworkAccess);
    ctx.push_if(has_network && ends_in_shell, CommandRisk::RemoteCodeExecution);
    proof {
        lemma_record_concat(
            old(ctx)@,
            if_found(has_network, Risk::NetworkAccess),
            if_found(has_network && ends_in_shell, Risk::RemoteCodeExecution),
        );
    }
}

/// The word, behind `chmod`, is an option. What starts with `-` and a letter of a permission or
/// of a class of users is a mode that takes permissions away.
pub open spec fn is_chmod_option(word: Seq<char>) -> bool {
    "-"@.is_prefix_of(word) && !(word.len() > 1 && "rwxXstugo"@.contains(word[1]))
}

fn is_chmod_option_word(word: &str) -> (result: bool)
    ensures
        result == is_chmod_option(word@),
{
    let text = to_chars(word);
    starts_with(word, "-") && !(text.len() > 1 && contains_char("rwxXstugo", text[1]))
}

/// The mode among the words of a `chmod` from `from` on, without quotes: the first that is no
/// option. It is empty where there is none.
pub open spec fn mode_among(words: Seq<Seq<char>>, from: int) -> Seq<char>
    decreases words.len() - from,
{
    if from >= words.len() {
        Seq::empty()
    } else if is_chmod_option(unquoted(words[from])) {
        mode_among(words, from + 1)
    } else {
        unquoted(words[from])
    }
}

/// Whether the mode among the words of a `chmod` sets a set-user-id or set-group-id bit.
fn mode_sets_id(words: &Vec<String>) -> (result: bool)
    ensures
        result == occurs_in("+s"@, mode_among(word_views(words@), 1)),
{
    let ghost all = word_views(words@);
    proof {
        reveal_strlit("+s");
    }
    let mut i: usize = 1;
    while i < words.len()
        invariant
            1 <= i,
            all == word_views(words@),
            "+s"@.len() == 2,
            mode_among(all, 1) == mode_among(all, i as int),
        decreases words@.len() - i,
    {
        let word = unquote_shell_word(words[i].as_str());
        assert(word@ == unquoted(all[i as int]));
        if !is_chmod_option_word(word) {
            return contains_text(word, "+s");
        }
        i += 1;
    }
    false
}

/// The command gains privileges: it runs a command as another user, starts a login shell, or
/// sets a set-user-id or set-group-id bit. It is given by its name in lower case, its text
/// outside literals, and its words, of which the mode of a `chmod` counts in quotes too.
pub open spec fn escalates(lower: Seq<char>, text: Seq<char>, words: Seq<Seq<char>>) -> bool {
    ||| lower == "sudo"@ || lower == "doas"@
    ||| lower == "su"@ && (occurs_in("su -"@, text) || second_field(text) == "-"@)
    ||| lower == "chmod"@ && (occurs_in("+s"@, text) || occurs_in("+s"@, mode_among(words, 1)))
}

fn is_escalation(lower: &str, text: &str, words: &Vec<String>) -> (result: bool)
    ensures
        result == escalates(lower@, text@, word_views(words@)),
{
    same_text(lower, "sudo") || same_text(lower, "doas") || (same_text(lower, "su") && (
    contains_text(text, "su -") || same_text(text_second_field(text), "-"))) || (same_text(
        lower,
        "chmod",
    ) && (contains_text(text, "+s") || mode_sets_id(words)))
}

/// The program, by its name in lower case, reaches the network.
pub open spec fn is_network_tool(lower: Seq<char>) -> bool {
    is_download_tool(lower) || lower == "ssh"@ || lower == "scp"@
}

/// The text, in lower case, of an `export` sets a variable that decides what is loaded.
pub open spec fn exports_loader_variable(lower_text: Seq<char>) -> bool {
    occurs_in("path="@, lower_text) || occurs_in("ld_"@, lower_text)
}

/// Whether the text, in lower case, of an `export` sets a variable that decides what is loaded.
pub fn sets_loader_variable(lower_text: &str) -> (result: bool)
    ensures
        result == exports_loader_variable(lower_text@),
{
    contains_text(lower_text, "path=") || contains_text(lower_text, "ld_")
}

/// The word, an argument of `export`, sets a variable that decides what is loaded, in quotes or
/// not.
pub open spec fn is_loader_export(word: Seq<char>) -> bool {
    let lower = lowercase(unquoted(word));
    "path="@.is_prefix_of(lower) || "ld_"@.is_prefix_of(lower)
}

/// One of the arguments of an `export` sets a variable that decides what is loaded.
pub open spec fn has_loader_export(words: Seq<Seq<char>>) -> bool {
    exists|i: int| 1 <= i < words.len() && is_loader_export(#[trigger] words[i])
}

fn exports_loader(words: &Vec<String>) -> (result: bool)
    ensures
        result == has_loader_export(word_views(words@)),
{
    let ghost all = word_views(words@);
    let mut i: usize = 1;
    while i < words.len()
        invariant
            1 <= i,
            all == word_views(words@),
            forall|k: int| 1 <= k < i && k < all.len() ==> !is_loader_export(#[trigger] all[k]),
        decreases words@.len() - i,
    {
        let word = unquote_shell_word(words[i].as_str());
        assert(words@[i as int]@ == all[i as int]);
        let lower = to_lowercase(word);
        if starts_with(lower.as_str(), "path=") || starts_with(lower.as_str(), "ld_") {
            assert(is_loader_export(all[i as int]));
            return true;
        }
        i += 1;
    }
    false
}

pub open spec fn is_process_control(lower: Seq<char>) -> bool {
    lower == "kill"@ || lower == "pkill"@ || lower == "killall"@
}

pub open spec fn is_zsh_builtin(lower: Seq<char>) -> bool {
    lower == "zmodload"@ || lower == "sysopen"@ || lower == "ztcp"@ || lower == "zsocket"@
        || lower == "zselect"@
}

fn is_zsh_builtin_name(lower: &str) -> (result: bool)
    ensures
        result == is_zsh_builtin(lower@),
{
    same_text(lower, "zmodload") || same_text(lower, "sysopen") || same_text(lower, "ztcp")
        || same_text(lower, "zsocket") || same_text(lower, "zselect")
}

/// What the invocation of a command tells, by its name in lower case, its text outside literals
/// and its words.
pub open spec fn named_command_findings(
    lower: Seq<char>,
    text: Seq<char>,
    words: Seq<Seq<char>>,
) -> Seq<Risk> {
    if_found(escalates(lower, text, words), Risk::PrivilegeEscalation) + if_found(
        is_network_tool(lower),
        Risk::NetworkAccess,
    ) + if_found(
        lower == "export"@ && (exports_loader_variable(lowercase(text)) || has_loader_export(
            words,
        )),
        Risk::EnvManipulation,
    ) + if_found(is_process_control(lower), Risk::ProcessControl) + if_found(
        lower == "eval"@,
        Risk::Eval,
    ) + if_found(is_zsh_builtin(lower), Risk::ZshDangerous(lower + " builtin"@))
}

/// What the invocation of a command tells.
pub open spec fn invocation_findings(node: Syntax) -> Seq<Risk> {
    match name_of(node) {
        Some(name) => named_command_findings(
            ascii_lowercase(name),
            text_without(node, Part::Literal),
            words_of(node),
        ),
        None => Seq::empty(),
    }
}

pub fn analyze_command_invocation(node: &SyntaxNode, ctx: &mut RiskCtx)
    ensures
        final(ctx)@ == record_all(old(ctx)@, invocation_findings(node@)),
{
    let name = match command_name(node) {
        Some(name) => name,
        None => return ,
    };
    let lowered = name.as_str().to_ascii_lowercase();
    let lower = lowered.as_str();
    let mut outside = String::new();
    append_text_without(node, Part::Literal, &mut outside);
    assert(outside@ =~= text_without(node@, Part::Literal));
    let text = outside.as_str();
    let words = command_words(node);

    let escalation = is_escalation(lower, text, &words);
    let network = is_download_tool_name(lower) || same_text(lower, "ssh") || same_text(
        lower,
        "scp",
    );
    let environment = same_text(lower, "export") && (sets_loader_variable(
        to_lowercase(text).as_str(),
    ) || exports_loader(&words));
    let process = same_text(lower, "kill") || same_text(lower, "pkill") || same_text(
        lower,
        "killall",
    );
    let eval = same_text(lower, "eval");
    let zsh = is_zsh_builtin_name(lower);
    let builtin = lower.to_string().concat(" builtin");

    ctx.push_if(escalation, CommandRisk::PrivilegeEscalation);
    ctx.push_if(network, CommandRisk::NetworkAccess);
    ctx.push_if(environment, CommandRisk::EnvManipulation);
    ctx.push_if(process, CommandRisk::ProcessControl);
    ctx.push_if(eval, CommandRisk::Eval);
    ctx.push_if(zsh, CommandRisk::ZshDangerous(builtin));
    proof {
        let start = old(ctx)@;
        let first = if_found(escalation, Risk::PrivilegeEscalation);
        let second = if_found(network, Risk::NetworkAccess);
        let third = if_found(environment, Risk::EnvManipulation);
        let fourth = if_found(process, Risk::ProcessControl);
        let fifth = if_found(eval, Risk::Eval);
        let sixth = if_found(zsh, Risk::ZshDangerous(builtin@));
        lemma_record_concat(start, first, second);
        lemma_record_concat(start, first + second, third);
        lemma_record_concat(start, first + second + third, fourth);
        lemma_record_concat(start, first + second + third + fourth, fifth);
        lemma_record_concat(start, first + second + third + fourth + fifth, sixth);
    }
}

/// Any form of redirection.
pub open spec fn is_redirection(kind: Seq<char>) -> bool {
    kind == "redirected_statement"@ || kind == "redirection"@ || kind == "file_redirect"@ || kind
        == "herestring_redirect"@ || kind == "heredoc_redirect"@
}

/// What a node tells by itself, without its children.
pub open spec fn own_findings(node: Syntax) -> Seq<Risk> {
    if node.kind == "word"@ {
        word_findings(node.text)
    } else if node.kind == "variable_assignment"@ {
        assignment_findings(node)
    } else if is_command_substitution(node.kind) {
        seq![Risk::CommandSubstitution]
    } else if node.kind == "process_substitution"@ {
        seq![Risk::ProcessSubstitution]
    } else if node.kind == "pipeline"@ {
        pipeline_findings(stage_names(node.children, node.children.len()))
    } else if is_redirection(node.kind) {
        redirection_findings(node)
    } else if is_command(node) {
        invocation_findings(node)
    } else {
        Seq::empty()
    }
}

/// Records what a node tells by itself.
pub fn analyze_node(node: &SyntaxNode, ctx: &mut RiskCtx)
    ensures
        final(ctx)@ == record_all(old(ctx)@, own_findings(node@)),
{
    let kind = node.kind.as_str();
    if same_text(kind, "word") {
        analyze_word_risks(node, ctx);
    } else if same_text(kind, "variable_assignment") {
        analyze_variable_assignment(node, ctx);
    } else if same_text(kind, "command_substitution") || same_text(
        kind,
        "old_command_substitution",
    ) {
        assert(seq![Risk::CommandSubstitution] =~= if_found(true, Risk::CommandSubstitution));
        ctx.push_if(true, CommandRisk::CommandSubstitution);
    } else if same_text(kind, "process_substitution") {
        assert(seq![Risk::ProcessSubstitution] =~= if_found(true, Risk::ProcessSubstitution));
        ctx.push_if(true, CommandRisk::ProcessSubstitution);
    } else if same_text(kind, "pipeline") {
        analyze_pipeline(node, ctx);
    } else if same_text(kind, "redirected_statement") || same_text(kind, "redirection")
        || same_text(kind, "file_redirect") || same_text(kind, "herestring_redirect") || same_text(
        kind,
        "heredoc_redirect",
    ) {
        analyze_redirection(node, ctx);
    } else if is_command_node(node) {
        analyze_command_invocation(node, ctx);
    }
}

/// What the tree at `node` tells: first the node, then its children in order.
pub open spec fn tree_findings(node: Syntax) -> Seq<Risk>
    decreases node, 0nat,
{
    own_findings(node) + findings_among(node.children, node.children.len())
}

/// What the first `n` of `children` tell.
pub open spec fn findings_among(children: Seq<Syntax>, n: nat) -> Seq<Risk>
    decreases children, n,
{
    if n == 0 || n > children.len() {
        Seq::empty()
    } else {
        findings_among(children, (n - 1) as nat) + tree_findings(children[n - 1])
    }
}

/// Records what the tree at `node` tells.
pub fn visit_node(node: &SyntaxNode, ctx: &mut RiskCtx)
    ensures
        final(ctx)@ == record_all(old(ctx)@, tree_findings(node@)),
    decreases node,
{
    let ghost children = node@.children;
    let ghost own = own_findings(node@);
    analyze_node(node, ctx);
    assert(own + findings_among(children, 0) =~= own);
    let mut i: usize = 0;
    while i < node.children.len()
        invariant
            i <= node.children@.len(),
            children == node@.children,
            own == own_findings(node@),
            ctx@ == record_all(old(ctx)@, own + findings_among(children, i as nat)),
        decreases node.children@.len() - i,
    {
        let child = &node.children[i];
        assert(child@ == children[i as int]);
        visit_node(child, ctx);
        proof {
            let so_far = own + findings_among(children, i as nat);
            lemma_record_concat(old(ctx)@, so_far, tree_findings(child@));
            assert(so_far + tree_findings(child@) =~= own + findings_among(
                children,
                (i + 1) as nat,
            ));
        }
        i += 1;
    }
}

} // verus!
