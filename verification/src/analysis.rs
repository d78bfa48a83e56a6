//! The risks of a command, with those of the scripts that it hands to other shells.
use vstd::prelude::*;
use vstd::string::*;

use crate::commands::{collect_simple_commands, command_views, simple_commands};
use crate::findings::{tree_findings, visit_node};
use crate::grammar::is_parseable;
use crate::nested::{nested_script, nested_shell_script, Nested, NestedShellScript};
use crate::pieces::{
    commands_drawn_from, lemma_commands_drawn, lemma_nested_script_piece, lemma_piece_parseable,
};
use crate::risk::{
    distinct, if_found, lemma_record_concat, record_all, risk_views, CommandRisk, Risk, RiskCtx,
};
use crate::syntax::{is_syntax_of, optional_node, parse_bash, Syntax, SyntaxNode};
use crate::text::is_piece_of;
use crate::words::{destructive_command_name, destructive_name, word_views};

verus! {

/// How deep scripts in scripts are followed.
pub const MAX_SHELL_DEPTH: usize = 16;

/// What the program that a command runs tells: whether it is destructive.
pub open spec fn program_findings(words: Seq<Seq<char>>) -> Seq<Risk> {
    match destructive_name(words) {
        Some(name) => seq![Risk::DestructiveCommand(name)],
        None => Seq::empty(),
    }
}

/// What the script that a command hands to a shell tells, where `nested` are the script's own
/// risks. A script too deep inside other scripts, or that is not known, can be anything.
pub open spec fn script_findings(
    words: Seq<Seq<char>>,
    shell_depth: nat,
    nested: Seq<Risk>,
) -> Seq<Risk> {
    match nested_script(words) {
        Nested::Nothing => Seq::empty(),
        Nested::Script(_) => if shell_depth < MAX_SHELL_DEPTH {
            nested
        } else {
            seq![Risk::RemoteCodeExecution]
        },
        Nested::Ambiguous => seq![Risk::RemoteCodeExecution],
    }
}

/// What the first `n` of `commands` tell, where `nested` lists the risks of their scripts.
pub open spec fn command_findings(
    commands: Seq<Seq<Seq<char>>>,
    shell_depth: nat,
    nested: Seq<Seq<Risk>>,
    n: nat,
) -> Seq<Risk>
    decreases n,
{
    if n == 0 || n > commands.len() {
        Seq::empty()
    } else {
        command_findings(commands, shell_depth, nested, (n - 1) as nat) + program_findings(
            commands[n - 1],
        ) + script_findings(commands[n - 1], shell_depth, nested[n - 1])
    }
}

/// What a tree with these commands tells: first its commands, then its nodes.
pub open spec fn all_findings(
    root: Syntax,
    commands: Seq<Seq<Seq<char>>>,
    shell_depth: nat,
    nested: Seq<Seq<Risk>>,
) -> Seq<Risk> {
    command_findings(commands, shell_depth, nested, commands.len()) + tree_findings(root)
}

/// The outcome of parsing a command, with those of parsing the scripts that its commands hand
/// to a shell, one for each command.
#[verifier::ext_equal]
pub struct Parsing {
    pub outcome: Option<Syntax>,
    pub nested: Seq<Parsing>,
}

/// Parsing `command`, a script inside `shell_depth` others, and the scripts in it that are
/// followed, may give `parsing`.
pub open spec fn is_parsing_of(parsing: Parsing, command: Seq<char>, shell_depth: nat) -> bool
    decreases parsing,
{
    &&& is_syntax_of(command, parsing.outcome)
    &&& parsing.outcome matches Some(root) ==> {
        &&& parsing.nested.len() == simple_commands(root).len()
        &&& forall|i: int|
            0 <= i < parsing.nested.len() && shell_depth < MAX_SHELL_DEPTH ==> (nested_script(
                simple_commands(root)[i],
            ) matches Nested::Script(script) ==> is_parsing_of(
                #[trigger] parsing.nested[i],
                script,
                shell_depth + 1,
            ))
    }
}

/// The risks that follow from the outcome of parsing a command and its scripts: what the
/// commands and the nodes of the tree tell, without repetitions.
pub open spec fn report_of(parsing: Parsing, shell_depth: nat) -> Seq<Risk>
    decreases parsing, 0nat,
{
    match parsing.outcome {
        Some(root) => distinct(
            all_findings(
                root,
                simple_commands(root),
                shell_depth,
                nested_reports(parsing.nested, shell_depth, parsing.nested.len()),
            ),
        ),
        None => Seq::empty(),
    }
}

/// The reports on the first `n` of the scripts in a command.
pub open spec fn nested_reports(nested: Seq<Parsing>, shell_depth: nat, n: nat) -> Seq<Seq<Risk>>
    decreases nested, n,
{
    if n == 0 || n > nested.len() {
        Seq::empty()
    } else {
        nested_reports(nested, shell_depth, (n - 1) as nat).push(
            report_of(nested[n - 1], shell_depth + 1),
        )
    }
}

/// The reports on scripts are listed in order.
pub proof fn lemma_nested_reports(nested: Seq<Parsing>, shell_depth: nat, n: nat)
    requires
        n <= nested.len(),
    ensures
        nested_reports(nested, shell_depth, n).len() == n,
        forall|i: int|
            0 <= i < n ==> #[trigger] nested_reports(nested, shell_depth, n)[i] == report_of(
                nested[i],
                shell_depth + 1,
            ),
    decreases n,
{
    if n > 0 {
        lemma_nested_reports(nested, shell_depth, (n - 1) as nat);
    }
}

/// `report` lists the risks of `command`, a script inside `shell_depth` others: it follows from
/// what parsing the command and the scripts in it may give. A command in ASCII has one report.
pub open spec fn is_report_on(command: Seq<char>, shell_depth: nat, report: Seq<Risk>) -> bool {
    exists|parsing: Parsing| #[trigger]
        is_parsing_of(parsing, command, shell_depth) && report == report_of(parsing, shell_depth)
}

pub open spec fn report_views(reports: Seq<Vec<CommandRisk>>) -> Seq<Seq<Risk>> {
    reports.map_values(|risks: Vec<CommandRisk>| risk_views(risks@))
}

fn record_command_risks(
    words: &Vec<String>,
    shell_depth: usize,
    nested: &Vec<CommandRisk>,
    ctx: &mut RiskCtx,
)
    ensures
        final(ctx)@ == record_all(
            old(ctx)@,
            program_findings(word_views(words@)) + script_findings(
                word_views(words@),
                shell_depth as nat,
                risk_views(nested@),
            ),
        ),
{
    let ghost program = program_findings(word_views(words@));
    let ghost script = script_findings(
        word_views(words@),
        shell_depth as nat,
        risk_views(nested@),
    );
    if let Some(name) = destructive_command_name(words.as_slice()) {
        let risk = CommandRisk::DestructiveCommand(name.to_string());
        assert(program =~= if_found(true, risk@));
        ctx.push_if(true, risk);
    }
    assert(ctx@ == record_all(old(ctx)@, program));
    assert(seq![Risk::RemoteCodeExecution] =~= if_found(true, Risk::RemoteCodeExecution));
    match nested_shell_script(words.as_slice()) {
        NestedShellScript::Script(_) => {
            if shell_depth < MAX_SHELL_DEPTH {
                ctx.push_all(nested);
            } else {
                ctx.push_if(true, CommandRisk::RemoteCodeExecution);
            }
        },
        NestedShellScript::Ambiguous => {
            ctx.push_if(true, CommandRisk::RemoteCodeExecution);
        },
        NestedShellScript::Nothing => {},
    }
    proof {
        lemma_record_concat(old(ctx)@, program, script);
    }
}

/// The risks of a tree with these commands, where `nested` lists the risks of the scripts that
/// they hand to a shell.
pub fn analyze_syntax(
    root: &SyntaxNode,
    commands: &Vec<Vec<String>>,
    shell_depth: usize,
    nested: &Vec<Vec<CommandRisk>>,
) -> (result: Vec<CommandRisk>)
    requires
        nested@.len() == commands@.len(),
    ensures
        risk_views(result@) == distinct(
            all_findings(
                root@,
                command_views(commands@),
                shell_depth as nat,
                report_views(nested@),
            ),
        ),
{
    let ghost all = command_views(commands@);
    let ghost reports = report_views(nested@);
    let ghost start = Seq::<Risk>::empty();
    let mut ctx = RiskCtx::new();
    let mut i: usize = 0;
    while i < commands.len()
        invariant
            i <= commands@.len(),
            nested@.len() == commands@.len(),
            all == command_views(commands@),
            reports == report_views(nested@),
            ctx@ == record_all(start, command_findings(all, shell_depth as nat, reports, i as nat)),
        decreases commands@.len() - i,
    {
        assert(word_views(commands@[i as int]@) == all[i as int]);
        assert(risk_views(nested@[i as int]@) == reports[i as int]);
        record_command_risks(&commands[i], shell_depth, &nested[i], &mut ctx);
        proof {
            let before = command_findings(all, shell_depth as nat, reports, i as nat);
            let program = program_findings(all[i as int]);
            let script = script_findings(all[i as int], shell_depth as nat, reports[i as int]);
            lemma_record_concat(start, before, program + script);
            assert(before + (program + script) =~= before + program + script);
        }
        i += 1;
    }
    visit_node(root, &mut ctx);
    proof {
        lemma_record_concat(
            start,
            command_findings(all, shell_depth as nat, reports, all.len()),
            tree_findings(root@),
        );
    }
    ctx.into_risks()
}

/// The risks of a command that is a script inside `shell_depth` others.
pub fn analyze_bash_risks_ast_inner(command: &str, shell_depth: usize) -> (result: Vec<CommandRisk>)
    requires
        is_parseable(command@),
    ensures
        is_report_on(command@, shell_depth as nat, risk_views(result@)),
    decreases (if shell_depth < MAX_SHELL_DEPTH {
        MAX_SHELL_DEPTH - shell_depth
    } else {
        0
    }),
{
    let ghost depth = shell_depth as nat;
    let parsed = parse_bash(command);
    let ghost outcome = optional_node(parsed);
    let root = match parsed {
        Some(root) => root,
        None => {
            let risks: Vec<CommandRisk> = Vec::new();
            assert(risk_views(risks@) =~= Seq::<Risk>::empty());
            assert(is_parsing_of(Parsing { outcome, nested: Seq::empty() }, command@, depth));
            return risks;
        },
    };
    let mut commands: Vec<Vec<String>> = Vec::new();
    collect_simple_commands(&root, &mut commands);
    let ghost all = simple_commands(root@);
    assert(command_views(commands@) =~= all);
    proof {
        lemma_commands_drawn(root@, command@);
    }
    let ghost mut parsings: Seq<Parsing> = Seq::empty();
    let mut nested: Vec<Vec<CommandRisk>> = Vec::new();
    let mut i: usize = 0;
    while i < commands.len()
        invariant
            i <= commands@.len(),
            nested@.len() == i,
            parsings.len() == i,
            depth == shell_depth,
            is_parseable(command@),
            all == command_views(commands@),
            commands_drawn_from(all, command@),
            forall|k: int|
                0 <= k < i ==> #[trigger] report_views(nested@)[k] == report_of(
                    parsings[k],
                    depth + 1,
                ),
            forall|k: int|
                0 <= k < i && depth < MAX_SHELL_DEPTH ==> (nested_script(
                    all[k],
                ) matches Nested::Script(script) ==> is_parsing_of(
                    #[trigger] parsings[k],
                    script,
                    depth + 1,
                )),
        decreases commands@.len() - i,
    {
        let ghost words = all[i as int];
        assert(word_views(commands@[i as int]@) == words);
        let ghost earlier = parsings;
        let ghost mut parsing = Parsing { outcome: None, nested: Seq::empty() };
        let mut risks: Vec<CommandRisk> = Vec::new();
        assert(risk_views(risks@) =~= report_of(parsing, depth + 1));
        if shell_depth < MAX_SHELL_DEPTH {
            if let NestedShellScript::Script(script) = nested_shell_script(commands[i].as_slice()) {
                proof {
                    assert forall|j: int| 0 <= j < words.len() implies is_piece_of(
                        #[trigger] words[j],
                        command@,
                    ) by {
                        assert(words[j] == all[i as int][j]);
                    }
                    lemma_nested_script_piece(words, command@);
                    lemma_piece_parseable(script@, command@);
                }
                risks = analyze_bash_risks_ast_inner(script, shell_depth + 1);
                proof {
                    parsing = choose|parsing: Parsing| #[trigger]
                        is_parsing_of(parsing, script@, depth + 1) && risk_views(risks@)
                            == report_of(parsing, depth + 1);
                }
            }
        }
        let ghost before = nested@;
        nested.push(risks);
        proof {
            parsings = earlier.push(parsing);
            assert(report_views(nested@) =~= report_views(before).push(risk_views(risks@)));
        }
        i += 1;
    }
    let risks = analyze_syntax(&root, &commands, shell_depth, &nested);
    proof {
        let parsing = Parsing { outcome, nested: parsings };
        assert(is_parsing_of(parsing, command@, depth));
        lemma_nested_reports(parsings, depth, parsings.len());
        assert(report_views(nested@) =~= nested_reports(parsings, depth, parsings.len()));
    }
    risks
}

/// The risks of a command, found in its syntax tree.
///
/// The analysis is conservative: it goes by what stands out, pipelines, substitutions of
/// commands, redirections, gains of privilege, network tools and the programs that are run, and
/// avoids false positives from string literals. A literal counts only as what is made of it: a
/// program, a script that another shell is handed to run, the target of a redirection, the mode
/// of a `chmod` or the variable of an `export`.
/// A command that cannot be parsed has no risks: its text is not searched instead.
pub fn analyze_bash_risks_ast(command: &str) -> (result: Vec<CommandRisk>)
    requires
        is_parseable(command@),
    ensures
        is_report_on(command@, 0, risk_views(result@)),
{
    analyze_bash_risks_ast_inner(command, 0)
}

} // verus!
