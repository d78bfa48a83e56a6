//! Laws of values: what mathematical value each executable value stands for.
use vstd::prelude::*;

use crate::commands::{command_views, optional_commands};
use crate::grammar::NodeRecord;
use crate::nested::{Nested, NestedShellScript};
use crate::risk::{risk_views, CommandRisk, Risk};
use crate::syntax::SyntaxNode;
use crate::words::word_views;

verus! {

/// Each risk stands for itself, with its text.
pub proof fn law_risks_stand_for_themselves(text: String)
    ensures
        CommandRisk::DestructiveCommand(text)@ == Risk::DestructiveCommand(text@),
        CommandRisk::SensitivePathAccess(text)@ == Risk::SensitivePathAccess(text@),
        CommandRisk::ZshDangerous(text)@ == Risk::ZshDangerous(text@),
        CommandRisk::RemoteCodeExecution@ == Risk::RemoteCodeExecution,
        CommandRisk::CommandSubstitution@ == Risk::CommandSubstitution,
        CommandRisk::ProcessSubstitution@ == Risk::ProcessSubstitution,
        CommandRisk::EnvManipulation@ == Risk::EnvManipulation,
        CommandRisk::PathTraversal@ == Risk::PathTraversal,
        CommandRisk::NetworkAccess@ == Risk::NetworkAccess,
        CommandRisk::OutputRedirection@ == Risk::OutputRedirection,
        CommandRisk::PrivilegeEscalation@ == Risk::PrivilegeEscalation,
        CommandRisk::ProcessControl@ == Risk::ProcessControl,
        CommandRisk::Eval@ == Risk::Eval,
{
}

/// Lists stand for the lists of what their entries stand for, entry by entry.
pub proof fn law_lists_stand_for_their_entries(
    risks: Seq<CommandRisk>,
    words: Seq<String>,
    commands: Vec<Vec<String>>,
)
    ensures
        risk_views(risks).len() == risks.len(),
        forall|i: int| 0 <= i < risks.len() ==> #[trigger] risk_views(risks)[i] == risks[i]@,
        word_views(words).len() == words.len(),
        forall|i: int| 0 <= i < words.len() ==> #[trigger] word_views(words)[i] == words[i]@,
        command_views(commands@).len() == commands@.len(),
        forall|i: int|
            0 <= i < commands@.len() ==> #[trigger] command_views(commands@)[i] == word_views(
                commands@[i]@,
            ),
        optional_commands(Some(commands)) == Some(command_views(commands@)),
        optional_commands(None) is None,
{
}

/// A script stands for its text.
pub proof fn law_scripts_stand_for_their_text(script: &str)
    ensures
        NestedShellScript::Script(script)@ == Nested::Script(script@),
        NestedShellScript::Nothing@ == Nested::Nothing,
        NestedShellScript::Ambiguous@ == Nested::Ambiguous,
{
}

/// A node stands for its kind, field, text and children.
pub proof fn law_nodes_stand_for_their_parts(node: SyntaxNode, record: NodeRecord)
    ensures
        node@.kind == node.kind@,
        node@.named == node.named,
        node.field matches Some(field) ==> node@.field == Some(field@),
        node.field is None ==> node@.field is None,
        node@.text == node.text@,
        node@.children.len() == node.children@.len(),
        forall|i: int|
            0 <= i < node.children@.len() ==> #[trigger] node@.children[i] == node.children@[i]@,
        record@.kind == record.kind@,
        record@.depth == record.depth,
        record@.named == record.named,
        record.field matches Some(field) ==> record@.field == Some(field@),
        record.field is None ==> record@.field is None,
        record.text matches Some(text) ==> record@.text == Some(text@),
        record.text is None ==> record@.text is None,
{
}

} // verus!
