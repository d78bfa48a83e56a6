//! Risks of a shell command, and a report that lists each once.
use vstd::prelude::*;

use crate::text::same_text;

verus! {

/// A risk that a shell command carries.
#[derive(Debug, PartialEq, Eq)]
pub enum CommandRisk {
    /// Runs a tool that destroys data or stops the machine.
    DestructiveCommand(String),
    /// Runs code that cannot be seen in the command.
    RemoteCodeExecution,
    CommandSubstitution,
    ProcessSubstitution,
    /// Changes `PATH` or a variable of the dynamic loader.
    EnvManipulation,
    PathTraversal,
    /// Names a path under a sensitive directory.
    SensitivePathAccess(String),
    NetworkAccess,
    OutputRedirection,
    PrivilegeEscalation,
    ProcessControl,
    Eval,
    /// Runs a builtin of zsh that reaches past the shell.
    ZshDangerous(String),
}

/// The mathematical value of a `CommandRisk`.
#[verifier::ext_equal]
pub enum Risk {
    DestructiveCommand(Seq<char>),
    RemoteCodeExecution,
    CommandSubstitution,
    ProcessSubstitution,
    EnvManipulation,
    PathTraversal,
    SensitivePathAccess(Seq<char>),
    NetworkAccess,
    OutputRedirection,
    PrivilegeEscalation,
    ProcessControl,
    Eval,
    ZshDangerous(Seq<char>),
}

impl View for CommandRisk {
    type V = Risk;

    open spec fn view(&self) -> Risk {
        match self {
            CommandRisk::DestructiveCommand(name) => Risk::DestructiveCommand(name@),
            CommandRisk::RemoteCodeExecution => Risk::RemoteCodeExecution,
            CommandRisk::CommandSubstitution => Risk::CommandSubstitution,
            CommandRisk::ProcessSubstitution => Risk::ProcessSubstitution,
            CommandRisk::EnvManipulation => Risk::EnvManipulation,
            CommandRisk::PathTraversal => Risk::PathTraversal,
            CommandRisk::SensitivePathAccess(path) => Risk::SensitivePathAccess(path@),
            CommandRisk::NetworkAccess => Risk::NetworkAccess,
            CommandRisk::OutputRedirection => Risk::OutputRedirection,
            CommandRisk::PrivilegeEscalation => Risk::PrivilegeEscalation,
            CommandRisk::ProcessControl => Risk::ProcessControl,
            CommandRisk::Eval => Risk::Eval,
            CommandRisk::ZshDangerous(what) => Risk::ZshDangerous(what@),
        }
    }
}

impl CommandRisk {
    /// Whether the two are the same risk.
    pub fn same_as(&self, other: &CommandRisk) -> (result: bool)
        ensures
            result == (self@ == other@),
    {
        match (self, other) {
            (CommandRisk::DestructiveCommand(a), CommandRisk::DestructiveCommand(b)) => {
                same_text(a, b)
            },
            (CommandRisk::SensitivePathAccess(a), CommandRisk::SensitivePathAccess(b)) => {
                same_text(a, b)
            },
            (CommandRisk::ZshDangerous(a), CommandRisk::ZshDangerous(b)) => same_text(a, b),
            (CommandRisk::RemoteCodeExecution, CommandRisk::RemoteCodeExecution) => true,
            (CommandRisk::CommandSubstitution, CommandRisk::CommandSubstitution) => true,
            (CommandRisk::ProcessSubstitution, CommandRisk::ProcessSubstitution) => true,
            (CommandRisk::EnvManipulation, CommandRisk::EnvManipulation) => true,
            (CommandRisk::PathTraversal, CommandRisk::PathTraversal) => true,
            (CommandRisk::NetworkAccess, CommandRisk::NetworkAccess) => true,
            (CommandRisk::OutputRedirection, CommandRisk::OutputRedirection) => true,
            (CommandRisk::PrivilegeEscalation, CommandRisk::PrivilegeEscalation) => true,
            (CommandRisk::ProcessControl, CommandRisk::ProcessControl) => true,
            (CommandRisk::Eval, CommandRisk::Eval) => true,
            _ => false,
        }
    }
}

impl Clone for CommandRisk {
    fn clone(&self) -> (result: CommandRisk)
        ensures
            result@ == self@,
    {
        match self {
            CommandRisk::DestructiveCommand(name) => CommandRisk::DestructiveCommand(name.clone()),
            CommandRisk::RemoteCodeExecution => CommandRisk::RemoteCodeExecution,
            CommandRisk::CommandSubstitution => CommandRisk::CommandSubstitution,
            CommandRisk::ProcessSubstitution => CommandRisk::ProcessSubstitution,
            CommandRisk::EnvManipulation => CommandRisk::EnvManipulation,
            CommandRisk::PathTraversal => CommandRisk::PathTraversal,
            CommandRisk::SensitivePathAccess(path) => {
                CommandRisk::SensitivePathAccess(path.clone())
            },
            CommandRisk::NetworkAccess => CommandRisk::NetworkAccess,
            CommandRisk::OutputRedirection => CommandRisk::OutputRedirection,
            CommandRisk::PrivilegeEscalation => CommandRisk::PrivilegeEscalation,
            CommandRisk::ProcessControl => CommandRisk::ProcessControl,
            CommandRisk::Eval => CommandRisk::Eval,
            CommandRisk::ZshDangerous(what) => CommandRisk::ZshDangerous(what.clone()),
        }
    }
}

pub open spec fn risk_views(risks: Seq<CommandRisk>) -> Seq<Risk> {
    risks.map_values(|risk: CommandRisk| risk@)
}

/// A report to which `risk` has been added, where it was not listed yet.
pub open spec fn record(report: Seq<Risk>, risk: Risk) -> Seq<Risk> {
    if report.contains(risk) {
        report
    } else {
        report.push(risk)
    }
}

/// A report to which `findings` have been added in order.
pub open spec fn record_all(report: Seq<Risk>, findings: Seq<Risk>) -> Seq<Risk>
    decreases findings.len(),
{
    if findings.len() == 0 {
        report
    } else {
        record(record_all(report, findings.drop_last()), findings.last())
    }
}

/// The findings without repetitions, each where it first occurs.
pub open spec fn distinct(findings: Seq<Risk>) -> Seq<Risk> {
    record_all(Seq::empty(), findings)
}

/// `risk` as a list of findings, empty unless `found`.
pub open spec fn if_found(found: bool, risk: Risk) -> Seq<Risk> {
    if found {
        seq![risk]
    } else {
        Seq::empty()
    }
}

/// Adding two lists of findings one after the other is adding their concatenation.
pub proof fn lemma_record_concat(report: Seq<Risk>, first: Seq<Risk>, second: Seq<Risk>)
    ensures
        record_all(report, first + second) == record_all(record_all(report, first), second),
    decreases second.len(),
{
    if second.len() == 0 {
        assert(first + second =~= first);
    } else {
        assert((first + second).drop_last() =~= first + second.drop_last());
        lemma_record_concat(report, first, second.drop_last());
    }
}

/// Adding one finding, or none.
pub proof fn lemma_record_if_found(report: Seq<Risk>, found: bool, risk: Risk)
    ensures
        record_all(report, if_found(found, risk)) == (if found {
            record(report, risk)
        } else {
            report
        }),
{
    let findings = if_found(found, risk);
    if found {
        assert(findings.drop_last() =~= Seq::empty());
        assert(record_all(report, findings.drop_last()) == report);
    }
}

/// A report holds what was in it and what has been added, and nothing else.
pub proof fn lemma_record_all_contains(report: Seq<Risk>, findings: Seq<Risk>, risk: Risk)
    ensures
        record_all(report, findings).contains(risk) <==> report.contains(risk)
            || findings.contains(risk),
    decreases findings.len(),
{
    if findings.len() > 0 {
        let rest = record_all(report, findings.drop_last());
        lemma_record_all_contains(report, findings.drop_last(), risk);
        lemma_push_contains(rest, findings.last(), risk);
        lemma_push_contains(findings.drop_last(), findings.last(), risk);
        assert(findings.drop_last().push(findings.last()) =~= findings);
    }
}

/// A list with one more entry holds that entry and what it held before.
pub proof fn lemma_push_contains(list: Seq<Risk>, last: Risk, risk: Risk)
    ensures
        list.push(last).contains(risk) <==> list.contains(risk) || last == risk,
{
    if list.contains(risk) {
        let i = choose|i: int| 0 <= i < list.len() && list[i] == risk;
        assert(list.push(last)[i] == risk);
    }
    assert(list.push(last)[list.len() as int] == last);
}

/// Adding to a report without repetitions makes none.
pub proof fn lemma_record_all_no_duplicates(report: Seq<Risk>, findings: Seq<Risk>)
    requires
        report.no_duplicates(),
    ensures
        record_all(report, findings).no_duplicates(),
    decreases findings.len(),
{
    if findings.len() > 0 {
        lemma_record_all_no_duplicates(report, findings.drop_last());
    }
}

/// Collects the risks of a command, each once.
pub struct RiskCtx {
    hits: Vec<CommandRisk>,
}

impl View for RiskCtx {
    type V = Seq<Risk>;

    closed spec fn view(&self) -> Seq<Risk> {
        risk_views(self.hits@)
    }
}

impl RiskCtx {
    /// No risk is listed twice.
    pub open spec fn well_formed(&self) -> bool {
        self@.no_duplicates()
    }

    /// An empty report.
    pub fn new() -> (result: RiskCtx)
        ensures
            result@ == Seq::<Risk>::empty(),
            result.well_formed(),
    {
        let hits: Vec<CommandRisk> = Vec::new();
        assert(risk_views(hits@) =~= Seq::<Risk>::empty());
        RiskCtx { hits }
    }

    /// Lists `risk`, unless it is listed already.
    pub fn push(&mut self, risk: CommandRisk)
        ensures
            final(self)@ == record(old(self)@, risk@),
            old(self).well_formed() ==> final(self).well_formed(),
    {
        let mut i: usize = 0;
        while i < self.hits.len()
            invariant
                i <= self.hits@.len(),
                self@ == old(self)@,
                forall|k: int| 0 <= k < i ==> #[trigger] self@[k] != risk@,
            decreases self.hits@.len() - i,
        {
            if self.hits[i].same_as(&risk) {
                assert(self@[i as int] == risk@);
                return ;
            }
            i += 1;
        }
        let ghost before = self.hits@;
        self.hits.push(risk);
        assert(risk_views(self.hits@) =~= risk_views(before).push(risk@));
    }

    /// Lists `risk` where it was found.
    pub fn push_if(&mut self, found: bool, risk: CommandRisk)
        ensures
            final(self)@ == record_all(old(self)@, if_found(found, risk@)),
            old(self).well_formed() ==> final(self).well_formed(),
    {
        proof {
            lemma_record_if_found(self@, found, risk@);
        }
        if found {
            self.push(risk);
        }
    }

    /// Lists `risks` in order.
    pub fn push_all(&mut self, risks: &Vec<CommandRisk>)
        ensures
            final(self)@ == record_all(old(self)@, risk_views(risks@)),
            old(self).well_formed() ==> final(self).well_formed(),
    {
        let ghost all = risk_views(risks@);
        let mut i: usize = 0;
        assert(all.take(0) =~= Seq::empty());
        while i < risks.len()
            invariant
                i <= risks@.len(),
                all == risk_views(risks@),
                self@ == record_all(old(self)@, all.take(i as int)),
            decreases risks@.len() - i,
        {
            assert(all.take(i + 1).drop_last() =~= all.take(i as int));
            self.push(risks[i].clone());
            i += 1;
        }
        assert(all.take(i as int) =~= all);
        proof {
            if old(self).well_formed() {
                lemma_record_all_no_duplicates(old(self)@, all);
            }
        }
    }

    /// The risks listed, in the order in which they were first found.
    pub fn into_risks(self) -> (result: Vec<CommandRisk>)
        ensures
            risk_views(result@) == self@,
    {
        self.hits
    }
}

} // verus!
