//! How runs begin and end.

use crate::autoremove::DEFAULT_AUTOREMOVE_INTERVAL_SECS;
use crate::path::normal_path;
use crate::rules::{
    compile_rules, is_compiled, rule_fault, Rule, RuleConfig, RuleError, RuleFault,
};
use vstd::prelude::*;

verus! {

/// How long a daemon pauses between two cycles, unless it is told otherwise.
pub const DEFAULT_DAEMON_INTERVAL_SECS: u64 = DEFAULT_AUTOREMOVE_INTERVAL_SECS;

/// How a run ends.
#[derive(Clone, Copy, PartialEq, Eq, Structural, Debug)]
pub enum Ending {
    Success,
    /// So many operations failed.
    Failures(usize),
    /// An answer that the run cannot do without failed.
    Aborted,
}

/// Why a run cannot begin.
pub enum SetupError {
    ZeroInterval,
    NoRules,
    Rule(RuleError),
    /// No rule asks for free space.
    NoLowSpaceRules,
}

/// Whether an error tells what is wrong with the rules of a configuration.
pub open spec fn is_rule_error(raw_rules: Seq<RuleConfig>, error: RuleError) -> bool {
    &&& error.index < raw_rules.len()
    &&& rule_fault(raw_rules, error.index as int) == Some(error.fault)
    &&& forall|j: int| 0 <= j < error.index ==> #[trigger] rule_fault(raw_rules, j) is None
    &&& error.path@ == normal_path(
        if error.fault == RuleFault::TargetNotAbsolute {
            raw_rules[error.index as int].target_path@
        } else {
            raw_rules[error.index as int].source_path@
        },
    )
}

/// Whether rules are those of a configuration, checked and in normal form.
pub open spec fn are_rules(raw_rules: Seq<RuleConfig>, rules: Seq<Rule>) -> bool {
    &&& rules.len() == raw_rules.len()
    &&& forall|i: int| 0 <= i < rules.len() ==> (#[trigger] rule_fault(raw_rules, i)) is None
    &&& forall|i: int|
        0 <= i < rules.len() ==> is_compiled(raw_rules[i], i, #[trigger] rules[i])
}

/// Checks the rules of a configuration; there has to be one at least.
pub fn check_rules(raw_rules: Vec<RuleConfig>) -> (outcome: Result<Vec<Rule>, SetupError>)
    ensures
        match outcome {
            Ok(rules) => raw_rules@.len() > 0 && are_rules(raw_rules@, rules@),
            Err(error) => if raw_rules@.len() == 0 {
                error is NoRules
            } else {
                error matches SetupError::Rule(error) && is_rule_error(raw_rules@, error)
            },
        },
{
    if raw_rules.len() == 0 {
        return Err(SetupError::NoRules);
    }
    match compile_rules(raw_rules) {
        Ok(rules) => Ok(rules),
        Err(error) => Err(SetupError::Rule(error)),
    }
}

/// The first rule with a fault is the one that an error names, with that fault and the path it lies in.
pub proof fn law_first_wrong_rule_is_named(raw_rules: Seq<RuleConfig>, error: RuleError, at: int)
    requires
        is_rule_error(raw_rules, error),
        0 <= at < raw_rules.len(),
        rule_fault(raw_rules, at) is Some,
        forall|j: int| 0 <= j < at ==> #[trigger] rule_fault(raw_rules, j) is None,
    ensures
        error.index == at,
        Some(error.fault) == rule_fault(raw_rules, at),
        error.fault == RuleFault::TargetNotAbsolute ==> error.path@ == normal_path(
            raw_rules[at].target_path@,
        ),
        error.fault != RuleFault::TargetNotAbsolute ==> error.path@ == normal_path(
            raw_rules[at].source_path@,
        ),
{
    if at < error.index {
        assert(rule_fault(raw_rules, at) is None);
    }
    if error.index < at {
        assert(rule_fault(raw_rules, error.index as int) is None);
    }
}

/// The rules of a run are those of the configuration, in their order, and none of them has a fault.
pub proof fn law_rules_are_those_of_the_configuration(
    raw_rules: Seq<RuleConfig>,
    rules: Seq<Rule>,
    at: int,
)
    requires
        are_rules(raw_rules, rules),
    ensures
        rules.len() == raw_rules.len(),
        0 <= at < rules.len() ==> rule_fault(raw_rules, at) is None && is_compiled(
            raw_rules[at],
            at,
            rules[at],
        ),
{
}

} // verus!
