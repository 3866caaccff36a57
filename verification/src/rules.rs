//! Move rules: how they are checked, which one applies to a save path, and where it leads.

use crate::number::{of_integer, Number};
use crate::path::{
    absolute, begins_with, components, is_absolute, is_plain, law_normal_form_is_stable,
    law_rebased_keeps_relative_path, lemma_normal_is_normal, lemma_rendered_components,
    normal_path, normalize_path, rebase, rebased_parts, rendered, split_path, starts_with,
};
use crate::text::texts;
use vstd::prelude::*;

verus! {

/// A move rule as the configuration states it.
pub struct RuleConfig {
    pub source_path: String,
    pub target_path: String,
    pub min_days_since_completion: u64,
    pub min_free_space_percent: Option<Number>,
}

/// A checked move rule, with its paths in normal form.
pub struct Rule {
    /// The place of the rule in the configuration.
    pub index: usize,
    pub source_path: String,
    pub target_path: String,
    pub min_days_since_completion: u64,
    pub min_free_space_percent: Option<Number>,
    /// How many components the source path has.
    pub specificity: usize,
}

/// What can be wrong with a rule.
#[derive(Clone, Copy, PartialEq, Eq, Structural, Debug)]
pub enum RuleFault {
    SourceNotAbsolute,
    TargetNotAbsolute,
    SameSourceAndTarget,
    DuplicateSource,
    PercentOutOfRange,
}

/// A rule that was turned down.
pub struct RuleError {
    /// The place of the rule in the configuration.
    pub index: usize,
    pub fault: RuleFault,
    /// The path the fault lies in, in normal form: the target's where only it is not absolute, the
    /// source's else.
    pub path: String,
}

/// Whether a free-space threshold lies between zero and one hundred per cent.
pub open spec fn is_percentage(percent: Number) -> bool {
    !percent.is_none() && !percent.is_infinite() && of_integer(0).is_less(percent)
        && percent.is_less(of_integer(100))
}

/// What is wrong with the rule at `at`, given the rules before it.
pub open spec fn rule_fault(raw: Seq<RuleConfig>, at: int) -> Option<RuleFault> {
    let source = normal_path(raw[at].source_path@);
    let target = normal_path(raw[at].target_path@);
    if !is_absolute(source) {
        Some(RuleFault::SourceNotAbsolute)
    } else if !is_absolute(target) {
        Some(RuleFault::TargetNotAbsolute)
    } else if source == target {
        Some(RuleFault::SameSourceAndTarget)
    } else if exists|j: int|
        0 <= j < at && normal_path((#[trigger] raw[j]).source_path@) == source {
        Some(RuleFault::DuplicateSource)
    } else if raw[at].min_free_space_percent is Some && !is_percentage(
        raw[at].min_free_space_percent->0,
    ) {
        Some(RuleFault::PercentOutOfRange)
    } else {
        None
    }
}

/// The rule that a checked entry of the configuration becomes.
pub open spec fn is_compiled(raw: RuleConfig, index: int, rule: Rule) -> bool {
    &&& rule.index == index
    &&& rule.source_path@ == normal_path(raw.source_path@)
    &&& rule.target_path@ == normal_path(raw.target_path@)
    &&& rule.min_days_since_completion == raw.min_days_since_completion
    &&& rule.min_free_space_percent == raw.min_free_space_percent
    &&& rule.specificity == components(rule.source_path@).len()
}

fn percentage(percent: Number) -> (fits: bool)
    ensures
        fits == is_percentage(percent),
{
    percent.finite() && Number::from_natural(0).less(percent) && percent.less(
        Number::from_natural(100),
    )
}

/// Checks the rules of a configuration and brings their paths to normal form. The first rule that
/// has a fault is turned down.
pub fn compile_rules(raw_rules: Vec<RuleConfig>) -> (compiled: Result<Vec<Rule>, RuleError>)
    ensures
        match compiled {
            Ok(rules) => {
                &&& rules@.len() == raw_rules@.len()
                &&& forall|i: int|
                    0 <= i < rules@.len() ==> (#[trigger] rule_fault(raw_rules@, i)) is None
                &&& forall|i: int|
                    0 <= i < rules@.len() ==> is_compiled(raw_rules@[i], i, #[trigger] rules@[i])
            },
            Err(error) => {
                &&& error.index < raw_rules@.len()
                &&& rule_fault(raw_rules@, error.index as int) == Some(error.fault)
                &&& forall|j: int|
                    0 <= j < error.index ==> #[trigger] rule_fault(raw_rules@, j) is None
                &&& error.path@ == normal_path(
                    if error.fault == RuleFault::TargetNotAbsolute {
                        raw_rules@[error.index as int].target_path@
                    } else {
                        raw_rules@[error.index as int].source_path@
                    },
                )
            },
        },
{
    let mut rules: Vec<Rule> = Vec::new();
    let mut index: usize = 0;
    while index < raw_rules.len()
        invariant
            index <= raw_rules@.len(),
            rules@.len() == index,
            forall|i: int| 0 <= i < index ==> (#[trigger] rule_fault(raw_rules@, i)) is None,
            forall|i: int|
                0 <= i < index ==> is_compiled(raw_rules@[i], i, #[trigger] rules@[i]),
        decreases raw_rules.len() - index,
    {
        let raw = &raw_rules[index];
        let source_path = normalize_path(raw.source_path.as_str());
        let target_path = normalize_path(raw.target_path.as_str());
        if !absolute(source_path.as_str()) {
            return Err(
                RuleError { index, fault: RuleFault::SourceNotAbsolute, path: source_path },
            );
        }
        if !absolute(target_path.as_str()) {
            return Err(
                RuleError { index, fault: RuleFault::TargetNotAbsolute, path: target_path },
            );
        }
        if source_path == target_path {
            return Err(
                RuleError { index, fault: RuleFault::SameSourceAndTarget, path: source_path },
            );
        }
        let mut j: usize = 0;
        while j < rules.len()
            invariant
                j <= rules@.len(),
                rules@.len() == index,
                index < raw_rules@.len(),
                source_path@ == normal_path(raw_rules@[index as int].source_path@),
                target_path@ == normal_path(raw_rules@[index as int].target_path@),
                is_absolute(source_path@),
                is_absolute(target_path@),
                source_path@ != target_path@,
                forall|i: int| 0 <= i < index ==> (#[trigger] rule_fault(raw_rules@, i)) is None,
                forall|i: int|
                    0 <= i < index ==> is_compiled(raw_rules@[i], i, #[trigger] rules@[i]),
                forall|i: int|
                    0 <= i < j ==> normal_path((#[trigger] raw_rules@[i]).source_path@)
                        != source_path@,
            decreases rules.len() - j,
        {
            assert(is_compiled(raw_rules@[j as int], j as int, rules@[j as int]));
            if rules[j].source_path == source_path {
                proof {
                    assert(normal_path(raw_rules@[j as int].source_path@) == source_path@);
                }
                return Err(
                    RuleError { index, fault: RuleFault::DuplicateSource, path: source_path },
                );
            }
            j = j + 1;
        }
        if let Some(percent) = raw.min_free_space_percent {
            if !percentage(percent) {
                return Err(
                    RuleError { index, fault: RuleFault::PercentOutOfRange, path: source_path },
                );
            }
        }
        let parts = split_path(source_path.as_str());
        let specificity = parts.len();
        assert(texts(parts@).len() == specificity);
        rules.push(
            Rule {
                index,
                source_path,
                target_path,
                min_days_since_completion: raw.min_days_since_completion,
                min_free_space_percent: raw.min_free_space_percent,
                specificity,
            },
        );
        index = index + 1;
    }
    Ok(rules)
}

/// The place of the rule that applies to a save path: of those whose source the path lies under
/// the most specific one, and of several as specific the last.
pub open spec fn matching_rule(rules: Seq<Rule>, save_path: Seq<char>) -> Option<int>
    decreases rules.len(),
{
    if rules.len() == 0 {
        None
    } else {
        let before = matching_rule(rules.drop_last(), save_path);
        let last = rules.last();
        if starts_with(save_path, last.source_path@) && (before is None
            || rules[before->0].specificity <= last.specificity) {
            Some(rules.len() - 1)
        } else {
            before
        }
    }
}

/// The rule that applies to a save path, if there is one.
pub fn match_rule<'a>(rules: &'a Vec<Rule>, save_path: &str) -> (matched: Option<&'a Rule>)
    ensures
        match matched {
            Some(rule) => matching_rule(rules@, save_path@) is Some && *rule
                == rules@[matching_rule(rules@, save_path@)->0],
            None => matching_rule(rules@, save_path@) is None,
        },
{
    let mut matched: Option<usize> = None;
    let mut i: usize = 0;
    assert(rules@.take(0) =~= Seq::<Rule>::empty());
    while i < rules.len()
        invariant
            i <= rules@.len(),
            matched matches Some(place) ==> place < i,
            matching_rule(rules@.take(i as int), save_path@) == (match matched {
                Some(place) => Some(place as int),
                None => None,
            }),
        decreases rules.len() - i,
    {
        let ghost seen = rules@.take(i + 1);
        assert(seen.drop_last() =~= rules@.take(i as int));
        if begins_with(save_path, rules[i].source_path.as_str()) {
            match matched {
                Some(place) => {
                    if rules[place].specificity <= rules[i].specificity {
                        matched = Some(i);
                    }
                },
                None => {
                    matched = Some(i);
                },
            }
        }
        i = i + 1;
    }
    assert(rules@.take(i as int) =~= rules@);
    proof {
        law_most_specific_rule_wins(rules@, save_path@);
    }
    match matched {
        Some(place) => Some(&rules[place]),
        None => None,
    }
}

/// Where a rule leads a save path that lies under its source.
pub open spec fn remapped(save_path: Seq<char>, rule: Rule) -> Seq<char> {
    rendered(
        rebased_parts(
            rule.target_path@,
            save_path,
            components(rule.source_path@).len() as int,
        ),
    )
}

/// The path below a rule's target that corresponds to a save path below its source. A path that
/// does not lie under the source has none.
pub fn remap_save_path(save_path: &str, rule: &Rule) -> (destination: Option<String>)
    ensures
        match destination {
            Some(path) => starts_with(save_path@, rule.source_path@) && path@ == remapped(
                save_path@,
                *rule,
            ),
            None => !starts_with(save_path@, rule.source_path@),
        },
{
    if !begins_with(save_path, rule.source_path.as_str()) {
        return None;
    }
    let source = split_path(rule.source_path.as_str());
    assert(texts(source@).len() == source@.len());
    Some(rebase(rule.target_path.as_str(), save_path, source.len()))
}

/// The rule that applies has a source that the path lies under, and no rule with such a source is
/// more specific; there is none only where no source fits.
pub proof fn law_most_specific_rule_wins(rules: Seq<Rule>, save_path: Seq<char>)
    ensures
        match matching_rule(rules, save_path) {
            Some(place) => {
                &&& 0 <= place < rules.len()
                &&& starts_with(save_path, rules[place].source_path@)
                &&& forall|i: int|
                    0 <= i < rules.len() && starts_with(
                        save_path,
                        (#[trigger] rules[i]).source_path@,
                    ) ==> rules[i].specificity <= rules[place].specificity
            },
            None => forall|i: int|
                0 <= i < rules.len() ==> !starts_with(save_path, (#[trigger] rules[i]).source_path@),
        },
    decreases rules.len(),
{
    if rules.len() > 0 {
        let before = rules.drop_last();
        law_most_specific_rule_wins(before, save_path);
        assert forall|i: int| 0 <= i < before.len() implies before[i] == rules[i] by {}
    }
}

/// A rule keeps the path below its source: what it leads to lies below its target by the same
/// components.
pub proof fn law_remap_keeps_relative_path(
    raw: RuleConfig,
    index: int,
    rule: Rule,
    save_path: Seq<char>,
)
    requires
        is_compiled(raw, index, rule),
        starts_with(normal_path(save_path), rule.source_path@),
    ensures
        components(remapped(normal_path(save_path), rule)) == components(rule.target_path@)
            + components(normal_path(save_path)).skip(components(rule.source_path@).len() as int),
{
    law_rebased_keeps_relative_path(raw.target_path@, raw.source_path@, save_path);
    law_normal_form_is_stable(raw.target_path@);
    law_normal_form_is_stable(save_path);
    lemma_normal_is_normal(raw.target_path@);
    lemma_normal_is_normal(save_path);
    law_normal_form_is_stable(raw.source_path@);
    lemma_normal_is_normal(raw.source_path@);
    let base = components(rule.target_path@);
    let count = components(rule.source_path@).len() as int;
    let path = components(normal_path(save_path));
    let whole = base + path.skip(count);
    assert forall|i: int| 1 <= i < whole.len() implies is_plain(#[trigger] whole[i]) by {
        if i < base.len() {
            assert(whole[i] == base[i]);
        } else {
            assert(whole[i] == path[i - base.len() + count]);
        }
    }
    assert(whole[0] == base[0]);
    lemma_rendered_components(whole);
}

/// Of the checked rules whose source is a directory above a save path, or the save path itself, the
/// one with the longest source applies. No other rule does, and none applies only where there is no
/// such rule.
pub proof fn law_longest_source_applies(
    raw_rules: Seq<RuleConfig>,
    rules: Seq<Rule>,
    save_path: Seq<char>,
)
    requires
        rules.len() == raw_rules.len(),
        forall|i: int| 0 <= i < rules.len() ==> (#[trigger] rule_fault(raw_rules, i)) is None,
        forall|i: int|
            0 <= i < rules.len() ==> is_compiled(raw_rules[i], i, #[trigger] rules[i]),
    ensures
        forall|i: int| #![trigger rules[i]]
            0 <= i < rules.len() ==> ((matching_rule(rules, save_path) == Some(i)) <==> {
                &&& holds_path(rules[i], save_path)
                &&& forall|j: int|
                    0 <= j < rules.len() && j != i && holds_path(#[trigger] rules[j], save_path)
                        ==> components(rules[j].source_path@).len() < components(
                        rules[i].source_path@,
                    ).len()
            }),
        matching_rule(rules, save_path) is None ==> forall|i: int|
            0 <= i < rules.len() ==> !holds_path(#[trigger] rules[i], save_path),
        matching_rule(rules, save_path) matches Some(place) ==> 0 <= place < rules.len(),
{
    law_most_specific_rule_wins(rules, save_path);
    assert forall|i: int| 0 <= i < rules.len() implies holds_path(#[trigger] rules[i], save_path)
        == starts_with(save_path, rules[i].source_path@) by {
        let whole = components(save_path);
        let first = components(rules[i].source_path@);
        if holds_path(rules[i], save_path) {
            assert(whole.subrange(0, first.len() as int) =~= whole.take(first.len() as int));
        }
        if starts_with(save_path, rules[i].source_path@) {
            assert(whole.take(first.len() as int) =~= whole.subrange(0, first.len() as int));
        }
    }
    assert forall|i: int, j: int|
        0 <= i < rules.len() && 0 <= j < rules.len() && i != j && holds_path(
            #[trigger] rules[i],
            save_path,
        ) && holds_path(#[trigger] rules[j], save_path) implies components(
        rules[i].source_path@,
    ).len() != components(rules[j].source_path@).len() by {
        if components(rules[i].source_path@).len() == components(rules[j].source_path@).len() {
            assert(is_compiled(raw_rules[i], i, rules[i]));
            assert(is_compiled(raw_rules[j], j, rules[j]));
            assert(components(rules[i].source_path@) == components(rules[j].source_path@));
            lemma_normal_text(raw_rules[i].source_path@);
            lemma_normal_text(raw_rules[j].source_path@);
            let (low, high) = if i < j {
                (i, j)
            } else {
                (j, i)
            };
            assert(normal_path(raw_rules[low].source_path@) == normal_path(
                raw_rules[high].source_path@,
            ));
            assert(rule_fault(raw_rules, high) is None);
        }
    }
    assert forall|i: int| 0 <= i < rules.len() implies (#[trigger] rules[i]).specificity
        == components(rules[i].source_path@).len() by {
        assert(is_compiled(raw_rules[i], i, rules[i]));
    }
}

/// Whether the source of a rule is a directory above a path, or the path itself.
pub open spec fn holds_path(rule: Rule, path: Seq<char>) -> bool {
    let source = components(rule.source_path@);
    source.len() <= components(path).len() && components(path).take(source.len() as int) == source
}

/// A path in normal form is told by its components.
pub proof fn lemma_normal_text(path: Seq<char>)
    ensures
        normal_path(path) == rendered(components(normal_path(path))),
{
    law_normal_form_is_stable(path);
}

/// A checked rule leads every path below its source to the same path below its target, and that is
/// never the path itself; the source itself is led to the target.
pub proof fn law_rules_always_lead_elsewhere(
    raw_rules: Seq<RuleConfig>,
    at: int,
    rule: Rule,
    save_path: Seq<char>,
)
    requires
        0 <= at < raw_rules.len(),
        rule_fault(raw_rules, at) is None,
        is_compiled(raw_rules[at], at, rule),
        holds_path(rule, normal_path(save_path)),
    ensures
        components(remapped(normal_path(save_path), rule)) == components(rule.target_path@)
            + components(normal_path(save_path)).skip(components(rule.source_path@).len() as int),
        components(remapped(normal_path(save_path), rule)) != components(normal_path(save_path)),
        normal_path(save_path) == rule.source_path@ ==> remapped(normal_path(save_path), rule)
            == rule.target_path@,
{
    let path = normal_path(save_path);
    let source = components(rule.source_path@);
    let target = components(rule.target_path@);
    let whole = components(path);
    assert(whole.subrange(0, source.len() as int) =~= whole.take(source.len() as int));
    law_remap_keeps_relative_path(raw_rules[at], at, rule, save_path);
    lemma_normal_text(raw_rules[at].source_path@);
    lemma_normal_text(raw_rules[at].target_path@);
    if components(remapped(path, rule)) == whole {
        let rest = whole.skip(source.len() as int);
        assert((target + rest).len() == whole.len());
        assert(target.len() == source.len());
        assert((target + rest).take(target.len() as int) =~= target);
        assert(source == target);
    }
    if path == rule.source_path@ {
        law_rebased_keeps_relative_path(
            raw_rules[at].target_path@,
            raw_rules[at].source_path@,
            save_path,
        );
        assert(target + whole.skip(source.len() as int) =~= target);
    }
}

/// What is checked of a rule, and in which order: both paths have to be absolute once they are in
/// normal form, they must differ, no rule before may have the same source, and a threshold lies
/// above zero and below one hundred.
pub proof fn law_rules_are_checked(raw_rules: Seq<RuleConfig>, at: int)
    requires
        0 <= at < raw_rules.len(),
    ensures
        ({
            let source = normal_path(raw_rules[at].source_path@);
            let target = normal_path(raw_rules[at].target_path@);
            let source_rooted = source.len() > 0 && source[0] == '/';
            let target_rooted = target.len() > 0 && target[0] == '/';
            let repeated = exists|j: int|
                0 <= j < at && normal_path((#[trigger] raw_rules[j]).source_path@) == source;
            let percent_fits = raw_rules[at].min_free_space_percent matches Some(percent)
                ==> !percent.is_none() && !percent.is_infinite() && of_integer(0).is_less(percent)
                && percent.is_less(of_integer(100));
            &&& (rule_fault(raw_rules, at) is None) == (source_rooted && target_rooted && source
                != target && !repeated && percent_fits)
            &&& rule_fault(raw_rules, at) == Some(RuleFault::SourceNotAbsolute) <==> !source_rooted
            &&& rule_fault(raw_rules, at) == Some(RuleFault::TargetNotAbsolute) <==> source_rooted
                && !target_rooted
            &&& rule_fault(raw_rules, at) == Some(RuleFault::SameSourceAndTarget)
                <==> source_rooted && target_rooted && source == target
            &&& rule_fault(raw_rules, at) == Some(RuleFault::DuplicateSource) <==> source_rooted
                && target_rooted && source != target && repeated
            &&& rule_fault(raw_rules, at) == Some(RuleFault::PercentOutOfRange) <==> source_rooted
                && target_rooted && source != target && !repeated && !percent_fits
        }),
{
}

/// A rule keeps its place and what the configuration asks for; its paths are in normal form, and it is
/// as specific as its source has components.
pub proof fn law_rules_keep_what_they_ask(raw: RuleConfig, index: int, rule: Rule)
    requires
        is_compiled(raw, index, rule),
    ensures
        rule.index == index,
        rule.source_path@ == normal_path(raw.source_path@),
        rule.target_path@ == normal_path(raw.target_path@),
        rule.min_days_since_completion == raw.min_days_since_completion,
        rule.min_free_space_percent == raw.min_free_space_percent,
        rule.specificity == components(normal_path(raw.source_path@)).len(),
{
}

} // verus!
