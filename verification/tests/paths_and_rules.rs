use std::path::{Component, Path, PathBuf};

use qb_tools::number::Number;
use qb_tools::path::{absolute, begins_with, normalize_path, same_path, split_path};
use qb_tools::rules::{
    compile_rules, match_rule, remap_save_path, Rule, RuleConfig, RuleError, RuleFault,
};

fn num(value: f64) -> Number {
    Number { bits: value.to_bits() }
}

fn rule(source: &str, target: &str, days: u64, percent: Option<f64>) -> Rule {
    Rule {
        index: 0,
        source_path: normalize_path(source),
        target_path: normalize_path(target),
        min_days_since_completion: days,
        min_free_space_percent: percent.map(num),
        specificity: split_path(source).len(),
    }
}

fn raw(source: &str, target: &str, percent: Option<f64>) -> RuleConfig {
    RuleConfig {
        source_path: source.to_string(),
        target_path: target.to_string(),
        min_days_since_completion: 7,
        min_free_space_percent: percent.map(num),
    }
}

#[test]
fn chooses_most_specific_matching_rule() {
    let rules = vec![
        rule("/Volumes/SSD", "/Volumes/HDD", 14, None),
        rule("/Volumes/SSD/Movies", "/Volumes/HDD/Movies", 7, None),
    ];

    let matched =
        match_rule(&rules, "/Volumes/SSD/Movies/4K").expect("expected a matching rule");

    assert_eq!(matched.source_path, "/Volumes/SSD/Movies");
}

#[test]
fn remaps_path_while_preserving_relative_structure() {
    let rule = rule("/Volumes/SSD", "/Volumes/HDD", 14, None);
    let destination =
        remap_save_path("/Volumes/SSD/TV/Show", &rule).expect("expected a remapped path");

    assert_eq!(destination, "/Volumes/HDD/TV/Show");
}

#[test]
fn remaps_root_rule_path_without_extra_segments() {
    let rule = rule("/Volumes/SSD/Movies", "/Volumes/HDD/Movies", 14, None);
    let destination =
        remap_save_path("/Volumes/SSD/Movies", &rule).expect("expected a remapped path");

    assert_eq!(destination, "/Volumes/HDD/Movies");
}

#[test]
fn normalize_path_removes_trailing_and_current_dir_segments() {
    let normalized = normalize_path("/Volumes/SSD/Movies/./");
    assert_eq!(normalized, "/Volumes/SSD/Movies");
}

#[test]
fn does_not_match_paths_that_only_share_a_string_prefix() {
    let rules = vec![rule("/Volumes/SSD", "/Volumes/HDD", 14, None)];

    let matched = match_rule(&rules, "/Volumes/SSD2/Movies");
    assert!(matched.is_none());
}

#[test]
fn normal_paths_resolve_parents_and_stay_as_they_are() {
    for (path, normal) in [
        ("", "/"),
        (".", "/"),
        ("..", "/"),
        ("/", "/"),
        ("//a//b/", "/a/b"),
        ("/a/../b", "/b"),
        ("/../a", "/a"),
        ("a/./b", "a/b"),
        ("a/..", "/"),
        ("../a", "a"),
        ("./a", "a"),
        ("/a/b/../../c/.", "/c"),
    ] {
        assert_eq!(normalize_path(path), normal, "{path}");
        assert_eq!(normalize_path(&normalize_path(path)), normal, "{path}");
    }
}

#[test]
fn paths_compare_by_components() {
    assert!(same_path("/a//b/", "/a/b"));
    assert!(same_path("/a/./b", "/a/b"));
    assert!(!same_path("/a/b", "a/b"));
    assert!(begins_with("/a/b/c", "/a/b"));
    assert!(begins_with("/a/b", "/a/b"));
    assert!(!begins_with("/a/bc", "/a/b"));
    assert!(!begins_with("/a", "/a/b"));
    assert!(absolute("/a"));
    assert!(!absolute("a"));
}

#[test]
fn rule_does_not_lead_paths_outside_its_source() {
    let rule = rule("/Volumes/SSD", "/Volumes/HDD", 14, None);
    assert!(remap_save_path("/Volumes/Other", &rule).is_none());
}

#[test]
fn last_of_equally_specific_rules_applies() {
    let mut first = rule("/a", "/b", 1, None);
    first.index = 0;
    let mut second = rule("/a", "/c", 2, None);
    second.index = 1;
    let rules = vec![first, second];
    assert_eq!(match_rule(&rules, "/a/x").map(|rule| rule.index), Some(1));
}

#[test]
fn compiled_rules_are_in_normal_form() {
    let rules = match compile_rules(vec![
        raw("/a/./b/", "/c/../d", Some(12.5)),
        raw("/a", "/e", None),
    ]) {
        Ok(rules) => rules,
        Err(_) => panic!("rules compile"),
    };
    assert_eq!(rules.len(), 2);
    assert_eq!(rules[0].source_path, "/a/b");
    assert_eq!(rules[0].target_path, "/d");
    assert_eq!(rules[0].specificity, 3);
    assert_eq!(rules[0].min_days_since_completion, 7);
    assert_eq!(
        rules[0].min_free_space_percent.map(|percent| f64::from_bits(percent.bits)),
        Some(12.5)
    );
    assert_eq!(rules[1].index, 1);
    assert_eq!(rules[1].specificity, 2);
}

fn fault(raw_rules: Vec<RuleConfig>) -> RuleError {
    match compile_rules(raw_rules) {
        Ok(_) => panic!("rules are turned down"),
        Err(error) => error,
    }
}

#[test]
fn faulty_rules_are_turned_down() {
    let error = fault(vec![raw("a", "/b", None)]);
    assert_eq!(error.fault, RuleFault::SourceNotAbsolute);
    assert_eq!(error.path, "a");
    let error = fault(vec![raw("/a", "b/.", None)]);
    assert_eq!(error.fault, RuleFault::TargetNotAbsolute);
    assert_eq!(error.path, "b");
    let error = fault(vec![raw("/a", "/a/", None)]);
    assert_eq!(error.fault, RuleFault::SameSourceAndTarget);
    let error = fault(vec![raw("/a", "/b", None), raw("/a/.", "/c", None)]);
    assert_eq!(error.fault, RuleFault::DuplicateSource);
    assert_eq!(error.index, 1);
    for percent in [0.0, -1.0, 100.0, f64::NAN, f64::INFINITY] {
        let error = fault(vec![raw("/a", "/b", Some(percent))]);
        assert_eq!(error.fault, RuleFault::PercentOutOfRange);
    }
}

/// All texts of up to six characters out of three.
fn paths() -> Vec<String> {
    let mut all = vec![String::new()];
    let mut last = all.clone();
    for _ in 0..6 {
        let mut longer = Vec::new();
        for text in &last {
            for ch in ['/', '.', 'a'] {
                longer.push(format!("{text}{ch}"));
            }
        }
        all.extend(longer.iter().cloned());
        last = longer;
    }
    all
}

fn resolved(path: &Path) -> PathBuf {
    let mut normalized = PathBuf::new();
    for component in path.components() {
        match component {
            Component::CurDir => {}
            Component::ParentDir => {
                normalized.pop();
            }
            _ => normalized.push(component.as_os_str()),
        }
    }
    if normalized.as_os_str().is_empty() {
        PathBuf::from("/")
    } else {
        normalized
    }
}

#[test]
fn paths_have_the_components_of_the_platform() {
    for text in paths() {
        let path = Path::new(&text);
        let parts: Vec<String> = path
            .components()
            .map(|component| component.as_os_str().to_string_lossy().into_owned())
            .collect();
        assert_eq!(split_path(&text), parts, "{text}");
        assert_eq!(absolute(&text), path.is_absolute(), "{text}");
        assert_eq!(normalize_path(&text), resolved(path).to_string_lossy(), "{text}");
    }
}

#[test]
fn paths_compare_like_those_of_the_platform() {
    let few: Vec<String> = paths().into_iter().filter(|text| text.len() <= 4).collect();
    for left in &few {
        for right in &few {
            let (a, b) = (Path::new(left), Path::new(right));
            assert_eq!(same_path(left, right), a == b, "{left} {right}");
            assert_eq!(begins_with(left, right), a.starts_with(b), "{left} {right}");
        }
    }
}

#[test]
fn rules_lead_like_joined_paths() {
    let sources = ["/", "/a", "/a/a"];
    for source in sources {
        for target in ["/", "/b", "/b/c"] {
            let rule = rule(source, target, 1, None);
            for text in paths() {
                let save_path = normalize_path(&text);
                let expected = Path::new(&save_path)
                    .strip_prefix(source)
                    .ok()
                    .map(|rest| resolved(&Path::new(target).join(rest)));
                let led = remap_save_path(&save_path, &rule);
                assert_eq!(led.map(PathBuf::from), expected, "{save_path} {source} {target}");
            }
        }
    }
}
