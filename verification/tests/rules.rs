use pr_tracker::branches::{
    branch_hydra_link, branch_hydra_links, branch_nexts, compile_patterns, hydra_link_rules,
    job_rule, jobset_rule, next_branch_rules, next_branches, rule, RuleError, RuleTable,
};
use pr_tracker::rules::{group, Rule};

fn strings(items: &[&str]) -> Vec<String> {
    items.iter().map(|s| s.to_string()).collect()
}

fn table(rules: &[(&str, &str)]) -> RuleTable {
    let rules: Vec<Rule> = rules.iter().map(|(p, t)| rule(p, t)).collect();
    RuleTable::new(&rules).unwrap()
}

#[test]
fn rule_keeps_pattern_and_template() {
    let r = rule(r"\Aa\z", "b-$1");
    assert_eq!(r.pattern, r"\Aa\z");
    assert_eq!(r.template, "b-$1");
}

#[test]
fn jobset_rule_makes_the_jobs_page() {
    let r = jobset_rule(r"\Amaster\z", "nixpkgs/trunk");
    assert_eq!(r.pattern, r"\Amaster\z");
    assert_eq!(r.template, "https://hydra.nixos.org/jobset/nixpkgs/trunk#tabs-jobs");
}

#[test]
fn job_rule_makes_the_constituents_page() {
    let r = job_rule(r"\Anixos-unstable\z", "nixos/trunk-combined/tested");
    assert_eq!(
        r.template,
        "https://hydra.nixos.org/job/nixos/trunk-combined/tested#tabs-constituents"
    );
}

#[test]
fn declared_rules_are_complete() {
    let nexts = next_branch_rules();
    assert_eq!(nexts.len(), 12);
    assert_eq!(nexts[0].pattern, r"\Apython-updates\z");
    assert_eq!(nexts[0].template, "staging");
    assert_eq!(nexts[11].pattern, r"\Astaging-((2[1-9]|[3-90].)\.\d{2})\z");
    assert_eq!(nexts[11].template, "staging-next-$1");
    let links = hydra_link_rules();
    assert_eq!(links.len(), 9);
    assert_eq!(
        links[2].template,
        "https://hydra.nixos.org/jobset/nixpkgs/staging-next-$1#tabs-jobs"
    );
    assert_eq!(links[8].pattern, r"\Anixos-(\d.*)\z");
    assert_eq!(
        links[8].template,
        "https://hydra.nixos.org/job/nixos/release-$1/tested#tabs-constituents"
    );
}

#[test]
fn group_sorts_patterns_and_gathers_templates() {
    let rules = vec![
        rule("m", "one"),
        rule("z", "two"),
        rule("a", "three"),
        rule("m", "four"),
        rule("a", "five"),
        rule("m", "six"),
    ];
    let (patterns, templates) = group(&rules);
    assert_eq!(patterns, strings(&["a", "m", "z"]));
    assert_eq!(
        templates,
        vec![strings(&["three", "five"]), strings(&["one", "four", "six"]), strings(&["two"])]
    );
}

#[test]
fn group_of_no_rules_is_empty() {
    let (patterns, templates) = group(&Vec::new());
    assert!(patterns.is_empty());
    assert!(templates.is_empty());
}

#[test]
fn group_orders_a_prefix_first() {
    let rules = vec![rule("ab", "1"), rule("a", "2"), rule("", "3"), rule("aa", "4")];
    let (patterns, _) = group(&rules);
    assert_eq!(patterns, strings(&["", "a", "aa", "ab"]));
}

#[test]
fn no_matching_rule_gives_no_branch() {
    let nexts = branch_nexts().unwrap();
    assert!(next_branches(&nexts, "no-such-branch").is_empty());
    assert!(next_branches(&nexts, "").is_empty());
    let links = branch_hydra_links().unwrap();
    assert_eq!(branch_hydra_link(&links, "no-such-branch"), None);
}

#[test]
fn a_pattern_must_match_the_whole_name() {
    let nexts = branch_nexts().unwrap();
    assert!(next_branches(&nexts, "master-2").is_empty());
    assert!(next_branches(&nexts, "my-master").is_empty());
    assert!(next_branches(&nexts, "staging-next-").is_empty());
    let links = branch_hydra_links().unwrap();
    assert_eq!(branch_hydra_link(&links, "xmaster"), None);
}

#[test]
fn one_matching_rule_gives_its_templates_in_declared_order() {
    let t = table(&[(r"\Aa-(\d+)\z", "x-$1"), (r"\Ab\z", "n"), (r"\Aa-(\d+)\z", "y-$1-$1")]);
    assert_eq!(next_branches(&t, "a-7"), strings(&["x-7", "y-7-7"]));
    assert_eq!(next_branches(&t, "b"), strings(&["n"]));
}

#[test]
fn several_matching_patterns_answer_in_pattern_order() {
    // Declared last, the pattern `\Aa.*\z` still sorts before `\Aab\z`.
    let t = table(&[
        (r"\Aab\z", "second-1"),
        (r"\A(.)b\z", "first-$1"),
        (r"\Aab\z", "second-2"),
        (r"\Aa.*\z", "middle"),
    ]);
    assert_eq!(
        next_branches(&t, "ab"),
        strings(&["first-a", "middle", "second-1", "second-2"])
    );
}

#[test]
fn the_link_is_that_of_the_first_pattern_in_text_order() {
    let t = table(&[(r"\Ab.*\z", "late"), (r"\A(b)c\z", "early-$1"), (r"\Ad\z", "other")]);
    assert_eq!(branch_hydra_link(&t, "bc"), Some("early-b".to_string()));
    assert_eq!(branch_hydra_link(&t, "bd"), Some("late".to_string()));
    assert_eq!(branch_hydra_link(&t, "d"), Some("other".to_string()));
    assert_eq!(branch_hydra_link(&t, "e"), None);
}

#[test]
fn of_two_links_for_one_pattern_the_last_declared_counts() {
    let t = table(&[(r"\Aa\z", "first"), (r"\Aa\z", "second")]);
    assert_eq!(branch_hydra_link(&t, "a"), Some("second".to_string()));
}

#[test]
fn nixos_release_channels_have_a_link() {
    let links = branch_hydra_links().unwrap();
    assert_eq!(
        branch_hydra_link(&links, "nixos-20.09-small"),
        Some("https://hydra.nixos.org/job/nixos/release-20.09-small/tested#tabs-constituents"
            .to_string())
    );
}

#[test]
fn release_feeds_its_two_channels() {
    let nexts = branch_nexts().unwrap();
    assert_eq!(
        next_branches(&nexts, "release-23.11"),
        strings(&["nixpkgs-23.11-darwin", "nixos-23.11-small"])
    );
    assert_eq!(next_branches(&nexts, "nixos-23.11-small"), strings(&["nixos-23.11"]));
}

#[test]
fn a_bad_pattern_is_named_in_the_error() {
    let rules = vec![rule(r"\Aok\z", "x"), rule(r"\A(bad\z", "y")];
    match RuleTable::new(&rules) {
        Err(RuleError::Pattern(p)) => assert_eq!(p, r"\A(bad\z"),
        other => panic!("unexpected: {:?}", other.map(|_| ())),
    }
}

#[test]
fn compile_patterns_answers_for_the_set_and_for_each_pattern() {
    let (set, each) = compile_patterns(&strings(&["a", "(", "b+"]));
    assert!(set.is_err());
    let accepted: Vec<bool> = each.iter().map(|r| r.is_ok()).collect();
    assert_eq!(accepted, vec![true, false, true]);
    let (set, each) = compile_patterns(&strings(&["a", "b+"]));
    assert!(set.is_ok());
    assert!(each.iter().all(|r| r.is_ok()));
    let (set, each) = compile_patterns(&Vec::new());
    assert!(set.is_ok());
    assert!(each.is_empty());
}

#[test]
fn a_refused_set_is_reported() {
    // Each pattern is small enough on its own; all of them together are not.
    let rules: Vec<Rule> =
        (0..8).map(|i| rule(&format!(r"\Aa{}\pL{{200}}\z", i), "x")).collect();
    match RuleTable::new(&rules) {
        Err(RuleError::PatternSet) => {}
        other => panic!("unexpected: {:?}", other.map(|_| ())),
    }
}

#[test]
fn assemble_reports_the_first_bad_pattern() {
    let patterns = strings(&["a", "b", "c"]);
    let templates = vec![strings(&["1"]), strings(&["2"]), strings(&["3"])];
    let (set, _) = compile_patterns(&patterns);
    let (_, regexes) = compile_patterns(&strings(&["a", "(", "["]));
    match RuleTable::assemble(patterns, templates, set, regexes) {
        Err(RuleError::Pattern(p)) => assert_eq!(p, "b"),
        other => panic!("unexpected: {:?}", other.map(|_| ())),
    }
}

#[test]
fn assemble_reports_a_bad_set() {
    let patterns = strings(&["a"]);
    let templates = vec![strings(&["1"])];
    let (set, _) = compile_patterns(&strings(&["("]));
    let (_, regexes) = compile_patterns(&patterns);
    match RuleTable::assemble(patterns, templates, set, regexes) {
        Err(RuleError::PatternSet) => {}
        other => panic!("unexpected: {:?}", other.map(|_| ())),
    }
}

#[test]
fn assemble_makes_a_working_table() {
    let patterns = strings(&[r"\Aa\z", r"\Ab(.)\z"]);
    let templates = vec![strings(&["1"]), strings(&["2-$1", "3"])];
    let (set, regexes) = compile_patterns(&patterns);
    let t = RuleTable::assemble(patterns, templates, set, regexes).unwrap();
    assert_eq!(next_branches(&t, "bx"), strings(&["2-x", "3"]));
    assert_eq!(branch_hydra_link(&t, "bx"), Some("3".to_string()));
    assert_eq!(next_branches(&t, "a"), strings(&["1"]));
}

#[test]
fn settles_within_counts_branches_in_a_row() {
    let nexts = branch_nexts().unwrap();
    assert!(!nexts.settles_within("nixos-unstable", 0));
    assert!(nexts.settles_within("nixos-unstable", 1));
    assert!(!nexts.settles_within("nixos-unstable-small", 1));
    assert!(nexts.settles_within("nixos-unstable-small", 2));
    assert!(!nexts.settles_within("master", 2));
    assert!(nexts.settles_within("master", 3));
    assert!(nexts.settles_within("master", 100));
    assert!(!nexts.settles_within("python-updates", 5));
    assert!(nexts.settles_within("python-updates", 6));
}

#[test]
fn a_table_that_leads_in_a_circle_never_settles() {
    let t = table(&[(r"\Aa\z", "b"), (r"\Ab\z", "a")]);
    assert!(!t.settles_within("a", 1));
    assert!(!t.settles_within("a", 20));
    assert!(t.settles_within("c", 1));
}

#[test]
fn empty_table_answers_nothing() {
    let t = RuleTable::new(&Vec::new()).unwrap();
    assert!(next_branches(&t, "master").is_empty());
    assert_eq!(branch_hydra_link(&t, "master"), None);
    assert!(t.settles_within("master", 1));
}
