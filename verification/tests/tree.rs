use pr_tracker::branches::{branch_hydra_links, branch_nexts, rule, RuleTable};
use pr_tracker::name_set::NameSet;
use pr_tracker::rules::Rule;
use pr_tracker::tree::{Acceptance, AncestryReport, Progress, PullRequestStatus, Tree};

fn strings(items: &[&str]) -> Vec<String> {
    items.iter().map(|s| s.to_string()).collect()
}

fn table(rules: &[(&str, &str)]) -> RuleTable {
    let rules: Vec<Rule> = rules.iter().map(|(p, t)| rule(p, t)).collect();
    RuleTable::new(&rules).unwrap()
}

fn merged(commit: Option<&str>) -> PullRequestStatus {
    PullRequestStatus::Merged { merge_commit_oid: commit.map(|c| c.to_string()) }
}

fn report(containing: &[&str], complete: bool) -> AncestryReport {
    AncestryReport { containing: strings(containing), complete }
}

fn make(base: &str, status: &PullRequestStatus, report: &AncestryReport) -> Tree {
    let nexts = branch_nexts().unwrap();
    let links = branch_hydra_links().unwrap();
    Tree::make_within(&nexts, &links, base.to_string(), status, report, 16).unwrap()
}

/// Every node of the tree, parents before children, as name and mark.
fn marks(tree: &Tree, out: &mut Vec<(String, Acceptance)>) {
    out.push((tree.branch_name().clone(), tree.accepted()));
    for child in tree.children() {
        marks(child, out);
    }
}

fn all_marks(tree: &Tree) -> Vec<(String, Acceptance)> {
    let mut out = Vec::new();
    marks(tree, &mut out);
    out
}

fn with_marks(names: &[(&str, Acceptance)]) -> Vec<(String, Acceptance)> {
    names.iter().map(|(n, a)| (n.to_string(), *a)).collect()
}

#[test]
fn tree_of_master() {
    let tree = make("master", &PullRequestStatus::Open, &report(&[], true));
    assert_eq!(tree.branch_name(), "master");
    assert_eq!(
        tree.hydra_link().as_deref(),
        Some("https://hydra.nixos.org/jobset/nixpkgs/trunk#tabs-jobs")
    );
    let children = tree.children();
    assert_eq!(children.len(), 2);
    assert_eq!(children[0].branch_name(), "nixpkgs-unstable");
    assert_eq!(
        children[0].hydra_link().as_deref(),
        Some("https://hydra.nixos.org/job/nixpkgs/trunk/unstable#tabs-constituents")
    );
    assert!(children[0].children().is_empty());
    assert_eq!(children[1].branch_name(), "nixos-unstable-small");
    assert_eq!(children[1].children().len(), 1);
    assert_eq!(children[1].children()[0].branch_name(), "nixos-unstable");
    assert_eq!(
        children[1].children()[0].hydra_link().as_deref(),
        Some("https://hydra.nixos.org/job/nixos/trunk-combined/tested#tabs-constituents")
    );
    assert!(children[1].children()[0].children().is_empty());
}

#[test]
fn tree_of_staging_18_03() {
    let tree = make("staging-18.03", &PullRequestStatus::Open, &report(&[], true));
    assert_eq!(tree.hydra_link(), &None);
    assert_eq!(tree.children().len(), 1);
    let release = &tree.children()[0];
    assert_eq!(release.branch_name(), "release-18.03");
    let names: Vec<&str> = release.children().iter().map(|c| c.branch_name().as_str()).collect();
    assert_eq!(names, vec!["nixpkgs-18.03-darwin", "nixos-18.03-small"]);
    assert_eq!(release.children()[1].children()[0].branch_name(), "nixos-18.03");
}

#[test]
fn tree_of_release_20_09() {
    let tree = make("release-20.09", &PullRequestStatus::Closed, &report(&[], true));
    let names: Vec<&str> = tree.children().iter().map(|c| c.branch_name().as_str()).collect();
    assert_eq!(names, vec!["nixpkgs-20.09-darwin", "nixos-20.09-small"]);
}

#[test]
fn same_branch_grows_the_same_tree_twice() {
    let status = merged(Some("abc"));
    let answer = report(&["nixos-unstable"], true);
    let one = make("staging", &status, &answer);
    let two = make("staging", &status, &answer);
    assert_eq!(format!("{:?}", one), format!("{:?}", two));
    assert_eq!(all_marks(&one).len(), 6);
}

#[test]
fn a_name_reached_twice_stands_twice() {
    let nexts = table(&[(r"\Aroot\z", "left"), (r"\Aroot\z", "right"), (r"\A(left|right)\z", "leaf")]);
    let links = table(&[]);
    let status = merged(Some("c"));
    let tree = Tree::make_within(&nexts, &links, "root".to_string(), &status, &report(&["leaf"], true), 8)
        .unwrap();
    assert_eq!(
        all_marks(&tree),
        with_marks(&[
            ("root", Acceptance::True),
            ("left", Acceptance::False),
            ("leaf", Acceptance::True),
            ("right", Acceptance::False),
            ("leaf", Acceptance::True),
        ])
    );
}

#[test]
fn open_and_closed_mark_every_branch_false() {
    for status in [PullRequestStatus::Open, PullRequestStatus::Closed] {
        let tree = make("master", &status, &report(&["master", "nixos-unstable"], true));
        assert_eq!(
            all_marks(&tree),
            with_marks(&[
                ("master", Acceptance::False),
                ("nixpkgs-unstable", Acceptance::False),
                ("nixos-unstable-small", Acceptance::False),
                ("nixos-unstable", Acceptance::False),
            ])
        );
    }
}

#[test]
fn merged_without_commit_marks_every_branch_unknown() {
    let tree = make("master", &merged(None), &report(&["master", "nixos-unstable"], true));
    assert_eq!(
        all_marks(&tree),
        with_marks(&[
            ("master", Acceptance::Unknown),
            ("nixpkgs-unstable", Acceptance::Unknown),
            ("nixos-unstable-small", Acceptance::Unknown),
            ("nixos-unstable", Acceptance::Unknown),
        ])
    );
}

#[test]
fn merged_with_commit_marks_reported_branches_and_base() {
    let answer = report(&["nixos-unstable-small", "elsewhere"], true);
    let tree = make("master", &merged(Some("abc")), &answer);
    assert_eq!(
        all_marks(&tree),
        with_marks(&[
            ("master", Acceptance::True),
            ("nixpkgs-unstable", Acceptance::False),
            ("nixos-unstable-small", Acceptance::True),
            ("nixos-unstable", Acceptance::False),
        ])
    );
}

#[test]
fn a_failed_answer_leaves_missing_branches_unknown() {
    let answer = report(&["nixpkgs-unstable"], false);
    let tree = make("master", &merged(Some("abc")), &answer);
    assert_eq!(
        all_marks(&tree),
        with_marks(&[
            ("master", Acceptance::True),
            ("nixpkgs-unstable", Acceptance::True),
            ("nixos-unstable-small", Acceptance::Unknown),
            ("nixos-unstable", Acceptance::Unknown),
        ])
    );
}

#[test]
fn make_within_gives_nothing_past_the_depth() {
    let nexts = branch_nexts().unwrap();
    let links = branch_hydra_links().unwrap();
    let status = PullRequestStatus::Open;
    let answer = report(&[], true);
    assert!(Tree::make_within(&nexts, &links, "master".to_string(), &status, &answer, 2).is_none());
    assert!(Tree::make_within(&nexts, &links, "master".to_string(), &status, &answer, 3).is_some());
    let circle = table(&[(r"\Aa\z", "b"), (r"\Ab\z", "a")]);
    assert!(Tree::make_within(&circle, &links, "a".to_string(), &status, &answer, 50).is_none());
}

#[test]
fn start_asks_only_for_a_known_merge_commit() {
    let nexts = branch_nexts().unwrap();
    let links = branch_hydra_links().unwrap();
    assert!(nexts.settles_within("master", 16));
    match Tree::start(&nexts, &links, "master".to_string(), &PullRequestStatus::Open) {
        Progress::Done(tree) => assert_eq!(tree.accepted(), Acceptance::False),
        Progress::Asking(_) => panic!("nothing to ask for an open change"),
    }
    match Tree::start(&nexts, &links, "master".to_string(), &merged(None)) {
        Progress::Done(tree) => assert_eq!(tree.accepted(), Acceptance::Unknown),
        Progress::Asking(_) => panic!("nothing to ask without a commit"),
    }
    match Tree::start(&nexts, &links, "master".to_string(), &merged(Some("abc123"))) {
        Progress::Done(_) => panic!("the repository must be asked"),
        Progress::Asking(inquiry) => {
            assert_eq!(inquiry.commit, "abc123");
            assert_eq!(inquiry.base_branch, "master");
            let expected =
                strings(&["master", "nixos-unstable", "nixos-unstable-small", "nixpkgs-unstable"]);
            assert_eq!(inquiry.candidates.names(), &expected);
            assert_eq!(inquiry.found.names(), &expected);
            assert_eq!(inquiry.tree.accepted(), Acceptance::Unknown);
            let tree = inquiry.finish(&report(&["nixos-unstable"], true));
            assert_eq!(
                all_marks(&tree),
                with_marks(&[
                    ("master", Acceptance::True),
                    ("nixpkgs-unstable", Acceptance::False),
                    ("nixos-unstable-small", Acceptance::False),
                    ("nixos-unstable", Acceptance::True),
                ])
            );
        }
    }
}

#[test]
fn generate_collects_the_names_it_meets() {
    let nexts = branch_nexts().unwrap();
    let links = branch_hydra_links().unwrap();
    assert!(nexts.settles_within("staging-next", 16));
    let mut found = NameSet::new();
    found.insert("already-there".to_string());
    let tree = Tree::generate(&nexts, &links, "staging-next".to_string(), &mut found);
    assert_eq!(
        found.names(),
        &strings(&[
            "already-there",
            "master",
            "nixos-unstable",
            "nixos-unstable-small",
            "nixpkgs-unstable",
            "staging-next",
        ])
    );
    assert_eq!(tree.children().len(), 1);
    assert!(all_marks(&tree).iter().all(|(_, mark)| *mark == Acceptance::Unknown));
    let mut all = NameSet::new();
    tree.all_branches(&mut all);
    assert_eq!(
        all.names(),
        &strings(&["master", "nixos-unstable", "nixos-unstable-small", "nixpkgs-unstable", "staging-next"])
    );
}

#[test]
fn fill_accepted_marks_by_name() {
    let leaf = |name: &str| Tree::new(name.to_string(), Acceptance::Unknown, None, Vec::new());
    let build = || {
        let b = Tree::new("b".to_string(), Acceptance::True, None, vec![leaf("c"), leaf("a")]);
        Tree::new("a".to_string(), Acceptance::False, Some("link".to_string()), vec![b, leaf("d")])
    };
    let accepted = NameSet::from_names(&strings(&["a", "d", "q"]));

    let mut tree = build();
    tree.fill_accepted(&accepted, true);
    assert_eq!(
        all_marks(&tree),
        with_marks(&[
            ("a", Acceptance::True),
            ("b", Acceptance::False),
            ("c", Acceptance::False),
            ("a", Acceptance::True),
            ("d", Acceptance::True),
        ])
    );
    assert_eq!(tree.hydra_link().as_deref(), Some("link"));

    let mut tree = build();
    tree.fill_accepted(&accepted, false);
    assert_eq!(
        all_marks(&tree),
        with_marks(&[
            ("a", Acceptance::True),
            ("b", Acceptance::Unknown),
            ("c", Acceptance::Unknown),
            ("a", Acceptance::True),
            ("d", Acceptance::True),
        ])
    );
}

#[test]
fn all_branches_adds_each_name_once() {
    let leaf = |name: &str| Tree::new(name.to_string(), Acceptance::Unknown, None, Vec::new());
    let tree = Tree::new("x".to_string(), Acceptance::Unknown, None, vec![leaf("y"), leaf("x"), leaf("y")]);
    let mut out = NameSet::from_names(&strings(&["w"]));
    tree.all_branches(&mut out);
    assert_eq!(out.names(), &strings(&["w", "x", "y"]));
}
