use pr_tracker::branches::{
    branch_hydra_link, branch_hydra_links, branch_nexts, next_branches, RuleTable,
};

fn nexts() -> RuleTable {
    branch_nexts().unwrap()
}

fn links() -> RuleTable {
    branch_hydra_links().unwrap()
}

#[test]
fn python_updates() {
    let res = next_branches(&nexts(), "python-updates");
    assert_eq!(res, vec!["staging"]);
}

#[test]
fn staging_next() {
    let branch = "staging-next";
    let res = next_branches(&nexts(), branch);
    assert_eq!(res, vec!["master"]);
    let link = branch_hydra_link(&links(), branch);
    let expected = "https://hydra.nixos.org/jobset/nixpkgs/staging-next#tabs-jobs";
    assert_eq!(link.unwrap(), expected);
}

#[test]
fn staging_18_03() {
    let branch = "staging-18.03";
    let next = next_branches(&nexts(), branch);
    assert_eq!(next, vec!["release-18.03"]);
    let link = branch_hydra_link(&links(), branch);
    assert_eq!(link, None);
}

#[test]
fn staging_20_09() {
    let res = next_branches(&nexts(), "staging-20.09");
    assert_eq!(res, vec!["release-20.09"]);
}

#[test]
fn staging_21_05() {
    let res = next_branches(&nexts(), "staging-21.05");
    assert_eq!(res, vec!["staging-next-21.05"]);
}

#[test]
fn staging_30_05() {
    let res = next_branches(&nexts(), "staging-30.05");
    assert_eq!(res, vec!["staging-next-30.05"]);
}

#[test]
fn staging_00_11() {
    let res = next_branches(&nexts(), "staging-00.11");
    assert_eq!(res, vec!["staging-next-00.11"]);
}

#[test]
fn staging_next_21_05() {
    let branch = "staging-next-21.05";
    let res = next_branches(&nexts(), branch);
    assert_eq!(res, vec!["release-21.05"]);
    let link = branch_hydra_link(&links(), branch);
    let expected = "https://hydra.nixos.org/jobset/nixpkgs/staging-next-21.05#tabs-jobs";
    assert_eq!(link.unwrap(), expected);
}

#[test]
fn staging_next_21_11() {
    let branch = "staging-next-21.11";
    let next = next_branches(&nexts(), branch);
    assert_eq!(next, vec!["release-21.11"]);
    assert!(branch_hydra_link(&links(), branch).is_none());
}

#[test]
fn staging_next_22_05() {
    let branch = "staging-next-22.05";
    let next = next_branches(&nexts(), branch);
    assert_eq!(next, vec!["release-22.05"]);
    let link = branch_hydra_link(&links(), branch);
    let expected = "https://hydra.nixos.org/jobset/nixpkgs/staging-next-22.05#tabs-jobs";
    assert_eq!(link.unwrap(), expected);
}

#[test]
fn staging_next_30_05() {
    let branch = "staging-next-30.05";
    let next = next_branches(&nexts(), branch);
    assert_eq!(next, vec!["release-30.05"]);
    let link = branch_hydra_link(&links(), branch);
    let expected = "https://hydra.nixos.org/jobset/nixpkgs/staging-next-30.05#tabs-jobs";
    assert_eq!(link.unwrap(), expected);
}

#[test]
fn haskell_updates() {
    let branch = "haskell-updates";
    let next = next_branches(&nexts(), branch);
    assert_eq!(next, vec!["master"]);
}

#[test]
fn master() {
    let branch = "master";
    let next = next_branches(&nexts(), branch);
    assert_eq!(next, vec!["nixpkgs-unstable", "nixos-unstable-small"]);
    let link = branch_hydra_link(&links(), branch);
    let expected = "https://hydra.nixos.org/jobset/nixpkgs/trunk#tabs-jobs";
    assert_eq!(link.unwrap(), expected);
}

#[test]
fn release_20_09() {
    let res = next_branches(&nexts(), "release-20.09");
    assert_eq!(res, vec!["nixpkgs-20.09-darwin", "nixos-20.09-small"]);
}

#[test]
fn nixpkgs_unstable() {
    let branch = "nixpkgs-unstable";
    let next = next_branches(&nexts(), branch);
    assert!(next.is_empty());
    let link = branch_hydra_link(&links(), branch);
    let expected = "https://hydra.nixos.org/job/nixpkgs/trunk/unstable#tabs-constituents";
    assert_eq!(link.unwrap(), expected);
}

#[test]
fn nixos_unstable_small() {
    let branch = "nixos-unstable-small";
    let next = next_branches(&nexts(), branch);
    assert_eq!(next, vec!["nixos-unstable"]);
    let link = branch_hydra_link(&links(), branch);
    let expected = "https://hydra.nixos.org/job/nixos/unstable-small/tested#tabs-constituents";
    assert_eq!(link.unwrap(), expected);
}

#[test]
fn nixos_unstable() {
    let branch = "nixos-unstable";
    let next = next_branches(&nexts(), branch);
    assert_eq!(next.len(), 0);
    let link = branch_hydra_link(&links(), branch);
    let expected = "https://hydra.nixos.org/job/nixos/trunk-combined/tested#tabs-constituents";
    assert_eq!(link.unwrap(), expected);
}
