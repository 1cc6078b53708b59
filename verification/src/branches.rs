//! The tables that say where a branch leads, and the two questions asked of
//! them: which branches a branch feeds into, and which link belongs to it.

use vstd::prelude::*;

use crate::matcher::{
    compile, compile_set, matching, regex_compiles, regex_is_match, regex_pattern,
    regex_set_compiles, regex_set_patterns, replace, Compiled, CompiledSet,
};
use crate::rules::{
    canonical, compiles, each_compiles, entries, expand, first_refused, group,
    lemma_entry_is_declared, lemma_expand_skips, lemma_expand_takes, lemma_first_match_skips,
    link_from, patterns, resolve_link, rule_texts, settles_within, substitutions, table_of,
    Entry, Rule, RuleText,
};
use crate::text::{ascending, texts};
use vstd::string::StringExecFns;

verus! {

/// Why a table could not be made.
#[derive(Debug)]
pub enum RuleError {
    /// The pattern with this text was refused when compiled on its own.
    Pattern(String),
    /// The patterns were refused when compiled together into one set.
    PatternSet,
}

/// A table of rules, ready for lookup: the patterns in ascending order of
/// their text, beside each the templates declared for it, and the patterns
/// once more in compiled form, as one set and one by one.
pub struct RuleTable {
    patterns: Vec<String>,
    templates: Vec<Vec<String>>,
    set: CompiledSet,
    regexes: Vec<Compiled>,
}

impl View for RuleTable {
    type V = Seq<Entry>;

    /// The entries of the table, in the order in which they are looked up.
    closed spec fn view(&self) -> Seq<Entry> {
        entries(self.patterns@, self.templates@)
    }
}

/// What must hold of the parts of a table before they are put together.
pub open spec fn compiled_from(
    patterns: Seq<String>,
    templates: Seq<Vec<String>>,
    set: Result<CompiledSet, regex::Error>,
    regexes: Seq<Result<Compiled, regex::Error>>,
) -> bool {
    &&& templates.len() == patterns.len()
    &&& regexes.len() == patterns.len()
    &&& ascending(texts(patterns))
    &&& forall|i: int| 0 <= i < templates.len() ==> (#[trigger] templates[i])@.len() > 0
    &&& set matches Ok(s) ==> regex_set_patterns(s) == texts(patterns)
    &&& forall|i: int|
        0 <= i < regexes.len() ==> ((#[trigger] regexes[i]) matches Ok(re) ==> regex_pattern(re)
            == patterns[i]@)
}

/// Compiles a list of patterns, all together as one set and each on its own.
pub fn compile_patterns(patterns: &Vec<String>) -> (r: (
    Result<CompiledSet, regex::Error>,
    Vec<Result<Compiled, regex::Error>>,
))
    ensures
        r.0 is Ok <==> regex_set_compiles(texts(patterns@)),
        r.0 matches Ok(set) ==> regex_set_patterns(set) == texts(patterns@),
        r.1@.len() == patterns@.len(),
        forall|i: int|
            0 <= i < patterns@.len() ==> ((#[trigger] r.1@[i]) is Ok) == regex_compiles(
                texts(patterns@)[i],
            ),
        forall|i: int|
            0 <= i < patterns@.len() ==> ((#[trigger] r.1@[i]) matches Ok(re) ==> regex_pattern(re)
                == patterns@[i]@),
{
    let set = compile_set(patterns);
    let mut regexes: Vec<Result<Compiled, regex::Error>> = Vec::new();
    let mut i: usize = 0;
    while i < patterns.len()
        invariant
            i <= patterns@.len(),
            regexes@.len() == i,
            forall|j: int|
                0 <= j < i ==> ((#[trigger] regexes@[j]) is Ok) == regex_compiles(
                    texts(patterns@)[j],
                ),
            forall|j: int|
                0 <= j < i ==> ((#[trigger] regexes@[j]) matches Ok(re) ==> regex_pattern(re)
                    == patterns@[j]@),
        decreases patterns@.len() - i,
    {
        assert(texts(patterns@)[i as int] == patterns@[i as int]@);
        regexes.push(compile(patterns[i].as_str()));
        i = i + 1;
    }
    (set, regexes)
}

impl RuleTable {
    /// The entries ascend by pattern, none is without a template, and the
    /// compiled forms were made from the patterns of the entries.
    pub closed spec fn wf(&self) -> bool {
        &&& self.templates@.len() == self.patterns@.len()
        &&& self.regexes@.len() == self.patterns@.len()
        &&& ascending(texts(self.patterns@))
        &&& forall|i: int|
            0 <= i < self.templates@.len() ==> (#[trigger] self.templates@[i])@.len() > 0
        &&& regex_set_patterns(self.set) == texts(self.patterns@)
        &&& forall|i: int|
            0 <= i < self.regexes@.len() ==> regex_pattern(#[trigger] self.regexes@[i])
                == self.patterns@[i]@
    }

    /// What a well-formed table promises of its entries.
    pub proof fn lemma_wf(&self)
        requires
            self.wf(),
        ensures
            ascending(patterns(self@)),
            forall|i: int| 0 <= i < self@.len() ==> (#[trigger] self@[i]).templates.len() > 0,
    {
        assert(patterns(self@) =~= texts(self.patterns@));
    }

    /// Makes the table of `rules`. Rules of one pattern are gathered into one
    /// entry, and the entries are put in ascending order of their pattern.
    /// There is a table exactly if `regex` accepts every pattern on its own
    /// and all of them together; if not, the error names the first pattern
    /// that is refused, or says that it is the set.
    ///
    /// A pattern is taken as it is written. One that should count only where
    /// it matches a whole name has to say so itself, with `\A` at its
    /// beginning and `\z` at its end.
    pub fn new(rules: &Vec<Rule>) -> (r: Result<RuleTable, RuleError>)
        ensures
            r is Ok <==> compiles(table_of(rule_texts(rules@))),
            r matches Ok(table) ==> table.wf() && table@ == table_of(rule_texts(rules@)),
            r matches Err(RuleError::Pattern(p)) ==> exists|i: int|
                first_refused(table_of(rule_texts(rules@)), i) && (#[trigger] table_of(
                    rule_texts(rules@),
                )[i]).pattern == p@,
            r matches Err(RuleError::PatternSet) ==> each_compiles(table_of(rule_texts(rules@)))
                && !regex_set_compiles(patterns(table_of(rule_texts(rules@)))),
    {
        let (pats, tmpls) = group(rules);
        let (set, regexes) = compile_patterns(&pats);
        let ghost table = entries(pats@, tmpls@);
        let ghost given = regexes@;
        proof {
            assert(patterns(table) =~= texts(pats@));
            assert forall|i: int| 0 <= i < tmpls@.len() implies (#[trigger] tmpls@[i])@.len()
                > 0 by {
                assert(table[i].templates.len() > 0);
            }
            assert forall|i: int| 0 <= i < table.len() implies ((#[trigger] given[i]) is Ok)
                == regex_compiles(table[i].pattern) by {
                assert(table[i].pattern == texts(pats@)[i]);
            }
        }
        let r = RuleTable::assemble(pats, tmpls, set, regexes);
        proof {
            match &r {
                Ok(_) => {
                    assert forall|i: int| 0 <= i < table.len() implies regex_compiles(
                        (#[trigger] table[i]).pattern,
                    ) by {
                        assert(given[i] is Ok);
                    }
                },
                Err(RuleError::Pattern(p)) => {
                    let i = choose|i: int|
                        {
                            &&& 0 <= i < given.len()
                            &&& (#[trigger] given[i]) is Err
                            &&& p@ == table[i].pattern
                            &&& forall|j: int| 0 <= j < i ==> (#[trigger] given[j]) is Ok
                        };
                    assert forall|j: int| 0 <= j < i implies regex_compiles(
                        (#[trigger] table[j]).pattern,
                    ) by {
                        assert(given[j] is Ok);
                    }
                    assert(first_refused(table, i));
                },
                Err(RuleError::PatternSet) => {
                    assert forall|i: int| 0 <= i < table.len() implies regex_compiles(
                        (#[trigger] table[i]).pattern,
                    ) by {
                        assert(given[i] is Ok);
                    }
                },
            }
        }
        r
    }

    /// Puts a table together from its entries and from what compiling their
    /// patterns gave. The patterns are looked at first, in order, then the
    /// set.
    pub fn assemble(
        patterns: Vec<String>,
        templates: Vec<Vec<String>>,
        set: Result<CompiledSet, regex::Error>,
        regexes: Vec<Result<Compiled, regex::Error>>,
    ) -> (r: Result<RuleTable, RuleError>)
        requires
            compiled_from(patterns@, templates@, set, regexes@),
        ensures
            match r {
                Ok(table) => {
                    &&& set is Ok
                    &&& forall|i: int| 0 <= i < regexes@.len() ==> (#[trigger] regexes@[i]) is Ok
                    &&& table.wf()
                    &&& table@ == entries(patterns@, templates@)
                },
                Err(RuleError::Pattern(p)) => exists|i: int|
                    {
                        &&& 0 <= i < regexes@.len()
                        &&& (#[trigger] regexes@[i]) is Err
                        &&& p@ == patterns@[i]@
                        &&& forall|j: int| 0 <= j < i ==> (#[trigger] regexes@[j]) is Ok
                    },
                Err(RuleError::PatternSet) => {
                    &&& set is Err
                    &&& forall|i: int| 0 <= i < regexes@.len() ==> (#[trigger] regexes@[i]) is Ok
                },
            },
    {
        let ghost given = regexes@;
        let mut rest = regexes;
        let mut compiled: Vec<Compiled> = Vec::new();
        let mut i: usize = 0;
        while i < patterns.len()
            invariant
                i <= patterns@.len(),
                given.len() == patterns@.len(),
                given == regexes@,
                compiled@.len() == i,
                rest@ == given.skip(i as int),
                forall|j: int| 0 <= j < i ==> (#[trigger] given[j]) is Ok,
                forall|j: int|
                    0 <= j < given.len() ==> ((#[trigger] given[j]) matches Ok(re)
                        ==> regex_pattern(re) == patterns@[j]@),
                forall|j: int|
                    0 <= j < i ==> regex_pattern(#[trigger] compiled@[j]) == patterns@[j]@,
            decreases patterns@.len() - i,
        {
            let first = rest.remove(0);
            assert(first == given[i as int]);
            assert(rest@ =~= given.skip(i + 1));
            match first {
                Ok(re) => {
                    compiled.push(re);
                },
                Err(_) => {
                    return Err(RuleError::Pattern(patterns[i].clone()));
                },
            }
            i = i + 1;
        }
        match set {
            Ok(whole) => Ok(RuleTable { patterns, templates, set: whole, regexes: compiled }),
            Err(_) => Err(RuleError::PatternSet),
        }
    }

    /// Whether following the table from `branch` ends after at most `depth`
    /// branches in a row, `branch` itself counted.
    pub fn settles_within(&self, branch: &str, depth: usize) -> (b: bool)
        requires
            self.wf(),
        ensures
            b == settles_within(self@, branch@, depth as nat),
        decreases depth,
    {
        if depth == 0 {
            return false;
        }
        let next = next_branches(self, branch);
        let mut i: usize = 0;
        while i < next.len()
            invariant
                self.wf(),
                depth > 0,
                texts(next@) == expand(self@, branch@),
                i <= next@.len(),
                forall|j: int|
                    0 <= j < i ==> settles_within(
                        self@,
                        #[trigger] expand(self@, branch@)[j],
                        (depth - 1) as nat,
                    ),
            decreases next@.len() - i,
        {
            assert(texts(next@)[i as int] == next@[i as int]@);
            if !self.settles_within(next[i].as_str(), depth - 1) {
                return false;
            }
            i = i + 1;
        }
        true
    }
}

/// The rule that a branch matching `pattern` leads to what `template` names.
pub fn rule(pattern: &str, template: &str) -> (r: Rule)
    ensures
        r@.pattern == pattern@,
        r@.template == template@,
{
    Rule { pattern: pattern.to_owned(), template: template.to_owned() }
}

/// The rules that say which branches a branch feeds into, as declared.
pub open spec fn declared_next_branches() -> Seq<RuleText> {
    seq![
        RuleText { pattern: r"\Apython-updates\z"@, template: "staging"@ },
        RuleText { pattern: r"\Astaging\z"@, template: "staging-next"@ },
        RuleText { pattern: r"\Astaging-next\z"@, template: "master"@ },
        RuleText { pattern: r"\Astaging-next-([\d.]+)\z"@, template: "release-$1"@ },
        RuleText { pattern: r"\Ahaskell-updates\z"@, template: "master"@ },
        RuleText { pattern: r"\Amaster\z"@, template: "nixpkgs-unstable"@ },
        RuleText { pattern: r"\Amaster\z"@, template: "nixos-unstable-small"@ },
        RuleText { pattern: r"\Anixos-(.*)-small\z"@, template: "nixos-$1"@ },
        RuleText { pattern: r"\Arelease-([\d.]+)\z"@, template: "nixpkgs-$1-darwin"@ },
        RuleText { pattern: r"\Arelease-([\d.]+)\z"@, template: "nixos-$1-small"@ },
        RuleText { pattern: r"\Astaging-((1.|20)\.\d{2})\z"@, template: "release-$1"@ },
        RuleText {
            pattern: r"\Astaging-((2[1-9]|[3-90].)\.\d{2})\z"@,
            template: "staging-next-$1"@,
        },
    ]
}

/// The rules that say which branches a branch feeds into. Two rules of one
/// pattern name two branches that the same branch feeds into.
pub fn next_branch_rules() -> (rules: Vec<Rule>)
    ensures
        rule_texts(rules@) == declared_next_branches(),
{
    let mut rules: Vec<Rule> = Vec::new();
    rules.push(rule(r"\Apython-updates\z", "staging"));
    rules.push(rule(r"\Astaging\z", "staging-next"));
    rules.push(rule(r"\Astaging-next\z", "master"));
    rules.push(rule(r"\Astaging-next-([\d.]+)\z", "release-$1"));
    rules.push(rule(r"\Ahaskell-updates\z", "master"));
    rules.push(rule(r"\Amaster\z", "nixpkgs-unstable"));
    rules.push(rule(r"\Amaster\z", "nixos-unstable-small"));
    rules.push(rule(r"\Anixos-(.*)-small\z", "nixos-$1"));
    rules.push(rule(r"\Arelease-([\d.]+)\z", "nixpkgs-$1-darwin"));
    rules.push(rule(r"\Arelease-([\d.]+)\z", "nixos-$1-small"));
    rules.push(rule(r"\Astaging-((1.|20)\.\d{2})\z", "release-$1"));
    rules.push(rule(r"\Astaging-((2[1-9]|[3-90].)\.\d{2})\z", "staging-next-$1"));
    assert(rule_texts(rules@) =~= declared_next_branches());
    rules
}

/// The address of the page on which Hydra shows the jobs of a jobset.
pub open spec fn jobset_link(jobset: Seq<char>) -> Seq<char> {
    "https://hydra.nixos.org/jobset/"@ + jobset + "#tabs-jobs"@
}

/// The address of the page on which Hydra shows what a job is made of.
pub open spec fn job_link(job: Seq<char>) -> Seq<char> {
    "https://hydra.nixos.org/job/"@ + job + "#tabs-constituents"@
}

/// The rules that say which link belongs to a branch, as declared: first
/// those of the development branches, by jobset, then those of the channels,
/// by job.
pub open spec fn declared_hydra_links() -> Seq<RuleText> {
    seq![
        RuleText {
            pattern: r"\Apython-updates\z"@,
            template: jobset_link("nixpkgs/python-updates"@),
        },
        RuleText { pattern: r"\Astaging-next\z"@, template: jobset_link("nixpkgs/staging-next"@) },
        RuleText {
            pattern: r"\Astaging-next-([013-9]\d\.\d{2}|2(1\.05|[2-90]\.\d{2}))\z"@,
            template: jobset_link("nixpkgs/staging-next-$1"@),
        },
        RuleText {
            pattern: r"\Ahaskell-updates\z"@,
            template: jobset_link("nixpkgs/haskell-updates"@),
        },
        RuleText { pattern: r"\Amaster\z"@, template: jobset_link("nixpkgs/trunk"@) },
        RuleText {
            pattern: r"\Anixpkgs-unstable\z"@,
            template: job_link("nixpkgs/trunk/unstable"@),
        },
        RuleText {
            pattern: r"\Anixos-unstable-small\z"@,
            template: job_link("nixos/unstable-small/tested"@),
        },
        RuleText {
            pattern: r"\Anixos-unstable\z"@,
            template: job_link("nixos/trunk-combined/tested"@),
        },
        RuleText { pattern: r"\Anixos-(\d.*)\z"@, template: job_link("nixos/release-$1/tested"@) },
    ]
}

/// The rule that a branch matching `pattern` has the page of `jobset` as its
/// link.
pub fn jobset_rule(pattern: &str, jobset: &str) -> (r: Rule)
    ensures
        r@.pattern == pattern@,
        r@.template == jobset_link(jobset@),
{
    let mut link = "https://hydra.nixos.org/jobset/".to_owned();
    link.append(jobset);
    link.append("#tabs-jobs");
    Rule { pattern: pattern.to_owned(), template: link }
}

/// The rule that a branch matching `pattern` has the page of `job` as its
/// link.
pub fn job_rule(pattern: &str, job: &str) -> (r: Rule)
    ensures
        r@.pattern == pattern@,
        r@.template == job_link(job@),
{
    let mut link = "https://hydra.nixos.org/job/".to_owned();
    link.append(job);
    link.append("#tabs-constituents");
    Rule { pattern: pattern.to_owned(), template: link }
}

/// The rules that say which link belongs to a branch.
pub fn hydra_link_rules() -> (rules: Vec<Rule>)
    ensures
        rule_texts(rules@) == declared_hydra_links(),
{
    let mut rules: Vec<Rule> = Vec::new();
    rules.push(jobset_rule(r"\Apython-updates\z", "nixpkgs/python-updates"));
    rules.push(jobset_rule(r"\Astaging-next\z", "nixpkgs/staging-next"));
    rules.push(
        jobset_rule(
            r"\Astaging-next-([013-9]\d\.\d{2}|2(1\.05|[2-90]\.\d{2}))\z",
            "nixpkgs/staging-next-$1",
        ),
    );
    rules.push(jobset_rule(r"\Ahaskell-updates\z", "nixpkgs/haskell-updates"));
    rules.push(jobset_rule(r"\Amaster\z", "nixpkgs/trunk"));
    rules.push(job_rule(r"\Anixpkgs-unstable\z", "nixpkgs/trunk/unstable"));
    rules.push(job_rule(r"\Anixos-unstable-small\z", "nixos/unstable-small/tested"));
    rules.push(job_rule(r"\Anixos-unstable\z", "nixos/trunk-combined/tested"));
    rules.push(job_rule(r"\Anixos-(\d.*)\z", "nixos/release-$1/tested"));
    assert(rule_texts(rules@) =~= declared_hydra_links());
    rules
}

/// The pattern begins with `\A` and ends with `\z`, the marks of the
/// beginning and the end of a text: where it matches, it matches a whole
/// name and not a part of one.
pub open spec fn anchored(pattern: Seq<char>) -> bool {
    &&& pattern.len() >= 4
    &&& pattern[0] == '\\'
    &&& pattern[1] == 'A'
    &&& pattern[pattern.len() - 2] == '\\'
    &&& pattern[pattern.len() - 1] == 'z'
}

/// Every declared pattern is anchored at both ends, and so is the pattern of
/// every entry of a table of the declared rules: a branch is looked up by its
/// whole name.
pub proof fn law_declared_patterns_are_anchored()
    ensures
        forall|j: int|
            0 <= j < declared_next_branches().len() ==> anchored(
                (#[trigger] declared_next_branches()[j]).pattern,
            ),
        forall|j: int|
            0 <= j < declared_hydra_links().len() ==> anchored(
                (#[trigger] declared_hydra_links()[j]).pattern,
            ),
        forall|table: Seq<Entry>, i: int|
            canonical(table, declared_next_branches()) && 0 <= i < table.len() ==> anchored(
                (#[trigger] table[i]).pattern,
            ),
        forall|table: Seq<Entry>, i: int|
            canonical(table, declared_hydra_links()) && 0 <= i < table.len() ==> anchored(
                (#[trigger] table[i]).pattern,
            ),
{
    reveal_strlit(r"\Apython-updates\z");
    reveal_strlit(r"\Astaging\z");
    reveal_strlit(r"\Astaging-next\z");
    reveal_strlit(r"\Astaging-next-([\d.]+)\z");
    reveal_strlit(r"\Ahaskell-updates\z");
    reveal_strlit(r"\Amaster\z");
    reveal_strlit(r"\Anixos-(.*)-small\z");
    reveal_strlit(r"\Arelease-([\d.]+)\z");
    reveal_strlit(r"\Astaging-((1.|20)\.\d{2})\z");
    reveal_strlit(r"\Astaging-((2[1-9]|[3-90].)\.\d{2})\z");
    reveal_strlit(r"\Astaging-next-([013-9]\d\.\d{2}|2(1\.05|[2-90]\.\d{2}))\z");
    reveal_strlit(r"\Anixpkgs-unstable\z");
    reveal_strlit(r"\Anixos-unstable-small\z");
    reveal_strlit(r"\Anixos-unstable\z");
    reveal_strlit(r"\Anixos-(\d.*)\z");
    assert forall|table: Seq<Entry>, i: int|
        canonical(table, declared_next_branches()) && 0 <= i < table.len() implies anchored(
        (#[trigger] table[i]).pattern,
    ) by {
        lemma_entry_is_declared(table, declared_next_branches(), i);
    }
    assert forall|table: Seq<Entry>, i: int|
        canonical(table, declared_hydra_links()) && 0 <= i < table.len() implies anchored(
        (#[trigger] table[i]).pattern,
    ) by {
        lemma_entry_is_declared(table, declared_hydra_links(), i);
    }
}

/// The table that says which branches a branch feeds into: the table of the
/// declared rules. There is one exactly if `regex` accepts the declared
/// patterns, each on its own and all together.
pub fn branch_nexts() -> (r: Result<RuleTable, RuleError>)
    ensures
        r is Ok <==> compiles(table_of(declared_next_branches())),
        r matches Ok(table) ==> table.wf() && table@ == table_of(declared_next_branches()),
        r matches Err(RuleError::Pattern(p)) ==> exists|i: int|
            first_refused(table_of(declared_next_branches()), i) && (#[trigger] table_of(declared_next_branches())[i]).pattern == p@,
        r matches Err(RuleError::PatternSet) ==> each_compiles(table_of(declared_next_branches()))
            && !regex_set_compiles(patterns(table_of(declared_next_branches()))),
{
    let rules = next_branch_rules();
    RuleTable::new(&rules)
}

/// The table that says which link belongs to a branch: the table of the
/// declared rules. There is one exactly if `regex` accepts the declared
/// patterns, each on its own and all together.
pub fn branch_hydra_links() -> (r: Result<RuleTable, RuleError>)
    ensures
        r is Ok <==> compiles(table_of(declared_hydra_links())),
        r matches Ok(table) ==> table.wf() && table@ == table_of(declared_hydra_links()),
        r matches Err(RuleError::Pattern(p)) ==> exists|i: int|
            first_refused(table_of(declared_hydra_links()), i) && (#[trigger] table_of(declared_hydra_links())[i]).pattern == p@,
        r matches Err(RuleError::PatternSet) ==> each_compiles(table_of(declared_hydra_links()))
            && !regex_set_compiles(patterns(table_of(declared_hydra_links()))),
{
    let rules = hydra_link_rules();
    RuleTable::new(&rules)
}

/// The entries of `all` that `hits` does not list do not match `branch`.
proof fn lemma_not_hit(
    all: Seq<Entry>,
    branch: Seq<char>,
    hits: Seq<usize>,
    below: int,
    from: int,
    to: int,
)
    requires
        all.len() <= usize::MAX,
        0 <= below <= hits.len(),
        0 <= from <= to <= all.len(),
        forall|j: int, k: int| 0 <= j < k < hits.len() ==> hits[j] < hits[k],
        forall|i: usize|
            (#[trigger] hits.contains(i)) <==> i < all.len() && regex_is_match(
                all[i as int].pattern,
                branch,
            ),
        below > 0 ==> hits[below - 1] < from,
        below < hits.len() ==> to <= hits[below],
    ensures
        forall|m: int| from <= m < to ==> !regex_is_match((#[trigger] all[m]).pattern, branch),
{
    assert forall|m: int| from <= m < to implies !regex_is_match(
        (#[trigger] all[m]).pattern,
        branch,
    ) by {
        if hits.contains(m as usize) {
            let k = choose|k: int| 0 <= k < hits.len() && hits[k] == m as usize;
            if k < below {
                if k < below - 1 {
                    assert(hits[k] < hits[below - 1]);
                }
            } else if k > below {
                assert(hits[below] < hits[k]);
            }
        }
    }
}

/// The branches that `branch` feeds into, by the rules of `table`: for every
/// entry whose pattern matches the branch's whole name, in the table's order,
/// each of its templates with the captures filled in. A branch that no
/// pattern matches feeds into none.
pub fn next_branches(table: &RuleTable, branch: &str) -> (next: Vec<String>)
    requires
        table.wf(),
    ensures
        texts(next@) == expand(table@, branch@),
{
    let hits = matching(&table.set, branch);
    let mut next: Vec<String> = Vec::new();
    let ghost all = table@;
    let ghost mut done: int = 0;
    let mut h: usize = 0;
    proof {
        assert(patterns(all) =~= texts(table.patterns@));
        assert(all.len() == table.patterns.len());
        assert(texts(next@) =~= expand(all.take(0), branch@));
    }
    while h < hits.len()
        invariant
            table.wf(),
            all == table@,
            all.len() == table.patterns@.len(),
            all.len() <= usize::MAX,
            regex_set_patterns(table.set) == patterns(all),
            h <= hits@.len(),
            0 <= done <= all.len(),
            h == 0 ==> done == 0,
            h > 0 ==> done == hits@[h - 1] + 1,
            forall|j: int, k: int| 0 <= j < k < hits@.len() ==> hits@[j] < hits@[k],
            forall|i: usize|
                (#[trigger] hits@.contains(i)) <==> i < all.len() && regex_is_match(
                    all[i as int].pattern,
                    branch@,
                ),
            texts(next@) == expand(all.take(done), branch@),
        decreases hits@.len() - h,
    {
        let i = hits[h];
        proof {
            assert(hits@.contains(i));
            if h > 0 {
                assert(hits@[h - 1] < hits@[h as int]);
            }
            lemma_not_hit(all, branch@, hits@, h as int, done, i as int);
            lemma_expand_skips(all, branch@, done, i as int);
            lemma_expand_takes(all, branch@, i as int);
        }
        let ghost base = texts(next@);
        let ghost subs = substitutions(all[i as int], branch@);
        let list = &table.templates[i];
        let mut t: usize = 0;
        while t < list.len()
            invariant
                table.wf(),
                i < table.regexes@.len(),
                i < all.len(),
                list@ == table.templates@[i as int]@,
                regex_pattern(table.regexes@[i as int]) == all[i as int].pattern,
                all[i as int].templates == texts(list@),
                subs == substitutions(all[i as int], branch@),
                t <= list@.len(),
                texts(next@) == base + subs.take(t as int),
            decreases list@.len() - t,
        {
            let ghost before = next@;
            let name = replace(&table.regexes[i], branch, list[t].as_str());
            next.push(name);
            proof {
                assert(subs.len() == list@.len());
                assert(name@ == subs[t as int]);
                assert(texts(next@) =~= texts(before).push(name@));
                assert(subs.take(t + 1) =~= subs.take(t as int).push(subs[t as int]));
                assert(texts(next@) =~= base + subs.take(t + 1));
            }
            t = t + 1;
        }
        proof {
            assert(subs.take(t as int) =~= subs);
            done = i + 1;
        }
        h = h + 1;
    }
    proof {
        lemma_not_hit(all, branch@, hits@, h as int, done, all.len() as int);
        lemma_expand_skips(all, branch@, done, all.len() as int);
        assert(all.take(all.len() as int) =~= all);
    }
    next
}

/// The link that belongs to `branch`, by the rules of `table`: what the first
/// entry whose pattern matches gives for it, or none where no pattern matches.
pub fn branch_hydra_link(table: &RuleTable, branch: &str) -> (link: Option<String>)
    requires
        table.wf(),
    ensures
        match link {
            Some(url) => resolve_link(table@, branch@) == Some(url@),
            None => resolve_link(table@, branch@) is None,
        },
{
    let hits = matching(&table.set, branch);
    let ghost all = table@;
    proof {
        assert(patterns(all) =~= texts(table.patterns@));
        assert(all.len() == table.patterns.len());
    }
    if hits.len() == 0 {
        proof {
            lemma_not_hit(all, branch@, hits@, 0, 0, all.len() as int);
            lemma_first_match_skips(all, branch@, 0, all.len() as int);
        }
        None
    } else {
        let i = hits[0];
        proof {
            assert(hits@.contains(i));
            lemma_not_hit(all, branch@, hits@, 0, 0, i as int);
            lemma_first_match_skips(all, branch@, 0, i as int);
        }
        let list = &table.templates[i];
        let last = list.len() - 1;
        let url = replace(&table.regexes[i], branch, list[last].as_str());
        proof {
            assert(all[i as int].templates.last() == list@[last as int]@);
            assert(url@ == link_from(all[i as int], branch@));
        }
        Some(url)
    }
}

} // verus!
