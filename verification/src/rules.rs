//! Rules, the tables made from them, and what a table says of a branch.

use vstd::prelude::*;

use crate::matcher::{regex_compiles, regex_is_match, regex_replace, regex_set_compiles};
use crate::text::{
    ascending, find, lemma_ascending_distinct, lemma_ascending_same_set,
    lemma_insert_ascending, lemma_lex_lt_transitive, lemma_rank, lex_lt, rank, texts,
};

verus! {

/// One rule as it is declared: a branch whose whole name matches `pattern`
/// feeds into the branch that `template` names. The template may refer to
/// capture groups of the pattern.
pub struct Rule {
    pub pattern: String,
    pub template: String,
}

/// A rule as plain texts.
pub struct RuleText {
    pub pattern: Seq<char>,
    pub template: Seq<char>,
}

impl View for Rule {
    type V = RuleText;

    open spec fn view(&self) -> RuleText {
        RuleText { pattern: self.pattern@, template: self.template@ }
    }
}

/// The views of a list of rules.
pub open spec fn rule_texts(rules: Seq<Rule>) -> Seq<RuleText> {
    rules.map_values(|r: Rule| r@)
}

/// One entry of a table: a pattern with the templates declared for it.
pub struct Entry {
    pub pattern: Seq<char>,
    pub templates: Seq<Seq<char>>,
}

/// The patterns of a table, in the table's order.
pub open spec fn patterns(table: Seq<Entry>) -> Seq<Seq<char>> {
    table.map_values(|e: Entry| e.pattern)
}

/// The templates that `rules` declare for `pattern`, in declaration order.
pub open spec fn templates_for(rules: Seq<RuleText>, pattern: Seq<char>) -> Seq<Seq<char>>
    decreases rules.len(),
{
    if rules.len() == 0 {
        Seq::empty()
    } else if rules.last().pattern == pattern {
        templates_for(rules.drop_last(), pattern).push(rules.last().template)
    } else {
        templates_for(rules.drop_last(), pattern)
    }
}

/// `table` is the table of `rules`: one entry for each pattern that occurs in
/// the rules, the entries ascending by pattern text, each with the templates
/// of all rules of that pattern in declaration order.
pub open spec fn canonical(table: Seq<Entry>, rules: Seq<RuleText>) -> bool {
    &&& ascending(patterns(table))
    &&& forall|i: int|
        0 <= i < table.len() ==> (#[trigger] table[i]).templates == templates_for(
            rules,
            table[i].pattern,
        ) && table[i].templates.len() > 0
    &&& forall|j: int|
        0 <= j < rules.len() ==> patterns(table).contains((#[trigger] rules[j]).pattern)
}

/// The table of `rules`: the one list of entries that is `canonical` for them.
pub open spec fn table_of(rules: Seq<RuleText>) -> Seq<Entry> {
    choose|table: Seq<Entry>| canonical(table, rules)
}

/// The pattern of every entry of a table of `rules` is one that a rule names.
pub proof fn lemma_entry_is_declared(table: Seq<Entry>, rules: Seq<RuleText>, i: int)
    requires
        canonical(table, rules),
        0 <= i < table.len(),
    ensures
        exists|j: int| 0 <= j < rules.len() && (#[trigger] rules[j]).pattern == table[i].pattern,
{
    if forall|j: int| 0 <= j < rules.len() ==> (#[trigger] rules[j]).pattern != table[i].pattern {
        lemma_templates_for_unknown(rules, table[i].pattern);
        assert(table[i].templates.len() > 0);
    }
}

/// A list of rules has one table only.
pub proof fn lemma_canonical_unique(a: Seq<Entry>, b: Seq<Entry>, rules: Seq<RuleText>)
    requires
        canonical(a, rules),
        canonical(b, rules),
    ensures
        a == b,
{
    let pa = patterns(a);
    let pb = patterns(b);
    assert forall|x: Seq<char>| pa.contains(x) <==> pb.contains(x) by {
        if pa.contains(x) {
            let i = choose|i: int| 0 <= i < pa.len() && pa[i] == x;
            lemma_entry_is_declared(a, rules, i);
            let j = choose|j: int|
                0 <= j < rules.len() && (#[trigger] rules[j]).pattern == a[i].pattern;
            assert(pb.contains(rules[j].pattern));
        }
        if pb.contains(x) {
            let i = choose|i: int| 0 <= i < pb.len() && pb[i] == x;
            lemma_entry_is_declared(b, rules, i);
            let j = choose|j: int|
                0 <= j < rules.len() && (#[trigger] rules[j]).pattern == b[i].pattern;
            assert(pa.contains(rules[j].pattern));
        }
    }
    lemma_ascending_same_set(pa, pb);
    assert(a.len() == pa.len());
    assert(b.len() == pb.len());
    assert forall|i: int| 0 <= i < a.len() implies a[i] == b[i] by {
        assert(pa[i] == pb[i]);
        assert(a[i].pattern == b[i].pattern);
        assert(a[i].templates == b[i].templates);
    }
    assert(a =~= b);
}

/// Whatever is canonical for `rules` is their table.
pub proof fn lemma_table_of(table: Seq<Entry>, rules: Seq<RuleText>)
    requires
        canonical(table, rules),
    ensures
        table_of(rules) == table,
        canonical(table_of(rules), rules),
{
    lemma_canonical_unique(table_of(rules), table, rules);
}

/// The table with one more rule: its template goes behind those of the entry
/// at `at` if that entry has the rule's pattern, and into a new entry at `at`
/// if not.
pub open spec fn with_rule(table: Seq<Entry>, rule: RuleText, at: int) -> Seq<Entry> {
    if 0 <= at < table.len() && table[at].pattern == rule.pattern {
        table.update(
            at,
            Entry { pattern: rule.pattern, templates: table[at].templates.push(rule.template) },
        )
    } else {
        table.insert(at, Entry { pattern: rule.pattern, templates: seq![rule.template] })
    }
}

/// Adding a rule at the place where its pattern stands or belongs turns the
/// table of the rules so far into the table of the rules with that one.
pub proof fn lemma_with_rule(table: Seq<Entry>, done: Seq<RuleText>, rule: RuleText, at: int)
    requires
        canonical(table, done),
        0 <= at <= table.len(),
        forall|j: int| 0 <= j < at ==> lex_lt(#[trigger] patterns(table)[j], rule.pattern),
        at < table.len() ==> table[at].pattern == rule.pattern || lex_lt(
            rule.pattern,
            table[at].pattern,
        ),
    ensures
        canonical(with_rule(table, rule, at), done.push(rule)),
{
    let next = done.push(rule);
    let after = with_rule(table, rule, at);
    let p = rule.pattern;
    let t = rule.template;
    assert(next.drop_last() =~= done);
    assert(next.last() == rule);
    if at < table.len() && table[at].pattern == p {
        assert(patterns(after) =~= patterns(table));
        lemma_ascending_distinct(patterns(table));
        assert forall|i: int| 0 <= i < after.len() implies (#[trigger] after[i]).templates
            == templates_for(next, after[i].pattern) && after[i].templates.len() > 0 by {
            assert(table[i].templates == templates_for(done, table[i].pattern));
            if i != at {
                assert(patterns(table)[i] != patterns(table)[at]);
                assert(after[i] == table[i]);
            }
        }
        assert forall|j: int| 0 <= j < next.len() implies patterns(after).contains(
            (#[trigger] next[j]).pattern,
        ) by {
            if j < done.len() {
                assert(next[j] == done[j]);
                assert(patterns(table).contains(done[j].pattern));
            } else {
                assert(patterns(after)[at] == p);
            }
        }
    } else {
        assert forall|j: int| at <= j < table.len() implies lex_lt(
            p,
            #[trigger] patterns(table)[j],
        ) by {
            if at < j {
                assert(lex_lt(patterns(table)[at], patterns(table)[j]));
                lemma_lex_lt_transitive(p, patterns(table)[at], patterns(table)[j]);
            }
        }
        assert(patterns(after) =~= patterns(table).insert(at, p));
        lemma_insert_ascending(patterns(table), p, at);
        crate::text::lemma_absent(patterns(table), p, at);
        assert forall|j: int| 0 <= j < done.len() implies (#[trigger] done[j]).pattern != p by {
            assert(patterns(table).contains(done[j].pattern));
        }
        lemma_templates_for_unknown(done, p);
        assert forall|i: int| 0 <= i < after.len() implies (#[trigger] after[i]).templates
            == templates_for(next, after[i].pattern) && after[i].templates.len() > 0 by {
            if i < at {
                assert(after[i] == table[i]);
                assert(patterns(table)[i] != p) by {
                    assert(patterns(table).contains(patterns(table)[i]));
                }
            } else if i == at {
                assert(after[i].templates =~= Seq::<Seq<char>>::empty().push(t));
            } else {
                assert(after[i] == table[i - 1]);
                assert(patterns(table)[i - 1] != p) by {
                    assert(patterns(table).contains(patterns(table)[i - 1]));
                }
            }
        }
        assert forall|j: int| 0 <= j < next.len() implies patterns(after).contains(
            (#[trigger] next[j]).pattern,
        ) by {
            if j < done.len() {
                assert(next[j] == done[j]);
                assert(patterns(table).contains(done[j].pattern));
                assert(patterns(after).to_set().contains(done[j].pattern));
            } else {
                assert(patterns(after)[at] == p);
            }
        }
    }
}

/// Every list of rules has its table.
pub proof fn lemma_table_exists(rules: Seq<RuleText>)
    ensures
        canonical(table_of(rules), rules),
    decreases rules.len(),
{
    if rules.len() == 0 {
        let none = Seq::<Entry>::empty();
        assert(patterns(none) =~= Seq::<Seq<char>>::empty());
        assert(canonical(none, rules));
    } else {
        let done = rules.drop_last();
        lemma_table_exists(done);
        let table = table_of(done);
        let at = rank(patterns(table), rules.last().pattern, 0);
        lemma_rank(patterns(table), rules.last().pattern, 0);
        lemma_with_rule(table, done, rules.last(), at);
        assert(done.push(rules.last()) =~= rules);
        assert(canonical(with_rule(table, rules.last(), at), rules));
    }
}

/// `regex` accepts the pattern of every entry, taken on its own.
pub open spec fn each_compiles(table: Seq<Entry>) -> bool {
    forall|i: int| 0 <= i < table.len() ==> regex_compiles((#[trigger] table[i]).pattern)
}

/// `regex` accepts the patterns of the table, each on its own and all
/// together as one set.
pub open spec fn compiles(table: Seq<Entry>) -> bool {
    each_compiles(table) && regex_set_compiles(patterns(table))
}

/// Entry `i` is the first whose pattern `regex` refuses.
pub open spec fn first_refused(table: Seq<Entry>, i: int) -> bool {
    &&& 0 <= i < table.len()
    &&& !regex_compiles(table[i].pattern)
    &&& forall|j: int| 0 <= j < i ==> regex_compiles((#[trigger] table[j]).pattern)
}

/// The entries that a list of patterns and a list of template lists stand
/// for, taken pairwise.
pub open spec fn entries(patterns: Seq<String>, templates: Seq<Vec<String>>) -> Seq<Entry> {
    Seq::new(
        patterns.len(),
        |i: int| Entry { pattern: patterns[i]@, templates: texts(templates[i]@) },
    )
}

/// What an entry whose pattern matches `branch` contributes: each template
/// with the captures of the match filled in, in the templates' order.
pub open spec fn substitutions(entry: Entry, branch: Seq<char>) -> Seq<Seq<char>> {
    entry.templates.map_values(|t: Seq<char>| regex_replace(entry.pattern, branch, t))
}

/// The branches that `branch` feeds into: the substitutions of every entry
/// whose pattern matches, entry after entry in the table's order.
pub open spec fn expand(table: Seq<Entry>, branch: Seq<char>) -> Seq<Seq<char>>
    decreases table.len(),
{
    if table.len() == 0 {
        Seq::empty()
    } else if regex_is_match(table.last().pattern, branch) {
        expand(table.drop_last(), branch) + substitutions(table.last(), branch)
    } else {
        expand(table.drop_last(), branch)
    }
}

/// The index of the first entry at or after `from` whose pattern matches
/// `branch`; the table's length if there is none.
pub open spec fn first_match(table: Seq<Entry>, branch: Seq<char>, from: int) -> int
    decreases table.len() - from,
{
    if 0 <= from < table.len() && !regex_is_match(table[from].pattern, branch) {
        first_match(table, branch, from + 1)
    } else {
        from
    }
}

/// The link that an entry gives for `branch`. Where several rules declare a
/// link for one pattern, the last declared one counts.
pub open spec fn link_from(entry: Entry, branch: Seq<char>) -> Seq<char> {
    regex_replace(entry.pattern, branch, entry.templates.last())
}

/// The one link of `branch`: that of the first entry whose pattern matches,
/// if any does.
pub open spec fn resolve_link(table: Seq<Entry>, branch: Seq<char>) -> Option<Seq<char>> {
    let i = first_match(table, branch, 0);
    if i < table.len() {
        Some(link_from(table[i], branch))
    } else {
        None
    }
}

/// Following the table from `branch` ends after at most `depth` branches in a
/// row, `branch` itself counted.
pub open spec fn settles_within(table: Seq<Entry>, branch: Seq<char>, depth: nat) -> bool
    decreases depth,
{
    &&& depth > 0
    &&& forall|i: int|
        0 <= i < expand(table, branch).len() ==> settles_within(
            table,
            #[trigger] expand(table, branch)[i],
            (depth - 1) as nat,
        )
}

/// Following the table from `branch` comes to an end: no branch that can be
/// reached from it leads back to itself.
pub open spec fn settles(table: Seq<Entry>, branch: Seq<char>) -> bool {
    exists|depth: nat| settles_within(table, branch, depth)
}

/// Entries whose pattern does not match add nothing to what a branch feeds
/// into.
pub proof fn lemma_expand_skips(table: Seq<Entry>, branch: Seq<char>, from: int, to: int)
    requires
        0 <= from <= to <= table.len(),
        forall|i: int| from <= i < to ==> !regex_is_match((#[trigger] table[i]).pattern, branch),
    ensures
        expand(table.take(to), branch) == expand(table.take(from), branch),
    decreases to - from,
{
    if from < to {
        assert(table.take(to).drop_last() =~= table.take(to - 1));
        assert(table.take(to).last() == table[to - 1]);
        lemma_expand_skips(table, branch, from, to - 1);
    }
}

/// An entry whose pattern matches adds its substitutions behind those of the
/// entries before it.
pub proof fn lemma_expand_takes(table: Seq<Entry>, branch: Seq<char>, i: int)
    requires
        0 <= i < table.len(),
        regex_is_match(table[i].pattern, branch),
    ensures
        expand(table.take(i + 1), branch) == expand(table.take(i), branch) + substitutions(
            table[i],
            branch,
        ),
{
    assert(table.take(i + 1).drop_last() =~= table.take(i));
    assert(table.take(i + 1).last() == table[i]);
}

/// Where nothing matches from `from` up to `at`, the first match from `from`
/// on is the first match from `at` on.
pub proof fn lemma_first_match_skips(table: Seq<Entry>, branch: Seq<char>, from: int, at: int)
    requires
        0 <= from <= at <= table.len(),
        forall|i: int| from <= i < at ==> !regex_is_match((#[trigger] table[i]).pattern, branch),
    ensures
        first_match(table, branch, from) == first_match(table, branch, at),
    decreases at - from,
{
    if from < at {
        lemma_first_match_skips(table, branch, from + 1, at);
    }
}

/// What a table says of a branch is what its first entries say, followed by
/// what the rest says.
pub proof fn lemma_expand_splits(table: Seq<Entry>, branch: Seq<char>, at: int)
    requires
        0 <= at <= table.len(),
    ensures
        expand(table, branch) == expand(table.take(at), branch) + expand(table.skip(at), branch),
    decreases table.len() - at,
{
    let rest = table.skip(at);
    if at == table.len() {
        assert(table.take(at) =~= table);
        assert(expand(rest, branch) =~= Seq::<Seq<char>>::empty());
        assert(expand(table, branch) =~= expand(table, branch) + Seq::<Seq<char>>::empty());
    } else {
        assert(table.drop_last().take(at) =~= table.take(at));
        assert(table.drop_last().skip(at) =~= rest.drop_last());
        assert(rest.last() == table.last());
        lemma_expand_splits(table.drop_last(), branch, at);
        let head = expand(table.take(at), branch);
        let tail = expand(rest.drop_last(), branch);
        if regex_is_match(table.last().pattern, branch) {
            assert((head + tail) + substitutions(table.last(), branch) =~= head + (tail
                + substitutions(table.last(), branch)));
        }
    }
}

/// Where in the answer for `branch` the part of entry `i` begins: behind
/// everything that the entries before it contribute.
pub open spec fn offset(table: Seq<Entry>, branch: Seq<char>, i: int) -> int {
    expand(table.take(i), branch).len() as int
}

/// A branch that no pattern matches feeds into no branch.
pub proof fn law_no_match_no_branch(table: Seq<Entry>, branch: Seq<char>)
    requires
        forall|i: int|
            0 <= i < table.len() ==> !regex_is_match((#[trigger] table[i]).pattern, branch),
    ensures
        expand(table, branch) == Seq::<Seq<char>>::empty(),
        resolve_link(table, branch) is None,
{
    lemma_expand_skips(table, branch, 0, table.len() as int);
    assert(table.take(table.len() as int) =~= table);
    assert(expand(table.take(0), branch) =~= Seq::<Seq<char>>::empty());
    lemma_first_match_skips(table, branch, 0, table.len() as int);
}

/// A branch that the pattern of exactly one entry matches feeds into what
/// that entry's templates name, one branch for each template, in the order
/// in which the templates were declared.
pub proof fn law_one_match_its_templates(table: Seq<Entry>, branch: Seq<char>, i: int)
    requires
        0 <= i < table.len(),
        forall|j: int|
            0 <= j < table.len() ==> (regex_is_match((#[trigger] table[j]).pattern, branch) <==> j
                == i),
    ensures
        expand(table, branch) == substitutions(table[i], branch),
        expand(table, branch).len() == table[i].templates.len(),
        forall|t: int|
            0 <= t < table[i].templates.len() ==> #[trigger] expand(table, branch)[t]
                == regex_replace(table[i].pattern, branch, table[i].templates[t]),
{
    lemma_expand_skips(table, branch, 0, i);
    lemma_expand_takes(table, branch, i);
    lemma_expand_skips(table, branch, i + 1, table.len() as int);
    assert(table.take(table.len() as int) =~= table);
    assert(expand(table.take(0), branch) =~= Seq::<Seq<char>>::empty());
    assert(Seq::<Seq<char>>::empty() + substitutions(table[i], branch) =~= substitutions(
        table[i],
        branch,
    ));
}

/// In the answer for a branch the parts of the matching entries follow one
/// another in the order of the table, which for the table of a list of rules
/// is the ascending order of the pattern texts. The part of one entry stands
/// together: its templates, with the captures filled in, in the order in
/// which the rules declared them.
pub proof fn law_answers_in_pattern_order(
    table: Seq<Entry>,
    rules: Seq<RuleText>,
    branch: Seq<char>,
    i: int,
    j: int,
)
    requires
        canonical(table, rules),
        0 <= i < j < table.len(),
        regex_is_match(table[i].pattern, branch),
        regex_is_match(table[j].pattern, branch),
    ensures
        lex_lt(table[i].pattern, table[j].pattern),
        table[i].templates == templates_for(rules, table[i].pattern),
        0 <= offset(table, branch, i),
        offset(table, branch, i) + table[i].templates.len() <= offset(table, branch, j),
        offset(table, branch, j) + table[j].templates.len() <= expand(table, branch).len(),
        expand(table, branch).subrange(
            offset(table, branch, i),
            offset(table, branch, i) + table[i].templates.len(),
        ) == substitutions(table[i], branch),
        expand(table, branch).subrange(
            offset(table, branch, j),
            offset(table, branch, j) + table[j].templates.len(),
        ) == substitutions(table[j], branch),
{
    assert(lex_lt(patterns(table)[i], patterns(table)[j]));
    lemma_part_of_entry(table, branch, i);
    lemma_part_of_entry(table, branch, j);
    let upto = table.take(j);
    assert(upto.take(i + 1) =~= table.take(i + 1));
    lemma_expand_splits(upto, branch, i + 1);
    lemma_expand_takes(table, branch, i);
}

/// The part of a matching entry in the answer for a branch.
pub proof fn lemma_part_of_entry(table: Seq<Entry>, branch: Seq<char>, i: int)
    requires
        0 <= i < table.len(),
        regex_is_match(table[i].pattern, branch),
    ensures
        offset(table, branch, i) + table[i].templates.len() <= expand(table, branch).len(),
        expand(table, branch).subrange(
            offset(table, branch, i),
            offset(table, branch, i) + table[i].templates.len(),
        ) == substitutions(table[i], branch),
{
    lemma_expand_splits(table, branch, i + 1);
    lemma_expand_takes(table, branch, i);
    let head = expand(table.take(i), branch);
    let part = substitutions(table[i], branch);
    let tail = expand(table.skip(i + 1), branch);
    assert(expand(table, branch) == (head + part) + tail);
    assert(((head + part) + tail).subrange(
        head.len() as int,
        head.len() as int + part.len() as int,
    ) =~= part);
}

/// A branch has at most one link, and it is the one that the matching entry
/// with the first pattern text gives: no other matching pattern comes before
/// it in the order of texts.
pub proof fn law_link_of_first_pattern(table: Seq<Entry>, branch: Seq<char>)
    requires
        ascending(patterns(table)),
    ensures
        resolve_link(table, branch) is None <==> forall|i: int|
            0 <= i < table.len() ==> !regex_is_match((#[trigger] table[i]).pattern, branch),
        resolve_link(table, branch) is Some ==> {
            let first = first_match(table, branch, 0);
            &&& 0 <= first < table.len()
            &&& regex_is_match(table[first].pattern, branch)
            &&& resolve_link(table, branch) == Some(link_from(table[first], branch))
            &&& forall|j: int|
                0 <= j < table.len() && j != first && regex_is_match(
                    (#[trigger] table[j]).pattern,
                    branch,
                ) ==> lex_lt(table[first].pattern, table[j].pattern)
        },
{
    lemma_first_match(table, branch, 0);
    let first = first_match(table, branch, 0);
    if first < table.len() {
        assert forall|j: int|
            0 <= j < table.len() && j != first && regex_is_match(
                (#[trigger] table[j]).pattern,
                branch,
            ) implies lex_lt(table[first].pattern, table[j].pattern) by {
            assert(lex_lt(patterns(table)[first], patterns(table)[j]));
        }
    }
}

/// What `first_match` finds: nothing matches before it, and where it lies in
/// the table, the entry there matches.
pub proof fn lemma_first_match(table: Seq<Entry>, branch: Seq<char>, from: int)
    requires
        0 <= from <= table.len(),
    ensures
        from <= first_match(table, branch, from) <= table.len(),
        forall|i: int|
            from <= i < first_match(table, branch, from) ==> !regex_is_match(
                (#[trigger] table[i]).pattern,
                branch,
            ),
        first_match(table, branch, from) < table.len() ==> regex_is_match(
            table[first_match(table, branch, from)].pattern,
            branch,
        ),
    decreases table.len() - from,
{
    if from < table.len() && !regex_is_match(table[from].pattern, branch) {
        lemma_first_match(table, branch, from + 1);
    }
}

/// A pattern that no rule names has no templates.
pub proof fn lemma_templates_for_unknown(rules: Seq<RuleText>, pattern: Seq<char>)
    requires
        forall|j: int| 0 <= j < rules.len() ==> (#[trigger] rules[j]).pattern != pattern,
    ensures
        templates_for(rules, pattern) == Seq::<Seq<char>>::empty(),
    decreases rules.len(),
{
    if rules.len() > 0 {
        assert(rules.last().pattern != pattern);
        assert forall|j: int| 0 <= j < rules.drop_last().len() implies (
        #[trigger] rules.drop_last()[j]).pattern != pattern by {
            assert(rules.drop_last()[j] == rules[j]);
        }
        lemma_templates_for_unknown(rules.drop_last(), pattern);
    }
}

/// Gathers declared rules into the entries of their table: the patterns in
/// ascending order, and beside each the templates declared for it.
pub fn group(rules: &Vec<Rule>) -> (r: (Vec<String>, Vec<Vec<String>>))
    ensures
        r.0@.len() == r.1@.len(),
        canonical(entries(r.0@, r.1@), rule_texts(rules@)),
        entries(r.0@, r.1@) == table_of(rule_texts(rules@)),
{
    let mut pats: Vec<String> = Vec::new();
    let mut tmpls: Vec<Vec<String>> = Vec::new();
    let mut k: usize = 0;
    assert(patterns(entries(pats@, tmpls@)) =~= Seq::<Seq<char>>::empty());
    while k < rules.len()
        invariant
            k <= rules@.len(),
            pats@.len() == tmpls@.len(),
            canonical(entries(pats@, tmpls@), rule_texts(rules@.take(k as int))),
        decreases rules@.len() - k,
    {
        let ghost done = rule_texts(rules@.take(k as int));
        let ghost before = entries(pats@, tmpls@);
        proof {
            assert(rule_texts(rules@.take(k + 1)) =~= done.push(rules@[k as int]@));
            assert(patterns(before) =~= texts(pats@));
        }
        let (at, found) = find(&pats, rules[k].pattern.as_str());
        proof {
            let p = rules@[k as int]@.pattern;
            assert forall|j: int| 0 <= j < at implies lex_lt(
                #[trigger] patterns(before)[j],
                p,
            ) by {
                assert(lex_lt(texts(pats@)[j], p));
            }
            if found {
                assert(before[at as int].pattern == texts(pats@)[at as int]);
            } else if at < before.len() {
                assert(lex_lt(p, texts(pats@)[at as int]));
                assert(before[at as int].pattern == texts(pats@)[at as int]);
                crate::text::lemma_lex_lt_irreflexive(p);
            }
        }
        if found {
            let mut list = tmpls.remove(at);
            list.push(rules[k].template.clone());
            tmpls.insert(at, list);
        } else {
            let mut list: Vec<String> = Vec::new();
            list.push(rules[k].template.clone());
            pats.insert(at, rules[k].pattern.clone());
            tmpls.insert(at, list);
        }
        proof {
            let after = entries(pats@, tmpls@);
            let wanted = with_rule(before, rules@[k as int]@, at as int);
            assert(after.len() == wanted.len());
            assert forall|i: int| 0 <= i < after.len() implies after[i] == wanted[i] by {
                assert(after[i].templates =~= wanted[i].templates);
            }
            assert(after =~= wanted);
            lemma_with_rule(before, done, rules@[k as int]@, at as int);
        }
        k = k + 1;
    }
    assert(rules@.take(k as int) =~= rules@);
    proof {
        lemma_table_of(entries(pats@, tmpls@), rule_texts(rules@));
    }
    (pats, tmpls)
}

} // verus!
