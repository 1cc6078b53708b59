//! What this library takes on trust from the `regex` crate: which patterns
//! compile, which of them match a text, and what a replacement yields.

use vstd::prelude::*;

use crate::text::texts;

verus! {

#[verifier::external_type_specification]
#[verifier::external_body]
pub struct ExRegexError(regex::Error);

/// A regular expression as `Regex::new` compiles it from a pattern text, with
/// no option set. Only `compile` makes one, so the text says all there is to
/// know of how it matches.
#[verifier::external_body]
pub struct Compiled {
    regex: regex::Regex,
}

/// A set of regular expressions as `RegexSet::new` compiles it from a list of
/// pattern texts, with no option set. Only `compile_set` makes one.
#[verifier::external_body]
pub struct CompiledSet {
    set: regex::RegexSet,
}

/// The pattern text that a compiled regex was made from: what
/// `Regex::as_str` returns.
pub uninterp spec fn regex_pattern(re: Compiled) -> Seq<char>;

/// The pattern texts that a regex set holds, in the order in which they were
/// given to it: what `RegexSet::patterns` returns.
pub uninterp spec fn regex_set_patterns(set: CompiledSet) -> Seq<Seq<char>>;

/// Whether `Regex::new` accepts `pattern`: it is a valid regular expression
/// and what it compiles to is within the size that `regex` allows.
pub uninterp spec fn regex_compiles(pattern: Seq<char>) -> bool;

/// Whether `RegexSet::new` accepts the patterns, taken together as one set.
pub uninterp spec fn regex_set_compiles(patterns: Seq<Seq<char>>) -> bool;

/// Whether the regular expression written as `pattern` matches somewhere in
/// `haystack`.
pub uninterp spec fn regex_is_match(pattern: Seq<char>, haystack: Seq<char>) -> bool;

/// The text that `Regex::replace` returns for the regular expression written
/// as `pattern`: `haystack` with its leftmost match replaced by `template`,
/// in which references to capture groups are filled in.
pub uninterp spec fn regex_replace(
    pattern: Seq<char>,
    haystack: Seq<char>,
    template: Seq<char>,
) -> Seq<char>;

/// `Regex::new`: compiles one pattern. Whether it is accepted depends on the
/// pattern alone, and a regex that comes back was made from `pattern`.
#[verifier::external_body]
pub(crate) fn compile(pattern: &str) -> (r: Result<Compiled, regex::Error>)
    ensures
        (r is Ok) == regex_compiles(pattern@),
        r matches Ok(re) ==> regex_pattern(re) == pattern@,
{
    regex::Regex::new(pattern).map(|regex| Compiled { regex })
}

/// `RegexSet::new`: compiles a list of patterns into one set. Whether it is
/// accepted depends on the patterns alone, and a set that comes back holds
/// exactly the given patterns, in the given order.
#[verifier::external_body]
pub(crate) fn compile_set(patterns: &Vec<String>) -> (r: Result<CompiledSet, regex::Error>)
    ensures
        (r is Ok) == regex_set_compiles(texts(patterns@)),
        r matches Ok(set) ==> regex_set_patterns(set) == texts(patterns@),
{
    regex::RegexSet::new(patterns).map(|set| CompiledSet { set })
}

/// `RegexSet::matches`, read through `SetMatches::iter`: the indices of the
/// patterns of `set` that match `haystack`, each once, in ascending order.
#[verifier::external_body]
pub(crate) fn matching(set: &CompiledSet, haystack: &str) -> (r: Vec<usize>)
    ensures
        forall|j: int, k: int| 0 <= j < k < r@.len() ==> r@[j] < r@[k],
        forall|i: usize|
            (#[trigger] r@.contains(i)) == (i < regex_set_patterns(*set).len() && regex_is_match(
                regex_set_patterns(*set)[i as int],
                haystack@,
            )),
{
    set.set.matches(haystack).iter().collect()
}

/// `Regex::replace` with a string as the replacement. The result is a new
/// string whatever the regex found.
#[verifier::external_body]
pub(crate) fn replace(re: &Compiled, haystack: &str, template: &str) -> (r: String)
    ensures
        r@ == regex_replace(regex_pattern(*re), haystack@, template@),
{
    re.regex.replace(haystack, template).into_owned()
}

} // verus!
