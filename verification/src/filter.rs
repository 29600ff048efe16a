//! Which source directories take part in coverage: two sets of regular
//! expressions over directory names, one that keeps directories in and one that shuts them out.

use regex::RegexSet;
use vstd::prelude::*;

verus! {

/// `regex::RegexSet`: a compiled set of expressions, of which nothing is
/// known here but what the functions below say.
#[verifier::external_type_specification]
#[verifier::external_body]
pub struct ExRegexSet(regex::RegexSet);

/// `regex::Error`: why a set of expressions did not compile.
#[verifier::external_type_specification]
#[verifier::external_body]
pub struct ExRegexError(regex::Error);

/// The expressions that a set was built from, in the order given.
pub uninterp spec fn set_patterns(set: RegexSet) -> Seq<Seq<char>>;

/// Whether every one of the expressions is a valid regular expression that the
/// regex engine accepts.
pub uninterp spec fn set_compiles(patterns: Seq<Seq<char>>) -> bool;

/// Whether one of the expressions matches somewhere in `text`.
pub uninterp spec fn set_matches(patterns: Seq<Seq<char>>, text: Seq<char>) -> bool;

/// The character sequences of the strings, in order.
pub open spec fn texts(strings: Seq<String>) -> Seq<Seq<char>> {
    strings.map_values(|s: String| s@)
}

/// Which of the two sets of a filter an expression belongs to.
#[derive(Debug, Clone, Copy, PartialEq, Eq, Structural)]
pub enum FilterSide {
    /// The set that keeps directories.
    Keep,
    /// The set that shuts directories out.
    Exclude,
}

/// A set of expressions that could not be compiled.
#[derive(Debug, Clone)]
pub struct FilterError {
    /// The set that failed.
    pub side: FilterSide,
    /// What the regex engine said.
    pub message: String,
}

/// `RegexSet::new`: compiles the expressions into one set. It succeeds exactly
/// when every expression compiles, which holds of no expressions at all; the
/// set then holds the expressions as given.
#[verifier::external_body]
fn compile_set(patterns: &Vec<String>) -> (r: Result<RegexSet, regex::Error>)
    ensures
        r is Ok <==> set_compiles(texts(patterns@)),
        r matches Ok(set) ==> set_patterns(set) == texts(patterns@),
        patterns@.len() == 0 ==> r is Ok,
{
    RegexSet::new(patterns)
}

/// `RegexSet::is_match`: whether one of the expressions of the set matches
/// somewhere in `text`. A set of no expressions matches nothing.
#[verifier::external_body]
fn set_is_match(set: &RegexSet, text: &str) -> (found: bool)
    ensures
        found == set_matches(set_patterns(*set), text@),
        set_patterns(*set).len() == 0 ==> !found,
{
    set.is_match(text)
}

/// `Clone::clone` of a set gives a set of the same expressions.
pub assume_specification[ <regex::RegexSet as Clone>::clone ](set: &RegexSet) -> (copy: RegexSet)
    ensures
        set_patterns(copy) == set_patterns(*set),
;

/// `ToString::to_string` on a regex error: its message.
#[verifier::external_body]
fn error_text(error: &regex::Error) -> (text: String) {
    error.to_string()
}

/// Whether a directory takes part, given the expressions that keep and those
/// that shut out: it does when a keeping expression matches it, or when no
/// excluding expression does.
pub open spec fn allowed(keep: Seq<Seq<char>>, exclude: Seq<Seq<char>>, dir: Seq<char>) -> bool {
    set_matches(keep, dir) || !set_matches(exclude, dir)
}

/// Filter for interesting source directories. Every directory takes part
/// unless an excluding expression matches it; a keeping expression that
/// matches overrides that.
#[derive(Clone, Debug)]
pub struct Filter {
    dir_include: RegexSet,
    dir_exclude: RegexSet,
}

impl Filter {
    /// The expressions that keep a directory.
    pub closed spec fn keeping(&self) -> Seq<Seq<char>> {
        set_patterns(self.dir_include)
    }

    /// The expressions that shut a directory out.
    pub closed spec fn excluding(&self) -> Seq<Seq<char>> {
        set_patterns(self.dir_exclude)
    }

    /// Compiles the two sets of expressions. The keeping set is compiled
    /// first, so where both are at fault the error names that one.
    pub fn new(keep: &Vec<String>, exclude: &Vec<String>) -> (r: Result<Filter, FilterError>)
        ensures
            match r {
                Ok(filter) => set_compiles(texts(keep@)) && set_compiles(texts(exclude@))
                    && filter.keeping() == texts(keep@) && filter.excluding() == texts(
                    exclude@,
                ),
                Err(error) => match error.side {
                    FilterSide::Keep => !set_compiles(texts(keep@)),
                    FilterSide::Exclude => set_compiles(texts(keep@)) && !set_compiles(
                        texts(exclude@),
                    ),
                },
            },
            keep@.len() == 0 && exclude@.len() == 0 ==> r is Ok,
    {
        let dir_include = match compile_set(keep) {
            Ok(set) => set,
            Err(error) => {
                return Err(FilterError { side: FilterSide::Keep, message: error_text(&error) });
            },
        };
        let dir_exclude = match compile_set(exclude) {
            Ok(set) => set,
            Err(error) => {
                return Err(FilterError { side: FilterSide::Exclude, message: error_text(&error) });
            },
        };
        Ok(Filter { dir_include, dir_exclude })
    }

    /// Whether the directory `dir` takes part in coverage.
    pub fn allows(&self, dir: &str) -> (yes: bool)
        ensures
            yes == allowed(self.keeping(), self.excluding(), dir@),
            self.excluding().len() == 0 ==> yes,
    {
        set_is_match(&self.dir_include, dir) || !set_is_match(&self.dir_exclude, dir)
    }
}

/// A directory that a keeping expression matches takes part, whatever the
/// excluding expressions say.
pub proof fn law_keeping_wins(keep: Seq<Seq<char>>, exclude: Seq<Seq<char>>, dir: Seq<char>)
    requires
        set_matches(keep, dir),
    ensures
        allowed(keep, exclude, dir),
{
}

/// A directory that no excluding expression matches takes part.
pub proof fn law_unlisted_takes_part(keep: Seq<Seq<char>>, exclude: Seq<Seq<char>>, dir: Seq<char>)
    requires
        !set_matches(exclude, dir),
    ensures
        allowed(keep, exclude, dir),
{
}

/// A directory is left out only when an excluding expression matches it and no
/// keeping expression does.
pub proof fn law_left_out(keep: Seq<Seq<char>>, exclude: Seq<Seq<char>>, dir: Seq<char>)
    ensures
        !allowed(keep, exclude, dir) <==> set_matches(exclude, dir) && !set_matches(keep, dir),
{
}

} // verus!
