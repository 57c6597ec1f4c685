//! Ordered sets of patterns, compiled once and searched together.
//!
//! The patterns are regular expressions, and compiling and searching them is
//! the work of the `regex` crate. What this module adds is the order: of the
//! patterns that match a text, the one that the caller listed first wins.
use vstd::prelude::*;

verus! {

/// `regex::RegexSet`, a compiled set of patterns. Nothing inside it is seen
/// here: what is known of a set is what [`set_patterns`] says it holds.
#[verifier::external_type_specification]
#[verifier::external_body]
pub struct ExRegexSet(regex::RegexSet);

/// `regex::Error`, the reason why patterns did not compile. It is only carried
/// from the compiler to [`PatternError`].
#[verifier::external_type_specification]
#[verifier::external_body]
pub struct ExRegexError(regex::Error);

/// The patterns that a compiled set was built from, in the order in which they
/// were given (`regex::RegexSet::patterns`).
pub uninterp spec fn set_patterns(set: regex::RegexSet) -> Seq<Seq<char>>;

/// Whether `regex::RegexSet::new` accepts these patterns: each must be a
/// regular expression in the syntax of the `regex` crate, and the set that they
/// compile to must stay within the crate's size limit.
pub uninterp spec fn patterns_compile(patterns: Seq<Seq<char>>) -> bool;

/// What `regex::RegexSet::matches` finds: the indices of those of `patterns`
/// that match somewhere in `text`.
pub uninterp spec fn matching_patterns(patterns: Seq<Seq<char>>, text: Seq<char>) -> Seq<usize>;

/// `regex::RegexSet::new`: compiles the patterns into one set, or fails. Whether
/// it succeeds depends on the patterns alone, and the set it gives holds the
/// patterns it was given, in their order.
#[verifier::external_body]
fn compile_set(patterns: &Vec<&str>) -> (r: Result<regex::RegexSet, regex::Error>)
    ensures
        r is Ok <==> patterns_compile(patterns.deep_view()),
        r matches Ok(set) ==> set_patterns(set) == patterns.deep_view(),
{
    regex::RegexSet::new(patterns)
}

/// `regex::RegexSet::matches`, iterated: the indices of the patterns of the set
/// that match anywhere in `text`. They depend on the patterns and the text
/// alone, each is the index of a pattern of the set, and they come in ascending
/// order.
#[verifier::external_body]
fn matched_indices(set: &regex::RegexSet, text: &str) -> (hits: Vec<usize>)
    ensures
        hits@ == matching_patterns(set_patterns(*set), text@),
        forall|k: int| 0 <= k < hits.len() ==> hits[k] < set_patterns(*set).len(),
        forall|j: int, k: int| 0 <= j < k < hits.len() ==> hits[j] < hits[k],
{
    set.matches(text).into_iter().collect()
}

/// The `Display` text of a `regex::Error`. Nothing is claimed of it.
#[verifier::external_body]
fn error_text(e: &regex::Error) -> String {
    e.to_string()
}

/// Pattern `i` of `patterns` matches somewhere in `text`.
pub open spec fn pattern_matches(patterns: Seq<Seq<char>>, i: int, text: Seq<char>) -> bool {
    &&& 0 <= i < patterns.len()
    &&& exists|k: int|
        0 <= k < matching_patterns(patterns, text).len() && #[trigger] matching_patterns(
            patterns,
            text,
        )[k] == i
}

/// Pattern `i` matches in `text`, and no pattern listed before it does.
pub open spec fn lowest_match(patterns: Seq<Seq<char>>, i: int, text: Seq<char>) -> bool {
    &&& pattern_matches(patterns, i, text)
    &&& forall|j: int| 0 <= j < i ==> !pattern_matches(patterns, j, text)
}

/// No pattern matches in `text`.
pub open spec fn no_match(patterns: Seq<Seq<char>>, text: Seq<char>) -> bool {
    forall|j: int| !pattern_matches(patterns, j, text)
}

/// The index of the first pattern, in the order of the list, that matches
/// somewhere in `text`; nothing where none matches.
pub open spec fn first_match(patterns: Seq<Seq<char>>, text: Seq<char>) -> Option<usize> {
    if exists|i: usize| lowest_match(patterns, i as int, text) {
        Some(choose|i: usize| lowest_match(patterns, i as int, text))
    } else {
        None
    }
}

proof fn lemma_lowest_exists(patterns: Seq<Seq<char>>, text: Seq<char>, j: int)
    requires
        pattern_matches(patterns, j, text),
    ensures
        exists|i: int| 0 <= i <= j && lowest_match(patterns, i, text),
    decreases j,
{
    if exists|k: int| 0 <= k < j && pattern_matches(patterns, k, text) {
        let k = choose|k: int| 0 <= k < j && pattern_matches(patterns, k, text);
        lemma_lowest_exists(patterns, text, k);
    } else {
        assert(lowest_match(patterns, j, text));
    }
}

/// What [`first_match`] picks: a pattern that matches, with none before it that
/// does; and nothing only where no pattern matches.
pub proof fn lemma_first_match(patterns: Seq<Seq<char>>, text: Seq<char>)
    ensures
        match first_match(patterns, text) {
            Some(i) => lowest_match(patterns, i as int, text),
            None => no_match(patterns, text),
        },
{
    if first_match(patterns, text) is None {
        assert forall|j: int| !pattern_matches(patterns, j, text) by {
            if pattern_matches(patterns, j, text) {
                lemma_lowest_exists(patterns, text, j);
                let i = choose|i: int| 0 <= i <= j && lowest_match(patterns, i, text);
                let hits = matching_patterns(patterns, text);
                let k = choose|k: int| 0 <= k < hits.len() && #[trigger] hits[k] == i;
                assert(lowest_match(patterns, hits[k] as int, text));
            }
        }
    }
}

/// Only one index is the lowest match.
pub proof fn lemma_lowest_match_unique(patterns: Seq<Seq<char>>, text: Seq<char>, i: int, j: int)
    requires
        lowest_match(patterns, i, text),
        lowest_match(patterns, j, text),
    ensures
        i == j,
{
}

/// Why a set of patterns was refused.
#[derive(Debug)]
pub struct PatternError {
    reason: String,
}

impl PatternError {
    /// The compiler's description of what is wrong with the patterns.
    pub fn reason(&self) -> (text: &str)
        ensures
            text@ == self@,
    {
        self.reason.as_str()
    }
}

impl View for PatternError {
    type V = Seq<char>;

    /// The description that the error carries.
    closed spec fn view(&self) -> Seq<char> {
        self.reason@
    }
}

/// An ordered set of patterns, compiled for searching.
#[derive(Debug)]
pub struct PatternSet {
    set: regex::RegexSet,
}

impl View for PatternSet {
    type V = Seq<Seq<char>>;

    /// The patterns, in the caller's order.
    closed spec fn view(&self) -> Seq<Seq<char>> {
        set_patterns(self.set)
    }
}

impl PatternSet {
    /// Compiles `patterns`, keeping their order. Fails where they do not
    /// compile, which the patterns alone decide.
    pub fn new(patterns: &Vec<&str>) -> (r: Result<PatternSet, PatternError>)
        ensures
            r is Ok <==> patterns_compile(patterns.deep_view()),
            r matches Ok(s) ==> s@ == patterns.deep_view(),
    {
        match compile_set(patterns) {
            Ok(set) => Ok(PatternSet { set }),
            Err(e) => Err(PatternError { reason: error_text(&e) }),
        }
    }

    /// The index of the first pattern of the set that matches somewhere in
    /// `text`.
    pub fn first_match(&self, text: &str) -> (r: Option<usize>)
        ensures
            r == first_match(self@, text@),
    {
        let hits = matched_indices(&self.set, text);
        if hits.len() == 0 {
            proof {
                lemma_first_match(self@, text@);
            }
            None
        } else {
            let i = hits[0];
            proof {
                assert(lowest_match(self@, i as int, text@));
                lemma_first_match(self@, text@);
                lemma_lowest_match_unique(
                    self@,
                    text@,
                    i as int,
                    first_match(self@, text@).unwrap() as int,
                );
            }
            Some(i)
        }
    }
}

} // verus!
