//! The blacklist: names that are left out of the output, given as regular
//! expressions.
use vstd::prelude::*;
use vstd::string::*;
use regex::RegexSet;
use crate::btf::Btf;
use crate::error::BtfError;
use crate::error::BtfErrorKind;
use crate::types::BtfType;

verus! {

/// A compiled set of regular expressions of the regex crate.
#[verifier::external_type_specification]
#[verifier::external_body]
pub struct ExRegexSet(regex::RegexSet);

/// What the regex crate reports when patterns do not compile.
#[verifier::external_type_specification]
#[verifier::external_body]
pub struct ExRegexError(regex::Error);

/// The patterns that a set of regular expressions was compiled from.
pub uninterp spec fn set_patterns(set: RegexSet) -> Seq<Seq<char>>;

/// Whether a set of regular expressions is as `RegexSet::new` makes one:
/// compiled with the options that the regex crate starts from.
pub uninterp spec fn set_is_plain(set: RegexSet) -> bool;

/// Whether `RegexSet::new` of the regex crate makes a set of the patterns.
/// It refuses where one of them is no regular expression in the crate's
/// syntax, or where the set would grow beyond the crate's size limit; the
/// answer depends on the patterns alone.
pub uninterp spec fn patterns_compile(patterns: Seq<Seq<char>>) -> bool;

/// Whether one of the regular expressions `patterns`, compiled with the
/// options that the regex crate starts from, matches somewhere in `text`.
pub uninterp spec fn any_pattern_matches(patterns: Seq<Seq<char>>, text: Seq<char>) -> bool;

/// The patterns as sequences of characters.
pub open spec fn patterns_view(patterns: Seq<String>) -> Seq<Seq<char>> {
    Seq::new(patterns.len(), |i: int| patterns[i]@)
}

/// `RegexSet::new` of the regex crate: compiles the patterns into one set.
/// Whether a set comes back depends on the patterns alone, and is given a
/// name. A set that comes back is the set of the patterns that were handed
/// in, compiled with the options that the crate starts from.
#[verifier::external_body]
fn compile_patterns(patterns: &Vec<String>) -> (r: Result<RegexSet, regex::Error>)
    ensures
        r is Ok <==> patterns_compile(patterns_view(patterns@)),
        r matches Ok(set) ==> set_is_plain(set) && set_patterns(set) == patterns_view(patterns@),
{
    RegexSet::new(patterns)
}

/// `RegexSet::is_match` of the regex crate, on a set that `RegexSet::new`
/// made: whether one of the set's regular expressions matches somewhere in
/// the text. The answer depends on the set's patterns and the text alone,
/// and is given a name.
#[verifier::external_body]
fn set_matches(set: &RegexSet, text: &str) -> (m: bool)
    requires
        set_is_plain(*set),
    ensures
        m == any_pattern_matches(set_patterns(*set), text@),
{
    set.is_match(text)
}

/// The pattern that is always left out: the compiler's own type of
/// variable argument lists.
pub open spec fn builtin_pattern() -> Seq<char> {
    "__builtin_va_list"@
}

/// The blacklist that is used where none is given.
pub fn default_blacklist() -> (patterns: Vec<String>)
    ensures
        patterns_view(patterns@) == seq![builtin_pattern()],
{
    let mut patterns: Vec<String> = Vec::new();
    patterns.push("__builtin_va_list".to_owned());
    assert(patterns_view(patterns@) =~= seq![builtin_pattern()]);
    patterns
}

/// Whether the flags say for each type of the graph whether some pattern
/// matches its name.
pub open spec fn flags_of(btf: &Btf, patterns: Seq<Seq<char>>, flags: Seq<bool>) -> bool {
    &&& flags.len() == btf@.len()
    &&& forall|id: int|
        0 <= id < flags.len() ==> #[trigger] flags[id] == any_pattern_matches(
            patterns,
            btf@[id].spec_name(),
        )
}

/// For each type of the graph, whether its name is on the blacklist. Fails
/// if and only if the patterns do not compile.
pub fn blacklist_flags(btf: &Btf, patterns: &Vec<String>) -> (r: Result<Vec<bool>, BtfError>)
    ensures
        r is Ok <==> patterns_compile(patterns_view(patterns@)),
        match r {
            Ok(flags) => flags_of(btf, patterns_view(patterns@), flags@),
            Err(e) => crate::error::error_about(
                BtfErrorKind::InvalidBlacklist,
                0,
                BtfType::Void,
                e,
            ),
        },
{
    match compile_patterns(patterns) {
        Ok(set) => Ok(flags_for(btf, &set)),
        Err(_) => Err(BtfError::about(BtfErrorKind::InvalidBlacklist, 0, &BtfType::Void)),
    }
}

/// For each type of the graph, whether the set matches its name.
fn flags_for(btf: &Btf, set: &RegexSet) -> (flags: Vec<bool>)
    requires
        set_is_plain(*set),
    ensures
        flags_of(btf, set_patterns(*set), flags@),
{
    let types = btf.types();
    let mut flags: Vec<bool> = Vec::new();
    let mut id: usize = 0;
    while id < types.len()
        invariant
            set_is_plain(*set),
            types@ == btf@,
            id <= types@.len(),
            flags@.len() == id,
            forall|j: int|
                0 <= j < id ==> #[trigger] flags@[j] == any_pattern_matches(
                    set_patterns(*set),
                    btf@[j].spec_name(),
                ),
        decreases types@.len() - id,
    {
        flags.push(set_matches(set, types[id].name()));
        id += 1;
    }
    flags
}

} // verus!
