//! Glob patterns compiled by `globset`, kept together with their text.
use vstd::prelude::*;

verus! {

#[verifier::external_type_specification]
#[verifier::external_body]
pub struct ExGlobSet(globset::GlobSet);

#[verifier::external_type_specification]
#[verifier::external_body]
pub struct ExGlobError(globset::Error);

/// Whether `globset::Glob::new` accepts `pattern` and `GlobSetBuilder::build`
/// then builds the set of that one glob (it refuses a glob whose compiled
/// form is too large).
pub uninterp spec fn glob_compiles(pattern: Seq<char>) -> bool;

/// Whether `globset::GlobSet::is_match`, on the set of the one glob built
/// from `pattern` with default options, accepts `path`.
pub uninterp spec fn glob_matches(pattern: Seq<char>, path: Seq<char>) -> bool;

/// `globset::Glob::new(pattern)`, then a `GlobSetBuilder` holding that glob
/// and `GlobSetBuilder::build`. Claimed: the result is `Ok` exactly when
/// `glob_compiles(pattern)`. Not claimed: anything about the set inside,
/// which `glob_is_match` covers once the set sits in a `CompiledPattern`.
#[verifier::external_body]
fn compile_glob(pattern: &str) -> (r: Result<globset::GlobSet, globset::Error>)
    ensures
        r is Ok <==> glob_compiles(pattern@),
{
    match globset::Glob::new(pattern) {
        Ok(glob) => globset::GlobSetBuilder::new().add(glob).build(),
        Err(e) => Err(e),
    }
}

/// A glob pattern with its compiled set. Only `CompiledPattern::compile`
/// builds one, so the set is always the one built from `text`.
pub struct CompiledPattern {
    matcher: globset::GlobSet,
    text: String,
    wildcard: bool,
}

impl CompiledPattern {
    /// The pattern's text.
    pub closed spec fn pattern_text(&self) -> Seq<char> {
        self.text@
    }

    #[verifier::type_invariant]
    closed spec fn wildcard_matches_text(&self) -> bool {
        self.wildcard == self.text@.contains('*')
    }

    /// Compiles `pattern`; `None` where globset refuses it.
    pub fn compile(pattern: &str) -> (r: Option<CompiledPattern>)
        ensures
            r is Some <==> glob_compiles(pattern@),
            r matches Some(p) ==> p.pattern_text() == pattern@,
    {
        match compile_glob(pattern) {
            Ok(matcher) => {
                let wildcard = contains_star(pattern);
                Some(CompiledPattern { matcher, text: pattern.to_string(), wildcard })
            },
            Err(_) => None,
        }
    }

    /// The pattern's text.
    pub fn original_pattern(&self) -> (r: &String)
        ensures
            r@ == self.pattern_text(),
    {
        &self.text
    }

    /// Whether the pattern holds a '*'.
    pub fn is_wildcard(&self) -> (r: bool)
        ensures
            r == self.pattern_text().contains('*'),
    {
        proof {
            use_type_invariant(self);
        }
        self.wildcard
    }
}

/// Whether `s` holds a '*'.
fn contains_star(s: &str) -> (r: bool)
    ensures
        r == s@.contains('*'),
{
    let cs = crate::text::chars_of(s);
    let mut i: usize = 0;
    while i < cs.len()
        invariant
            cs@ == s@,
            i <= cs@.len(),
            forall|j: int| 0 <= j < i ==> cs@[j] != '*',
        decreases cs.len() - i,
    {
        if cs[i] == '*' {
            proof {
                assert(s@[i as int] == '*');
            }
            return true;
        }
        i += 1;
    }
    false
}

/// `globset::GlobSet::is_match` on the pattern's set. Claimed: the answer is
/// `glob_matches` of the pattern's text and `path`, which holds because the
/// set of a `CompiledPattern` is the one `compile` built from that text.
#[verifier::external_body]
pub(crate) fn glob_is_match(p: &CompiledPattern, path: &str) -> (r: bool)
    ensures
        r == glob_matches(p.pattern_text(), path@),
{
    p.matcher.is_match(path)
}

} // verus!
