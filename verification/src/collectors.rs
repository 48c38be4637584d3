//! The per-file collectors besides tokei: regex match counts (through the
//! `grep` crates), path glob counts, and user commands.
use crate::glob_pattern::{glob_compiles, glob_is_match, glob_matches, CompiledPattern};
use crate::measurement::NumMatches;
use crate::text::chars_of;
use crate::tokei_stats::optional_text;
use grep::matcher::Matcher;
use vstd::prelude::*;

verus! {

#[verifier::external_type_specification]
#[verifier::external_body]
pub struct ExRegexMatcher(grep::regex::RegexMatcher);

#[verifier::external_type_specification]
#[verifier::external_body]
pub struct ExRegexError(grep::regex::Error);

#[verifier::external_type_specification]
#[verifier::external_body]
pub struct ExIoError(std::io::Error);

/// Whether `grep::regex::RegexMatcher::new` accepts `pattern`.
pub uninterp spec fn regex_valid(pattern: Seq<char>) -> bool;

/// What `grep::searcher::Searcher::search_slice` with the matcher of
/// `pattern` and a `UTF8` sink reports for `contents`: the number and text
/// of each matching line, in order; none where the search fails.
pub uninterp spec fn grep_lines(pattern: Seq<char>, contents: Seq<char>) -> Option<
    Seq<(u64, Seq<char>)>,
>;

/// The text of the first match of the matcher of `pattern` in `line`, as
/// `Matcher::find` locates it: its bytes read as UTF-8, invalid sequences
/// replaced (the matcher may match inside a character).
pub uninterp spec fn regex_first_match(pattern: Seq<char>, line: Seq<char>) -> Option<Seq<char>>;

/// `grep::regex::RegexMatcher::new(pattern)`. Claimed: it succeeds exactly
/// when `regex_valid(pattern)`.
#[verifier::external_body]
fn compile_regex(pattern: &str) -> (r: Result<grep::regex::RegexMatcher, grep::regex::Error>)
    ensures
        r is Ok <==> regex_valid(pattern@),
{
    grep::regex::RegexMatcher::new(pattern)
}

/// A regex matcher with its pattern. Only `CompiledRegex::compile` builds
/// one, so the matcher is always the one compiled from `pattern`.
pub struct CompiledRegex {
    matcher: grep::regex::RegexMatcher,
    pattern: String,
}

impl CompiledRegex {
    /// The pattern's text.
    pub closed spec fn pattern_text(&self) -> Seq<char> {
        self.pattern@
    }

    /// Compiles `pattern`; `None` where the regex is invalid.
    pub fn compile(pattern: &str) -> (r: Option<CompiledRegex>)
        ensures
            r is Some <==> regex_valid(pattern@),
            r matches Some(c) ==> c.pattern_text() == pattern@,
    {
        match compile_regex(pattern) {
            Ok(matcher) => Some(CompiledRegex { matcher, pattern: pattern.to_string() }),
            Err(_) => None,
        }
    }
}

/// The views of (line number, line) pairs.
pub open spec fn line_views(v: Seq<(u64, String)>) -> Seq<(u64, Seq<char>)> {
    v.map_values(|l: (u64, String)| (l.0, l.1@))
}

/// `Searcher::search_slice` of `contents` with the matcher of `re` and a
/// `UTF8` sink that keeps each matching line. Claimed: the lines are
/// `grep_lines` of the pattern and `contents`.
#[verifier::external_body]
fn search_lines(re: &CompiledRegex, contents: &str) -> (r: Result<Vec<(u64, String)>, std::io::Error>)
    ensures
        match r {
            Ok(v) => grep_lines(re.pattern_text(), contents@) == Some(line_views(v@)),
            Err(_) => grep_lines(re.pattern_text(), contents@) is None,
        },
{
    let mut lines: Vec<(u64, String)> = Vec::new();
    let sink = grep::searcher::sinks::UTF8(|lnum, line| {
        lines.push((lnum, line.to_string()));
        Ok(true)
    });
    match grep::searcher::Searcher::new().search_slice(&re.matcher, contents.as_bytes(), sink) {
        Ok(()) => Ok(lines),
        Err(e) => Err(e),
    }
}

/// `Matcher::find` of the matcher of `re` in the bytes of `line`, then the
/// matched bytes through `String::from_utf8_lossy`. Claimed: the text is
/// `regex_first_match` of the pattern and `line`.
#[verifier::external_body]
fn first_match(re: &CompiledRegex, line: &str) -> (r: Option<String>)
    ensures
        optional_text(r) == regex_first_match(re.pattern_text(), line@),
{
    match re.matcher.find(line.as_bytes()) {
        Ok(Some(m)) => Some(String::from_utf8_lossy(&line.as_bytes()[m]).into_owned()),
        _ => None,
    }
}

// ---------------------------------------------------------------------------
// Regex match counts
// ---------------------------------------------------------------------------
/// Why matches could not be listed.
#[derive(Debug, Clone, Copy, PartialEq, Eq, Structural)]
pub enum GrepError {
    /// The pattern is not a valid regex.
    InvalidPattern,
    /// The search reported an error.
    SearchFailed,
}

/// Each matching line's number with the text of its first match; a line
/// in which the matcher finds nothing is left out.
pub open spec fn first_matches(pattern: Seq<char>, lines: Seq<(u64, Seq<char>)>) -> Seq<
    (u64, Seq<char>),
>
    decreases lines.len(),
{
    if lines.len() == 0 {
        Seq::empty()
    } else {
        let rest = first_matches(pattern, lines.drop_last());
        match regex_first_match(pattern, lines.last().1) {
            Some(t) => rest.push((lines.last().0, t)),
            None => rest,
        }
    }
}

/// Each line paired with the first match found in it (`firsts`, one per
/// line), kept where there is one.
pub open spec fn paired_matches(lines: Seq<(u64, Seq<char>)>, firsts: Seq<Option<Seq<char>>>) -> Seq<
    (u64, Seq<char>),
>
    decreases lines.len(),
{
    if lines.len() == 0 || firsts.len() == 0 {
        Seq::empty()
    } else {
        let rest = paired_matches(lines.drop_last(), firsts.drop_last());
        match firsts.last() {
            Some(t) => rest.push((lines.last().0, t)),
            None => rest,
        }
    }
}

/// The texts of optional strings.
pub open spec fn optional_texts_of(v: Seq<Option<String>>) -> Seq<Option<Seq<char>>> {
    v.map_values(|o: Option<String>| crate::tokei_stats::optional_text(o))
}

/// The lines in which a first match was found, each with its line number
/// and the text of that match; `firsts` holds, for each line, the first
/// match found in it.
pub fn keep_matched_lines(lines: &Vec<(u64, String)>, firsts: &Vec<Option<String>>) -> (r: Vec<(u64, String)>)
    requires
        lines@.len() == firsts@.len(),
    ensures
        line_views(r@) == paired_matches(line_views(lines@), optional_texts_of(firsts@)),
{
    let ghost lv = line_views(lines@);
    let ghost fv = optional_texts_of(firsts@);
    let mut out: Vec<(u64, String)> = Vec::new();
    let mut i: usize = 0;
    proof {
        assert(lv.take(0) =~= Seq::<(u64, Seq<char>)>::empty());
        assert(line_views(out@) =~= Seq::<(u64, Seq<char>)>::empty());
    }
    while i < lines.len()
        invariant
            lv == line_views(lines@),
            fv == optional_texts_of(firsts@),
            lines@.len() == firsts@.len(),
            i <= lv.len(),
            line_views(out@) == paired_matches(lv.take(i as int), fv.take(i as int)),
        decreases lines.len() - i,
    {
        proof {
            assert(lv.take(i + 1).drop_last() =~= lv.take(i as int));
            assert(fv.take(i + 1).drop_last() =~= fv.take(i as int));
            assert(lv.take(i + 1).last() == lv[i as int]);
            assert(fv.take(i + 1).last() == fv[i as int]);
        }
        match &firsts[i] {
            Some(text) => {
                let ghost before = line_views(out@);
                out.push((lines[i].0, text.clone()));
                proof {
                    assert(line_views(out@) =~= before.push((lv[i as int].0, text@)));
                }
            },
            None => {},
        }
        i += 1;
    }
    proof {
        assert(lv.take(lv.len() as int) =~= lv);
        assert(fv.take(fv.len() as int) =~= fv);
    }
    out
}

proof fn lemma_paired_are_first(pattern: Seq<char>, lines: Seq<(u64, Seq<char>)>, firsts: Seq<Option<Seq<char>>>)
    requires
        lines.len() == firsts.len(),
        forall|i: int| 0 <= i < lines.len() ==> #[trigger] firsts[i] == regex_first_match(pattern, lines[i].1),
    ensures
        paired_matches(lines, firsts) == first_matches(pattern, lines),
    decreases lines.len(),
{
    if lines.len() > 0 {
        let l = lines.drop_last();
        let f = firsts.drop_last();
        assert forall|i: int| 0 <= i < l.len() implies #[trigger] f[i] == regex_first_match(pattern, l[i].1) by {
            assert(f[i] == firsts[i]);
            assert(l[i] == lines[i]);
        }
        lemma_paired_are_first(pattern, l, f);
        assert(firsts.last() == firsts[firsts.len() - 1]);
    }
}

/// Counts the matches of a regex in each file.
pub struct RipgrepCollector {
    pattern: String,
}

impl RipgrepCollector {
    /// The regex.
    pub closed spec fn pattern_spec(&self) -> Seq<char> {
        self.pattern@
    }

    /// A collector of matches of `pattern`.
    pub fn new(pattern: &str) -> (r: Self)
        ensures
            r.pattern_spec() == pattern@,
    {
        RipgrepCollector { pattern: pattern.to_string() }
    }

    /// The matches in `contents`: for each matching line, its number and the
    /// text of the first match.
    pub fn get_matches(&self, contents: &str) -> (r: Result<Vec<(u64, String)>, GrepError>)
        ensures
            !regex_valid(self.pattern_spec()) ==> r == Err::<Vec<(u64, String)>, GrepError>(
                GrepError::InvalidPattern,
            ),
            regex_valid(self.pattern_spec()) ==> match grep_lines(self.pattern_spec(), contents@) {
                None => r == Err::<Vec<(u64, String)>, GrepError>(GrepError::SearchFailed),
                Some(lines) => r matches Ok(v) && line_views(v@) == first_matches(
                    self.pattern_spec(),
                    lines,
                ),
            },
    {
        let re = match CompiledRegex::compile(self.pattern.as_str()) {
            Some(re) => re,
            None => {
                return Err(GrepError::InvalidPattern);
            },
        };
        let lines = match search_lines(&re, contents) {
            Ok(lines) => lines,
            Err(_) => {
                return Err(GrepError::SearchFailed);
            },
        };
        let ghost lv = line_views(lines@);
        let ghost p = re.pattern_text();
        let mut firsts: Vec<Option<String>> = Vec::new();
        let mut i: usize = 0;
        while i < lines.len()
            invariant
                lv == line_views(lines@),
                p == re.pattern_text(),
                i <= lv.len(),
                firsts@.len() == i,
                forall|j: int| 0 <= j < i ==> #[trigger] optional_texts_of(firsts@)[j] == regex_first_match(p, lv[j].1),
            decreases lines.len() - i,
        {
            let first = first_match(&re, lines[i].1.as_str());
            let ghost before = firsts@;
            firsts.push(first);
            proof {
                assert forall|j: int| 0 <= j < i + 1 implies #[trigger] optional_texts_of(firsts@)[j] == regex_first_match(p, lv[j].1) by {
                    if j < i {
                        assert(firsts@[j] == before[j]);
                        assert(optional_texts_of(before)[j] == regex_first_match(p, lv[j].1));
                    }
                }
            }
            i += 1;
        }
        let out = keep_matched_lines(&lines, &firsts);
        proof {
            lemma_paired_are_first(p, lv, optional_texts_of(firsts@));
        }
        Ok(out)
    }

    /// The number of matching lines of `contents` in which a match was found.
    pub fn measure_file(&self, contents: &str) -> (r: Result<NumMatches, GrepError>)
        ensures
            !regex_valid(self.pattern_spec()) ==> r == Err::<NumMatches, GrepError>(
                GrepError::InvalidPattern,
            ),
            regex_valid(self.pattern_spec()) ==> match grep_lines(self.pattern_spec(), contents@) {
                None => r == Err::<NumMatches, GrepError>(GrepError::SearchFailed),
                Some(lines) => r == Ok::<NumMatches, GrepError>(
                    NumMatches(first_matches(self.pattern_spec(), lines).len() as usize),
                ),
            },
    {
        match self.get_matches(contents) {
            Ok(v) => Ok(NumMatches(v.len())),
            Err(e) => Err(e),
        }
    }
}

// ---------------------------------------------------------------------------
// Path glob counts
// ---------------------------------------------------------------------------
/// Counts the files whose path matches a glob.
pub struct PathBlobCollector {
    glob: CompiledPattern,
}

/// Whether the file at `path` counts for the glob `pattern`: a directory
/// path (ending in '/') never does.
pub open spec fn path_counts(pattern: Seq<char>, path: Seq<char>) -> bool {
    !(path.len() > 0 && path.last() == '/') && glob_matches(pattern, path)
}

impl PathBlobCollector {
    /// The glob.
    pub closed spec fn pattern_spec(&self) -> Seq<char> {
        self.glob.pattern_text()
    }

    /// A collector of paths matching `pattern`, which must be a valid glob.
    pub fn new(pattern: String) -> (r: Self)
        requires
            glob_compiles(pattern@),
        ensures
            r.pattern_spec() == pattern@,
    {
        match CompiledPattern::compile(pattern.as_str()) {
            Some(glob) => PathBlobCollector { glob },
            None => vstd::pervasive::unreached(),
        }
    }

    /// `new`, when `pattern` is a valid glob; `None` otherwise.
    pub fn try_new(pattern: String) -> (r: Option<Self>)
        ensures
            r is Some <==> glob_compiles(pattern@),
            r matches Some(c) ==> c.pattern_spec() == pattern@,
    {
        if CompiledPattern::compile(pattern.as_str()).is_some() {
            Some(PathBlobCollector::new(pattern))
        } else {
            None
        }
    }

    /// One for a file whose path matches the glob, zero otherwise.
    pub fn measure_file(&self, path: &str) -> (r: NumMatches)
        ensures
            r.0 == if path_counts(self.pattern_spec(), path@) {
                1usize
            } else {
                0usize
            },
    {
        let pc = chars_of(path);
        if pc.len() > 0 && pc[pc.len() - 1] == '/' {
            return NumMatches(0);
        }
        if glob_is_match(&self.glob, path) {
            NumMatches(1)
        } else {
            NumMatches(0)
        }
    }
}

// ---------------------------------------------------------------------------
// User commands
// ---------------------------------------------------------------------------
/// A script run on the whole repository.
pub struct CustomScriptCollector {
    pub script: String,
}

impl CustomScriptCollector {
    /// A collector that runs `script`.
    pub fn new(script: String) -> (r: Self)
        ensures
            r.script@ == script@,
    {
        CustomScriptCollector { script }
    }
}

/// A command run on each file: the executable and the arguments that come
/// before the file's path.
#[derive(Debug, Clone)]
pub struct CustomFileCommand {
    pub executable: String,
    pub args: Vec<String>,
}

/// Measures each file by running a command on it.
#[derive(Debug, Clone)]
pub struct CustomFileMeasurement {
    command: CustomFileCommand,
}

/// The message when a command has no executable.
pub open spec fn empty_executable_message() -> Seq<char> {
    "Command executable cannot be empty"@
}

impl CustomFileMeasurement {
    /// The command.
    pub closed spec fn command_spec(&self) -> CustomFileCommand {
        self.command
    }

    /// A measurement that runs `command`; refused when the executable is
    /// empty.
    pub fn new(command: CustomFileCommand) -> (r: Result<Self, String>)
        ensures
            command.executable@.len() == 0 <==> r is Err,
            r matches Err(m) ==> m@ == empty_executable_message(),
            r matches Ok(c) ==> c.command_spec() == command,
    {
        if command.executable.as_str().unicode_len() == 0 {
            return Err("Command executable cannot be empty".to_string());
        }
        Ok(CustomFileMeasurement { command })
    }

    /// The command that this measurement runs.
    pub fn command(&self) -> (r: &CustomFileCommand)
        ensures
            *r == self.command_spec(),
    {
        &self.command
    }
}

} // verus!
