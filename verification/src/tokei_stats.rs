//! Lines of code per language, counted by tokei.
use crate::measurement::{decimal, decimal_text, FileData, PossiblyEmpty};
use crate::paths::{file_name, file_name_or_empty};
use crate::text::{chars_of, contains_chars, contains_seq, str_eq};
use vstd::prelude::*;

verus! {

/// The line counts of one file, or the sum over files of one language.
#[derive(Debug, Clone)]
pub struct TokeiStat {
    /// The language's name, as tokei displays it.
    pub language: String,
    /// Blank lines.
    pub blanks: usize,
    /// Lines of code.
    pub code: usize,
    /// Comment lines.
    pub comments: usize,
}

impl View for TokeiStat {
    type V = (Seq<char>, usize, usize, usize);

    open spec fn view(&self) -> (Seq<char>, usize, usize, usize) {
        (self.language@, self.blanks, self.code, self.comments)
    }
}

/// The language that stands in an empty stat.
pub open spec fn default_language() -> Seq<char> {
    "ABNF"@
}

/// The stat of a file that counts nothing.
pub open spec fn empty_stat() -> (Seq<char>, usize, usize, usize) {
    (default_language(), 0, 0, 0)
}

impl Default for TokeiStat {
    fn default() -> (r: Self)
        ensures
            r@ == empty_stat(),
    {
        TokeiStat { language: "ABNF".to_string(), blanks: 0, code: 0, comments: 0 }
    }
}

impl TokeiStat {
    /// The sum of two stats, in the language of the first.
    pub fn add(self, other: Self) -> (r: Self)
        requires
            self.blanks + other.blanks <= usize::MAX,
            self.code + other.code <= usize::MAX,
            self.comments + other.comments <= usize::MAX,
        ensures
            r@ == (
                self@.0,
                (self.blanks + other.blanks) as usize,
                (self.code + other.code) as usize,
                (self.comments + other.comments) as usize,
            ),
    {
        TokeiStat {
            language: self.language,
            blanks: self.blanks + other.blanks,
            code: self.code + other.code,
            comments: self.comments + other.comments,
        }
    }

    /// Adds the counts of `other`, keeping the language.
    pub fn add_assign(&mut self, other: Self)
        requires
            old(self).blanks + other.blanks <= usize::MAX,
            old(self).code + other.code <= usize::MAX,
            old(self).comments + other.comments <= usize::MAX,
        ensures
            final(self)@ == (
                old(self)@.0,
                (old(self).blanks + other.blanks) as usize,
                (old(self).code + other.code) as usize,
                (old(self).comments + other.comments) as usize,
            ),
    {
        self.blanks = self.blanks + other.blanks;
        self.code = self.code + other.code;
        self.comments = self.comments + other.comments;
    }
}

impl FileData for TokeiStat {

}

impl PossiblyEmpty for TokeiStat {
    open spec fn is_empty_spec(&self) -> bool {
        self.blanks == 0 && self.code == 0 && self.comments == 0
    }

    fn is_empty(&self) -> (r: bool) {
        self.blanks == 0 && self.code == 0 && self.comments == 0
    }
}

// ---------------------------------------------------------------------------
// tokei
// ---------------------------------------------------------------------------
/// The display name of the language that `tokei::LanguageType::from_str`
/// finds for `name`, if any.
pub uninterp spec fn tokei_language_named(name: Seq<char>) -> Option<Seq<char>>;

/// The blank, code and comment line counts that
/// `LanguageType::parse_from_slice` gives for `contents` in the language
/// displayed as `language` (doc strings counted as comments); none where
/// `language` names no language.
pub uninterp spec fn tokei_line_counts(language: Seq<char>, contents: Seq<char>) -> Option<
    (usize, usize, usize),
>;

/// `tokei::LanguageType::from_str(name)`, then `LanguageType::name`.
/// Claimed: the result is `tokei_language_named(name)`.
#[verifier::external_body]
fn language_named(name: &str) -> (r: Option<String>)
    ensures
        match r {
            Some(s) => tokei_language_named(name@) == Some(s@),
            None => tokei_language_named(name@) is None,
        },
{
    match <tokei::LanguageType as std::str::FromStr>::from_str(name) {
        Ok(language) => Some(language.name().to_string()),
        Err(_) => None,
    }
}

/// The language at index `i` of `tokei::LanguageType::list()`, as its
/// variant name (`Debug`, such as "Cpp") and its display name (such as
/// "C++"); none past the end of the list.
pub uninterp spec fn tokei_language_at(i: usize) -> Option<(Seq<char>, Seq<char>)>;

/// `tokei::LanguageType::list().get(i)`, then its `Debug` text and
/// `LanguageType::name`. Claimed: the pair is `tokei_language_at(i)`.
#[verifier::external_body]
fn language_at(i: usize) -> (r: Option<(String, String)>)
    ensures
        match r {
            Some((k, n)) => tokei_language_at(i) == Some((k@, n@)),
            None => tokei_language_at(i) is None,
        },
{
    match tokei::LanguageType::list().get(i) {
        Some(language) => Some((format!("{:?}", language), language.name().to_string())),
        None => None,
    }
}

/// Index `j` of tokei's list holds a language whose variant name is not
/// `name`.
pub open spec fn other_key_at(name: Seq<char>, j: int) -> bool {
    tokei_language_at(j as usize) matches Some(q) && q.0 != name
}

/// Index `i` of tokei's list holds the language whose variant name is
/// `name`, and every index before it holds a language of another name.
pub open spec fn first_key_at(name: Seq<char>, i: int) -> bool {
    &&& 0 <= i <= usize::MAX
    &&& tokei_language_at(i as usize) matches Some(p) && p.0 == name
    &&& forall|j: int| 0 <= j < i ==> #[trigger] other_key_at(name, j)
}

/// The display name of the language whose variant name is `name`, if tokei
/// lists one.
pub open spec fn language_of_key(name: Seq<char>) -> Option<Seq<char>> {
    if exists|i: int| first_key_at(name, i) {
        Some(tokei_language_at((choose|i: int| first_key_at(name, i)) as usize)->Some_0.1)
    } else {
        None
    }
}

/// The display name of the language that `name` stands for: the one tokei
/// reads from it as a display name, else the one whose variant name it is
/// (so "C++" and "Cpp" both give "C++").
pub open spec fn tokei_display_name(name: Seq<char>) -> Option<Seq<char>> {
    match tokei_language_named(name) {
        Some(d) => Some(d),
        None => language_of_key(name),
    }
}

proof fn lemma_first_key_unique(name: Seq<char>, i: int, k: int)
    requires
        first_key_at(name, i),
        first_key_at(name, k),
    ensures
        i == k,
{
    if i < k {
        assert(other_key_at(name, i));
    } else if k < i {
        assert(other_key_at(name, k));
    }
}

/// The language that a user's `name` stands for, by display name or by
/// variant name, searched through tokei's list in order.
fn resolve_language(name: &str) -> (r: Option<String>)
    ensures
        optional_text(r) == tokei_display_name(name@),
{
    if let Some(d) = language_named(name) {
        return Some(d);
    }
    let mut i: usize = 0;
    loop
        invariant
            tokei_language_named(name@) is None,
            forall|j: int| 0 <= j < i ==> #[trigger] other_key_at(name@, j),
        decreases usize::MAX - i,
    {
        match language_at(i) {
            None => {
                proof {
                    assert forall|k: int| !first_key_at(name@, k) by {
                        if first_key_at(name@, k) {
                            if k > i {
                                assert(other_key_at(name@, i as int));
                            } else if k < i {
                                assert(other_key_at(name@, k));
                            }
                        }
                    }
                }
                return None;
            },
            Some((k, d)) => {
                if str_eq(k.as_str(), name) {
                    proof {
                        assert(first_key_at(name@, i as int));
                        let c = choose|c: int| first_key_at(name@, c);
                        lemma_first_key_unique(name@, i as int, c);
                    }
                    return Some(d);
                }
                if i == usize::MAX {
                    proof {
                        assert forall|c: int| !first_key_at(name@, c) by {
                            if first_key_at(name@, c) && c < i {
                                assert(other_key_at(name@, c));
                            }
                        }
                    }
                    return None;
                }
                i += 1;
            },
        }
    }
}

/// The display name of the language that `tokei::LanguageType::from_path`
/// finds for `path` from its file name or extension.
pub uninterp spec fn tokei_path_language(path: Seq<char>) -> Option<Seq<char>>;

/// The file name of `path` has an extension as `Path::extension` reads it:
/// a '.' after its first character.
pub open spec fn has_extension(path: Seq<char>) -> bool {
    exists|i: int| 0 < i < file_name_or_empty(path).len() && #[trigger] file_name_or_empty(path)[i] == '.'
}

/// The display name of the language that tokei knows by the file name
/// `name` alone (such as "Makefile" or "Dockerfile"), matched in lower case,
/// if any.
pub uninterp spec fn tokei_file_name_language(name: Seq<char>) -> Option<Seq<char>>;

/// The path has a file name that tokei knows a language by.
pub open spec fn known_file_name(path: Seq<char>) -> bool {
    file_name(path) matches Some(n) && tokei_file_name_language(n) is Some
}

/// `tokei::LanguageType::from_path(path, ..)`, then `LanguageType::name`.
/// Claimed: a file name that tokei knows decides the language, by
/// `tokei_file_name_language` (tokei looks at it first); otherwise, when the
/// path has an extension, the result is `tokei_path_language(path)` (tokei
/// decides by the extension). Not claimed otherwise: for a path without an
/// extension and without a known file name, tokei opens the file at that
/// path on disk to read a shebang line.
#[verifier::external_body]
fn language_of_path(path: &str) -> (r: Option<String>)
    ensures
        known_file_name(path@) ==> optional_text(r) == tokei_file_name_language(
            file_name(path@)->Some_0,
        ),
        has_extension(path@) ==> optional_text(r) == tokei_path_language(path@),
{
    match tokei::LanguageType::from_path(path, &tokei::Config::default()) {
        Some(language) => Some(language.name().to_string()),
        None => None,
    }
}

/// `tokei::LanguageType::from_str(language)`, then `parse_from_slice` of
/// `contents` with doc strings counted as comments. Claimed: the counts are
/// `tokei_line_counts(language, contents)`.
#[verifier::external_body]
fn line_counts(language: &str, contents: &str) -> (r: Option<(usize, usize, usize)>)
    ensures
        r == tokei_line_counts(language@, contents@),
{
    match <tokei::LanguageType as std::str::FromStr>::from_str(language) {
        Ok(lt) => {
            let config = tokei::Config {
                treat_doc_strings_as_comments: Some(true),
                ..tokei::Config::default()
            };
            let stats = lt.parse_from_slice(contents, &config);
            Some((stats.blanks, stats.code, stats.comments))
        },
        Err(_) => None,
    }
}

// ---------------------------------------------------------------------------
// The collector
// ---------------------------------------------------------------------------
/// Counts lines per language, optionally only of some languages, and
/// reports the `top_n` languages with the most code.
pub struct TokeiCollector {
    languages: Option<Vec<String>>,
    top_n: Option<usize>,
    failed_extensions: Vec<String>,
}

/// The display names of `names`, as tokei knows them (by display name or by
/// variant name).
pub open spec fn known_languages(names: Seq<Seq<char>>) -> Seq<Seq<char>> {
    names.map_values(|n: Seq<char>| tokei_display_name(n)->Some_0)
}

/// Every name of `names` is a language that tokei knows, by its display
/// name (in any case) or its variant name.
pub open spec fn all_known(names: Option<Vec<String>>) -> bool {
    match names {
        Some(v) => forall|i: int| 0 <= i < v@.len() ==> (tokei_display_name(#[trigger] v@[i]@) is Some),
        None => true,
    }
}

impl TokeiCollector {
    /// The languages counted (all when none are given), by display name.
    pub closed spec fn languages_spec(&self) -> Option<Seq<Seq<char>>> {
        match self.languages {
            Some(v) => Some(crate::text::views_of(v@)),
            None => None,
        }
    }

    /// How many languages a summary reports, at most.
    pub closed spec fn top_n_spec(&self) -> Option<usize> {
        self.top_n
    }

    /// A collector of the languages `languages` (all when `None`) that
    /// reports the `top_n` languages with the most code. Every name must be
    /// one that tokei knows, as "C++" or as "Cpp"; the collector keeps the
    /// display names.
    pub fn new(languages: Option<Vec<String>>, top_n: Option<usize>) -> (r: Self)
        requires
            all_known(languages),
        ensures
            r.languages_spec() == match languages {
                Some(v) => Some(known_languages(crate::text::views_of(v@))),
                None => None,
            },
            r.top_n_spec() == top_n,
    {
        let known = match languages {
            Some(names) => {
                let mut out: Vec<String> = Vec::new();
                let mut i: usize = 0;
                while i < names.len()
                    invariant
                        i <= names@.len(),
                        all_known(Some(names)),
                        crate::text::views_of(out@) == known_languages(
                            crate::text::views_of(names@).take(i as int),
                        ),
                    decreases names.len() - i,
                {
                    proof {
                        assert(tokei_display_name(names@[i as int]@) is Some);
                    }
                    match resolve_language(names[i].as_str()) {
                        Some(n) => {
                            let ghost before = crate::text::views_of(out@);
                            out.push(n);
                            proof {
                                assert(crate::text::views_of(out@) =~= before.push(n@));
                                assert(known_languages(crate::text::views_of(names@).take(i + 1))
                                    =~= known_languages(
                                    crate::text::views_of(names@).take(i as int),
                                ).push(n@));
                            }
                        },
                        None => {},
                    }
                    i += 1;
                }
                proof {
                    assert(crate::text::views_of(names@).take(names@.len() as int)
                        =~= crate::text::views_of(names@));
                }
                Some(out)
            },
            None => None,
        };
        TokeiCollector { languages: known, top_n, failed_extensions: Vec::new() }
    }

    /// `new`, when tokei knows every name; `None` otherwise.
    pub fn try_new(languages: Option<Vec<String>>, top_n: Option<usize>) -> (r: Option<Self>)
        ensures
            r is Some <==> all_known(languages),
            r matches Some(c) ==> c.languages_spec() == match languages {
                Some(v) => Some(known_languages(crate::text::views_of(v@))),
                None => None,
            } && c.top_n_spec() == top_n,
    {
        match &languages {
            Some(names) => {
                let mut i: usize = 0;
                while i < names.len()
                    invariant
                        i <= names@.len(),
                        languages == Some(*names),
                        forall|j: int| 0 <= j < i ==> (tokei_display_name(#[trigger] names@[j]@) is Some),
                    decreases names.len() - i,
                {
                    if resolve_language(names[i].as_str()).is_none() {
                        proof {
                            assert(tokei_display_name(names@[i as int]@) is None);
                        }
                        return None;
                    }
                    i += 1;
                }
            },
            None => {},
        }
        Some(TokeiCollector::new(languages, top_n))
    }
}

/// The text of an optional string.
pub open spec fn optional_text(o: Option<String>) -> Option<Seq<char>> {
    match o {
        Some(s) => Some(s@),
        None => None,
    }
}

/// tokei skips hidden files: a path that starts with '.' or has a component
/// that does.
pub open spec fn hidden_path(path: Seq<char>) -> bool {
    (path.len() > 0 && path[0] == '.') || contains_seq(path, seq!['/', '.'])
}

impl TokeiCollector {
    /// The stat of the file at `path` with `contents`, where tokei takes its
    /// language to be `language`.
    pub open spec fn stat_for(
        &self,
        path: Seq<char>,
        language: Option<Seq<char>>,
        contents: Seq<char>,
    ) -> (Seq<char>, usize, usize, usize) {
        if hidden_path(path) {
            empty_stat()
        } else {
            match language {
                None => empty_stat(),
                Some(l) => {
                    if self.languages_spec() matches Some(ls) && !ls.contains(l) {
                        empty_stat()
                    } else {
                        match tokei_line_counts(l, contents) {
                            Some((b, c, m)) => (l, b, c, m),
                            None => empty_stat(),
                        }
                    }
                },
            }
        }
    }

    /// The stat of the file at `path` with `contents`, given the language
    /// that tokei finds for the path. Hidden files, files of no language and
    /// files of a language not counted give an empty stat.
    pub fn measure_with_language(&self, path: &str, language: Option<String>, contents: &str) -> (r:
        TokeiStat)
        ensures
            r@ == self.stat_for(path@, optional_text(language), contents@),
    {
        let pc = chars_of(path);
        let dot_dir = vec!['/', '.'];
        if (pc.len() > 0 && pc[0] == '.') || contains_chars(pc.as_slice(), dot_dir.as_slice()) {
            proof {
                assert(dot_dir@ =~= seq!['/', '.']);
            }
            return TokeiStat::default();
        }
        proof {
            assert(dot_dir@ =~= seq!['/', '.']);
        }
        let l = match language {
            Some(l) => l,
            None => {
                return TokeiStat::default();
            },
        };
        match &self.languages {
            Some(ls) => {
                let mut i: usize = 0;
                let mut found = false;
                while i < ls.len() && !found
                    invariant
                        i <= ls@.len(),
                        found ==> i > 0 && ls@[i - 1]@ == l@,
                        !found ==> forall|j: int| 0 <= j < i ==> (#[trigger] ls@[j])@ != l@,
                    decreases ls.len() - i,
                {
                    if str_eq(ls[i].as_str(), l.as_str()) {
                        found = true;
                    }
                    i += 1;
                }
                proof {
                    let vs = crate::text::views_of(ls@);
                    if found {
                        assert(vs[i - 1] == l@);
                    } else {
                        assert forall|k: int| 0 <= k < vs.len() implies vs[k] != l@ by {
                            assert(vs[k] == ls@[k]@);
                        }
                    }
                }
                if !found {
                    return TokeiStat::default();
                }
            },
            None => {},
        }
        match line_counts(l.as_str(), contents) {
            Some((blanks, code, comments)) => TokeiStat { language: l, blanks, code, comments },
            None => TokeiStat::default(),
        }
    }

    /// The stat of the file at `path` with `contents`: the one
    /// `measure_with_language` gives for the language tokei finds for the
    /// path. For a file name tokei knows (such as "Makefile") that language
    /// is `tokei_file_name_language` of the name; for a path with an
    /// extension it is `tokei_path_language(path)`; for others tokei may read
    /// the file on disk, and which language it finds is not stated.
    pub fn measure_file(&self, path: &str, contents: &str) -> (r: TokeiStat)
        ensures
            exists|language: Option<Seq<char>>| r@ == self.stat_for(path@, language, contents@),
            known_file_name(path@) ==> r@ == self.stat_for(
                path@,
                tokei_file_name_language(file_name(path@)->Some_0),
                contents@,
            ),
            has_extension(path@) ==> r@ == self.stat_for(path@, tokei_path_language(path@), contents@),
    {
        let language = language_of_path(path);
        let ghost lv = optional_text(language);
        let r = self.measure_with_language(path, language, contents);
        proof {
            assert(r@ == self.stat_for(path@, lv, contents@));
        }
        r
    }
}

// ---------------------------------------------------------------------------
// Summaries
// ---------------------------------------------------------------------------
/// `groups` with `code` added to the total of `language`, or with a new
/// group for it at the end.
pub open spec fn add_code(groups: Seq<(Seq<char>, int)>, language: Seq<char>, code: int) -> Seq<
    (Seq<char>, int),
>
    decreases groups.len(),
{
    if groups.len() == 0 {
        seq![(language, code)]
    } else if groups[0].0 == language {
        groups.update(0, (language, groups[0].1 + code))
    } else {
        seq![groups[0]] + add_code(groups.drop_first(), language, code)
    }
}

/// No key occurs twice.
pub open spec fn keys_distinct(d: Seq<(Seq<char>, int)>) -> bool {
    forall|i: int, j: int| 0 <= i < j < d.len() ==> (#[trigger] d[i]).0 != (#[trigger] d[j]).0
}

/// The count under `k`: that of its first entry, 0 when there is none.
pub open spec fn count_of(d: Seq<(Seq<char>, int)>, k: Seq<char>) -> int
    decreases d.len(),
{
    if d.len() == 0 {
        0
    } else if d[0].0 == k {
        d[0].1
    } else {
        count_of(d.drop_first(), k)
    }
}

/// Adding `c` under `key` adds `c` to the count of `key` and leaves the
/// others.
pub proof fn lemma_add_code_count(g: Seq<(Seq<char>, int)>, key: Seq<char>, c: int, k: Seq<char>)
    ensures
        count_of(add_code(g, key, c), k) == count_of(g, k) + if k == key { c } else { 0 },
    decreases g.len(),
{
    let r = add_code(g, key, c);
    if g.len() == 0 {
        assert(r == seq![(key, c)]);
        assert(r.drop_first() =~= Seq::<(Seq<char>, int)>::empty());
        assert(count_of(r.drop_first(), k) == 0);
    } else if g[0].0 != key {
        lemma_add_code_count(g.drop_first(), key, c, k);
        assert(r == seq![g[0]] + add_code(g.drop_first(), key, c));
        assert(r[0] == g[0]);
        assert(r.drop_first() =~= add_code(g.drop_first(), key, c));
    } else {
        assert(r == g.update(0, (key, g[0].1 + c)));
        assert(r[0] == (key, g[0].1 + c));
        assert(r.drop_first() =~= g.drop_first());
    }
}

/// Adding under a key keeps the keys distinct; every key of the result is
/// an old key or the added one.
pub proof fn lemma_add_code_keys(g: Seq<(Seq<char>, int)>, key: Seq<char>, c: int)
    requires
        keys_distinct(g),
    ensures
        keys_distinct(add_code(g, key, c)),
        forall|i: int| 0 <= i < add_code(g, key, c).len() ==> exists|j: int|
            0 <= j < g.len() && (#[trigger] add_code(g, key, c)[i]).0 == g[j].0 || add_code(g, key, c)[i].0 == key,
    decreases g.len(),
{
    if g.len() > 0 && g[0].0 != key {
        let t = g.drop_first();
        lemma_add_code_keys(t, key, c);
        let r = add_code(g, key, c);
        let rt = add_code(t, key, c);
        assert(r == seq![g[0]] + rt);
        assert forall|i: int| 0 <= i < r.len() implies exists|j: int|
            0 <= j < g.len() && (#[trigger] r[i]).0 == g[j].0 || r[i].0 == key by {
            if i == 0 {
                assert(r[0].0 == g[0].0);
            } else {
                assert(r[i] == rt[i - 1]);
                if rt[i - 1].0 != key {
                    let j = choose|j: int| 0 <= j < t.len() && rt[i - 1].0 == t[j].0;
                    assert(t[j] == g[j + 1]);
                }
            }
        }
        assert forall|a: int, b: int| 0 <= a < b < r.len() implies (#[trigger] r[a]).0 != (#[trigger] r[b]).0 by {
            if a == 0 {
                assert(r[b] == rt[b - 1]);
                if rt[b - 1].0 != key {
                    let j = choose|j: int| 0 <= j < t.len() && rt[b - 1].0 == t[j].0;
                    assert(t[j] == g[j + 1]);
                }
            } else {
                assert(r[a] == rt[a - 1]);
                assert(r[b] == rt[b - 1]);
            }
        }
    } else if g.len() == 0 {
        assert(add_code(g, key, c) == seq![(key, c)]);
    } else {
        let r = add_code(g, key, c);
        assert(r == g.update(0, (key, g[0].1 + c)));
        assert forall|i: int| 0 <= i < r.len() implies exists|j: int|
            0 <= j < g.len() && (#[trigger] r[i]).0 == g[j].0 || r[i].0 == key by {
            assert(r[i].0 == g[i].0);
        }
        assert forall|a: int, b: int| 0 <= a < b < r.len() implies (#[trigger] r[a]).0 != (#[trigger] r[b]).0 by {
            assert(r[a].0 == g[a].0 && r[b].0 == g[b].0);
        }
    }
}

/// With distinct keys, the count of an entry's key is the entry's count.
pub proof fn lemma_count_of_at(d: Seq<(Seq<char>, int)>, i: int)
    requires
        keys_distinct(d),
        0 <= i < d.len(),
    ensures
        count_of(d, d[i].0) == d[i].1,
    decreases d.len(),
{
    if i > 0 {
        let t = d.drop_first();
        assert(keys_distinct(t)) by {
            assert forall|a: int, b: int| 0 <= a < b < t.len() implies (#[trigger] t[a]).0 != (#[trigger] t[b]).0 by {
                assert(t[a] == d[a + 1] && t[b] == d[b + 1]);
            }
        }
        assert(d[0].0 != d[i].0);
        lemma_count_of_at(t, i - 1);
    }
}

/// The code totals per language of the non-empty stats, languages in the
/// order they first appear.
pub open spec fn language_totals(stats: Seq<TokeiStat>) -> Seq<(Seq<char>, int)>
    decreases stats.len(),
{
    if stats.len() == 0 {
        Seq::empty()
    } else {
        let s = stats.last();
        if s.blanks == 0 && s.code == 0 && s.comments == 0 {
            language_totals(stats.drop_last())
        } else {
            add_code(language_totals(stats.drop_last()), s.language@, s.code as int)
        }
    }
}

/// `x` placed after every group of at least as much code.
pub open spec fn insert_by_code(sorted: Seq<(Seq<char>, int)>, x: (Seq<char>, int)) -> Seq<
    (Seq<char>, int),
>
    decreases sorted.len(),
{
    if sorted.len() == 0 {
        seq![x]
    } else if sorted.last().1 >= x.1 {
        sorted.push(x)
    } else {
        insert_by_code(sorted.drop_last(), x).push(sorted.last())
    }
}

/// `groups` by code, most first; groups with equal code keep their order.
pub open spec fn by_code_descending(groups: Seq<(Seq<char>, int)>) -> Seq<(Seq<char>, int)>
    decreases groups.len(),
{
    if groups.len() == 0 {
        Seq::empty()
    } else {
        insert_by_code(by_code_descending(groups.drop_last()), groups.last())
    }
}

/// The summary: the languages with the most code (the first `top_n` of
/// them when set), each with its code as decimal text.
pub open spec fn summary(stats: Seq<TokeiStat>, top_n: Option<usize>) -> Seq<(Seq<char>, Seq<char>)> {
    let sorted = by_code_descending(language_totals(stats));
    let kept = match top_n {
        Some(n) => if n < sorted.len() {
            sorted.take(n as int)
        } else {
            sorted
        },
        None => sorted,
    };
    kept.map_values(|g: (Seq<char>, int)| (g.0, decimal(g.1 as nat)))
}

/// The views of summary rows.
pub open spec fn row_views(rows: Seq<(String, String)>) -> Seq<(Seq<char>, Seq<char>)> {
    rows.map_values(|r: (String, String)| (r.0@, r.1@))
}

/// The views of groups.
pub open spec fn group_views(groups: Seq<(String, usize)>) -> Seq<(Seq<char>, int)> {
    groups.map_values(|g: (String, usize)| (g.0@, g.1 as int))
}

/// Adding to a language already grouped adds to its first group.
pub proof fn lemma_add_code_found(groups: Seq<(Seq<char>, int)>, language: Seq<char>, code: int, i: int)
    requires
        0 <= i < groups.len(),
        groups[i].0 == language,
        forall|j: int| 0 <= j < i ==> groups[j].0 != language,
    ensures
        add_code(groups, language, code) == groups.update(i, (language, groups[i].1 + code)),
    decreases groups.len(),
{
    if i > 0 {
        lemma_add_code_found(groups.drop_first(), language, code, i - 1);
        assert(add_code(groups, language, code) =~= groups.update(
            i,
            (language, groups[i].1 + code),
        ));
    }
}

/// Adding to a language not yet grouped appends a group.
pub proof fn lemma_add_code_new(groups: Seq<(Seq<char>, int)>, language: Seq<char>, code: int)
    requires
        forall|j: int| 0 <= j < groups.len() ==> groups[j].0 != language,
    ensures
        add_code(groups, language, code) == groups.push((language, code)),
    decreases groups.len(),
{
    if groups.len() > 0 {
        lemma_add_code_new(groups.drop_first(), language, code);
        assert(add_code(groups, language, code) =~= groups.push((language, code)));
    }
}

proof fn lemma_insert_by_code_at(sorted: Seq<(Seq<char>, int)>, x: (Seq<char>, int), p: int)
    requires
        0 <= p <= sorted.len(),
        forall|j: int| p <= j < sorted.len() ==> #[trigger] sorted[j].1 < x.1,
        p > 0 ==> sorted[p - 1].1 >= x.1,
    ensures
        insert_by_code(sorted, x) == sorted.insert(p, x),
    decreases sorted.len(),
{
    if sorted.len() == 0 {
        assert(sorted.insert(p, x) =~= seq![x]);
    } else if p == sorted.len() {
        assert(sorted.insert(p, x) =~= sorted.push(x));
    } else {
        lemma_insert_by_code_at(sorted.drop_last(), x, p);
        assert(sorted.insert(p, x) =~= sorted.drop_last().insert(p, x).push(sorted.last()));
    }
}

/// The code of the non-empty stats in `language`.
pub open spec fn code_of(stats: Seq<TokeiStat>, language: Seq<char>) -> int
    decreases stats.len(),
{
    if stats.len() == 0 {
        0
    } else {
        let s = stats.last();
        code_of(stats.drop_last(), language) + if !(s.blanks == 0 && s.code == 0 && s.comments == 0)
            && s.language@ == language {
            s.code as int
        } else {
            0
        }
    }
}

proof fn lemma_totals_count(stats: Seq<TokeiStat>)
    ensures
        keys_distinct(language_totals(stats)),
        forall|l: Seq<char>| #[trigger] count_of(language_totals(stats), l) == code_of(stats, l),
    decreases stats.len(),
{
    if stats.len() == 0 {
        assert forall|l: Seq<char>| #[trigger] count_of(language_totals(stats), l) == code_of(stats, l) by {
        }
    } else {
        lemma_totals_count(stats.drop_last());
        let s = stats.last();
        let g = language_totals(stats.drop_last());
        if !(s.blanks == 0 && s.code == 0 && s.comments == 0) {
            lemma_add_code_keys(g, s.language@, s.code as int);
            assert forall|l: Seq<char>| #[trigger] count_of(language_totals(stats), l) == code_of(stats, l) by {
                lemma_add_code_count(g, s.language@, s.code as int, l);
            }
        } else {
            assert forall|l: Seq<char>| #[trigger] count_of(language_totals(stats), l) == code_of(stats, l) by {
            }
        }
    }
}

proof fn lemma_code_of_prefix(stats: Seq<TokeiStat>, k: int, l: Seq<char>)
    requires
        0 <= k <= stats.len(),
    ensures
        0 <= code_of(stats.take(k), l) <= code_of(stats, l),
    decreases stats.len(),
{
    if k < stats.len() {
        lemma_code_of_prefix(stats.drop_last(), k, l);
        assert(stats.drop_last().take(k) =~= stats.take(k));
    } else {
        assert(stats.take(k) =~= stats);
        lemma_code_of_nonneg(stats, l);
    }
}

proof fn lemma_code_of_nonneg(stats: Seq<TokeiStat>, l: Seq<char>)
    ensures
        code_of(stats, l) >= 0,
    decreases stats.len(),
{
    if stats.len() > 0 {
        lemma_code_of_nonneg(stats.drop_last(), l);
    }
}

/// The code totals per language of the non-empty stats, languages in the
/// order they first appear.
fn totals_by_language(stats: &Vec<TokeiStat>) -> (r: Vec<(String, usize)>)
    requires
        forall|l: Seq<char>| #[trigger] code_of(stats@, l) <= usize::MAX,
    ensures
        group_views(r@) == language_totals(stats@),
{
    let mut groups: Vec<(String, usize)> = Vec::new();
    let mut i: usize = 0;
    proof {
        assert(stats@.take(0) =~= Seq::<TokeiStat>::empty());
        assert(group_views(groups@) =~= Seq::<(Seq<char>, int)>::empty());
    }
    while i < stats.len()
        invariant
            i <= stats@.len(),
            forall|l: Seq<char>| #[trigger] code_of(stats@, l) <= usize::MAX,
            group_views(groups@) == language_totals(stats@.take(i as int)),
        decreases stats.len() - i,
    {
        let s = &stats[i];
        let ghost pre = stats@.take(i as int);
        proof {
            assert(stats@.take(i + 1).drop_last() =~= pre);
            assert(stats@.take(i + 1).last() == *s);
        }
        if !(s.blanks == 0 && s.code == 0 && s.comments == 0) {
            let ghost g = group_views(groups@);
            proof {
                lemma_totals_count(pre);
                lemma_code_of_prefix(stats@, i + 1, s.language@);
                assert(code_of(stats@.take(i + 1), s.language@) == code_of(pre, s.language@) + s.code);
            }
            let mut k: usize = 0;
            let mut found = false;
            while k < groups.len() && !found
                invariant
                    g == group_views(groups@),
                    k <= groups@.len(),
                    found ==> k > 0 && g[k - 1].0 == s.language@,
                    forall|j: int| 0 <= j < (if found { k - 1 } else { k as int }) ==> (#[trigger] g[j]).0 != s.language@,
                decreases groups.len() - k,
            {
                if str_eq(groups[k].0.as_str(), s.language.as_str()) {
                    found = true;
                }
                k += 1;
            }
            if found {
                let at = k - 1;
                proof {
                    lemma_add_code_found(g, s.language@, s.code as int, at as int);
                    lemma_count_of_at(g, at as int);
                    assert(g[at as int].1 + s.code <= usize::MAX);
                }
                let total: usize = groups[at].1 + s.code;
                let name = groups[at].0.clone();
                groups.set(at, (name, total));
                proof {
                    assert(group_views(groups@) =~= g.update(
                        at as int,
                        (s.language@, g[at as int].1 + s.code),
                    ));
                }
            } else {
                proof {
                    lemma_add_code_new(g, s.language@, s.code as int);
                }
                let name = s.language.clone();
                groups.push((name, s.code));
                proof {
                    assert(group_views(groups@) =~= g.push((s.language@, s.code as int)));
                }
            }
        }
        i += 1;
    }
    proof {
        assert(stats@.take(stats@.len() as int) =~= stats@);
    }
    groups
}

/// `groups` by code, most first, equal code keeping its order.
fn sort_by_code(groups: Vec<(String, usize)>) -> (r: Vec<(String, usize)>)
    ensures
        group_views(r@) == by_code_descending(group_views(groups@)),
{
    let ghost gv = group_views(groups@);
    let mut sorted: Vec<(String, usize)> = Vec::new();
    let mut i: usize = 0;
    proof {
        assert(gv.take(0) =~= Seq::<(Seq<char>, int)>::empty());
        assert(group_views(sorted@) =~= Seq::<(Seq<char>, int)>::empty());
    }
    while i < groups.len()
        invariant
            gv == group_views(groups@),
            i <= gv.len(),
            group_views(sorted@) == by_code_descending(gv.take(i as int)),
        decreases groups.len() - i,
    {
        let code = groups[i].1;
        let ghost sv = group_views(sorted@);
        let mut p: usize = sorted.len();
        while p > 0 && sorted[p - 1].1 < code
            invariant
                sv == group_views(sorted@),
                p <= sv.len(),
                forall|j: int| p <= j < sv.len() ==> #[trigger] sv[j].1 < code,
            decreases p,
        {
            p -= 1;
        }
        let item = (groups[i].0.clone(), code);
        proof {
            assert(gv.take(i + 1).drop_last() =~= gv.take(i as int));
            assert(gv.take(i + 1).last() == (item.0@, code as int));
            lemma_insert_by_code_at(sv, (item.0@, code as int), p as int);
        }
        sorted.insert(p, item);
        proof {
            assert(group_views(sorted@) =~= sv.insert(p as int, (item.0@, code as int)));
        }
        i += 1;
    }
    proof {
        assert(gv.take(gv.len() as int) =~= gv);
    }
    sorted
}

impl TokeiCollector {
    /// The languages with the most code among `stats` (empty stats left
    /// out), most code first, the first `top_n` of them when set, each with
    /// its code as decimal text.
    pub fn summarize_tree_data(&self, stats: &Vec<TokeiStat>) -> (r: Vec<(String, String)>)
        requires
            forall|l: Seq<char>| #[trigger] code_of(stats@, l) <= usize::MAX,
        ensures
            row_views(r@) == summary(stats@, self.top_n_spec()),
    {
        let groups = totals_by_language(stats);
        let sorted = sort_by_code(groups);
        let ghost sv = group_views(sorted@);
        let keep: usize = match self.top_n {
            Some(n) => if n < sorted.len() {
                n
            } else {
                sorted.len()
            },
            None => sorted.len(),
        };
        let ghost kept = sv.take(keep as int);
        let mut rows: Vec<(String, String)> = Vec::new();
        let mut k: usize = 0;
        while k < keep
            invariant
                sv == group_views(sorted@),
                keep <= sv.len(),
                k <= keep,
                row_views(rows@) == sv.take(k as int).map_values(
                    |g: (Seq<char>, int)| (g.0, decimal(g.1 as nat)),
                ),
            decreases keep - k,
        {
            let name = sorted[k].0.clone();
            let text = decimal_text(sorted[k].1 as u64);
            let ghost before = row_views(rows@);
            rows.push((name, text));
            proof {
                assert(row_views(rows@) =~= before.push((sv[k as int].0, decimal(sv[k as int].1 as nat))));
                assert(sv.take(k + 1).map_values(|g: (Seq<char>, int)| (g.0, decimal(g.1 as nat)))
                    =~= sv.take(k as int).map_values(
                    |g: (Seq<char>, int)| (g.0, decimal(g.1 as nat)),
                ).push((sv[k as int].0, decimal(sv[k as int].1 as nat))));
            }
            k += 1;
        }
        proof {
            let full = by_code_descending(language_totals(stats@));
            assert(sv == full);
            if keep == sv.len() {
                assert(sv.take(keep as int) =~= sv);
            }
        }
        rows
    }
}

} // verus!
