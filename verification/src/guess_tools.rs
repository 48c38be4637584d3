//! Tool detection: which tools a repository uses, judged by the files it
//! tracks. A tool is known by file patterns (a file of that name anywhere, a
//! path from the root when the pattern starts with '/', a glob when it holds
//! '*') and by directory patterns (a path component of that name, a path
//! prefix from the root, or a glob).
use crate::glob_pattern::{glob_compiles, glob_matches, glob_is_match, CompiledPattern};
use crate::paths::{
    file_name_or_empty, is_normal_part, lemma_normal_parts_join, lemma_split_slash_join,
    lemma_split_slash_single, normal_components, normal_parts, path_file_name_or_empty,
    path_normal_components, split_slash,
};
use crate::text::{
    chars_eq, chars_of, has_prefix, same_strings, sorted_unique, starts_with, str_eq,
    strictly_sorted, views_of,
};
use vstd::prelude::*;

verus! {

/// How many files one wildcard file pattern reports at most.
pub const MAX_WILDCARD_MATCHES: usize = 10;

/// One tool as the definitions file describes it.
pub struct ToolDefinition {
    pub name: String,
    pub files: Option<Vec<String>>,
    pub dirs: Option<Vec<String>>,
}

/// A tool with its patterns compiled; empty patterns are left out.
pub struct CompiledToolRule {
    pub name: String,
    pub file_patterns: Vec<CompiledPattern>,
    pub dir_patterns: Vec<CompiledPattern>,
}

/// What was found of one tool: the files its file patterns picked and the
/// directory patterns that matched, each sorted and without repetitions.
pub struct ToolMatchDetails {
    pub name: String,
    pub matching_files_from_file_rules: Vec<String>,
    pub matched_dir_patterns: Vec<String>,
}

/// Why a set of tool definitions could not be compiled.
#[derive(Debug)]
pub enum ToolDefinitionError {
    /// globset refused `pattern` of the tool `tool`.
    InvalidGlob { tool: String, pattern: String },
}

// ---------------------------------------------------------------------------
// Compiling definitions
// ---------------------------------------------------------------------------
/// The patterns of an optional list; none when the list is absent.
pub open spec fn listed(o: Option<Vec<String>>) -> Seq<Seq<char>> {
    match o {
        Some(v) => views_of(v@),
        None => Seq::empty(),
    }
}

/// The non-empty patterns of `ps`, in order.
pub open spec fn nonempty_patterns(ps: Seq<Seq<char>>) -> Seq<Seq<char>>
    decreases ps.len(),
{
    if ps.len() == 0 {
        Seq::empty()
    } else if ps.last().len() > 0 {
        nonempty_patterns(ps.drop_last()).push(ps.last())
    } else {
        nonempty_patterns(ps.drop_last())
    }
}

/// The texts of compiled patterns.
pub open spec fn pattern_texts(ps: Seq<CompiledPattern>) -> Seq<Seq<char>> {
    ps.map_values(|p: CompiledPattern| p.pattern_text())
}

/// `ps`, each paired with the tool name `name`.
pub open spec fn tagged(name: Seq<char>, ps: Seq<Seq<char>>) -> Seq<(Seq<char>, Seq<char>)> {
    ps.map_values(|p: Seq<char>| (name, p))
}

/// The (tool, pattern) pairs that compiling `d` compiles, in order: its file
/// patterns, then its directory patterns.
pub open spec fn definition_patterns(d: ToolDefinition) -> Seq<(Seq<char>, Seq<char>)> {
    tagged(d.name@, nonempty_patterns(listed(d.files))) + tagged(
        d.name@,
        nonempty_patterns(listed(d.dirs)),
    )
}

/// The (tool, pattern) pairs of all definitions, in order.
pub open spec fn all_definition_patterns(defs: Seq<ToolDefinition>) -> Seq<(Seq<char>, Seq<char>)>
    decreases defs.len(),
{
    if defs.len() == 0 {
        Seq::empty()
    } else {
        all_definition_patterns(defs.drop_last()) + definition_patterns(defs.last())
    }
}

/// The first pair whose pattern globset refuses.
pub open spec fn first_invalid(ps: Seq<(Seq<char>, Seq<char>)>) -> Option<(Seq<char>, Seq<char>)>
    decreases ps.len(),
{
    if ps.len() == 0 {
        None
    } else {
        match first_invalid(ps.drop_last()) {
            Some(x) => Some(x),
            None => if glob_compiles(ps.last().1) {
                None
            } else {
                Some(ps.last())
            },
        }
    }
}

/// `r` is `d` compiled.
pub open spec fn compiled_from(r: CompiledToolRule, d: ToolDefinition) -> bool {
    &&& r.name@ == d.name@
    &&& pattern_texts(r.file_patterns@) == nonempty_patterns(listed(d.files))
    &&& pattern_texts(r.dir_patterns@) == nonempty_patterns(listed(d.dirs))
}

/// The error for the refused pair `bad`.
pub open spec fn is_invalid_glob(e: ToolDefinitionError, bad: (Seq<char>, Seq<char>)) -> bool {
    match e {
        ToolDefinitionError::InvalidGlob { tool, pattern } => tool@ == bad.0 && pattern@ == bad.1,
    }
}

/// The first invalid pattern of two lists joined is that of the first
/// list, or else that of the second.
pub proof fn lemma_first_invalid_append(a: Seq<(Seq<char>, Seq<char>)>, b: Seq<(Seq<char>, Seq<char>)>)
    ensures
        first_invalid(a + b) == match first_invalid(a) {
            Some(x) => Some(x),
            None => first_invalid(b),
        },
    decreases b.len(),
{
    if b.len() == 0 {
        assert(a + b =~= a);
    } else {
        lemma_first_invalid_append(a, b.drop_last());
        assert((a + b).drop_last() =~= a + b.drop_last());
        assert((a + b).last() == b.last());
    }
}

proof fn lemma_all_patterns_prefix(defs: Seq<ToolDefinition>, k: int)
    requires
        0 <= k <= defs.len(),
    ensures
        exists|s: Seq<(Seq<char>, Seq<char>)>|
            all_definition_patterns(defs) == all_definition_patterns(defs.take(k)) + s,
    decreases defs.len(),
{
    if k == defs.len() {
        assert(defs.take(k) =~= defs);
        assert(all_definition_patterns(defs) =~= all_definition_patterns(defs.take(k))
            + Seq::empty());
    } else {
        lemma_all_patterns_prefix(defs.drop_last(), k);
        assert(defs.drop_last().take(k) =~= defs.take(k));
        let s = choose|s: Seq<(Seq<char>, Seq<char>)>|
            all_definition_patterns(defs.drop_last()) == all_definition_patterns(
                defs.drop_last().take(k),
            ) + s;
        assert(all_definition_patterns(defs) =~= all_definition_patterns(defs.take(k)) + (s
            + definition_patterns(defs.last())));
    }
}

/// Compiles the non-empty patterns of `ps`, each a pattern of the tool `name`.
fn compile_patterns(name: &String, ps: &Option<Vec<String>>) -> (r: Result<
    Vec<CompiledPattern>,
    ToolDefinitionError,
>)
    ensures
        match first_invalid(tagged(name@, nonempty_patterns(listed(*ps)))) {
            Some(bad) => r matches Err(e) && is_invalid_glob(e, bad),
            None => r matches Ok(v) && pattern_texts(v@) == nonempty_patterns(listed(*ps)),
        },
{
    let mut out: Vec<CompiledPattern> = Vec::new();
    match ps {
        None => {
            proof {
                assert(pattern_texts(out@) =~= nonempty_patterns(listed(*ps)));
            }
            Ok(out)
        },
        Some(v) => {
            let ghost all = views_of(v@);
            let mut i: usize = 0;
            proof {
                assert(all.take(0) =~= Seq::<Seq<char>>::empty());
                assert(pattern_texts(out@) =~= Seq::<Seq<char>>::empty());
                assert(tagged(name@, Seq::<Seq<char>>::empty()) =~= Seq::empty());
            }
            while i < v.len()
                invariant
                    all == views_of(v@),
                    listed(*ps) == all,
                    i <= v@.len(),
                    pattern_texts(out@) == nonempty_patterns(all.take(i as int)),
                    first_invalid(tagged(name@, nonempty_patterns(all.take(i as int)))) is None,
                decreases v.len() - i,
            {
                let p = &v[i];
                proof {
                    assert(all.take(i + 1).drop_last() =~= all.take(i as int));
                    assert(all.take(i + 1).last() == p@);
                }
                if p.as_str().unicode_len() > 0 {
                    proof {
                        assert(p@.len() > 0);
                        let before = nonempty_patterns(all.take(i as int));
                        assert(tagged(name@, before.push(p@)) =~= tagged(name@, before).push(
                            (name@, p@),
                        ));
                        assert(tagged(name@, before.push(p@)).drop_last() =~= tagged(
                            name@,
                            before,
                        ));
                    }
                    match CompiledPattern::compile(p.as_str()) {
                        Some(c) => {
                            let ghost before = pattern_texts(out@);
                            out.push(c);
                            proof {
                                assert(pattern_texts(out@) =~= before.push(p@));
                            }
                        },
                        None => {
                            proof {
                                let k: int = i + 1;
                                let pre = tagged(name@, nonempty_patterns(all.take(k)));
                                lemma_tagged_prefix(name@, all, k);
                                let s = choose|s: Seq<Seq<char>>|
                                    nonempty_patterns(all) == nonempty_patterns(all.take(k)) + s;
                                assert(tagged(name@, nonempty_patterns(all)) =~= pre + tagged(
                                    name@,
                                    s,
                                ));
                                lemma_first_invalid_append(pre, tagged(name@, s));
                                assert(first_invalid(pre) == Some((name@, p@)));
                            }
                            let tool = name.clone();
                            let pattern = p.clone();
                            return Err(
                                ToolDefinitionError::InvalidGlob {
                                    tool,
                                    pattern,
                                },
                            );
                        },
                    }
                } else {
                    proof {
                        assert(p@.len() == 0);
                    }
                }
                i += 1;
            }
            proof {
                assert(all.take(v@.len() as int) =~= all);
            }
            Ok(out)
        },
    }
}

proof fn lemma_tagged_prefix(name: Seq<char>, all: Seq<Seq<char>>, k: int)
    requires
        0 <= k <= all.len(),
    ensures
        exists|s: Seq<Seq<char>>| nonempty_patterns(all) == nonempty_patterns(all.take(k)) + s,
    decreases all.len(),
{
    if k == all.len() {
        assert(all.take(k) =~= all);
        assert(nonempty_patterns(all) =~= nonempty_patterns(all.take(k)) + Seq::empty());
    } else {
        lemma_tagged_prefix(name, all.drop_last(), k);
        assert(all.drop_last().take(k) =~= all.take(k));
        let s = choose|s: Seq<Seq<char>>|
            nonempty_patterns(all.drop_last()) == nonempty_patterns(all.drop_last().take(k)) + s;
        if all.last().len() > 0 {
            assert(nonempty_patterns(all) =~= nonempty_patterns(all.take(k)) + s.push(
                all.last(),
            ));
        } else {
            assert(nonempty_patterns(all) =~= nonempty_patterns(all.take(k)) + s);
        }
    }
}

/// Compiles the tool definitions, in order. Fails on the first pattern that
/// globset refuses, naming it and its tool.
pub fn compile_tool_definitions(defs: &Vec<ToolDefinition>) -> (r: Result<
    Vec<CompiledToolRule>,
    ToolDefinitionError,
>)
    ensures
        match first_invalid(all_definition_patterns(defs@)) {
            Some(bad) => r matches Err(e) && is_invalid_glob(e, bad),
            None => r matches Ok(rules) && rules.len() == defs.len() && forall|i: int|
                0 <= i < rules.len() ==> compiled_from(#[trigger] rules@[i], defs@[i]),
        },
{
    let mut rules: Vec<CompiledToolRule> = Vec::new();
    let mut i: usize = 0;
    proof {
        assert(defs@.take(0) =~= Seq::<ToolDefinition>::empty());
    }
    while i < defs.len()
        invariant
            i <= defs@.len(),
            rules@.len() == i,
            forall|j: int| 0 <= j < i ==> compiled_from(#[trigger] rules@[j], defs@[j]),
            first_invalid(all_definition_patterns(defs@.take(i as int))) is None,
        decreases defs.len() - i,
    {
        let d = &defs[i];
        let ghost prefix = all_definition_patterns(defs@.take(i as int));
        proof {
            assert(defs@.take(i + 1).drop_last() =~= defs@.take(i as int));
            assert(defs@.take(i + 1).last() == *d);
            assert(all_definition_patterns(defs@.take(i + 1)) == prefix + definition_patterns(
                *d,
            ));
            lemma_first_invalid_append(
                prefix,
                definition_patterns(*d),
            );
            lemma_first_invalid_append(
                tagged(d.name@, nonempty_patterns(listed(d.files))),
                tagged(d.name@, nonempty_patterns(listed(d.dirs))),
            );
            let k: int = i + 1;
            lemma_all_patterns_prefix(defs@, k);
            let s = choose|s: Seq<(Seq<char>, Seq<char>)>|
                all_definition_patterns(defs@) == all_definition_patterns(defs@.take(k)) + s;
            lemma_first_invalid_append(all_definition_patterns(defs@.take(k)), s);
        }
        let file_patterns = match compile_patterns(&d.name, &d.files) {
            Ok(v) => v,
            Err(e) => {
                return Err(e);
            },
        };
        let dir_patterns = match compile_patterns(&d.name, &d.dirs) {
            Ok(v) => v,
            Err(e) => {
                return Err(e);
            },
        };
        rules.push(CompiledToolRule { name: d.name.clone(), file_patterns, dir_patterns });
        i += 1;
    }
    proof {
        assert(defs@.take(defs@.len() as int) =~= defs@);
    }
    Ok(rules)
}

// ---------------------------------------------------------------------------
// Matching
// ---------------------------------------------------------------------------
/// `p` is anchored at the repository root.
pub open spec fn rooted(p: Seq<char>) -> bool {
    p.len() > 0 && p[0] == '/'
}

/// Whether the file pattern `p` picks the file at `path`: a glob is matched
/// against the whole path, a rooted pattern must be the whole path, any other
/// pattern must be the file's name.
pub open spec fn file_rule_hit(p: Seq<char>, path: Seq<char>) -> bool {
    if p.contains('*') {
        glob_matches(p, path)
    } else if rooted(p) {
        path == p.drop_first()
    } else {
        file_name_or_empty(path) == p
    }
}

/// Whether the directory pattern `p` is met by the file at `path`: a glob is
/// matched against the whole path, a rooted pattern must begin the path, any
/// other pattern must be one of the path's components.
pub open spec fn dir_rule_hit(p: Seq<char>, path: Seq<char>) -> bool {
    if p.contains('*') {
        glob_matches(p, path)
    } else if rooted(p) {
        has_prefix(path, p.drop_first())
    } else {
        normal_components(path).contains(p)
    }
}

/// A plain directory pattern (no glob, not rooted) that names a single
/// directory is met by every path through a directory of that name, at any
/// depth: by `d/p/f` for any leading path `d` and any rest `f`, and by
/// `p/f`.
pub proof fn lemma_plain_dir_met_at_any_depth(p: Seq<char>, d: Seq<char>, f: Seq<char>)
    requires
        !p.contains('*'),
        !rooted(p),
        !p.contains('/'),
        is_normal_part(p),
    ensures
        dir_rule_hit(p, d + seq!['/'] + p + seq!['/'] + f),
        dir_rule_hit(p, p + seq!['/'] + f),
{
    lemma_split_slash_single(p);
    lemma_split_slash_join(d, p);
    lemma_split_slash_join(d + seq!['/'] + p, f);
    let ps = split_slash(d) + seq![p] + split_slash(f);
    assert(split_slash(d + seq!['/'] + p + seq!['/'] + f) == ps);
    lemma_normal_parts_join(split_slash(d) + seq![p], split_slash(f));
    lemma_normal_parts_join(split_slash(d), seq![p]);
    assert(normal_parts(seq![p]) =~= seq![p]) by {
        assert(seq![p].drop_last() =~= Seq::<Seq<char>>::empty());
        assert(normal_parts(Seq::<Seq<char>>::empty()) =~= Seq::<Seq<char>>::empty());
        assert(seq![p].last() == p);
    }
    let n = normal_parts(split_slash(d)) + seq![p] + normal_parts(split_slash(f));
    assert(n[normal_parts(split_slash(d)).len() as int] == p);
    assert(normal_components(d + seq!['/'] + p + seq!['/'] + f).contains(p));
    lemma_split_slash_join(p, f);
    lemma_normal_parts_join(seq![p], split_slash(f));
    assert((seq![p] + normal_parts(split_slash(f)))[0] == p);
    assert(normal_components(p + seq!['/'] + f).contains(p));
}

/// A plain directory pattern is met only by a path that has it as one of
/// its '/'-separated pieces.
pub proof fn lemma_plain_dir_is_a_piece(p: Seq<char>, path: Seq<char>)
    requires
        !p.contains('*'),
        !rooted(p),
        dir_rule_hit(p, path),
    ensures
        split_slash(path).contains(p),
{
    let ps = split_slash(path);
    let i = choose|i: int| 0 <= i < normal_parts(ps).len() && normal_parts(ps)[i] == p;
    let j = lemma_normal_part_index(ps, i);
    assert(ps[j] == p);
}

proof fn lemma_normal_part_index(ps: Seq<Seq<char>>, i: int) -> (j: int)
    requires
        0 <= i < normal_parts(ps).len(),
    ensures
        0 <= j < ps.len(),
        ps[j] == normal_parts(ps)[i],
    decreases ps.len(),
{
    let front = ps.drop_last();
    if is_normal_part(ps.last()) && i == normal_parts(ps).len() - 1 {
        ps.len() - 1
    } else {
        let j = lemma_normal_part_index(front, i);
        assert(ps[j] == front[j]);
        j
    }
}

/// The files that the file pattern `p` picks, in order.
pub open spec fn file_hits(p: Seq<char>, files: Seq<Seq<char>>) -> Seq<Seq<char>>
    decreases files.len(),
{
    if files.len() == 0 {
        Seq::empty()
    } else if file_rule_hit(p, files.last()) {
        file_hits(p, files.drop_last()).push(files.last())
    } else {
        file_hits(p, files.drop_last())
    }
}

/// `hits`, cut to its first `MAX_WILDCARD_MATCHES` when `p` is a glob.
pub open spec fn capped(p: Seq<char>, hits: Seq<Seq<char>>) -> Seq<Seq<char>> {
    if p.contains('*') && hits.len() > MAX_WILDCARD_MATCHES {
        hits.take(MAX_WILDCARD_MATCHES as int)
    } else {
        hits
    }
}

/// What the file pattern `p` reports: its hits, of a glob only the first
/// `MAX_WILDCARD_MATCHES`.
pub open spec fn file_pattern_matches(p: Seq<char>, files: Seq<Seq<char>>) -> Seq<Seq<char>> {
    capped(p, file_hits(p, files))
}

/// A glob file pattern reports at most `MAX_WILDCARD_MATCHES` files.
pub proof fn lemma_glob_reports_are_capped(p: Seq<char>, files: Seq<Seq<char>>)
    requires
        p.contains('*'),
    ensures
        file_pattern_matches(p, files).len() <= MAX_WILDCARD_MATCHES,
{
}

/// Every file a file pattern reports is one of the listed files and is hit
/// by the pattern.
pub proof fn lemma_reported_files_are_hits(p: Seq<char>, files: Seq<Seq<char>>)
    ensures
        forall|i: int|
            0 <= i < file_pattern_matches(p, files).len() ==> file_rule_hit(
                p,
                #[trigger] file_pattern_matches(p, files)[i],
            ) && files.contains(file_pattern_matches(p, files)[i]),
{
    lemma_hits_are_hits(p, files);
}

proof fn lemma_hits_are_hits(p: Seq<char>, files: Seq<Seq<char>>)
    ensures
        forall|i: int|
            0 <= i < file_hits(p, files).len() ==> file_rule_hit(p, #[trigger] file_hits(p, files)[i])
                && files.contains(file_hits(p, files)[i]),
    decreases files.len(),
{
    if files.len() > 0 {
        let rest = files.drop_last();
        lemma_hits_are_hits(p, rest);
        assert forall|i: int| 0 <= i < file_hits(p, files).len() implies file_rule_hit(
            p,
            #[trigger] file_hits(p, files)[i],
        ) && files.contains(file_hits(p, files)[i]) by {
            if i < file_hits(p, rest).len() {
                let j = choose|j: int| 0 <= j < rest.len() && rest[j] == file_hits(p, rest)[i];
                assert(files[j] == rest[j]);
            } else {
                assert(files[files.len() - 1] == files.last());
            }
        }
    }
}

/// What the file patterns `ps` report together, pattern after pattern.
pub open spec fn rule_file_matches(ps: Seq<Seq<char>>, files: Seq<Seq<char>>) -> Seq<Seq<char>>
    decreases ps.len(),
{
    if ps.len() == 0 {
        Seq::empty()
    } else {
        rule_file_matches(ps.drop_last(), files) + file_pattern_matches(ps.last(), files)
    }
}

/// Some file meets the directory pattern `p`.
pub open spec fn dir_pattern_met(p: Seq<char>, files: Seq<Seq<char>>) -> bool {
    exists|i: int| 0 <= i < files.len() && dir_rule_hit(p, #[trigger] files[i])
}

/// The directory patterns of `ps` that some file meets, in order.
pub open spec fn rule_dir_matches(ps: Seq<Seq<char>>, files: Seq<Seq<char>>) -> Seq<Seq<char>>
    decreases ps.len(),
{
    if ps.len() == 0 {
        Seq::empty()
    } else if dir_pattern_met(ps.last(), files) {
        rule_dir_matches(ps.drop_last(), files).push(ps.last())
    } else {
        rule_dir_matches(ps.drop_last(), files)
    }
}

/// The files that the rule `r` picks, before sorting.
pub open spec fn rule_files(r: CompiledToolRule, files: Seq<Seq<char>>) -> Seq<Seq<char>> {
    rule_file_matches(pattern_texts(r.file_patterns@), files)
}

/// The directory patterns of the rule `r` that matched, before sorting.
pub open spec fn rule_dirs(r: CompiledToolRule, files: Seq<Seq<char>>) -> Seq<Seq<char>> {
    rule_dir_matches(pattern_texts(r.dir_patterns@), files)
}

/// The rule `r` found something.
pub open spec fn rule_detected(r: CompiledToolRule, files: Seq<Seq<char>>) -> bool {
    rule_files(r, files).len() > 0 || rule_dirs(r, files).len() > 0
}

/// The rules that found something, in order.
pub open spec fn detected_rules(rules: Seq<CompiledToolRule>, files: Seq<Seq<char>>) -> Seq<
    CompiledToolRule,
>
    decreases rules.len(),
{
    if rules.len() == 0 {
        Seq::empty()
    } else if rule_detected(rules.last(), files) {
        detected_rules(rules.drop_last(), files).push(rules.last())
    } else {
        detected_rules(rules.drop_last(), files)
    }
}

/// `d` reports what the rule `r` found among `files`.
pub open spec fn reports(d: ToolMatchDetails, r: CompiledToolRule, files: Seq<Seq<char>>) -> bool {
    &&& d.name@ == r.name@
    &&& strictly_sorted(views_of(d.matching_files_from_file_rules@))
    &&& same_strings(views_of(d.matching_files_from_file_rules@), rule_files(r, files))
    &&& strictly_sorted(views_of(d.matched_dir_patterns@))
    &&& same_strings(views_of(d.matched_dir_patterns@), rule_dirs(r, files))
}

/// `s` without its first character.
fn drop_first_char(s: &[char]) -> (r: Vec<char>)
    requires
        s@.len() > 0,
    ensures
        r@ == s@.drop_first(),
{
    let mut out: Vec<char> = Vec::new();
    let mut i: usize = 1;
    while i < s.len()
        invariant
            1 <= i <= s@.len(),
            out@ == s@.subrange(1, i as int),
        decreases s.len() - i,
    {
        out.push(s[i]);
        i += 1;
        proof {
            assert(out@ =~= s@.subrange(1, i as int));
        }
    }
    proof {
        assert(out@ =~= s@.drop_first());
    }
    out
}

/// Whether the file pattern `p` picks the file at `path`.
fn file_hit(p: &CompiledPattern, path: &String) -> (r: bool)
    ensures
        r == file_rule_hit(p.pattern_text(), path@),
{
    if p.is_wildcard() {
        return glob_is_match(p, path.as_str());
    }
    let pc = chars_of(p.original_pattern().as_str());
    if pc.len() > 0 && pc[0] == '/' {
        let rest = drop_first_char(pc.as_slice());
        let fc = chars_of(path.as_str());
        chars_eq(fc.as_slice(), rest.as_slice())
    } else {
        let name = path_file_name_or_empty(path.as_str());
        str_eq(name.as_str(), p.original_pattern().as_str())
    }
}

/// Whether the directory pattern `p` is met by the file at `path`.
fn dir_hit(p: &CompiledPattern, path: &String) -> (r: bool)
    ensures
        r == dir_rule_hit(p.pattern_text(), path@),
{
    if p.is_wildcard() {
        return glob_is_match(p, path.as_str());
    }
    let pc = chars_of(p.original_pattern().as_str());
    let fc = chars_of(path.as_str());
    if pc.len() > 0 && pc[0] == '/' {
        let rest = drop_first_char(pc.as_slice());
        starts_with(fc.as_slice(), rest.as_slice())
    } else {
        let comps = path_normal_components(path.as_str());
        let ghost cv = views_of(comps@);
        let mut k: usize = 0;
        while k < comps.len()
            invariant
                cv == views_of(comps@),
                cv == normal_components(path@),
                pc@ == p.pattern_text(),
                !p.pattern_text().contains('*'),
                !rooted(p.pattern_text()),
                k <= comps@.len(),
                forall|j: int| 0 <= j < k ==> cv[j] != pc@,
            decreases comps.len() - k,
        {
            let c = chars_of(comps[k].as_str());
            if chars_eq(c.as_slice(), pc.as_slice()) {
                proof {
                    assert(cv[k as int] == pc@);
                }
                return true;
            }
            k += 1;
        }
        false
    }
}

proof fn lemma_file_hits_prefix(p: Seq<char>, files: Seq<Seq<char>>, k: int)
    requires
        0 <= k <= files.len(),
    ensures
        exists|s: Seq<Seq<char>>| file_hits(p, files) == file_hits(p, files.take(k)) + s,
    decreases files.len(),
{
    if k == files.len() {
        assert(files.take(k) =~= files);
        assert(file_hits(p, files) =~= file_hits(p, files.take(k)) + Seq::empty());
    } else {
        lemma_file_hits_prefix(p, files.drop_last(), k);
        assert(files.drop_last().take(k) =~= files.take(k));
        let s = choose|s: Seq<Seq<char>>|
            file_hits(p, files.drop_last()) == file_hits(p, files.drop_last().take(k)) + s;
        if file_rule_hit(p, files.last()) {
            assert(file_hits(p, files) =~= file_hits(p, files.take(k)) + s.push(files.last()));
        } else {
            assert(file_hits(p, files) =~= file_hits(p, files.take(k)) + s);
        }
    }
}

/// The files that the file pattern `p` reports.
fn pattern_file_matches(p: &CompiledPattern, files: &Vec<String>) -> (r: Vec<String>)
    ensures
        views_of(r@) == file_pattern_matches(p.pattern_text(), views_of(files@)),
{
    let ghost fv = views_of(files@);
    let ghost pt = p.pattern_text();
    let wildcard = p.is_wildcard();
    let mut out: Vec<String> = Vec::new();
    let mut i: usize = 0;
    proof {
        assert(fv.take(0) =~= Seq::<Seq<char>>::empty());
        assert(views_of(out@) =~= Seq::<Seq<char>>::empty());
    }
    while i < files.len() && !(wildcard && out.len() >= MAX_WILDCARD_MATCHES)
        invariant
            fv == views_of(files@),
            pt == p.pattern_text(),
            wildcard == pt.contains('*'),
            i <= fv.len(),
            views_of(out@) == capped(pt, file_hits(pt, fv.take(i as int))),
        decreases files.len() - i,
    {
        let f = &files[i];
        proof {
            assert(fv.take(i + 1).drop_last() =~= fv.take(i as int));
            assert(fv.take(i + 1).last() == f@);
        }
        if file_hit(p, f) {
            let ghost before = views_of(out@);
            out.push(f.clone());
            proof {
                assert(views_of(out@) =~= before.push(f@));
                let h = file_hits(pt, fv.take(i as int));
                if wildcard {
                    assert(h.len() < MAX_WILDCARD_MATCHES);
                    assert(h.push(f@).len() <= MAX_WILDCARD_MATCHES);
                }
            }
        }
        i += 1;
    }
    proof {
        if i == files.len() {
            assert(fv.take(i as int) =~= fv);
        } else {
            let k: int = i as int;
            lemma_file_hits_prefix(pt, fv, k);
            let s = choose|s: Seq<Seq<char>>| file_hits(pt, fv) == file_hits(pt, fv.take(k)) + s;
            let h = file_hits(pt, fv.take(k));
            assert(h.len() >= MAX_WILDCARD_MATCHES);
            assert(capped(pt, h + s) =~= capped(pt, h));
        }
    }
    out
}

/// Whether some file meets the directory pattern `p`.
fn pattern_dir_met(p: &CompiledPattern, files: &Vec<String>) -> (r: bool)
    ensures
        r == dir_pattern_met(p.pattern_text(), views_of(files@)),
{
    let ghost fv = views_of(files@);
    let mut i: usize = 0;
    while i < files.len()
        invariant
            fv == views_of(files@),
            i <= fv.len(),
            forall|j: int| 0 <= j < i ==> !dir_rule_hit(p.pattern_text(), #[trigger] fv[j]),
        decreases files.len() - i,
    {
        if dir_hit(p, &files[i]) {
            proof {
                assert(fv[i as int] == files@[i as int]@);
            }
            return true;
        }
        i += 1;
    }
    false
}

/// What the rule `rule` finds among `files`, before sorting: the files its
/// file patterns pick, and its directory patterns that some file meets.
fn rule_matches(rule: &CompiledToolRule, files: &Vec<String>) -> (r: (Vec<String>, Vec<String>))
    ensures
        views_of(r.0@) == rule_files(*rule, views_of(files@)),
        views_of(r.1@) == rule_dirs(*rule, views_of(files@)),
{
    let ghost fv = views_of(files@);
    let ghost fps = pattern_texts(rule.file_patterns@);
    let ghost dps = pattern_texts(rule.dir_patterns@);
    let mut found_files: Vec<String> = Vec::new();
    let mut k: usize = 0;
    proof {
        assert(fps.take(0) =~= Seq::<Seq<char>>::empty());
        assert(views_of(found_files@) =~= Seq::<Seq<char>>::empty());
    }
    while k < rule.file_patterns.len()
        invariant
            fv == views_of(files@),
            fps == pattern_texts(rule.file_patterns@),
            k <= fps.len(),
            views_of(found_files@) == rule_file_matches(fps.take(k as int), fv),
        decreases rule.file_patterns.len() - k,
    {
        let hits = pattern_file_matches(&rule.file_patterns[k], files);
        proof {
            assert(fps.take(k + 1).drop_last() =~= fps.take(k as int));
            assert(fps.take(k + 1).last() == rule.file_patterns@[k as int].pattern_text());
        }
        let ghost before = views_of(found_files@);
        let mut j: usize = 0;
        while j < hits.len()
            invariant
                views_of(found_files@) == before + views_of(hits@).take(j as int),
                j <= hits@.len(),
            decreases hits.len() - j,
        {
            let x = hits[j].clone();
            let ghost prev = views_of(found_files@);
            found_files.push(x);
            proof {
                assert(views_of(found_files@) =~= prev.push(x@));
                assert(views_of(hits@).take(j + 1) =~= views_of(hits@).take(j as int).push(
                    hits@[j as int]@,
                ));
            }
            j += 1;
        }
        proof {
            assert(views_of(hits@).take(hits@.len() as int) =~= views_of(hits@));
        }
        k += 1;
    }
    proof {
        assert(fps.take(fps.len() as int) =~= fps);
    }
    let mut found_dirs: Vec<String> = Vec::new();
    let mut k: usize = 0;
    proof {
        assert(dps.take(0) =~= Seq::<Seq<char>>::empty());
        assert(views_of(found_dirs@) =~= Seq::<Seq<char>>::empty());
    }
    while k < rule.dir_patterns.len()
        invariant
            fv == views_of(files@),
            dps == pattern_texts(rule.dir_patterns@),
            k <= dps.len(),
            views_of(found_dirs@) == rule_dir_matches(dps.take(k as int), fv),
        decreases rule.dir_patterns.len() - k,
    {
        let p = &rule.dir_patterns[k];
        proof {
            assert(dps.take(k + 1).drop_last() =~= dps.take(k as int));
            assert(dps.take(k + 1).last() == p.pattern_text());
        }
        if pattern_dir_met(p, files) {
            let text = p.original_pattern().clone();
            let ghost before = views_of(found_dirs@);
            found_dirs.push(text);
            proof {
                assert(views_of(found_dirs@) =~= before.push(p.pattern_text()));
            }
        }
        k += 1;
    }
    proof {
        assert(dps.take(dps.len() as int) =~= dps);
    }
    (found_files, found_dirs)
}

/// The tools that `repo_files` show, in the order of `tool_rules`: for each
/// rule that found a file or a directory, the files its file patterns picked
/// and its directory patterns that matched, sorted and without repetitions.
pub fn detect_tools_with_details(repo_files: &Vec<String>, tool_rules: &Vec<CompiledToolRule>) -> (r:
    Vec<ToolMatchDetails>)
    ensures
        r.len() == detected_rules(tool_rules@, views_of(repo_files@)).len(),
        forall|k: int|
            0 <= k < r.len() ==> reports(
                #[trigger] r@[k],
                detected_rules(tool_rules@, views_of(repo_files@))[k],
                views_of(repo_files@),
            ),
{
    let ghost fv = views_of(repo_files@);
    let mut out: Vec<ToolMatchDetails> = Vec::new();
    let mut i: usize = 0;
    proof {
        assert(tool_rules@.take(0) =~= Seq::<CompiledToolRule>::empty());
    }
    while i < tool_rules.len()
        invariant
            fv == views_of(repo_files@),
            i <= tool_rules@.len(),
            out@.len() == detected_rules(tool_rules@.take(i as int), fv).len(),
            forall|k: int|
                0 <= k < out@.len() ==> reports(
                    #[trigger] out@[k],
                    detected_rules(tool_rules@.take(i as int), fv)[k],
                    fv,
                ),
        decreases tool_rules.len() - i,
    {
        let rule = &tool_rules[i];
        proof {
            assert(tool_rules@.take(i + 1).drop_last() =~= tool_rules@.take(i as int));
            assert(tool_rules@.take(i + 1).last() == *rule);
        }
        let (found_files, found_dirs) = rule_matches(rule, repo_files);
        if found_files.len() > 0 || found_dirs.len() > 0 {
            let details = ToolMatchDetails {
                name: rule.name.clone(),
                matching_files_from_file_rules: sorted_unique(found_files),
                matched_dir_patterns: sorted_unique(found_dirs),
            };
            out.push(details);
        }
        i += 1;
    }
    proof {
        assert(tool_rules@.take(tool_rules@.len() as int) =~= tool_rules@);
    }
    out
}

} // verus!
