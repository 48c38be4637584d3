//! From a stat's configuration to the measurement it runs, and which stats
//! a run covers.
use crate::collectors::{
    CustomFileCommand, CustomFileMeasurement, CustomScriptCollector, PathBlobCollector,
    RipgrepCollector,
};
use crate::config::{
    keys_of, lookup, param_count, param_is_count, param_is_text, param_text, param_texts,
    get_repo_config, GlobalConfig, UserStatConfig,
};
use crate::glob_pattern::{glob_compiles, CompiledPattern};
use crate::granularity::{granularity_named, Granularity};
use crate::measurement::MeasurementKind;
use crate::text::{str_eq, views_of};
use crate::tokei_stats::{all_known, known_languages, TokeiCollector};
use vstd::prelude::*;

verus! {

/// The measurement a stat runs, with its collector.
pub enum Measurement {
    Tokei(TokeiCollector),
    Grep(RipgrepCollector),
    FileCount(PathBlobCollector),
    Script(CustomScriptCollector),
    FileScript(CustomFileMeasurement),
    /// A jq query run on JSON files.
    Jq(String),
}

impl Measurement {
    /// What the measurement needs to see of each file.
    pub fn kind(&self) -> (r: MeasurementKind)
        ensures
            r == match *self {
                Measurement::FileCount(_) => MeasurementKind::FilePathOnly,
                Measurement::Script(_) => MeasurementKind::WholeRepo,
                _ => MeasurementKind::FilePathAndContents,
            },
    {
        match self {
            Measurement::FileCount(_) => MeasurementKind::FilePathOnly,
            Measurement::Script(_) => MeasurementKind::WholeRepo,
            _ => MeasurementKind::FilePathAndContents,
        }
    }
}

/// The names of the kinds of stats.
pub open spec fn stat_type_names() -> Seq<Seq<char>> {
    seq!["tokei"@, "regex_count"@, "file_count"@, "script"@, "file_script"@]
}

/// The names of the kinds of stats that can be added.
pub fn all_measurements() -> (r: Vec<String>)
    ensures
        views_of(r@) == stat_type_names(),
{
    let r = vec![
        "tokei".to_string(),
        "regex_count".to_string(),
        "file_count".to_string(),
        "script".to_string(),
        "file_script".to_string(),
    ];
    proof {
        assert(views_of(r@) =~= stat_type_names());
    }
    r
}

/// `p`, or `default` when absent.
pub open spec fn or_default(p: Option<Seq<char>>, default: Seq<char>) -> Seq<char> {
    match p {
        Some(t) => t,
        None => default,
    }
}

/// The glob of a "file_count" stat.
pub open spec fn file_count_pattern(c: UserStatConfig) -> Seq<char> {
    or_default(param_text(c.params, "pattern"@), "index.html"@)
}

/// The executable of a "file_script" stat.
pub open spec fn file_script_executable(c: UserStatConfig) -> Seq<char> {
    or_default(param_text(c.params, "command"@), "echo 1"@)
}

/// The languages of a "tokei" stat, as they are written in the parameters.
pub open spec fn tokei_languages(c: UserStatConfig) -> Option<Seq<Seq<char>>> {
    param_texts(c.params, "languages"@)
}

/// Every language of a "tokei" stat is one that tokei knows.
pub open spec fn tokei_languages_known(c: UserStatConfig) -> bool {
    match tokei_languages(c) {
        Some(ls) => forall|i: int| 0 <= i < ls.len() ==> (crate::tokei_stats::tokei_display_name(#[trigger] ls[i]) is Some),
        None => true,
    }
}

/// A measurement can be built from `c`: its type is known and the
/// parameters that type reads have the right shape and are valid.
pub open spec fn buildable(c: UserStatConfig) -> bool {
    let t = c.type_@;
    if t == "tokei"@ {
        param_is_count(c.params, "topn"@) && tokei_languages_known(c)
    } else if t == "grep"@ || t == "regex_count"@ {
        param_is_text(c.params, "pattern"@)
    } else if t == "file_count"@ {
        param_is_text(c.params, "pattern"@) && glob_compiles(file_count_pattern(c))
    } else if t == "script"@ {
        param_is_text(c.params, "script"@)
    } else if t == "file_script"@ {
        param_is_text(c.params, "command"@) && file_script_executable(c).len() > 0
    } else if t == "jq"@ {
        param_is_text(c.params, "query"@)
    } else {
        false
    }
}

/// `m` is the measurement that `c` describes.
pub open spec fn built_from(m: Measurement, c: UserStatConfig) -> bool {
    let t = c.type_@;
    if t == "tokei"@ {
        m matches Measurement::Tokei(tc) && tc.languages_spec() == match tokei_languages(c) {
            Some(ls) => Some(known_languages(ls)),
            None => None,
        } && tc.top_n_spec() == match param_count(c.params, "topn"@) {
            Some(n) => Some(n as usize),
            None => None,
        }
    } else if t == "grep"@ || t == "regex_count"@ {
        m matches Measurement::Grep(g) && g.pattern_spec() == or_default(
            param_text(c.params, "pattern"@),
            "todo"@,
        )
    } else if t == "file_count"@ {
        m matches Measurement::FileCount(f) && f.pattern_spec() == file_count_pattern(c)
    } else if t == "script"@ {
        m matches Measurement::Script(s) && s.script@ == or_default(
            param_text(c.params, "script"@),
            "echo 1"@,
        )
    } else if t == "file_script"@ {
        m matches Measurement::FileScript(f) && f.command_spec().executable@
            == file_script_executable(c) && views_of(f.command_spec().args@) == match param_texts(
            c.params,
            "args"@,
        ) {
            Some(a) => a,
            None => Seq::empty(),
        }
    } else {
        m matches Measurement::Jq(q) && q@ == or_default(param_text(c.params, "query"@), "."@)
    }
}

/// The text parameter `name` of `c`, or `default`.
fn text_param_or(c: &UserStatConfig, name: &str, default: &str) -> (r: String)
    requires
        param_is_text(c.params, name@),
    ensures
        r@ == or_default(param_text(c.params, name@), default@),
{
    match c.get_param_string(name) {
        Some(s) => s,
        None => default.to_string(),
    }
}

/// The measurement that the stat `config` describes: "tokei" counts lines
/// per language (parameters "languages" and "topn"), "grep" or
/// "regex_count" counts matches of "pattern" (by default "todo"),
/// "file_count" counts paths matching the glob "pattern" (by default
/// "index.html"), "script" runs "script" (by default "echo 1"),
/// "file_script" runs "command" (by default "echo 1") with "args" on each
/// file, and "jq" runs "query" (by default ".").
pub fn build_measurement(config: &UserStatConfig) -> (r: Measurement)
    requires
        buildable(*config),
    ensures
        built_from(r, *config),
{
    let t = config.type_.as_str();
    proof {
        reveal_strlit("tokei");
        reveal_strlit("grep");
        reveal_strlit("regex_count");
        reveal_strlit("file_count");
        reveal_strlit("script");
        reveal_strlit("file_script");
        reveal_strlit("jq");
    }
    if str_eq(t, "tokei") {
        let languages = config.get_param_array_string("languages");
        let top_n = config.get_param_usize("topn");
        proof {
            if languages is Some {
                let v = languages->Some_0;
                assert forall|i: int| 0 <= i < v@.len() implies (crate::tokei_stats::tokei_display_name(#[trigger] v@[i]@) is Some) by {
                    assert(views_of(v@)[i] == v@[i]@);
                }
            }
        }
        let m = Measurement::Tokei(TokeiCollector::new(languages, top_n));
        m
    } else if str_eq(t, "grep") || str_eq(t, "regex_count") {
        let pattern = text_param_or(config, "pattern", "todo");
        let m = Measurement::Grep(RipgrepCollector::new(pattern.as_str()));
        m
    } else if str_eq(t, "file_count") {
        let pattern = text_param_or(config, "pattern", "index.html");
        let m = Measurement::FileCount(PathBlobCollector::new(pattern));
        m
    } else if str_eq(t, "script") {
        let script = text_param_or(config, "script", "echo 1");
        let m = Measurement::Script(CustomScriptCollector::new(script));
        m
    } else if str_eq(t, "file_script") {
        let executable = text_param_or(config, "command", "echo 1");
        let args = match config.get_param_array_string("args") {
            Some(a) => a,
            None => {
                let empty: Vec<String> = Vec::new();
                proof {
                    assert(views_of(empty@) =~= Seq::<Seq<char>>::empty());
                }
                empty
            },
        };
        match CustomFileMeasurement::new(CustomFileCommand { executable, args }) {
            Ok(fm) => {
                let m = Measurement::FileScript(fm);
                        m
            },
            Err(_) => vstd::pervasive::unreached(),
        }
    } else {
        let query = text_param_or(config, "query", ".");
        let m = Measurement::Jq(query);
        m
    }
}

/// `build_measurement`, where the stat can be built; `None` otherwise: an
/// unknown type, a parameter of the wrong shape, an unknown language, an
/// invalid glob or an empty command.
pub fn try_build_measurement(config: &UserStatConfig) -> (r: Option<Measurement>)
    ensures
        r is Some <==> buildable(*config),
        r matches Some(m) ==> built_from(m, *config),
{
    let t = config.type_.as_str();
    proof {
        reveal_strlit("tokei");
        reveal_strlit("grep");
        reveal_strlit("regex_count");
        reveal_strlit("file_count");
        reveal_strlit("script");
        reveal_strlit("file_script");
        reveal_strlit("jq");
    }
    let ok = if str_eq(t, "tokei") {
        let count_ok = text_or_count_ok(config, "topn", false);
        let known = match config.get_param_array_string("languages") {
            Some(ls) => {
                let ghost lv = ls@;
                let k = TokeiCollector::try_new(Some(ls), None).is_some();
                proof {
                    if k {
                        assert forall|i: int| 0 <= i < views_of(lv).len() implies (crate::tokei_stats::tokei_display_name(#[trigger] views_of(lv)[i]) is Some) by {
                            assert(views_of(lv)[i] == lv[i]@);
                        }
                    } else {
                        let i = choose|i: int| 0 <= i < lv.len() && !(crate::tokei_stats::tokei_display_name(#[trigger] lv[i]@) is Some);
                        assert(views_of(lv)[i] == lv[i]@);
                    }
                }
                k
            },
            None => true,
        };
        count_ok && known
    } else if str_eq(t, "grep") || str_eq(t, "regex_count") {
        text_or_count_ok(config, "pattern", true)
    } else if str_eq(t, "file_count") {
        text_or_count_ok(config, "pattern", true) && {
            let pattern = text_param_or(config, "pattern", "index.html");
            CompiledPattern::compile(pattern.as_str()).is_some()
        }
    } else if str_eq(t, "script") {
        text_or_count_ok(config, "script", true)
    } else if str_eq(t, "file_script") {
        text_or_count_ok(config, "command", true) && {
            let executable = text_param_or(config, "command", "echo 1");
            executable.as_str().unicode_len() > 0
        }
    } else if str_eq(t, "jq") {
        text_or_count_ok(config, "query", true)
    } else {
        false
    };
    if ok {
        Some(build_measurement(config))
    } else {
        None
    }
}

/// Whether the parameter `name` is absent or a text (`text`), or absent or
/// a count that fits a `usize` (`!text`).
fn text_or_count_ok(config: &UserStatConfig, name: &str, text: bool) -> (r: bool)
    ensures
        r == if text {
            param_is_text(config.params, name@)
        } else {
            param_is_count(config.params, name@)
        },
{
    match config.get_param_value(name) {
        None => true,
        Some(crate::config::ParamValue::Text(_)) => text,
        Some(crate::config::ParamValue::Number(n)) => !text && count_fits(n.as_str()),
        Some(_) => false,
    }
}

/// Whether `t` is a count that fits a `usize`.
fn count_fits(t: &str) -> (r: bool)
    ensures
        r == (crate::config::is_count(t@) && crate::config::count_value(t@) <= usize::MAX),
{
    let cs = crate::text::chars_of(t);
    if cs.len() == 0 {
        return false;
    }
    let mut value: usize = 0;
    let mut i: usize = 0;
    while i < cs.len()
        invariant
            cs@ == t@,
            cs@.len() > 0,
            i <= cs@.len(),
            forall|j: int| 0 <= j < i ==> '0' <= #[trigger] cs@[j] <= '9',
            value == crate::config::count_value(cs@.take(i as int)),
        decreases cs.len() - i,
    {
        let c = cs[i];
        if !('0' <= c && c <= '9') {
            proof {
                assert(!crate::config::is_count(t@));
            }
            return false;
        }
        proof {
            assert(cs@.take(i + 1).drop_last() =~= cs@.take(i as int));
        }
        let d: usize = (c as u32 - '0' as u32) as usize;
        match value.checked_mul(10) {
            Some(v10) => match v10.checked_add(d) {
                Some(v) => {
                    value = v;
                },
                None => {
                    proof {
                        lemma_count_exceeds(t@, i + 1);
                    }
                    return false;
                },
            },
            None => {
                proof {
                    lemma_count_exceeds(t@, i + 1);
                }
                return false;
            },
        }
        i += 1;
    }
    proof {
        assert(cs@.take(cs@.len() as int) =~= cs@);
    }
    true
}

proof fn lemma_count_exceeds(t: Seq<char>, k: int)
    requires
        0 < k <= t.len(),
        crate::config::count_value(t.take(k)) > usize::MAX,
    ensures
        !(crate::config::is_count(t) && crate::config::count_value(t) <= usize::MAX),
    decreases t.len(),
{
    if crate::config::is_count(t) {
        lemma_count_prefix_le(t, k);
    }
}

proof fn lemma_count_prefix_le(t: Seq<char>, k: int)
    requires
        0 <= k <= t.len(),
        forall|i: int| 0 <= i < t.len() ==> '0' <= #[trigger] t[i] <= '9',
    ensures
        crate::config::count_value(t.take(k)) <= crate::config::count_value(t),
    decreases t.len(),
{
    if k < t.len() {
        assert forall|i: int| 0 <= i < t.drop_last().len() implies '0' <= #[trigger] t.drop_last()[i] <= '9' by {
            assert(t.drop_last()[i] == t[i]);
        }
        lemma_count_prefix_le(t.drop_last(), k);
        assert(t.drop_last().take(k) =~= t.take(k));
        lemma_count_nonneg(t.drop_last());
        assert('0' <= t[t.len() - 1] <= '9');
    } else {
        assert(t.take(k) =~= t);
    }
}

proof fn lemma_count_nonneg(t: Seq<char>)
    requires
        forall|i: int| 0 <= i < t.len() ==> '0' <= #[trigger] t[i] <= '9',
    ensures
        crate::config::count_value(t) >= 0,
    decreases t.len(),
{
    if t.len() > 0 {
        assert forall|i: int| 0 <= i < t.drop_last().len() implies '0' <= #[trigger] t.drop_last()[i] <= '9' by {
            assert(t.drop_last()[i] == t[i]);
        }
        lemma_count_nonneg(t.drop_last());
    }
}

// ---------------------------------------------------------------------------
// Which stats a run covers
// ---------------------------------------------------------------------------
/// `(repo, stat)` for each stat of `stats`.
pub open spec fn tagged_stats(repo: Seq<char>, stats: Seq<Seq<char>>) -> Seq<(Seq<char>, Seq<char>)> {
    stats.map_values(|s: Seq<char>| (repo, s))
}

/// Every (repository, stat) pair of the configuration, repository by
/// repository.
pub open spec fn all_pairs(repos: Seq<(String, crate::config::UserRepoConfig)>) -> Seq<
    (Seq<char>, Seq<char>),
>
    decreases repos.len(),
{
    if repos.len() == 0 {
        Seq::empty()
    } else {
        all_pairs(repos.drop_last()) + tagged_stats(
            repos.last().0@,
            crate::config::stat_names(repos.last().1),
        )
    }
}

/// The (repository, stat) pairs a run covers: every pair when neither is
/// named; the stats of the named repository; the named pair; nothing when
/// only a stat is named.
pub open spec fn pairs_to_run(
    config: GlobalConfig,
    repo_name: Option<Seq<char>>,
    stat_name: Option<Seq<char>>,
) -> Seq<(Seq<char>, Seq<char>)> {
    match (repo_name, stat_name) {
        (None, None) => all_pairs(config.repos@),
        (Some(r), None) => match lookup(config.repos@, r) {
            Some(rc) => tagged_stats(r, crate::config::stat_names(rc)),
            None => Seq::empty(),
        },
        (Some(r), Some(s)) => seq![(r, s)],
        (None, Some(_)) => Seq::empty(),
    }
}

/// The views of pairs of strings.
pub open spec fn pair_views(v: Seq<(String, String)>) -> Seq<(Seq<char>, Seq<char>)> {
    v.map_values(|p: (String, String)| (p.0@, p.1@))
}

/// The optional text of an optional string reference.
pub open spec fn optional_ref_text(o: Option<&String>) -> Option<Seq<char>> {
    match o {
        Some(s) => Some(s@),
        None => None,
    }
}

/// Appends `(repo, s)` for each stat name `s` of `stats`.
fn push_tagged(out: &mut Vec<(String, String)>, repo: &String, stats: &Vec<(String, crate::config::UserStatConfig)>)
    ensures
        pair_views(final(out)@) == pair_views(old(out)@) + tagged_stats(repo@, keys_of(stats@)),
{
    let ghost start = pair_views(out@);
    let mut i: usize = 0;
    proof {
        assert(tagged_stats(repo@, keys_of(stats@).take(0)) =~= Seq::empty());
        assert(start + Seq::empty() =~= start);
    }
    while i < stats.len()
        invariant
            i <= stats@.len(),
            pair_views(out@) == start + tagged_stats(repo@, keys_of(stats@).take(i as int)),
        decreases stats.len() - i,
    {
        let ghost before = pair_views(out@);
        out.push((repo.clone(), stats[i].0.clone()));
        proof {
            assert(pair_views(out@) =~= before.push((repo@, stats@[i as int].0@)));
            assert(tagged_stats(repo@, keys_of(stats@).take(i + 1)) =~= tagged_stats(
                repo@,
                keys_of(stats@).take(i as int),
            ).push((repo@, stats@[i as int].0@)));
        }
        i += 1;
    }
    proof {
        assert(keys_of(stats@).take(stats@.len() as int) =~= keys_of(stats@));
    }
}

/// The (repository, stat) pairs a run covers.
pub fn get_pairs_to_run(
    config: &GlobalConfig,
    repo_name: Option<&String>,
    stat_name: Option<&String>,
) -> (r: Vec<(String, String)>)
    ensures
        pair_views(r@) == pairs_to_run(
            *config,
            optional_ref_text(repo_name),
            optional_ref_text(stat_name),
        ),
{
    let mut out: Vec<(String, String)> = Vec::new();
    proof {
        assert(pair_views(out@) =~= Seq::<(Seq<char>, Seq<char>)>::empty());
    }
    match (repo_name, stat_name) {
        (None, None) => {
            let mut i: usize = 0;
            proof {
                assert(config.repos@.take(0) =~= Seq::<(String, crate::config::UserRepoConfig)>::empty());
            }
            while i < config.repos.len()
                invariant
                    i <= config.repos@.len(),
                    pair_views(out@) == all_pairs(config.repos@.take(i as int)),
                decreases config.repos.len() - i,
            {
                proof {
                    assert(config.repos@.take(i + 1).drop_last() =~= config.repos@.take(i as int));
                    assert(config.repos@.take(i + 1).last() == config.repos@[i as int]);
                }
                match &config.repos[i].1.stats {
                    Some(stats) => {
                        push_tagged(&mut out, &config.repos[i].0, stats);
                    },
                    None => {
                        proof {
                            assert(tagged_stats(config.repos@[i as int].0@, Seq::empty()) =~= Seq::empty());
                            assert(pair_views(out@) + Seq::empty() =~= pair_views(out@));
                        }
                    },
                }
                i += 1;
            }
            proof {
                assert(config.repos@.take(config.repos@.len() as int) =~= config.repos@);
            }
            out
        },
        (Some(repo), None) => {
            match get_repo_config(config, repo.as_str()) {
                Some(rc) => match &rc.stats {
                    Some(stats) => {
                        push_tagged(&mut out, repo, stats);
                        proof {
                            assert(Seq::<(Seq<char>, Seq<char>)>::empty() + tagged_stats(repo@, keys_of(stats@)) =~= tagged_stats(repo@, keys_of(stats@)));
                        }
                    },
                    None => {
                        proof {
                            assert(tagged_stats(repo@, Seq::empty()) =~= Seq::empty());
                        }
                    },
                },
                None => {},
            }
            out
        },
        (Some(repo), Some(stat)) => {
            out.push((repo.clone(), stat.clone()));
            proof {
                assert(pair_views(out@) =~= seq![(repo@, stat@)]);
            }
            out
        },
        (None, Some(_)) => out,
    }
}

/// What a run of stats does: the (repository, stat) pairs it covers and
/// the granularity it samples history at (daily where none is named or the
/// name is unknown).
pub struct StatRunPlan {
    pub pairs: Vec<(String, String)>,
    pub granularity: Granularity,
}

/// The plan of a run of stats: the pairs that `get_pairs_to_run` gives and
/// the granularity named by `granularity`.
pub fn run_stat_command(
    config: &GlobalConfig,
    repo_name: Option<&String>,
    stat_name: Option<&String>,
    granularity: Option<&String>,
) -> (r: StatRunPlan)
    ensures
        pair_views(r.pairs@) == pairs_to_run(
            *config,
            optional_ref_text(repo_name),
            optional_ref_text(stat_name),
        ),
        r.granularity == match granularity {
            Some(g) => match granularity_named(g@) {
                Some(x) => x,
                None => Granularity::Daily,
            },
            None => Granularity::Daily,
        },
{
    let pairs = get_pairs_to_run(config, repo_name, stat_name);
    let g = match granularity {
        Some(name) => match Granularity::from_string(name.as_str()) {
            Some(x) => x,
            None => Granularity::Daily,
        },
        None => Granularity::Daily,
    };
    StatRunPlan { pairs, granularity: g }
}

/// A stat: the measurement it runs and what that measurement reads.
pub struct Stat {
    pub measurement_kind: MeasurementKind,
    pub measurement: Measurement,
}

impl Stat {
    /// The stat that `config` describes.
    pub fn from_config(config: &UserStatConfig) -> (r: Stat)
        requires
            buildable(*config),
        ensures
            built_from(r.measurement, *config),
            r.measurement_kind == match r.measurement {
                Measurement::FileCount(_) => MeasurementKind::FilePathOnly,
                Measurement::Script(_) => MeasurementKind::WholeRepo,
                _ => MeasurementKind::FilePathAndContents,
            },
    {
        let measurement = build_measurement(config);
        let measurement_kind = measurement.kind();
        Stat { measurement_kind, measurement }
    }
}

} // verus!
