//! The configuration: repositories, the stats defined on each, and where
//! things are stored. Reading and writing the configuration file is left to
//! the caller; these are the lookups and updates on its contents.
use crate::granularity::Granularity;
use crate::text::{chars_of, concat, str_eq, views_of};
use vstd::prelude::*;

verus! {

/// A parameter value of a stat, shaped as JSON is. Numbers are kept as
/// their text.
#[derive(Debug)]
pub enum ParamValue {
    Null,
    Bool(bool),
    Number(String),
    Text(String),
    List(Vec<ParamValue>),
    Object(Vec<(String, ParamValue)>),
}

/// A stat defined on a repository.
#[derive(Debug)]
pub struct UserStatConfig {
    pub name: String,
    pub description: String,
    /// The kind of measurement: "tokei", "grep" or "regex_count",
    /// "file_count", "script", "file_script" or "jq".
    pub type_: String,
    pub params: Option<ParamValue>,
    pub path_in_repo: Option<String>,
    pub start: Option<String>,
    pub end: Option<String>,
    pub granularity: Option<Granularity>,
}

/// A repository and the stats defined on it.
#[derive(Debug)]
pub struct UserRepoConfig {
    pub name: String,
    pub source: String,
    pub storage_path: Option<String>,
    pub default_branch: Option<String>,
    pub stats: Option<Vec<(String, UserStatConfig)>>,
}

/// Where measurements are stored.
#[derive(Debug, Clone)]
pub struct StatStorageConfig {
    pub type_: String,
    pub storage_path: Option<String>,
}

/// The whole configuration; repositories are keyed by name.
#[derive(Debug)]
pub struct GlobalConfig {
    pub repo_storage_location: Option<String>,
    pub stat_storage: Option<StatStorageConfig>,
    pub repos: Vec<(String, UserRepoConfig)>,
}

// ---------------------------------------------------------------------------
// Keyed entries
// ---------------------------------------------------------------------------
/// The keys of `entries`, in order.
pub open spec fn keys_of<V>(entries: Seq<(String, V)>) -> Seq<Seq<char>> {
    entries.map_values(|e: (String, V)| e.0@)
}

/// No key occurs twice.
pub open spec fn keys_unique<V>(entries: Seq<(String, V)>) -> bool {
    forall|i: int, j: int|
        0 <= i < j < entries.len() ==> (#[trigger] entries[i]).0@ != (#[trigger] entries[j]).0@
}

/// The value under `key`.
pub open spec fn lookup<V>(entries: Seq<(String, V)>, key: Seq<char>) -> Option<V>
    decreases entries.len(),
{
    if entries.len() == 0 {
        None
    } else if entries[0].0@ == key {
        Some(entries[0].1)
    } else {
        lookup(entries.drop_first(), key)
    }
}

/// The value under a key is that of its first entry.
pub proof fn lemma_lookup_at<V>(entries: Seq<(String, V)>, key: Seq<char>, i: int)
    requires
        0 <= i < entries.len(),
        entries[i].0@ == key,
        forall|j: int| 0 <= j < i ==> (#[trigger] entries[j]).0@ != key,
    ensures
        lookup(entries, key) == Some(entries[i].1),
    decreases i,
{
    if i > 0 {
        lemma_lookup_at(entries.drop_first(), key, i - 1);
    }
}

/// A key that no entry has has no value.
pub proof fn lemma_lookup_absent<V>(entries: Seq<(String, V)>, key: Seq<char>)
    requires
        forall|j: int| 0 <= j < entries.len() ==> (#[trigger] entries[j]).0@ != key,
    ensures
        lookup(entries, key) is None,
    decreases entries.len(),
{
    if entries.len() > 0 {
        lemma_lookup_absent(entries.drop_first(), key);
    }
}

/// The position of `key` among the keys of `entries`.
fn find_key<V>(entries: &Vec<(String, V)>, key: &str) -> (r: Option<usize>)
    ensures
        match r {
            Some(i) => i < entries@.len() && entries@[i as int].0@ == key@ && lookup(entries@, key@)
                == Some(entries@[i as int].1),
            None => lookup(entries@, key@) is None && forall|j: int|
                0 <= j < entries@.len() ==> (#[trigger] entries@[j]).0@ != key@,
        },
{
    let mut i: usize = 0;
    while i < entries.len()
        invariant
            i <= entries@.len(),
            forall|j: int| 0 <= j < i ==> (#[trigger] entries@[j]).0@ != key@,
        decreases entries.len() - i,
    {
        if str_eq(entries[i].0.as_str(), key) {
            proof {
                lemma_lookup_at(entries@, key@, i as int);
            }
            return Some(i);
        }
        i += 1;
    }
    proof {
        lemma_lookup_absent(entries@, key@);
    }
    None
}

/// Sets the value under `key`, replacing the one there or adding the key
/// at the end.
fn set_entry<V>(entries: &mut Vec<(String, V)>, key: String, value: V)
    requires
        keys_unique(old(entries)@),
    ensures
        keys_unique(final(entries)@),
        lookup(final(entries)@, key@) == Some(value),
        forall|k: Seq<char>| k != key@ ==> lookup(final(entries)@, k) == lookup(old(entries)@, k),
        keys_of(final(entries)@) == if lookup(old(entries)@, key@) is Some {
            keys_of(old(entries)@)
        } else {
            keys_of(old(entries)@).push(key@)
        },
{
    let ghost before = entries@;
    match find_key(entries, key.as_str()) {
        Some(i) => {
            entries.set(i, (key, value));
            proof {
                let after = entries@;
                assert(after =~= before.update(i as int, (key, value)));
                assert forall|j: int| 0 <= j < i implies (#[trigger] after[j]).0@ != key@ by {
                    assert(after[j] == before[j]);
                    if before[j].0@ == key@ {
                        assert(before[j].0@ == before[i as int].0@);
                    }
                }
                lemma_lookup_at(after, key@, i as int);
                assert forall|k: Seq<char>| k != key@ implies lookup(after, k) == lookup(
                    before,
                    k,
                ) by {
                    lemma_lookup_other(before, i as int, (key, value), k);
                }
                assert(keys_of(after) =~= keys_of(before));
            }
        },
        None => {
            entries.push((key, value));
            proof {
                let after = entries@;
                assert(after =~= before.push((key, value)));
                lemma_lookup_at(after, key@, before.len() as int);
                assert forall|k: Seq<char>| k != key@ implies lookup(after, k) == lookup(
                    before,
                    k,
                ) by {
                    lemma_lookup_push(before, (key, value), k);
                }
                assert(keys_of(after) =~= keys_of(before).push(key@));
            }
        },
    }
}

proof fn lemma_lookup_other<V>(entries: Seq<(String, V)>, i: int, e: (String, V), k: Seq<char>)
    requires
        0 <= i < entries.len(),
        entries[i].0@ == e.0@,
        k != e.0@,
    ensures
        lookup(entries.update(i, e), k) == lookup(entries, k),
    decreases entries.len(),
{
    let u = entries.update(i, e);
    if i > 0 {
        lemma_lookup_other(entries.drop_first(), i - 1, e, k);
        assert(u.drop_first() =~= entries.drop_first().update(i - 1, e));
        assert(u[0] == entries[0]);
    } else {
        assert(u.drop_first() =~= entries.drop_first());
    }
}

proof fn lemma_lookup_push<V>(entries: Seq<(String, V)>, e: (String, V), k: Seq<char>)
    requires
        k != e.0@,
    ensures
        lookup(entries.push(e), k) == lookup(entries, k),
    decreases entries.len(),
{
    let p = entries.push(e);
    if entries.len() > 0 {
        lemma_lookup_push(entries.drop_first(), e, k);
        assert(p.drop_first() =~= entries.drop_first().push(e));
        assert(p[0] == entries[0]);
    } else {
        assert(p.drop_first() =~= Seq::<(String, V)>::empty());
        assert(p[0] == e);
        assert(lookup(p.drop_first(), k) is None);
    }
}

/// The keys of `entries`, in order.
fn key_list<V>(entries: &Vec<(String, V)>) -> (r: Vec<String>)
    ensures
        views_of(r@) == keys_of(entries@),
{
    let mut out: Vec<String> = Vec::new();
    let mut i: usize = 0;
    while i < entries.len()
        invariant
            i <= entries@.len(),
            views_of(out@) == keys_of(entries@).take(i as int),
        decreases entries.len() - i,
    {
        let k = entries[i].0.clone();
        let ghost before = views_of(out@);
        out.push(k);
        proof {
            assert(views_of(out@) =~= before.push(k@));
            assert(keys_of(entries@).take(i + 1) =~= keys_of(entries@).take(i as int).push(
                entries@[i as int].0@,
            ));
        }
        i += 1;
    }
    proof {
        assert(keys_of(entries@).take(entries@.len() as int) =~= keys_of(entries@));
    }
    out
}

// ---------------------------------------------------------------------------
// Paths
// ---------------------------------------------------------------------------
/// `PathBuf::join` of a '/'-separated path: an absolute `name` replaces
/// `base`; otherwise a separator goes between them unless `base` is empty
/// or already ends with one.
pub open spec fn path_join(base: Seq<char>, name: Seq<char>) -> Seq<char> {
    if name.len() > 0 && name[0] == '/' {
        name
    } else if base.len() == 0 || base.last() == '/' {
        base + name
    } else {
        base + seq!['/'] + name
    }
}

/// `base` joined with `name`.
pub fn join_path(base: &str, name: &str) -> (r: String)
    ensures
        r@ == path_join(base@, name@),
{
    let nc = chars_of(name);
    if nc.len() > 0 && nc[0] == '/' {
        return name.to_string();
    }
    let bc = chars_of(base);
    if bc.len() == 0 || bc[bc.len() - 1] == '/' {
        concat(base, name)
    } else {
        let with_sep = concat(base, "/");
        proof {
            reveal_strlit("/");
        }
        concat(with_sep.as_str(), name)
    }
}

/// The configuration file, in the tool's root directory.
pub fn get_config_path(root_dir: &str) -> (r: String)
    ensures
        r@ == path_join(root_dir@, "config.json"@),
{
    join_path(root_dir, "config.json")
}

/// The directory of stored measurements: the configured one, or "stats"
/// in the tool's root directory.
pub fn get_stats_dir(config: &GlobalConfig, root_dir: &str) -> (r: String)
    ensures
        r@ == match config.stat_storage {
            Some(s) => match s.storage_path {
                Some(p) => p@,
                None => path_join(root_dir@, "stats"@),
            },
            None => path_join(root_dir@, "stats"@),
        },
{
    match &config.stat_storage {
        Some(s) => match &s.storage_path {
            Some(p) => p.clone(),
            None => join_path(root_dir, "stats"),
        },
        None => join_path(root_dir, "stats"),
    }
}

/// The file of the measurements of `stat_name` on `repo_name`, and the
/// directory that holds it.
pub fn stat_storage_path(stats_dir: &str, repo_name: &str, stat_name: &str) -> (r: (String, String))
    ensures
        r.0@ == path_join(stats_dir@, repo_name@),
        r.1@ == path_join(path_join(stats_dir@, repo_name@), stat_name@ + ".csv"@),
{
    let dir = join_path(stats_dir, repo_name);
    let file_name = concat(stat_name, ".csv");
    let file = join_path(dir.as_str(), file_name.as_str());
    (dir, file)
}

impl UserRepoConfig {
    /// Where the repository is stored: the configured place, or
    /// "repos/<source>/<name>" in the tool's root directory.
    pub fn get_storage_path(&self, root_dir: &str) -> (r: String)
        ensures
            r@ == match self.storage_path {
                Some(p) => p@,
                None => path_join(
                    path_join(path_join(root_dir@, "repos"@), self.source@),
                    self.name@,
                ),
            },
    {
        match &self.storage_path {
            Some(p) => p.clone(),
            None => {
                let repos = join_path(root_dir, "repos");
                let source = join_path(repos.as_str(), self.source.as_str());
                join_path(source.as_str(), self.name.as_str())
            },
        }
    }
}

// ---------------------------------------------------------------------------
// Lookups and updates
// ---------------------------------------------------------------------------
/// The names of the stats of a repository.
pub open spec fn stat_names(r: UserRepoConfig) -> Seq<Seq<char>> {
    match r.stats {
        Some(s) => keys_of(s@),
        None => Seq::empty(),
    }
}

/// The configuration's repositories and each repository's stats are keyed
/// uniquely.
pub open spec fn config_wf(config: GlobalConfig) -> bool {
    &&& keys_unique(config.repos@)
    &&& forall|i: int|
        0 <= i < config.repos@.len() ==> match (#[trigger] config.repos@[i]).1.stats {
            Some(s) => keys_unique(s@),
            None => true,
        }
}

impl GlobalConfig {
    /// An empty configuration.
    pub fn new() -> (r: Self)
        ensures
            r.repos@.len() == 0,
            r.repo_storage_location is None,
            r.stat_storage is None,
            config_wf(r),
    {
        GlobalConfig { repo_storage_location: None, stat_storage: None, repos: Vec::new() }
    }
}

/// The names of the configured repositories.
pub fn list_repos(config: &GlobalConfig) -> (r: Vec<String>)
    ensures
        views_of(r@) == keys_of(config.repos@),
{
    key_list(&config.repos)
}

/// The configuration of the repository `repo`.
pub fn get_repo_config<'a>(config: &'a GlobalConfig, repo: &str) -> (r: Option<&'a UserRepoConfig>)
    ensures
        match r {
            Some(c) => lookup(config.repos@, repo@) == Some(*c),
            None => lookup(config.repos@, repo@) is None,
        },
{
    match find_key(&config.repos, repo) {
        Some(i) => Some(&config.repos[i].1),
        None => None,
    }
}

/// The names of the stats of the repository `repo`; none when the
/// repository is unknown or has no stats.
pub fn list_stats(config: &GlobalConfig, repo: &str) -> (r: Option<Vec<String>>)
    ensures
        match lookup(config.repos@, repo@) {
            Some(rc) => match rc.stats {
                Some(s) => r matches Some(v) && views_of(v@) == keys_of(s@),
                None => r is None,
            },
            None => r is None,
        },
{
    match get_repo_config(config, repo) {
        Some(rc) => match &rc.stats {
            Some(s) => Some(key_list(s)),
            None => None,
        },
        None => None,
    }
}

/// The configuration of the stat `stat` of the repository `repo`.
pub fn get_stat_config<'a>(config: &'a GlobalConfig, repo: &str, stat: &str) -> (r: Option<
    &'a UserStatConfig,
>)
    ensures
        match lookup(config.repos@, repo@) {
            Some(rc) => match rc.stats {
                Some(s) => match r {
                    Some(c) => lookup(s@, stat@) == Some(*c),
                    None => lookup(s@, stat@) is None,
                },
                None => r is None,
            },
            None => r is None,
        },
{
    match get_repo_config(config, repo) {
        Some(rc) => match &rc.stats {
            Some(s) => match find_key(s, stat) {
                Some(i) => Some(&s[i].1),
                None => None,
            },
            None => None,
        },
        None => None,
    }
}

/// Adds the repository `repo` under its name, replacing any of that name.
pub fn add_repo(config: &mut GlobalConfig, repo: UserRepoConfig)
    requires
        config_wf(*old(config)),
        match repo.stats {
            Some(s) => keys_unique(s@),
            None => true,
        },
    ensures
        config_wf(*final(config)),
        lookup(final(config).repos@, repo.name@) == Some(repo),
        forall|k: Seq<char>|
            k != repo.name@ ==> lookup(final(config).repos@, k) == lookup(old(config).repos@, k),
        final(config).stat_storage == old(config).stat_storage,
        final(config).repo_storage_location == old(config).repo_storage_location,
{
    let name = repo.name.clone();
    let ghost before = config.repos@;
    set_entry(&mut config.repos, name, repo);
    proof {
        lemma_wf_after_set(before, config.repos@, repo.name@);
    }
}

proof fn lemma_wf_after_set(before: Seq<(String, UserRepoConfig)>, after: Seq<(String, UserRepoConfig)>, key: Seq<char>)
    requires
        keys_unique(after),
        forall|i: int|
            0 <= i < before.len() ==> match (#[trigger] before[i]).1.stats {
                Some(s) => keys_unique(s@),
                None => true,
            },
        lookup(after, key) matches Some(v) && match v.stats {
            Some(s) => keys_unique(s@),
            None => true,
        },
        forall|k: Seq<char>| k != key ==> lookup(after, k) == lookup(before, k),
    ensures
        forall|i: int|
            0 <= i < after.len() ==> match (#[trigger] after[i]).1.stats {
                Some(s) => keys_unique(s@),
                None => true,
            },
{
    assert forall|i: int| 0 <= i < after.len() implies match (#[trigger] after[i]).1.stats {
        Some(s) => keys_unique(s@),
        None => true,
    } by {
        let k = after[i].0@;
        assert forall|j: int| 0 <= j < i implies (#[trigger] after[j]).0@ != k by {
            assert(after[j].0@ != after[i].0@);
        }
        lemma_lookup_at(after, k, i);
        if k != key {
            assert(lookup(before, k) == Some(after[i].1));
            lemma_lookup_found(before, k);
        }
    }
}

proof fn lemma_lookup_found<V>(entries: Seq<(String, V)>, k: Seq<char>)
    requires
        lookup(entries, k) is Some,
    ensures
        exists|i: int| 0 <= i < entries.len() && entries[i].0@ == k && lookup(entries, k) == Some(entries[i].1),
    decreases entries.len(),
{
    if entries[0].0@ != k {
        lemma_lookup_found(entries.drop_first(), k);
        let i = choose|i: int|
            0 <= i < entries.drop_first().len() && entries.drop_first()[i].0@ == k && lookup(
                entries.drop_first(),
                k,
            ) == Some(entries.drop_first()[i].1);
        assert(entries[i + 1] == entries.drop_first()[i]);
    }
}

/// Adds the stat `stat` under `stat_name` to the repository `repo_name`,
/// replacing any of that name. The repository must be configured.
pub fn add_stat(config: &mut GlobalConfig, repo_name: &str, stat_name: &str, stat: UserStatConfig)
    requires
        config_wf(*old(config)),
        lookup(old(config).repos@, repo_name@) is Some,
    ensures
        config_wf(*final(config)),
        lookup(final(config).repos@, repo_name@) matches Some(rc) && rc.stats matches Some(s)
            && lookup(s@, stat_name@) == Some(stat) && forall|k: Seq<char>|
            k != stat_name@ ==> lookup(s@, k) == match lookup(old(config).repos@, repo_name@)->Some_0.stats {
                Some(old_s) => lookup(old_s@, k),
                None => None,
            },
        forall|k: Seq<char>|
            k != repo_name@ ==> lookup(final(config).repos@, k) == lookup(old(config).repos@, k),
        final(config).stat_storage == old(config).stat_storage,
        final(config).repo_storage_location == old(config).repo_storage_location,
{
    let i = match find_key(&config.repos, repo_name) {
        Some(i) => i,
        None => vstd::pervasive::unreached(),
    };
    let ghost before = config.repos@;
    let (key, repo) = config.repos.remove(i);
    let UserRepoConfig { name, source, storage_path, default_branch, stats } = repo;
    let mut stats = match stats {
        Some(s) => s,
        None => Vec::new(),
    };
    proof {
        assert(before[i as int].1.stats matches Some(s) ==> keys_unique(s@));
    }
    set_entry(&mut stats, stat_name.to_string(), stat);
    let repo = UserRepoConfig { name, source, storage_path, default_branch, stats: Some(stats) };
    config.repos.insert(i, (key, repo));
    proof {
        let after = config.repos@;
        assert(after =~= before.update(i as int, (key, repo)));
        assert forall|a: int, b: int| 0 <= a < b < after.len() implies (#[trigger] after[a]).0@
            != (#[trigger] after[b]).0@ by {
            assert(before[a].0@ != before[b].0@);
        }
        assert forall|j: int| 0 <= j < i implies (#[trigger] after[j]).0@ != repo_name@ by {
            assert(after[j] == before[j]);
            if before[j].0@ == repo_name@ {
                assert(before[j].0@ == before[i as int].0@);
            }
        }
        lemma_lookup_at(after, repo_name@, i as int);
        assert forall|k: Seq<char>| k != repo_name@ implies lookup(after, k) == lookup(before, k) by {
            lemma_lookup_other(before, i as int, (key, repo), k);
        }
        assert forall|j: int| 0 <= j < after.len() implies match (#[trigger] after[j]).1.stats {
            Some(s) => keys_unique(s@),
            None => true,
        } by {
            if j != i {
                assert(after[j] == before[j]);
            }
        }
    }
}

// ---------------------------------------------------------------------------
// Stat parameters
// ---------------------------------------------------------------------------
/// The field `name` of `v`, when `v` is an object.
pub open spec fn field_of(v: ParamValue, name: Seq<char>) -> Option<ParamValue> {
    match v {
        ParamValue::Object(fields) => lookup(fields@, name),
        _ => None,
    }
}

/// The parameter `name` of a stat's parameters.
pub open spec fn param_field(params: Option<ParamValue>, name: Seq<char>) -> Option<ParamValue> {
    match params {
        Some(p) => field_of(p, name),
        None => None,
    }
}

/// `t` is a count: one or more decimal digits.
pub open spec fn is_count(t: Seq<char>) -> bool {
    t.len() > 0 && forall|i: int| 0 <= i < t.len() ==> '0' <= #[trigger] t[i] <= '9'
}

/// The number that the decimal digits `t` write.
pub open spec fn count_value(t: Seq<char>) -> int
    decreases t.len(),
{
    if t.len() == 0 {
        0
    } else {
        count_value(t.drop_last()) * 10 + (t.last() as int - '0' as int)
    }
}

/// The texts among `items`, in order.
pub open spec fn texts_of(items: Seq<ParamValue>) -> Seq<Seq<char>>
    decreases items.len(),
{
    if items.len() == 0 {
        Seq::empty()
    } else {
        match items.last() {
            ParamValue::Text(s) => texts_of(items.drop_last()).push(s@),
            _ => texts_of(items.drop_last()),
        }
    }
}

/// The parameter `name` can be read as text: it is absent or a text.
pub open spec fn param_is_text(params: Option<ParamValue>, name: Seq<char>) -> bool {
    param_field(params, name) matches Some(v) ==> v is Text
}

/// The parameter `name` can be read as a count that fits a `usize`.
pub open spec fn param_is_count(params: Option<ParamValue>, name: Seq<char>) -> bool {
    param_field(params, name) matches Some(v) ==> (v matches ParamValue::Number(t) && is_count(t@)
        && count_value(t@) <= usize::MAX)
}

/// The parameter `name` as text.
pub open spec fn param_text(params: Option<ParamValue>, name: Seq<char>) -> Option<Seq<char>> {
    match param_field(params, name) {
        Some(ParamValue::Text(s)) => Some(s@),
        _ => None,
    }
}

/// The parameter `name` as a count.
pub open spec fn param_count(params: Option<ParamValue>, name: Seq<char>) -> Option<int> {
    match param_field(params, name) {
        Some(ParamValue::Number(t)) => Some(count_value(t@)),
        _ => None,
    }
}

/// The texts of the list parameter `name`; none when it is absent or not
/// a list.
pub open spec fn param_texts(params: Option<ParamValue>, name: Seq<char>) -> Option<Seq<Seq<char>>> {
    match param_field(params, name) {
        Some(ParamValue::List(items)) => Some(texts_of(items@)),
        _ => None,
    }
}

/// The count written by the decimal digits of `t`.
fn parse_count(t: &str) -> (r: usize)
    requires
        is_count(t@),
        count_value(t@) <= usize::MAX,
    ensures
        r == count_value(t@),
{
    let cs = chars_of(t);
    let mut value: usize = 0;
    let mut i: usize = 0;
    while i < cs.len()
        invariant
            cs@ == t@,
            i <= cs@.len(),
            is_count(t@),
            count_value(t@) <= usize::MAX,
            value == count_value(cs@.take(i as int)),
        decreases cs.len() - i,
    {
        proof {
            assert(cs@.take(i + 1).drop_last() =~= cs@.take(i as int));
            assert('0' <= cs@[i as int] <= '9');
            lemma_count_prefix(cs@, i + 1);
        }
        let d: usize = (cs[i] as u32 - '0' as u32) as usize;
        value = value * 10 + d;
        i += 1;
    }
    proof {
        assert(cs@.take(cs@.len() as int) =~= cs@);
    }
    value
}

proof fn lemma_count_prefix(t: Seq<char>, k: int)
    requires
        0 <= k <= t.len(),
        forall|i: int| 0 <= i < t.len() ==> '0' <= #[trigger] t[i] <= '9',
    ensures
        0 <= count_value(t.take(k)) <= count_value(t),
    decreases t.len(),
{
    if k < t.len() {
        lemma_count_prefix(t.drop_last(), k);
        assert(t.drop_last().take(k) =~= t.take(k));
        assert('0' <= t[t.len() - 1] <= '9');
        assert forall|i: int| 0 <= i < t.drop_last().len() implies '0' <= #[trigger] t.drop_last()[i] <= '9' by {
            assert(t.drop_last()[i] == t[i]);
        }
        lemma_count_nonneg(t.drop_last());
    } else {
        assert(t.take(k) =~= t);
        lemma_count_nonneg(t);
    }
}

proof fn lemma_count_nonneg(t: Seq<char>)
    requires
        forall|i: int| 0 <= i < t.len() ==> '0' <= #[trigger] t[i] <= '9',
    ensures
        count_value(t) >= 0,
    decreases t.len(),
{
    if t.len() > 0 {
        lemma_count_nonneg(t.drop_last());
    }
}

impl UserStatConfig {
    /// The parameter `name`.
    pub fn get_param_value(&self, name: &str) -> (r: Option<&ParamValue>)
        ensures
            match r {
                Some(v) => param_field(self.params, name@) == Some(*v),
                None => param_field(self.params, name@) is None,
            },
    {
        match &self.params {
            Some(ParamValue::Object(fields)) => match find_key(fields, name) {
                Some(i) => Some(&fields[i].1),
                None => None,
            },
            _ => None,
        }
    }

    /// The text parameter `name`, which must be absent or a text.
    pub fn get_param_string(&self, name: &str) -> (r: Option<String>)
        requires
            param_is_text(self.params, name@),
        ensures
            crate::tokei_stats::optional_text(r) == param_text(self.params, name@),
    {
        match self.get_param_value(name) {
            Some(ParamValue::Text(s)) => Some(s.clone()),
            _ => None,
        }
    }

    /// The count parameter `name`, which must be absent or a count that fits
    /// a `usize`.
    pub fn get_param_usize(&self, name: &str) -> (r: Option<usize>)
        requires
            param_is_count(self.params, name@),
        ensures
            match r {
                Some(n) => param_count(self.params, name@) == Some(n as int),
                None => param_count(self.params, name@) is None,
            },
    {
        match self.get_param_value(name) {
            Some(ParamValue::Number(t)) => Some(parse_count(t.as_str())),
            _ => None,
        }
    }

    /// The texts of the list parameter `name` (other items left out); none
    /// when the parameter is absent or not a list.
    pub fn get_param_array_string(&self, name: &str) -> (r: Option<Vec<String>>)
        ensures
            match r {
                Some(v) => param_texts(self.params, name@) == Some(views_of(v@)),
                None => param_texts(self.params, name@) is None,
            },
    {
        match self.get_param_value(name) {
            Some(ParamValue::List(items)) => {
                let mut out: Vec<String> = Vec::new();
                let mut i: usize = 0;
                while i < items.len()
                    invariant
                        i <= items@.len(),
                        views_of(out@) == texts_of(items@.take(i as int)),
                    decreases items.len() - i,
                {
                    proof {
                        assert(items@.take(i + 1).drop_last() =~= items@.take(i as int));
                        assert(items@.take(i + 1).last() == items@[i as int]);
                    }
                    match &items[i] {
                        ParamValue::Text(s) => {
                            let ghost before = views_of(out@);
                            out.push(s.clone());
                            proof {
                                assert(views_of(out@) =~= before.push(s@));
                            }
                        },
                        _ => {},
                    }
                    i += 1;
                }
                proof {
                    assert(items@.take(items@.len() as int) =~= items@);
                }
                Some(out)
            },
            _ => None,
        }
    }
}

} // verus!
