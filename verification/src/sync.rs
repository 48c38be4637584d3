//! Keeping configured repositories up to date: where to fetch each one
//! from, and when its tool report is due again.
use crate::config::{join_path, path_join, UserRepoConfig};
use crate::text::{chars_of, concat};
use vstd::prelude::*;

verus! {

/// Days after which a tool report is refreshed.
pub const TOOL_REPORT_MAX_AGE_DAYS: u64 = 30;

/// The URL a repository is fetched from: "https://<source>/<name>" when the
/// source looks like a domain (holds a '.'), none otherwise.
pub fn get_repo_url(repo: &UserRepoConfig) -> (r: Option<String>)
    ensures
        match r {
            Some(u) => repo.source@.contains('.') && u@ == "https://"@ + repo.source@ + "/"@
                + repo.name@,
            None => !repo.source@.contains('.'),
        },
{
    let cs = chars_of(repo.source.as_str());
    let mut i: usize = 0;
    while i < cs.len()
        invariant
            cs@ == repo.source@,
            i <= cs@.len(),
            forall|j: int| 0 <= j < i ==> cs@[j] != '.',
        decreases cs.len() - i,
    {
        if cs[i] == '.' {
            let a = concat("https://", repo.source.as_str());
            let b = concat(a.as_str(), "/");
            proof {
                assert(repo.source@[i as int] == '.');
            }
            return Some(concat(b.as_str(), repo.name.as_str()));
        }
        i += 1;
    }
    None
}

/// Where the tool report of `repo_name` is kept, below the stats directory.
pub fn get_tool_report_path(stats_dir: &str, repo_name: &str) -> (r: String)
    ensures
        r@ == path_join(path_join(stats_dir@, "tool_reports"@), repo_name@ + ".ndjson"@),
{
    let dir = join_path(stats_dir, "tool_reports");
    let file = concat(repo_name, ".ndjson");
    join_path(dir.as_str(), file.as_str())
}

/// Whether a tool report is due: when there is none, or when its age
/// (`secs` seconds and `nanos` nanoseconds) exceeds the maximum age.
pub fn tool_scan_needed(age: Option<(u64, u32)>) -> (r: bool)
    ensures
        r == match age {
            None => true,
            Some((secs, nanos)) => secs > TOOL_REPORT_MAX_AGE_DAYS * 86400 || (secs
                == TOOL_REPORT_MAX_AGE_DAYS * 86400 && nanos > 0),
        },
{
    let max_secs: u64 = TOOL_REPORT_MAX_AGE_DAYS * 24 * 60 * 60;
    match age {
        None => true,
        Some((secs, nanos)) => secs > max_secs || (secs == max_secs && nanos > 0),
    }
}

} // verus!
