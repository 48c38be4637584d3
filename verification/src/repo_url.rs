//! Clone URLs: "org/repo" shorthand for GitHub, or a full URL.
use crate::paths::split_slash;
use crate::text::{chars_of, concat, has_suffix, starts_with, string_of, views_of};
use crate::tokei_stats::optional_text;
use vstd::prelude::*;

verus! {

#[verifier::external_type_specification]
#[verifier::external_body]
pub struct ExUrl(url::Url);

/// Whether `url::Url::parse` accepts `s`.
pub uninterp spec fn url_parses(s: Seq<char>) -> bool;

/// `Url::domain` of the URL that `url::Url::parse` makes of `s`.
pub uninterp spec fn url_domain(s: Seq<char>) -> Option<Seq<char>>;

/// `Url::path_segments` of the URL that `url::Url::parse` makes of `s`.
pub uninterp spec fn url_path_segments(s: Seq<char>) -> Option<Seq<Seq<char>>>;

/// `url::Url::parse(s)`. Claimed: it succeeds exactly when `url_parses(s)`.
#[verifier::external_body]
fn parse_url(s: &str) -> (r: Option<url::Url>)
    ensures
        r is Some <==> url_parses(s@),
{
    match url::Url::parse(s) {
        Ok(u) => Some(u),
        Err(_) => None,
    }
}

/// A parsed URL with its text. Only `ParsedUrl::parse` builds one, so the
/// URL is always the one parsed from `text`.
pub struct ParsedUrl {
    url: url::Url,
    text: String,
}

impl ParsedUrl {
    /// The text the URL was parsed from.
    pub closed spec fn text_spec(&self) -> Seq<char> {
        self.text@
    }

    /// Parses `s`; `None` where it is not a URL.
    pub fn parse(s: &str) -> (r: Option<ParsedUrl>)
        ensures
            r is Some <==> url_parses(s@),
            r matches Some(p) ==> p.text_spec() == s@,
    {
        match parse_url(s) {
            Some(url) => Some(ParsedUrl { url, text: s.to_string() }),
            None => None,
        }
    }
}

/// `Url::domain` of the parsed URL. Claimed: it is `url_domain` of the
/// text, since the URL was parsed from it.
#[verifier::external_body]
fn url_domain_of(p: &ParsedUrl) -> (r: Option<String>)
    ensures
        crate::tokei_stats::optional_text(r) == url_domain(p.text_spec()),
{
    match p.url.domain() {
        Some(d) => Some(d.to_string()),
        None => None,
    }
}

/// `Url::path_segments` of the parsed URL, each segment as a string.
/// Claimed: they are `url_path_segments` of the text.
#[verifier::external_body]
fn url_segments_of(p: &ParsedUrl) -> (r: Option<Vec<String>>)
    ensures
        match r {
            Some(v) => url_path_segments(p.text_spec()) == Some(views_of(v@)),
            None => url_path_segments(p.text_spec()) is None,
        },
{
    match p.url.path_segments() {
        Some(segments) => Some(segments.map(|s| s.to_string()).collect()),
        None => None,
    }
}

/// `s` with every trailing `suffix` removed, as `str::trim_end_matches`.
pub open spec fn trim_end_all(s: Seq<char>, suffix: Seq<char>) -> Seq<char>
    decreases s.len(),
{
    if suffix.len() > 0 && has_suffix(s, suffix) {
        trim_end_all(s.subrange(0, s.len() - suffix.len()), suffix)
    } else {
        s
    }
}

/// The message for shorthand that is not "org/repo".
pub open spec fn shorthand_error() -> Seq<char> {
    "Invalid clone URL format. Expected format: $some-org/$some-repo or a full URL like https://github.com/postgres/postgres.git."@
}

/// The message for a URL whose path lacks an organization and a name.
pub open spec fn short_path_error() -> Seq<char> {
    "Invalid clone URL format. Expected at least an organization and a repository name in the path."@
}

/// The message for text that is not a URL.
pub open spec fn unparsable_error() -> Seq<char> {
    "Failed to parse the clone URL."@
}

/// The text is GitHub shorthand ("org/repo"): it holds a '/' and is not an
/// http or https URL.
pub open spec fn is_shorthand(s: Seq<char>) -> bool {
    s.contains('/') && !crate::text::has_prefix(s, "http://"@) && !crate::text::has_prefix(
        s,
        "https://"@,
    )
}

/// What a parsed URL `s` gives, from its domain and path segments (as
/// `url` reports them): the URL itself, the domain ("unknown" when there is
/// none), the first segment and the last without its trailing ".git"; an
/// error when there are fewer than two segments.
pub open spec fn url_parts(
    s: Seq<char>,
    domain: Option<Seq<char>>,
    segments: Option<Seq<Seq<char>>>,
) -> Result<(Seq<char>, Seq<char>, Seq<char>, Seq<char>), Seq<char>> {
    let d = match domain {
        Some(d) => d,
        None => "unknown"@,
    };
    let segs = match segments {
        Some(v) => v,
        None => Seq::empty(),
    };
    if segs.len() >= 2 {
        Ok((s, d, segs[0], trim_end_all(segs.last(), ".git"@)))
    } else {
        Err(short_path_error())
    }
}

/// What `parse_clone_url` gives: the URL to clone from, the domain, the
/// organization and the repository name.
pub open spec fn clone_url_parts(s: Seq<char>) -> Result<
    (Seq<char>, Seq<char>, Seq<char>, Seq<char>),
    Seq<char>,
> {
    if is_shorthand(s) {
        let parts = split_slash(s);
        if parts.len() == 2 {
            Ok(("https://github.com/"@ + s + ".git"@, "github.com"@, parts[0], parts[1]))
        } else {
            Err(shorthand_error())
        }
    } else if url_parses(s) {
        url_parts(s, url_domain(s), url_path_segments(s))
    } else {
        Err(unparsable_error())
    }
}

/// The views of the four parts.
pub open spec fn parts_view(p: (String, String, String, String)) -> (
    Seq<char>,
    Seq<char>,
    Seq<char>,
    Seq<char>,
) {
    (p.0@, p.1@, p.2@, p.3@)
}

/// `s` with every trailing ".git" removed.
fn trim_git_suffix(s: &str) -> (r: String)
    ensures
        r@ == trim_end_all(s@, ".git"@),
{
    let suffix = vec!['.', 'g', 'i', 't'];
    proof {
        reveal_strlit(".git");
        assert(suffix@ =~= ".git"@);
        assert(suffix@.len() == 4);
    }
    let mut cs = chars_of(s);
    let mut more = crate::text::ends_with(cs.as_slice(), suffix.as_slice());
    while more
        invariant
            suffix@ == ".git"@,
            suffix@.len() == 4,
            more == has_suffix(cs@, suffix@),
            trim_end_all(cs@, ".git"@) == trim_end_all(s@, ".git"@),
        decreases cs@.len(),
    {
        let ghost before = cs@;
        let keep = cs.len() - 4;
        cs.truncate(keep);
        proof {
            assert(cs@ =~= before.subrange(0, before.len() - 4));
        }
        more = crate::text::ends_with(cs.as_slice(), suffix.as_slice());
    }
    string_of(cs.as_slice())
}

/// The parts of the parsed URL `clone_url` from its domain and its path
/// segments (see `url_parts`).
pub fn parts_of_url(clone_url: &str, domain: Option<String>, segments: Option<Vec<String>>) -> (r: Result<
    (String, String, String, String),
    String,
>)
    ensures
        match url_parts(clone_url@, optional_text(domain), optional_texts(segments)) {
            Ok(p) => r matches Ok(q) && parts_view(q) == p,
            Err(m) => r matches Err(e) && e@ == m,
        },
{
    proof {
        reveal_strlit("unknown");
        reveal_strlit(".git");
    }
    let domain = match domain {
        Some(d) => d,
        None => "unknown".to_string(),
    };
    let segments = match segments {
        Some(v) => v,
        None => {
            let empty: Vec<String> = Vec::new();
            proof {
                assert(views_of(empty@) =~= Seq::<Seq<char>>::empty());
            }
            empty
        },
    };
    if segments.len() >= 2 {
        let last = segments.len() - 1;
        let repo = trim_git_suffix(segments[last].as_str());
        let org = segments[0].clone();
        proof {
            assert(views_of(segments@)[0] == segments@[0]@);
            assert(views_of(segments@).last() == segments@[last as int]@);
        }
        Ok((clone_url.to_string(), domain, org, repo))
    } else {
        Err("Invalid clone URL format. Expected at least an organization and a repository name in the path.".to_string())
    }
}

/// The texts of optional strings.
pub open spec fn optional_texts(v: Option<Vec<String>>) -> Option<Seq<Seq<char>>> {
    match v {
        Some(v) => Some(views_of(v@)),
        None => None,
    }
}

/// Reads a clone URL: "org/repo" stands for
/// "https://github.com/org/repo.git"; anything else must be a URL whose
/// path has at least two segments, the first naming the organization and
/// the last the repository (a trailing ".git" left out). Returns the URL to
/// clone from, the domain ("unknown" when the URL has none), the
/// organization and the repository name.
pub fn parse_clone_url(clone_url: &str) -> (r: Result<(String, String, String, String), String>)
    ensures
        match clone_url_parts(clone_url@) {
            Ok(p) => r matches Ok(q) && parts_view(q) == p,
            Err(m) => r matches Err(e) && e@ == m,
        },
{
    proof {
        reveal_strlit("http://");
        reveal_strlit("https://");
        reveal_strlit("github.com");
        reveal_strlit("https://github.com/");
        reveal_strlit(".git");
        reveal_strlit("unknown");
    }
    let cs = chars_of(clone_url);
    let http = vec!['h', 't', 't', 'p', ':', '/', '/'];
    let https = vec!['h', 't', 't', 'p', 's', ':', '/', '/'];
    proof {
        assert(http@ =~= "http://"@);
        assert(https@ =~= "https://"@);
    }
    let mut has_slash = false;
    let mut i: usize = 0;
    while i < cs.len()
        invariant
            cs@ == clone_url@,
            i <= cs@.len(),
            has_slash <==> exists|j: int| 0 <= j < i && cs@[j] == '/',
        decreases cs.len() - i,
    {
        if cs[i] == '/' {
            has_slash = true;
        }
        i += 1;
    }
    proof {
        if has_slash {
            let j = choose|j: int| 0 <= j < cs@.len() && cs@[j] == '/';
            assert(clone_url@.contains('/')) by {
                assert(clone_url@[j] == '/');
            }
        } else {
            assert(!clone_url@.contains('/'));
        }
    }
    if has_slash && !starts_with(cs.as_slice(), http.as_slice()) && !starts_with(
        cs.as_slice(),
        https.as_slice(),
    ) {
        let parts = crate::paths::path_segments(clone_url);
        if parts.len() == 2 {
            let base = concat("https://github.com/", clone_url);
            let full = concat(base.as_str(), ".git");
            let org = string_of(parts[0].as_slice());
            let repo = string_of(parts[1].as_slice());
            proof {
                assert(crate::paths::char_seqs(parts@)[0] == parts@[0]@);
                assert(crate::paths::char_seqs(parts@)[1] == parts@[1]@);
            }
            Ok((full, "github.com".to_string(), org, repo))
        } else {
            Err("Invalid clone URL format. Expected format: $some-org/$some-repo or a full URL like https://github.com/postgres/postgres.git.".to_string())
        }
    } else {
        match ParsedUrl::parse(clone_url) {
            Some(parsed) => {
                let domain = url_domain_of(&parsed);
                let segments = url_segments_of(&parsed);
                parts_of_url(clone_url, domain, segments)
            },
            None => Err("Failed to parse the clone URL.".to_string()),
        }
    }
}

/// Where a clone of a repository is kept: "<domain>/<org>/<repo>".
pub fn clone_storage_path(domain: &str, org: &str, repo: &str) -> (r: String)
    ensures
        r@ == domain@ + "/"@ + org@ + "/"@ + repo@,
{
    let a = concat(domain, "/");
    let b = concat(a.as_str(), org);
    let c = concat(b.as_str(), "/");
    concat(c.as_str(), repo)
}

} // verus!
