# repotracer

Repotracer watches a code base change over time: it samples a repository's
history (every commit, or one commit per hour, day, week or month), runs a
measurement over the files of each sampled commit (lines of code per
language, regex matches, files matching a glob, a jq query, a command per
file) and stores and plots the results. Its "theseus" analysis follows how
many lines of each year's code survive, commit after commit.

## Layout

- `src/` is the library, verified with Verus. Each public function states
  what it returns in its `ensures`; laws that relate several functions are
  public proof functions.
  - `file_blame`, `snapshot`: line blame of files and of a whole repository
    (line diffs of changed files, applied bottom-up; renames; the year
    cohort of a commit; cohort counts).
  - `granularity`, `dates`: which commits a granularity selects, and dates
    given loosely on the command line.
  - `repo_cache`, `repo_sets`, `tree_walk`: the flattened trees of a
    repository, numbered while they are read, and the files of a commit.
  - `measurement`, `tokei_stats`, `collectors`, `jq_stats`, `stat`: the
    measurements and how their per-file results are summed up.
  - `config`, `sync`, `repo_url`, `paths`, `glob_pattern`, `guess_tools`,
    `text`: configuration lookups, clone URLs, path handling, glob patterns
    and tool detection.
- `app/` is the command-line program around the library: argument handling,
  reading repositories with gix, files, terminal output, plotting.
- `tests/` exercises the library on concrete values.
