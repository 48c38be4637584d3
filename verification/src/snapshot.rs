use crate::file_blame::{
    apply_sorted, count_map, hunks_fit, repeat, sort_by_start, FileBlame, Keyable, LineDiffs, LineNumber,
};
use crate::text::concat;
use gix::diff::blob::platform::resource::ByteLinesWithoutTerminator;
use gix::diff::blob::{Algorithm, Diff, InternedInput};
use std::collections::HashMap;
use vstd::prelude::*;
use vstd::std_specs::hash::obeys_key_model;

verus! {

// ---------------------------------------------------------------------------
// Model of a snapshot: the files in it, each with the cohorts of its lines.
// ---------------------------------------------------------------------------
/// The lines of file `p` in `v`, if `v` holds it.
pub open spec fn lookup<K>(v: Seq<(Seq<u8>, Seq<K>)>, p: Seq<u8>) -> Option<Seq<K>> {
    if exists|i: int| 0 <= i < v.len() && #[trigger] v[i].0 == p {
        Some(v[choose|i: int| 0 <= i < v.len() && #[trigger] v[i].0 == p].1)
    } else {
        None
    }
}

/// No path occurs twice.
pub open spec fn unique_paths<K>(v: Seq<(Seq<u8>, Seq<K>)>) -> bool {
    forall|i: int, j: int| 0 <= i < j < v.len() ==> #[trigger] v[i].0 != #[trigger] v[j].0
}

/// `v` with file `p` holding `lines`: replaced in place if present, appended
/// otherwise.
pub open spec fn put<K>(v: Seq<(Seq<u8>, Seq<K>)>, p: Seq<u8>, lines: Seq<K>) -> Seq<(Seq<u8>, Seq<K>)> {
    if exists|i: int| 0 <= i < v.len() && #[trigger] v[i].0 == p {
        v.update(choose|i: int| 0 <= i < v.len() && #[trigger] v[i].0 == p, (p, lines))
    } else {
        v.push((p, lines))
    }
}

/// `v` without file `p`.
pub open spec fn remove_path<K>(v: Seq<(Seq<u8>, Seq<K>)>, p: Seq<u8>) -> Seq<(Seq<u8>, Seq<K>)> {
    if exists|i: int| 0 <= i < v.len() && #[trigger] v[i].0 == p {
        v.remove(choose|i: int| 0 <= i < v.len() && #[trigger] v[i].0 == p)
    } else {
        v
    }
}

/// The lines of all files, one file after the other.
pub open spec fn all_lines<K>(v: Seq<(Seq<u8>, Seq<K>)>) -> Seq<K>
    decreases v.len(),
{
    if v.len() == 0 {
        Seq::empty()
    } else {
        all_lines(v.drop_last()) + v.last().1
    }
}

proof fn lemma_index_is_choice<K>(v: Seq<(Seq<u8>, Seq<K>)>, p: Seq<u8>, i: int)
    requires
        unique_paths(v),
        0 <= i < v.len(),
        v[i].0 == p,
    ensures
        (choose|j: int| 0 <= j < v.len() && #[trigger] v[j].0 == p) == i,
        lookup(v, p) == Some(v[i].1),
{
    let j = choose|j: int| 0 <= j < v.len() && #[trigger] v[j].0 == p;
    if j != i {
        if j < i {
            assert(v[j].0 != v[i].0);
        } else {
            assert(v[i].0 != v[j].0);
        }
    }
}

/// Reading a file after writing it gives back what was written; other files
/// are untouched; paths stay unique.
pub proof fn lemma_put_lookup<K>(v: Seq<(Seq<u8>, Seq<K>)>, p: Seq<u8>, lines: Seq<K>, q: Seq<u8>)
    requires
        unique_paths(v),
    ensures
        unique_paths(put(v, p, lines)),
        lookup(put(v, p, lines), q) == if q == p {
            Some(lines)
        } else {
            lookup(v, q)
        },
{
    let w = put(v, p, lines);
    if exists|i: int| 0 <= i < v.len() && #[trigger] v[i].0 == p {
        let i = choose|i: int| 0 <= i < v.len() && #[trigger] v[i].0 == p;
        assert(unique_paths(w)) by {
            assert forall|a: int, b: int| 0 <= a < b < w.len() implies #[trigger] w[a].0
                != #[trigger] w[b].0 by {
                assert(v[a].0 != v[b].0);
            }
        }
        if q == p {
            lemma_index_is_choice(w, p, i);
        } else if exists|k: int| 0 <= k < v.len() && #[trigger] v[k].0 == q {
            let k = choose|k: int| 0 <= k < v.len() && #[trigger] v[k].0 == q;
            lemma_index_is_choice(v, q, k);
            lemma_index_is_choice(w, q, k);
        } else {
            assert(!exists|k: int| 0 <= k < w.len() && #[trigger] w[k].0 == q) by {
                if exists|k: int| 0 <= k < w.len() && #[trigger] w[k].0 == q {
                    let k = choose|k: int| 0 <= k < w.len() && #[trigger] w[k].0 == q;
                    assert(v[k].0 == q);
                }
            }
        }
    } else {
        assert(unique_paths(w)) by {
            assert forall|a: int, b: int| 0 <= a < b < w.len() implies #[trigger] w[a].0
                != #[trigger] w[b].0 by {
                if b == v.len() {
                    assert(v[a].0 != p);
                } else {
                    assert(v[a].0 != v[b].0);
                }
            }
        }
        if q == p {
            lemma_index_is_choice(w, p, v.len() as int);
        } else if exists|k: int| 0 <= k < v.len() && #[trigger] v[k].0 == q {
            let k = choose|k: int| 0 <= k < v.len() && #[trigger] v[k].0 == q;
            lemma_index_is_choice(v, q, k);
            lemma_index_is_choice(w, q, k);
        } else {
            assert(!exists|k: int| 0 <= k < w.len() && #[trigger] w[k].0 == q) by {
                if exists|k: int| 0 <= k < w.len() && #[trigger] w[k].0 == q {
                    let k = choose|k: int| 0 <= k < w.len() && #[trigger] w[k].0 == q;
                    assert(k < v.len());
                    assert(v[k].0 == q);
                }
            }
        }
    }
}

/// After removing a file it is gone; other files are untouched; paths stay
/// unique.
pub proof fn lemma_remove_lookup<K>(v: Seq<(Seq<u8>, Seq<K>)>, p: Seq<u8>, q: Seq<u8>)
    requires
        unique_paths(v),
    ensures
        unique_paths(remove_path(v, p)),
        lookup(remove_path(v, p), q) == if q == p {
            None
        } else {
            lookup(v, q)
        },
{
    let w = remove_path(v, p);
    if exists|i: int| 0 <= i < v.len() && #[trigger] v[i].0 == p {
        let i = choose|i: int| 0 <= i < v.len() && #[trigger] v[i].0 == p;
        assert(forall|k: int| 0 <= k < w.len() ==> #[trigger] w[k] == if k < i {
            v[k]
        } else {
            v[k + 1]
        });
        assert(unique_paths(w)) by {
            assert forall|a: int, b: int| 0 <= a < b < w.len() implies #[trigger] w[a].0
                != #[trigger] w[b].0 by {
                let a2 = if a < i {
                    a
                } else {
                    a + 1
                };
                let b2 = if b < i {
                    b
                } else {
                    b + 1
                };
                assert(v[a2].0 != v[b2].0);
            }
        }
        if q == p {
            assert(!exists|k: int| 0 <= k < w.len() && #[trigger] w[k].0 == q) by {
                if exists|k: int| 0 <= k < w.len() && #[trigger] w[k].0 == q {
                    let k = choose|k: int| 0 <= k < w.len() && #[trigger] w[k].0 == q;
                    let k2 = if k < i {
                        k
                    } else {
                        k + 1
                    };
                    if k2 < i {
                        assert(v[k2].0 != v[i].0);
                    } else {
                        assert(v[i].0 != v[k2].0);
                    }
                }
            }
        } else if exists|k: int| 0 <= k < v.len() && #[trigger] v[k].0 == q {
            let k = choose|k: int| 0 <= k < v.len() && #[trigger] v[k].0 == q;
            lemma_index_is_choice(v, q, k);
            let k2 = if k < i {
                k
            } else {
                k - 1
            };
            assert(w[k2] == v[k]);
            lemma_index_is_choice(w, q, k2);
        } else {
            assert(!exists|k: int| 0 <= k < w.len() && #[trigger] w[k].0 == q) by {
                if exists|k: int| 0 <= k < w.len() && #[trigger] w[k].0 == q {
                    let k = choose|k: int| 0 <= k < w.len() && #[trigger] w[k].0 == q;
                    let k2 = if k < i {
                        k
                    } else {
                        k + 1
                    };
                    assert(v[k2].0 == q);
                }
            }
        }
    }
}

// ---------------------------------------------------------------------------
// Snapshot
// ---------------------------------------------------------------------------
/// Blame information for all the files of a repository at one commit.
#[derive(Debug)]
pub struct RepositoryBlameSnapshot<K: Keyable> {
    commit_id: Vec<u8>,
    file_blames: Vec<(Vec<u8>, FileBlame<K>)>,
}

/// Something to do to a snapshot, computed from the diff of two commits.
#[derive(Debug)]
pub enum SnapshotAction<K: Keyable> {
    AddFile { location: Vec<u8>, total_lines: LineNumber, cohort: K },
    DeleteFile { location: Vec<u8> },
    ApplyLineDiffs { location: Vec<u8>, line_diffs: LineDiffs<K> },
    RenameFile { source_location: Vec<u8>, location: Vec<u8> },
}

/// Byte-wise equality of two paths.
fn same_path(a: &[u8], b: &[u8]) -> (r: bool)
    ensures
        r == (a@ == b@),
{
    if a.len() != b.len() {
        return false;
    }
    let mut i: usize = 0;
    while i < a.len()
        invariant
            a@.len() == b@.len(),
            i <= a@.len(),
            forall|j: int| 0 <= j < i ==> a@[j] == b@[j],
        decreases a.len() - i,
    {
        if a[i] != b[i] {
            return false;
        }
        i += 1;
    }
    proof {
        assert(a@ =~= b@);
    }
    true
}

/// A copy of a path.
fn copy_path(p: &Vec<u8>) -> (r: Vec<u8>)
    ensures
        r@ == p@,
{
    let mut out: Vec<u8> = Vec::new();
    let mut i: usize = 0;
    while i < p.len()
        invariant
            i <= p@.len(),
            out@ == p@.take(i as int),
        decreases p.len() - i,
    {
        out.push(p[i]);
        i += 1;
        proof {
            assert(out@ =~= p@.take(i as int));
        }
    }
    proof {
        assert(out@ =~= p@);
    }
    out
}

/// What bstr's `Debug` shows of the byte string `p`: `format!("{:?}",
/// BStr::new(p))`, between double quotes.
pub uninterp spec fn bstr_debug(p: Seq<u8>) -> Seq<char>;

/// The bytes are printable ASCII other than '"', '\'' and '\\'.
pub open spec fn plain_ascii(p: Seq<u8>) -> bool {
    forall|i: int|
        0 <= i < p.len() ==> 0x20 <= #[trigger] p[i] <= 0x7e && p[i] != 0x22 && p[i] != 0x27 && p[i]
            != 0x5c
}

/// Each byte as the character of that code.
pub open spec fn ascii_text(p: Seq<u8>) -> Seq<char> {
    p.map_values(|b: u8| b as char)
}

/// `format!("{:?}", BStr::new(path))`, bstr's `Debug` of a byte string
/// (through gix's re-export of bstr). Claimed: the text is
/// `bstr_debug(path)`; a byte that is printable ASCII other than '"', '\''
/// and '\\' is written as its character (bstr writes each ASCII character
/// through `u8::escape_ascii`, which leaves those alone), and the whole is
/// put between double quotes.
#[verifier::external_body]
fn debug_bytes(path: &[u8]) -> (r: String)
    ensures
        r@ == bstr_debug(path@),
        plain_ascii(path@) ==> r@ == seq!['"'] + ascii_text(path@) + seq!['"'],
{
    format!("{:?}", gix::bstr::BStr::new(path))
}

/// How a path is shown in error messages: as bstr shows a byte string.
pub open spec fn shown_path(p: Seq<u8>) -> Seq<char> {
    bstr_debug(p)
}

/// `prefix`, the path as shown in messages, then `suffix`.
fn missing_file_message(prefix: &str, path: &[u8], suffix: &str) -> (r: String)
    ensures
        r@ == prefix@ + shown_path(path@) + suffix@,
        plain_ascii(path@) ==> r@ == prefix@ + seq!['"'] + ascii_text(path@) + seq!['"'] + suffix@,
{
    let q = debug_bytes(path);
    let a = concat(prefix, q.as_str());
    concat(a.as_str(), suffix)
}

/// The message of a failed rename of `p`.
pub open spec fn rename_error(p: Seq<u8>) -> Seq<char> {
    "File not found for rename: "@ + shown_path(p)
}

/// The message of line diffs for a file `p` the snapshot lacks.
pub open spec fn missing_blame_error(p: Seq<u8>) -> Seq<char> {
    "Could not find blame info for path "@ + shown_path(p) + ", most likely it was moved"@
}

/// The message of line diffs that do not fit the blame of file `p`.
pub open spec fn unfit_diffs_error(p: Seq<u8>) -> Seq<char> {
    "Line diffs do not fit the blame of path "@ + shown_path(p)
}

impl<K: Keyable> View for RepositoryBlameSnapshot<K> {
    type V = Seq<(Seq<u8>, Seq<K>)>;

    /// The files of the snapshot, each with the cohorts of its lines.
    closed spec fn view(&self) -> Seq<(Seq<u8>, Seq<K>)> {
        self.file_blames@.map_values(|e: (Vec<u8>, FileBlame<K>)| (e.0@, e.1@))
    }
}

impl<K: Keyable> RepositoryBlameSnapshot<K> {
    /// No file occurs twice.
    pub closed spec fn well_formed(&self) -> bool {
        unique_paths(self@)
    }

    /// An empty snapshot for commit `commit_id`.
    pub fn new(commit_id: Vec<u8>) -> (r: Self)
        ensures
            r@ == Seq::<(Seq<u8>, Seq<K>)>::empty(),
            r.commit_id_view() == commit_id@,
            r.well_formed(),
    {
        let r = RepositoryBlameSnapshot { commit_id, file_blames: Vec::new() };
        proof {
            assert(r@ =~= Seq::<(Seq<u8>, Seq<K>)>::empty());
        }
        r
    }

    /// The commit this snapshot describes.
    pub closed spec fn commit_id_view(&self) -> Seq<u8> {
        self.commit_id@
    }

    /// The commit this snapshot describes.
    pub fn commit_id(&self) -> (r: &Vec<u8>)
        ensures
            r@ == self.commit_id_view(),
    {
        &self.commit_id
    }

    /// Position of file `path`, if present.
    fn find(&self, path: &Vec<u8>) -> (r: Option<usize>)
        ensures
            match r {
                Some(i) => i < self@.len() && self@[i as int].0 == path@,
                None => !exists|i: int| 0 <= i < self@.len() && #[trigger] self@[i].0 == path@,
            },
    {
        let n = self.file_blames.len();
        let mut i: usize = 0;
        while i < n
            invariant
                n == self.file_blames@.len(),
                i <= n,
                forall|j: int| 0 <= j < i ==> #[trigger] self@[j].0 != path@,
            decreases n - i,
        {
            if same_path(self.file_blames[i].0.as_slice(), path.as_slice()) {
                return Some(i);
            }
            i += 1;
        }
        None
    }

    /// Sets the blame of file `path`, replacing any previous one.
    fn put_blame(&mut self, path: Vec<u8>, blame: FileBlame<K>)
        requires
            old(self).well_formed(),
        ensures
            final(self).well_formed(),
            final(self)@ == put(old(self)@, path@, blame@),
            final(self).commit_id_view() == old(self).commit_id_view(),
    {
        proof {
            lemma_put_lookup(self@, path@, blame@, path@);
        }
        let ghost v = self@;
        match self.find(&path) {
            Some(i) => {
                proof {
                    lemma_index_is_choice(v, path@, i as int);
                }
                let ghost new_view = v.update(i as int, (path@, blame@));
                self.file_blames.set(i, (path, blame));
                proof {
                    assert(self@ =~= new_view);
                }
            },
            None => {
                self.file_blames.push((path, blame));
                proof {
                    assert(self@ =~= v.push((path@, blame@)));
                }
            },
        }
    }

    /// Starts the blame of a new file of `total_lines` lines, all in `cohort`
    /// (replacing the file if it was there).
    pub fn add_file(&mut self, path: &Vec<u8>, total_lines: LineNumber, cohort: K)
        requires
            old(self).well_formed(),
        ensures
            final(self).well_formed(),
            final(self)@ == put(old(self)@, path@, repeat(cohort, total_lines as nat)),
            final(self).commit_id_view() == old(self).commit_id_view(),
    {
        let file_blame = FileBlame::new(total_lines, cohort);
        self.put_blame(copy_path(path), file_blame);
    }

    /// Removes file `path`, returning its blame if it was there.
    pub fn delete_file(&mut self, path: &Vec<u8>) -> (r: Option<FileBlame<K>>)
        requires
            old(self).well_formed(),
        ensures
            final(self).well_formed(),
            final(self)@ == remove_path(old(self)@, path@),
            final(self).commit_id_view() == old(self).commit_id_view(),
            match r {
                Some(b) => lookup(old(self)@, path@) == Some(b@),
                None => lookup(old(self)@, path@) is None,
            },
    {
        let ghost v = self@;
        match self.find(path) {
            Some(i) => {
                proof {
                    lemma_index_is_choice(v, path@, i as int);
                }
                let (_p, blame) = self.file_blames.remove(i);
                proof {
                    assert(self@ =~= v.remove(i as int));
                    lemma_remove_lookup(v, path@, path@);
                }
                Some(blame)
            },
            None => {
                proof {
                    assert(!exists|i: int| 0 <= i < v.len() && #[trigger] v[i].0 == path@);
                    assert(remove_path(v, path@) == v);
                }
                None
            },
        }
    }

    /// Moves the blame of `old_path` to `new_path` (replacing any file
    /// there). Fails, leaving the snapshot unchanged, when `old_path` is not
    /// in the snapshot.
    pub fn rename_file(&mut self, old_path: &Vec<u8>, new_path: &Vec<u8>) -> (r: Result<(), String>)
        requires
            old(self).well_formed(),
        ensures
            final(self).well_formed(),
            r is Ok <==> lookup(old(self)@, old_path@) is Some,
            r is Ok ==> final(self)@ == put(
                remove_path(old(self)@, old_path@),
                new_path@,
                lookup(old(self)@, old_path@)->0,
            ),
            r is Err ==> final(self)@ == old(self)@,
            r matches Err(e) ==> e@ == rename_error(old_path@),
            final(self).commit_id_view() == old(self).commit_id_view(),
    {
        proof {
            reveal_strlit("");
        }
        match self.delete_file(old_path) {
            Some(blame) => {
                self.put_blame(copy_path(new_path), blame);
                Ok(())
            },
            None => Err(missing_file_message("File not found for rename: ", old_path.as_slice(), "")),
        }
    }

    /// The blame of file `path`, for modification in place.
    pub fn get_file_blame_mut(&mut self, path: &Vec<u8>) -> (r: Option<&mut FileBlame<K>>)
        requires
            old(self).well_formed(),
        ensures
            match r {
                Some(b) => lookup(old(self)@, path@) == Some(b@) && final(self)@ == put(
                    old(self)@,
                    path@,
                    final(b)@,
                ),
                None => lookup(old(self)@, path@) is None && final(self)@ == old(self)@,
            },
            r is None ==> final(self).well_formed(),
            r is Some ==> final(self).well_formed(),
            final(self).commit_id_view() == old(self).commit_id_view(),
    {
        let ghost v = self@;
        match self.find(path) {
            Some(i) => {
                proof {
                    lemma_index_is_choice(v, path@, i as int);
                }
                proof {
                    assert forall|l: Seq<K>| unique_paths(#[trigger] put(v, path@, l)) by {
                        lemma_put_lookup(v, path@, l, path@);
                    }
                }
                Some(&mut self.file_blames[i].1)
            },
            None => None,
        }
    }

    /// Number of lines of each cohort over all files.
    pub fn repository_cohort_stats(&self) -> (r: HashMap<K, u64>)
        requires
            self.well_formed(),
            all_lines(self@).len() <= u64::MAX,
        ensures
            r@ == count_map(all_lines(self@)),
    {
        proof {
            K::lemma_key_model();
        }
        let ghost v = self@;
        let n = self.file_blames.len();
        let mut acc: HashMap<K, u64> = HashMap::new();
        let mut i: usize = 0;
        proof {
            assert(v.take(0) =~= Seq::<(Seq<u8>, Seq<K>)>::empty());
            assert(acc@ =~= count_map(all_lines(v.take(0))));
        }
        while i < n
            invariant
                n == v.len(),
                v == self@,
                all_lines(v).len() <= u64::MAX,
                obeys_key_model::<K>(),
                i <= n,
                acc@ == count_map(all_lines(v.take(i as int))),
            decreases n - i,
        {
            let ranges = self.file_blames[i].1.ranges();
            let ghost file = v[i as int].1;
            let ghost before = all_lines(v.take(i as int));
            let mut j: usize = 0;
            proof {
                assert(v.take(i + 1).drop_last() =~= v.take(i as int));
                assert(all_lines(v.take(i + 1)) == before + file);
                lemma_all_lines_prefix_len(v, i + 1);
                assert(file.subrange(0, 0) =~= Seq::<K>::empty());
                assert(before + file.subrange(0, 0) =~= before);
            }
            while j < ranges.len()
                invariant
                    obeys_key_model::<K>(),
                    crate::file_blame::is_run_list(ranges@, file),
                    j <= ranges@.len(),
                    before.len() + file.len() <= u64::MAX,
                    acc@ == count_map(
                        before + file.subrange(
                            0,
                            if j == 0 {
                                0
                            } else {
                                ranges@[j - 1].1 as int
                            },
                        ),
                    ),
                decreases ranges.len() - j,
            {
                let (start, end, cohort) = ranges[j];
                let ghost upto = if j == 0 {
                    0
                } else {
                    ranges@[j - 1].1 as int
                };
                let ghost part = before + file.subrange(0, upto);
                proof {
                    assert(start == upto);
                    lemma_run_end_le(ranges@, file, j as int);
                    assert(file.subrange(start as int, end as int) =~= repeat(
                        cohort,
                        (end - start) as nat,
                    ));
                    assert(before + file.subrange(0, end as int) =~= part + repeat(
                        cohort,
                        (end - start) as nat,
                    ));
                    crate::file_blame::lemma_count_map_step(
                        part,
                        cohort,
                        (end - start) as nat,
                    );
                    crate::file_blame::lemma_count_in_le(
                        part + repeat(cohort, (end - start) as nat),
                        cohort,
                    );
                    crate::file_blame::lemma_count_in_add(
                        part,
                        repeat(cohort, (end - start) as nat),
                        cohort,
                    );
                    crate::file_blame::lemma_count_in_repeat(cohort, (end - start) as nat, cohort);
                }
                let count = (end - start) as u64;
                let previous = match acc.get(&cohort) {
                    Some(c) => *c,
                    None => 0,
                };
                acc.insert(cohort, previous + count);
                j += 1;
            }
            proof {
                if ranges@.len() > 0 {
                    assert(file.subrange(0, ranges@.last().1 as int) =~= file);
                } else {
                    assert(file.len() == 0);
                    assert(file.subrange(0, 0) =~= file);
                }
            }
            i += 1;
        }
        proof {
            assert(v.take(n as int) =~= v);
        }
        acc
    }

    /// Applies the actions computed for one commit: all renames first, then
    /// additions, then line diffs, then deletions, each group in the given
    /// order. Returns, for each action that failed, its rank in that order
    /// (0 for renames up to 3 for deletions) and its message; a failed action
    /// changes nothing.
    pub fn apply_commit_actions(&mut self, actions: &Vec<SnapshotAction<K>>) -> (errors: Vec<(u8, String)>)
        requires
            old(self).well_formed(),
        ensures
            final(self).well_formed(),
            final(self).commit_id_view() == old(self).commit_id_view(),
            final(self)@ == run_actions(old(self)@, commit_order(actions@)).0,
            errors@.len() == run_actions(old(self)@, commit_order(actions@)).1,
            message_texts(errors@) == run_errors(old(self)@, commit_order(actions@)),
    {
        let ghost v0 = self@;
        let ghost acts = actions@;
        let n = actions.len();
        let mut errors: Vec<(u8, String)> = Vec::new();
        let mut r: u8 = 0;
        proof {
            assert(ranks_below(acts, 0) =~= Seq::<SnapshotAction<K>>::empty());
        }
        while r < 4
            invariant
                n == acts.len(),
                acts == actions@,
                r <= 4,
                self.well_formed(),
                self.commit_id_view() == old(self).commit_id_view(),
                v0 == old(self)@,
                self@ == run_actions(v0, ranks_below(acts, r as int)).0,
                errors@.len() == run_actions(v0, ranks_below(acts, r as int)).1,
                message_texts(errors@) == run_errors(v0, ranks_below(acts, r as int)),
            decreases 4 - r,
        {
            let mut i: usize = 0;
            proof {
                assert(acts.take(0) =~= Seq::<SnapshotAction<K>>::empty());
                assert(ranks_below(acts, r as int) + of_rank(acts.take(0), r as int) =~= ranks_below(
                    acts,
                    r as int,
                ));
            }
            while i < n
                invariant
                    n == acts.len(),
                    acts == actions@,
                    r < 4,
                    i <= n,
                    self.well_formed(),
                    self.commit_id_view() == old(self).commit_id_view(),
                    v0 == old(self)@,
                    self@ == run_actions(
                        v0,
                        ranks_below(acts, r as int) + of_rank(acts.take(i as int), r as int),
                    ).0,
                    errors@.len() == run_actions(
                        v0,
                        ranks_below(acts, r as int) + of_rank(acts.take(i as int), r as int),
                    ).1,
                    message_texts(errors@) == run_errors(
                        v0,
                        ranks_below(acts, r as int) + of_rank(acts.take(i as int), r as int),
                    ),
                decreases n - i,
            {
                let ghost done = ranks_below(acts, r as int) + of_rank(acts.take(i as int), r as int);
                proof {
                    assert(acts.take(i + 1).drop_last() =~= acts.take(i as int));
                    assert(acts.take(i + 1).last() == acts[i as int]);
                }
                let rank = rank_of(&actions[i]);
                if rank == r {
                    let action = copy_action(&actions[i]);
                    proof {
                        assert(done.push(acts[i as int]) =~= ranks_below(acts, r as int) + of_rank(
                            acts.take(i + 1),
                            r as int,
                        ));
                        lemma_run_actions_push(v0, done, acts[i as int]);
                        lemma_run_errors_push(v0, done, acts[i as int]);
                        assert(action_effect(self@, action) == action_effect(self@, acts[i as int]));
                        assert(action_error(self@, action) == action_error(self@, acts[i as int]));
                    }
                    let ghost before_errors = errors@;
                    match self.apply_action(action) {
                        Ok(()) => {},
                        Err(e) => {
                            errors.push((rank, e));
                            proof {
                                assert(message_texts(errors@) =~= message_texts(before_errors).push(
                                    (action_rank(acts[i as int]), e@),
                                ));
                            }
                        },
                    }
                } else {
                    proof {
                        assert(of_rank(acts.take(i + 1), r as int) == of_rank(
                            acts.take(i as int),
                            r as int,
                        ));
                    }
                }
                i += 1;
            }
            proof {
                assert(acts.take(n as int) =~= acts);
            }
            r += 1;
        }
        errors
    }

    /// Applies one action. Adding, deleting and renaming change the files as
    /// their methods say. Line diffs replace the file's blame by the blame
    /// with the diffs applied; they fail, changing nothing, when the file is
    /// not in the snapshot or the diffs do not fit its blame. Renaming fails
    /// when the source is missing.
    pub fn apply_action(&mut self, action: SnapshotAction<K>) -> (r: Result<(), String>)
        requires
            old(self).well_formed(),
        ensures
            final(self).well_formed(),
            final(self).commit_id_view() == old(self).commit_id_view(),
            (final(self)@, r is Ok) == action_effect(old(self)@, action),
            r matches Err(e) ==> e@ == action_error(old(self)@, action),
    {
        match action {
            SnapshotAction::AddFile { location, total_lines, cohort } => {
                self.add_file(&location, total_lines, cohort);
                Ok(())
            },
            SnapshotAction::DeleteFile { location } => {
                self.delete_file(&location);
                Ok(())
            },
            SnapshotAction::ApplyLineDiffs { location, line_diffs } => {
                proof {
                    reveal_strlit("");
                }
                let ghost v = self@;
                let ghost d = line_diffs@;
                match self.find(&location) {
                    Some(i) => {
                        proof {
                            lemma_index_is_choice(v, location@, i as int);
                            assert(v[i as int].1 == self.file_blames@[i as int].1@);
                        }
                        match self.file_blames[i].1.try_apply_line_diffs(line_diffs) {
                            Some(updated) => {
                                let message_path = copy_path(&location);
                                self.put_blame(message_path, updated);
                                Ok(())
                            },
                            None => Err(
                                missing_file_message(
                                    "Line diffs do not fit the blame of path ",
                                    location.as_slice(),
                                    "",
                                ),
                            ),
                        }
                    },
                    None => Err(
                        missing_file_message(
                            "Could not find blame info for path ",
                            location.as_slice(),
                            ", most likely it was moved",
                        ),
                    ),
                }
            },
            SnapshotAction::RenameFile { source_location, location } => {
                self.rename_file(&source_location, &location)
            },
        }
    }
}

/// The message of a failed action.
pub open spec fn action_error<K: Keyable>(v: Seq<(Seq<u8>, Seq<K>)>, a: SnapshotAction<K>) -> Seq<char> {
    match a {
        SnapshotAction::ApplyLineDiffs { location, line_diffs: _ } => if lookup(v, location@) is Some {
            unfit_diffs_error(location@)
        } else {
            missing_blame_error(location@)
        },
        SnapshotAction::RenameFile { source_location, location: _ } => rename_error(source_location@),
        _ => Seq::empty(),
    }
}

/// The line diffs `d` fit a file of `lines`: sorted by the start of their
/// delete range, they lie within the file, and the result has at most
/// `u32::MAX` lines.
pub open spec fn diffs_fit<K>(lines: Seq<K>, d: Seq<(core::ops::Range<LineNumber>, core::ops::Range<LineNumber>, K)>) -> bool {
    hunks_fit(sort_by_start(d), lines.len()) && apply_sorted(lines, sort_by_start(d)).len() <= u32::MAX
}

/// The files after an action, and whether the action succeeded.
pub open spec fn action_effect<K: Keyable>(v: Seq<(Seq<u8>, Seq<K>)>, a: SnapshotAction<K>) -> (
    Seq<(Seq<u8>, Seq<K>)>,
    bool,
) {
    match a {
        SnapshotAction::AddFile { location, total_lines, cohort } => (
            put(v, location@, repeat(cohort, total_lines as nat)),
            true,
        ),
        SnapshotAction::DeleteFile { location } => (remove_path(v, location@), true),
        SnapshotAction::ApplyLineDiffs { location, line_diffs } => match lookup(v, location@) {
            Some(lines) => if diffs_fit(lines, line_diffs@) {
                (put(v, location@, apply_sorted(lines, sort_by_start(line_diffs@))), true)
            } else {
                (v, false)
            },
            None => (v, false),
        },
        SnapshotAction::RenameFile { source_location, location } => if lookup(
            v,
            source_location@,
        ) is Some {
            (put(remove_path(v, source_location@), location@, lookup(v, source_location@)->0), true)
        } else {
            (v, false)
        },
    }
}


/// Order in which a commit's actions are applied: renames, then additions,
/// then line diffs, then deletions.
pub open spec fn action_rank<K: Keyable>(a: SnapshotAction<K>) -> int {
    match a {
        SnapshotAction::RenameFile { .. } => 0,
        SnapshotAction::AddFile { .. } => 1,
        SnapshotAction::ApplyLineDiffs { .. } => 2,
        SnapshotAction::DeleteFile { .. } => 3,
    }
}

/// The actions of rank `r`, in their original order.
pub open spec fn of_rank<K: Keyable>(s: Seq<SnapshotAction<K>>, r: int) -> Seq<SnapshotAction<K>>
    decreases s.len(),
{
    if s.len() == 0 {
        Seq::empty()
    } else if action_rank(s.last()) == r {
        of_rank(s.drop_last(), r).push(s.last())
    } else {
        of_rank(s.drop_last(), r)
    }
}

/// The actions of all ranks below `r`, rank by rank.
pub open spec fn ranks_below<K: Keyable>(s: Seq<SnapshotAction<K>>, r: int) -> Seq<SnapshotAction<K>>
    decreases r,
{
    if r <= 0 {
        Seq::empty()
    } else {
        ranks_below(s, r - 1) + of_rank(s, r - 1)
    }
}

/// A commit's actions in the order they are applied.
pub open spec fn commit_order<K: Keyable>(s: Seq<SnapshotAction<K>>) -> Seq<SnapshotAction<K>> {
    ranks_below(s, 4)
}

/// The files after applying `s` in sequence, and how many actions failed.
pub open spec fn run_actions<K: Keyable>(v: Seq<(Seq<u8>, Seq<K>)>, s: Seq<SnapshotAction<K>>) -> (
    Seq<(Seq<u8>, Seq<K>)>,
    nat,
)
    decreases s.len(),
{
    if s.len() == 0 {
        (v, 0)
    } else {
        let before = run_actions(v, s.drop_last());
        let step = action_effect(before.0, s.last());
        (step.0, before.1 + if step.1 {
            0nat
        } else {
            1nat
        })
    }
}

/// The actions of `s` that fail when applied in sequence from `v`, in
/// order, each as its rank and its message.
pub open spec fn run_errors<K: Keyable>(v: Seq<(Seq<u8>, Seq<K>)>, s: Seq<SnapshotAction<K>>) -> Seq<
    (int, Seq<char>),
>
    decreases s.len(),
{
    if s.len() == 0 {
        Seq::empty()
    } else {
        let before = run_actions(v, s.drop_last()).0;
        if action_effect(before, s.last()).1 {
            run_errors(v, s.drop_last())
        } else {
            run_errors(v, s.drop_last()).push((action_rank(s.last()), action_error(before, s.last())))
        }
    }
}

/// A list of ranked messages, with their texts.
pub open spec fn message_texts(m: Seq<(u8, String)>) -> Seq<(int, Seq<char>)> {
    m.map_values(|e: (u8, String)| (e.0 as int, e.1@))
}

/// How a modified entry is handled when its mode may have changed.
#[derive(Debug, Clone, Copy, PartialEq, Eq)]
pub enum ModificationOutcome {
    /// The entry became a file: start its blame afresh.
    AddFile,
    /// The entry stopped being a file (or never was one): drop its blame.
    DeleteFile,
    /// The file's contents changed: diff the old and new contents.
    DiffContents,
}

/// Decides what a modification does to the blame, from whether the old and
/// new entries are files and whether their modes differ.
pub fn classify_modification(previous_is_blob: bool, new_is_blob: bool, modes_differ: bool) -> (r:
    ModificationOutcome)
    ensures
        r == if !modes_differ || (previous_is_blob && new_is_blob) {
            ModificationOutcome::DiffContents
        } else if !previous_is_blob && new_is_blob {
            ModificationOutcome::AddFile
        } else {
            ModificationOutcome::DeleteFile
        },
{
    if modes_differ {
        if !previous_is_blob && new_is_blob {
            return ModificationOutcome::AddFile;
        } else if previous_is_blob && !new_is_blob {
            return ModificationOutcome::DeleteFile;
        } else if !previous_is_blob && !new_is_blob {
            return ModificationOutcome::DeleteFile;
        }
    }
    ModificationOutcome::DiffContents
}

/// A copy of a list of hunks.
fn copy_diffs<K: Keyable>(diffs: &LineDiffs<K>) -> (r: LineDiffs<K>)
    ensures
        r@ == diffs@,
{
    let mut out: LineDiffs<K> = Vec::new();
    let mut i: usize = 0;
    while i < diffs.len()
        invariant
            i <= diffs@.len(),
            out@ == diffs@.take(i as int),
        decreases diffs.len() - i,
    {
        out.push((diffs[i].0.start..diffs[i].0.end, diffs[i].1.start..diffs[i].1.end, diffs[i].2));
        i += 1;
        proof {
            assert(out@ =~= diffs@.take(i as int));
        }
    }
    proof {
        assert(out@ =~= diffs@);
    }
    out
}

/// A copy of an action, with the same effect and message on any snapshot.
fn copy_action<K: Keyable>(a: &SnapshotAction<K>) -> (r: SnapshotAction<K>)
    ensures
        action_rank(r) == action_rank(*a),
        forall|w: Seq<(Seq<u8>, Seq<K>)>| #[trigger] action_effect(w, r) == action_effect(w, *a),
        forall|w: Seq<(Seq<u8>, Seq<K>)>| #[trigger] action_error(w, r) == action_error(w, *a),
{
    match a {
        SnapshotAction::AddFile { location, total_lines, cohort } => SnapshotAction::AddFile {
            location: copy_path(location),
            total_lines: *total_lines,
            cohort: *cohort,
        },
        SnapshotAction::DeleteFile { location } => SnapshotAction::DeleteFile {
            location: copy_path(location),
        },
        SnapshotAction::ApplyLineDiffs { location, line_diffs } => SnapshotAction::ApplyLineDiffs {
            location: copy_path(location),
            line_diffs: copy_diffs(line_diffs),
        },
        SnapshotAction::RenameFile { source_location, location } => SnapshotAction::RenameFile {
            source_location: copy_path(source_location),
            location: copy_path(location),
        },
    }
}

/// Rank of an action, computed.
fn rank_of<K: Keyable>(a: &SnapshotAction<K>) -> (r: u8)
    ensures
        r == action_rank(*a),
{
    match a {
        SnapshotAction::RenameFile { .. } => 0,
        SnapshotAction::AddFile { .. } => 1,
        SnapshotAction::ApplyLineDiffs { .. } => 2,
        SnapshotAction::DeleteFile { .. } => 3,
    }
}

proof fn lemma_run_actions_push<K: Keyable>(
    v: Seq<(Seq<u8>, Seq<K>)>,
    s: Seq<SnapshotAction<K>>,
    a: SnapshotAction<K>,
)
    ensures
        run_actions(v, s.push(a)) == ({
            let before = run_actions(v, s);
            let step = action_effect(before.0, a);
            (step.0, before.1 + if step.1 {
                0nat
            } else {
                1nat
            })
        }),
{
    assert(s.push(a).drop_last() =~= s);
}

proof fn lemma_run_errors_push<K: Keyable>(
    v: Seq<(Seq<u8>, Seq<K>)>,
    s: Seq<SnapshotAction<K>>,
    a: SnapshotAction<K>,
)
    ensures
        run_errors(v, s.push(a)) == ({
            let before = run_actions(v, s).0;
            if action_effect(before, a).1 {
                run_errors(v, s)
            } else {
                run_errors(v, s).push((action_rank(a), action_error(before, a)))
            }
        }),
{
    assert(s.push(a).drop_last() =~= s);
}

proof fn lemma_all_lines_prefix_len<K>(v: Seq<(Seq<u8>, Seq<K>)>, i: int)
    requires
        0 <= i <= v.len(),
    ensures
        all_lines(v.take(i)).len() <= all_lines(v).len(),
    decreases v.len() - i,
{
    if i < v.len() {
        lemma_all_lines_prefix_len(v, i + 1);
        assert(v.take(i + 1).drop_last() =~= v.take(i));
    } else {
        assert(v.take(i) =~= v);
    }
}

proof fn lemma_run_end_le<K>(r: Seq<(LineNumber, LineNumber, K)>, s: Seq<K>, j: int)
    requires
        crate::file_blame::is_run_list(r, s),
        0 <= j < r.len(),
    ensures
        r[j].1 <= s.len(),
        r[j].0 < r[j].1,
        j > 0 ==> r[j].0 == r[j - 1].1,
        j == 0 ==> r[j].0 == 0,
        forall|l: int| r[j].0 <= l < r[j].1 ==> s[l] == r[j].2,
    decreases r.len() - j,
{
    if j + 1 < r.len() {
        lemma_run_end_le(r, s, j + 1);
        assert(r[j + 1].0 == r[j + 1 - 1].1);
    }
    assert forall|l: int| r[j].0 <= l < r[j].1 implies s[l] == r[j].2 by {
        assert(r[j].0 <= l < r[j].1);
    }
}

/// Settings of the blame-cohort analysis.
#[derive(Debug, Clone)]
pub struct TheseusConfig {
    /// How a commit's date names its cohort, e.g. "%Y" for yearly cohorts.
    pub cohort_format: String,
    /// Days between analysed commits.
    pub interval_days: u64,
    /// The branch analysed.
    pub branch: String,
}

impl Default for TheseusConfig {
    /// Yearly cohorts, weekly commits, the "main" branch.
    fn default() -> (r: Self)
        ensures
            r.cohort_format@ == "%Y"@,
            r.interval_days == 7,
            r.branch@ == "main"@,
    {
        TheseusConfig {
            cohort_format: "%Y".to_string(),
            interval_days: 7,
            branch: "main".to_string(),
        }
    }
}

/// The newlines in `s`.
pub open spec fn newline_count(s: Seq<u8>) -> int
    decreases s.len(),
{
    if s.len() == 0 {
        0
    } else {
        newline_count(s.drop_last()) + if s.last() == 10u8 {
            1int
        } else {
            0int
        }
    }
}

/// The lines of `s`: each ends at a newline, and a last line without one
/// counts too.
pub open spec fn line_count(s: Seq<u8>) -> int {
    newline_count(s) + if s.len() > 0 && s.last() != 10u8 {
        1int
    } else {
        0int
    }
}

proof fn lemma_newline_count_bound(s: Seq<u8>)
    ensures
        0 <= newline_count(s) <= s.len(),
    decreases s.len(),
{
    if s.len() > 0 {
        lemma_newline_count_bound(s.drop_last());
    }
}

proof fn lemma_line_count_bound(s: Seq<u8>)
    ensures
        line_count(s) <= s.len(),
{
    if s.len() > 0 {
        lemma_newline_count_bound(s.drop_last());
    }
}

/// The number of lines of `content`.
pub fn count_lines(content: &[u8]) -> (r: usize)
    ensures
        r == line_count(content@),
{
    let mut newlines: usize = 0;
    let mut i: usize = 0;
    while i < content.len()
        invariant
            i <= content@.len(),
            newlines == newline_count(content@.take(i as int)),
            newlines <= i,
        decreases content.len() - i,
    {
        proof {
            assert(content@.take(i + 1).drop_last() =~= content@.take(i as int));
        }
        if content[i] == 10u8 {
            newlines = newlines + 1;
        }
        i += 1;
    }
    proof {
        assert(content@.take(content@.len() as int) =~= content@);
        lemma_line_count_bound(content@);
    }
    if content.len() > 0 && content[content.len() - 1] != 10u8 {
        newlines + 1
    } else {
        newlines
    }
}

/// The action for a file added with `content`: its blame starts as one
/// cohort over all its lines (the count kept to 32 bits, as line numbers
/// are).
pub fn addition_action<K: Keyable>(location: Vec<u8>, content: &[u8], cohort: K) -> (r:
    SnapshotAction<K>)
    ensures
        r == (SnapshotAction::AddFile {
            location,
            total_lines: line_count(content@) as LineNumber,
            cohort,
        }),
{
    let n = count_lines(content);
    #[verifier::truncate]
    let total_lines: LineNumber = n as LineNumber;
    SnapshotAction::AddFile { location, total_lines, cohort }
}

// ---------------------------------------------------------------------------
// What a commit changes
// ---------------------------------------------------------------------------
/// The hunks that gix's Myers line diff finds between `before` and `after`,
/// each read as lines without their LF or CRLF terminators: for each hunk,
/// the lines `[.0, .1)` of `before` replaced by the lines `[.2, .3)` of
/// `after`.
pub uninterp spec fn myers_hunks(before: Seq<u8>, after: Seq<u8>) -> Seq<(u32, u32, u32, u32)>;

/// `InternedInput::new` over `ByteLinesWithoutTerminator` of both texts (the
/// tokens that gix's `interned_input` of a prepared diff uses), then
/// `Diff::compute(Algorithm::Myers, ..)` and its `hunks()`, from gix's blob
/// diff. Claimed: the hunks, in the order `hunks()` yields them, are
/// `myers_hunks(before, after)`.
#[verifier::external_body]
fn blob_hunks(before: &[u8], after: &[u8]) -> (r: Vec<(u32, u32, u32, u32)>)
    ensures
        r@ == myers_hunks(before@, after@),
{
    let input = InternedInput::new(
        ByteLinesWithoutTerminator::new(before),
        ByteLinesWithoutTerminator::new(after),
    );
    let diff = Diff::compute(Algorithm::Myers, &input);
    diff.hunks().map(|h| (h.before.start, h.before.end, h.after.start, h.after.end)).collect()
}

/// The line diffs of a file whose contents went from `before` to `after`:
/// one per hunk of the Myers diff, in its order, its inserted lines given
/// `cohort`.
pub fn modification_diffs<K: Keyable>(before: &[u8], after: &[u8], cohort: K) -> (r: LineDiffs<K>)
    ensures
        r@.len() == myers_hunks(before@, after@).len(),
        forall|i: int|
            0 <= i < r@.len() ==> #[trigger] r@[i] == ({
                let h = myers_hunks(before@, after@)[i];
                (h.0..h.1, h.2..h.3, cohort)
            }),
{
    let hunks = blob_hunks(before, after);
    let mut out: LineDiffs<K> = Vec::new();
    let mut i: usize = 0;
    while i < hunks.len()
        invariant
            i <= hunks@.len(),
            hunks@ == myers_hunks(before@, after@),
            out@.len() == i,
            forall|j: int|
                0 <= j < i ==> #[trigger] out@[j] == ({
                    let h = hunks@[j];
                    (h.0..h.1, h.2..h.3, cohort)
                }),
        decreases hunks.len() - i,
    {
        let h = hunks[i];
        out.push((h.0..h.1, h.2..h.3, cohort));
        i += 1;
    }
    out
}

/// The year, in the commit's own time zone, of the moment `seconds` after
/// the epoch seen at `offset_secs` east of UTC; none where chrono takes the
/// offset or the moment to be out of range.
pub uninterp spec fn local_year(seconds: i64, offset_secs: i32) -> Option<i32>;

/// `FixedOffset::east_opt(offset_secs)`, `DateTime::from_timestamp(seconds,
/// 0)`, `with_timezone` and `year()`, from chrono. Claimed: the year is
/// `local_year(seconds, offset_secs)`; there is none when the offset is not
/// strictly within a day either way, which `east_opt` refuses.
#[verifier::external_body]
fn chrono_local_year(seconds: i64, offset_secs: i32) -> (r: Option<i32>)
    ensures
        r == local_year(seconds, offset_secs),
        !(-86_400 < offset_secs < 86_400) ==> r is None,
{
    let offset = chrono::FixedOffset::east_opt(offset_secs)?;
    let moment = chrono::DateTime::from_timestamp(seconds, 0)?;
    Some(chrono::Datelike::year(&moment.with_timezone(&offset)))
}

/// The cohort of a commit made `seconds` after the epoch at `offset_secs`
/// east of UTC: its local year, as a `u32` the way `as` converts it; none
/// where chrono refuses the offset or the moment.
pub fn commit_cohort_year(seconds: i64, offset_secs: i32) -> (r: Option<u32>)
    ensures
        r == match local_year(seconds, offset_secs) {
            Some(y) => Some(y as u32),
            None => None,
        },
        !(-86_400 < offset_secs < 86_400) ==> r is None,
{
    match chrono_local_year(seconds, offset_secs) {
        Some(y) => Some(y as u32),
        None => None,
    }
}

} // verus!
