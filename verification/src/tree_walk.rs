//! Which files a commit holds, read from the flattened repository: every
//! file under the commit's root tree with its path (as file-name numbers)
//! and its tree entry. The files under a tree are remembered, so trees that
//! several commits share are read once.
use crate::glob_pattern::{glob_is_match, glob_matches, CompiledPattern};
use crate::repo_cache::{EntryIdx, FilenameIdx, MyEntry, OidIdx, TreeChild, TreeChildKind};
use crate::text::{concat, views_of};
use std::collections::HashMap;
use vstd::prelude::*;

verus! {

/// The flattened repository: tree entries by number, trees by object
/// number, and file names by number.
pub struct FlatRepo {
    pub entries: Vec<MyEntry>,
    pub trees: HashMap<OidIdx, TreeChild>,
    pub filenames: Vec<String>,
}

/// A file under a tree: its path below the tree and its entry.
pub type FileRef = (Vec<FilenameIdx>, EntryIdx);

/// The entries of the tree `oid`; none when it is not a known tree.
pub open spec fn children_of(trees: Map<OidIdx, TreeChild>, oid: OidIdx) -> Seq<EntryIdx> {
    if trees.contains_key(oid) {
        match trees[oid] {
            TreeChild::Tree(t) => t.children@,
            TreeChild::Blob => Seq::empty(),
        }
    } else {
        Seq::empty()
    }
}

/// `files` with the name `name` put in front of each path.
pub open spec fn prefixed(name: FilenameIdx, files: Seq<(Seq<FilenameIdx>, EntryIdx)>) -> Seq<
    (Seq<FilenameIdx>, EntryIdx),
> {
    files.map_values(|f: (Seq<FilenameIdx>, EntryIdx)| (seq![name] + f.0, f.1))
}

/// The files reached through the entries `children`, in order, looking at
/// most `depth` trees further down. An entry number outside the entry set,
/// or a tree that is not known, contributes nothing.
pub open spec fn files_of_children(
    trees: Map<OidIdx, TreeChild>,
    entries: Seq<MyEntry>,
    children: Seq<EntryIdx>,
    depth: nat,
) -> Seq<(Seq<FilenameIdx>, EntryIdx)>
    decreases depth, children.len(),
{
    if children.len() == 0 {
        Seq::empty()
    } else {
        let before = files_of_children(trees, entries, children.drop_last(), depth);
        let idx = children.last();
        if idx >= entries.len() {
            before
        } else {
            let e = entries[idx as int];
            match e.kind {
                TreeChildKind::Blob => before.push((seq![e.filename_idx], idx)),
                TreeChildKind::Tree => if depth == 0 {
                    before
                } else {
                    before + prefixed(
                        e.filename_idx,
                        files_of_children(
                            trees,
                            entries,
                            children_of(trees, e.oid_idx),
                            (depth - 1) as nat,
                        ),
                    )
                },
            }
        }
    }
}

/// The files under the tree `oid`, looking at most `depth` trees down.
pub open spec fn files_below(
    trees: Map<OidIdx, TreeChild>,
    entries: Seq<MyEntry>,
    oid: OidIdx,
    depth: nat,
) -> Seq<(Seq<FilenameIdx>, EntryIdx)> {
    files_of_children(trees, entries, children_of(trees, oid), depth)
}

/// The views of file references.
pub open spec fn file_views(v: Seq<FileRef>) -> Seq<(Seq<FilenameIdx>, EntryIdx)> {
    v.map_values(|f: FileRef| (f.0@, f.1))
}

/// Remembered results: for a tree, the depth it was read to and the files
/// found.
pub type FileMemo = HashMap<OidIdx, (u32, Vec<FileRef>)>;

/// Every remembered result is what reading the tree gives.
pub open spec fn memo_sound(
    memo: Map<OidIdx, (u32, Vec<FileRef>)>,
    trees: Map<OidIdx, TreeChild>,
    entries: Seq<MyEntry>,
) -> bool {
    forall|k: OidIdx| #[trigger]
        memo.contains_key(k) ==> file_views(memo[k].1@) == files_below(
            trees,
            entries,
            k,
            memo[k].0 as nat,
        )
}

/// A copy of a list of file references.
fn copy_files(v: &Vec<FileRef>) -> (r: Vec<FileRef>)
    ensures
        file_views(r@) == file_views(v@),
{
    let mut out: Vec<FileRef> = Vec::new();
    let mut i: usize = 0;
    while i < v.len()
        invariant
            i <= v@.len(),
            file_views(out@) == file_views(v@).take(i as int),
        decreases v.len() - i,
    {
        let ghost before = file_views(out@);
        let path = v[i].0.clone();
        out.push((path, v[i].1));
        proof {
            assert(file_views(out@) =~= before.push((v@[i as int].0@, v@[i as int].1)));
            assert(file_views(v@).take(i + 1) =~= file_views(v@).take(i as int).push(
                (v@[i as int].0@, v@[i as int].1),
            ));
        }
        i += 1;
    }
    proof {
        assert(file_views(v@).take(v@.len() as int) =~= file_views(v@));
    }
    out
}

/// Appends the files of `below`, each with `name` put in front of its path.
fn append_prefixed(out: &mut Vec<FileRef>, name: FilenameIdx, below: &Vec<FileRef>)
    ensures
        file_views(final(out)@) == file_views(old(out)@) + prefixed(name, file_views(below@)),
{
    let ghost start = file_views(out@);
    let mut i: usize = 0;
    proof {
        assert(prefixed(name, file_views(below@).take(0)) =~= Seq::empty());
        assert(start + Seq::empty() =~= start);
    }
    while i < below.len()
        invariant
            i <= below@.len(),
            file_views(out@) == start + prefixed(name, file_views(below@).take(i as int)),
        decreases below.len() - i,
    {
        let mut path: Vec<FilenameIdx> = Vec::new();
        path.push(name);
        let src = &below[i].0;
        let mut j: usize = 0;
        while j < src.len()
            invariant
                j <= src@.len(),
                path@ == seq![name] + src@.take(j as int),
            decreases src.len() - j,
        {
            path.push(src[j]);
            j += 1;
            proof {
                assert(path@ =~= seq![name] + src@.take(j as int));
            }
        }
        proof {
            assert(src@.take(src@.len() as int) =~= src@);
        }
        let ghost before = file_views(out@);
        out.push((path, below[i].1));
        proof {
            assert(file_views(out@) =~= before.push((seq![name] + src@, below@[i as int].1)));
            assert(prefixed(name, file_views(below@).take(i + 1)) =~= prefixed(
                name,
                file_views(below@).take(i as int),
            ).push((seq![name] + src@, below@[i as int].1)));
        }
        i += 1;
    }
    proof {
        assert(file_views(below@).take(below@.len() as int) =~= file_views(below@));
    }
}

impl FlatRepo {
    /// The entries of the tree `oid`.
    fn tree_children(&self, oid: OidIdx) -> (r: Vec<EntryIdx>)
        ensures
            r@ == children_of(self.trees@, oid),
    {
        match self.trees.get(&oid) {
            Some(TreeChild::Tree(t)) => t.children.clone(),
            _ => Vec::new(),
        }
    }

    /// The files under the tree `oid`, looking at most `depth` trees down;
    /// results are remembered in `memo`.
    pub fn files_below(&self, memo: &mut FileMemo, oid: OidIdx, depth: u32) -> (r: Vec<FileRef>)
        requires
            memo_sound(old(memo)@, self.trees@, self.entries@),
        ensures
            memo_sound(final(memo)@, self.trees@, self.entries@),
            file_views(r@) == files_below(self.trees@, self.entries@, oid, depth as nat),
        decreases depth,
    {
        match memo.get(&oid) {
            Some(found) => {
                if found.0 == depth {
                    proof {
                        assert(memo@.contains_key(oid));
                    }
                    return copy_files(&found.1);
                }
            },
            None => {},
        }
        let children = self.tree_children(oid);
        let ghost cs = children@;
        let mut out: Vec<FileRef> = Vec::new();
        let mut i: usize = 0;
        proof {
            assert(cs.take(0) =~= Seq::<EntryIdx>::empty());
            assert(file_views(out@) =~= Seq::<(Seq<FilenameIdx>, EntryIdx)>::empty());
        }
        while i < children.len()
            invariant
                cs == children@,
                cs == children_of(self.trees@, oid),
                i <= cs.len(),
                memo_sound(memo@, self.trees@, self.entries@),
                file_views(out@) == files_of_children(
                    self.trees@,
                    self.entries@,
                    cs.take(i as int),
                    depth as nat,
                ),
            decreases children.len() - i,
        {
            let idx = children[i];
            proof {
                assert(cs.take(i + 1).drop_last() =~= cs.take(i as int));
                assert(cs.take(i + 1).last() == idx);
            }
            if (idx as usize) < self.entries.len() {
                let e = self.entries[idx as usize];
                match e.kind {
                    TreeChildKind::Blob => {
                        let mut path: Vec<FilenameIdx> = Vec::new();
                        path.push(e.filename_idx);
                        let ghost before = file_views(out@);
                        out.push((path, idx));
                        proof {
                            assert(path@ =~= seq![e.filename_idx]);
                            assert(file_views(out@) =~= before.push((seq![e.filename_idx], idx)));
                        }
                    },
                    TreeChildKind::Tree => {
                        if depth > 0 {
                            let below = self.files_below(memo, e.oid_idx, depth - 1);
                            append_prefixed(&mut out, e.filename_idx, &below);
                        }
                    },
                }
            }
            i += 1;
        }
        proof {
            assert(cs.take(cs.len() as int) =~= cs);
        }
        let kept = copy_files(&out);
        memo.insert(oid, (depth, kept));
        proof {
            assert forall|k: OidIdx| #[trigger] memo@.contains_key(k) implies file_views(memo@[k].1@)
                == files_below(self.trees@, self.entries@, k, memo@[k].0 as nat) by {
                if k != oid {
                }
            }
        }
        out
    }

    /// The files of the commit whose root tree is `root`, looking at most
    /// `depth` trees down; none when the root is not a known tree.
    pub fn commit_files(&self, memo: &mut FileMemo, root: OidIdx, depth: u32) -> (r: Option<
        Vec<FileRef>,
    >)
        requires
            memo_sound(old(memo)@, self.trees@, self.entries@),
        ensures
            memo_sound(final(memo)@, self.trees@, self.entries@),
            match r {
                Some(v) => self.trees@.contains_key(root) && self.trees@[root] is Tree
                    && file_views(v@) == files_below(self.trees@, self.entries@, root, depth as nat),
                None => !(self.trees@.contains_key(root) && self.trees@[root] is Tree),
            },
    {
        match self.trees.get(&root) {
            Some(TreeChild::Tree(_)) => Some(self.files_below(memo, root, depth)),
            _ => None,
        }
    }
}

// ---------------------------------------------------------------------------
// Paths as text, and path globs
// ---------------------------------------------------------------------------
/// The path `p` as text: its names joined by '/'.
pub open spec fn path_text(names: Seq<Seq<char>>, p: Seq<FilenameIdx>) -> Seq<char>
    decreases p.len(),
{
    if p.len() == 0 {
        Seq::empty()
    } else if p.len() == 1 {
        names[p[0] as int]
    } else {
        path_text(names, p.drop_last()) + seq!['/'] + names[p.last() as int]
    }
}

/// Every name number of `p` names a file.
pub open spec fn names_known(names: Seq<Seq<char>>, p: Seq<FilenameIdx>) -> bool {
    forall|i: int| 0 <= i < p.len() ==> (#[trigger] p[i]) < names.len()
}

impl FlatRepo {
    /// The path `p` as text.
    pub fn path_string(&self, p: &Vec<FilenameIdx>) -> (r: String)
        requires
            names_known(views_of(self.filenames@), p@),
        ensures
            r@ == path_text(views_of(self.filenames@), p@),
    {
        let ghost names = views_of(self.filenames@);
        let mut out = String::new();
        let mut i: usize = 0;
        while i < p.len()
            invariant
                names == views_of(self.filenames@),
                names_known(names, p@),
                i <= p@.len(),
                out@ == path_text(names, p@.take(i as int)),
            decreases p.len() - i,
        {
            let name = &self.filenames[p[i] as usize];
            proof {
                assert(p@.take(i + 1).drop_last() =~= p@.take(i as int));
                assert(p@.take(i + 1).last() == p@[i as int]);
                assert(names[p@[i as int] as int] == name@);
            }
            if i == 0 {
                out = name.clone();
                proof {
                    assert(p@.take(1).len() == 1);
                }
            } else {
                let with_sep = concat(out.as_str(), "/");
                proof {
                    reveal_strlit("/");
                }
                out = concat(with_sep.as_str(), name.as_str());
            }
            i += 1;
        }
        proof {
            assert(p@.take(p@.len() as int) =~= p@);
        }
        out
    }

    /// The files of `files` whose path text matches the glob `glob`.
    pub fn files_matching(&self, files: &Vec<FileRef>, glob: &CompiledPattern) -> (r: Vec<FileRef>)
        requires
            forall|i: int| 0 <= i < files@.len() ==> names_known(views_of(self.filenames@), (#[trigger] files@[i]).0@),
        ensures
            file_views(r@) == file_views(files@).filter(
                |f: (Seq<FilenameIdx>, EntryIdx)| glob_matches(glob.pattern_text(), path_text(views_of(self.filenames@), f.0)),
            ),
    {
        let ghost fv = file_views(files@);
        let ghost keep = |f: (Seq<FilenameIdx>, EntryIdx)| glob_matches(glob.pattern_text(), path_text(views_of(self.filenames@), f.0));
        let mut out: Vec<FileRef> = Vec::new();
        let mut i: usize = 0;
        proof {
            assert(fv.take(0) =~= Seq::<(Seq<FilenameIdx>, EntryIdx)>::empty());
            reveal(Seq::filter);
            assert(fv.take(0).filter(keep) =~= Seq::<(Seq<FilenameIdx>, EntryIdx)>::empty());
            assert(file_views(out@) =~= Seq::<(Seq<FilenameIdx>, EntryIdx)>::empty());
        }
        while i < files.len()
            invariant
                fv == file_views(files@),
                i <= fv.len(),
                forall|j: int| 0 <= j < files@.len() ==> names_known(views_of(self.filenames@), (#[trigger] files@[j]).0@),
                keep == (|f: (Seq<FilenameIdx>, EntryIdx)| glob_matches(glob.pattern_text(), path_text(views_of(self.filenames@), f.0))),
                file_views(out@) == fv.take(i as int).filter(keep),
            decreases files.len() - i,
        {
            let text = self.path_string(&files[i].0);
            proof {
                reveal(Seq::filter);
                assert(fv.take(i + 1).drop_last() =~= fv.take(i as int));
                assert(fv.take(i + 1).last() == (files@[i as int].0@, files@[i as int].1));
            }
            if glob_is_match(glob, text.as_str()) {
                let ghost before = file_views(out@);
                let path = files[i].0.clone();
                out.push((path, files[i].1));
                proof {
                    assert(file_views(out@) =~= before.push((files@[i as int].0@, files@[i as int].1)));
                }
            }
            i += 1;
        }
        proof {
            assert(fv.take(fv.len() as int) =~= fv);
        }
        out
    }
}

} // verus!
