//! Building the flattened repository while its trees are read: file names
//! and tree entries are numbered in the order they are first met (kept in
//! `indexmap::IndexSet`s), and each tree is recorded with the numbers of its
//! entries.
use crate::repo_cache::{EntryIdx, FilenameIdx, MyEntry, OidIdx, TreeChild, TreeChildKind, TreeEntry};
use crate::text::views_of;
use crate::tree_walk::FlatRepo;
use indexmap::IndexSet;
use std::collections::{HashMap, HashSet};
use vstd::prelude::*;

verus! {

#[verifier::external_type_specification]
#[verifier::external_body]
#[verifier::reject_recursive_types(T)]
#[verifier::reject_recursive_types(S)]
pub struct ExIndexSet<T, S>(indexmap::IndexSet<T, S>);

/// The names a name set holds, in insertion order.
pub uninterp spec fn name_items(s: IndexSet<String>) -> Seq<Seq<char>>;

/// The entry keys an entry set holds, in insertion order: object number,
/// name number, and whether the entry is a tree.
pub uninterp spec fn entry_items(s: IndexSet<(u32, u32, bool)>) -> Seq<(u32, u32, bool)>;

/// `IndexSet::new`. Claimed: the set holds nothing.
#[verifier::external_body]
fn new_name_set() -> (r: IndexSet<String>)
    ensures
        name_items(r) == Seq::<Seq<char>>::empty(),
{
    IndexSet::new()
}

/// `IndexSet::new`. Claimed: the set holds nothing.
#[verifier::external_body]
fn new_entry_set() -> (r: IndexSet<(u32, u32, bool)>)
    ensures
        entry_items(r) == Seq::<(u32, u32, bool)>::empty(),
{
    IndexSet::new()
}

/// `IndexSet::insert_full`. Claimed, as its documentation states: when an
/// equal name is held, its index and `false`, the set unchanged; otherwise
/// the name is appended, and its index and `true` come back.
#[verifier::external_body]
fn insert_name(s: &mut IndexSet<String>, name: String) -> (r: (usize, bool))
    ensures
        name_items(*old(s)).contains(name@) ==> !r.1 && r.0 < name_items(*old(s)).len()
            && name_items(*old(s))[r.0 as int] == name@ && name_items(*final(s)) == name_items(*old(s)),
        !name_items(*old(s)).contains(name@) ==> r.1 && r.0 == name_items(*old(s)).len()
            && name_items(*final(s)) == name_items(*old(s)).push(name@),
{
    s.insert_full(name)
}

/// `IndexSet::insert_full`. Claimed, as its documentation states: when an
/// equal key is held, its index and `false`, the set unchanged; otherwise
/// the key is appended, and its index and `true` come back.
#[verifier::external_body]
fn insert_entry(s: &mut IndexSet<(u32, u32, bool)>, key: (u32, u32, bool)) -> (r: (usize, bool))
    ensures
        entry_items(*old(s)).contains(key) ==> !r.1 && r.0 < entry_items(*old(s)).len()
            && entry_items(*old(s))[r.0 as int] == key && entry_items(*final(s)) == entry_items(*old(s)),
        !entry_items(*old(s)).contains(key) ==> r.1 && r.0 == entry_items(*old(s)).len()
            && entry_items(*final(s)) == entry_items(*old(s)).push(key),
{
    s.insert_full(key)
}

/// `IndexSet::iter`, each name cloned into a `Vec`. Claimed: the names in
/// the set's order.
#[verifier::external_body]
fn names_in_order(s: &IndexSet<String>) -> (r: Vec<String>)
    ensures
        views_of(r@) == name_items(*s),
{
    s.iter().cloned().collect()
}

/// `IndexSet::iter`, each key copied into a `Vec`. Claimed: the keys in the
/// set's order.
#[verifier::external_body]
fn entries_in_order(s: &IndexSet<(u32, u32, bool)>) -> (r: Vec<(u32, u32, bool)>)
    ensures
        r@ == entry_items(*s),
{
    s.iter().copied().collect()
}

/// `IndexSet::len`. Claimed: the number of names held.
#[verifier::external_body]
fn name_count(s: &IndexSet<String>) -> (r: usize)
    ensures
        r == name_items(*s).len(),
{
    s.len()
}

/// `IndexSet::len`. Claimed: the number of keys held.
#[verifier::external_body]
fn key_count(s: &IndexSet<(u32, u32, bool)>) -> (r: usize)
    ensures
        r == entry_items(*s).len(),
{
    s.len()
}

/// `items` with `x` appended unless it is there already.
pub open spec fn intern<A>(items: Seq<A>, x: A) -> Seq<A> {
    if items.contains(x) {
        items
    } else {
        items.push(x)
    }
}

/// `items` with each of `xs` interned in turn.
pub open spec fn intern_all<A>(items: Seq<A>, xs: Seq<A>) -> Seq<A>
    decreases xs.len(),
{
    if xs.len() == 0 {
        items
    } else {
        intern(intern_all(items, xs.drop_last()), xs.last())
    }
}

/// No item occurs twice.
pub open spec fn distinct<A>(items: Seq<A>) -> bool {
    forall|i: int, j: int| 0 <= i < j < items.len() ==> items[i] != items[j]
}

/// The position of `x` in `items`.
pub open spec fn index_in<A>(items: Seq<A>, x: A) -> int {
    choose|i: int| 0 <= i < items.len() && items[i] == x
}

/// The names of the children of a tree, in order.
pub open spec fn child_names(children: Seq<(u32, String, TreeChildKind)>) -> Seq<Seq<char>> {
    children.map_values(|c: (u32, String, TreeChildKind)| c.1@)
}

/// The entry key of each child, its name numbered as in `names`.
pub open spec fn child_keys(children: Seq<(u32, String, TreeChildKind)>, names: Seq<Seq<char>>) -> Seq<
    (u32, u32, bool),
> {
    children.map_values(
        |c: (u32, String, TreeChildKind)| (c.0, index_in(names, c.1@) as u32, c.2 == TreeChildKind::Tree),
    )
}

/// The objects of the children that are trees, in order.
pub open spec fn subtrees(children: Seq<(u32, String, TreeChildKind)>) -> Seq<u32>
    decreases children.len(),
{
    if children.len() == 0 {
        Seq::empty()
    } else if children.last().2 == TreeChildKind::Tree {
        subtrees(children.drop_last()).push(children.last().0)
    } else {
        subtrees(children.drop_last())
    }
}

/// The entry of a key.
pub open spec fn entry_of(k: (u32, u32, bool)) -> MyEntry {
    MyEntry {
        oid_idx: k.0,
        filename_idx: k.1,
        kind: if k.2 {
            TreeChildKind::Tree
        } else {
            TreeChildKind::Blob
        },
    }
}

/// Every recorded tree lists entry numbers below `nkeys`.
pub open spec fn children_known_in(trees: Map<OidIdx, TreeChild>, nkeys: nat) -> bool {
    forall|o: OidIdx|
        #[trigger] trees.contains_key(o) ==> (trees[o] matches TreeChild::Tree(t) && forall|c: int|
            0 <= c < t.children@.len() ==> #[trigger] t.children@[c] < nkeys)
}

/// Every entry key that is a tree names a recorded tree.
pub open spec fn keys_closed_in(keys: Seq<(u32, u32, bool)>, trees: Map<OidIdx, TreeChild>) -> bool {
    forall|i: int| 0 <= i < keys.len() && (#[trigger] keys[i]).2 ==> trees.contains_key(keys[i].0)
}

/// Why a tree could not be recorded.
#[derive(Debug, PartialEq, Eq, Structural)]
pub enum RepoSetsError {
    /// Its names or entries might not all get a 32-bit number.
    TooManyItems,
}

/// The sets a repository's trees are numbered by, and the trees read so far.
pub struct FlatRepoWithSets {
    filenames: IndexSet<String>,
    entries: IndexSet<(u32, u32, bool)>,
    trees: HashMap<OidIdx, TreeChild>,
}

impl Default for FlatRepoWithSets {
    /// No names, entries or trees.
    fn default() -> (r: Self)
        ensures
            r.names() == Seq::<Seq<char>>::empty(),
            r.keys() == Seq::<(u32, u32, bool)>::empty(),
            r.tree_map() == Map::<OidIdx, TreeChild>::empty(),
            r.wf(),
    {
        FlatRepoWithSets::new()
    }
}

impl FlatRepoWithSets {
    /// The names, numbered by position.
    pub closed spec fn names(&self) -> Seq<Seq<char>> {
        name_items(self.filenames)
    }

    /// The entry keys, numbered by position.
    pub closed spec fn keys(&self) -> Seq<(u32, u32, bool)> {
        entry_items(self.entries)
    }

    /// The trees recorded, by object number.
    pub closed spec fn tree_map(&self) -> Map<OidIdx, TreeChild> {
        self.trees@
    }

    /// No name and no key is held twice.
    pub open spec fn wf(&self) -> bool {
        distinct(self.names()) && distinct(self.keys())
    }

    /// Every recorded tree lists numbers of held entries.
    pub open spec fn children_known(&self) -> bool {
        children_known_in(self.tree_map(), self.keys().len())
    }

    /// Every entry that is a tree names a recorded tree: no tree that a
    /// recorded tree holds is left unread.
    pub open spec fn keys_closed(&self) -> bool {
        keys_closed_in(self.keys(), self.tree_map())
    }

    /// No names, entries or trees.
    pub fn new() -> (r: Self)
        ensures
            r.names() == Seq::<Seq<char>>::empty(),
            r.keys() == Seq::<(u32, u32, bool)>::empty(),
            r.tree_map() == Map::<OidIdx, TreeChild>::empty(),
            r.wf(),
    {
        FlatRepoWithSets { filenames: new_name_set(), entries: new_entry_set(), trees: HashMap::new() }
    }

    /// Records the tree `oid` with its `children` (object number, name and
    /// kind of each): their names and entry keys are numbered where they are
    /// new, and the tree lists the numbers of its entries. Returns the
    /// objects of the children that are trees, to be read next. Refused,
    /// with nothing changed, when the names or the entries could outgrow
    /// 32-bit numbers.
    pub fn add_tree(&mut self, oid: OidIdx, children: &Vec<(u32, String, TreeChildKind)>) -> (r: Result<
        Vec<OidIdx>,
        RepoSetsError,
    >)
        requires
            old(self).wf(),
        ensures
            final(self).wf(),
            old(self).children_known() ==> final(self).children_known(),
            match r {
                Ok(next) => {
                    &&& final(self).names() == intern_all(old(self).names(), child_names(children@))
                    &&& final(self).keys() == intern_all(
                        old(self).keys(),
                        child_keys(children@, final(self).names()),
                    )
                    &&& final(self).tree_map() == old(self).tree_map().insert(
                        oid,
                        final(self).tree_map()[oid],
                    )
                    &&& final(self).tree_map()[oid] matches TreeChild::Tree(t) && t.oid_idx == oid
                        && t.children@ == child_keys(children@, final(self).names()).map_values(
                        |k: (u32, u32, bool)| index_in(final(self).keys(), k) as u32,
                    )
                    &&& next@ == subtrees(children@)
                },
                Err(e) => e == RepoSetsError::TooManyItems && *final(self) == *old(self) && (
                old(self).names().len() + children@.len() > u32::MAX + 1 || old(self).keys().len()
                    + children@.len() > u32::MAX + 1),
            },
    {
        let names_held = name_count(&self.filenames);
        let keys_held = key_count(&self.entries);
        if (names_held as u128) + (children.len() as u128) > 4294967296u128 || (keys_held as u128)
            + (children.len() as u128) > 4294967296u128 {
            return Err(RepoSetsError::TooManyItems);
        }
        let ghost old_names = self.names();
        let ghost old_keys = self.keys();
        let ghost old_trees = self.tree_map();
        let ghost cn = child_names(children@);
        // The names, in the order of the children.
        let mut name_numbers: Vec<u32> = Vec::new();
        let mut i: usize = 0;
        proof {
            assert(cn.take(0) =~= Seq::<Seq<char>>::empty());
        }
        while i < children.len()
            invariant
                i <= children@.len(),
                cn == child_names(children@),
                old_names.len() + children@.len() <= u32::MAX + 1,
                self.names() == intern_all(old_names, cn.take(i as int)),
                distinct(self.names()),
                old_names.len() <= self.names().len() <= old_names.len() + i,
                forall|j: int| 0 <= j < old_names.len() ==> self.names()[j] == old_names[j],
                name_numbers@.len() == i,
                forall|j: int|
                    0 <= j < i ==> (#[trigger] name_numbers@[j]) < self.names().len() && self.names()[name_numbers@[j] as int]
                        == cn[j],
                self.keys() == old_keys,
                self.tree_map() == old_trees,
            decreases children.len() - i,
        {
            let ghost before = self.names();
            let name = children[i].1.clone();
            proof {
                assert(cn.take(i + 1).drop_last() =~= cn.take(i as int));
                assert(cn[i as int] == name@);
            }
            let (at, _) = insert_name(&mut self.filenames, name);
            proof {
                lemma_intern_keeps(before, name@);
                assert(self.names() == intern(before, name@));
                assert(intern_all(old_names, cn.take(i + 1)) == intern(intern_all(old_names, cn.take(i as int)), cn.take(i + 1).last()));
                assert forall|j: int| 0 <= j < i implies (#[trigger] name_numbers@[j]) < self.names().len() && self.names()[name_numbers@[j] as int] == cn[j] by {
                }
            }
            name_numbers.push(at as u32);
            i += 1;
        }
        let ghost names_final = self.names();
        proof {
            assert(cn.take(cn.len() as int) =~= cn);
            assert forall|j: int| 0 <= j < children@.len() implies index_in(names_final, #[trigger] cn[j]) == name_numbers@[j] by {
                lemma_index_in_at(names_final, name_numbers@[j] as int);
            }
        }
        let ghost ck = child_keys(children@, names_final);
        // The entries, in the order of the children.
        let mut entry_numbers: Vec<EntryIdx> = Vec::new();
        let mut next: Vec<OidIdx> = Vec::new();
        let mut i: usize = 0;
        proof {
            assert(ck.take(0) =~= Seq::<(u32, u32, bool)>::empty());
            assert(children@.take(0) =~= Seq::<(u32, String, TreeChildKind)>::empty());
        }
        while i < children.len()
            invariant
                i <= children@.len(),
                cn == child_names(children@),
                ck == child_keys(children@, names_final),
                name_numbers@.len() == children@.len(),
                forall|j: int| 0 <= j < children@.len() ==> index_in(names_final, #[trigger] cn[j]) == name_numbers@[j],
                old_keys.len() + children@.len() <= u32::MAX + 1,
                self.keys() == intern_all(old_keys, ck.take(i as int)),
                distinct(self.keys()),
                self.keys().len() <= old_keys.len() + i,
                entry_numbers@.len() == i,
                forall|j: int|
                    0 <= j < i ==> (#[trigger] entry_numbers@[j]) < self.keys().len() && self.keys()[entry_numbers@[j] as int]
                        == ck[j],
                next@ == subtrees(children@.take(i as int)),
                self.names() == names_final,
                distinct(names_final),
                self.tree_map() == old_trees,
            decreases children.len() - i,
        {
            let ghost before = self.keys();
            let is_tree = match children[i].2 {
                TreeChildKind::Tree => true,
                TreeChildKind::Blob => false,
            };
            let key = (children[i].0, name_numbers[i], is_tree);
            proof {
                assert(cn[i as int] == children@[i as int].1@);
                assert(ck[i as int] == key);
                assert(ck.take(i + 1).drop_last() =~= ck.take(i as int));
                assert(children@.take(i + 1).drop_last() =~= children@.take(i as int));
                assert(children@.take(i + 1).last() == children@[i as int]);
            }
            let (at, _) = insert_entry(&mut self.entries, key);
            proof {
                lemma_intern_keeps(before, key);
                assert(intern_all(old_keys, ck.take(i + 1)) == intern(intern_all(old_keys, ck.take(i as int)), ck.take(i + 1).last()));
                assert forall|j: int| 0 <= j < i implies (#[trigger] entry_numbers@[j]) < self.keys().len() && self.keys()[entry_numbers@[j] as int] == ck[j] by {
                }
            }
            entry_numbers.push(at as u32);
            if is_tree {
                next.push(children[i].0);
            }
            i += 1;
        }
        let ghost keys_final = self.keys();
        proof {
            assert(ck.take(ck.len() as int) =~= ck);
            assert(children@.take(children@.len() as int) =~= children@);
            assert forall|j: int| 0 <= j < ck.len() implies #[trigger] entry_numbers@[j] == ck.map_values(
                |k: (u32, u32, bool)| index_in(keys_final, k) as u32,
            )[j] by {
                lemma_index_in_at(keys_final, entry_numbers@[j] as int);
            }
            assert(entry_numbers@ =~= ck.map_values(|k: (u32, u32, bool)| index_in(keys_final, k) as u32));
        }
        let tree = TreeChild::Tree(TreeEntry { oid_idx: oid, children: entry_numbers });
        self.trees.insert(oid, tree);
        proof {
            assert(self.tree_map() =~= old_trees.insert(oid, self.tree_map()[oid]));
            lemma_numbers_stay(old_keys, ck);
            if children_known_in(old_trees, old_keys.len()) {
                let nk = keys_final.len();
                assert forall|o: OidIdx| #[trigger] self.tree_map().contains_key(o) implies (self.tree_map()[o] matches TreeChild::Tree(t) && forall|c: int|
                    0 <= c < t.children@.len() ==> #[trigger] t.children@[c] < nk) by {
                    if o != oid {
                        assert(old_trees.contains_key(o));
                        assert(self.tree_map()[o] == old_trees[o]);
                    }
                }
            }
        }
        Ok(next)
    }

    /// Whether every entry that is a tree names a recorded tree.
    pub fn all_trees_read(&self) -> (r: bool)
        ensures
            r == self.keys_closed(),
    {
        let keys = entries_in_order(&self.entries);
        let mut i: usize = 0;
        while i < keys.len()
            invariant
                keys@ == self.keys(),
                i <= keys@.len(),
                forall|j: int| 0 <= j < i && (#[trigger] keys@[j]).2 ==> self.tree_map().contains_key(keys@[j].0),
            decreases keys.len() - i,
        {
            if keys[i].2 && !self.trees.contains_key(&keys[i].0) {
                return false;
            }
            i += 1;
        }
        true
    }

    /// Whether the tree `oid` is recorded.
    pub fn has_tree(&self, oid: OidIdx) -> (r: bool)
        ensures
            r == self.tree_map().contains_key(oid),
    {
        self.trees.contains_key(&oid)
    }

    /// The flattened repository: the names and entries by number, and the
    /// trees recorded.
    pub fn into_flat_repo(self) -> (r: FlatRepo)
        ensures
            views_of(r.filenames@) == self.names(),
            r.entries@ == self.keys().map_values(|k: (u32, u32, bool)| entry_of(k)),
            r.trees@ == self.tree_map(),
    {
        let filenames = names_in_order(&self.filenames);
        let keys = entries_in_order(&self.entries);
        let mut entries: Vec<MyEntry> = Vec::new();
        let mut i: usize = 0;
        while i < keys.len()
            invariant
                i <= keys@.len(),
                entries@ == keys@.take(i as int).map_values(|k: (u32, u32, bool)| entry_of(k)),
            decreases keys.len() - i,
        {
            let k = keys[i];
            let kind = if k.2 {
                TreeChildKind::Tree
            } else {
                TreeChildKind::Blob
            };
            entries.push(MyEntry { oid_idx: k.0, filename_idx: k.1, kind });
            proof {
                assert(keys@.take(i + 1) =~= keys@.take(i as int).push(k));
                assert(entries@ =~= keys@.take(i + 1).map_values(|k: (u32, u32, bool)| entry_of(k)));
            }
            i += 1;
        }
        proof {
            assert(keys@.take(keys@.len() as int) =~= keys@);
        }
        FlatRepo { entries, trees: self.trees, filenames }
    }
}

/// Once every entry that is a tree has been read, every tree that a
/// recorded tree lists among its entries is recorded too.
pub proof fn lemma_closed_sets_hold_subtrees(sets: FlatRepoWithSets, o: OidIdx, c: int)
    requires
        sets.children_known(),
        sets.keys_closed(),
        sets.tree_map().contains_key(o),
        sets.tree_map()[o] matches TreeChild::Tree(t) && 0 <= c < t.children@.len() && sets.keys()[t.children@[c] as int].2,
    ensures
        sets.tree_map()[o] matches TreeChild::Tree(t) && sets.tree_map().contains_key(sets.keys()[t.children@[c] as int].0),
{
    let t = sets.tree_map()[o]->Tree_0;
    assert(t.children@[c] < sets.keys().len());
    let i = t.children@[c] as int;
    assert(sets.keys()[i].2);
}

/// Interning keeps every number: what `items` holds stays at its place.
pub proof fn lemma_numbers_stay<A>(items: Seq<A>, xs: Seq<A>)
    ensures
        items.len() <= intern_all(items, xs).len() <= items.len() + xs.len(),
        forall|j: int| 0 <= j < items.len() ==> #[trigger] intern_all(items, xs)[j] == items[j],
    decreases xs.len(),
{
    if xs.len() > 0 {
        lemma_numbers_stay(items, xs.drop_last());
        let before = intern_all(items, xs.drop_last());
        if !before.contains(xs.last()) {
            assert forall|j: int| 0 <= j < items.len() implies #[trigger] intern_all(items, xs)[j] == items[j] by {
                assert(before.push(xs.last())[j] == before[j]);
            }
        }
    }
}

/// Interning what is held already changes nothing: reading a tree whose
/// names and entries are all known adds no name and no entry.
pub proof fn lemma_known_items_add_nothing<A>(items: Seq<A>, xs: Seq<A>)
    requires
        forall|i: int| 0 <= i < xs.len() ==> items.contains(#[trigger] xs[i]),
    ensures
        intern_all(items, xs) == items,
    decreases xs.len(),
{
    if xs.len() > 0 {
        let t = xs.drop_last();
        assert forall|i: int| 0 <= i < t.len() implies items.contains(#[trigger] t[i]) by {
            assert(t[i] == xs[i]);
        }
        lemma_known_items_add_nothing(items, t);
        assert(items.contains(xs[xs.len() - 1]));
    }
}

/// After interning, every interned item is held.
pub proof fn lemma_interned_are_held<A>(items: Seq<A>, xs: Seq<A>)
    ensures
        forall|i: int| 0 <= i < xs.len() ==> intern_all(items, xs).contains(#[trigger] xs[i]),
    decreases xs.len(),
{
    if xs.len() > 0 {
        let t = xs.drop_last();
        lemma_interned_are_held(items, t);
        let before = intern_all(items, t);
        assert forall|i: int| 0 <= i < xs.len() implies intern_all(items, xs).contains(#[trigger] xs[i]) by {
            if i < t.len() {
                assert(t[i] == xs[i]);
                let k = choose|k: int| 0 <= k < before.len() && before[k] == xs[i];
                if !before.contains(xs.last()) {
                    assert(before.push(xs.last())[k] == before[k]);
                }
            } else {
                if !before.contains(xs.last()) {
                    assert(before.push(xs.last())[before.len() as int] == xs.last());
                }
            }
        }
    }
}

proof fn lemma_intern_keeps<A>(items: Seq<A>, x: A)
    requires
        distinct(items),
    ensures
        distinct(intern(items, x)),
        items.len() <= intern(items, x).len() <= items.len() + 1,
        forall|j: int| 0 <= j < items.len() ==> intern(items, x)[j] == items[j],
        intern(items, x).contains(x),
{
    if !items.contains(x) {
        let r = items.push(x);
        assert(r[items.len() as int] == x);
        assert forall|i: int, j: int| 0 <= i < j < r.len() implies r[i] != r[j] by {
            if j == items.len() {
                assert(items[i] == r[i]);
            }
        }
    }
}

proof fn lemma_index_in_at<A>(items: Seq<A>, k: int)
    requires
        distinct(items),
        0 <= k < items.len(),
    ensures
        index_in(items, items[k]) == k,
{
    let i = index_in(items, items[k]);
    assert(0 <= i < items.len() && items[i] == items[k]);
}

// ---------------------------------------------------------------------------
// File names of blobs
// ---------------------------------------------------------------------------
/// The names under which the entries of `entries` refer to the blob `oid`.
pub open spec fn blob_names(entries: Seq<MyEntry>, oid: OidIdx) -> Set<FilenameIdx> {
    Set::new(
        |f: FilenameIdx|
            exists|i: int|
                0 <= i < entries.len() && (#[trigger] entries[i]).kind == TreeChildKind::Blob
                    && entries[i].oid_idx == oid && entries[i].filename_idx == f,
    )
}

/// Some entry of `entries` refers to the blob `oid`.
pub open spec fn blob_named(entries: Seq<MyEntry>, oid: OidIdx) -> bool {
    exists|i: int|
        0 <= i < entries.len() && (#[trigger] entries[i]).kind == TreeChildKind::Blob && entries[i].oid_idx
            == oid
}

/// For each blob that an entry refers to, the names it is referred to by.
pub fn build_filename_cache(entries: &Vec<MyEntry>) -> (r: HashMap<OidIdx, HashSet<FilenameIdx>>)
    ensures
        forall|oid: OidIdx| #[trigger] r@.contains_key(oid) <==> blob_named(entries@, oid),
        forall|oid: OidIdx| r@.contains_key(oid) ==> (#[trigger] r@[oid])@ == blob_names(entries@, oid),
{
    broadcast use vstd::std_specs::hash::group_hash_axioms;
    let mut cache: HashMap<OidIdx, HashSet<FilenameIdx>> = HashMap::new();
    let mut i: usize = 0;
    while i < entries.len()
        invariant
            i <= entries@.len(),
            forall|oid: OidIdx| #[trigger] cache@.contains_key(oid) <==> blob_named(entries@.take(i as int), oid),
            forall|oid: OidIdx|
                cache@.contains_key(oid) ==> (#[trigger] cache@[oid])@ == blob_names(entries@.take(i as int), oid),
        decreases entries.len() - i,
    {
        let e = entries[i];
        let ghost before = entries@.take(i as int);
        let ghost after = entries@.take(i + 1);
        proof {
            assert(after == before.push(e));
            assert(after[i as int] == e);
        }
        if e.kind == TreeChildKind::Blob {
            let mut names = match cache.remove(&e.oid_idx) {
                Some(names) => names,
                None => HashSet::new(),
            };
            names.insert(e.filename_idx);
            cache.insert(e.oid_idx, names);
            proof {
                assert forall|oid: OidIdx| #[trigger] cache@.contains_key(oid) <==> blob_named(after, oid) by {
                    if blob_named(before, oid) {
                        let j = choose|j: int| 0 <= j < before.len() && (#[trigger] before[j]).kind == TreeChildKind::Blob && before[j].oid_idx == oid;
                        assert(after[j] == before[j]);
                    }
                    if blob_named(after, oid) && oid != e.oid_idx {
                        let j = choose|j: int| 0 <= j < after.len() && (#[trigger] after[j]).kind == TreeChildKind::Blob && after[j].oid_idx == oid;
                        assert(j < before.len());
                        assert(before[j] == after[j]);
                    }
                }
                assert forall|oid: OidIdx| cache@.contains_key(oid) implies (#[trigger] cache@[oid])@ == blob_names(after, oid) by {
                    assert forall|f: FilenameIdx| #[trigger] blob_names(after, oid).contains(f) <==> cache@[oid]@.contains(f) by {
                        if blob_names(before, oid).contains(f) {
                            let j = choose|j: int| 0 <= j < before.len() && (#[trigger] before[j]).kind == TreeChildKind::Blob && before[j].oid_idx == oid && before[j].filename_idx == f;
                            assert(after[j] == before[j]);
                        }
                        if blob_names(after, oid).contains(f) {
                            let j = choose|j: int| 0 <= j < after.len() && (#[trigger] after[j]).kind == TreeChildKind::Blob && after[j].oid_idx == oid && after[j].filename_idx == f;
                            if j < before.len() {
                                assert(before[j] == after[j]);
                                assert(blob_names(before, oid).contains(f));
                            }
                        }
                        if oid == e.oid_idx && !blob_named(before, oid) {
                            assert(blob_names(before, oid).is_empty()) by {
                                if blob_names(before, oid).contains(f) {
                                    let j = choose|j: int| 0 <= j < before.len() && (#[trigger] before[j]).kind == TreeChildKind::Blob && before[j].oid_idx == oid && before[j].filename_idx == f;
                                }
                            }
                        }
                    }
                    assert(cache@[oid]@ =~= blob_names(after, oid));
                }
            }
        } else {
            proof {
                assert forall|oid: OidIdx| #[trigger] cache@.contains_key(oid) <==> blob_named(after, oid) by {
                    if blob_named(before, oid) {
                        let j = choose|j: int| 0 <= j < before.len() && (#[trigger] before[j]).kind == TreeChildKind::Blob && before[j].oid_idx == oid;
                        assert(after[j] == before[j]);
                    }
                    if blob_named(after, oid) {
                        let j = choose|j: int| 0 <= j < after.len() && (#[trigger] after[j]).kind == TreeChildKind::Blob && after[j].oid_idx == oid;
                        assert(j < before.len());
                        assert(before[j] == after[j]);
                    }
                }
                assert forall|oid: OidIdx| cache@.contains_key(oid) implies (#[trigger] cache@[oid])@ == blob_names(after, oid) by {
                    assert forall|f: FilenameIdx| #[trigger] blob_names(after, oid).contains(f) <==> blob_names(before, oid).contains(f) by {
                        if blob_names(before, oid).contains(f) {
                            let j = choose|j: int| 0 <= j < before.len() && (#[trigger] before[j]).kind == TreeChildKind::Blob && before[j].oid_idx == oid && before[j].filename_idx == f;
                            assert(after[j] == before[j]);
                        }
                        if blob_names(after, oid).contains(f) {
                            let j = choose|j: int| 0 <= j < after.len() && (#[trigger] after[j]).kind == TreeChildKind::Blob && after[j].oid_idx == oid && after[j].filename_idx == f;
                            assert(j < before.len());
                            assert(before[j] == after[j]);
                        }
                    }
                    assert(blob_names(after, oid) =~= blob_names(before, oid));
                }
            }
        }
        i += 1;
    }
    proof {
        assert(entries@.take(entries@.len() as int) =~= entries@);
    }
    cache
}

} // verus!
