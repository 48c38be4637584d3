//! Counts read by a jq query that yields an object of numbers: per file,
//! a count under each key; added up key by key over the files of a commit.
use crate::measurement::{decimal, decimal_text};
use crate::text::{concat, str_eq};
use crate::tokei_stats::{
    add_code, count_of, keys_distinct, lemma_add_code_count, lemma_add_code_found, lemma_add_code_keys,
    lemma_add_code_new, lemma_count_of_at, row_views,
};
use vstd::prelude::*;

verus! {

/// What a jq object query read from one file: a count under each key,
/// no key twice.
#[derive(Debug)]
pub struct JqObjectStat {
    pub data: Vec<(String, usize)>,
}

/// The views of the entries.
pub open spec fn entry_views(d: Seq<(String, usize)>) -> Seq<(Seq<char>, int)> {
    d.map_values(|e: (String, usize)| (e.0@, e.1 as int))
}

/// `acc` with each entry of `other` added in turn: to the count of its key,
/// or as a new key at the end.
pub open spec fn add_entries(acc: Seq<(Seq<char>, int)>, other: Seq<(Seq<char>, int)>) -> Seq<
    (Seq<char>, int),
>
    decreases other.len(),
{
    if other.len() == 0 {
        acc
    } else {
        add_code(add_entries(acc, other.drop_last()), other.last().0, other.last().1)
    }
}

impl Default for JqObjectStat {
    /// No count under any key.
    fn default() -> (r: Self)
        ensures
            r.data@.len() == 0,
    {
        JqObjectStat { data: Vec::new() }
    }
}

impl JqObjectStat {
    /// The entries, as keys and counts.
    pub open spec fn entries(&self) -> Seq<(Seq<char>, int)> {
        entry_views(self.data@)
    }

    /// No key occurs twice.
    pub open spec fn wf(&self) -> bool {
        keys_distinct(self.entries())
    }

    /// Whether no key has a count.
    pub fn is_empty(&self) -> (r: bool)
        ensures
            r == (self.data@.len() == 0),
    {
        self.data.len() == 0
    }

    /// The counts of `self` and `other` added key by key; keys of `other`
    /// that `self` lacks follow in `other`'s order.
    pub fn add(self, other: Self) -> (r: Self)
        requires
            self.wf(),
            other.wf(),
            forall|i: int|
                0 <= i < other.data@.len() ==> count_of(self.entries(), (#[trigger] other.data@[i]).0@)
                    + other.data@[i].1 <= usize::MAX,
        ensures
            r.entries() == add_entries(self.entries(), other.entries()),
            r.wf(),
            forall|k: Seq<char>| count_of(r.entries(), k) == count_of(self.entries(), k) + count_of(other.entries(), k),
    {
        let mut data = self.data;
        add_into(&mut data, &other.data);
        JqObjectStat { data }
    }

    /// Adds the counts of `other` to those of `self`, key by key.
    pub fn add_assign(&mut self, other: Self)
        requires
            old(self).wf(),
            other.wf(),
            forall|i: int|
                0 <= i < other.data@.len() ==> count_of(old(self).entries(), (#[trigger] other.data@[i]).0@)
                    + other.data@[i].1 <= usize::MAX,
        ensures
            final(self).entries() == add_entries(old(self).entries(), other.entries()),
            final(self).wf(),
            forall|k: Seq<char>|
                count_of(final(self).entries(), k) == count_of(old(self).entries(), k) + count_of(other.entries(), k),
    {
        add_into(&mut self.data, &other.data);
    }
}

proof fn lemma_count_of_absent(d: Seq<(Seq<char>, int)>, k: Seq<char>)
    requires
        forall|j: int| 0 <= j < d.len() ==> (#[trigger] d[j]).0 != k,
    ensures
        count_of(d, k) == 0,
    decreases d.len(),
{
    if d.len() > 0 {
        lemma_count_of_absent(d.drop_first(), k);
    }
}

proof fn lemma_count_of_last(d: Seq<(Seq<char>, int)>, k: Seq<char>)
    requires
        d.len() > 0,
        keys_distinct(d),
    ensures
        count_of(d, k) == count_of(d.drop_last(), k) + if k == d.last().0 { d.last().1 } else { 0 },
    decreases d.len(),
{
    if d.len() == 1 {
        assert(d.drop_last() =~= Seq::<(Seq<char>, int)>::empty());
        assert(d.drop_first() =~= Seq::<(Seq<char>, int)>::empty());
    } else if d[0].0 == k {
        assert(d.drop_last()[0] == d[0]);
        assert(d[0].0 != d.last().0);
    } else {
        let t = d.drop_first();
        assert(keys_distinct(t)) by {
            assert forall|a: int, b: int| 0 <= a < b < t.len() implies (#[trigger] t[a]).0 != (#[trigger] t[b]).0 by {
                assert(t[a] == d[a + 1] && t[b] == d[b + 1]);
            }
        }
        lemma_count_of_last(t, k);
        assert(t.drop_last() =~= d.drop_last().drop_first());
        assert(t.last() == d.last());
        assert(d.drop_last()[0] == d[0]);
    }
}

proof fn lemma_add_entries(acc: Seq<(Seq<char>, int)>, other: Seq<(Seq<char>, int)>)
    requires
        keys_distinct(acc),
        keys_distinct(other),
    ensures
        keys_distinct(add_entries(acc, other)),
        forall|k: Seq<char>| #[trigger] count_of(add_entries(acc, other), k) == count_of(acc, k) + count_of(other, k),
    decreases other.len(),
{
    if other.len() == 0 {
        assert forall|k: Seq<char>| #[trigger] count_of(add_entries(acc, other), k) == count_of(acc, k) + count_of(other, k) by {
        }
    } else {
        let t = other.drop_last();
        assert(keys_distinct(t)) by {
            assert forall|a: int, b: int| 0 <= a < b < t.len() implies (#[trigger] t[a]).0 != (#[trigger] t[b]).0 by {
                assert(t[a] == other[a] && t[b] == other[b]);
            }
        }
        lemma_add_entries(acc, t);
        let g = add_entries(acc, t);
        lemma_add_code_keys(g, other.last().0, other.last().1);
        assert forall|k: Seq<char>| #[trigger] count_of(add_entries(acc, other), k) == count_of(acc, k) + count_of(other, k) by {
            lemma_add_code_count(g, other.last().0, other.last().1, k);
            lemma_count_of_last(other, k);
            assert(count_of(g, k) == count_of(acc, k) + count_of(t, k));
        }
    }
}

/// Adds the entries of `other` to `acc`, one after another.
fn add_into(acc: &mut Vec<(String, usize)>, other: &Vec<(String, usize)>)
    requires
        keys_distinct(entry_views(old(acc)@)),
        keys_distinct(entry_views(other@)),
        forall|i: int|
            0 <= i < other@.len() ==> count_of(entry_views(old(acc)@), (#[trigger] other@[i]).0@) + other@[i].1
                <= usize::MAX,
    ensures
        entry_views(final(acc)@) == add_entries(entry_views(old(acc)@), entry_views(other@)),
        keys_distinct(entry_views(final(acc)@)),
        forall|k: Seq<char>|
            count_of(entry_views(final(acc)@), k) == count_of(entry_views(old(acc)@), k) + count_of(
                entry_views(other@),
                k,
            ),
{
    let ghost start = entry_views(acc@);
    let ghost ov = entry_views(other@);
    let mut j: usize = 0;
    proof {
        assert(ov.take(0) =~= Seq::<(Seq<char>, int)>::empty());
    }
    while j < other.len()
        invariant
            j <= other@.len(),
            ov == entry_views(other@),
            keys_distinct(start),
            keys_distinct(ov),
            forall|i: int| 0 <= i < other@.len() ==> count_of(start, (#[trigger] other@[i]).0@) + other@[i].1 <= usize::MAX,
            entry_views(acc@) == add_entries(start, ov.take(j as int)),
        decreases other.len() - j,
    {
        let ghost g = entry_views(acc@);
        let key = &other[j].0;
        let value = other[j].1;
        proof {
            assert(ov.take(j + 1).drop_last() =~= ov.take(j as int));
            assert(ov.take(j + 1).last() == (key@, value as int));
            let t = ov.take(j as int);
            assert(keys_distinct(t)) by {
                assert forall|a: int, b: int| 0 <= a < b < t.len() implies (#[trigger] t[a]).0 != (#[trigger] t[b]).0 by {
                    assert(t[a] == ov[a] && t[b] == ov[b]);
                }
            }
            lemma_add_entries(start, t);
            assert forall|a: int| 0 <= a < t.len() implies (#[trigger] t[a]).0 != key@ by {
                assert(t[a] == ov[a]);
                assert(ov[j as int].0 == key@);
            }
            lemma_count_of_absent(t, key@);
            assert(count_of(g, key@) == count_of(start, key@));
        }
        let mut k: usize = 0;
        let mut found = false;
        while k < acc.len() && !found
            invariant
                g == entry_views(acc@),
                k <= acc@.len(),
                found ==> k > 0 && g[k - 1].0 == key@,
                forall|i: int| 0 <= i < (if found { k - 1 } else { k as int }) ==> (#[trigger] g[i]).0 != key@,
            decreases acc.len() - k,
        {
            if str_eq(acc[k].0.as_str(), key.as_str()) {
                found = true;
            }
            k += 1;
        }
        if found {
            let at = k - 1;
            proof {
                lemma_add_code_found(g, key@, value as int, at as int);
                lemma_count_of_at(g, at as int);
                assert(count_of(start, other@[j as int].0@) + other@[j as int].1 <= usize::MAX);
            }
            let total: usize = acc[at].1 + value;
            let name = acc[at].0.clone();
            acc.set(at, (name, total));
            proof {
                assert(entry_views(acc@) =~= g.update(at as int, (key@, g[at as int].1 + value)));
            }
        } else {
            proof {
                lemma_add_code_new(g, key@, value as int);
            }
            acc.push((key.clone(), value));
            proof {
                assert(entry_views(acc@) =~= g.push((key@, value as int)));
            }
        }
        j += 1;
    }
    proof {
        assert(ov.take(ov.len() as int) =~= ov);
        lemma_add_entries(start, ov);
    }
}

// ---------------------------------------------------------------------------
// The collector
// ---------------------------------------------------------------------------
/// Whether jaq loads and compiles `query` with its standard and JSON
/// definitions.
pub uninterp spec fn jq_query_compiles(query: Seq<char>) -> bool;

/// `jaq_core::load::Loader::load` on `query` with the definitions of
/// `jaq_std` and `jaq_json`, then `jaq_core::Compiler::compile` with their
/// functions. Claimed: the result is whether both succeed, named
/// `jq_query_compiles`.
#[verifier::external_body]
fn query_compiles(query: &str) -> (r: bool)
    ensures
        r == jq_query_compiles(query@),
{
    let program = jaq_core::load::File { code: query, path: () };
    let loader = jaq_core::load::Loader::new(jaq_std::defs().chain(jaq_json::defs()));
    let arena = jaq_core::load::Arena::default();
    match loader.load(&arena, program) {
        Ok(modules) => jaq_core::Compiler::<_, jaq_core::Native<jaq_json::Val>>::default()
            .with_funs(jaq_std::funs().chain(jaq_json::funs()))
            .compile(modules)
            .is_ok(),
        Err(_) => false,
    }
}

/// Why a jq collector cannot be made.
#[derive(Debug, PartialEq, Eq, Structural)]
pub enum JqError {
    /// jaq does not load or compile the query.
    InvalidQuery,
}

/// Sums, over the files of a commit, the objects of counts that a jq query
/// reads.
#[derive(Debug)]
pub struct JqObjectCollector {
    query: String,
}

/// The counts of the non-empty stats added up, keys in the order they first
/// appear.
pub open spec fn merged(stats: Seq<JqObjectStat>) -> Seq<(Seq<char>, int)>
    decreases stats.len(),
{
    if stats.len() == 0 {
        Seq::empty()
    } else if stats.last().data@.len() == 0 {
        merged(stats.drop_last())
    } else {
        add_entries(merged(stats.drop_last()), stats.last().entries())
    }
}

/// The count under `k` over all the stats.
pub open spec fn total_count(stats: Seq<JqObjectStat>, k: Seq<char>) -> int
    decreases stats.len(),
{
    if stats.len() == 0 {
        0
    } else {
        total_count(stats.drop_last(), k) + count_of(stats.last().entries(), k)
    }
}

/// The summary rows of `query` for the merged counts `m`: one per key,
/// named "jq_obj_query_<query>_<key>", with the count in decimal.
pub open spec fn object_rows(query: Seq<char>, m: Seq<(Seq<char>, int)>) -> Seq<(Seq<char>, Seq<char>)> {
    m.map_values(|e: (Seq<char>, int)| ("jq_obj_query_"@ + query + "_"@ + e.0, decimal(e.1 as nat)))
}

proof fn lemma_count_nonneg(d: Seq<(String, usize)>, k: Seq<char>)
    ensures
        count_of(entry_views(d), k) >= 0,
    decreases d.len(),
{
    if d.len() > 0 {
        lemma_count_nonneg(d.drop_first(), k);
        assert(entry_views(d).drop_first() =~= entry_views(d.drop_first()));
    }
}

proof fn lemma_total_prefix(stats: Seq<JqObjectStat>, j: int, k: Seq<char>)
    requires
        0 <= j <= stats.len(),
    ensures
        total_count(stats.take(j), k) <= total_count(stats, k),
    decreases stats.len(),
{
    if j < stats.len() {
        lemma_total_prefix(stats.drop_last(), j, k);
        assert(stats.drop_last().take(j) =~= stats.take(j));
        lemma_count_nonneg(stats.last().data@, k);
    } else {
        assert(stats.take(j) =~= stats);
    }
}

proof fn lemma_merged(stats: Seq<JqObjectStat>)
    requires
        forall|i: int| 0 <= i < stats.len() ==> (#[trigger] stats[i]).wf(),
    ensures
        keys_distinct(merged(stats)),
        forall|k: Seq<char>| #[trigger] count_of(merged(stats), k) == total_count(stats, k),
    decreases stats.len(),
{
    if stats.len() == 0 {
        assert forall|k: Seq<char>| #[trigger] count_of(merged(stats), k) == total_count(stats, k) by {
        }
    } else {
        let t = stats.drop_last();
        assert forall|i: int| 0 <= i < t.len() implies (#[trigger] t[i]).wf() by {
            assert(t[i] == stats[i]);
        }
        lemma_merged(t);
        assert(stats.last() == stats[stats.len() - 1]);
        if stats.last().data@.len() == 0 {
            assert forall|k: Seq<char>| #[trigger] count_of(merged(stats), k) == total_count(stats, k) by {
                assert(count_of(merged(t), k) == total_count(t, k));
            }
        } else {
            lemma_add_entries(merged(t), stats.last().entries());
            assert forall|k: Seq<char>| #[trigger] count_of(merged(stats), k) == total_count(stats, k) by {
                assert(count_of(merged(t), k) == total_count(t, k));
            }
        }
    }
}

impl JqObjectCollector {
    /// The collector of `query`, made from whether jaq compiles it: refused
    /// when it does not.
    pub fn from_check(query: &str, compiles: bool) -> (r: Result<Self, JqError>)
        ensures
            match r {
                Ok(c) => compiles && c.query_view() == query@,
                Err(e) => !compiles && e == JqError::InvalidQuery,
            },
    {
        if compiles {
            Ok(JqObjectCollector { query: query.to_string() })
        } else {
            Err(JqError::InvalidQuery)
        }
    }

    /// The collector of `query`; refused when jaq does not compile it.
    pub fn new(query: &str) -> (r: Result<Self, JqError>)
        ensures
            match r {
                Ok(c) => jq_query_compiles(query@) && c.query_view() == query@,
                Err(e) => !jq_query_compiles(query@) && e == JqError::InvalidQuery,
            },
    {
        let compiles = query_compiles(query);
        JqObjectCollector::from_check(query, compiles)
    }

    pub closed spec fn query_view(&self) -> Seq<char> {
        self.query@
    }

    /// The query.
    pub fn query(&self) -> (r: &String)
        ensures
            r@ == self.query_view(),
    {
        &self.query
    }

    /// The summary of the stats of a commit's files: the counts added up key
    /// by key over the non-empty stats, one row per key named
    /// "jq_obj_query_<query>_<key>", in the order the keys first appear.
    pub fn summarize_tree_data(&self, stats: &Vec<JqObjectStat>) -> (r: Vec<(String, String)>)
        requires
            forall|i: int| 0 <= i < stats@.len() ==> (#[trigger] stats@[i]).wf(),
            forall|k: Seq<char>| #[trigger] total_count(stats@, k) <= usize::MAX,
        ensures
            row_views(r@) == object_rows(self.query_view(), merged(stats@)),
    {
        let mut acc: Vec<(String, usize)> = Vec::new();
        let mut i: usize = 0;
        proof {
            assert(stats@.take(0) =~= Seq::<JqObjectStat>::empty());
            assert(entry_views(acc@) =~= Seq::<(Seq<char>, int)>::empty());
        }
        while i < stats.len()
            invariant
                i <= stats@.len(),
                forall|j: int| 0 <= j < stats@.len() ==> (#[trigger] stats@[j]).wf(),
                forall|k: Seq<char>| #[trigger] total_count(stats@, k) <= usize::MAX,
                entry_views(acc@) == merged(stats@.take(i as int)),
            decreases stats.len() - i,
        {
            let s = &stats[i];
            let ghost pre = stats@.take(i as int);
            proof {
                assert(stats@.take(i + 1).drop_last() =~= pre);
                assert(stats@.take(i + 1).last() == *s);
            }
            if s.data.len() > 0 {
                proof {
                    assert forall|j: int| 0 <= j < pre.len() implies (#[trigger] pre[j]).wf() by {
                        assert(pre[j] == stats@[j]);
                    }
                    lemma_merged(pre);
                    assert forall|e: int| 0 <= e < s.data@.len() implies count_of(
                        entry_views(acc@),
                        (#[trigger] s.data@[e]).0@,
                    ) + s.data@[e].1 <= usize::MAX by {
                        let k = s.data@[e].0@;
                        lemma_count_of_at(s.entries(), e);
                        lemma_total_prefix(stats@, i + 1, k);
                        assert(total_count(stats@.take(i + 1), k) == total_count(pre, k) + count_of(s.entries(), k));
                        assert(total_count(stats@, k) <= usize::MAX);
                    }
                }
                add_into(&mut acc, &s.data);
            }
            i += 1;
        }
        proof {
            assert(stats@.take(stats@.len() as int) =~= stats@);
        }
        let mut rows: Vec<(String, String)> = Vec::new();
        let prefix = concat("jq_obj_query_", self.query.as_str());
        let ghost m = entry_views(acc@);
        let mut j: usize = 0;
        while j < acc.len()
            invariant
                j <= acc@.len(),
                m == entry_views(acc@),
                prefix@ == "jq_obj_query_"@ + self.query@,
                row_views(rows@) == object_rows(self.query@, m.take(j as int)),
            decreases acc.len() - j,
        {
            let with_sep = concat(prefix.as_str(), "_");
            let name = concat(with_sep.as_str(), acc[j].0.as_str());
            let value = decimal_text(acc[j].1 as u64);
            rows.push((name, value));
            proof {
                assert(m.take(j + 1) =~= m.take(j as int).push(m[j as int]));
                assert(row_views(rows@) =~= object_rows(self.query@, m.take(j as int)).push(
                    ("jq_obj_query_"@ + self.query@ + "_"@ + m[j as int].0, decimal(m[j as int].1 as nat)),
                ));
                assert(object_rows(self.query@, m.take(j + 1)) =~= object_rows(self.query@, m.take(j as int)).push(
                    ("jq_obj_query_"@ + self.query@ + "_"@ + m[j as int].0, decimal(m[j as int].1 as nat)),
                ));
            }
            j += 1;
        }
        proof {
            assert(m.take(m.len() as int) =~= m);
        }
        rows
    }
}

} // verus!
