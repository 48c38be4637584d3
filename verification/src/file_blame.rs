use std::collections::HashMap;
use std::ops::Range;
use vstd::prelude::*;
use vstd::std_specs::hash::obeys_key_model;

verus! {

/// Line numbers, as produced by line diffs.
pub type LineNumber = u32;

/// Signed line offsets.
pub type LineDelta = i64;

/// A list of hunks: (lines deleted in the old file, lines inserted in the new
/// file, cohort of the inserted lines).
pub type LineDiffs<K> = Vec<(Range<LineNumber>, Range<LineNumber>, K)>;

/// Anything that can label a line ("cohort"): a year, a commit index, ...
pub trait Keyable: Copy + Eq + std::hash::Hash + Sized {
    /// Executable equality of two keys.
    fn same_key(&self, other: &Self) -> (r: bool)
        ensures
            r == (*self == *other),
    ;

    /// Keys can index a `HashMap` whose model is a `Map`.
    proof fn lemma_key_model()
        ensures
            obeys_key_model::<Self>(),
    ;
}

impl Keyable for u32 {
    fn same_key(&self, other: &Self) -> (r: bool) {
        *self == *other
    }

    proof fn lemma_key_model() {
    }
}

impl Keyable for i32 {
    fn same_key(&self, other: &Self) -> (r: bool) {
        *self == *other
    }

    proof fn lemma_key_model() {
    }
}

impl Keyable for u64 {
    fn same_key(&self, other: &Self) -> (r: bool) {
        *self == *other
    }

    proof fn lemma_key_model() {
    }
}

impl Keyable for i64 {
    fn same_key(&self, other: &Self) -> (r: bool) {
        *self == *other
    }

    proof fn lemma_key_model() {
    }
}

impl Keyable for u16 {
    fn same_key(&self, other: &Self) -> (r: bool) {
        *self == *other
    }

    proof fn lemma_key_model() {
    }
}

/// A block of `line_count` lines starting at `start_line`, all in `cohort`.
#[derive(Debug, Clone, Copy, PartialEq)]
pub struct BlameRange<K: Keyable> {
    pub start_line: LineNumber,
    pub line_count: LineNumber,
    pub cohort: K,
}

impl<K: Keyable> BlameRange<K> {
    pub fn new(start_line: LineNumber, line_count: LineNumber, cohort: K) -> (r: Self)
        ensures
            r.start_line == start_line,
            r.line_count == line_count,
            r.cohort == cohort,
    {
        BlameRange { start_line, line_count, cohort }
    }
}

// ---------------------------------------------------------------------------
// Mathematical model: a file is the sequence of the cohorts of its lines.
// ---------------------------------------------------------------------------
/// `n` copies of `c`.
pub open spec fn repeat<K>(c: K, n: nat) -> Seq<K> {
    Seq::new(n, |_i: int| c)
}

/// Number of lines of `s` whose cohort is `k`.
pub open spec fn count_in<K>(s: Seq<K>, k: K) -> nat
    decreases s.len(),
{
    if s.len() == 0 {
        0
    } else {
        count_in(s.drop_last(), k) + if s.last() == k {
            1nat
        } else {
            0nat
        }
    }
}

/// Per-cohort line counts of `s`: exactly the cohorts that occur, each with
/// its number of lines.
pub open spec fn count_map<K>(s: Seq<K>) -> Map<K, u64> {
    Map::new(|k: K| count_in(s, k) > 0, |k: K| count_in(s, k) as u64)
}

/// Number of maximal runs of equal cohorts in `s`.
pub open spec fn run_count<K>(s: Seq<K>) -> nat
    decreases s.len(),
{
    if s.len() == 0 {
        0
    } else {
        run_count(s.drop_last()) + if s.len() == 1 || s[s.len() - 2] != s.last() {
            1nat
        } else {
            0nat
        }
    }
}

/// `r` lists the maximal runs of `s` in order: `(start, end, cohort)` with
/// `[start, end)` nonempty, consecutive, covering `s`, every line in it having
/// `cohort`, and two consecutive runs having different cohorts.
pub open spec fn is_run_list<K>(r: Seq<(LineNumber, LineNumber, K)>, s: Seq<K>) -> bool {
    &&& r.len() == 0 <==> s.len() == 0
    &&& r.len() > 0 ==> r[0].0 == 0 && r.last().1 == s.len()
    &&& forall|j: int| 0 <= j < r.len() ==> #[trigger] r[j].0 < r[j].1
    &&& forall|j: int| 0 < j < r.len() ==> #[trigger] r[j].0 == r[j - 1].1
    &&& forall|j: int| 0 < j < r.len() ==> #[trigger] r[j].2 != r[j - 1].2
    &&& forall|j: int, l: int|
        0 <= j < r.len() && r[j].0 <= l < r[j].1 ==> #[trigger] s[l] == #[trigger] r[j].2
}

/// The lines that the runs of `r` with cohort `k` cover, added up.
pub open spec fn run_total<K>(r: Seq<(LineNumber, LineNumber, K)>, k: K) -> int
    decreases r.len(),
{
    if r.len() == 0 {
        0
    } else {
        run_total(r.drop_last(), k) + if r.last().2 == k {
            r.last().1 - r.last().0
        } else {
            0
        }
    }
}

/// The lengths of the runs of `r`, added up.
pub open spec fn run_lengths<K>(r: Seq<(LineNumber, LineNumber, K)>) -> int
    decreases r.len(),
{
    if r.len() == 0 {
        0
    } else {
        run_lengths(r.drop_last()) + (r.last().1 - r.last().0)
    }
}

proof fn lemma_run_ends_bounded<K>(r: Seq<(LineNumber, LineNumber, K)>, s: Seq<K>, j: int)
    requires
        is_run_list(r, s),
        0 <= j < r.len(),
    ensures
        r[j].1 <= s.len(),
    decreases r.len() - j,
{
    if j + 1 < r.len() {
        lemma_run_ends_bounded(r, s, j + 1);
        assert(r[j + 1].0 == r[j].1);
        assert(r[j + 1].0 < r[j + 1].1);
    }
}

proof fn lemma_runs_agree<K>(r1: Seq<(LineNumber, LineNumber, K)>, r2: Seq<(LineNumber, LineNumber, K)>, s: Seq<K>, j: int)
    requires
        is_run_list(r1, s),
        is_run_list(r2, s),
        0 <= j < r1.len(),
        j < r2.len(),
    ensures
        forall|i: int| 0 <= i <= j ==> #[trigger] r1[i] == r2[i],
    decreases j,
{
    if j > 0 {
        lemma_runs_agree(r1, r2, s, j - 1);
        assert(r1[j - 1] == r2[j - 1]);
    }
    let st = r1[j].0;
    assert(st == r2[j].0) by {
        if j > 0 {
            assert(r1[j].0 == r1[j - 1].1);
            assert(r2[j].0 == r2[j - 1].1);
        }
    }
    assert(s[st as int] == r1[j].2);
    assert(s[st as int] == r2[j].2);
    lemma_run_ends_bounded(r1, s, j);
    lemma_run_ends_bounded(r2, s, j);
    let e1 = r1[j].1;
    let e2 = r2[j].1;
    if e1 < e2 {
        assert(s[e1 as int] == r2[j].2);
        if j + 1 < r1.len() {
            assert(r1[j + 1].0 == e1);
            assert(s[e1 as int] == r1[j + 1].2);
        } else {
            assert(e1 == s.len());
        }
    } else if e2 < e1 {
        assert(s[e2 as int] == r1[j].2);
        if j + 1 < r2.len() {
            assert(r2[j + 1].0 == e2);
            assert(s[e2 as int] == r2[j + 1].2);
        } else {
            assert(e2 == s.len());
        }
    }
    assert forall|i: int| 0 <= i <= j implies #[trigger] r1[i] == r2[i] by {
        if i == j {
            assert(r1[j].0 == r2[j].0 && r1[j].1 == r2[j].1 && r1[j].2 == r2[j].2);
        }
    }
}

/// A file has one list of maximal runs: two run lists of the same lines are
/// equal.
pub proof fn lemma_run_list_unique<K>(r1: Seq<(LineNumber, LineNumber, K)>, r2: Seq<(LineNumber, LineNumber, K)>, s: Seq<K>)
    requires
        is_run_list(r1, s),
        is_run_list(r2, s),
    ensures
        r1 == r2,
{
    if r1.len() > 0 && r2.len() > 0 {
        if r1.len() < r2.len() {
            let n = r1.len() - 1;
            lemma_runs_agree(r1, r2, s, n);
            assert(r2[n].1 == s.len());
            assert(r2[n + 1].0 == r2[n].1);
            lemma_run_ends_bounded(r2, s, n + 1);
            assert(false);
        } else if r2.len() < r1.len() {
            let n = r2.len() - 1;
            lemma_runs_agree(r1, r2, s, n);
            assert(r1[n].1 == s.len());
            assert(r1[n + 1].0 == r1[n].1);
            lemma_run_ends_bounded(r1, s, n + 1);
            assert(false);
        } else {
            lemma_runs_agree(r1, r2, s, r1.len() - 1);
            assert(r1 =~= r2);
        }
    } else {
        assert(r1 =~= r2);
    }
}

/// The runs of a file account for its lines: the lines of cohort `k` are as
/// many as its runs cover, and all runs together cover every line.
pub proof fn lemma_runs_count_lines<K>(r: Seq<(LineNumber, LineNumber, K)>, s: Seq<K>, k: K)
    requires
        is_run_list(r, s),
    ensures
        count_in(s, k) == run_total(r, k),
        run_lengths(r) == s.len(),
    decreases r.len(),
{
    if r.len() > 0 {
        let last = r.last();
        let n = r.len() - 1;
        lemma_run_ends_bounded(r, s, n);
        let t = s.subrange(0, last.0 as int);
        let tail = s.subrange(last.0 as int, s.len() as int);
        let rest = r.drop_last();
        assert(is_run_list(rest, t)) by {
            assert(t.len() == last.0);
            if rest.len() > 0 {
                assert(rest.last() == r[n - 1]);
                assert(r[n].0 == r[n - 1].1);
                assert(r[n - 1].0 < r[n - 1].1);
                assert(rest[0] == r[0]);
            } else {
                assert(n == 0);
                assert(last.0 == 0);
            }
            assert forall|j: int| 0 <= j < rest.len() implies #[trigger] rest[j].0 < rest[j].1 by {
                assert(rest[j] == r[j]);
            }
            assert forall|j: int| 0 < j < rest.len() implies #[trigger] rest[j].0 == rest[j - 1].1 by {
                assert(rest[j] == r[j]);
                assert(rest[j - 1] == r[j - 1]);
            }
            assert forall|j: int| 0 < j < rest.len() implies #[trigger] rest[j].2 != rest[j - 1].2 by {
                assert(rest[j] == r[j]);
                assert(rest[j - 1] == r[j - 1]);
            }
            assert forall|j: int, l: int|
                0 <= j < rest.len() && rest[j].0 <= l < rest[j].1 implies #[trigger] t[l] == #[trigger] rest[j].2 by {
                assert(rest[j] == r[j]);
                lemma_run_ends_monotone(r, s, j, n);
                assert(t[l] == s[l]);
                assert(s[l] == r[j].2);
            }
        }
        lemma_runs_count_lines(rest, t, k);
        assert(tail =~= repeat(last.2, (s.len() - last.0) as nat)) by {
            assert forall|l: int| 0 <= l < tail.len() implies tail[l] == last.2 by {
                assert(s[last.0 + l] == r[n].2);
            }
        }
        assert(s =~= t + tail);
        lemma_count_in_add(t, tail, k);
        lemma_count_in_repeat(last.2, (s.len() - last.0) as nat, k);
    } else {
        assert(s.len() == 0);
    }
}

proof fn lemma_run_ends_monotone<K>(r: Seq<(LineNumber, LineNumber, K)>, s: Seq<K>, j: int, n: int)
    requires
        is_run_list(r, s),
        0 <= j < n < r.len(),
    ensures
        r[j].1 <= r[n].0,
    decreases n - j,
{
    if j + 1 < n {
        lemma_run_ends_monotone(r, s, j + 1, n);
        assert(r[j + 1].0 == r[j].1);
    } else {
        assert(r[n].0 == r[n - 1].1);
    }
}

// ---------------------------------------------------------------------------
// Representation: sorted change points (line where a run starts, its cohort).
// ---------------------------------------------------------------------------
/// Start of the `j`-th run, or `total` past the last one.
pub open spec fn start_at<K>(cps: Seq<(LineNumber, K)>, j: int, total: nat) -> nat {
    if 0 <= j < cps.len() {
        cps[j].0 as nat
    } else {
        total
    }
}

/// Lines covered by the first `j` change points.
pub open spec fn lines_upto<K>(cps: Seq<(LineNumber, K)>, j: nat, total: nat) -> Seq<K>
    decreases j,
{
    if j == 0 {
        Seq::empty()
    } else {
        lines_upto(cps, (j - 1) as nat, total) + repeat(
            cps[j - 1].1,
            (start_at(cps, j as int, total) - start_at(cps, j - 1, total)) as nat,
        )
    }
}

/// The lines described by change points `cps` in a file of `total` lines.
pub open spec fn expand<K>(cps: Seq<(LineNumber, K)>, total: nat) -> Seq<K> {
    lines_upto(cps, cps.len(), total)
}

/// The change points describe a file of `total` lines: the first one is at
/// line 0, they strictly increase, and they all lie before `total`.
pub open spec fn cps_wf<K>(cps: Seq<(LineNumber, K)>, total: nat) -> bool {
    &&& (cps.len() == 0 <==> total == 0)
    &&& cps.len() > 0 ==> cps[0].0 == 0
    &&& forall|i: int, j: int| 0 <= i < j < cps.len() ==> #[trigger] cps[i].0 < #[trigger] cps[j].0
    &&& forall|i: int| 0 <= i < cps.len() ==> #[trigger] cps[i].0 < total
}

/// Well formed, and no two consecutive change points carry the same cohort.
pub open spec fn cps_canonical<K>(cps: Seq<(LineNumber, K)>, total: nat) -> bool {
    &&& cps_wf(cps, total)
    &&& forall|i: int| 0 < i < cps.len() ==> #[trigger] cps[i].1 != cps[i - 1].1
}

proof fn lemma_repeat_add<K>(c: K, a: nat, b: nat)
    ensures
        repeat(c, a) + repeat(c, b) == repeat(c, a + b),
{
    assert(repeat(c, a) + repeat(c, b) =~= repeat(c, a + b));
}

proof fn lemma_lines_upto_len<K>(cps: Seq<(LineNumber, K)>, j: nat, total: nat)
    requires
        cps_wf(cps, total),
        j <= cps.len(),
    ensures
        lines_upto(cps, j, total).len() == start_at(cps, j as int, total),
    decreases j,
{
    if j > 0 {
        lemma_lines_upto_len(cps, (j - 1) as nat, total);
        if (j as int) < cps.len() {
            assert(cps[j - 1].0 < cps[j as int].0);
        }
    }
}

proof fn lemma_lines_upto_index<K>(cps: Seq<(LineNumber, K)>, j: nat, total: nat, i: int, l: int)
    requires
        cps_wf(cps, total),
        j <= cps.len(),
        0 <= i < j,
        start_at(cps, i, total) <= l < start_at(cps, i + 1, total),
    ensures
        lines_upto(cps, j, total)[l] == cps[i].1,
    decreases j,
{
    lemma_lines_upto_len(cps, (j - 1) as nat, total);
    if i < j - 1 {
        lemma_lines_upto_index(cps, (j - 1) as nat, total, i, l);
        if j - 1 < cps.len() {
            assert(cps[i + 1].0 <= cps[j - 1].0) by {
                if i + 1 < j - 1 {
                    assert(cps[i + 1].0 < cps[j - 1].0);
                }
            }
        }
    }
}

/// Every line of the expansion lies in the run of some change point.
proof fn lemma_expand_index<K>(cps: Seq<(LineNumber, K)>, total: nat, i: int, l: int)
    requires
        cps_wf(cps, total),
        0 <= i < cps.len(),
        start_at(cps, i, total) <= l < start_at(cps, i + 1, total),
    ensures
        expand(cps, total)[l] == cps[i].1,
        expand(cps, total).len() == total,
{
    lemma_lines_upto_index(cps, cps.len(), total, i, l);
    lemma_lines_upto_len(cps, cps.len(), total);
}

proof fn lemma_expand_len<K>(cps: Seq<(LineNumber, K)>, total: nat)
    requires
        cps_wf(cps, total),
    ensures
        expand(cps, total).len() == total,
{
    lemma_lines_upto_len(cps, cps.len(), total);
}

/// Two change-point lists with the same starts and cohorts below `j` cover
/// the same lines.
proof fn lemma_lines_upto_same<K>(
    c1: Seq<(LineNumber, K)>,
    t1: nat,
    c2: Seq<(LineNumber, K)>,
    t2: nat,
    j: nat,
)
    requires
        forall|i: int| 0 <= i <= j ==> start_at(c1, i, t1) == start_at(c2, i, t2),
        forall|i: int| 0 <= i < j ==> c1[i].1 == c2[i].1,
    ensures
        lines_upto(c1, j, t1) == lines_upto(c2, j, t2),
    decreases j,
{
    if j > 0 {
        lemma_lines_upto_same(c1, t1, c2, t2, (j - 1) as nat);
        assert(start_at(c1, j - 1, t1) == start_at(c2, j - 1, t2));
        assert(start_at(c1, j as int, t1) == start_at(c2, j as int, t2));
    }
}

/// Counting in two sequences joined adds the counts.
pub proof fn lemma_count_in_add<K>(a: Seq<K>, b: Seq<K>, k: K)
    ensures
        count_in(a + b, k) == count_in(a, k) + count_in(b, k),
    decreases b.len(),
{
    if b.len() == 0 {
        assert(a + b =~= a);
    } else {
        lemma_count_in_add(a, b.drop_last(), k);
        assert((a + b).drop_last() =~= a + b.drop_last());
    }
}

/// A run of `n` copies of `c` counts `n` for `c` and nothing else.
pub proof fn lemma_count_in_repeat<K>(c: K, n: nat, k: K)
    ensures
        count_in(repeat(c, n), k) == if c == k {
            n
        } else {
            0
        },
    decreases n,
{
    if n > 0 {
        lemma_count_in_repeat(c, (n - 1) as nat, k);
        assert(repeat(c, n).drop_last() =~= repeat(c, (n - 1) as nat));
    }
}

/// No item is counted more often than the sequence is long.
pub proof fn lemma_count_in_le<K>(s: Seq<K>, k: K)
    ensures
        count_in(s, k) <= s.len(),
    decreases s.len(),
{
    if s.len() > 0 {
        lemma_count_in_le(s.drop_last(), k);
    }
}

/// The counts of `m` for the keys `ks`, added up.
pub open spec fn sum_of_counts<K>(m: Map<K, u64>, ks: Seq<K>) -> int
    decreases ks.len(),
{
    if ks.len() == 0 {
        0
    } else {
        sum_of_counts(m, ks.drop_last()) + m[ks.last()]
    }
}

/// The lines of `s` in any of the cohorts `ks`, cohort by cohort.
spec fn count_over<K>(s: Seq<K>, ks: Seq<K>) -> int
    decreases ks.len(),
{
    if ks.len() == 0 {
        0
    } else {
        count_over(s, ks.drop_last()) + count_in(s, ks.last())
    }
}

proof fn lemma_count_over_push<K>(s: Seq<K>, x: K, ks: Seq<K>)
    ensures
        count_over(s.push(x), ks) == count_over(s, ks) + count_in(ks, x),
    decreases ks.len(),
{
    if ks.len() > 0 {
        lemma_count_over_push(s, x, ks.drop_last());
        assert(s.push(x).drop_last() =~= s);
    }
}

proof fn lemma_count_once<K>(ks: Seq<K>, x: K)
    requires
        ks.no_duplicates(),
        ks.contains(x),
    ensures
        count_in(ks, x) == 1,
    decreases ks.len(),
{
    let j = choose|j: int| 0 <= j < ks.len() && ks[j] == x;
    let front = ks.drop_last();
    if ks.last() == x {
        assert forall|i: int| 0 <= i < front.len() implies front[i] != x by {
            assert(ks[i] != ks[ks.len() - 1]);
        }
        lemma_count_absent(front, x);
    } else {
        assert(front[j] == x);
        lemma_count_once(front, x);
    }
}

proof fn lemma_count_absent<K>(s: Seq<K>, x: K)
    requires
        forall|i: int| 0 <= i < s.len() ==> s[i] != x,
    ensures
        count_in(s, x) == 0,
    decreases s.len(),
{
    if s.len() > 0 {
        lemma_count_absent(s.drop_last(), x);
    }
}

proof fn lemma_count_over_all<K>(s: Seq<K>, ks: Seq<K>)
    requires
        ks.no_duplicates(),
        forall|i: int| 0 <= i < s.len() ==> ks.contains(#[trigger] s[i]),
    ensures
        count_over(s, ks) == s.len(),
    decreases s.len(),
{
    if s.len() == 0 {
        assert(s =~= Seq::<K>::empty());
        lemma_count_over_empty(ks);
    } else {
        let front = s.drop_last();
        assert forall|i: int| 0 <= i < front.len() implies ks.contains(#[trigger] front[i]) by {
            assert(front[i] == s[i]);
        }
        lemma_count_over_all(front, ks);
        assert(front.push(s.last()) =~= s);
        lemma_count_over_push(front, s.last(), ks);
        assert(ks.contains(s[s.len() - 1]));
        lemma_count_once(ks, s.last());
    }
}

proof fn lemma_count_over_empty<K>(ks: Seq<K>)
    ensures
        count_over(Seq::<K>::empty(), ks) == 0,
    decreases ks.len(),
{
    if ks.len() > 0 {
        lemma_count_over_empty(ks.drop_last());
    }
}

proof fn lemma_count_in_member<K>(s: Seq<K>, i: int)
    requires
        0 <= i < s.len(),
    ensures
        count_in(s, s[i]) >= 1,
    decreases s.len(),
{
    if i < s.len() - 1 {
        lemma_count_in_member(s.drop_last(), i);
    }
}

proof fn lemma_sum_is_count_over<K>(s: Seq<K>, ks: Seq<K>)
    requires
        s.len() <= u64::MAX,
        forall|i: int| 0 <= i < ks.len() ==> count_map(s).dom().contains(#[trigger] ks[i]),
    ensures
        sum_of_counts(count_map(s), ks) == count_over(s, ks),
    decreases ks.len(),
{
    if ks.len() > 0 {
        let front = ks.drop_last();
        assert forall|i: int| 0 <= i < front.len() implies count_map(s).dom().contains(
            #[trigger] front[i],
        ) by {
            assert(front[i] == ks[i]);
        }
        lemma_sum_is_count_over(s, front);
        lemma_count_in_le(s, ks.last());
        assert(count_map(s).dom().contains(ks[ks.len() - 1]));
    }
}

/// The per-cohort line counts add up to the number of lines: summed over a
/// list that names each cohort of `count_map(s)` once, they give `s.len()`.
pub proof fn lemma_counts_sum_to_len<K>(s: Seq<K>, ks: Seq<K>)
    requires
        s.len() <= u64::MAX,
        ks.no_duplicates(),
        forall|k: K| count_map(s).dom().contains(k) <==> ks.contains(k),
    ensures
        sum_of_counts(count_map(s), ks) == s.len(),
{
    assert forall|i: int| 0 <= i < s.len() implies ks.contains(#[trigger] s[i]) by {
        lemma_count_in_member(s, i);
        assert(count_map(s).dom().contains(s[i]));
    }
    assert forall|i: int| 0 <= i < ks.len() implies count_map(s).dom().contains(#[trigger] ks[i]) by {
        assert(ks.contains(ks[i]));
    }
    lemma_count_over_all(s, ks);
    lemma_sum_is_count_over(s, ks);
}

proof fn lemma_run_count_append<K>(a: Seq<K>, c: K, m: nat)
    requires
        m >= 1,
    ensures
        run_count(a + repeat(c, m)) == run_count(a) + if a.len() == 0 || a.last() != c {
            1nat
        } else {
            0nat
        },
    decreases m,
{
    let s = a + repeat(c, m);
    if m == 1 {
        assert(s.drop_last() =~= a);
    } else {
        lemma_run_count_append(a, c, (m - 1) as nat);
        assert(s.drop_last() =~= a + repeat(c, (m - 1) as nat));
    }
}

proof fn lemma_run_count_lines_upto<K>(cps: Seq<(LineNumber, K)>, j: nat, total: nat)
    requires
        cps_canonical(cps, total),
        j <= cps.len(),
    ensures
        run_count(lines_upto(cps, j, total)) == j,
        j > 0 ==> lines_upto(cps, j, total).len() > 0 && lines_upto(cps, j, total).last() == cps[j - 1].1,
    decreases j,
{
    if j > 0 {
        lemma_run_count_lines_upto(cps, (j - 1) as nat, total);
        lemma_lines_upto_len(cps, j, total);
        lemma_lines_upto_len(cps, (j - 1) as nat, total);
        let m = (start_at(cps, j as int, total) - start_at(cps, j - 1, total)) as nat;
        if (j as int) < cps.len() {
            assert(cps[j - 1].0 < cps[j as int].0);
        }
        lemma_run_count_append(lines_upto(cps, (j - 1) as nat, total), cps[j - 1].1, m);
        if j > 1 {
            assert(cps[j - 1].1 != cps[j - 2].1);
        }
    }
}

/// Appending a run of `m` lines of `c` adds `m` to the count of `c`.
pub proof fn lemma_count_map_step<K>(a: Seq<K>, c: K, m: nat)
    ensures
        count_map(a + repeat(c, m)) == if m == 0 {
            count_map(a)
        } else {
            count_map(a).insert(c, (count_in(a, c) + m) as u64)
        },
{
    assert forall|k: K| #[trigger] count_in(a + repeat(c, m), k) == count_in(a, k) + if c == k {
        m
    } else {
        0
    } by {
        lemma_count_in_add(a, repeat(c, m), k);
        lemma_count_in_repeat(c, m, k);
    }
    if m == 0 {
        assert(count_map(a + repeat(c, m)) =~= count_map(a));
    } else {
        assert(count_map(a + repeat(c, m)) =~= count_map(a).insert(c, (count_in(a, c) + m) as u64));
    }
}

// ---------------------------------------------------------------------------
// Line diffs
// ---------------------------------------------------------------------------
/// Number of lines inserted by a hunk (an inverted range inserts nothing).
pub open spec fn ins_len(r: Range<LineNumber>) -> nat {
    if r.start <= r.end {
        (r.end - r.start) as nat
    } else {
        0
    }
}

/// The result of applying hunks `ds[i..]` (ordered top to bottom) to `lines`,
/// copying the old lines from position `pos` on.
pub open spec fn splice_from<K>(
    lines: Seq<K>,
    ds: Seq<(Range<LineNumber>, Range<LineNumber>, K)>,
    i: int,
    pos: int,
) -> Seq<K>
    decreases ds.len() - i,
{
    if i < 0 || i >= ds.len() {
        lines.subrange(pos, lines.len() as int)
    } else {
        lines.subrange(pos, ds[i].0.start as int) + repeat(ds[i].2, ins_len(ds[i].1))
            + splice_from(lines, ds, i + 1, ds[i].0.end as int)
    }
}

/// The file after applying hunks `ds`, ordered top to bottom: each hunk
/// replaces the old lines `[start, end)` of its delete range by as many lines
/// of its cohort as its insert range holds.
pub open spec fn apply_sorted<K>(lines: Seq<K>, ds: Seq<(Range<LineNumber>, Range<LineNumber>, K)>) -> Seq<K> {
    splice_from(lines, ds, 0, 0)
}

/// The hunks fit a file of `total` lines: delete ranges are well formed,
/// within the file, and each one ends before the next one starts.
pub open spec fn hunks_fit<K>(ds: Seq<(Range<LineNumber>, Range<LineNumber>, K)>, total: nat) -> bool {
    &&& forall|i: int| 0 <= i < ds.len() ==> #[trigger] ds[i].0.start <= ds[i].0.end
    &&& forall|i: int| 0 <= i < ds.len() ==> #[trigger] ds[i].0.end <= total
    &&& forall|i: int| 0 < i < ds.len() ==> #[trigger] ds[i - 1].0.end <= ds[i].0.start
}

/// Stable insertion of `d` after every element whose delete range starts at
/// or before its own.
pub open spec fn insert_by_start<K>(
    s: Seq<(Range<LineNumber>, Range<LineNumber>, K)>,
    d: (Range<LineNumber>, Range<LineNumber>, K),
) -> Seq<(Range<LineNumber>, Range<LineNumber>, K)>
    decreases s.len(),
{
    if s.len() == 0 {
        seq![d]
    } else if s.last().0.start <= d.0.start {
        s.push(d)
    } else {
        insert_by_start(s.drop_last(), d).push(s.last())
    }
}

/// The hunks stably sorted by the start of their delete range.
pub open spec fn sort_by_start<K>(s: Seq<(Range<LineNumber>, Range<LineNumber>, K)>) -> Seq<
    (Range<LineNumber>, Range<LineNumber>, K),
>
    decreases s.len(),
{
    if s.len() == 0 {
        s
    } else {
        insert_by_start(sort_by_start(s.drop_last()), s.last())
    }
}

proof fn lemma_insert_by_start<K>(
    s: Seq<(Range<LineNumber>, Range<LineNumber>, K)>,
    d: (Range<LineNumber>, Range<LineNumber>, K),
    k: int,
)
    requires
        0 <= k <= s.len(),
        forall|j: int| k <= j < s.len() ==> #[trigger] s[j].0.start > d.0.start,
        k > 0 ==> s[k - 1].0.start <= d.0.start,
    ensures
        insert_by_start(s, d) == s.insert(k, d),
    decreases s.len(),
{
    if s.len() == 0 {
        assert(s.insert(k, d) =~= seq![d]);
    } else if s.last().0.start <= d.0.start {
        assert(s.insert(k, d) =~= s.push(d));
    } else {
        lemma_insert_by_start(s.drop_last(), d, k);
        assert(s.drop_last().insert(k, d).push(s.last()) =~= s.insert(k, d));
    }
}


// ---------------------------------------------------------------------------
// Laws of line diffs
// ---------------------------------------------------------------------------
/// Hunks applied one at a time from the bottom of the file up, each at its
/// own (old) line numbers.
pub open spec fn apply_bottom_up<K>(lines: Seq<K>, ds: Seq<(Range<LineNumber>, Range<LineNumber>, K)>) -> Seq<K>
    decreases ds.len(),
{
    if ds.len() == 0 {
        lines
    } else {
        let d = ds[0];
        let below = apply_bottom_up(lines, ds.drop_first());
        below.subrange(0, d.0.start as int) + repeat(d.2, ins_len(d.1)) + below.subrange(
            d.0.end as int,
            below.len() as int,
        )
    }
}

/// Net change in the number of lines made by hunks `ds[i..]`.
pub open spec fn delta_from<K>(ds: Seq<(Range<LineNumber>, Range<LineNumber>, K)>, i: int) -> int
    decreases ds.len() - i,
{
    if i < 0 || i >= ds.len() {
        0
    } else {
        ins_len(ds[i].1) - (ds[i].0.end - ds[i].0.start) + delta_from(ds, i + 1)
    }
}

/// Hunks whose delete ranges start in non-decreasing order.
pub open spec fn sorted_by_start<K>(ds: Seq<(Range<LineNumber>, Range<LineNumber>, K)>) -> bool {
    forall|i: int| 0 < i < ds.len() ==> #[trigger] ds[i - 1].0.start <= ds[i].0.start
}

proof fn lemma_splice_bottom_up<K>(
    lines: Seq<K>,
    ds: Seq<(Range<LineNumber>, Range<LineNumber>, K)>,
    i: int,
    pos: int,
)
    requires
        hunks_fit(ds, lines.len()),
        0 <= i <= ds.len(),
        0 <= pos,
        i < ds.len() ==> pos <= ds[i].0.start,
        i == ds.len() ==> pos <= lines.len(),
    ensures
        apply_bottom_up(lines, ds.skip(i)) == lines.subrange(0, pos) + splice_from(lines, ds, i, pos),
        apply_bottom_up(lines, ds.skip(i)).len() >= pos,
    decreases ds.len() - i,
{
    if i == ds.len() {
        assert(ds.skip(i) =~= Seq::<(Range<LineNumber>, Range<LineNumber>, K)>::empty());
        assert(lines.subrange(0, pos) + lines.subrange(pos, lines.len() as int) =~= lines);
    } else {
        let d = ds[i];
        let s = d.0.start as int;
        let e = d.0.end as int;
        assert(ds[i].0.start <= ds[i].0.end);
        assert(ds[i].0.end <= lines.len());
        if i + 1 < ds.len() {
            assert(ds[i + 1 - 1].0.end <= ds[i + 1].0.start);
        }
        lemma_splice_bottom_up(lines, ds, i + 1, e);
        let below = apply_bottom_up(lines, ds.skip(i + 1));
        assert(ds.skip(i).drop_first() =~= ds.skip(i + 1));
        assert(ds.skip(i)[0] == d);
        let rest = splice_from(lines, ds, i + 1, e);
        assert(below == lines.subrange(0, e) + rest);
        assert(below.subrange(0, s) =~= lines.subrange(0, s));
        assert(below.subrange(e, below.len() as int) =~= rest);
        assert(lines.subrange(0, s) =~= lines.subrange(0, pos) + lines.subrange(pos, s));
        assert(apply_bottom_up(lines, ds.skip(i)) =~= lines.subrange(0, pos) + (lines.subrange(
            pos,
            s,
        ) + repeat(d.2, ins_len(d.1)) + rest));
    }
}

/// Applying hunks top to bottom with a running offset gives the same file as
/// applying them one by one from the bottom of the file up.
pub proof fn lemma_apply_matches_bottom_up<K>(
    lines: Seq<K>,
    ds: Seq<(Range<LineNumber>, Range<LineNumber>, K)>,
)
    requires
        hunks_fit(ds, lines.len()),
    ensures
        apply_sorted(lines, ds) == apply_bottom_up(lines, ds),
{
    lemma_splice_bottom_up(lines, ds, 0, 0);
    assert(ds.skip(0) =~= ds);
    assert(lines.subrange(0, 0) + apply_sorted(lines, ds) =~= apply_sorted(lines, ds));
}

proof fn lemma_splice_len<K>(lines: Seq<K>, ds: Seq<(Range<LineNumber>, Range<LineNumber>, K)>, i: int, pos: int)
    requires
        hunks_fit(ds, lines.len()),
        0 <= i <= ds.len(),
        0 <= pos,
        i < ds.len() ==> pos <= ds[i].0.start,
        i == ds.len() ==> pos <= lines.len(),
    ensures
        splice_from(lines, ds, i, pos).len() == lines.len() - pos + delta_from(ds, i),
    decreases ds.len() - i,
{
    if i < ds.len() {
        assert(ds[i].0.start <= ds[i].0.end);
        assert(ds[i].0.end <= lines.len());
        if i + 1 < ds.len() {
            assert(ds[i + 1 - 1].0.end <= ds[i + 1].0.start);
        }
        lemma_splice_len(lines, ds, i + 1, ds[i].0.end as int);
    }
}

/// The new file has as many lines as the old one, plus the inserted lines,
/// minus the deleted ones.
pub proof fn lemma_apply_len<K>(lines: Seq<K>, ds: Seq<(Range<LineNumber>, Range<LineNumber>, K)>)
    requires
        hunks_fit(ds, lines.len()),
    ensures
        apply_sorted(lines, ds).len() == lines.len() + delta_from(ds, 0),
{
    lemma_splice_len(lines, ds, 0, 0);
}

proof fn lemma_delta_zero<K>(ds: Seq<(Range<LineNumber>, Range<LineNumber>, K)>, i: int)
    requires
        forall|j: int| 0 <= j < ds.len() ==> ins_len(#[trigger] ds[j].1) == ds[j].0.end - ds[j].0.start,
    ensures
        delta_from(ds, i) == 0,
    decreases ds.len() - i,
{
    if 0 <= i < ds.len() {
        lemma_delta_zero(ds, i + 1);
    }
}

proof fn lemma_insert_by_start_contents<K>(
    s: Seq<(Range<LineNumber>, Range<LineNumber>, K)>,
    d: (Range<LineNumber>, Range<LineNumber>, K),
)
    ensures
        insert_by_start(s, d).len() == s.len() + 1,
        forall|j: int|
            0 <= j < insert_by_start(s, d).len() ==> #[trigger] insert_by_start(s, d)[j] == d
                || s.contains(insert_by_start(s, d)[j]),
    decreases s.len(),
{
    if s.len() > 0 && s.last().0.start > d.0.start {
        lemma_insert_by_start_contents(s.drop_last(), d);
        let r = insert_by_start(s, d);
        assert forall|j: int| 0 <= j < r.len() implies #[trigger] r[j] == d || s.contains(r[j]) by {
            if j == r.len() - 1 {
                assert(s[s.len() - 1] == s.last());
            } else {
                if r[j] != d {
                    let k = choose|k: int| 0 <= k < s.drop_last().len() && s.drop_last()[k] == r[j];
                    assert(s[k] == r[j]);
                }
            }
        }
    } else if s.len() > 0 {
        let r = insert_by_start(s, d);
        assert forall|j: int| 0 <= j < r.len() implies #[trigger] r[j] == d || s.contains(r[j]) by {
            if j < s.len() {
                assert(s[j] == r[j]);
            }
        }
    }
}

proof fn lemma_sort_contents<K>(s: Seq<(Range<LineNumber>, Range<LineNumber>, K)>)
    ensures
        sort_by_start(s).len() == s.len(),
        forall|j: int| 0 <= j < sort_by_start(s).len() ==> s.contains(#[trigger] sort_by_start(s)[j]),
    decreases s.len(),
{
    if s.len() > 0 {
        let t = sort_by_start(s.drop_last());
        lemma_sort_contents(s.drop_last());
        lemma_insert_by_start_contents(t, s.last());
        let r = sort_by_start(s);
        assert forall|j: int| 0 <= j < r.len() implies s.contains(#[trigger] r[j]) by {
            if r[j] == s.last() {
                assert(s[s.len() - 1] == s.last());
            } else {
                let k = choose|k: int| 0 <= k < t.len() && t[k] == r[j];
                let m = choose|m: int| 0 <= m < s.drop_last().len() && s.drop_last()[m] == t[k];
                assert(s[m] == r[j]);
            }
        }
    }
}

/// Hunks that replace lines by as many lines leave the length of the file
/// unchanged.
pub proof fn lemma_replacements_keep_len<K>(
    lines: Seq<K>,
    ds: Seq<(Range<LineNumber>, Range<LineNumber>, K)>,
)
    requires
        hunks_fit(sort_by_start(ds), lines.len()),
        forall|j: int| 0 <= j < ds.len() ==> ins_len(#[trigger] ds[j].1) == ds[j].0.end - ds[j].0.start,
    ensures
        apply_sorted(lines, sort_by_start(ds)).len() == lines.len(),
{
    let t = sort_by_start(ds);
    lemma_sort_contents(ds);
    assert forall|j: int| 0 <= j < t.len() implies ins_len(#[trigger] t[j].1) == t[j].0.end
        - t[j].0.start by {
        let k = choose|k: int| 0 <= k < ds.len() && ds[k] == t[j];
        assert(ins_len(ds[k].1) == ds[k].0.end - ds[k].0.start);
    }
    lemma_delta_zero(t, 0);
    lemma_apply_len(lines, t);
}

/// Hunks that are already ordered by the start of their delete range are
/// applied in the order given.
pub proof fn lemma_sorted_hunks_unchanged<K>(ds: Seq<(Range<LineNumber>, Range<LineNumber>, K)>)
    requires
        sorted_by_start(ds),
    ensures
        sort_by_start(ds) == ds,
    decreases ds.len(),
{
    if ds.len() > 0 {
        let init = ds.drop_last();
        assert(sorted_by_start(init)) by {
            assert forall|i: int| 0 < i < init.len() implies #[trigger] init[i - 1].0.start
                <= init[i].0.start by {
                assert(ds[i - 1].0.start <= ds[i].0.start);
            }
        }
        lemma_sorted_hunks_unchanged(init);
        if init.len() > 0 {
            assert(ds[ds.len() - 2].0.start <= ds[ds.len() - 1].0.start);
        }
        assert(init.push(ds.last()) =~= ds);
    }
}

/// Without hunks the file is unchanged.
pub proof fn lemma_apply_no_hunks<K>(lines: Seq<K>)
    ensures
        apply_sorted(lines, Seq::<(Range<LineNumber>, Range<LineNumber>, K)>::empty()) == lines,
{
    assert(lines.subrange(0, lines.len() as int) =~= lines);
}

/// Appends `count` lines of `cohort` at the end (line `new_pos`) of the file
/// under construction, starting a new run only when the cohort changes.
fn push_cp<K: Keyable>(out: &mut Vec<(LineNumber, K)>, new_pos: LineNumber, cohort: K, count: LineNumber)
    requires
        cps_canonical(old(out)@, new_pos as nat),
        count > 0,
        new_pos + count <= u32::MAX,
    ensures
        cps_canonical(final(out)@, (new_pos + count) as nat),
        expand(final(out)@, (new_pos + count) as nat) == expand(old(out)@, new_pos as nat) + repeat(
            cohort,
            count as nat,
        ),
{
    let n = out.len();
    let ghost old_out = out@;
    let ghost t0 = new_pos as nat;
    let ghost t1 = (new_pos + count) as nat;
    if n > 0 && out[n - 1].1.same_key(&cohort) {
        proof {
            let last = old_out[n - 1];
            lemma_lines_upto_same(old_out, t0, old_out, t1, (n - 1) as nat);
            lemma_repeat_add(last.1, (t0 - last.0) as nat, count as nat);
        }
        return;
    }
    out.push((new_pos, cohort));
    proof {
        let new_out = out@;
        assert forall|i: int| 0 <= i <= n implies start_at(new_out, i, t1) == start_at(
            old_out,
            i,
            t0,
        ) by {}
        assert forall|i: int| 0 <= i < n implies new_out[i].1 == old_out[i].1 by {}
        lemma_lines_upto_same(new_out, t1, old_out, t0, n as nat);
        assert forall|i: int, j: int| 0 <= i < j < new_out.len() implies #[trigger] new_out[i].0
            < #[trigger] new_out[j].0 by {
            if j == n {
                assert(old_out[i].0 < t0);
            }
        }
    }
}

/// Sorts hunks by the start of their delete range, keeping the order of hunks
/// that start at the same line.
fn sort_diffs<K: Keyable>(diffs: &LineDiffs<K>) -> (r: LineDiffs<K>)
    ensures
        r@ == sort_by_start(diffs@),
{
    let n = diffs.len();
    let mut sorted: LineDiffs<K> = Vec::new();
    let mut i: usize = 0;
    proof {
        assert(diffs@.take(0) =~= Seq::<(Range<LineNumber>, Range<LineNumber>, K)>::empty());
    }
    while i < n
        invariant
            n == diffs@.len(),
            i <= n,
            sorted@ == sort_by_start(diffs@.take(i as int)),
        decreases n - i,
    {
        let d = (
            diffs[i].0.start..diffs[i].0.end,
            diffs[i].1.start..diffs[i].1.end,
            diffs[i].2,
        );
        proof {
            assert(d == diffs@[i as int]);
        }
        let mut k = sorted.len();
        while k > 0 && sorted[k - 1].0.start > d.0.start
            invariant
                k <= sorted@.len(),
                forall|j: int| k <= j < sorted@.len() ==> #[trigger] sorted@[j].0.start > d.0.start,
            decreases k,
        {
            k -= 1;
        }
        proof {
            lemma_insert_by_start(sorted@, d, k as int);
            assert(diffs@.take(i + 1).drop_last() =~= diffs@.take(i as int));
        }
        sorted.insert(k, d);
        i += 1;
    }
    proof {
        assert(diffs@.take(n as int) =~= diffs@);
    }
    sorted
}

// ---------------------------------------------------------------------------
// FileBlame
// ---------------------------------------------------------------------------
/// FileBlame stores the data for a "git blame" of a file: intervals of line
/// numbers pointing to the cohort (e.g. year of the commit) that introduced
/// those lines. The intervals are kept as "change points" mapping the start
/// of each interval to its cohort; the end of an interval is the next change
/// point, or `total_lines` for the last one.
#[derive(Debug)]
pub struct FileBlame<K: Keyable> {
    change_points: Vec<(LineNumber, K)>,
    total_lines: LineNumber,
    cohort_stats: HashMap<K, u64>,
}

impl<K: Keyable> View for FileBlame<K> {
    type V = Seq<K>;

    /// The cohort of each line of the file, in order.
    closed spec fn view(&self) -> Seq<K> {
        expand(self.change_points@, self.total_lines as nat)
    }
}

impl<K: Keyable> Clone for FileBlame<K> {
    /// A copy describing the same lines.
    fn clone(&self) -> (r: Self)
        ensures
            r@ == self@,
    {
        proof {
            use_type_invariant(self);
        }
        let mut change_points: Vec<(LineNumber, K)> = Vec::new();
        let mut i: usize = 0;
        while i < self.change_points.len()
            invariant
                i <= self.change_points.len(),
                change_points@ == self.change_points@.take(i as int),
            decreases self.change_points.len() - i,
        {
            change_points.push(self.change_points[i]);
            i += 1;
            proof {
                assert(change_points@ =~= self.change_points@.take(i as int));
            }
        }
        proof {
            assert(change_points@ =~= self.change_points@);
        }
        FileBlame {
            change_points,
            total_lines: self.total_lines,
            cohort_stats: self.cohort_stats.clone(),
        }
    }
}

impl<K: Keyable> FileBlame<K> {
    #[verifier::type_invariant]
    closed spec fn inv(self) -> bool {
        &&& cps_canonical(self.change_points@, self.total_lines as nat)
        &&& self.cohort_stats@ == count_map(self@)
    }

    /// A file of `total_lines` lines, all in `cohort`.
    pub fn new(total_lines: LineNumber, cohort: K) -> (r: Self)
        ensures
            r@ == repeat(cohort, total_lines as nat),
    {
        let mut change_points: Vec<(LineNumber, K)> = Vec::new();
        let mut cohort_stats: HashMap<K, u64> = HashMap::new();
        proof {
            K::lemma_key_model();
        }
        if total_lines > 0 {
            change_points.push((0, cohort));
            cohort_stats.insert(cohort, total_lines as u64);
        }
        proof {
            let cps = change_points@;
            let t = total_lines as nat;
            if t > 0 {
                assert(lines_upto(cps, 0, t) =~= Seq::<K>::empty());
                assert(expand(cps, t) =~= repeat(cohort, t));
                assert forall|k: K| #[trigger] count_in(repeat(cohort, t), k) == if cohort == k {
                    t
                } else {
                    0
                } by {
                    lemma_count_in_repeat(cohort, t, k);
                }
            } else {
                assert(expand(cps, t) =~= repeat(cohort, t));
            }
            assert(cohort_stats@ =~= count_map(expand(cps, t)));
        }
        FileBlame { change_points, total_lines, cohort_stats }
    }

    /// Number of lines of the file.
    pub fn total_lines(&self) -> (r: LineNumber)
        ensures
            r == self@.len(),
    {
        proof {
            use_type_invariant(self);
            lemma_expand_len(self.change_points@, self.total_lines as nat);
        }
        self.total_lines
    }

    /// Number of runs of lines sharing a cohort.
    pub fn range_count(&self) -> (r: usize)
        ensures
            r == run_count(self@),
    {
        proof {
            use_type_invariant(self);
            lemma_run_count_lines_upto(
                self.change_points@,
                self.change_points@.len(),
                self.total_lines as nat,
            );
        }
        self.change_points.len()
    }

    /// Cohort of line `index`, or `None` past the end of the file.
    fn cohort_at_index(&self, index: LineNumber) -> (r: Option<K>)
        ensures
            r == if index < self@.len() {
                Some(self@[index as int])
            } else {
                None::<K>
            },
    {
        proof {
            use_type_invariant(self);
            lemma_expand_len(self.change_points@, self.total_lines as nat);
        }
        if index >= self.total_lines {
            return None;
        }
        let ghost cps = self.change_points@;
        let n = self.change_points.len();
        let mut lo: usize = 0;
        let mut hi: usize = n;
        while lo + 1 < hi
            invariant
                n == cps.len(),
                cps == self.change_points@,
                0 <= lo < hi <= n,
                cps[lo as int].0 <= index,
                hi < n ==> cps[hi as int].0 > index,
            decreases hi - lo,
        {
            let mid = lo + (hi - lo) / 2;
            if self.change_points[mid].0 <= index {
                lo = mid;
            } else {
                hi = mid;
            }
        }
        proof {
            lemma_expand_index(cps, self.total_lines as nat, lo as int, index as int);
        }
        Some(self.change_points[lo].1)
    }

    /// The runs of the file as `(start_line, end_line, cohort)`.
    pub fn ranges(&self) -> (r: Vec<(LineNumber, LineNumber, K)>)
        ensures
            is_run_list(r@, self@),
            r@.len() == run_count(self@),
    {
        proof {
            use_type_invariant(self);
            lemma_expand_len(self.change_points@, self.total_lines as nat);
            lemma_run_count_lines_upto(
                self.change_points@,
                self.change_points@.len(),
                self.total_lines as nat,
            );
        }
        let ghost cps = self.change_points@;
        let ghost total = self.total_lines as nat;
        let n = self.change_points.len();
        let mut out: Vec<(LineNumber, LineNumber, K)> = Vec::new();
        let mut i: usize = 0;
        while i < n
            invariant
                n == cps.len(),
                cps == self.change_points@,
                total == self.total_lines,
                cps_canonical(cps, total),
                i <= n,
                out@.len() == i,
                forall|j: int|
                    0 <= j < i ==> #[trigger] out@[j] == (
                        cps[j].0,
                        start_at(cps, j + 1, total) as LineNumber,
                        cps[j].1,
                    ),
            decreases n - i,
        {
            let (start, cohort) = self.change_points[i];
            let end = if i + 1 < n {
                self.change_points[i + 1].0
            } else {
                self.total_lines
            };
            out.push((start, end, cohort));
            i += 1;
        }
        proof {
            let r = out@;
            let s = expand(cps, total);
            assert forall|j: int| 0 <= j < r.len() implies #[trigger] r[j].0 < r[j].1 by {
                if j + 1 < n {
                    assert(cps[j].0 < cps[j + 1].0);
                }
            }
            assert forall|j: int, l: int|
                0 <= j < r.len() && r[j].0 <= l < r[j].1 implies #[trigger] s[l]
                == #[trigger] r[j].2 by {
                lemma_expand_index(cps, total, j, l);
            }
            assert forall|j: int| 0 < j < r.len() implies #[trigger] r[j].0 == r[j - 1].1 by {}
            assert forall|j: int| 0 < j < r.len() implies #[trigger] r[j].2 != r[j - 1].2 by {}
        }
        out
    }

    /// Number of lines in each cohort, recomputed from the runs.
    fn compute_cohort_stats(change_points: &Vec<(LineNumber, K)>, total_lines: LineNumber) -> (r: HashMap<K, u64>)
        requires
            cps_canonical(change_points@, total_lines as nat),
        ensures
            r@ == count_map(expand(change_points@, total_lines as nat)),
    {
        proof {
            K::lemma_key_model();
        }
        let ghost cps = change_points@;
        let ghost total = total_lines as nat;
        let n = change_points.len();
        let mut stats: HashMap<K, u64> = HashMap::new();
        let mut i: usize = 0;
        proof {
            assert(stats@ =~= count_map(lines_upto(cps, 0, total)));
        }
        while i < n
            invariant
                n == cps.len(),
                cps == change_points@,
                total == total_lines,
                cps_canonical(cps, total),
                obeys_key_model::<K>(),
                i <= n,
                stats@ == count_map(lines_upto(cps, i as nat, total)),
            decreases n - i,
        {
            let (start, cohort) = change_points[i];
            let end = if i + 1 < n {
                change_points[i + 1].0
            } else {
                total_lines
            };
            proof {
                if i + 1 < n {
                    assert(cps[i as int].0 < cps[i + 1].0);
                }
                lemma_lines_upto_len(cps, (i + 1) as nat, total);
                lemma_count_in_le(lines_upto(cps, (i + 1) as nat, total), cohort);
                lemma_count_map_step(lines_upto(cps, i as nat, total), cohort, (end - start) as nat);
                lemma_count_in_add(
                    lines_upto(cps, i as nat, total),
                    repeat(cohort, (end - start) as nat),
                    cohort,
                );
                lemma_count_in_repeat(cohort, (end - start) as nat, cohort);
            }
            let count = (end - start) as u64;
            let previous = match stats.get(&cohort) {
                Some(v) => *v,
                None => 0,
            };
            stats.insert(cohort, previous + count);
            i += 1;
        }
        stats
    }


    /// First index at or after `ci` whose change point lies after `bound`.
    fn advance_past(&self, ci: usize, bound: LineNumber) -> (r: usize)
        requires
            ci <= self.change_points@.len(),
            forall|k: int| 0 <= k < ci ==> #[trigger] self.change_points@[k].0 <= bound,
        ensures
            ci <= r <= self.change_points@.len(),
            forall|k: int| 0 <= k < r ==> #[trigger] self.change_points@[k].0 <= bound,
            r < self.change_points@.len() ==> self.change_points@[r as int].0 > bound,
    {
        let n = self.change_points.len();
        let mut i = ci;
        while i < n && self.change_points[i].0 <= bound
            invariant
                n == self.change_points@.len(),
                ci <= i <= n,
                forall|k: int| 0 <= k < i ==> #[trigger] self.change_points@[k].0 <= bound,
            decreases n - i,
        {
            i += 1;
        }
        i
    }

    /// Appends the old lines `[a, b)` to the file under construction. `ci`
    /// counts the change points at or before `a` on entry, and those before
    /// `b` on exit.
    fn copy_kept(
        &self,
        out: &mut Vec<(LineNumber, K)>,
        new_pos: LineNumber,
        ci: usize,
        a: LineNumber,
        b: LineNumber,
    ) -> (r: (LineNumber, usize))
        requires
            cps_canonical(old(out)@, new_pos as nat),
            a < b,
            b <= self@.len(),
            new_pos + (b - a) <= u32::MAX,
            ci <= self.change_points@.len(),
            forall|k: int| 0 <= k < ci ==> #[trigger] self.change_points@[k].0 <= a,
            ci < self.change_points@.len() ==> self.change_points@[ci as int].0 > a,
        ensures
            r.0 == new_pos + (b - a),
            cps_canonical(final(out)@, r.0 as nat),
            expand(final(out)@, r.0 as nat) == expand(old(out)@, new_pos as nat) + self@.subrange(
                a as int,
                b as int,
            ),
            r.1 <= self.change_points@.len(),
            forall|k: int| 0 <= k < r.1 ==> #[trigger] self.change_points@[k].0 < b,
            r.1 < self.change_points@.len() ==> self.change_points@[r.1 as int].0 >= b,
    {
        proof {
            use_type_invariant(self);
        }
        let ghost cps = self.change_points@;
        let ghost total = self.total_lines as nat;
        let ghost lines = self@;
        let ghost prefix = expand(out@, new_pos as nat);
        proof {
            lemma_expand_len(cps, total);
            if ci == 0 {
                assert(cps[0].0 == 0);
            }
            lemma_expand_index(cps, total, ci - 1, a as int);
        }
        let n = self.change_points.len();
        let mut cur: K = match self.cohort_at_index(a) {
            Some(c) => c,
            None => self.change_points[0].1,
        };
        let mut seg: LineNumber = a;
        let mut ci = ci;
        let mut np = new_pos;
        proof {
            assert(lines.subrange(a as int, a as int) =~= Seq::<K>::empty());
            assert(prefix + lines.subrange(a as int, a as int) =~= prefix);
        }
        while ci < n && self.change_points[ci].0 < b
            invariant
                n == cps.len(),
                cps == self.change_points@,
                total == self.total_lines,
                lines == self@,
                lines == expand(cps, total),
                lines.len() == total,
                cps_canonical(cps, total),
                b <= total,
                a <= seg < b,
                1 <= ci <= n,
                cps[ci - 1].0 <= seg,
                cur == cps[ci - 1].1,
                ci < n ==> cps[ci as int].0 > seg,
                forall|k: int| 0 <= k < ci ==> #[trigger] cps[k].0 <= seg,
                np == new_pos + (seg - a),
                new_pos + (b - a) <= u32::MAX,
                cps_canonical(out@, np as nat),
                expand(out@, np as nat) == prefix + lines.subrange(a as int, seg as int),
            decreases n - ci,
        {
            let next = self.change_points[ci].0;
            proof {
                assert(lines.subrange(seg as int, next as int) =~= repeat(cur, (next - seg) as nat))
                    by {
                    assert forall|l: int| seg <= l < next implies lines[l] == cur by {
                        lemma_expand_index(cps, total, ci - 1, l);
                    }
                }
                assert(prefix + lines.subrange(a as int, seg as int) + lines.subrange(
                    seg as int,
                    next as int,
                ) =~= prefix + lines.subrange(a as int, next as int));
            }
            push_cp(out, np, cur, next - seg);
            np = np + (next - seg);
            seg = next;
            cur = self.change_points[ci].1;
            ci += 1;
            proof {
                assert forall|k: int| 0 <= k < ci implies #[trigger] cps[k].0 <= seg by {
                    if k < ci - 1 {
                        assert(cps[k].0 < cps[ci - 1].0);
                    }
                }
                if ci < n {
                    assert(cps[ci - 1].0 < cps[ci as int].0);
                }
            }
        }
        proof {
            assert(lines.subrange(seg as int, b as int) =~= repeat(cur, (b - seg) as nat)) by {
                assert forall|l: int| seg <= l < b implies lines[l] == cur by {
                    lemma_expand_index(cps, total, ci - 1, l);
                }
            }
            assert(prefix + lines.subrange(a as int, seg as int) + lines.subrange(
                seg as int,
                b as int,
            ) =~= prefix + lines.subrange(a as int, b as int));
        }
        push_cp(out, np, cur, b - seg);
        np = np + (b - seg);
        (np, ci)
    }

    /// Applies hunks to the blame and returns the blame of the new file.
    /// Hunks are taken in order of the start of their delete range (stably);
    /// each replaces the deleted old lines by its inserted lines, which all
    /// get the hunk's cohort. The other lines keep their cohort.
    pub fn apply_line_diffs(&self, line_diffs: LineDiffs<K>) -> (r: Self)
        requires
            hunks_fit(sort_by_start(line_diffs@), self@.len()),
            apply_sorted(self@, sort_by_start(line_diffs@)).len() <= u32::MAX,
        ensures
            r@ == apply_sorted(self@, sort_by_start(line_diffs@)),
    {
        proof {
            use_type_invariant(self);
            lemma_expand_len(self.change_points@, self.total_lines as nat);
        }
        let ghost lines = self@;
        if line_diffs.len() == 0 {
            proof {
                assert(lines.subrange(0, lines.len() as int) =~= lines);
            }
            return self.clone();
        }
        let diffs = sort_diffs(&line_diffs);
        let ghost ds = diffs@;
        let ghost target = apply_sorted(lines, ds);
        let ghost cps = self.change_points@;
        let ghost total = self.total_lines as nat;
        let nd = diffs.len();
        let mut out: Vec<(LineNumber, K)> = Vec::new();
        let mut new_pos: LineNumber = 0;
        let mut old_pos: LineNumber = 0;
        let mut ci = self.advance_past(0, 0);
        let mut i: usize = 0;
        proof {
            assert(expand(out@, 0) =~= Seq::<K>::empty());
            assert(expand(out@, 0) + splice_from(lines, ds, 0, 0) =~= target);
        }
        while i < nd
            invariant
                nd == ds.len(),
                ds == diffs@,
                hunks_fit(ds, lines.len()),
                target == apply_sorted(lines, ds),
                target.len() <= u32::MAX,
                lines == self@,
                lines.len() == total,
                total == self.total_lines,
                cps == self.change_points@,
                i <= nd,
                old_pos <= total,
                i > 0 ==> old_pos == ds[i - 1].0.end,
                i == 0 ==> old_pos == 0,
                cps_canonical(out@, new_pos as nat),
                expand(out@, new_pos as nat) + splice_from(lines, ds, i as int, old_pos as int)
                    == target,
                ci <= cps.len(),
                forall|k: int| 0 <= k < ci ==> #[trigger] cps[k].0 <= old_pos,
                ci < cps.len() ==> cps[ci as int].0 > old_pos,
            decreases nd - i,
        {
            let d_start = diffs[i].0.start;
            let d_end = diffs[i].0.end;
            let ins_start = diffs[i].1.start;
            let ins_end = diffs[i].1.end;
            let cohort = diffs[i].2;
            let ins: LineNumber = if ins_start <= ins_end {
                ins_end - ins_start
            } else {
                0
            };
            let ghost built = expand(out@, new_pos as nat);
            let ghost kept = lines.subrange(old_pos as int, d_start as int);
            let ghost rest = splice_from(lines, ds, i + 1, d_end as int);
            proof {
                assert(ds[i as int].0.start <= ds[i as int].0.end);
                assert(ds[i as int].0.end <= total);
                if i > 0 {
                    assert(ds[i - 1].0.end <= ds[i as int].0.start);
                }
                assert(splice_from(lines, ds, i as int, old_pos as int) == kept + repeat(
                    cohort,
                    ins as nat,
                ) + rest);
                assert(target =~= built + kept + repeat(cohort, ins as nat) + rest);
                lemma_expand_len(out@, new_pos as nat);
                assert(built.len() == new_pos);
                assert(kept.len() == d_start - old_pos);
            }
            if old_pos < d_start {
                let (np, nci) = self.copy_kept(&mut out, new_pos, ci, old_pos, d_start);
                new_pos = np;
                ci = nci;
            }
            proof {
                if old_pos == d_start {
                    assert(kept =~= Seq::<K>::empty());
                    assert(built + kept =~= built);
                }
                assert(expand(out@, new_pos as nat) == built + kept);
                assert forall|k: int| 0 <= k < ci implies #[trigger] cps[k].0 <= d_end by {}
            }
            if ins > 0 {
                push_cp(&mut out, new_pos, cohort, ins);
                new_pos = new_pos + ins;
            } else {
                proof {
                    assert(repeat(cohort, 0) =~= Seq::<K>::empty());
                    assert(built + kept + repeat(cohort, 0) =~= built + kept);
                }
            }
            ci = self.advance_past(ci, d_end);
            old_pos = d_end;
            i += 1;
            proof {
                assert(expand(out@, new_pos as nat) + rest =~= target);
            }
        }
        let ghost built = expand(out@, new_pos as nat);
        proof {
            lemma_expand_len(out@, new_pos as nat);
            assert(splice_from(lines, ds, nd as int, old_pos as int) == lines.subrange(
                old_pos as int,
                total as int,
            ));
        }
        if old_pos < self.total_lines {
            let (np, _nci) = self.copy_kept(&mut out, new_pos, ci, old_pos, self.total_lines);
            new_pos = np;
        } else {
            proof {
                assert(lines.subrange(old_pos as int, total as int) =~= Seq::<K>::empty());
                assert(built + lines.subrange(old_pos as int, total as int) =~= built);
            }
        }
        proof {
            assert(expand(out@, new_pos as nat) == target);
        }
        let cohort_stats = Self::compute_cohort_stats(&out, new_pos);
        let mut new_blame = FileBlame { change_points: out, total_lines: new_pos, cohort_stats };
        new_blame.merge_adjacent_ranges();
        new_blame
    }

    /// `apply_line_diffs`, where the hunks, sorted by the start of their
    /// delete range, fit the file and the result has at most `u32::MAX`
    /// lines; `None` otherwise.
    pub fn try_apply_line_diffs(&self, line_diffs: LineDiffs<K>) -> (r: Option<Self>)
        ensures
            r is Some <==> (hunks_fit(sort_by_start(line_diffs@), self@.len()) && apply_sorted(
                self@,
                sort_by_start(line_diffs@),
            ).len() <= u32::MAX),
            r matches Some(b) ==> b@ == apply_sorted(self@, sort_by_start(line_diffs@)),
    {
        let total = self.total_lines();
        let sorted = sort_diffs(&line_diffs);
        let ghost ds = sorted@;
        let n = sorted.len();
        let mut i: usize = 0;
        while i < n
            invariant
                n == ds.len(),
                ds == sorted@,
                ds == sort_by_start(line_diffs@),
                total == self@.len(),
                i <= n,
                forall|j: int| 0 <= j < i ==> #[trigger] ds[j].0.start <= ds[j].0.end,
                forall|j: int| 0 <= j < i ==> #[trigger] ds[j].0.end <= total,
                forall|j: int| 0 < j < i ==> #[trigger] ds[j - 1].0.end <= ds[j].0.start,
            decreases n - i,
        {
            let start = sorted[i].0.start;
            let end = sorted[i].0.end;
            if start > end || end > total || (i > 0 && sorted[i - 1].0.end > start) {
                proof {
                    let k = i as int;
                    if start > end {
                        assert(ds[k].0.start > ds[k].0.end);
                    } else if end > total {
                        assert(ds[k].0.end > self@.len());
                    } else {
                        assert(ds[k - 1].0.end > ds[k].0.start);
                    }
                    assert(!hunks_fit(ds, self@.len()));
                }
                return None;
            }
            i += 1;
        }
        proof {
            assert(hunks_fit(ds, self@.len()));
            lemma_apply_len(self@, ds);
        }
        // The net change in lines, summed from the last hunk up.
        let mut delta: i128 = 0;
        let mut j: usize = n;
        while j > 0
            invariant
                n == ds.len(),
                ds == sorted@,
                j <= n,
                delta == delta_from(ds, j as int),
                hunks_fit(ds, self@.len()),
                -((n - j) as int) * 0x1_0000_0000 <= delta <= ((n - j) as int) * 0x1_0000_0000,
                n <= usize::MAX,
            decreases j,
        {
            j -= 1;
            let ins: i128 = if sorted[j].1.start <= sorted[j].1.end {
                (sorted[j].1.end - sorted[j].1.start) as i128
            } else {
                0
            };
            let del: i128 = sorted[j].0.end as i128 - sorted[j].0.start as i128;
            let ghost before = delta;
            proof {
                assert(0 <= ins < 0x1_0000_0000);
                assert(ds[j as int].0.start <= ds[j as int].0.end);
                assert(0 <= del < 0x1_0000_0000);
                let m = (n - j) as int;
                assert(m * 0x1_0000_0000 == (m - 1) * 0x1_0000_0000 + 0x1_0000_0000);
                assert(m <= 0x1_0000_0000_0000_0000);
                assert(m * 0x1_0000_0000 <= 0x1_0000_0000_0000_0000 * 0x1_0000_0000) by (nonlinear_arith)
                    requires
                        0 <= m <= 0x1_0000_0000_0000_0000,
                ;
            }
            delta = ins - del + delta;
            proof {
                let m = (n - j) as int;
                assert(-(m - 1) * 0x1_0000_0000 <= before <= (m - 1) * 0x1_0000_0000);
                assert(delta <= m * 0x1_0000_0000);
                assert(-m * 0x1_0000_0000 <= delta);
            }
        }
        let new_len: i128 = total as i128 + delta;
        if new_len > u32::MAX as i128 {
            return None;
        }
        Some(self.apply_line_diffs(line_diffs))
    }

    /// Number of lines in each cohort.
    pub fn cohort_stats(&self) -> (r: HashMap<K, u64>)
        ensures
            r@ == count_map(self@),
    {
        proof {
            use_type_invariant(self);
        }
        self.cohort_stats.clone()
    }

    /// Removes change points that repeat the cohort of the previous one. The
    /// type's invariant already rules such change points out, so no line
    /// changes cohort and the blame stays as it is.
    pub fn merge_adjacent_ranges(&mut self)
        ensures
            final(self)@ == old(self)@,
                {
        proof {
            use_type_invariant(&*self);
        }
        let ghost cps = self.change_points@;
        let n = self.change_points.len();
        if n == 0 {
            return;
        }
        let mut kept: Vec<(LineNumber, K)> = Vec::new();
        kept.push(self.change_points[0]);
        let mut i: usize = 1;
        while i < n
            invariant
                n == cps.len(),
                cps == self.change_points@,
                cps_canonical(cps, self.total_lines as nat),
                1 <= i <= n,
                kept@ == cps.take(i as int),
            decreases n - i,
        {
            let (line, cohort) = self.change_points[i];
            let prev = self.change_points[i - 1].1;
            if !prev.same_key(&cohort) {
                kept.push((line, cohort));
            }
            i += 1;
            proof {
                assert(kept@ =~= cps.take(i as int));
            }
        }
        proof {
            assert(kept@ =~= cps);
        }
        self.change_points = kept;
    }

    /// Checks the internal representation: no change points in an empty file,
    /// otherwise a first change point at line 0, strictly increasing change
    /// points, all before the end of the file. The type's invariant holds
    /// all of these, so the check always passes.
    pub fn validate(&self) -> (r: Result<(), String>)
        ensures
            r is Ok,
    {
        proof {
            use_type_invariant(self);
        }
        let n = self.change_points.len();
        if self.total_lines == 0 {
            if n != 0 {
                return Err("Change-points must be empty when total_lines == 0".to_string());
            }
            return Ok(());
        }
        if n == 0 || self.change_points[0].0 != 0 {
            return Err("The first change-point must be at line 0".to_string());
        }
        let mut prev_key: Option<LineNumber> = None;
        let mut i: usize = 0;
        while i < n
            invariant
                n == self.change_points@.len(),
                cps_canonical(self.change_points@, self.total_lines as nat),
                i <= n,
                i > 0 ==> prev_key == Some(self.change_points@[i - 1].0),
                i == 0 ==> prev_key is None,
            decreases n - i,
        {
            let key = self.change_points[i].0;
            if key >= self.total_lines {
                return Err("Change-point key must be < total_lines".to_string());
            }
            if let Some(prev) = prev_key {
                if key <= prev {
                    return Err("Change-point keys must be strictly increasing".to_string());
                }
            }
            prev_key = Some(key);
            i += 1;
        }
        Ok(())
    }
}

} // verus!
