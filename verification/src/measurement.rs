//! What a measurement records for a file or a tree, and the small value
//! types the collectors produce.
use crate::text::push_char;
use vstd::prelude::*;

verus! {

/// What a measurement needs to see of each file.
#[derive(Debug, Clone, Copy, PartialEq, Eq, Structural)]
pub enum MeasurementKind {
    /// Only the path.
    FilePathOnly,
    /// The path and the contents.
    FilePathAndContents,
    /// The whole repository at once.
    WholeRepo,
}

impl MeasurementKind {
    /// The measurement looks at files one by one.
    pub fn is_file_level(&self) -> (r: bool)
        ensures
            r == !(*self is WholeRepo),
    {
        match self {
            MeasurementKind::FilePathOnly => true,
            MeasurementKind::FilePathAndContents => true,
            MeasurementKind::WholeRepo => false,
        }
    }

    /// Files can be read in batches for this measurement.
    pub fn can_batch(&self) -> (r: bool)
        ensures
            r == (*self is FilePathAndContents),
    {
        match self {
            MeasurementKind::FilePathOnly => false,
            MeasurementKind::FilePathAndContents => true,
            MeasurementKind::WholeRepo => false,
        }
    }
}

/// The measurement of a tree (with the number of non-empty files under it)
/// or of a single file.
#[derive(Debug)]
pub enum MeasurementData<M> {
    TreeData((usize, M)),
    FileData(M),
}

impl<M: Clone> Clone for MeasurementData<M> {
    fn clone(&self) -> Self {
        match self {
            MeasurementData::TreeData((n, m)) => MeasurementData::TreeData((*n, m.clone())),
            MeasurementData::FileData(m) => MeasurementData::FileData(m.clone()),
        }
    }
}

impl<M> MeasurementData<M> {
    /// The measurement itself.
    pub open spec fn measured(self) -> M {
        match self {
            MeasurementData::TreeData((_, m)) => m,
            MeasurementData::FileData(m) => m,
        }
    }

    /// The measurement of a tree.
    pub fn unwrap_tree(self) -> (r: M)
        requires
            self is TreeData,
        ensures
            r == self.measured(),
    {
        match self {
            MeasurementData::TreeData((_, m)) => m,
            MeasurementData::FileData(m) => m,
        }
    }

    /// The measurement of a file.
    pub fn unwrap_file(self) -> (r: M)
        requires
            self is FileData,
        ensures
            r == self.measured(),
    {
        match self {
            MeasurementData::TreeData((_, m)) => m,
            MeasurementData::FileData(m) => m,
        }
    }

    /// How many files the measurement covers: the count of a tree, one for a
    /// file.
    pub fn get_count(&self) -> (r: usize)
        ensures
            r == match *self {
                MeasurementData::TreeData((n, _)) => n,
                MeasurementData::FileData(_) => 1,
            },
    {
        match self {
            MeasurementData::TreeData((n, _)) => *n,
            MeasurementData::FileData(_) => 1,
        }
    }
}

impl MeasurementData<String> {
    /// The measurement as text.
    pub fn to_string(&self) -> (r: String)
        ensures
            r@ == self.measured()@,
    {
        match self {
            MeasurementData::TreeData((_, m)) => m.clone(),
            MeasurementData::FileData(m) => m.clone(),
        }
    }
}

/// A value that a measurement of one file can produce.
pub trait FileData {

}

impl FileData for String {

}

/// A measured value that may say "nothing found".
pub trait PossiblyEmpty {
    /// The value says nothing was found.
    spec fn is_empty_spec(&self) -> bool;

    fn is_empty(&self) -> (r: bool)
        ensures
            r == self.is_empty_spec(),
    ;
}

impl PossiblyEmpty for String {
    open spec fn is_empty_spec(&self) -> bool {
        self@.len() == 0
    }

    fn is_empty(&self) -> (r: bool) {
        self.as_str().unicode_len() == 0
    }
}

/// A number of files.
#[derive(Debug, Clone, Copy, PartialEq, Eq, Structural)]
pub struct FileCount(pub usize);

impl PossiblyEmpty for FileCount {
    open spec fn is_empty_spec(&self) -> bool {
        self.0 == 0
    }

    fn is_empty(&self) -> (r: bool) {
        self.0 == 0
    }
}

/// A number of matches.
#[derive(Debug, Clone, Copy, PartialEq, Eq, Structural)]
pub struct NumMatches(pub usize);

impl FileData for NumMatches {

}

impl PossiblyEmpty for NumMatches {
    open spec fn is_empty_spec(&self) -> bool {
        self.0 == 0
    }

    fn is_empty(&self) -> (r: bool) {
        self.0 == 0
    }
}

/// The sum of the match counts.
pub open spec fn total_matches(values: Seq<NumMatches>) -> int
    decreases values.len(),
{
    if values.len() == 0 {
        0
    } else {
        total_matches(values.drop_last()) + values.last().0
    }
}

/// The total of the match counts of a tree's files.
pub fn sum_matches(values: &Vec<NumMatches>) -> (r: u64)
    requires
        total_matches(values@) <= u64::MAX,
    ensures
        r == total_matches(values@),
{
    let mut total: u64 = 0;
    let mut i: usize = 0;
    while i < values.len()
        invariant
            i <= values@.len(),
            total == total_matches(values@.take(i as int)),
            total_matches(values@) <= u64::MAX,
        decreases values.len() - i,
    {
        proof {
            assert(values@.take(i + 1).drop_last() =~= values@.take(i as int));
            lemma_total_matches_prefix(values@, i + 1);
        }
        total = total + values[i].0 as u64;
        i += 1;
    }
    proof {
        assert(values@.take(values@.len() as int) =~= values@);
    }
    total
}

proof fn lemma_total_matches_prefix(values: Seq<NumMatches>, k: int)
    requires
        0 <= k <= values.len(),
    ensures
        total_matches(values.take(k)) <= total_matches(values),
    decreases values.len(),
{
    if k < values.len() {
        lemma_total_matches_prefix(values.drop_last(), k);
        assert(values.drop_last().take(k) =~= values.take(k));
    } else {
        assert(values.take(k) =~= values);
    }
}

/// One value of any of the kinds that file measurements produce.
pub enum FileDataEnum {
    TokeiStat(crate::tokei_stats::TokeiStat),
    NumMatches(NumMatches),
    String(String),
}

// ---------------------------------------------------------------------------
// Decimal text of counts
// ---------------------------------------------------------------------------
/// The decimal digit `d`.
pub open spec fn digit(d: int) -> char {
    seq!['0', '1', '2', '3', '4', '5', '6', '7', '8', '9'][d]
}

/// `n` in decimal, as `to_string` writes an unsigned integer.
pub open spec fn decimal(n: nat) -> Seq<char>
    decreases n,
{
    if n < 10 {
        seq![digit(n as int)]
    } else {
        decimal(n / 10).push(digit((n % 10) as int))
    }
}

/// `n` in decimal.
pub fn decimal_text(n: u64) -> (r: String)
    ensures
        r@ == decimal(n as nat),
    decreases n,
{
    let digits: [char; 10] = ['0', '1', '2', '3', '4', '5', '6', '7', '8', '9'];
    proof {
        assert(digits@ =~= seq!['0', '1', '2', '3', '4', '5', '6', '7', '8', '9']);
    }
    if n < 10 {
        let mut s = String::new();
        push_char(&mut s, digits[n as usize]);
        proof {
            assert(s@ =~= decimal(n as nat));
        }
        s
    } else {
        let mut s = decimal_text(n / 10);
        push_char(&mut s, digits[(n % 10) as usize]);
        s
    }
}

/// The summary of match counts: one row "total" with their sum.
pub fn summarize_matches(values: &Vec<NumMatches>) -> (r: Vec<(String, String)>)
    requires
        total_matches(values@) <= u64::MAX,
    ensures
        r@.len() == 1,
        r@[0].0@ == "total"@,
        r@[0].1@ == decimal(total_matches(values@) as nat),
{
    let total = sum_matches(values);
    let text = decimal_text(total);
    let r = vec![("total".to_string(), text)];
    r
}

} // verus!
