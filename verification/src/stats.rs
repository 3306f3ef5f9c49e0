//! Statistics of scanned data: row and byte counts, per-column value bounds,
//! and table constraints, each carried with its precision.

use vstd::prelude::*;
use crate::scalar::ScalarValue;
use crate::schema::Schema;

verus! {

/// How far a count statistic can be trusted.
#[derive(Debug, Clone, Copy, PartialEq, Eq)]
pub enum Precision {
    Exact(usize),
    Inexact(usize),
    Absent,
}

/// How far a scalar statistic (a column bound or sum) can be trusted.
#[derive(Debug, PartialEq, Eq)]
pub enum ScalarPrecision {
    Exact(ScalarValue),
    Inexact(ScalarValue),
    Absent,
}

impl Clone for ScalarPrecision {
    fn clone(&self) -> (res: Self)
        ensures
            res == *self,
    {
        match self {
            ScalarPrecision::Exact(v) => ScalarPrecision::Exact(v.clone()),
            ScalarPrecision::Inexact(v) => ScalarPrecision::Inexact(v.clone()),
            ScalarPrecision::Absent => ScalarPrecision::Absent,
        }
    }
}

impl ScalarPrecision {
    /// The carried value, whatever its precision.
    pub open spec fn spec_value(self) -> Option<ScalarValue> {
        match self {
            ScalarPrecision::Exact(v) => Some(v),
            ScalarPrecision::Inexact(v) => Some(v),
            ScalarPrecision::Absent => None,
        }
    }
}

/// Statistics of one column.
#[derive(Debug, PartialEq, Eq)]
pub struct ColumnStatistics {
    pub null_count: Precision,
    pub max_value: ScalarPrecision,
    pub min_value: ScalarPrecision,
    pub sum_value: ScalarPrecision,
    pub distinct_count: Precision,
}

impl Clone for ColumnStatistics {
    fn clone(&self) -> (res: Self)
        ensures
            res == *self,
    {
        ColumnStatistics {
            null_count: self.null_count,
            max_value: self.max_value.clone(),
            min_value: self.min_value.clone(),
            sum_value: self.sum_value.clone(),
            distinct_count: self.distinct_count,
        }
    }
}

/// The column statistics that claim nothing.
pub open spec fn unknown_column_statistics() -> ColumnStatistics {
    ColumnStatistics {
        null_count: Precision::Absent,
        max_value: ScalarPrecision::Absent,
        min_value: ScalarPrecision::Absent,
        sum_value: ScalarPrecision::Absent,
        distinct_count: Precision::Absent,
    }
}

impl ColumnStatistics {
    /// Column statistics that claim nothing.
    pub fn new_unknown() -> (r: Self)
        ensures
            r == unknown_column_statistics(),
    {
        ColumnStatistics {
            null_count: Precision::Absent,
            max_value: ScalarPrecision::Absent,
            min_value: ScalarPrecision::Absent,
            sum_value: ScalarPrecision::Absent,
            distinct_count: Precision::Absent,
        }
    }
}

impl Default for ColumnStatistics {
    fn default() -> (r: Self)
        ensures
            r == unknown_column_statistics(),
    {
        ColumnStatistics::new_unknown()
    }
}

/// The mathematical value of a [`Statistics`].
#[verifier::ext_equal]
pub struct StatisticsV {
    pub num_rows: Precision,
    pub total_byte_size: Precision,
    pub column_statistics: Seq<ColumnStatistics>,
}

/// Estimated statistics of a set of files: row count, byte size, and one
/// entry per schema column.
#[derive(Debug, PartialEq, Eq)]
pub struct Statistics {
    pub num_rows: Precision,
    pub total_byte_size: Precision,
    pub column_statistics: Vec<ColumnStatistics>,
}

impl View for Statistics {
    type V = StatisticsV;

    open spec fn view(&self) -> StatisticsV {
        StatisticsV {
            num_rows: self.num_rows,
            total_byte_size: self.total_byte_size,
            column_statistics: self.column_statistics@,
        }
    }
}

/// Copies a list of column statistics.
fn clone_column_statistics(v: &Vec<ColumnStatistics>) -> (r: Vec<ColumnStatistics>)
    ensures
        r@ == v@,
{
    let mut r: Vec<ColumnStatistics> = Vec::new();
    let mut i: usize = 0;
    while i < v.len()
        invariant
            i <= v.len(),
            r@ =~= v@.take(i as int),
        decreases v.len() - i,
    {
        r.push(v[i].clone());
        i = i + 1;
    }
    proof {
        assert(r@ =~= v@);
    }
    r
}

impl Clone for Statistics {
    fn clone(&self) -> (res: Self)
        ensures
            res@ == self@,
    {
        let res = Statistics {
            num_rows: self.num_rows,
            total_byte_size: self.total_byte_size,
            column_statistics: clone_column_statistics(&self.column_statistics),
        };
        proof {
            assert(res@ =~= self@);
        }
        res
    }
}

impl Statistics {
    /// Statistics that claim nothing about data over the given schema:
    /// absent counts, and one unknown entry per schema field.
    pub fn new_unknown(schema: &Schema) -> (r: Self)
        ensures
            r@.num_rows == Precision::Absent,
            r@.total_byte_size == Precision::Absent,
            r@.column_statistics.len() == schema@.fields.len(),
            forall|i: int|
                0 <= i < schema@.fields.len() ==> r@.column_statistics[i]
                    == unknown_column_statistics(),
    {
        let n = schema.num_fields();
        let mut column_statistics: Vec<ColumnStatistics> = Vec::new();
        let mut i: usize = 0;
        while i < n
            invariant
                i <= n,
                column_statistics@.len() == i,
                forall|j: int|
                    0 <= j < i ==> column_statistics@[j] == unknown_column_statistics(),
            decreases n - i,
        {
            column_statistics.push(ColumnStatistics::new_unknown());
            i = i + 1;
        }
        Statistics { num_rows: Precision::Absent, total_byte_size: Precision::Absent, column_statistics }
    }
}

/// The mathematical value of a [`Constraint`].
pub enum ConstraintV {
    PrimaryKey(Seq<usize>),
    Unique(Seq<usize>),
}

/// A table constraint over column positions.
#[derive(Debug, PartialEq, Eq)]
pub enum Constraint {
    PrimaryKey(Vec<usize>),
    Unique(Vec<usize>),
}

impl View for Constraint {
    type V = ConstraintV;

    open spec fn view(&self) -> ConstraintV {
        match self {
            Constraint::PrimaryKey(v) => ConstraintV::PrimaryKey(v@),
            Constraint::Unique(v) => ConstraintV::Unique(v@),
        }
    }
}

impl Clone for Constraint {
    fn clone(&self) -> (res: Self)
        ensures
            res@ == self@,
    {
        match self {
            Constraint::PrimaryKey(v) => Constraint::PrimaryKey(clone_usizes(v)),
            Constraint::Unique(v) => Constraint::Unique(clone_usizes(v)),
        }
    }
}

/// Copies a list of column positions.
fn clone_usizes(v: &Vec<usize>) -> (r: Vec<usize>)
    ensures
        r@ == v@,
{
    let mut r: Vec<usize> = Vec::new();
    let mut i: usize = 0;
    while i < v.len()
        invariant
            i <= v.len(),
            r@ =~= v@.take(i as int),
        decreases v.len() - i,
    {
        r.push(v[i]);
        i = i + 1;
    }
    proof {
        assert(r@ =~= v@);
    }
    r
}

/// The sequence of constraint values of a sequence of constraints.
pub open spec fn constraints_view(s: Seq<Constraint>) -> Seq<ConstraintV> {
    s.map_values(|c: Constraint| c@)
}

/// The table constraints of a scan.
#[derive(Debug, PartialEq, Eq)]
pub struct Constraints {
    pub inner: Vec<Constraint>,
}

impl View for Constraints {
    type V = Seq<ConstraintV>;

    open spec fn view(&self) -> Seq<ConstraintV> {
        constraints_view(self.inner@)
    }
}

impl Clone for Constraints {
    fn clone(&self) -> (res: Self)
        ensures
            res@ == self@,
    {
        let mut inner: Vec<Constraint> = Vec::new();
        let mut i: usize = 0;
        while i < self.inner.len()
            invariant
                i <= self.inner.len(),
                inner@.len() == i,
                forall|j: int| 0 <= j < i ==> (#[trigger] inner@[j])@ == self.inner@[j]@,
            decreases self.inner.len() - i,
        {
            inner.push(self.inner[i].clone());
            i = i + 1;
        }
        let res = Constraints { inner };
        proof {
            assert(res@ =~= self@);
        }
        res
    }
}

impl Constraints {
    /// No constraints.
    pub fn empty() -> (r: Self)
        ensures
            r@ == Seq::<ConstraintV>::empty(),
    {
        let r = Constraints { inner: Vec::new() };
        proof {
            assert(r@ =~= Seq::<ConstraintV>::empty());
        }
        r
    }

    /// Constraints over the given list.
    pub fn new(inner: Vec<Constraint>) -> (r: Self)
        ensures
            r@ == constraints_view(inner@),
    {
        Constraints { inner }
    }

    /// The constraints as a list.
    pub fn inner(&self) -> (r: &Vec<Constraint>)
        ensures
            constraints_view(r@) == self@,
    {
        &self.inner
    }

    /// Whether there are no constraints.
    pub fn is_empty(&self) -> (r: bool)
        ensures
            r == (self@.len() == 0),
    {
        self.inner.len() == 0
    }
}

} // verus!
