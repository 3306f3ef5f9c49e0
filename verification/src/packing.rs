//! The file-group packer: regroups a flat file list into the minimum number
//! of groups that are internally ordered and non-overlapping on a sort key,
//! using only per-file min/max bounds.
//!
//! Files are sorted by their lower bound and packed first-fit: this is a
//! chain decomposition of the interval order, and first-fit on intervals
//! sorted by left endpoint yields the minimum number of chains.

use vstd::prelude::*;
use vstd::multiset::Multiset;
use crate::config::{file_groups_view, files_view, PartitionedFile, PartitionedFileV};
use crate::error::ScanError;
use crate::scalar::{DataType, ScalarValue};
use crate::schema::{Schema, SchemaV};
use crate::sort::SortKey;
use crate::stats::{ColumnStatistics, ScalarPrecision};

verus! {

/// Whether a value is a usable sort bound for a column of the given type:
/// its kind matches the column's type, it is not null, and its kind admits
/// the integer ranking below.
pub open spec fn usable_bound(dt: DataType, v: ScalarValue) -> bool {
    match (dt, v) {
        (DataType::Boolean, ScalarValue::Boolean(b)) => b is Some,
        (DataType::Int32, ScalarValue::Int32(i)) => i is Some,
        (DataType::Int64, ScalarValue::Int64(i)) => i is Some,
        (DataType::UInt64, ScalarValue::UInt64(u)) => u is Some,
        (DataType::Decimal64(s1), ScalarValue::Decimal64(m, s2)) => m is Some && s1 == s2,
        _ => false,
    }
}

/// The integer rank of a usable bound: ranks order values exactly as their
/// type does.
pub open spec fn bound_rank(v: ScalarValue) -> int {
    match v {
        ScalarValue::Boolean(Some(b)) => if b {
            1int
        } else {
            0int
        },
        ScalarValue::Int32(Some(i)) => i as int,
        ScalarValue::Int64(Some(i)) => i as int,
        ScalarValue::UInt64(Some(u)) => u as int,
        ScalarValue::Decimal64(Some(m), _) => m as int,
        _ => 0int,
    }
}

/// Whether a value is a usable sort bound for a column of the given type.
fn check_usable_bound(dt: &DataType, v: &ScalarValue) -> (r: bool)
    ensures
        r == usable_bound(*dt, *v),
{
    match (dt, v) {
        (DataType::Boolean, ScalarValue::Boolean(b)) => b.is_some(),
        (DataType::Int32, ScalarValue::Int32(i)) => i.is_some(),
        (DataType::Int64, ScalarValue::Int64(i)) => i.is_some(),
        (DataType::UInt64, ScalarValue::UInt64(u)) => u.is_some(),
        (DataType::Decimal64(s1), ScalarValue::Decimal64(m, s2)) => m.is_some() && *s1 == *s2,
        _ => false,
    }
}

/// The integer rank of a bound; meaningful for usable bounds.
fn bound_rank_exec(v: &ScalarValue) -> (r: i128)
    ensures
        r as int == bound_rank(*v),
{
    match v {
        ScalarValue::Boolean(Some(b)) => if *b {
            1
        } else {
            0
        },
        ScalarValue::Int32(Some(i)) => *i as i128,
        ScalarValue::Int64(Some(i)) => *i as i128,
        ScalarValue::UInt64(Some(u)) => *u as i128,
        ScalarValue::Decimal64(Some(m), _) => *m as i128,
        _ => 0,
    }
}

/// The scalar a precision entry carries; null when it carries none.
pub open spec fn prec_scalar(p: ScalarPrecision) -> ScalarValue {
    match p {
        ScalarPrecision::Exact(v) => v,
        ScalarPrecision::Inexact(v) => v,
        ScalarPrecision::Absent => ScalarValue::Null,
    }
}

/// The statistics a file carries for one column; meaningful when the file
/// has statistics covering that column.
pub open spec fn file_column_stats(f: PartitionedFileV, c: int) -> ColumnStatistics {
    f.statistics->Some_0.column_statistics[c]
}

/// The minimum bound a file carries for one column.
pub open spec fn file_min(f: PartitionedFileV, c: int) -> ScalarValue {
    prec_scalar(file_column_stats(f, c).min_value)
}

/// The maximum bound a file carries for one column.
pub open spec fn file_max(f: PartitionedFileV, c: int) -> ScalarValue {
    prec_scalar(file_column_stats(f, c).max_value)
}

/// Whether a file carries usable bounds for one sort key: statistics are
/// present, cover the key's column, both bounds carry non-null values of the
/// column's type, and the minimum does not exceed the maximum.
pub open spec fn usable_file_at(schema: SchemaV, k: SortKey, f: PartitionedFileV) -> bool {
    &&& k.column < schema.fields.len()
    &&& f.statistics is Some
    &&& k.column < f.statistics->Some_0.column_statistics.len()
    &&& file_column_stats(f, k.column as int).min_value.spec_value() is Some
    &&& file_column_stats(f, k.column as int).max_value.spec_value() is Some
    &&& usable_bound(schema.fields[k.column as int].data_type, file_min(f, k.column as int))
    &&& usable_bound(schema.fields[k.column as int].data_type, file_max(f, k.column as int))
    &&& bound_rank(file_min(f, k.column as int)) <= bound_rank(file_max(f, k.column as int))
}

/// Whether a file carries usable bounds for every sort key.
pub open spec fn usable_file(schema: SchemaV, keys: Seq<SortKey>, f: PartitionedFileV) -> bool {
    forall|j: int| 0 <= j < keys.len() ==> usable_file_at(schema, keys[j], f)
}

/// The rank a file's lower bound has under one key: its minimum ascending,
/// its negated maximum descending, so that ranks always grow in scan order.
pub open spec fn lower_rank_at(k: SortKey, f: PartitionedFileV) -> int {
    if k.descending {
        -bound_rank(file_max(f, k.column as int))
    } else {
        bound_rank(file_min(f, k.column as int))
    }
}

/// The rank a file's upper bound has under one key.
pub open spec fn upper_rank_at(k: SortKey, f: PartitionedFileV) -> int {
    if k.descending {
        -bound_rank(file_min(f, k.column as int))
    } else {
        bound_rank(file_max(f, k.column as int))
    }
}

/// A file's lower bound on the whole sort key, as a rank vector.
pub open spec fn lower_ranks(keys: Seq<SortKey>, f: PartitionedFileV) -> Seq<int> {
    Seq::new(keys.len(), |j: int| lower_rank_at(keys[j], f))
}

/// A file's upper bound on the whole sort key, as a rank vector.
pub open spec fn upper_ranks(keys: Seq<SortKey>, f: PartitionedFileV) -> Seq<int> {
    Seq::new(keys.len(), |j: int| upper_rank_at(keys[j], f))
}

/// Strict lexicographic order on rank vectors.
pub open spec fn lex_lt(a: Seq<int>, b: Seq<int>) -> bool
    decreases a.len(),
{
    if a.len() == 0 || b.len() == 0 {
        false
    } else if a.first() < b.first() {
        true
    } else if a.first() > b.first() {
        false
    } else {
        lex_lt(a.drop_first(), b.drop_first())
    }
}

/// Non-strict lexicographic order on rank vectors of equal length.
pub open spec fn lex_le(a: Seq<int>, b: Seq<int>) -> bool {
    !lex_lt(b, a)
}

/// Whether `f2` comes strictly after `f1` in the sort order: every value of
/// `f2` lies strictly beyond every value of `f1`.
pub open spec fn file_after(keys: Seq<SortKey>, f1: PartitionedFileV, f2: PartitionedFileV) -> bool {
    lex_lt(upper_ranks(keys, f1), lower_ranks(keys, f2))
}

/// The lexicographic order never holds of a vector and itself.
pub proof fn lemma_lex_irrefl(a: Seq<int>)
    ensures
        !lex_lt(a, a),
    decreases a.len(),
{
    if a.len() > 0 {
        lemma_lex_irrefl(a.drop_first());
    }
}

/// On equal-length vectors the order is connex: two vectors are ordered one
/// way, the other way, or equal.
pub proof fn lemma_lex_connex(a: Seq<int>, b: Seq<int>)
    requires
        a.len() == b.len(),
    ensures
        lex_lt(a, b) || lex_lt(b, a) || a =~= b,
    decreases a.len(),
{
    if a.len() > 0 && a.first() == b.first() {
        lemma_lex_connex(a.drop_first(), b.drop_first());
        if !lex_lt(a, b) && !lex_lt(b, a) {
            assert(a.drop_first() == b.drop_first());
            assert forall|i: int| 0 <= i < a.len() implies a[i] == b[i] by {
                if i > 0 {
                    assert(a[i] == a.drop_first()[i - 1]);
                    assert(b[i] == b.drop_first()[i - 1]);
                }
            }
            assert(a =~= b);
        }
    }
}

/// The lexicographic order is transitive on equal-length vectors.
pub proof fn lemma_lex_trans(a: Seq<int>, b: Seq<int>, c: Seq<int>)
    requires
        a.len() == b.len(),
        b.len() == c.len(),
        lex_lt(a, b),
        lex_lt(b, c),
    ensures
        lex_lt(a, c),
    decreases a.len(),
{
    if a.first() == b.first() && b.first() == c.first() {
        lemma_lex_trans(a.drop_first(), b.drop_first(), c.drop_first());
    }
}

/// A componentwise bound implies the lexicographic bound.
pub proof fn lemma_componentwise_le(a: Seq<int>, b: Seq<int>)
    requires
        a.len() == b.len(),
        forall|j: int| 0 <= j < a.len() ==> a[j] <= b[j],
    ensures
        lex_le(a, b),
    decreases a.len(),
{
    if a.len() > 0 && a.first() == b.first() {
        assert(forall|j: int|
            0 <= j < a.drop_first().len() ==> #[trigger] a.drop_first()[j] <= b.drop_first()[j]);
        lemma_componentwise_le(a.drop_first(), b.drop_first());
    }
}

/// The ranks a vector of machine integers denotes.
pub open spec fn ranks_of(v: Seq<i128>) -> Seq<int> {
    v.map_values(|x: i128| x as int)
}

/// Compares two rank vectors lexicographically.
fn lex_lt_exec(a: &Vec<i128>, b: &Vec<i128>) -> (r: bool)
    requires
        a@.len() == b@.len(),
    ensures
        r == lex_lt(ranks_of(a@), ranks_of(b@)),
{
    let mut i: usize = 0;
    proof {
        assert(ranks_of(a@).skip(0) =~= ranks_of(a@));
        assert(ranks_of(b@).skip(0) =~= ranks_of(b@));
    }
    while i < a.len()
        invariant
            i <= a.len(),
            a@.len() == b@.len(),
            lex_lt(ranks_of(a@), ranks_of(b@)) == lex_lt(
                ranks_of(a@).skip(i as int),
                ranks_of(b@).skip(i as int),
            ),
        decreases a.len() - i,
    {
        let ghost sa = ranks_of(a@).skip(i as int);
        let ghost sb = ranks_of(b@).skip(i as int);
        proof {
            assert(sa.len() > 0);
            assert(sa.first() == a@[i as int] as int);
            assert(sb.first() == b@[i as int] as int);
        }
        if a[i] < b[i] {
            return true;
        }
        if a[i] > b[i] {
            return false;
        }
        i = i + 1;
        proof {
            assert(sa.drop_first() =~= ranks_of(a@).skip(i as int));
            assert(sb.drop_first() =~= ranks_of(b@).skip(i as int));
        }
    }
    proof {
        assert(ranks_of(a@).skip(a@.len() as int).len() == 0);
    }
    false
}

/// The error the sort key list itself forces, scanning keys left to right:
/// a column position outside the table schema, or a nullable column.
pub open spec fn keys_error(schema: SchemaV, keys: Seq<SortKey>) -> Option<ScanError>
    decreases keys.len(),
{
    if keys.len() == 0 {
        None
    } else if keys.first().column >= schema.fields.len() {
        Some(ScanError::UnknownSortColumn { index: keys.first().column })
    } else if schema.fields[keys.first().column as int].nullable {
        Some(ScanError::NullableSortColumn {
            column: schema.fields[keys.first().column as int].name,
        })
    } else {
        keys_error(schema, keys.drop_first())
    }
}

/// The error the files' statistics force, scanning keys left to right: the
/// first key column for which some file carries no usable bounds.
pub open spec fn stats_error(
    schema: SchemaV,
    keys: Seq<SortKey>,
    files: Seq<PartitionedFileV>,
) -> Option<ScanError>
    decreases keys.len(),
{
    if keys.len() == 0 {
        None
    } else if exists|i: int| 0 <= i < files.len() && !usable_file_at(schema, keys.first(), files[i]) {
        Some(ScanError::MissingStatistics {
            column: schema.fields[keys.first().column as int].name,
        })
    } else {
        stats_error(schema, keys.drop_first(), files)
    }
}

/// Checks the sort keys against the table schema.
fn validate_keys(schema: &Schema, keys: &Vec<SortKey>) -> (r: Option<ScanError>)
    ensures
        r == keys_error(schema@, keys@),
{
    let mut i: usize = 0;
    proof {
        assert(keys@.skip(0) =~= keys@);
    }
    while i < keys.len()
        invariant
            i <= keys.len(),
            keys_error(schema@, keys@) == keys_error(schema@, keys@.skip(i as int)),
        decreases keys.len() - i,
    {
        let ghost rest = keys@.skip(i as int);
        proof {
            assert(rest.first() == keys@[i as int]);
        }
        let k = keys[i];
        if k.column >= schema.num_fields() {
            return Some(ScanError::UnknownSortColumn { index: k.column });
        }
        if schema.field(k.column).is_nullable() {
            return Some(ScanError::NullableSortColumn { column: schema.field(k.column).name().clone() });
        }
        i = i + 1;
        proof {
            assert(rest.drop_first() =~= keys@.skip(i as int));
        }
    }
    proof {
        assert(keys@.skip(keys@.len() as int).len() == 0);
    }
    None
}

/// Whether a file carries usable bounds for one sort key.
fn check_usable_at(schema: &Schema, k: SortKey, f: &PartitionedFile) -> (r: bool)
    requires
        k.column < schema@.fields.len(),
    ensures
        r == usable_file_at(schema@, k, f@),
{
    let st = match &f.statistics {
        Some(st) => st,
        None => {
            return false;
        },
    };
    if k.column >= st.column_statistics.len() {
        return false;
    }
    let cs = &st.column_statistics[k.column];
    let minv = match &cs.min_value {
        ScalarPrecision::Exact(v) => v,
        ScalarPrecision::Inexact(v) => v,
        ScalarPrecision::Absent => {
            return false;
        },
    };
    let maxv = match &cs.max_value {
        ScalarPrecision::Exact(v) => v,
        ScalarPrecision::Inexact(v) => v,
        ScalarPrecision::Absent => {
            return false;
        },
    };
    let dt = schema.field(k.column).data_type();
    if !check_usable_bound(dt, minv) {
        return false;
    }
    if !check_usable_bound(dt, maxv) {
        return false;
    }
    bound_rank_exec(minv) <= bound_rank_exec(maxv)
}

/// Checks every file's bounds against every sort key, keys outermost, and
/// reports the first key column failing for some file.
fn check_stats(schema: &Schema, keys: &Vec<SortKey>, flat: &Vec<PartitionedFile>) -> (r: Option<
    ScanError,
>)
    requires
        keys_error(schema@, keys@) is None,
    ensures
        r == stats_error(schema@, keys@, files_view(flat@)),
{
    let ghost filesv = files_view(flat@);
    let mut j: usize = 0;
    proof {
        assert(keys@.skip(0) =~= keys@);
    }
    while j < keys.len()
        invariant
            j <= keys.len(),
            keys_error(schema@, keys@) is None,
            filesv == files_view(flat@),
            stats_error(schema@, keys@, filesv) == stats_error(
                schema@,
                keys@.skip(j as int),
                filesv,
            ),
        decreases keys.len() - j,
    {
        let ghost rest = keys@.skip(j as int);
        proof {
            assert(rest.first() == keys@[j as int]);
            lemma_keys_error_skip_in_range(schema@, keys@, j as int);
        }
        let k = keys[j];
        let mut i: usize = 0;
        while i < flat.len()
            invariant
                i <= flat.len(),
                j < keys.len(),
                k == keys@[j as int],
                k.column < schema@.fields.len(),
                filesv == files_view(flat@),
                stats_error(schema@, keys@, filesv) == stats_error(
                    schema@,
                    keys@.skip(j as int),
                    filesv,
                ),
                forall|t: int| 0 <= t < i ==> usable_file_at(schema@, k, filesv[t]),
            decreases flat.len() - i,
        {
            if !check_usable_at(schema, k, &flat[i]) {
                proof {
                    let rest = keys@.skip(j as int);
                    assert(rest.first() == keys@[j as int]);
                    assert(0 <= i < filesv.len() && !usable_file_at(
                        schema@,
                        rest.first(),
                        filesv[i as int],
                    ));
                    assert(stats_error(schema@, rest, filesv) == Some(
                        ScanError::MissingStatistics {
                            column: schema@.fields[k.column as int].name,
                        },
                    ));
                }
                return Some(ScanError::MissingStatistics {
                    column: schema.field(k.column).name().clone(),
                });
            }
            i = i + 1;
        }
        j = j + 1;
        proof {
            assert(!(exists|t: int|
                0 <= t < filesv.len() && !usable_file_at(schema@, rest.first(), filesv[t])));
            assert(rest.drop_first() =~= keys@.skip(j as int));
        }
    }
    proof {
        assert(keys@.skip(keys@.len() as int).len() == 0);
    }
    None
}

/// Keys that pass validation up to position `j` keep their columns in
/// range.
proof fn lemma_keys_error_skip_in_range(schema: SchemaV, keys: Seq<SortKey>, j: int)
    requires
        0 <= j < keys.len(),
        keys_error(schema, keys) is None,
    ensures
        keys[j].column < schema.fields.len(),
        !schema.fields[keys[j].column as int].nullable,
    decreases j,
{
    if j == 0 {
    } else {
        lemma_keys_error_skip_in_range(schema, keys.drop_first(), j - 1);
    }
}

/// The machine rank vectors of one file's bounds.
struct Bounds {
    lower: Vec<i128>,
    upper: Vec<i128>,
}

/// Computes one file's rank vectors over the sort keys.
fn file_bounds(schema: &Schema, keys: &Vec<SortKey>, f: &PartitionedFile) -> (b: Bounds)
    requires
        forall|j: int| 0 <= j < keys@.len() ==> usable_file_at(schema@, keys@[j], f@),
    ensures
        ranks_of(b.lower@) == lower_ranks(keys@, f@),
        ranks_of(b.upper@) == upper_ranks(keys@, f@),
        b.lower@.len() == keys@.len(),
        b.upper@.len() == keys@.len(),
{
    let mut lower: Vec<i128> = Vec::new();
    let mut upper: Vec<i128> = Vec::new();
    let mut j: usize = 0;
    while j < keys.len()
        invariant
            j <= keys.len(),
            forall|t: int| 0 <= t < keys@.len() ==> usable_file_at(schema@, keys@[t], f@),
            lower@.len() == j,
            upper@.len() == j,
            forall|t: int| 0 <= t < j ==> #[trigger] lower@[t] as int == lower_rank_at(keys@[t], f@),
            forall|t: int| 0 <= t < j ==> #[trigger] upper@[t] as int == upper_rank_at(keys@[t], f@),
        decreases keys.len() - j,
    {
        let k = keys[j];
        proof {
            assert(usable_file_at(schema@, keys@[j as int], f@));
        }
        let st = match &f.statistics {
            Some(st) => st,
            None => {
                proof {
                    assert(false);
                }
                unreached()
            },
        };
        let cs = &st.column_statistics[k.column];
        let minv = match &cs.min_value {
            ScalarPrecision::Exact(v) => v,
            ScalarPrecision::Inexact(v) => v,
            ScalarPrecision::Absent => {
                proof {
                    assert(false);
                }
                unreached()
            },
        };
        let maxv = match &cs.max_value {
            ScalarPrecision::Exact(v) => v,
            ScalarPrecision::Inexact(v) => v,
            ScalarPrecision::Absent => {
                proof {
                    assert(false);
                }
                unreached()
            },
        };
        let rmin = bound_rank_exec(minv);
        let rmax = bound_rank_exec(maxv);
        proof {
            assert(rmin as int == bound_rank(file_min(f@, k.column as int)));
            assert(rmax as int == bound_rank(file_max(f@, k.column as int)));
            lemma_rank_bounded(*minv);
            lemma_rank_bounded(*maxv);
        }
        if k.descending {
            lower.push(-rmax);
            upper.push(-rmin);
        } else {
            lower.push(rmin);
            upper.push(rmax);
        }
        j = j + 1;
    }
    let b = Bounds { lower, upper };
    proof {
        assert(ranks_of(b.lower@) =~= lower_ranks(keys@, f@));
        assert(ranks_of(b.upper@) =~= upper_ranks(keys@, f@));
    }
    b
}

/// Ranks fit comfortably inside the machine integer carrying them, so their
/// negation does too.
proof fn lemma_rank_bounded(v: ScalarValue)
    ensures
        -0xffff_ffff_ffff_ffff <= bound_rank(v) <= 0xffff_ffff_ffff_ffff,
{
}

/// A usable file's lower rank vector is bounded by its upper rank vector,
/// componentwise and hence lexicographically.
proof fn lemma_usable_lower_le_upper(schema: SchemaV, keys: Seq<SortKey>, f: PartitionedFileV)
    requires
        usable_file(schema, keys, f),
    ensures
        lex_le(lower_ranks(keys, f), upper_ranks(keys, f)),
{
    assert forall|j: int| 0 <= j < keys.len() implies lower_ranks(keys, f)[j] <= upper_ranks(
        keys,
        f,
    )[j] by {
        assert(usable_file_at(schema, keys[j], f));
    }
    lemma_componentwise_le(lower_ranks(keys, f), upper_ranks(keys, f));
}

/// When no statistics error arises, every file is usable under every key.
proof fn lemma_stats_ok_all_usable(
    schema: SchemaV,
    keys: Seq<SortKey>,
    files: Seq<PartitionedFileV>,
)
    requires
        stats_error(schema, keys, files) is None,
    ensures
        forall|i: int, j: int|
            0 <= i < files.len() && 0 <= j < keys.len() ==> #[trigger] usable_file_at(
                schema,
                keys[j],
                files[i],
            ),
    decreases keys.len(),
{
    if keys.len() > 0 {
        lemma_stats_ok_all_usable(schema, keys.drop_first(), files);
        assert forall|i: int, j: int|
            0 <= i < files.len() && 0 <= j < keys.len() implies #[trigger] usable_file_at(
            schema,
            keys[j],
            files[i],
        ) by {
            if j == 0 {
                assert(!(exists|t: int|
                    0 <= t < files.len() && !usable_file_at(schema, keys.first(), files[t])));
            } else {
                assert(keys.drop_first()[j - 1] == keys[j]);
            }
        }
    }
}

/// The strict order files are sorted by: lower bound first, input position
/// as the tie-break. It is total on distinct positions.
pub open spec fn pair_lt(l1: Seq<int>, i1: int, l2: Seq<int>, i2: int) -> bool {
    lex_lt(l1, l2) || (!lex_lt(l1, l2) && !lex_lt(l2, l1) && i1 < i2)
}

/// The sort order is total on entries with distinct positions.
proof fn lemma_pair_total(l1: Seq<int>, i1: int, l2: Seq<int>, i2: int)
    requires
        l1.len() == l2.len(),
        i1 != i2,
    ensures
        pair_lt(l1, i1, l2, i2) || pair_lt(l2, i2, l1, i1),
{
    lemma_lex_connex(l1, l2);
}

/// The sort order is transitive.
proof fn lemma_pair_trans(l1: Seq<int>, i1: int, l2: Seq<int>, i2: int, l3: Seq<int>, i3: int)
    requires
        l1.len() == l2.len(),
        l2.len() == l3.len(),
        pair_lt(l1, i1, l2, i2),
        pair_lt(l2, i2, l3, i3),
    ensures
        pair_lt(l1, i1, l3, i3),
{
    lemma_lex_connex(l1, l2);
    lemma_lex_connex(l2, l3);
    lemma_lex_connex(l1, l3);
    if lex_lt(l1, l2) && lex_lt(l2, l3) {
        lemma_lex_trans(l1, l2, l3);
    } else if lex_lt(l1, l2) && !lex_lt(l2, l3) && !lex_lt(l3, l2) {
        assert(l2 =~= l3);
    } else if !lex_lt(l1, l2) && !lex_lt(l2, l1) && lex_lt(l2, l3) {
        assert(l1 =~= l2);
    } else {
        assert(l1 =~= l2);
        assert(l2 =~= l3);
    }
}

/// An entry below another in the sort order has a lower bound no greater.
proof fn lemma_pair_lt_implies_le(l1: Seq<int>, i1: int, l2: Seq<int>, i2: int)
    requires
        l1.len() == l2.len(),
        pair_lt(l1, i1, l2, i2),
    ensures
        lex_le(l1, l2),
{
    if lex_lt(l1, l2) && lex_lt(l2, l1) {
        lemma_lex_trans(l1, l2, l1);
        lemma_lex_irrefl(l1);
    }
}

/// Appending one element inside one group of a grouping inserts exactly that
/// element into the flattened multiset.
proof fn lemma_flatten_multiset_update_push<T>(gs: Seq<Seq<T>>, g: int, x: T)
    requires
        0 <= g < gs.len(),
    ensures
        gs.update(g, gs[g].push(x)).flatten().to_multiset() =~= gs.flatten().to_multiset().insert(
            x,
        ),
    decreases gs.len(),
{
    broadcast use vstd::seq_lib::group_to_multiset_ensures;
    broadcast use vstd::multiset::group_multiset_axioms;

    let gs2 = gs.update(g, gs[g].push(x));
    if g == 0 {
        assert(gs2.first() == gs.first().push(x));
        assert(gs2.drop_first() =~= gs.drop_first());
        assert(gs2.flatten() == gs2.first() + gs2.drop_first().flatten());
        assert(gs.flatten() == gs.first() + gs.drop_first().flatten());
        vstd::seq_lib::lemma_multiset_commutative(gs.first().push(x), gs.drop_first().flatten());
        vstd::seq_lib::lemma_multiset_commutative(gs.first(), gs.drop_first().flatten());
        assert(gs.first().push(x).to_multiset() =~= gs.first().to_multiset().insert(x));
        assert(gs.first().to_multiset().insert(x).add(gs.drop_first().flatten().to_multiset())
            =~= gs.first().to_multiset().add(gs.drop_first().flatten().to_multiset()).insert(x));
    } else {
        assert(gs2.first() == gs.first());
        assert(gs2.drop_first() =~= gs.drop_first().update(
            g - 1,
            gs.drop_first()[g - 1].push(x),
        ));
        lemma_flatten_multiset_update_push(gs.drop_first(), g - 1, x);
        assert(gs2.flatten() == gs2.first() + gs2.drop_first().flatten());
        assert(gs.flatten() == gs.first() + gs.drop_first().flatten());
        vstd::seq_lib::lemma_multiset_commutative(gs.first(), gs2.drop_first().flatten());
        vstd::seq_lib::lemma_multiset_commutative(gs.first(), gs.drop_first().flatten());
        assert(gs.first().to_multiset().add(
            gs.drop_first().flatten().to_multiset().insert(x),
        ) =~= gs.first().to_multiset().add(gs.drop_first().flatten().to_multiset()).insert(x));
    }
}

/// Opening a new singleton group inserts exactly its element into the
/// flattened multiset.
proof fn lemma_flatten_multiset_push_singleton<T>(gs: Seq<Seq<T>>, x: T)
    ensures
        gs.push(seq![x]).flatten().to_multiset() =~= gs.flatten().to_multiset().insert(x),
{
    broadcast use vstd::seq_lib::group_to_multiset_ensures;
    broadcast use vstd::multiset::group_multiset_axioms;
    broadcast use Seq::lemma_flatten_push;

    assert(gs.push(seq![x]).flatten() =~= gs.flatten() + seq![x]);
    vstd::seq_lib::lemma_multiset_commutative(gs.flatten(), seq![x]);
    assert(seq![x].to_multiset() =~= Seq::<T>::empty().push(x).to_multiset());
    assert(Seq::<T>::empty().push(x).to_multiset() =~= Multiset::<T>::empty().insert(x));
    assert(gs.flatten().to_multiset().add(Multiset::<T>::empty().insert(x))
        =~= gs.flatten().to_multiset().insert(x));
}

/// One file of the packer's working state: its position in the flattened
/// input, the file itself, and its rank vectors.
struct Entry {
    idx: usize,
    file: PartitionedFile,
    lower: Vec<i128>,
    upper: Vec<i128>,
}

/// Well-formedness of an entry against the flattened input and sort keys.
spec fn entry_wf(e: Entry, keys: Seq<SortKey>, flat: Seq<PartitionedFileV>) -> bool {
    &&& 0 <= e.idx < flat.len()
    &&& e.file@ == flat[e.idx as int]
    &&& e.lower@.len() == keys.len()
    &&& e.upper@.len() == keys.len()
    &&& ranks_of(e.lower@) == lower_ranks(keys, e.file@)
    &&& ranks_of(e.upper@) == upper_ranks(keys, e.file@)
}

/// The files of a list of entries.
spec fn entries_files(s: Seq<Entry>) -> Seq<PartitionedFileV> {
    s.map_values(|e: Entry| e.file@)
}

/// The input positions of a list of entries.
spec fn entries_idxs(s: Seq<Entry>) -> Seq<int> {
    s.map_values(|e: Entry| e.idx as int)
}

/// Whether a list of entries is sorted by the pair order.
spec fn entries_sorted(s: Seq<Entry>) -> bool {
    forall|a: int, b: int|
        0 <= a < b < s.len() ==> pair_lt(
            ranks_of(#[trigger] s[a].lower@),
            s[a].idx as int,
            ranks_of(#[trigger] s[b].lower@),
            s[b].idx as int,
        )
}

/// Compares two entries in the sort order.
fn pair_lt_exec(a: &Entry, b: &Entry) -> (r: bool)
    requires
        a.lower@.len() == b.lower@.len(),
    ensures
        r == pair_lt(ranks_of(a.lower@), a.idx as int, ranks_of(b.lower@), b.idx as int),
{
    if lex_lt_exec(&a.lower, &b.lower) {
        true
    } else if lex_lt_exec(&b.lower, &a.lower) {
        false
    } else {
        a.idx < b.idx
    }
}

/// The position a new entry takes to keep the list sorted: before the first
/// entry greater than it.
fn find_insert_pos(sorted: &Vec<Entry>, e: &Entry) -> (pos: usize)
    requires
        forall|t: int| 0 <= t < sorted@.len() ==> (#[trigger] sorted@[t]).lower@.len()
            == e.lower@.len(),
    ensures
        pos <= sorted@.len(),
        forall|t: int|
            0 <= t < pos ==> !pair_lt(
                ranks_of(e.lower@),
                e.idx as int,
                ranks_of(#[trigger] sorted@[t].lower@),
                sorted@[t].idx as int,
            ),
        pos < sorted@.len() ==> pair_lt(
            ranks_of(e.lower@),
            e.idx as int,
            ranks_of(sorted@[pos as int].lower@),
            sorted@[pos as int].idx as int,
        ),
{
    let mut pos: usize = 0;
    while pos < sorted.len()
        invariant
            pos <= sorted@.len(),
            forall|t: int| 0 <= t < sorted@.len() ==> (#[trigger] sorted@[t]).lower@.len()
                == e.lower@.len(),
            forall|t: int|
                0 <= t < pos ==> !pair_lt(
                    ranks_of(e.lower@),
                    e.idx as int,
                    ranks_of(#[trigger] sorted@[t].lower@),
                    sorted@[t].idx as int,
                ),
        decreases sorted@.len() - pos,
    {
        if pair_lt_exec(e, &sorted[pos]) {
            return pos;
        }
        pos = pos + 1;
    }
    pos
}

/// Sorts the files into ascending lower-bound order, ties broken by input
/// position, so the order is strict, total and stable.
fn sort_entries(keys: &Vec<SortKey>, flat: &Vec<PartitionedFile>, bounds: &Vec<Bounds>) -> (sorted:
    Vec<Entry>)
    requires
        bounds@.len() == flat@.len(),
        forall|i: int| 0 <= i < bounds@.len() ==> (#[trigger] bounds@[i]).lower@.len()
            == keys@.len() && bounds@[i].upper@.len() == keys@.len(),
        forall|i: int|
            0 <= i < bounds@.len() ==> ranks_of((#[trigger] bounds@[i]).lower@) == lower_ranks(
                keys@,
                flat@[i]@,
            ) && ranks_of(bounds@[i].upper@) == upper_ranks(keys@, flat@[i]@),
    ensures
        sorted@.len() == flat@.len(),
        forall|t: int|
            0 <= t < sorted@.len() ==> entry_wf(#[trigger] sorted@[t], keys@, files_view(flat@)),
        entries_sorted(sorted@),
        entries_files(sorted@).to_multiset() == files_view(flat@).to_multiset(),
        entries_idxs(sorted@).to_multiset() == Seq::new(flat@.len(), |i: int| i).to_multiset(),
{
    broadcast use vstd::seq_lib::group_to_multiset_ensures;

    let ghost flatv = files_view(flat@);
    let mut sorted: Vec<Entry> = Vec::new();
    let mut i: usize = 0;
    proof {
        assert(entries_files(sorted@) =~= Seq::<PartitionedFileV>::empty());
        assert(flatv.take(0) =~= Seq::<PartitionedFileV>::empty());
        assert(entries_idxs(sorted@) =~= Seq::<int>::empty());
        assert(Seq::new(0, |k: int| k) =~= Seq::<int>::empty());
    }
    while i < flat.len()
        invariant
            i <= flat.len(),
            flatv == files_view(flat@),
            bounds@.len() == flat@.len(),
            forall|t: int| 0 <= t < bounds@.len() ==> (#[trigger] bounds@[t]).lower@.len()
                == keys@.len() && bounds@[t].upper@.len() == keys@.len(),
            forall|t: int|
                0 <= t < bounds@.len() ==> ranks_of((#[trigger] bounds@[t]).lower@) == lower_ranks(
                    keys@,
                    flat@[t]@,
                ) && ranks_of(bounds@[t].upper@) == upper_ranks(keys@, flat@[t]@),
            sorted@.len() == i,
            forall|t: int| 0 <= t < i ==> entry_wf(#[trigger] sorted@[t], keys@, flatv),
            forall|t: int| 0 <= t < i ==> (#[trigger] sorted@[t]).idx < i,
            entries_sorted(sorted@),
            entries_files(sorted@).to_multiset() == flatv.take(i as int).to_multiset(),
            entries_idxs(sorted@).to_multiset() == Seq::new(i as nat, |k: int| k).to_multiset(),
        decreases flat.len() - i,
    {
        let e = Entry {
            idx: i,
            file: flat[i].clone(),
            lower: clone_ranks(&bounds[i].lower),
            upper: clone_ranks(&bounds[i].upper),
        };
        proof {
            assert(flatv[i as int] == flat@[i as int]@);
            assert(entry_wf(e, keys@, flatv));
        }
        let pos = find_insert_pos(&sorted, &e);
        let ghost olds = sorted@;
        let ghost ev = e;
        sorted.insert(pos, e);
        i = i + 1;
        proof {
            broadcast use vstd::seq_lib::group_to_multiset_ensures;

            olds.insert_ensures(pos as int, ev);
            assert(sorted@ == olds.insert(pos as int, ev));
            assert(sorted@.len() == olds.len() + 1);
            assert(sorted@[pos as int] == ev);
            // well-formedness and index bound carry over through the insert
            assert forall|t: int| 0 <= t < i implies entry_wf(#[trigger] sorted@[t], keys@, flatv)
                && sorted@[t].idx < i by {
                if t < pos {
                    assert(sorted@[t] == olds[t]);
                } else if t > pos {
                    assert(sorted@[t] == olds[t - 1]);
                }
            }
            // sortedness: every pair of the new list is ordered
            assert forall|a: int, b: int| 0 <= a < b < sorted@.len() implies pair_lt(
                ranks_of(#[trigger] sorted@[a].lower@),
                sorted@[a].idx as int,
                ranks_of(#[trigger] sorted@[b].lower@),
                sorted@[b].idx as int,
            ) by {
                let pa = if a < pos {
                    a
                } else {
                    a - 1
                };
                let pb = if b < pos {
                    b
                } else {
                    b - 1
                };
                if a < pos {
                    assert(sorted@[a] == olds[a]);
                }
                if a > pos {
                    assert(sorted@[a] == olds[a - 1]);
                }
                if b < pos {
                    assert(sorted@[b] == olds[b]);
                }
                if b > pos {
                    assert(sorted@[b] == olds[b - 1]);
                }
                if a == pos && b == pos {
                } else if a == pos {
                    // new entry against a later one
                    let lb = ranks_of(olds[pb].lower@);
                    if pb == pos {
                        assert(pair_lt(
                            ranks_of(ev.lower@),
                            ev.idx as int,
                            ranks_of(olds[pos as int].lower@),
                            olds[pos as int].idx as int,
                        ));
                    } else {
                        lemma_pair_trans(
                            ranks_of(ev.lower@),
                            ev.idx as int,
                            ranks_of(olds[pos as int].lower@),
                            olds[pos as int].idx as int,
                            lb,
                            olds[pb].idx as int,
                        );
                    }
                } else if b == pos {
                    // an earlier entry against the new one
                    lemma_pair_total(
                        ranks_of(ev.lower@),
                        ev.idx as int,
                        ranks_of(olds[pa].lower@),
                        olds[pa].idx as int,
                    );
                } else {
                    assert(pair_lt(
                        ranks_of(olds[pa].lower@),
                        olds[pa].idx as int,
                        ranks_of(olds[pb].lower@),
                        olds[pb].idx as int,
                    ));
                }
            }
            // multiset bookkeeping
            assert(entries_files(sorted@) =~= entries_files(olds).insert(pos as int, ev.file@));
            assert(entries_idxs(sorted@) =~= entries_idxs(olds).insert(pos as int, ev.idx as int));
            assert(flatv.take(i as int) =~= flatv.take(i - 1).push(flatv[i - 1]));
            assert(Seq::new(i as nat, |k: int| k) =~= Seq::new((i - 1) as nat, |k: int| k).push(
                i - 1,
            ));
            assert(entries_files(olds).insert(pos as int, ev.file@).to_multiset()
                == entries_files(olds).to_multiset().insert(ev.file@));
            assert(entries_idxs(olds).insert(pos as int, ev.idx as int).to_multiset()
                == entries_idxs(olds).to_multiset().insert(ev.idx as int));
            assert(flatv.take(i - 1).push(flatv[i - 1]).to_multiset() == flatv.take(
                i - 1,
            ).to_multiset().insert(flatv[i - 1]));
            assert(Seq::new((i - 1) as nat, |k: int| k).push(i - 1).to_multiset() == Seq::new(
                (i - 1) as nat,
                |k: int| k,
            ).to_multiset().insert(i - 1));
            assert(ev.file@ == flatv[i - 1]);
            assert(entries_files(sorted@).to_multiset() == flatv.take(i as int).to_multiset());
            assert(entries_idxs(sorted@).to_multiset() == Seq::new(
                i as nat,
                |k: int| k,
            ).to_multiset());
        }
    }
    proof {
        assert(flatv.take(flat@.len() as int) =~= flatv);
    }
    sorted
}

/// Whether consecutive files of a group are strictly ordered and
/// non-overlapping on the sort key.
pub open spec fn chain_ordered(keys: Seq<SortKey>, g: Seq<PartitionedFileV>) -> bool {
    forall|t: int| 0 <= t < g.len() - 1 ==> file_after(keys, #[trigger] g[t], g[t + 1])
}

/// Whether `ws` names distinct files of `flat` whose bound intervals all
/// contain the point `p`: such files pairwise overlap, so no two of them
/// can share a group.
pub open spec fn overlap_witness(
    keys: Seq<SortKey>,
    flat: Seq<PartitionedFileV>,
    ws: Seq<int>,
    p: Seq<int>,
) -> bool {
    &&& p.len() == keys.len()
    &&& forall|a: int, b: int| 0 <= a < b < ws.len() ==> ws[a] != ws[b]
    &&& forall|a: int| 0 <= a < ws.len() ==> 0 <= #[trigger] ws[a] < flat.len()
    &&& forall|a: int|
        0 <= a < ws.len() ==> lex_le(lower_ranks(keys, flat[#[trigger] ws[a]]), p) && lex_le(
            p,
            upper_ranks(keys, flat[ws[a]]),
        )
}

/// Whether `k` files of `flat` pairwise overlap on the sort key.
pub open spec fn has_overlap_witness(keys: Seq<SortKey>, flat: Seq<PartitionedFileV>, k: int) -> bool {
    exists|ws: Seq<int>, p: Seq<int>| ws.len() == k && overlap_witness(keys, flat, ws, p)
}

/// One group under construction: its files, the upper rank vector of its
/// last file, and the positions its files hold in the flattened input.
struct GroupBuild {
    files: Vec<PartitionedFile>,
    upper: Vec<i128>,
    idx: Ghost<Seq<int>>,
}

/// Well-formedness of a group under construction.
spec fn build_wf(gb: GroupBuild, keys: Seq<SortKey>, flat: Seq<PartitionedFileV>) -> bool {
    &&& gb.files@.len() == gb.idx@.len()
    &&& gb.files@.len() > 0
    &&& forall|t: int| 0 <= t < gb.idx@.len() ==> 0 <= #[trigger] gb.idx@[t] < flat.len()
    &&& forall|t: int| 0 <= t < gb.files@.len() ==> (#[trigger] gb.files@[t])@ == flat[gb.idx@[t]]
    &&& forall|t: int|
        0 <= t < gb.idx@.len() - 1 ==> file_after(
            keys,
            flat[#[trigger] gb.idx@[t]],
            flat[gb.idx@[t + 1]],
        )
    &&& gb.upper@.len() == keys.len()
    &&& ranks_of(gb.upper@) == upper_ranks(keys, flat[gb.idx@.last()])
}

/// The file groups of a list of groups under construction.
spec fn builds_files(bs: Seq<GroupBuild>) -> Seq<Seq<PartitionedFileV>> {
    bs.map_values(|gb: GroupBuild| files_view(gb.files@))
}

/// The position groups of a list of groups under construction.
spec fn builds_idxs(bs: Seq<GroupBuild>) -> Seq<Seq<int>> {
    bs.map_values(|gb: GroupBuild| gb.idx@)
}

/// The first group, in creation order, whose last file the new file can
/// follow: the one whose upper bound lies strictly below the new lower
/// bound.
fn find_first_fit(builds: &Vec<GroupBuild>, lower: &Vec<i128>) -> (r: Option<usize>)
    requires
        forall|g: int| 0 <= g < builds@.len() ==> (#[trigger] builds@[g]).upper@.len()
            == lower@.len(),
    ensures
        match r {
            Some(g) => g < builds@.len() && lex_lt(
                ranks_of(builds@[g as int].upper@),
                ranks_of(lower@),
            ) && forall|h: int|
                0 <= h < g ==> !lex_lt(ranks_of((#[trigger] builds@[h]).upper@), ranks_of(lower@)),
            None => forall|h: int|
                0 <= h < builds@.len() ==> !lex_lt(
                    ranks_of((#[trigger] builds@[h]).upper@),
                    ranks_of(lower@),
                ),
        },
{
    let mut g: usize = 0;
    while g < builds.len()
        invariant
            g <= builds@.len(),
            forall|h: int| 0 <= h < builds@.len() ==> (#[trigger] builds@[h]).upper@.len()
                == lower@.len(),
            forall|h: int|
                0 <= h < g ==> !lex_lt(ranks_of((#[trigger] builds@[h]).upper@), ranks_of(lower@)),
        decreases builds@.len() - g,
    {
        if lex_lt_exec(&builds[g].upper, lower) {
            return Some(g);
        }
        g = g + 1;
    }
    None
}

/// Packs sorted files first-fit into ordered, non-overlapping groups, and
/// exhibits as many pairwise-overlapping files as it opens groups.
#[verifier::rlimit(100)]
fn pack_sorted(
    keys: &Vec<SortKey>,
    Ghost(flatv): Ghost<Seq<PartitionedFileV>>,
    sorted: &Vec<Entry>,
) -> (groups: Vec<Vec<PartitionedFile>>)
    requires
        sorted@.len() > 0,
        sorted@.len() == flatv.len(),
        entries_sorted(sorted@),
        forall|t: int| 0 <= t < sorted@.len() ==> entry_wf(#[trigger] sorted@[t], keys@, flatv),
        forall|a: int, b: int|
            0 <= a < b < sorted@.len() ==> (#[trigger] sorted@[a]).idx != (
            #[trigger] sorted@[b]).idx,
        entries_files(sorted@).to_multiset() == flatv.to_multiset(),
        forall|i: int|
            0 <= i < flatv.len() ==> lex_le(
                lower_ranks(keys@, #[trigger] flatv[i]),
                upper_ranks(keys@, flatv[i]),
            ),
    ensures
        file_groups_view(groups@).flatten().to_multiset() == flatv.to_multiset(),
        forall|g: int|
            0 <= g < groups@.len() ==> chain_ordered(keys@, #[trigger] file_groups_view(groups@)[g])
                && file_groups_view(groups@)[g].len() > 0,
        groups@.len() >= 1,
        has_overlap_witness(keys@, flatv, groups@.len() as int),
{
    let ghost keysv = keys@;
    let n = sorted.len();
    let mut builds: Vec<GroupBuild> = Vec::new();
    let ghost mut ws: Seq<int> = Seq::empty();
    let ghost mut wp: Seq<int> = Seq::new(keysv.len(), |j: int| 0);
    let mut s: usize = 0;
    proof {
        assert(builds_files(builds@) =~= Seq::<Seq<PartitionedFileV>>::empty());
        assert(builds_idxs(builds@) =~= Seq::<Seq<int>>::empty());
        assert(entries_files(sorted@.take(0)) =~= Seq::<PartitionedFileV>::empty());
        assert(entries_idxs(sorted@.take(0)) =~= Seq::<int>::empty());
        assert(Seq::<Seq<PartitionedFileV>>::empty().flatten() =~= Seq::<
            PartitionedFileV,
        >::empty());
        assert(Seq::<Seq<int>>::empty().flatten() =~= Seq::<int>::empty());
    }
    while s < n
        invariant
            s <= n,
            n == sorted@.len(),
            n == flatv.len(),
            entries_sorted(sorted@),
            forall|t: int| 0 <= t < sorted@.len() ==> entry_wf(#[trigger] sorted@[t], keysv, flatv),
            forall|a: int, b: int|
                0 <= a < b < sorted@.len() ==> (#[trigger] sorted@[a]).idx != (
                #[trigger] sorted@[b]).idx,
            forall|i: int|
                0 <= i < flatv.len() ==> lex_le(
                    lower_ranks(keysv, #[trigger] flatv[i]),
                    upper_ranks(keysv, flatv[i]),
                ),
            keysv == keys@,
            forall|g: int| 0 <= g < builds@.len() ==> build_wf(#[trigger] builds@[g], keysv, flatv),
            builds_files(builds@).flatten().to_multiset() == entries_files(
                sorted@.take(s as int),
            ).to_multiset(),
            builds_idxs(builds@).flatten().to_multiset() == entries_idxs(
                sorted@.take(s as int),
            ).to_multiset(),
            forall|g: int, t: int|
                0 <= g < builds@.len() && 0 <= t < builds@[g].idx@.len() ==> exists|a: int|
                    0 <= a < s && sorted@[a].idx as int == #[trigger] builds@[g].idx@[t],
            forall|g1: int, t1: int, g2: int, t2: int|
                0 <= g1 < builds@.len() && 0 <= t1 < builds@[g1].idx@.len() && 0 <= g2
                    < builds@.len() && 0 <= t2 < builds@[g2].idx@.len() && (g1 != g2 || t1 != t2)
                    ==> (#[trigger] builds@[g1].idx@[t1]) != (#[trigger] builds@[g2].idx@[t2]),
            forall|g: int, t: int|
                #![trigger builds@[g], sorted@[t]]
                0 <= g < builds@.len() && s <= t < n ==> lex_le(
                    lower_ranks(keysv, flatv[builds@[g].idx@.last()]),
                    lower_ranks(keysv, sorted@[t].file@),
                ),
            ws.len() == builds@.len(),
            overlap_witness(keysv, flatv, ws, wp),
        decreases n - s,
    {
        let e = &sorted[s];
        proof {
            assert(entry_wf(sorted@[s as int], keysv, flatv));
        }
        let fit = find_first_fit(&builds, &e.lower);
        let ghost oldbuilds = builds@;
        match fit {
            Some(g) => {
                let mut gb = builds.remove(g);
                let ghost oldgb = oldbuilds[g as int];
                gb.files.push(e.file.clone());
                gb.upper = clone_ranks(&e.upper);
                gb.idx = Ghost(gb.idx@.push(sorted@[s as int].idx as int));
                let ghost newgb = gb;
                builds.insert(g, gb);
                proof {
                    broadcast use vstd::seq_lib::group_to_multiset_ensures;

                    let ev = sorted@[s as int];
                    assert(builds@ =~= oldbuilds.update(g as int, newgb));
                    // the extended group is well formed: the new file comes
                    // strictly after the old last file
                    assert(ranks_of(oldgb.upper@) == upper_ranks(
                        keysv,
                        flatv[oldgb.idx@.last()],
                    ));
                    assert(ranks_of(ev.lower@) == lower_ranks(keysv, flatv[ev.idx as int]));
                    assert(file_after(keysv, flatv[oldgb.idx@.last()], flatv[ev.idx as int]));
                    assert(newgb.idx@ == oldgb.idx@.push(ev.idx as int));
                    assert(newgb.files@.len() == oldgb.files@.len() + 1);
                    assert(newgb.files@[newgb.files@.len() - 1]@ == ev.file@);
                    assert(build_wf(newgb, keysv, flatv)) by {
                        assert(forall|t: int|
                            0 <= t < oldgb.idx@.len() ==> #[trigger] newgb.idx@[t]
                                == oldgb.idx@[t]);
                        assert(forall|t: int|
                            0 <= t < oldgb.files@.len() ==> #[trigger] newgb.files@[t]
                                == oldgb.files@[t]);
                        assert(newgb.idx@.last() == ev.idx as int);
                        assert(newgb.files@[newgb.files@.len() - 1]@ == flatv[ev.idx as int]);
                    }
                    assert(forall|h: int|
                        0 <= h < builds@.len() && h != g ==> #[trigger] builds@[h]
                            == oldbuilds[h]);
                    // multiset bookkeeping
                    assert(files_view(newgb.files@) =~= files_view(oldgb.files@).push(ev.file@));
                    assert(builds_files(builds@) =~= builds_files(oldbuilds).update(
                        g as int,
                        builds_files(oldbuilds)[g as int].push(ev.file@),
                    ));
                    assert(builds_idxs(builds@) =~= builds_idxs(oldbuilds).update(
                        g as int,
                        builds_idxs(oldbuilds)[g as int].push(ev.idx as int),
                    ));
                    lemma_flatten_multiset_update_push(builds_files(oldbuilds), g as int, ev.file@);
                    lemma_flatten_multiset_update_push(
                        builds_idxs(oldbuilds),
                        g as int,
                        ev.idx as int,
                    );
                    assert(sorted@.take(s + 1) =~= sorted@.take(s as int).push(ev));
                    assert(entries_files(sorted@.take(s + 1)) =~= entries_files(
                        sorted@.take(s as int),
                    ).push(ev.file@));
                    assert(entries_idxs(sorted@.take(s + 1)) =~= entries_idxs(
                        sorted@.take(s as int),
                    ).push(ev.idx as int));
                    // the new position is fresh: it belongs to no group yet
                    assert forall|h: int, t: int|
                        0 <= h < oldbuilds.len() && 0 <= t < oldbuilds[h].idx@.len() implies (
                        #[trigger] oldbuilds[h].idx@[t]) != ev.idx as int by {
                        let a = choose|a: int|
                            0 <= a < s && sorted@[a].idx as int == oldbuilds[h].idx@[t];
                        assert(sorted@[a].idx != sorted@[s as int].idx);
                    }
                }
            },
            None => {
                let mut files: Vec<PartitionedFile> = Vec::new();
                files.push(e.file.clone());
                let gb = GroupBuild {
                    files,
                    upper: clone_ranks(&e.upper),
                    idx: Ghost(Seq::<int>::empty().push(sorted@[s as int].idx as int)),
                };
                let ghost newgb = gb;
                builds.push(gb);
                proof {
                    broadcast use vstd::seq_lib::group_to_multiset_ensures;

                    let ev = sorted@[s as int];
                    assert(builds@ =~= oldbuilds.push(newgb));
                    assert(newgb.idx@ =~= seq![ev.idx as int]);
                    assert(newgb.idx@.last() == ev.idx as int);
                    assert(newgb.files@[0]@ == flatv[ev.idx as int]);
                    assert(build_wf(newgb, keysv, flatv));
                    assert(forall|h: int|
                        0 <= h < oldbuilds.len() ==> #[trigger] builds@[h] == oldbuilds[h]);
                    // multiset bookkeeping
                    assert(files_view(newgb.files@) =~= seq![ev.file@]);
                    assert(builds_files(builds@) =~= builds_files(oldbuilds).push(
                        seq![ev.file@],
                    ));
                    assert(builds_idxs(builds@) =~= builds_idxs(oldbuilds).push(
                        seq![ev.idx as int],
                    ));
                    lemma_flatten_multiset_push_singleton(builds_files(oldbuilds), ev.file@);
                    lemma_flatten_multiset_push_singleton(builds_idxs(oldbuilds), ev.idx as int);
                    assert(sorted@.take(s + 1) =~= sorted@.take(s as int).push(ev));
                    assert(entries_files(sorted@.take(s + 1)) =~= entries_files(
                        sorted@.take(s as int),
                    ).push(ev.file@));
                    assert(entries_idxs(sorted@.take(s + 1)) =~= entries_idxs(
                        sorted@.take(s as int),
                    ).push(ev.idx as int));
                    // the new position is fresh
                    assert forall|h: int, t: int|
                        0 <= h < oldbuilds.len() && 0 <= t < oldbuilds[h].idx@.len() implies (
                        #[trigger] oldbuilds[h].idx@[t]) != ev.idx as int by {
                        let a = choose|a: int|
                            0 <= a < s && sorted@[a].idx as int == oldbuilds[h].idx@[t];
                        assert(sorted@[a].idx != sorted@[s as int].idx);
                    }
                    // rebuild the witness: the last file of every old group
                    // and the new file all contain the new file's lower
                    // bound
                    let p = ranks_of(ev.lower@);
                    let nws = Seq::new(
                        oldbuilds.len() + 1,
                        |a: int|
                            if a < oldbuilds.len() {
                                oldbuilds[a].idx@.last()
                            } else {
                                ev.idx as int
                            },
                    );
                    assert forall|a: int| 0 <= a < nws.len() implies 0 <= #[trigger] nws[a]
                        < flatv.len() && lex_le(lower_ranks(keysv, flatv[nws[a]]), p) && lex_le(
                        p,
                        upper_ranks(keysv, flatv[nws[a]]),
                    ) by {
                        if a < oldbuilds.len() {
                            let w = oldbuilds[a].idx@.last();
                            assert(build_wf(oldbuilds[a], keysv, flatv));
                            assert(0 <= w < flatv.len());
                            // the progression invariant at the current entry
                            assert(lex_le(
                                lower_ranks(keysv, flatv[oldbuilds[a].idx@.last()]),
                                lower_ranks(keysv, sorted@[s as int].file@),
                            ));
                            assert(lower_ranks(keysv, sorted@[s as int].file@) == p);
                            // the first-fit scan found no fitting group
                            assert(!lex_lt(ranks_of(oldbuilds[a].upper@), ranks_of(ev.lower@)));
                            assert(ranks_of(oldbuilds[a].upper@) == upper_ranks(
                                keysv,
                                flatv[w],
                            ));
                        } else {
                            assert(nws[a] == ev.idx as int);
                            assert(p == lower_ranks(keysv, flatv[ev.idx as int]));
                            lemma_lex_irrefl(p);
                            assert(lex_le(
                                lower_ranks(keysv, flatv[ev.idx as int]),
                                upper_ranks(keysv, flatv[ev.idx as int]),
                            ));
                        }
                    }
                    assert forall|a: int, b: int| 0 <= a < b < nws.len() implies nws[a]
                        != nws[b] by {
                        if b < oldbuilds.len() {
                            assert(oldbuilds[a].idx@.last() != oldbuilds[b].idx@.last());
                        }
                    }
                    ws = nws;
                    wp = p;
                    assert(overlap_witness(keysv, flatv, ws, wp));
                }
            },
        }
        s = s + 1;
        proof {
            // the lower bound of every group's last file stays below the
            // lower bound of every entry still to come
            assert forall|g: int, t: int|
                #![trigger builds@[g], sorted@[t]]
                0 <= g < builds@.len() && s <= t < n implies lex_le(
                lower_ranks(keysv, flatv[builds@[g].idx@.last()]),
                lower_ranks(keysv, sorted@[t].file@),
            ) by {
                let ev = sorted@[s - 1];
                if builds@[g].idx@.last() == ev.idx as int {
                    // the group that just received the current entry
                    assert(pair_lt(
                        ranks_of(sorted@[s - 1].lower@),
                        sorted@[s - 1].idx as int,
                        ranks_of(sorted@[t].lower@),
                        sorted@[t].idx as int,
                    ));
                    lemma_pair_lt_implies_le(
                        ranks_of(sorted@[s - 1].lower@),
                        sorted@[s - 1].idx as int,
                        ranks_of(sorted@[t].lower@),
                        sorted@[t].idx as int,
                    );
                    assert(ranks_of(sorted@[s - 1].lower@) == lower_ranks(keysv, flatv[ev.idx as int]));
                }
            }
        }
    }
    // assemble the groups in creation order
    let ghost allb = builds@;
    proof {
        assert(sorted@.take(n as int) =~= sorted@);
        // at least one group exists, because at least one file was packed
        broadcast use vstd::seq_lib::group_to_multiset_ensures;

        assert(entries_files(sorted@).to_multiset().len() == n);
        if builds@.len() == 0 {
            assert(builds_files(builds@) =~= Seq::<Seq<PartitionedFileV>>::empty());
            assert(Seq::<Seq<PartitionedFileV>>::empty().flatten() =~= Seq::<
                PartitionedFileV,
            >::empty());
        }
    }
    let mut groups: Vec<Vec<PartitionedFile>> = Vec::new();
    while builds.len() > 0
        invariant
            builds@ =~= allb.skip(groups@.len() as int),
            groups@.len() <= allb.len(),
            file_groups_view(groups@) =~= builds_files(allb).take(groups@.len() as int),
        decreases builds@.len(),
    {
        let ghost k = groups@.len() as int;
        let gb = builds.remove(0);
        proof {
            assert(gb == allb[k]);
            assert(allb.skip(k).remove(0) =~= allb.skip(k + 1));
        }
        groups.push(gb.files);
        proof {
            assert(file_groups_view(groups@) =~= builds_files(allb).take(k + 1));
        }
    }
    proof {
        assert(groups@.len() == allb.len());
        assert(file_groups_view(groups@) =~= builds_files(allb));
        let gv = file_groups_view(groups@);
        assert(gv.flatten().to_multiset() == flatv.to_multiset());
        assert forall|g: int| 0 <= g < gv.len() implies chain_ordered(keysv, #[trigger] gv[g])
            && gv[g].len() > 0 by {
            assert(build_wf(allb[g], keysv, flatv));
            let gf = gv[g];
            assert(gf == files_view(allb[g].files@));
            assert forall|t: int| 0 <= t < gf.len() - 1 implies file_after(
                keysv,
                #[trigger] gf[t],
                gf[t + 1],
            ) by {
                assert(gf[t] == allb[g].files@[t]@);
                assert(gf[t + 1] == allb[g].files@[t + 1]@);
                assert(gf[t] == flatv[allb[g].idx@[t]]);
                assert(gf[t + 1] == flatv[allb[g].idx@[t + 1]]);
            }
        }
        assert(ws.len() == gv.len() && overlap_witness(keysv, flatv, ws, wp));
        assert(has_overlap_witness(keysv, flatv, gv.len() as int));
    }
    groups
}

/// Whether `cover` is a chain decomposition of the files of `flat`: every
/// input position appears exactly once across the groups, and consecutive
/// files of each group are strictly ordered and non-overlapping.
pub open spec fn is_chain_cover(
    keys: Seq<SortKey>,
    flat: Seq<PartitionedFileV>,
    cover: Seq<Seq<int>>,
) -> bool {
    &&& cover.flatten().to_multiset() == Seq::new(flat.len(), |i: int| i).to_multiset()
    &&& forall|g: int, t: int|
        0 <= g < cover.len() && 0 <= t < cover[g].len() ==> 0 <= #[trigger] cover[g][t]
            < flat.len()
    &&& forall|g: int, t: int|
        0 <= g < cover.len() && 0 <= t < cover[g].len() - 1 ==> file_after(
            keys,
            flat[#[trigger] cover[g][t]],
            flat[cover[g][t + 1]],
        )
}

/// An element of a flattened grouping sits at some position of some group.
proof fn lemma_flatten_position<T>(gs: Seq<Seq<T>>, x: T)
    requires
        gs.flatten().contains(x),
    ensures
        exists|g: int, t: int| 0 <= g < gs.len() && 0 <= t < gs[g].len() && #[trigger] gs[g][t]
            == x,
    decreases gs.len(),
{
    assert(gs.len() > 0);
    assert(gs.flatten() == gs.first() + gs.drop_first().flatten());
    if gs.first().contains(x) {
        let t = choose|t: int| 0 <= t < gs.first().len() && gs.first()[t] == x;
        assert(gs[0][t] == x);
    } else {
        assert forall|k: int| 0 <= k < gs.flatten().len() && gs.flatten()[k] == x implies k
            >= gs.first().len() by {
            if k < gs.first().len() {
                assert(gs.first()[k] == x);
            }
        }
        let k = choose|k: int| 0 <= k < gs.flatten().len() && gs.flatten()[k] == x;
        assert(gs.drop_first().flatten()[k - gs.first().len()] == x);
        assert(gs.drop_first().flatten().contains(x));
        lemma_flatten_position(gs.drop_first(), x);
        let (g, t) = choose|g: int, t: int|
            0 <= g < gs.drop_first().len() && 0 <= t < gs.drop_first()[g].len()
                && #[trigger] gs.drop_first()[g][t] == x;
        assert(gs[g + 1][t] == x);
    }
}

/// Two files whose bound intervals contain a common point cannot follow one
/// another in scan order.
proof fn lemma_overlap_not_after(
    keys: Seq<SortKey>,
    f1: PartitionedFileV,
    f2: PartitionedFileV,
    p: Seq<int>,
)
    requires
        p.len() == keys.len(),
        lex_le(lower_ranks(keys, f1), p),
        lex_le(p, upper_ranks(keys, f1)),
        lex_le(lower_ranks(keys, f2), p),
        lex_le(p, upper_ranks(keys, f2)),
    ensures
        !file_after(keys, f1, f2),
{
    if file_after(keys, f1, f2) {
        let u1 = upper_ranks(keys, f1);
        let l2 = lower_ranks(keys, f2);
        lemma_lex_connex(l2, p);
        if lex_lt(l2, p) {
            lemma_lex_trans(u1, l2, p);
        } else {
            assert(l2 =~= p);
        }
        assert(lex_lt(u1, p));
        assert(!lex_le(p, u1));
        assert(false);
    }
}

/// Within a chain, any later file comes strictly after any earlier one.
proof fn lemma_chain_pairwise(
    keys: Seq<SortKey>,
    flat: Seq<PartitionedFileV>,
    chain: Seq<int>,
    t1: int,
    t2: int,
)
    requires
        forall|t: int| 0 <= t < chain.len() ==> 0 <= #[trigger] chain[t] < flat.len(),
        forall|t: int|
            0 <= t < chain.len() - 1 ==> file_after(
                keys,
                flat[#[trigger] chain[t]],
                flat[chain[t + 1]],
            ),
        forall|i: int|
            0 <= i < flat.len() ==> lex_le(
                lower_ranks(keys, #[trigger] flat[i]),
                upper_ranks(keys, flat[i]),
            ),
        0 <= t1 < t2 < chain.len(),
    ensures
        file_after(keys, flat[chain[t1]], flat[chain[t2]]),
    decreases t2 - t1,
{
    if t2 == t1 + 1 {
    } else {
        lemma_chain_pairwise(keys, flat, chain, t1, t2 - 1);
        let u1 = upper_ranks(keys, flat[chain[t1]]);
        let lm = lower_ranks(keys, flat[chain[t2 - 1]]);
        let um = upper_ranks(keys, flat[chain[t2 - 1]]);
        let l2 = lower_ranks(keys, flat[chain[t2]]);
        assert(lex_lt(u1, lm));
        assert(lex_lt(um, l2));
        assert(lex_le(lm, um));
        lemma_lex_connex(lm, um);
        if lex_lt(lm, um) {
            lemma_lex_trans(u1, lm, um);
        } else {
            assert(lm =~= um);
        }
        assert(lex_lt(u1, um));
        lemma_lex_trans(u1, um, l2);
    }
}

/// A list of pairwise-distinct integers drawn from `[0, n)` has at most `n`
/// elements.
proof fn lemma_distinct_in_range(s: Seq<int>, n: int)
    requires
        forall|a: int, b: int| 0 <= a < b < s.len() ==> s[a] != s[b],
        forall|a: int| 0 <= a < s.len() ==> 0 <= #[trigger] s[a] < n,
        n >= 0,
    ensures
        s.len() <= n,
{
    broadcast use vstd::seq_lib::seq_to_set_is_finite;

    assert(s.no_duplicates());
    s.unique_seq_to_set();
    assert(s.to_set().len() == s.len());
    assert(s.to_set().subset_of(vstd::set_lib::set_int_range(0, n)));
    vstd::set_lib::lemma_int_range(0, n);
    vstd::set_lib::lemma_len_subset(s.to_set(), vstd::set_lib::set_int_range(0, n));
}

/// Minimality of the packing: a set of pairwise-overlapping files — such as
/// the one [`FileScanConfig::split_groups_by_statistics`] exhibits for its
/// own group count — bounds from below the number of groups in any chain
/// decomposition of the same files. No regrouping that keeps every group
/// ordered and non-overlapping can use fewer groups than the witness has
/// files, so the packer's group count is the minimum.
///
/// [`FileScanConfig::split_groups_by_statistics`]: crate::config::FileScanConfig::split_groups_by_statistics
pub proof fn lemma_chain_cover_at_least_witness(
    keys: Seq<SortKey>,
    flat: Seq<PartitionedFileV>,
    ws: Seq<int>,
    p: Seq<int>,
    cover: Seq<Seq<int>>,
)
    requires
        overlap_witness(keys, flat, ws, p),
        is_chain_cover(keys, flat, cover),
        forall|i: int|
            0 <= i < flat.len() ==> lex_le(
                lower_ranks(keys, #[trigger] flat[i]),
                upper_ranks(keys, flat[i]),
            ),
    ensures
        cover.len() >= ws.len(),
{
    broadcast use vstd::seq_lib::group_to_multiset_ensures;

    let iota = Seq::new(flat.len(), |i: int| i);
    // every witness position occurs somewhere in the cover
    assert forall|a: int| #![trigger ws[a]] 0 <= a < ws.len() implies exists|g: int, t: int|
        0 <= g < cover.len() && 0 <= t < cover[g].len() && #[trigger] cover[g][t] == ws[a] by {
        assert(iota[ws[a]] == ws[a]);
        assert(iota.contains(ws[a]));
        assert(iota.to_multiset().contains(ws[a]));
        assert(cover.flatten().to_multiset().contains(ws[a]));
        assert(cover.flatten().contains(ws[a]));
        lemma_flatten_position(cover, ws[a]);
    }
    // map each witness to the group holding it
    let gmap = Seq::new(
        ws.len(),
        |a: int|
            choose|g: int, t: int|
                0 <= g < cover.len() && 0 <= t < cover[g].len() && #[trigger] cover[g][t]
                    == ws[a],
    );
    assert forall|a: int| 0 <= a < ws.len() implies 0 <= #[trigger] gmap[a].0 < cover.len() by {
        let (g, t) = choose|g: int, t: int|
            0 <= g < cover.len() && 0 <= t < cover[g].len() && #[trigger] cover[g][t] == ws[a];
        assert(gmap[a] == (g, t));
    }
    // no group holds two witnesses: they overlap, chained files do not
    assert forall|a: int, b: int| 0 <= a < b < ws.len() implies gmap[a].0 != gmap[b].0 by {
        let (ga, ta) = choose|g: int, t: int|
            0 <= g < cover.len() && 0 <= t < cover[g].len() && #[trigger] cover[g][t] == ws[a];
        let (gb, tb) = choose|g: int, t: int|
            0 <= g < cover.len() && 0 <= t < cover[g].len() && #[trigger] cover[g][t] == ws[b];
        assert(gmap[a] == (ga, ta));
        assert(gmap[b] == (gb, tb));
        if ga == gb {
            let chain = cover[ga];
            assert(chain[ta] == ws[a]);
            assert(chain[tb] == ws[b]);
            assert(ta != tb);
            assert forall|t: int| 0 <= t < chain.len() implies 0 <= #[trigger] chain[t]
                < flat.len() by {
                assert(cover[ga][t] == chain[t]);
            }
            assert forall|t: int| 0 <= t < chain.len() - 1 implies file_after(
                keys,
                flat[#[trigger] chain[t]],
                flat[chain[t + 1]],
            ) by {
                assert(cover[ga][t] == chain[t]);
                assert(cover[ga][t + 1] == chain[t + 1]);
            }
            if ta < tb {
                lemma_chain_pairwise(keys, flat, chain, ta, tb);
                lemma_overlap_not_after(keys, flat[ws[a]], flat[ws[b]], p);
            } else {
                lemma_chain_pairwise(keys, flat, chain, tb, ta);
                lemma_overlap_not_after(keys, flat[ws[b]], flat[ws[a]], p);
            }
        }
    }
    let gseq = Seq::new(ws.len(), |a: int| gmap[a].0);
    lemma_distinct_in_range(gseq, cover.len() as int);
}

/// Minimality of the packing, applied to the packer's own witness: when
/// `k` files of `flat` pairwise overlap — as
/// [`FileScanConfig::split_groups_by_statistics`] ensures for its own group
/// count — every chain decomposition of `flat` needs at least `k` groups.
///
/// [`FileScanConfig::split_groups_by_statistics`]: crate::config::FileScanConfig::split_groups_by_statistics
pub proof fn lemma_packing_minimal(
    keys: Seq<SortKey>,
    flat: Seq<PartitionedFileV>,
    k: int,
    cover: Seq<Seq<int>>,
)
    requires
        has_overlap_witness(keys, flat, k),
        is_chain_cover(keys, flat, cover),
        forall|i: int|
            0 <= i < flat.len() ==> lex_le(
                lower_ranks(keys, #[trigger] flat[i]),
                upper_ranks(keys, flat[i]),
            ),
    ensures
        cover.len() >= k,
{
    let (ws, p) = choose|ws: Seq<int>, p: Seq<int>|
        ws.len() == k && overlap_witness(keys, flat, ws, p);
    lemma_chain_cover_at_least_witness(keys, flat, ws, p, cover);
}

/// Flattens the groups into one file list, in listed order.
fn flatten_groups(file_groups: &Vec<Vec<PartitionedFile>>) -> (flat: Vec<PartitionedFile>)
    ensures
        files_view(flat@) == file_groups_view(file_groups@).flatten(),
{
    let ghost gv = file_groups_view(file_groups@);
    let mut flat: Vec<PartitionedFile> = Vec::new();
    let mut g: usize = 0;
    proof {
        assert(gv.take(0) =~= Seq::<Seq<PartitionedFileV>>::empty());
        assert(Seq::<Seq<PartitionedFileV>>::empty().flatten() =~= Seq::<
            PartitionedFileV,
        >::empty());
        assert(files_view(flat@) =~= Seq::<PartitionedFileV>::empty());
    }
    while g < file_groups.len()
        invariant
            g <= file_groups.len(),
            gv == file_groups_view(file_groups@),
            files_view(flat@) =~= gv.take(g as int).flatten(),
        decreases file_groups.len() - g,
    {
        let group = &file_groups[g];
        proof {
            assert(gv[g as int] == files_view(group@));
        }
        let mut t: usize = 0;
        while t < group.len()
            invariant
                t <= group.len(),
                g < file_groups.len(),
                gv == file_groups_view(file_groups@),
                gv[g as int] == files_view(group@),
                files_view(flat@) =~= gv.take(g as int).flatten() + files_view(group@).take(
                    t as int,
                ),
            decreases group.len() - t,
        {
            flat.push(group[t].clone());
            t = t + 1;
            proof {
                let pre = gv.take(g as int).flatten();
                let gviews = files_view(group@);
                assert(gviews.take(t as int) =~= gviews.take(t - 1).push(group@[t - 1]@));
                assert(files_view(flat@) =~= (pre + gviews.take(t - 1)).push(group@[t - 1]@));
                assert((pre + gviews.take(t - 1)).push(group@[t - 1]@) =~= pre + gviews.take(
                    t - 1,
                ).push(group@[t - 1]@));
                assert(files_view(flat@) =~= pre + gviews.take(t as int));
            }
        }
        g = g + 1;
        proof {
            broadcast use Seq::lemma_flatten_push;

            assert(files_view(group@).take(group@.len() as int) =~= files_view(group@));
            assert(gv.take(g as int) =~= gv.take(g - 1).push(gv[g - 1]));
            assert(gv.take(g - 1).push(gv[g - 1]).flatten() =~= gv.take(g - 1).flatten() + gv[g
                - 1]);
            assert(files_view(flat@) =~= gv.take(g as int).flatten());
        }
    }
    proof {
        assert(gv.take(file_groups@.len() as int) =~= gv);
    }
    flat
}

impl crate::config::FileScanConfig {
    /// Regroups the files of `file_groups` into the minimum number of
    /// groups whose files are totally ordered and pairwise non-overlapping
    /// on `sort_order`, judged by each file's min/max statistics.
    ///
    /// The result is complete — the multiset of files is preserved — and
    /// every group is a chain under the sort order. Minimality is witnessed
    /// by as many pairwise-overlapping input files as there are output
    /// groups; [`lemma_packing_minimal`] turns that witness into a lower
    /// bound on the group count of any alternative chain decomposition.
    ///
    /// An empty input yields an empty output. Otherwise the call fails,
    /// naming the offending column, if a sort key addresses a column
    /// outside the table schema or a nullable column, or if some file lacks
    /// usable bounds for a sort column.
    pub fn split_groups_by_statistics(
        table_schema: &Schema,
        file_groups: &Vec<Vec<PartitionedFile>>,
        sort_order: &crate::sort::LexOrdering,
    ) -> (r: Result<Vec<Vec<PartitionedFile>>, ScanError>)
        ensures
            ({
                let schema = table_schema@;
                let keys = sort_order@;
                let flat = file_groups_view(file_groups@).flatten();
                &&& (flat.len() == 0 ==> (r matches Ok(g) && g@.len() == 0))
                &&& (flat.len() > 0 && keys_error(schema, keys) is Some ==> (r matches Err(e) && e
                    == keys_error(schema, keys)->Some_0))
                &&& (flat.len() > 0 && keys_error(schema, keys) is None && stats_error(
                    schema,
                    keys,
                    flat,
                ) is Some ==> (r matches Err(e) && e == stats_error(schema, keys, flat)->Some_0))
                &&& (flat.len() > 0 && keys_error(schema, keys) is None && stats_error(
                    schema,
                    keys,
                    flat,
                ) is None ==> (r matches Ok(groups) && {
                    let gv = file_groups_view(groups@);
                    &&& gv.flatten().to_multiset() == flat.to_multiset()
                    &&& forall|g: int|
                        0 <= g < gv.len() ==> chain_ordered(keys, #[trigger] gv[g]) && gv[g].len()
                            > 0
                    &&& gv.len() >= 1
                    &&& has_overlap_witness(keys, flat, gv.len() as int)
                    &&& forall|i: int|
                        0 <= i < flat.len() ==> usable_file(schema, keys, #[trigger] flat[i])
                    &&& forall|i: int|
                        0 <= i < flat.len() ==> lex_le(
                            lower_ranks(keys, #[trigger] flat[i]),
                            upper_ranks(keys, flat[i]),
                        )
                }))
            }),
    {
        let ghost schema = table_schema@;
        let ghost keysv = sort_order@;
        let flat = flatten_groups(file_groups);
        let ghost flatv = files_view(flat@);
        if flat.len() == 0 {
            return Ok(Vec::new());
        }
        match validate_keys(table_schema, &sort_order.keys) {
            Some(e) => {
                return Err(e);
            },
            None => {},
        }
        match check_stats(table_schema, &sort_order.keys, &flat) {
            Some(e) => {
                return Err(e);
            },
            None => {},
        }
        proof {
            lemma_stats_ok_all_usable(schema, keysv, flatv);
        }
        let mut bounds: Vec<Bounds> = Vec::new();
        let mut i: usize = 0;
        while i < flat.len()
            invariant
                i <= flat.len(),
                flatv == files_view(flat@),
                keysv == sort_order@,
                schema == table_schema@,
                forall|t: int, j: int|
                    0 <= t < flatv.len() && 0 <= j < keysv.len() ==> #[trigger] usable_file_at(
                        schema,
                        keysv[j],
                        flatv[t],
                    ),
                bounds@.len() == i,
                forall|t: int| 0 <= t < i ==> (#[trigger] bounds@[t]).lower@.len() == keysv.len()
                    && bounds@[t].upper@.len() == keysv.len(),
                forall|t: int|
                    0 <= t < i ==> ranks_of((#[trigger] bounds@[t]).lower@) == lower_ranks(
                        keysv,
                        flat@[t]@,
                    ) && ranks_of(bounds@[t].upper@) == upper_ranks(keysv, flat@[t]@),
            decreases flat.len() - i,
        {
            proof {
                assert(flatv[i as int] == flat@[i as int]@);
                assert forall|j: int| 0 <= j < keysv.len() implies usable_file_at(
                    schema,
                    #[trigger] keysv[j],
                    flat@[i as int]@,
                ) by {
                    assert(usable_file_at(schema, keysv[j], flatv[i as int]));
                }
            }
            let b = file_bounds(table_schema, &sort_order.keys, &flat[i]);
            bounds.push(b);
            i = i + 1;
        }
        let sorted = sort_entries(&sort_order.keys, &flat, &bounds);
        proof {
            // positions are pairwise distinct, as the sorted positions form
            // the multiset of all input positions
            broadcast use vstd::seq_lib::group_to_multiset_ensures;

            let iota = Seq::new(flatv.len(), |k: int| k);
            assert(iota.no_duplicates());
            iota.lemma_multiset_has_no_duplicates();
            entries_idxs(sorted@).lemma_multiset_has_no_duplicates_conv();
            assert(entries_idxs(sorted@).no_duplicates());
            assert forall|a: int, b: int|
                0 <= a < b < sorted@.len() implies (#[trigger] sorted@[a]).idx != (
            #[trigger] sorted@[b]).idx by {
                assert(entries_idxs(sorted@)[a] == sorted@[a].idx as int);
                assert(entries_idxs(sorted@)[b] == sorted@[b].idx as int);
            }
            // every file's lower bound lies at or below its upper bound
            assert forall|t: int| 0 <= t < flatv.len() implies lex_le(
                lower_ranks(keysv, #[trigger] flatv[t]),
                upper_ranks(keysv, flatv[t]),
            ) by {
                assert(usable_file(schema, keysv, flatv[t]));
                lemma_usable_lower_le_upper(schema, keysv, flatv[t]);
            }
        }
        let groups = pack_sorted(&sort_order.keys, Ghost(flatv), &sorted);
        Ok(groups)
    }
}

/// Copies a rank vector.
fn clone_ranks(v: &Vec<i128>) -> (r: Vec<i128>)
    ensures
        r@ == v@,
{
    let mut r: Vec<i128> = Vec::new();
    let mut i: usize = 0;
    while i < v.len()
        invariant
            i <= v.len(),
            r@ =~= v@.take(i as int),
        decreases v.len() - i,
    {
        r.push(v[i]);
        i = i + 1;
    }
    proof {
        assert(r@ =~= v@);
    }
    r
}

} // verus!
