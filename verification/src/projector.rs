//! The partition column projector: reconstitutes constant partition-derived
//! columns into decoded record batches, reusing a destination mapping
//! computed once per projected schema.

use vstd::prelude::*;
use crate::error::ScanError;
use crate::scalar::{DataType, ScalarValue};
use crate::schema::{Schema, SchemaV};

verus! {

/// The mathematical value of a [`RecordBatch`].
#[verifier::ext_equal]
pub struct RecordBatchV {
    pub schema: SchemaV,
    pub columns: Seq<Seq<ScalarValue>>,
}

/// A decoded batch of rows: a schema and one value column per field.
#[derive(Debug, PartialEq, Eq)]
pub struct RecordBatch {
    pub schema: Schema,
    pub columns: Vec<Vec<ScalarValue>>,
}

/// The per-column value sequences of a list of columns.
pub open spec fn columns_view(s: Seq<Vec<ScalarValue>>) -> Seq<Seq<ScalarValue>> {
    s.map_values(|c: Vec<ScalarValue>| c@)
}

impl View for RecordBatch {
    type V = RecordBatchV;

    open spec fn view(&self) -> RecordBatchV {
        RecordBatchV { schema: self.schema@, columns: columns_view(self.columns@) }
    }
}

/// The number of rows of a batch: the length of its first column, or zero
/// when it has no columns.
pub open spec fn batch_rows(b: RecordBatchV) -> int {
    if b.columns.len() == 0 {
        0
    } else {
        b.columns[0].len() as int
    }
}

/// Whether a batch is well formed: one column per schema field, all columns
/// equally long.
pub open spec fn batch_wf(b: RecordBatchV) -> bool {
    &&& b.columns.len() == b.schema.fields.len()
    &&& forall|c: int| 0 <= c < b.columns.len() ==> (#[trigger] b.columns[c]).len() == batch_rows(b)
}

impl RecordBatch {
    /// A batch over the given schema and columns. Fails when the column
    /// count does not match the schema, or when the columns differ in
    /// length.
    pub fn try_new(schema: Schema, columns: Vec<Vec<ScalarValue>>) -> (r: Result<
        RecordBatch,
        ScanError,
    >)
        ensures
            ({
                let b = RecordBatchV { schema: schema@, columns: columns_view(columns@) };
                if batch_wf(b) {
                    r matches Ok(out) && out@ == b
                } else {
                    r is Err
                }
            }),
    {
        let ghost bv = RecordBatchV { schema: schema@, columns: columns_view(columns@) };
        if columns.len() != schema.num_fields() {
            return Err(
                ScanError::UnexpectedBatchColumns {
                    expected: schema.num_fields(),
                    actual: columns.len(),
                },
            );
        }
        let rows: usize = if columns.len() == 0 {
            0
        } else {
            columns[0].len()
        };
        let mut c: usize = 0;
        while c < columns.len()
            invariant
                c <= columns.len(),
                bv == (RecordBatchV { schema: schema@, columns: columns_view(columns@) }),
                rows as int == batch_rows(bv),
                forall|t: int| 0 <= t < c ==> (#[trigger] bv.columns[t]).len() == rows,
            decreases columns.len() - c,
        {
            if columns[c].len() != rows {
                proof {
                    assert(bv.columns[c as int].len() != batch_rows(bv));
                    assert(!batch_wf(bv));
                }
                return Err(
                    ScanError::UnexpectedBatchColumns { expected: rows, actual: columns[c].len() },
                );
            }
            c = c + 1;
        }
        let out = RecordBatch { schema, columns };
        proof {
            assert(out@ =~= bv);
            assert(batch_wf(bv));
        }
        Ok(out)
    }

    /// The number of rows.
    pub fn num_rows(&self) -> (r: usize)
        ensures
            r as int == batch_rows(self@),
    {
        if self.columns.len() == 0 {
            0
        } else {
            self.columns[0].len()
        }
    }

    /// The number of columns.
    pub fn num_columns(&self) -> (r: usize)
        ensures
            r == self@.columns.len(),
    {
        self.columns.len()
    }

    /// The values of one column.
    pub fn column(&self, i: usize) -> (r: &Vec<ScalarValue>)
        requires
            i < self@.columns.len(),
        ensures
            r@ == self@.columns[i as int],
    {
        &self.columns[i]
    }
}

/// The first position in `names` holding the same characters as `name`;
/// meaningful only when one does.
pub open spec fn name_pos(names: Seq<String>, name: String) -> int
    decreases names.len(),
{
    if names.len() == 0 {
        0
    } else if names.first()@ == name@ {
        0
    } else {
        1 + name_pos(names.drop_first(), name)
    }
}

/// Whether some entry of `names` holds the same characters as `name`.
pub open spec fn contains_name(names: Seq<String>, name: String) -> bool {
    exists|i: int| 0 <= i < names.len() && #[trigger] names[i]@ == name@
}

/// The position of the first entry of `names` with the same characters as
/// `name`, scanning left to right.
fn find_name(names: &Vec<String>, name: &String) -> (r: Option<usize>)
    ensures
        match r {
            Some(p) => contains_name(names@, *name) && p == name_pos(names@, *name),
            None => !contains_name(names@, *name),
        },
{
    let mut t: usize = 0;
    while t < names.len()
        invariant
            t <= names.len(),
            forall|j: int| 0 <= j < t ==> (#[trigger] names@[j])@ != name@,
        decreases names.len() - t,
    {
        if names[t] == *name {
            proof {
                lemma_name_pos(names@, *name, t as int);
            }
            return Some(t);
        }
        t = t + 1;
    }
    proof {
        assert(forall|j: int| 0 <= j < names@.len() ==> (#[trigger] names@[j])@ != name@);
    }
    None
}

/// `name_pos` finds exactly the first match.
proof fn lemma_name_pos(names: Seq<String>, name: String, i: int)
    requires
        0 <= i < names.len(),
        names[i]@ == name@,
        forall|j: int| 0 <= j < i ==> (#[trigger] names[j])@ != name@,
    ensures
        contains_name(names, name),
        name_pos(names, name) == i,
    decreases i,
{
    assert(names[i]@ == name@);
    if i == 0 {
    } else {
        lemma_name_pos(names.drop_first(), name, i - 1);
    }
}

/// The destination mapping of a projector over the given projected fields
/// and partition-column names: for each schema position holding a partition
/// column, in ascending position order, the pair of the column's position
/// in the partition catalog and its position in the projected schema.
pub open spec fn mapping_spec(fields: Seq<crate::schema::FieldV>, names: Seq<String>) -> Seq<
    (usize, usize),
>
    decreases fields.len(),
{
    if fields.len() == 0 {
        Seq::empty()
    } else {
        let rest = mapping_spec(fields.drop_last(), names);
        if contains_name(names, fields.last().name) {
            rest.push(
                (name_pos(names, fields.last().name) as usize, (fields.len() - 1) as usize),
            )
        } else {
            rest
        }
    }
}

/// The number of partition destinations strictly below a schema position.
pub open spec fn placed_below(m: Seq<(usize, usize)>, pos: int) -> int
    decreases m.len(),
{
    if m.len() == 0 {
        0
    } else {
        placed_below(m.drop_last(), pos) + if (m.last().1 as int) < pos {
            1int
        } else {
            0int
        }
    }
}

/// Whether a schema position is a partition destination of the mapping.
pub open spec fn is_partition_pos(m: Seq<(usize, usize)>, pos: int) -> bool {
    exists|i: int| 0 <= i < m.len() && (#[trigger] m[i]).1 as int == pos
}

/// The partition value actually broadcast: a value not yet dictionary
/// encoded is wrapped to match a dictionary-typed destination field.
pub open spec fn encoded_value(dt: DataType, v: ScalarValue) -> ScalarValue {
    if dt is Dictionary && !(v is Dictionary) {
        ScalarValue::Dictionary(dt->Dictionary_0, Box::new(v))
    } else {
        v
    }
}

/// A per-scan-task helper inserting constant partition columns into decoded
/// batches, its destination mapping computed once at construction.
pub struct PartitionColumnProjector {
    pub projected_schema: Schema,
    pub projected_partition_indexes: Vec<(usize, usize)>,
}

/// The mathematical value of a [`PartitionColumnProjector`].
#[verifier::ext_equal]
pub struct ProjectorV {
    pub projected_schema: SchemaV,
    pub projected_partition_indexes: Seq<(usize, usize)>,
}

impl View for PartitionColumnProjector {
    type V = ProjectorV;

    open spec fn view(&self) -> ProjectorV {
        ProjectorV {
            projected_schema: self.projected_schema@,
            projected_partition_indexes: self.projected_partition_indexes@,
        }
    }
}

/// Well-formedness of a projector: destinations ascend strictly and lie
/// inside the projected schema.
pub open spec fn projector_wf(p: ProjectorV) -> bool {
    &&& forall|i: int, j: int|
        0 <= i < j < p.projected_partition_indexes.len() ==> (
        #[trigger] p.projected_partition_indexes[i]).1 < (
        #[trigger] p.projected_partition_indexes[j]).1
    &&& forall|i: int|
        0 <= i < p.projected_partition_indexes.len() ==> (
        #[trigger] p.projected_partition_indexes[i]).1 < p.projected_schema.fields.len()
}

impl PartitionColumnProjector {
    /// A projector for the given projected schema and partition-column
    /// names: each projected field whose name appears among the names
    /// becomes a broadcast destination, every other field a copy
    /// destination.
    pub fn new(projected_schema: Schema, table_partition_cols: &Vec<String>) -> (r: Self)
        ensures
            r@.projected_schema == projected_schema@,
            r@.projected_partition_indexes == mapping_spec(
                projected_schema@.fields,
                table_partition_cols@,
            ),
            projector_wf(r@),
    {
        let mut mapping: Vec<(usize, usize)> = Vec::new();
        let n = projected_schema.num_fields();
        let mut s: usize = 0;
        while s < n
            invariant
                s <= n,
                n == projected_schema@.fields.len(),
                mapping@ =~= mapping_spec(
                    projected_schema@.fields.take(s as int),
                    table_partition_cols@,
                ),
                forall|i: int, j: int|
                    0 <= i < j < mapping@.len() ==> (#[trigger] mapping@[i]).1 < (
                    #[trigger] mapping@[j]).1,
                forall|i: int| 0 <= i < mapping@.len() ==> (#[trigger] mapping@[i]).1 < s,
            decreases n - s,
        {
            let ghost prefix = projected_schema@.fields.take(s as int);
            let field_name = projected_schema.field(s).name();
            match find_name(table_partition_cols, field_name) {
                Some(pidx) => {
                    proof {
                        assert(*field_name == projected_schema@.fields[s as int].name);
                    }
                    mapping.push((pidx, s));
                },
                None => {
                    proof {
                        assert(*field_name == projected_schema@.fields[s as int].name);
                    }
                },
            }
            s = s + 1;
            proof {
                let next = projected_schema@.fields.take(s as int);
                assert(next.drop_last() =~= prefix);
                assert(next.last() == projected_schema@.fields[s - 1]);
                assert(contains_name(table_partition_cols@, next.last().name) <==> contains_name(
                    table_partition_cols@,
                    projected_schema@.fields[s - 1].name,
                ));
                assert(mapping@ =~= mapping_spec(next, table_partition_cols@));
            }
        }
        proof {
            assert(projected_schema@.fields.take(n as int) =~= projected_schema@.fields);
        }
        let r = PartitionColumnProjector { projected_schema, projected_partition_indexes: mapping };
        proof {
            assert(projector_wf(r@));
        }
        r
    }

    /// The projected schema the output batches follow.
    pub fn projected_schema(&self) -> (r: &Schema)
        ensures
            r@ == self@.projected_schema,
    {
        &self.projected_schema
    }

    /// Builds the output batch for one decoded batch: each broadcast
    /// destination becomes a column repeating that file's partition value —
    /// re-encoded if the destination field is dictionary typed and the
    /// value is not — over the batch's row count, and each copy destination
    /// takes the decoded batch's next column unchanged.
    ///
    /// Fails if the decoded batch's column count differs from the projected
    /// schema's field count minus the broadcast destinations, or if too few
    /// partition values are supplied.
    pub fn project(&self, file_batch: RecordBatch, partition_values: &Vec<ScalarValue>) -> (r:
        Result<RecordBatch, ScanError>)
        requires
            projector_wf(self@),
        ensures
            ({
                let m = self@.projected_partition_indexes;
                let expected = self@.projected_schema.fields.len() - m.len();
                if file_batch@.columns.len() != expected {
                    r matches Err(e) && e == (ScanError::UnexpectedBatchColumns {
                        expected: expected as usize,
                        actual: file_batch@.columns.len() as usize,
                    })
                } else if missing_value_error(m, partition_values@.len() as int) is Some {
                    r matches Err(e) && e == missing_value_error(
                        m,
                        partition_values@.len() as int,
                    )->Some_0
                } else {
                    r matches Ok(out) && projected_batch(
                        self@,
                        file_batch@,
                        partition_values@,
                        out@,
                    )
                }
            }),
    {
        let ghost pv = self@;
        let ghost m = self@.projected_partition_indexes;
        let ghost batchv = file_batch@;
        let nfields = self.projected_schema.num_fields();
        let nmap = self.projected_partition_indexes.len();
        proof {
            lemma_mapping_len(pv);
        }
        let expected = nfields - nmap;
        if file_batch.num_columns() != expected {
            return Err(
                ScanError::UnexpectedBatchColumns {
                    expected,
                    actual: file_batch.num_columns(),
                },
            );
        }
        let nrows = file_batch.num_rows();
        let orig_columns = &file_batch.columns;
        let ghost origv = columns_view(orig_columns@);
        let mut out_cols: Vec<Vec<ScalarValue>> = Vec::new();
        let mut placed: usize = 0;
        let mut pos: usize = 0;
        proof {
            assert(m.skip(0) =~= m);
            assert(placed_below(m, 0) == 0) by {
                lemma_placed_below_none(m, 0);
            }
        }
        while pos < nfields
            invariant
                pos <= nfields,
                placed <= nmap,
                pv == self@,
                m == self@.projected_partition_indexes,
                projector_wf(pv),
                nfields == pv.projected_schema.fields.len(),
                nmap == m.len(),
                expected == nfields - nmap,
                origv == columns_view(orig_columns@),
                origv.len() == expected,
                batchv == file_batch@,
                batchv.columns == origv,
                nrows as int == batch_rows(batchv),
                out_cols@.len() == pos,
                forall|i: int| 0 <= i < placed ==> (#[trigger] m[i]).1 < pos,
                forall|i: int| placed <= i < nmap ==> (#[trigger] m[i]).1 >= pos,
                placed as int == placed_below(m, pos as int),
                forall|i: int| 0 <= i < placed ==> (#[trigger] m[i]).0 < partition_values@.len(),
                missing_value_error(m, partition_values@.len() as int) == missing_value_error(
                    m.skip(placed as int),
                    partition_values@.len() as int,
                ),
                forall|i: int|
                    0 <= i < placed ==> (#[trigger] out_cols@[m[i].1 as int])@ == Seq::new(
                        nrows as nat,
                        |q: int|
                            encoded_value(
                                pv.projected_schema.fields[m[i].1 as int].data_type,
                                partition_values@[m[i].0 as int],
                            ),
                    ),
                forall|p: int|
                    0 <= p < pos && !is_partition_pos(m, p) ==> (#[trigger] out_cols@[p])@
                        == origv[p - placed_below(m, p)],
            decreases nfields - pos,
        {
            proof {
                lemma_placed_below_step(pv, pos as int);
            }
            let is_part = placed < nmap && {
                let pair = self.projected_partition_indexes[placed];
                pair.1 == pos
            };
            if is_part {
                proof {
                    assert(m[placed as int].1 == pos);
                    assert(is_partition_pos(m, pos as int));
                }
                let pair = self.projected_partition_indexes[placed];
                let pidx = pair.0;
                if pidx >= partition_values.len() {
                    proof {
                        assert(m.skip(placed as int).first() == m[placed as int]);
                        assert(missing_value_error(
                            m.skip(placed as int),
                            partition_values@.len() as int,
                        ) == Some(ScanError::MissingPartitionValue { index: pidx }));
                    }
                    return Err(ScanError::MissingPartitionValue { index: pidx });
                }
                let v = &partition_values[pidx];
                let field_dt = self.projected_schema.field(pos).data_type();
                let encoded: ScalarValue = match field_dt {
                    DataType::Dictionary(k, _) => match v {
                        ScalarValue::Dictionary(_, _) => v.clone(),
                        _ => ScalarValue::Dictionary(Box::new((**k).clone()), Box::new(v.clone())),
                    },
                    _ => v.clone(),
                };
                proof {
                    assert(encoded == encoded_value(
                        pv.projected_schema.fields[pos as int].data_type,
                        partition_values@[pidx as int],
                    ));
                }
                let mut col: Vec<ScalarValue> = Vec::new();
                let mut q: usize = 0;
                while q < nrows
                    invariant
                        q <= nrows,
                        col@.len() == q,
                        forall|t: int| 0 <= t < q ==> #[trigger] col@[t] == encoded,
                    decreases nrows - q,
                {
                    col.push(encoded.clone());
                    q = q + 1;
                }
                out_cols.push(col);
                let ghost oldplaced = placed as int;
                placed = placed + 1;
                pos = pos + 1;
                proof {
                    assert(col@ =~= Seq::new(
                        nrows as nat,
                        |t: int|
                            encoded_value(
                                pv.projected_schema.fields[m[oldplaced].1 as int].data_type,
                                partition_values@[m[oldplaced].0 as int],
                            ),
                    ));
                    assert(m.skip(oldplaced).drop_first() =~= m.skip(oldplaced + 1));
                    assert forall|i: int| placed <= i < nmap implies (#[trigger] m[i]).1
                        >= pos by {
                        assert(m[oldplaced].1 < m[i].1);
                    }
                }
            } else {
                proof {
                    assert forall|i: int|
                        0 <= i < nmap implies (#[trigger] m[i]).1 as int != pos as int by {
                        if i < placed {
                        } else if i == placed {
                        } else {
                            assert(m[placed as int].1 < m[i].1);
                        }
                    }
                    assert(!is_partition_pos(m, pos as int));
                    // one more copy destination fits inside the decoded batch
                    lemma_placed_below_full(pv);
                    lemma_nonpart_count_le(pv, pos as int + 1, nfields as int);
                    assert(pos as int + 1 - placed_below(m, pos as int + 1) <= expected);
                }
                proof {
                    if placed > 0 {
                        lemma_mapping_len(pv);
                        assert((m[placed - 1]).1 >= placed - 1);
                    }
                }
                let src = pos - placed;
                out_cols.push(crate::config::clone_scalars(&orig_columns[src]));
                pos = pos + 1;
                proof {
                    assert((out_cols@[pos - 1])@ == origv[pos - 1 - placed_below(m, pos - 1)]);
                }
            }
        }
        proof {
            lemma_placed_below_full(pv);
            assert(placed as int == nmap);
            assert(m.skip(nmap as int).len() == 0);
        }
        let out = RecordBatch {
            schema: self.projected_schema.clone(),
            columns: out_cols,
        };
        proof {
            assert(columns_view(out.columns@).len() == nfields);
            assert forall|i: int| 0 <= i < m.len() implies #[trigger] out@.columns[m[i].1 as int]
                == Seq::new(
                batch_rows(batchv) as nat,
                |q: int|
                    encoded_value(
                        pv.projected_schema.fields[m[i].1 as int].data_type,
                        partition_values@[m[i].0 as int],
                    ),
            ) by {
                assert(out@.columns[m[i].1 as int] == (out_cols@[m[i].1 as int])@);
            }
            assert forall|p: int|
                0 <= p < nfields && !is_partition_pos(m, p) implies #[trigger] out@.columns[p]
                == batchv.columns[p - placed_below(m, p)] by {
                assert(out@.columns[p] == (out_cols@[p])@);
            }
            assert(projected_batch(pv, batchv, partition_values@, out@));
        }
        Ok(out)
    }
}

/// The error a too-short partition value list forces: the first broadcast
/// destination, in schema order, whose catalog position lies beyond the
/// list.
pub open spec fn missing_value_error(m: Seq<(usize, usize)>, nvals: int) -> Option<ScanError>
    decreases m.len(),
{
    if m.len() == 0 {
        None
    } else if m.first().0 >= nvals {
        Some(ScanError::MissingPartitionValue { index: m.first().0 })
    } else {
        missing_value_error(m.drop_first(), nvals)
    }
}

/// What the output batch of [`PartitionColumnProjector::project`] holds:
/// the projected schema; at each broadcast destination, that file's
/// partition value — dictionary-encoded if the field asks for it — repeated
/// over the decoded batch's row count; at every other position, the decoded
/// batch's columns in order.
pub open spec fn projected_batch(
    p: ProjectorV,
    batch: RecordBatchV,
    values: Seq<ScalarValue>,
    out: RecordBatchV,
) -> bool {
    let m = p.projected_partition_indexes;
    let fields = p.projected_schema.fields;
    &&& out.schema == p.projected_schema
    &&& out.columns.len() == fields.len()
    &&& forall|i: int|
        0 <= i < m.len() ==> #[trigger] out.columns[m[i].1 as int] == Seq::new(
            batch_rows(batch) as nat,
            |q: int|
                encoded_value(fields[m[i].1 as int].data_type, values[m[i].0 as int]),
        )
    &&& forall|pos: int|
        0 <= pos < fields.len() && !is_partition_pos(m, pos) ==> #[trigger] out.columns[pos]
            == batch.columns[pos - placed_below(m, pos)]
}

/// The output of the projector is a function of the projector, the batch
/// and the partition values alone: two outputs for the same inputs are the
/// same batch. With the `ensures` of
/// [`PartitionColumnProjector::project`], projecting the same decoded
/// batch with the same partition values twice yields identical batches.
pub proof fn lemma_projector_deterministic(
    p: ProjectorV,
    batch: RecordBatchV,
    values: Seq<ScalarValue>,
    o1: RecordBatchV,
    o2: RecordBatchV,
)
    requires
        projected_batch(p, batch, values, o1),
        projected_batch(p, batch, values, o2),
    ensures
        o1 == o2,
{
    let m = p.projected_partition_indexes;
    assert forall|pos: int| 0 <= pos < o1.columns.len() implies #[trigger] o1.columns[pos]
        == o2.columns[pos] by {
        if is_partition_pos(m, pos) {
            let i = choose|i: int| 0 <= i < m.len() && (#[trigger] m[i]).1 as int == pos;
            assert(o1.columns[m[i].1 as int] == o2.columns[m[i].1 as int]);
        }
    }
    assert(o1.columns =~= o2.columns);
    assert(o1 =~= o2);
}

/// Mapping destinations ascend at least as fast as their positions, so the
/// mapping has no more entries than the schema has fields.
proof fn lemma_mapping_len(p: ProjectorV)
    requires
        projector_wf(p),
    ensures
        p.projected_partition_indexes.len() <= p.projected_schema.fields.len(),
        forall|i: int|
            0 <= i < p.projected_partition_indexes.len() ==> (
            #[trigger] p.projected_partition_indexes[i]).1 >= i,
{
    let m = p.projected_partition_indexes;
    assert forall|i: int| 0 <= i < m.len() implies (#[trigger] m[i]).1 >= i by {
        lemma_ascending_ge(p, i);
    }
    if m.len() > 0 {
        assert(m[m.len() - 1].1 >= m.len() - 1);
    }
}

/// In a strictly ascending mapping, the destination at position `i` is at
/// least `i`.
proof fn lemma_ascending_ge(p: ProjectorV, i: int)
    requires
        projector_wf(p),
        0 <= i < p.projected_partition_indexes.len(),
    ensures
        (p.projected_partition_indexes[i]).1 >= i,
    decreases i,
{
    if i > 0 {
        lemma_ascending_ge(p, i - 1);
        assert((p.projected_partition_indexes[i - 1]).1 < (p.projected_partition_indexes[i]).1);
    }
}

/// No destination lies below position zero.
proof fn lemma_placed_below_none(m: Seq<(usize, usize)>, pos: int)
    requires
        pos <= 0,
    ensures
        placed_below(m, pos) == 0,
    decreases m.len(),
{
    if m.len() > 0 {
        lemma_placed_below_none(m.drop_last(), pos);
    }
}

/// Raising the position by one raises the count below it by one exactly
/// when the position is a destination.
proof fn lemma_placed_below_step(p: ProjectorV, pos: int)
    requires
        projector_wf(p),
    ensures
        placed_below(p.projected_partition_indexes, pos + 1) == placed_below(
            p.projected_partition_indexes,
            pos,
        ) + if is_partition_pos(p.projected_partition_indexes, pos) {
            1int
        } else {
            0int
        },
{
    lemma_placed_below_step_rec(p.projected_partition_indexes, pos);
}

/// The step property over any mapping with pairwise distinct destinations.
proof fn lemma_placed_below_step_rec(m: Seq<(usize, usize)>, pos: int)
    requires
        forall|i: int, j: int| 0 <= i < j < m.len() ==> (#[trigger] m[i]).1 != (#[trigger] m[j]).1,
    ensures
        placed_below(m, pos + 1) == placed_below(m, pos) + if is_partition_pos(m, pos) {
            1int
        } else {
            0int
        },
    decreases m.len(),
{
    if m.len() == 0 {
        assert(!is_partition_pos(m, pos));
    } else {
        let d = m.drop_last();
        assert(forall|i: int, j: int|
            0 <= i < j < d.len() ==> (#[trigger] d[i]).1 != (#[trigger] d[j]).1);
        lemma_placed_below_step_rec(d, pos);
        if m.last().1 as int == pos {
            assert(is_partition_pos(m, pos)) by {
                assert((m[m.len() - 1]).1 as int == pos);
            }
            assert(!is_partition_pos(d, pos)) by {
                if is_partition_pos(d, pos) {
                    let i = choose|i: int| 0 <= i < d.len() && (#[trigger] d[i]).1 as int == pos;
                    assert(m[i].1 == m[m.len() - 1].1);
                }
            }
        } else {
            assert(is_partition_pos(m, pos) <==> is_partition_pos(d, pos)) by {
                if is_partition_pos(m, pos) {
                    let i = choose|i: int| 0 <= i < m.len() && (#[trigger] m[i]).1 as int == pos;
                    assert(i < d.len());
                    assert(d[i].1 as int == pos);
                }
                if is_partition_pos(d, pos) {
                    let i = choose|i: int| 0 <= i < d.len() && (#[trigger] d[i]).1 as int == pos;
                    assert(m[i].1 as int == pos);
                }
            }
        }
    }
}

/// Every destination lies below the schema's field count, so the count
/// below the field count is the whole mapping.
proof fn lemma_placed_below_full(p: ProjectorV)
    requires
        projector_wf(p),
    ensures
        placed_below(
            p.projected_partition_indexes,
            p.projected_schema.fields.len() as int,
        ) == p.projected_partition_indexes.len(),
{
    lemma_placed_below_all(p.projected_partition_indexes, p.projected_schema.fields.len() as int);
}

/// The count below a bound covering every destination is the whole mapping.
proof fn lemma_placed_below_all(m: Seq<(usize, usize)>, n: int)
    requires
        forall|i: int| 0 <= i < m.len() ==> ((#[trigger] m[i]).1 as int) < n,
    ensures
        placed_below(m, n) == m.len(),
    decreases m.len(),
{
    if m.len() > 0 {
        let d = m.drop_last();
        assert(forall|i: int| 0 <= i < d.len() ==> ((#[trigger] d[i]).1 as int) < n);
        lemma_placed_below_all(d, n);
        assert(((m[m.len() - 1]).1 as int) < n);
    }
}

/// The number of copy destinations below a position never shrinks as the
/// position grows.
proof fn lemma_nonpart_count_le(p: ProjectorV, p1: int, p2: int)
    requires
        projector_wf(p),
        p1 <= p2,
    ensures
        p1 - placed_below(p.projected_partition_indexes, p1) <= p2 - placed_below(
            p.projected_partition_indexes,
            p2,
        ),
    decreases p2 - p1,
{
    if p1 < p2 {
        lemma_placed_below_step(p, p2 - 1);
        lemma_nonpart_count_le(p, p1, p2 - 1);
    }
}

} // verus!
