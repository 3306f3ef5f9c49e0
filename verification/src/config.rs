//! The scan descriptor and its projection engine: which files a scan reads,
//! and how the file schema, partition columns, statistics, constraints and
//! orderings combine under a column projection.

use vstd::prelude::*;
use crate::scalar::ScalarValue;
use crate::schema::{fields_view, Field, FieldV, Schema, SchemaV};
use crate::sort::{clone_orderings, orderings_view, LexOrdering, SortKey};
use crate::stats::{
    constraints_view, unknown_column_statistics, ColumnStatistics, Constraint, ConstraintV,
    Constraints, Precision, Statistics, StatisticsV,
};

verus! {

/// How a file's bytes are compressed on the object store.
#[derive(Debug, Clone, Copy, PartialEq, Eq, Structural)]
pub enum FileCompressionType {
    Gzip,
    Bzip2,
    Xz,
    Zstd,
    Uncompressed,
}

/// A byte range splitting one file across several scan tasks.
#[derive(Debug, Clone, Copy, PartialEq, Eq, Structural)]
pub struct FileRange {
    pub start: i64,
    pub end: i64,
}

/// The mathematical value of a [`PartitionedFile`].
#[verifier::ext_equal]
pub struct PartitionedFileV {
    pub path: String,
    pub size: u64,
    pub range: Option<FileRange>,
    pub partition_values: Seq<ScalarValue>,
    pub statistics: Option<StatisticsV>,
    pub metadata_size_hint: Option<usize>,
}

/// One file taking part in a scan: its location and size, an optional byte
/// range, the partition values derived for it, and optional per-file
/// statistics aligned with the base file schema.
#[derive(Debug, PartialEq, Eq)]
pub struct PartitionedFile {
    pub path: String,
    pub size: u64,
    pub range: Option<FileRange>,
    pub partition_values: Vec<ScalarValue>,
    pub statistics: Option<Statistics>,
    pub metadata_size_hint: Option<usize>,
}

impl View for PartitionedFile {
    type V = PartitionedFileV;

    open spec fn view(&self) -> PartitionedFileV {
        PartitionedFileV {
            path: self.path,
            size: self.size,
            range: self.range,
            partition_values: self.partition_values@,
            statistics: match self.statistics {
                Some(s) => Some(s@),
                None => None,
            },
            metadata_size_hint: self.metadata_size_hint,
        }
    }
}

/// Copies a list of scalar values.
pub fn clone_scalars(v: &Vec<ScalarValue>) -> (r: Vec<ScalarValue>)
    ensures
        r@ == v@,
{
    let mut r: Vec<ScalarValue> = Vec::new();
    let mut i: usize = 0;
    while i < v.len()
        invariant
            i <= v.len(),
            r@ =~= v@.take(i as int),
        decreases v.len() - i,
    {
        r.push(v[i].clone());
        i = i + 1;
    }
    proof {
        assert(r@ =~= v@);
    }
    r
}

impl Clone for PartitionedFile {
    fn clone(&self) -> (res: Self)
        ensures
            res@ == self@,
    {
        let res = PartitionedFile {
            path: self.path.clone(),
            size: self.size,
            range: self.range,
            partition_values: clone_scalars(&self.partition_values),
            statistics: match &self.statistics {
                Some(s) => Some(s.clone()),
                None => None,
            },
            metadata_size_hint: self.metadata_size_hint,
        };
        proof {
            assert(res@ =~= self@);
        }
        res
    }
}

impl PartitionedFile {
    /// A file at the given location with the given size, no byte range, no
    /// partition values and no statistics.
    pub fn new(path: String, size: u64) -> (r: Self)
        ensures
            r@.path == path,
            r@.size == size,
            r@.range is None,
            r@.partition_values == Seq::<ScalarValue>::empty(),
            r@.statistics is None,
            r@.metadata_size_hint is None,
    {
        let r = PartitionedFile {
            path,
            size,
            range: None,
            partition_values: Vec::new(),
            statistics: None,
            metadata_size_hint: None,
        };
        proof {
            assert(r@.partition_values =~= Seq::<ScalarValue>::empty());
        }
        r
    }
}

/// The sequence of file values of a sequence of files.
pub open spec fn files_view(s: Seq<PartitionedFile>) -> Seq<PartitionedFileV> {
    s.map_values(|f: PartitionedFile| f@)
}

/// The sequence of group values of a sequence of file groups.
pub open spec fn file_groups_view(s: Seq<Vec<PartitionedFile>>) -> Seq<Seq<PartitionedFileV>> {
    s.map_values(|g: Vec<PartitionedFile>| files_view(g@))
}

/// The mathematical value of a [`FileScanConfig`].
#[verifier::ext_equal]
pub struct FileScanConfigV {
    pub object_store_url: String,
    pub file_schema: SchemaV,
    pub file_groups: Seq<Seq<PartitionedFileV>>,
    pub constraints: Seq<ConstraintV>,
    pub statistics: StatisticsV,
    pub projection: Option<Seq<usize>>,
    pub limit: Option<usize>,
    pub table_partition_cols: Seq<FieldV>,
    pub output_ordering: Seq<Seq<SortKey>>,
    pub file_compression_type: FileCompressionType,
    pub new_lines_in_values: bool,
}

/// The scan descriptor: base file schema, file groups, statistics, optional
/// projection, partition-column catalog, and the orderings the data obeys.
///
/// Projection indices address the conceptual concatenation of the base
/// schema's fields followed by the partition-catalog fields.
pub struct FileScanConfig {
    /// Prefix of the absolute URL of the files, such as an object store
    /// bucket; never the path of one file.
    pub object_store_url: String,
    /// Schema before projection, without partition columns.
    pub file_schema: Schema,
    /// Files to read: outer groups scan in parallel, files within a group
    /// are read sequentially in listed order.
    pub file_groups: Vec<Vec<PartitionedFile>>,
    /// Table constraints over the concatenated column positions.
    pub constraints: Constraints,
    /// Estimated statistics of the files, one entry per base-schema field.
    pub statistics: Statistics,
    /// Columns to project; indices at or above the base field count address
    /// partition-catalog fields.
    pub projection: Option<Vec<usize>>,
    /// Most records to read, if bounded.
    pub limit: Option<usize>,
    /// The partition-column catalog, appended logically after the base
    /// schema.
    pub table_partition_cols: Vec<Field>,
    /// All equivalent lexicographic orderings the scanned data obeys.
    pub output_ordering: Vec<LexOrdering>,
    /// Compression of the files' bytes.
    pub file_compression_type: FileCompressionType,
    /// Whether embedded newlines in quoted delimited-text values are
    /// tolerated.
    pub new_lines_in_values: bool,
}

impl View for FileScanConfig {
    type V = FileScanConfigV;

    open spec fn view(&self) -> FileScanConfigV {
        FileScanConfigV {
            object_store_url: self.object_store_url,
            file_schema: self.file_schema@,
            file_groups: file_groups_view(self.file_groups@),
            constraints: self.constraints@,
            statistics: self.statistics@,
            projection: match self.projection {
                Some(p) => Some(p@),
                None => None,
            },
            limit: self.limit,
            table_partition_cols: fields_view(self.table_partition_cols@),
            output_ordering: orderings_view(self.output_ordering@),
            file_compression_type: self.file_compression_type,
            new_lines_in_values: self.new_lines_in_values,
        }
    }
}

/// The number of base (physical) fields of a descriptor.
pub open spec fn base_field_count(c: FileScanConfigV) -> int {
    c.file_schema.fields.len() as int
}

/// The number of partition-catalog fields of a descriptor.
pub open spec fn partition_field_count(c: FileScanConfigV) -> int {
    c.table_partition_cols.len() as int
}

/// The projection actually applied: the explicit index list, or every
/// concatenated column in order when none was supplied.
pub open spec fn effective_projection(c: FileScanConfigV) -> Seq<usize> {
    match c.projection {
        Some(p) => p,
        None => Seq::new(
            (base_field_count(c) + partition_field_count(c)) as nat,
            |i: int| i as usize,
        ),
    }
}

/// Whether every projection index addresses a concatenated column.
pub open spec fn projection_in_range(c: FileScanConfigV) -> bool {
    forall|k: int|
        0 <= k < effective_projection(c).len() ==> (#[trigger] effective_projection(c)[k])
            < base_field_count(c) + partition_field_count(c)
}

/// The field a concatenated column index addresses: a base field, or a
/// partition-catalog field past the base count.
pub open spec fn projected_field(c: FileScanConfigV, idx: int) -> FieldV {
    if idx < base_field_count(c) {
        c.file_schema.fields[idx]
    } else {
        c.table_partition_cols[idx - base_field_count(c)]
    }
}

/// The column statistics a concatenated column index carries through the
/// projection; a partition column's statistics are always unknown.
pub open spec fn projected_column_statistic(c: FileScanConfigV, idx: int) -> ColumnStatistics {
    if idx < base_field_count(c) {
        c.statistics.column_statistics[idx]
    } else {
        unknown_column_statistics()
    }
}

/// The projected schema: the addressed fields in projection order, under the
/// base schema's metadata.
pub open spec fn projected_schema_spec(c: FileScanConfigV) -> SchemaV {
    SchemaV {
        fields: effective_projection(c).map_values(|idx: usize| projected_field(c, idx as int)),
        metadata: c.file_schema.metadata,
    }
}

/// The projected statistics: the row count carried through, the total byte
/// size reset to absent, and the addressed columns' statistics in projection
/// order.
pub open spec fn projected_statistics_spec(c: FileScanConfigV) -> StatisticsV {
    StatisticsV {
        num_rows: c.statistics.num_rows,
        total_byte_size: Precision::Absent,
        column_statistics: effective_projection(c).map_values(
            |idx: usize| projected_column_statistic(c, idx as int),
        ),
    }
}

/// The position of the first occurrence of `col` in `idxs`; meaningful only
/// when `idxs` contains `col`.
pub open spec fn first_pos(idxs: Seq<usize>, col: usize) -> int
    decreases idxs.len(),
{
    if idxs.len() == 0 {
        0
    } else if idxs.first() == col {
        0
    } else {
        1 + first_pos(idxs.drop_first(), col)
    }
}

/// `first_pos` finds exactly the first occurrence.
pub proof fn lemma_first_pos(idxs: Seq<usize>, col: usize, i: int)
    requires
        0 <= i < idxs.len(),
        idxs[i] == col,
        forall|j: int| 0 <= j < i ==> idxs[j] != col,
    ensures
        idxs.contains(col),
        first_pos(idxs, col) == i,
    decreases i,
{
    assert(idxs.contains(col));
    if i == 0 {
    } else {
        lemma_first_pos(idxs.drop_first(), col, i - 1);
    }
}

/// The columns a constraint speaks of.
pub open spec fn constraint_cols(cv: ConstraintV) -> Seq<usize> {
    match cv {
        ConstraintV::PrimaryKey(cols) => cols,
        ConstraintV::Unique(cols) => cols,
    }
}

/// Whether a constraint survives the projection: every column it speaks of
/// is selected.
pub open spec fn constraint_kept(idxs: Seq<usize>, cv: ConstraintV) -> bool {
    forall|j: int|
        0 <= j < constraint_cols(cv).len() ==> idxs.contains(#[trigger] constraint_cols(cv)[j])
}

/// The constraint with each column moved to its new position.
pub open spec fn remap_constraint(idxs: Seq<usize>, cv: ConstraintV) -> ConstraintV {
    match cv {
        ConstraintV::PrimaryKey(cols) => ConstraintV::PrimaryKey(
            cols.map_values(|c: usize| first_pos(idxs, c) as usize),
        ),
        ConstraintV::Unique(cols) => ConstraintV::Unique(
            cols.map_values(|c: usize| first_pos(idxs, c) as usize),
        ),
    }
}

/// The constraints surviving the projection, remapped, in order; one that
/// references a dropped column is dropped.
pub open spec fn project_constraints_spec(idxs: Seq<usize>, cs: Seq<ConstraintV>) -> Seq<
    ConstraintV,
>
    decreases cs.len(),
{
    if cs.len() == 0 {
        Seq::empty()
    } else {
        let rest = project_constraints_spec(idxs, cs.drop_last());
        if constraint_kept(idxs, cs.last()) {
            rest.push(remap_constraint(idxs, cs.last()))
        } else {
            rest
        }
    }
}

/// The tail of one ordering's keys projected from position `i` on: keys are
/// kept and remapped until the first key whose column was dropped, which
/// truncates the ordering there.
pub open spec fn project_keys_from(idxs: Seq<usize>, keys: Seq<SortKey>, i: int) -> Seq<SortKey>
    decreases keys.len() - i,
{
    if i < 0 || i >= keys.len() {
        Seq::empty()
    } else if idxs.contains(keys[i].column) {
        seq![
            SortKey {
                column: first_pos(idxs, keys[i].column) as usize,
                descending: keys[i].descending,
                nulls_first: keys[i].nulls_first,
            },
        ] + project_keys_from(idxs, keys, i + 1)
    } else {
        Seq::empty()
    }
}

/// One ordering's keys projected through the index list.
pub open spec fn project_keys_spec(idxs: Seq<usize>, keys: Seq<SortKey>) -> Seq<SortKey> {
    project_keys_from(idxs, keys, 0)
}

/// The orderings surviving the projection: each projected to the prefix
/// whose columns survive, empty results dropped.
pub open spec fn project_orderings_spec(idxs: Seq<usize>, ords: Seq<Seq<SortKey>>) -> Seq<
    Seq<SortKey>,
>
    decreases ords.len(),
{
    if ords.len() == 0 {
        Seq::empty()
    } else {
        let rest = project_orderings_spec(idxs, ords.drop_last());
        let keys = project_keys_spec(idxs, ords.last());
        if keys.len() > 0 {
            rest.push(keys)
        } else {
            rest
        }
    }
}

/// Whether the fast identity path applies: no projection requested and no
/// partition columns to add.
pub open spec fn identity_projection(c: FileScanConfigV) -> bool {
    c.projection is None && c.table_partition_cols.len() == 0
}

/// The position of `col` in `idxs`, scanning left to right.
fn find_pos(idxs: &Vec<usize>, col: usize) -> (r: Option<usize>)
    ensures
        match r {
            Some(p) => idxs@.contains(col) && p == first_pos(idxs@, col),
            None => !idxs@.contains(col),
        },
{
    let mut i: usize = 0;
    while i < idxs.len()
        invariant
            i <= idxs.len(),
            forall|j: int| 0 <= j < i ==> idxs@[j] != col,
        decreases idxs.len() - i,
    {
        if idxs[i] == col {
            proof {
                lemma_first_pos(idxs@, col, i as int);
            }
            return Some(i);
        }
        i = i + 1;
    }
    proof {
        assert(forall|j: int| 0 <= j < idxs@.len() ==> idxs@[j] != col);
        assert(!idxs@.contains(col));
    }
    None
}

/// Remaps a constraint's columns through the projection: their new
/// positions, or `None` if any column was dropped.
fn remap_constraint_cols(idxs: &Vec<usize>, cols: &Vec<usize>) -> (r: Option<Vec<usize>>)
    ensures
        match r {
            Some(m) => (forall|j: int|
                0 <= j < cols@.len() ==> idxs@.contains(#[trigger] cols@[j])) && m@
                =~= cols@.map_values(|c: usize| first_pos(idxs@, c) as usize),
            None => exists|j: int| 0 <= j < cols@.len() && !idxs@.contains(#[trigger] cols@[j]),
        },
{
    let mut m: Vec<usize> = Vec::new();
    let mut i: usize = 0;
    while i < cols.len()
        invariant
            i <= cols.len(),
            m@.len() == i,
            forall|j: int| 0 <= j < i ==> idxs@.contains(#[trigger] cols@[j]),
            forall|j: int|
                0 <= j < i ==> #[trigger] m@[j] == first_pos(idxs@, cols@[j]) as usize,
        decreases cols.len() - i,
    {
        match find_pos(idxs, cols[i]) {
            Some(p) => {
                m.push(p);
            },
            None => {
                return None;
            },
        }
        i = i + 1;
    }
    Some(m)
}

impl FileScanConfig {
    /// A descriptor for scanning files with the given base schema at the
    /// given store, with default settings: no files, no constraints, unknown
    /// statistics, no projection, no limit, no partition columns, no
    /// ordering, uncompressed.
    pub fn new(object_store_url: String, file_schema: Schema) -> (r: Self)
        ensures
            r@.object_store_url == object_store_url,
            r@.file_schema == file_schema@,
            r@.file_groups == Seq::<Seq<PartitionedFileV>>::empty(),
            r@.constraints == Seq::<ConstraintV>::empty(),
            r@.statistics.num_rows == Precision::Absent,
            r@.statistics.total_byte_size == Precision::Absent,
            r@.statistics.column_statistics.len() == r@.file_schema.fields.len(),
            forall|i: int|
                0 <= i < r@.file_schema.fields.len() ==> r@.statistics.column_statistics[i]
                    == unknown_column_statistics(),
            r@.projection is None,
            r@.limit is None,
            r@.table_partition_cols == Seq::<FieldV>::empty(),
            r@.output_ordering == Seq::<Seq<SortKey>>::empty(),
            r@.file_compression_type == FileCompressionType::Uncompressed,
            !r@.new_lines_in_values,
    {
        let statistics = Statistics::new_unknown(&file_schema);
        let r = FileScanConfig {
            object_store_url,
            file_schema,
            file_groups: Vec::new(),
            constraints: Constraints::empty(),
            statistics,
            projection: None,
            limit: None,
            table_partition_cols: Vec::new(),
            output_ordering: Vec::new(),
            file_compression_type: FileCompressionType::Uncompressed,
            new_lines_in_values: false,
        };
        proof {
            assert(r@.file_groups =~= Seq::<Seq<PartitionedFileV>>::empty());
            assert(r@.table_partition_cols =~= Seq::<FieldV>::empty());
            assert(r@.output_ordering =~= Seq::<Seq<SortKey>>::empty());
        }
        r
    }

    /// The same descriptor with the given table constraints.
    pub fn with_constraints(self, constraints: Constraints) -> (r: Self)
        ensures
            r@ == (FileScanConfigV { constraints: constraints@, ..self@ }),
    {
        let r = FileScanConfig { constraints, ..self };
        proof {
            assert(r@ =~= (FileScanConfigV { constraints: constraints@, ..self@ }));
        }
        r
    }

    /// The same descriptor with the given statistics.
    pub fn with_statistics(self, statistics: Statistics) -> (r: Self)
        ensures
            r@ == (FileScanConfigV { statistics: statistics@, ..self@ }),
    {
        let r = FileScanConfig { statistics, ..self };
        proof {
            assert(r@ =~= (FileScanConfigV { statistics: statistics@, ..self@ }));
        }
        r
    }

    /// The same descriptor with the given projection.
    pub fn with_projection(self, projection: Option<Vec<usize>>) -> (r: Self)
        ensures
            r@ == (FileScanConfigV {
                projection: match projection {
                    Some(p) => Some(p@),
                    None => None,
                },
                ..self@
            }),
    {
        let r = FileScanConfig { projection, ..self };
        proof {
            assert(r@ =~= (FileScanConfigV {
                projection: match projection {
                    Some(p) => Some(p@),
                    None => None,
                },
                ..self@
            }));
        }
        r
    }

    /// The same descriptor with the given row limit.
    pub fn with_limit(self, limit: Option<usize>) -> (r: Self)
        ensures
            r@ == (FileScanConfigV { limit, ..self@ }),
    {
        let r = FileScanConfig { limit, ..self };
        proof {
            assert(r@ =~= (FileScanConfigV { limit, ..self@ }));
        }
        r
    }

    /// The same descriptor with one more group holding the one file.
    pub fn with_file(self, file: PartitionedFile) -> (r: Self)
        ensures
            r@ == (FileScanConfigV {
                file_groups: self@.file_groups.push(seq![file@]),
                ..self@
            }),
    {
        let ghost old_self = self@;
        let ghost filev = file@;
        let mut group: Vec<PartitionedFile> = Vec::new();
        group.push(file);
        proof {
            assert(files_view(group@) =~= seq![filev]);
        }
        self.with_file_group(group)
    }

    /// The same descriptor with the given groups appended.
    pub fn with_file_groups(self, file_groups: Vec<Vec<PartitionedFile>>) -> (r: Self)
        ensures
            r@ == (FileScanConfigV {
                file_groups: self@.file_groups + file_groups_view(file_groups@),
                ..self@
            }),
    {
        let ghost old_self = self@;
        let ghost addedv = file_groups_view(file_groups@);
        let mut s = self;
        let mut added = file_groups;
        s.file_groups.append(&mut added);
        proof {
            assert(file_groups_view(s.file_groups@) =~= old_self.file_groups + addedv);
            assert(s@ =~= (FileScanConfigV {
                file_groups: old_self.file_groups + addedv,
                ..old_self
            }));
        }
        s
    }

    /// The same descriptor with one more file group.
    pub fn with_file_group(self, file_group: Vec<PartitionedFile>) -> (r: Self)
        ensures
            r@ == (FileScanConfigV {
                file_groups: self@.file_groups.push(files_view(file_group@)),
                ..self@
            }),
    {
        let ghost old_self = self@;
        let ghost groupv = files_view(file_group@);
        let mut s = self;
        s.file_groups.push(file_group);
        proof {
            assert(file_groups_view(s.file_groups@) =~= old_self.file_groups.push(groupv));
            assert(s@ =~= (FileScanConfigV {
                file_groups: old_self.file_groups.push(groupv),
                ..old_self
            }));
        }
        s
    }

    /// The same descriptor with the given partition-column catalog.
    pub fn with_table_partition_cols(self, table_partition_cols: Vec<Field>) -> (r: Self)
        ensures
            r@ == (FileScanConfigV {
                table_partition_cols: fields_view(table_partition_cols@),
                ..self@
            }),
    {
        let ghost colsv = fields_view(table_partition_cols@);
        let r = FileScanConfig { table_partition_cols, ..self };
        proof {
            assert(r@ =~= (FileScanConfigV { table_partition_cols: colsv, ..self@ }));
        }
        r
    }

    /// The same descriptor with the given output orderings.
    pub fn with_output_ordering(self, output_ordering: Vec<LexOrdering>) -> (r: Self)
        ensures
            r@ == (FileScanConfigV {
                output_ordering: orderings_view(output_ordering@),
                ..self@
            }),
    {
        let ghost ordsv = orderings_view(output_ordering@);
        let r = FileScanConfig { output_ordering, ..self };
        proof {
            assert(r@ =~= (FileScanConfigV { output_ordering: ordsv, ..self@ }));
        }
        r
    }

    /// The same descriptor with the given compression.
    pub fn with_file_compression_type(self, file_compression_type: FileCompressionType) -> (r:
        Self)
        ensures
            r@ == (FileScanConfigV { file_compression_type, ..self@ }),
    {
        let r = FileScanConfig { file_compression_type, ..self };
        proof {
            assert(r@ =~= (FileScanConfigV { file_compression_type, ..self@ }));
        }
        r
    }

    /// The same descriptor with the given newline tolerance.
    pub fn with_newlines_in_values(self, new_lines_in_values: bool) -> (r: Self)
        ensures
            r@ == (FileScanConfigV { new_lines_in_values, ..self@ }),
    {
        let r = FileScanConfig { new_lines_in_values, ..self };
        proof {
            assert(r@ =~= (FileScanConfigV { new_lines_in_values, ..self@ }));
        }
        r
    }

    /// Whether embedded newlines in quoted delimited-text values are
    /// tolerated.
    pub fn newlines_in_values(&self) -> (r: bool)
        ensures
            r == self@.new_lines_in_values,
    {
        self.new_lines_in_values
    }

    /// Projects the schema, constraints, statistics and orderings onto the
    /// selected column indices.
    ///
    /// With no projection and an empty partition catalog everything is
    /// returned unchanged. Otherwise each selected index contributes its
    /// field and column statistics (unknown for a partition column), the
    /// row count is carried through, the total byte size is reset to
    /// unknown, constraints referencing dropped columns are dropped, and
    /// each ordering is truncated to the prefix whose columns survive.
    pub fn project(&self) -> (r: (Schema, Constraints, Statistics, Vec<LexOrdering>))
        requires
            self@.statistics.column_statistics.len() == base_field_count(self@),
            projection_in_range(self@),
            self@.projection is None ==> base_field_count(self@) + partition_field_count(self@)
                <= usize::MAX,
        ensures
            identity_projection(self@) ==> r.0@ == self@.file_schema && r.1@ == self@.constraints
                && r.2@ == self@.statistics && orderings_view(r.3@) == self@.output_ordering,
            !identity_projection(self@) ==> r.0@ == projected_schema_spec(self@) && r.1@
                == project_constraints_spec(effective_projection(self@), self@.constraints) && r.2@
                == projected_statistics_spec(self@) && orderings_view(r.3@)
                == project_orderings_spec(effective_projection(self@), self@.output_ordering),
    {
        if self.projection.is_none() && self.table_partition_cols.len() == 0 {
            return (
                self.file_schema.clone(),
                self.constraints.clone(),
                self.statistics.clone(),
                clone_orderings(&self.output_ordering),
            );
        }

        let base = self.file_schema.num_fields();
        let proj_indices: Vec<usize> = match &self.projection {
            Some(p) => clone_indices(p),
            None => {
                let total = base + self.table_partition_cols.len();
                let mut v: Vec<usize> = Vec::new();
                let mut i: usize = 0;
                while i < total
                    invariant
                        i <= total,
                        v@.len() == i,
                        forall|j: int| 0 <= j < i ==> v@[j] == j as usize,
                    decreases total - i,
                {
                    v.push(i);
                    i = i + 1;
                }
                v
            },
        };
        proof {
            assert(proj_indices@ =~= effective_projection(self@));
        }

        let mut table_fields: Vec<Field> = Vec::new();
        let mut table_cols_stats: Vec<ColumnStatistics> = Vec::new();
        let mut k: usize = 0;
        while k < proj_indices.len()
            invariant
                k <= proj_indices.len(),
                proj_indices@ == effective_projection(self@),
                projection_in_range(self@),
                self@.statistics.column_statistics.len() == base_field_count(self@),
                base == base_field_count(self@),
                base <= self.file_schema@.fields.len(),
                self.file_schema@ == self@.file_schema,
                fields_view(self.table_partition_cols@) == self@.table_partition_cols,
                self.statistics@ == self@.statistics,
                table_fields@.len() == k,
                table_cols_stats@.len() == k,
                forall|j: int|
                    0 <= j < k ==> (#[trigger] table_fields@[j])@ == projected_field(
                        self@,
                        proj_indices@[j] as int,
                    ),
                forall|j: int|
                    0 <= j < k ==> #[trigger] table_cols_stats@[j] == projected_column_statistic(
                        self@,
                        proj_indices@[j] as int,
                    ),
            decreases proj_indices.len() - k,
        {
            let idx = proj_indices[k];
            if idx < base {
                table_fields.push(self.file_schema.field(idx).clone());
                table_cols_stats.push(self.statistics.column_statistics[idx].clone());
            } else {
                table_fields.push(self.table_partition_cols[idx - base].clone());
                table_cols_stats.push(ColumnStatistics::new_unknown());
            }
            k = k + 1;
        }

        let table_stats = Statistics {
            num_rows: self.statistics.num_rows,
            total_byte_size: Precision::Absent,
            column_statistics: table_cols_stats,
        };
        proof {
            assert(table_stats@ =~= projected_statistics_spec(self@));
        }

        let metadata = crate::schema::clone_string_pairs(self.file_schema.metadata());
        let projected_schema = Schema::new_with_metadata(table_fields, metadata);
        proof {
            assert(projected_schema@ =~= projected_schema_spec(self@));
        }

        let projected_constraints = project_constraints(&proj_indices, &self.constraints);
        let projected_output_ordering = project_orderings(&proj_indices, &self.output_ordering);

        (projected_schema, projected_constraints, table_stats, projected_output_ordering)
    }
}

/// The projection indices addressing base (physical) columns only, in
/// order; indices addressing partition columns are left out.
pub open spec fn file_projection_indices_spec(p: Seq<usize>, base: int) -> Seq<usize>
    decreases p.len(),
{
    if p.len() == 0 {
        Seq::empty()
    } else {
        let rest = file_projection_indices_spec(p.drop_last(), base);
        if p.last() < base {
            rest.push(p.last())
        } else {
            rest
        }
    }
}

/// The names of the base columns the projection addresses, in order.
pub open spec fn file_column_names_spec(c: FileScanConfigV, p: Seq<usize>) -> Seq<String>
    decreases p.len(),
{
    if p.len() == 0 {
        Seq::empty()
    } else {
        let rest = file_column_names_spec(c, p.drop_last());
        if p.last() < base_field_count(c) {
            rest.push(c.file_schema.fields[p.last() as int].name)
        } else {
            rest
        }
    }
}

/// The base fields the projection addresses, in order.
pub open spec fn projected_file_fields_spec(c: FileScanConfigV, p: Seq<usize>) -> Seq<FieldV>
    decreases p.len(),
{
    if p.len() == 0 {
        Seq::empty()
    } else {
        let rest = projected_file_fields_spec(c, p.drop_last());
        if p.last() < base_field_count(c) {
            rest.push(c.file_schema.fields[p.last() as int])
        } else {
            rest
        }
    }
}

impl FileScanConfig {
    /// The names of the base columns the projection addresses, or `None`
    /// when no projection was supplied.
    pub fn projected_file_column_names(&self) -> (r: Option<Vec<String>>)
        ensures
            r is None <==> self@.projection is None,
            self@.projection matches Some(p) ==> r matches Some(names) && names@
                == file_column_names_spec(self@, p),
    {
        let p = match &self.projection {
            Some(p) => p,
            None => {
                return None;
            },
        };
        let base = self.file_schema.num_fields();
        let mut names: Vec<String> = Vec::new();
        let mut i: usize = 0;
        while i < p.len()
            invariant
                i <= p.len(),
                base == base_field_count(self@),
                self.file_schema@ == self@.file_schema,
                self@.projection == Some(p@),
                names@ =~= file_column_names_spec(self@, p@.take(i as int)),
            decreases p.len() - i,
        {
            let ghost prefix = p@.take(i as int);
            let idx = p[i];
            if idx < base {
                names.push(self.file_schema.field(idx).name().clone());
            }
            i = i + 1;
            proof {
                let next = p@.take(i as int);
                assert(next.drop_last() =~= prefix);
                assert(next.last() == p@[i - 1]);
                assert(names@ =~= file_column_names_spec(self@, next));
            }
        }
        proof {
            assert(p@.take(p@.len() as int) =~= p@);
        }
        Some(names)
    }

    /// The base fields the projection addresses, as a schema under the base
    /// schema's metadata; the whole base schema when no projection was
    /// supplied. Partition columns never appear here.
    pub fn projected_file_schema(&self) -> (r: Schema)
        ensures
            self@.projection is None ==> r@ == self@.file_schema,
            self@.projection matches Some(p) ==> r@.fields == projected_file_fields_spec(
                self@,
                p,
            ) && r@.metadata == self@.file_schema.metadata,
    {
        let p = match &self.projection {
            Some(p) => p,
            None => {
                return self.file_schema.clone();
            },
        };
        let base = self.file_schema.num_fields();
        let mut fields: Vec<Field> = Vec::new();
        let mut i: usize = 0;
        while i < p.len()
            invariant
                i <= p.len(),
                base == base_field_count(self@),
                self.file_schema@ == self@.file_schema,
                self@.projection == Some(p@),
                fields_view(fields@) =~= projected_file_fields_spec(self@, p@.take(i as int)),
            decreases p.len() - i,
        {
            let ghost prefix = p@.take(i as int);
            let idx = p[i];
            if idx < base {
                fields.push(self.file_schema.field(idx).clone());
            }
            i = i + 1;
            proof {
                let next = p@.take(i as int);
                assert(next.drop_last() =~= prefix);
                assert(next.last() == p@[i - 1]);
                assert(fields_view(fields@) =~= projected_file_fields_spec(self@, next));
            }
        }
        proof {
            assert(p@.take(p@.len() as int) =~= p@);
        }
        let metadata = crate::schema::clone_string_pairs(self.file_schema.metadata());
        Schema::new_with_metadata(fields, metadata)
    }

    /// The projection indices addressing base columns only, or `None` when
    /// no projection was supplied.
    pub fn file_column_projection_indices(&self) -> (r: Option<Vec<usize>>)
        ensures
            r is None <==> self@.projection is None,
            self@.projection matches Some(p) ==> r matches Some(v) && v@
                == file_projection_indices_spec(p, base_field_count(self@)),
    {
        let p = match &self.projection {
            Some(p) => p,
            None => {
                return None;
            },
        };
        let base = self.file_schema.num_fields();
        let mut out: Vec<usize> = Vec::new();
        let mut i: usize = 0;
        while i < p.len()
            invariant
                i <= p.len(),
                base == base_field_count(self@),
                self@.projection == Some(p@),
                out@ =~= file_projection_indices_spec(p@.take(i as int), base as int),
            decreases p.len() - i,
        {
            let ghost prefix = p@.take(i as int);
            let idx = p[i];
            if idx < base {
                out.push(idx);
            }
            i = i + 1;
            proof {
                let next = p@.take(i as int);
                assert(next.drop_last() =~= prefix);
                assert(next.last() == p@[i - 1]);
                assert(out@ =~= file_projection_indices_spec(next, base as int));
            }
        }
        proof {
            assert(p@.take(p@.len() as int) =~= p@);
        }
        Some(out)
    }
}

/// Copies a list of column indices.
pub fn clone_indices(v: &Vec<usize>) -> (r: Vec<usize>)
    ensures
        r@ == v@,
{
    let mut r: Vec<usize> = Vec::new();
    let mut i: usize = 0;
    while i < v.len()
        invariant
            i <= v.len(),
            r@ =~= v@.take(i as int),
        decreases v.len() - i,
    {
        r.push(v[i]);
        i = i + 1;
    }
    proof {
        assert(r@ =~= v@);
    }
    r
}

/// The constraints surviving the projection, remapped to projected column
/// positions.
fn project_constraints(idxs: &Vec<usize>, constraints: &Constraints) -> (r: Constraints)
    ensures
        r@ == project_constraints_spec(idxs@, constraints@),
{
    let cs = constraints.inner();
    let mut out: Vec<Constraint> = Vec::new();
    let mut i: usize = 0;
    while i < cs.len()
        invariant
            i <= cs.len(),
            constraints_view(cs@) == constraints@,
            constraints_view(out@) =~= project_constraints_spec(
                idxs@,
                constraints@.take(i as int),
            ),
        decreases cs.len() - i,
    {
        let ghost prefix = constraints@.take(i as int);
        let cols = match &cs[i] {
            Constraint::PrimaryKey(cols) => cols,
            Constraint::Unique(cols) => cols,
        };
        match remap_constraint_cols(idxs, cols) {
            Some(m) => {
                let remapped = match &cs[i] {
                    Constraint::PrimaryKey(_) => Constraint::PrimaryKey(m),
                    Constraint::Unique(_) => Constraint::Unique(m),
                };
                proof {
                    assert(constraint_kept(idxs@, cs@[i as int]@));
                    assert(remapped@ =~= remap_constraint(idxs@, cs@[i as int]@));
                }
                out.push(remapped);
            },
            None => {
                proof {
                    let j = choose|j: int|
                        0 <= j < cols@.len() && !idxs@.contains(#[trigger] cols@[j]);
                    assert(constraint_cols(cs@[i as int]@)[j] == cols@[j]);
                    assert(!constraint_kept(idxs@, cs@[i as int]@));
                }
            },
        }
        i = i + 1;
        proof {
            let next = constraints@.take(i as int);
            assert(next.drop_last() =~= prefix);
            assert(next.last() == constraints@[i - 1]);
            assert(constraints_view(out@) =~= project_constraints_spec(idxs@, next));
        }
    }
    proof {
        assert(constraints@.take(constraints@.len() as int) =~= constraints@);
    }
    Constraints::new(out)
}

/// One ordering's keys remapped through the projection: the longest prefix
/// whose columns all survive.
fn project_keys(idxs: &Vec<usize>, ordering: &LexOrdering) -> (r: Vec<SortKey>)
    ensures
        r@ == project_keys_spec(idxs@, ordering@),
{
    let keys = &ordering.keys;
    let mut out: Vec<SortKey> = Vec::new();
    let mut i: usize = 0;
    while i < keys.len()
        invariant
            i <= keys.len(),
            keys@ == ordering@,
            project_keys_spec(idxs@, ordering@) =~= out@ + project_keys_from(
                idxs@,
                ordering@,
                i as int,
            ),
        decreases keys.len() - i,
    {
        let key = keys[i];
        match find_pos(idxs, key.column) {
            Some(p) => {
                out.push(
                    SortKey {
                        column: p,
                        descending: key.descending,
                        nulls_first: key.nulls_first,
                    },
                );
                i = i + 1;
                proof {
                    assert(project_keys_spec(idxs@, ordering@) =~= out@ + project_keys_from(
                        idxs@,
                        ordering@,
                        i as int,
                    ));
                }
            },
            None => {
                proof {
                    assert(project_keys_from(idxs@, ordering@, i as int)
                        =~= Seq::<SortKey>::empty());
                    assert(project_keys_spec(idxs@, ordering@) =~= out@);
                }
                return out;
            },
        }
    }
    proof {
        assert(project_keys_from(idxs@, ordering@, keys@.len() as int) =~= Seq::<
            SortKey,
        >::empty());
        assert(project_keys_spec(idxs@, ordering@) =~= out@);
    }
    out
}

/// The orderings surviving the projection.
fn project_orderings(idxs: &Vec<usize>, ords: &Vec<LexOrdering>) -> (r: Vec<LexOrdering>)
    ensures
        orderings_view(r@) == project_orderings_spec(idxs@, orderings_view(ords@)),
{
    let mut out: Vec<LexOrdering> = Vec::new();
    let mut i: usize = 0;
    while i < ords.len()
        invariant
            i <= ords.len(),
            orderings_view(out@) =~= project_orderings_spec(
                idxs@,
                orderings_view(ords@).take(i as int),
            ),
        decreases ords.len() - i,
    {
        let ghost prefix = orderings_view(ords@).take(i as int);
        let keys = project_keys(idxs, &ords[i]);
        if keys.len() > 0 {
            out.push(LexOrdering::new(keys));
        }
        i = i + 1;
        proof {
            let next = orderings_view(ords@).take(i as int);
            assert(next.drop_last() =~= prefix);
            assert(next.last() == orderings_view(ords@)[i - 1]);
            assert(orderings_view(out@) =~= project_orderings_spec(idxs@, next));
        }
    }
    proof {
        assert(orderings_view(ords@).take(ords@.len() as int) =~= orderings_view(ords@));
    }
    out
}

} // verus!
