//! Data types and scalar values of the data model: the shapes a column can
//! have, and the constant values a partition column or a statistics bound
//! can hold.

use vstd::prelude::*;

verus! {

/// The type of a column or of a scalar value.
///
/// `Dictionary(key, value)` is the dictionary encoding used for partition
/// columns: values of type `value` stored once and referenced through small
/// keys of type `key`.
#[derive(Debug, PartialEq, Eq)]
pub enum DataType {
    Null,
    Boolean,
    Int32,
    Int64,
    UInt16,
    UInt64,
    Utf8,
    /// A fixed-point decimal: an `i64` mantissa scaled down by the given
    /// number of decimal digits.
    Decimal64(u32),
    Dictionary(Box<DataType>, Box<DataType>),
}

/// A single constant value, tagged with its type.
///
/// A `None` payload is the null value of that type. `Dictionary(key, value)`
/// wraps a value to mark it as dictionary-encoded with the given key type.
#[derive(Debug, PartialEq, Eq)]
pub enum ScalarValue {
    Null,
    Boolean(Option<bool>),
    Int32(Option<i32>),
    Int64(Option<i64>),
    UInt64(Option<u64>),
    Utf8(Option<String>),
    /// A fixed-point decimal: mantissa, then scale in decimal digits.
    Decimal64(Option<i64>, u32),
    Dictionary(Box<DataType>, Box<ScalarValue>),
}

impl Clone for DataType {
    fn clone(&self) -> (res: Self)
        ensures
            res == *self,
        decreases *self,
    {
        match self {
            DataType::Null => DataType::Null,
            DataType::Boolean => DataType::Boolean,
            DataType::Int32 => DataType::Int32,
            DataType::Int64 => DataType::Int64,
            DataType::UInt16 => DataType::UInt16,
            DataType::UInt64 => DataType::UInt64,
            DataType::Utf8 => DataType::Utf8,
            DataType::Decimal64(s) => DataType::Decimal64(*s),
            DataType::Dictionary(k, v) => DataType::Dictionary(
                Box::new((**k).clone()),
                Box::new((**v).clone()),
            ),
        }
    }
}

impl Clone for ScalarValue {
    fn clone(&self) -> (res: Self)
        ensures
            res == *self,
        decreases *self,
    {
        match self {
            ScalarValue::Null => ScalarValue::Null,
            ScalarValue::Boolean(b) => ScalarValue::Boolean(*b),
            ScalarValue::Int32(v) => ScalarValue::Int32(*v),
            ScalarValue::Int64(v) => ScalarValue::Int64(*v),
            ScalarValue::UInt64(v) => ScalarValue::UInt64(*v),
            ScalarValue::Utf8(s) => ScalarValue::Utf8(
                match s {
                    Some(s) => Some(s.clone()),
                    None => None,
                },
            ),
            ScalarValue::Decimal64(m, s) => ScalarValue::Decimal64(*m, *s),
            ScalarValue::Dictionary(k, v) => ScalarValue::Dictionary(
                Box::new((**k).clone()),
                Box::new((**v).clone()),
            ),
        }
    }
}

impl ScalarValue {
    /// The type a value carries.
    pub open spec fn spec_data_type(self) -> DataType
        decreases self,
    {
        match self {
            ScalarValue::Null => DataType::Null,
            ScalarValue::Boolean(_) => DataType::Boolean,
            ScalarValue::Int32(_) => DataType::Int32,
            ScalarValue::Int64(_) => DataType::Int64,
            ScalarValue::UInt64(_) => DataType::UInt64,
            ScalarValue::Utf8(_) => DataType::Utf8,
            ScalarValue::Decimal64(_, s) => DataType::Decimal64(s),
            ScalarValue::Dictionary(k, v) => DataType::Dictionary(
                k,
                Box::new(v.spec_data_type()),
            ),
        }
    }

    /// The type a value carries.
    pub fn data_type(&self) -> (dt: DataType)
        ensures
            dt == self.spec_data_type(),
        decreases *self,
    {
        match self {
            ScalarValue::Null => DataType::Null,
            ScalarValue::Boolean(_) => DataType::Boolean,
            ScalarValue::Int32(_) => DataType::Int32,
            ScalarValue::Int64(_) => DataType::Int64,
            ScalarValue::UInt64(_) => DataType::UInt64,
            ScalarValue::Utf8(_) => DataType::Utf8,
            ScalarValue::Decimal64(_, s) => DataType::Decimal64(*s),
            ScalarValue::Dictionary(k, v) => DataType::Dictionary(
                Box::new((**k).clone()),
                Box::new(v.data_type()),
            ),
        }
    }
}

/// Whether two types are the same.
pub fn data_type_eq(a: &DataType, b: &DataType) -> (r: bool)
    ensures
        r == (a == b),
    decreases *a,
{
    match (a, b) {
        (DataType::Null, DataType::Null) => true,
        (DataType::Boolean, DataType::Boolean) => true,
        (DataType::Int32, DataType::Int32) => true,
        (DataType::Int64, DataType::Int64) => true,
        (DataType::UInt16, DataType::UInt16) => true,
        (DataType::UInt64, DataType::UInt64) => true,
        (DataType::Utf8, DataType::Utf8) => true,
        (DataType::Decimal64(s1), DataType::Decimal64(s2)) => s1 == s2,
        (DataType::Dictionary(k1, v1), DataType::Dictionary(k2, v2)) => {
            data_type_eq(k1, k2) && data_type_eq(v1, v2)
        },
        _ => false,
    }
}

/// The type suitable for a partition column holding values of `val_type`:
/// `Dictionary(UInt16, val_type)`, a trade-off between the number of distinct
/// partition values and space efficiency.
pub fn wrap_partition_type_in_dict(val_type: DataType) -> (r: DataType)
    ensures
        r == DataType::Dictionary(Box::new(DataType::UInt16), Box::new(val_type)),
{
    DataType::Dictionary(Box::new(DataType::UInt16), Box::new(val_type))
}

/// Wraps a partition value to match the type produced by
/// [`wrap_partition_type_in_dict`].
pub fn wrap_partition_value_in_dict(val: ScalarValue) -> (r: ScalarValue)
    ensures
        r == ScalarValue::Dictionary(Box::new(DataType::UInt16), Box::new(val)),
{
    ScalarValue::Dictionary(Box::new(DataType::UInt16), Box::new(val))
}

} // verus!
