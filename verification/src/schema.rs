//! Schemas: ordered sequences of named, typed fields, with a metadata map
//! carried as an ordered list of key/value pairs.

use vstd::prelude::*;
use crate::scalar::DataType;

verus! {

/// The mathematical value of a [`Field`].
#[verifier::ext_equal]
pub struct FieldV {
    pub name: String,
    pub data_type: DataType,
    pub nullable: bool,
    pub metadata: Seq<(String, String)>,
}

/// A named, typed column of a schema.
#[derive(Debug, PartialEq, Eq)]
pub struct Field {
    pub name: String,
    pub data_type: DataType,
    pub nullable: bool,
    pub metadata: Vec<(String, String)>,
}

impl View for Field {
    type V = FieldV;

    open spec fn view(&self) -> FieldV {
        FieldV {
            name: self.name,
            data_type: self.data_type,
            nullable: self.nullable,
            metadata: self.metadata@,
        }
    }
}

/// Copies a list of string pairs.
pub fn clone_string_pairs(v: &Vec<(String, String)>) -> (r: Vec<(String, String)>)
    ensures
        r@ == v@,
{
    let mut r: Vec<(String, String)> = Vec::new();
    let mut i: usize = 0;
    while i < v.len()
        invariant
            i <= v.len(),
            r@ =~= v@.take(i as int),
        decreases v.len() - i,
    {
        let (k, val) = &v[i];
        r.push((k.clone(), val.clone()));
        i = i + 1;
    }
    proof {
        assert(r@ =~= v@);
    }
    r
}

impl Clone for Field {
    fn clone(&self) -> (res: Self)
        ensures
            res@ == self@,
    {
        let res = Field {
            name: self.name.clone(),
            data_type: self.data_type.clone(),
            nullable: self.nullable,
            metadata: clone_string_pairs(&self.metadata),
        };
        proof {
            assert(res@ =~= self@);
        }
        res
    }
}

impl Field {
    /// A field with the given name, type and nullability, and no metadata.
    pub fn new(name: String, data_type: DataType, nullable: bool) -> (r: Self)
        ensures
            r@.name == name,
            r@.data_type == data_type,
            r@.nullable == nullable,
            r@.metadata == Seq::<(String, String)>::empty(),
    {
        let r = Field { name, data_type, nullable, metadata: Vec::new() };
        proof {
            assert(r@.metadata =~= Seq::<(String, String)>::empty());
        }
        r
    }

    /// The same field with the given metadata.
    pub fn with_metadata(self, metadata: Vec<(String, String)>) -> (r: Self)
        ensures
            r@ == (FieldV { metadata: metadata@, ..self@ }),
    {
        let r = Field { metadata, ..self };
        proof {
            assert(r@ =~= (FieldV { metadata: metadata@, ..self@ }));
        }
        r
    }

    /// The field's name.
    pub fn name(&self) -> (r: &String)
        ensures
            r == self@.name,
    {
        &self.name
    }

    /// The field's type.
    pub fn data_type(&self) -> (r: &DataType)
        ensures
            r == self@.data_type,
    {
        &self.data_type
    }

    /// Whether the field admits nulls.
    pub fn is_nullable(&self) -> (r: bool)
        ensures
            r == self@.nullable,
    {
        self.nullable
    }

    /// The field's metadata pairs.
    pub fn metadata(&self) -> (r: &Vec<(String, String)>)
        ensures
            r@ == self@.metadata,
    {
        &self.metadata
    }
}

/// The mathematical value of a [`Schema`].
#[verifier::ext_equal]
pub struct SchemaV {
    pub fields: Seq<FieldV>,
    pub metadata: Seq<(String, String)>,
}

/// An ordered sequence of fields plus a schema-level metadata map.
#[derive(Debug, PartialEq, Eq)]
pub struct Schema {
    pub fields: Vec<Field>,
    pub metadata: Vec<(String, String)>,
}

/// The sequence of field values of a sequence of fields.
pub open spec fn fields_view(s: Seq<Field>) -> Seq<FieldV> {
    s.map_values(|f: Field| f@)
}

impl View for Schema {
    type V = SchemaV;

    open spec fn view(&self) -> SchemaV {
        SchemaV { fields: fields_view(self.fields@), metadata: self.metadata@ }
    }
}

/// Copies a list of fields.
pub fn clone_fields(v: &Vec<Field>) -> (r: Vec<Field>)
    ensures
        fields_view(r@) == fields_view(v@),
{
    let mut r: Vec<Field> = Vec::new();
    let mut i: usize = 0;
    while i < v.len()
        invariant
            i <= v.len(),
            r@.len() == i,
            forall|j: int| 0 <= j < i ==> (#[trigger] r@[j])@ == v@[j]@,
        decreases v.len() - i,
    {
        r.push(v[i].clone());
        i = i + 1;
    }
    proof {
        assert(fields_view(r@) =~= fields_view(v@));
    }
    r
}

impl Clone for Schema {
    fn clone(&self) -> (res: Self)
        ensures
            res@ == self@,
    {
        let res = Schema {
            fields: clone_fields(&self.fields),
            metadata: clone_string_pairs(&self.metadata),
        };
        proof {
            assert(res@ =~= self@);
        }
        res
    }
}

impl Schema {
    /// A schema over the given fields, with no metadata.
    pub fn new(fields: Vec<Field>) -> (r: Self)
        ensures
            r@.fields == fields_view(fields@),
            r@.metadata == Seq::<(String, String)>::empty(),
    {
        let r = Schema { fields, metadata: Vec::new() };
        proof {
            assert(r@.metadata =~= Seq::<(String, String)>::empty());
        }
        r
    }

    /// A schema over the given fields and schema-level metadata.
    pub fn new_with_metadata(fields: Vec<Field>, metadata: Vec<(String, String)>) -> (r: Self)
        ensures
            r@.fields == fields_view(fields@),
            r@.metadata == metadata@,
    {
        Schema { fields, metadata }
    }

    /// The schema's fields.
    pub fn fields(&self) -> (r: &Vec<Field>)
        ensures
            fields_view(r@) == self@.fields,
    {
        &self.fields
    }

    /// The field at the given position.
    pub fn field(&self, i: usize) -> (r: &Field)
        requires
            i < self@.fields.len(),
        ensures
            r@ == self@.fields[i as int],
    {
        &self.fields[i]
    }

    /// The number of fields.
    pub fn num_fields(&self) -> (r: usize)
        ensures
            r == self@.fields.len(),
    {
        self.fields.len()
    }

    /// The schema-level metadata pairs.
    pub fn metadata(&self) -> (r: &Vec<(String, String)>)
        ensures
            r@ == self@.metadata,
    {
        &self.metadata
    }
}

} // verus!
