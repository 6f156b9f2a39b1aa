//! The schema model: a tree of [`Ty`] nodes.

use vstd::prelude::*;

verus! {

/// One named field of a struct node.
#[derive(Debug)]
pub struct Field {
    pub name: String,
    pub ty: Ty,
}

/// A schema node. The field order of a `Struct` is significant: tag-free
/// layouts are positional, so it is the order in which fields are written
/// and read back.
#[derive(Debug)]
pub enum Ty {
    Bool,
    U64,
    I64,
    F64,
    Bytes,
    String,
    Array { inner: Box<Ty> },
    Struct { fields: Vec<Field> },
}

/// The mathematical model of a schema node.
pub enum Schema {
    Bool,
    U64,
    I64,
    F64,
    Bytes,
    String,
    Array(Box<Schema>),
    Struct(Seq<(Seq<char>, Schema)>),
}

impl Ty {
    /// The model of this node.
    pub open spec fn schema(&self) -> Schema
        decreases self,
    {
        match self {
            Ty::Bool => Schema::Bool,
            Ty::U64 => Schema::U64,
            Ty::I64 => Schema::I64,
            Ty::F64 => Schema::F64,
            Ty::Bytes => Schema::Bytes,
            Ty::String => Schema::String,
            Ty::Array { inner } => Schema::Array(Box::new(inner.schema())),
            Ty::Struct { fields } => Schema::Struct(
                Seq::new(
                    fields@.len(),
                    |i: int|
                        if 0 <= i < fields@.len() {
                            (fields@[i].name@, fields@[i].ty.schema())
                        } else {
                            (Seq::empty(), Schema::Bool)
                        },
                ),
            ),
        }
    }
}

/// The models of a list of fields.
pub open spec fn fields_of(fields: Seq<Field>) -> Seq<(Seq<char>, Schema)> {
    Seq::new(fields.len(), |i: int| fields[i]@)
}

impl Ty {
    /// The model of a struct node is the list of its fields' models.
    pub proof fn lemma_struct_view(fields: Vec<Field>)
        ensures
            (Ty::Struct { fields })@ == Schema::Struct(fields_of(fields@)),
    {
        assert((Ty::Struct { fields })@->Struct_0 =~= fields_of(fields@));
    }
}

impl View for Field {
    type V = (Seq<char>, Schema);

    open spec fn view(&self) -> (Seq<char>, Schema) {
        (self.name@, self.ty.schema())
    }
}

impl View for Ty {
    type V = Schema;

    open spec fn view(&self) -> Schema {
        self.schema()
    }
}

} // verus!
