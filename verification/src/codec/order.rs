//! The order in which decoding puts the members of an object: that of the
//! schema.

use crate::ty::Schema;
use crate::value::Value;
use vstd::prelude::*;

verus! {

/// The names of the first `k` fields in schema order, each where it first
/// occurs.
pub open spec fn first_names(fields: Seq<(Seq<char>, Schema)>, k: nat) -> Seq<Seq<char>>
    decreases k,
{
    if k == 0 || k > fields.len() {
        Seq::empty()
    } else {
        let prev = first_names(fields, (k - 1) as nat);
        if prev.contains(fields[k - 1].0) {
            prev
        } else {
            prev.push(fields[k - 1].0)
        }
    }
}

/// Whether none of the first `k` fields after field `j` has the name of
/// field `j`.
pub open spec fn last_of_its_name(fields: Seq<(Seq<char>, Schema)>, j: int, k: nat) -> bool {
    forall|l: int| j < l < k ==> (#[trigger] fields[l]).0 != fields[j].0
}

/// Whether a value keeps the schema's order at every depth: the keys of an
/// object under a struct node are the names of the node's fields in schema
/// order, each name once, and the value under each name keeps the order of
/// the field of that name, of the last such field where a name occurs more
/// than once; the elements of an array keep the order of the array's
/// element node.
pub open spec fn in_schema_order(ty: Schema, value: Value) -> bool
    decreases ty,
{
    match ty {
        Schema::Array(inner) => match value {
            Value::Array(items) => forall|i: int|
                0 <= i < items@.len() ==> in_schema_order(*inner, #[trigger] items@[i]),
            _ => true,
        },
        Schema::Struct(fields) => match value {
            Value::Object(object) => object.keys() == first_names(fields, fields.len())
                && forall|j: int|
                0 <= j < fields.len() && last_of_its_name(fields, j, fields.len())
                    ==> in_schema_order((#[trigger] fields[j]).1, object.value_of(fields[j].0)),
            _ => true,
        },
        _ => true,
    }
}

} // verus!
