//! Equality of document values: two values are equal where their models
//! are, whatever the order of an object's members.

use crate::text::str_eq;
use crate::value::{docs_of, Object, Value};
use vstd::prelude::*;
use vstd::std_specs::cmp::PartialEqSpecImpl;

verus! {

impl Value {
    /// Whether `self` and `other` have the same model.
    pub fn same(&self, other: &Value) -> (r: bool)
        ensures
            r == (self@ == other@),
        decreases self,
    {
        match (self, other) {
            (Value::Null, Value::Null) => true,
            (Value::Bool(a), Value::Bool(b)) => *a == *b,
            (Value::Number(a), Value::Number(b)) => a.get() == b.get(),
            (Value::String(a), Value::String(b)) => str_eq(a.as_str(), b.as_str()),
            (Value::Array(a), Value::Array(b)) => {
                proof {
                    Value::lemma_array_view(*a);
                    Value::lemma_array_view(*b);
                }
                same_items(a, b)
            },
            (Value::Object(a), Value::Object(b)) => same_members(a, b),
            _ => false,
        }
    }
}

/// Whether two lists of values have the same models.
#[verifier::loop_isolation(false)]
fn same_items(a: &Vec<Value>, b: &Vec<Value>) -> (r: bool)
    ensures
        r == (docs_of(a@) == docs_of(b@)),
    decreases a,
{
    if a.len() != b.len() {
        return false;
    }
    let mut i: usize = 0;
    while i < a.len()
        invariant
            i <= a@.len(),
            forall|j: int| 0 <= j < i ==> docs_of(a@)[j] == docs_of(b@)[j],
        decreases a@.len() - i,
    {
        if !a[i].same(&b[i]) {
            assert(docs_of(a@)[i as int] != docs_of(b@)[i as int]);
            return false;
        }
        i += 1;
    }
    assert(docs_of(a@) =~= docs_of(b@));
    true
}

/// Whether two objects stand for the same mapping.
#[verifier::loop_isolation(false)]
fn same_members(a: &Object, b: &Object) -> (r: bool)
    ensures
        r == (a@ == b@),
    decreases a,
{
    let n = a.len();
    if n != b.len() {
        return false;
    }
    let mut i: usize = 0;
    while i < n
        invariant
            i <= n,
            forall|j: int|
                0 <= j < i ==> b@.contains_key(#[trigger] a.keys()[j]) && a@[a.keys()[j]]
                    == b@[a.keys()[j]],
        decreases n - i,
    {
        match a.entry(i) {
            Some((key, value)) => match b.get(key.as_str()) {
                Some(twin) => {
                    if !value.same(twin) {
                        return false;
                    }
                },
                None => {
                    return false;
                },
            },
            None => {},
        }
        i += 1;
    }
    proof {
        assert forall|k: Seq<char>| a@.dom().contains(k) implies b@.dom().contains(k) by {
            let j = choose|j: int| 0 <= j < a.keys().len() && a.keys()[j] == k;
        }
        vstd::set_lib::lemma_subset_equality(a@.dom(), b@.dom());
        assert forall|k: Seq<char>| a@.dom().contains(k) implies a@[k] == b@[k] by {
            let j = choose|j: int| 0 <= j < a.keys().len() && a.keys()[j] == k;
        }
        assert(a@ =~= b@);
    }
    true
}

impl PartialEq for Value {
    fn eq(&self, other: &Value) -> (r: bool) {
        self.same(other)
    }
}

impl PartialEqSpecImpl for Value {
    open spec fn obeys_eq_spec() -> bool {
        true
    }

    open spec fn eq_spec(&self, other: &Value) -> bool {
        self@ == other@
    }
}

} // verus!
