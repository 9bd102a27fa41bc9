//! The wire value type: every value that can travel over the protocol,
//! together with its mathematical model.

use vstd::prelude::*;

verus! {

broadcast use vstd::std_specs::vec::group_vec_axioms, vstd::seq::group_seq_axioms;

/// A protocol value. Text payloads are held as their wire bytes, so the
/// codec's framing is exact at the byte level.
#[derive(Debug, PartialEq, Eq)]
pub enum Value {
    SimpleString(Vec<u8>),
    Error(Vec<u8>),
    Integer(i64),
    BulkString(Vec<u8>),
    Null,
    Array(Vec<Value>),
}

/// The mathematical model of a `Value`: byte sequences and unbounded
/// integers in place of vectors and machine words.
pub enum ValueModel {
    SimpleString(Seq<u8>),
    Error(Seq<u8>),
    Integer(int),
    BulkString(Seq<u8>),
    Null,
    Array(Seq<ValueModel>),
}

/// The models of a sequence of values, element by element.
pub open spec fn models_of(items: Seq<Value>) -> Seq<ValueModel>
    decreases items,
{
    if items.len() == 0 {
        Seq::empty()
    } else {
        seq![items[0].model()] + models_of(items.subrange(1, items.len() as int))
    }
}

impl Value {
    /// The model of this value.
    pub open spec fn model(self) -> ValueModel
        decreases self,
    {
        match self {
            Value::SimpleString(s) => ValueModel::SimpleString(s@),
            Value::Error(s) => ValueModel::Error(s@),
            Value::Integer(i) => ValueModel::Integer(i as int),
            Value::BulkString(s) => ValueModel::BulkString(s@),
            Value::Null => ValueModel::Null,
            Value::Array(items) => ValueModel::Array(models_of(items@)),
        }
    }
}

/// `models_of` maps each element to its model and keeps the length.
pub proof fn lemma_models_of(items: Seq<Value>)
    ensures
        models_of(items).len() == items.len(),
        forall|i: int| 0 <= i < items.len() ==> #[trigger] models_of(items)[i] == items[i].model(),
    decreases items.len(),
{
    if items.len() > 0 {
        lemma_models_of(items.subrange(1, items.len() as int));
    }
}

impl Value {
    /// A structural copy whose model is the same as this value's.
    pub fn duplicate(&self) -> (r: Value)
        ensures
            r.model() == self.model(),
        decreases *self,
    {
        match self {
            Value::SimpleString(s) => Value::SimpleString(s.clone()),
            Value::Error(s) => Value::Error(s.clone()),
            Value::Integer(i) => Value::Integer(*i),
            Value::BulkString(s) => Value::BulkString(s.clone()),
            Value::Null => Value::Null,
            Value::Array(items) => {
                let mut out: Vec<Value> = Vec::new();
                let n = items.len();
                let mut k: usize = 0;
                while k < n
                    invariant
                        *self == Value::Array(*items),
                        n == items@.len(),
                        k <= n,
                        out@.len() == k as int,
                        forall|j: int| 0 <= j < k ==> #[trigger] out@[j].model() == items@[j].model(),
                    decreases n - k,
                {
                    proof {
                        assert(decreases_to!(*self => (*self)->Array_0));
                    }
                    out.push(items[k].duplicate());
                    k = k + 1;
                }
                proof {
                    lemma_models_of(out@);
                    lemma_models_of(items@);
                    assert(models_of(out@) =~= models_of(items@));
                }
                Value::Array(out)
            }
        }
    }
}

} // verus!
