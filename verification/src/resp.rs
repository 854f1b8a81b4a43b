//! The protocol value model: the in-memory representation of wire values.

use vstd::prelude::*;

verus! {

/// One protocol value, as decoded from or encoded to the wire.
///
/// `SimpleString` carries short line-oriented text (no embedded CR or LF);
/// `BulkString` carries length-prefixed text; `Array` frames a client
/// command as a sequence of values; `Null` is the absence of a value; and
/// `Error` carries an error line.
#[derive(Debug, PartialEq, Eq)]
pub enum Value {
    SimpleString(String),
    BulkString(String),
    Array(Vec<Value>),
    Null,
    Error(String),
}

/// The mathematical shape of a [`Value`]: the same tree with every string
/// replaced by its character sequence.
pub enum ValueModel {
    SimpleString(Seq<char>),
    BulkString(Seq<char>),
    Array(Seq<ValueModel>),
    Null,
    Error(Seq<char>),
}

/// The model of a value: each `String` becomes its `Seq<char>` view.
pub open spec fn value_model(v: Value) -> ValueModel
    decreases v,
{
    match v {
        Value::SimpleString(s) => ValueModel::SimpleString(s@),
        Value::BulkString(s) => ValueModel::BulkString(s@),
        Value::Array(vs) => ValueModel::Array(value_models(vs@)),
        Value::Null => ValueModel::Null,
        Value::Error(s) => ValueModel::Error(s@),
    }
}

/// The models of a sequence of values, element by element.
pub open spec fn value_models(vs: Seq<Value>) -> Seq<ValueModel>
    decreases vs,
{
    if vs.len() == 0 {
        Seq::empty()
    } else {
        value_models(vs.subrange(0, vs.len() - 1)).push(value_model(vs[vs.len() - 1]))
    }
}

impl View for Value {
    type V = ValueModel;

    open spec fn view(&self) -> ValueModel {
        value_model(*self)
    }
}

pub proof fn lemma_value_models_index(vs: Seq<Value>, i: int)
    requires
        0 <= i < vs.len(),
    ensures
        value_models(vs).len() == vs.len(),
        value_models(vs)[i] == value_model(vs[i]),
    decreases vs,
{
    lemma_value_models_len(vs);
    if vs.len() > 0 {
        let head = vs.subrange(0, vs.len() - 1);
        if i < vs.len() - 1 {
            assert(head[i] == vs[i]);
            lemma_value_models_index(head, i);
        }
    }
}

pub proof fn lemma_value_models_len(vs: Seq<Value>)
    ensures
        value_models(vs).len() == vs.len(),
    decreases vs,
{
    if vs.len() > 0 {
        lemma_value_models_len(vs.subrange(0, vs.len() - 1));
    }
}

} // verus!
