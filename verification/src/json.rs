//! A structured payload value: the crate's own model of a JSON document.
//!
//! All decoding and encoding in this crate is phrased over this tree, so the
//! whole transform is ordinary verified code. The boundary that turns wire
//! text into a `Json` value (and back) lives outside the library.

use vstd::prelude::*;

verus! {

/// A JSON-like payload value.
///
/// Object fields keep their order: the encoder emits property maps in
/// sorted-by-key order, and the decoder reads the first occurrence of a key.
#[derive(Debug, PartialEq, Eq)]
pub enum Json {
    Null,
    Bool(bool),
    Int(i64),
    Str(String),
    Arr(Vec<Json>),
    Obj(Vec<(String, Json)>),
}

/// The mathematical shape of a [`Json`] value: strings become character
/// sequences, so two payloads are equal exactly when their texts are.
pub enum JsonModel {
    Null,
    Bool(bool),
    Int(int),
    Str(Seq<char>),
    Arr(Seq<JsonModel>),
    Obj(Seq<(Seq<char>, JsonModel)>),
}

impl Json {
    /// The abstraction of this payload value.
    pub open spec fn model(self) -> JsonModel
        decreases self,
    {
        match self {
            Json::Null => JsonModel::Null,
            Json::Bool(b) => JsonModel::Bool(b),
            Json::Int(i) => JsonModel::Int(i as int),
            Json::Str(s) => JsonModel::Str(s@),
            Json::Arr(v) => JsonModel::Arr(Self::models_of(v@)),
            Json::Obj(v) => JsonModel::Obj(Self::entry_models_of(v@)),
        }
    }

    /// The abstractions of a sequence of payload values, element by element.
    pub open spec fn models_of(s: Seq<Json>) -> Seq<JsonModel>
        decreases s,
    {
        if s.len() == 0 {
            Seq::empty()
        } else {
            seq![s[0].model()] + Self::models_of(s.subrange(1, s.len() as int))
        }
    }

    /// The abstractions of a sequence of object fields, element by element.
    pub open spec fn entry_models_of(s: Seq<(String, Json)>) -> Seq<(Seq<char>, JsonModel)>
        decreases s,
    {
        if s.len() == 0 {
            Seq::empty()
        } else {
            seq![(s[0].0@, s[0].1.model())] + Self::entry_models_of(s.subrange(1, s.len() as int))
        }
    }
}

/// `models_of` maps the sequence pointwise.
pub proof fn lemma_models_of(s: Seq<Json>)
    ensures
        Json::models_of(s).len() == s.len(),
        forall|i: int| 0 <= i < s.len() ==> Json::models_of(s)[i] == s[i].model(),
    decreases s,
{
    if s.len() > 0 {
        lemma_models_of(s.subrange(1, s.len() as int));
    }
}

/// `entry_models_of` maps the sequence pointwise.
pub proof fn lemma_entry_models_of(s: Seq<(String, Json)>)
    ensures
        Json::entry_models_of(s).len() == s.len(),
        forall|i: int| 0 <= i < s.len() ==> Json::entry_models_of(s)[i] == (s[i].0@, s[i].1.model()),
    decreases s,
{
    if s.len() > 0 {
        lemma_entry_models_of(s.subrange(1, s.len() as int));
    }
}

} // verus!
