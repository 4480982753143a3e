//! The structured-value ingester: a JSON5 document becomes a parameter
//! store when it is an object at the top level, each top-level entry one
//! store entry, the caller's literal value types preserved.
use vstd::prelude::*;

use crate::error::Error;
use crate::params::{entries_view, spec_merge, store_of_entries, wf, Params, Val, Value};

verus! {

/// The top level of a parsed document, as the ingester reads it.
pub enum DocV {
    NotObject,
    Object(Seq<(Seq<char>, Val)>),
}

/// The top level of a parsed JSON5 document: either not an object, or the
/// ordered list of its top-level entries, each value carried as the
/// library's own value type.
pub enum Json5Doc {
    NotObject,
    Object(Vec<(String, Value)>),
}

impl View for Json5Doc {
    type V = DocV;

    open spec fn view(&self) -> DocV {
        match self {
            Json5Doc::NotObject => DocV::NotObject,
            Json5Doc::Object(es) => DocV::Object(entries_view(es@)),
        }
    }
}

/// What json5 parsing yields on a given text: nothing when the text is not
/// a valid JSON5 document, otherwise the top level as the ingester reads it.
pub uninterp spec fn json5_doc(s: Seq<char>) -> Option<DocV>;

/// Relies on `json5::from_str::<serde_json::Value>` (json5 crate): it parses
/// a JSON5 document, deterministically in the input text alone. The match
/// carries the parsed top level over into the library's value type, one arm
/// per variant: scalars move over, a number becomes its canonical decimal
/// text and a nested array or object its compact JSON text (both serde_json
/// renderings), and a non-object top level is reported as such.
#[verifier::external_body]
pub(crate) fn json5_top_level(s: &str) -> (r: Result<Json5Doc, String>)
    ensures
        r is Ok <==> json5_doc(s@) is Some,
        r matches Ok(d) ==> Some(d@) == json5_doc(s@),
{
    match json5::from_str::<serde_json::Value>(s) {
        Err(e) => Err(e.to_string()),
        Ok(serde_json::Value::Object(m)) => Ok(Json5Doc::Object(
            m.into_iter().map(|(k, v)| (k, match v {
                serde_json::Value::Null => Value::Null,
                serde_json::Value::Bool(b) => Value::Bool(b),
                serde_json::Value::Number(n) => Value::Num(n.to_string()),
                serde_json::Value::String(t) => Value::Str(t),
                other => Value::Json(other.to_string()),
            })).collect(),
        )),
        Ok(_) => Ok(Json5Doc::NotObject),
    }
}

impl Params {
    /// Build a store from a parsed document's top level. The document must
    /// be an object; each of its entries becomes one store entry, a repeated
    /// key overwriting the earlier one.
    pub fn from_json(doc: Json5Doc) -> (r: Result<Params, Error>)
        ensures
            match r {
                Ok(p) => doc@ matches DocV::Object(es) && p@ == store_of_entries(es) && wf(p@),
                Err(e) => doc@ is NotObject && e is InvalidArgs,
            },
    {
        match doc {
            Json5Doc::NotObject => Err(
                Error::InvalidArgs("expected a JSON object at the top level".to_owned()),
            ),
            Json5Doc::Object(es) => {
                let ghost model = entries_view(es@);
                let mut p = Params::from_empty();
                let mut i: usize = 0;
                while i < es.len()
                    invariant
                        0 <= i <= es.len(),
                        model == entries_view(es@),
                        model.len() == es.len(),
                        wf(p@),
                        p@ == spec_merge(Seq::empty(), model.take(i as int)),
                    decreases es.len() - i,
                {
                    let e = &es[i];
                    let v = e.1.duplicate();
                    p.insert(e.0.as_str(), v);
                    proof {
                        assert(model.take(i + 1).drop_last() =~= model.take(i as int));
                        assert(model.take(i + 1).last() == model[i as int]);
                    }
                    i = i + 1;
                }
                proof {
                    assert(model.take(es.len() as int) =~= model);
                }
                Ok(p)
            },
        }
    }

    /// Ingest a JSON5 document: it must parse, and must be an object at the
    /// top level; anything else is rejected.
    pub fn from_json5_str(s: &str) -> (r: Result<Params, Error>)
        ensures
            match json5_doc(s@) {
                Some(DocV::Object(es)) => r matches Ok(p) && p@ == store_of_entries(es) && wf(p@),
                Some(DocV::NotObject) => r matches Err(e) && e is InvalidArgs,
                None => r matches Err(e) && e is InvalidArgs,
            },
    {
        match json5_top_level(s) {
            Err(msg) => {
                let mut m = "invalid JSON: ".to_owned();
                m.append(msg.as_str());
                Err(Error::InvalidArgs(m))
            },
            Ok(doc) => Params::from_json(doc),
        }
    }
}

} // verus!
