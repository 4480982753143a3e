//! The session-snapshot parser: an input shaped `Moment.from({ ... })`,
//! pasted verbatim from a triage report, becomes a parameter store whose
//! keys all live under the fixed debugging namespace, numeric values coerced
//! to their decimal text.
use vstd::prelude::*;

use crate::error::Error;
use crate::ingest::{json5_doc, json5_top_level, DocV, Json5Doc};
use crate::params::{entries_view, spec_merge, store_of_entries, wf, Params, Val, Value};
use crate::strutil::{
    has_prefix, lemma_trim_idempotent, spec_has_prefix, trim, trim_spec,
};

verus! {

pub open spec fn moment_prefix() -> Seq<char> {
    "Moment.from("@
}

/// The input, after trimming surrounding whitespace, starts with
/// `Moment.from(` and ends with `)`.
pub open spec fn spec_is_moment(s: Seq<char>) -> bool {
    spec_has_prefix(trim_spec(s), moment_prefix()) && trim_spec(s).len() > 0 && trim_spec(
        s,
    ).last() == ')'
}

/// The object-literal text between the envelope's prefix and its closing
/// parenthesis, in the trimmed input.
pub open spec fn moment_inner(s: Seq<char>) -> Seq<char> {
    trim_spec(s).subrange(moment_prefix().len() as int, trim_spec(s).len() - 1)
}

/// Every snapshot key moves under the fixed debugging namespace.
pub open spec fn dbg_key(k: Seq<char>) -> Seq<char> {
    "antithesis.debugging."@ + k
}

/// Numeric snapshot values are coerced to their decimal text before storage;
/// all other values pass through unchanged.
pub open spec fn coerce_num(v: Val) -> Val {
    match v {
        Val::Num(t) => Val::Str(t),
        other => other,
    }
}

/// The top-level entries of a snapshot object, namespaced and coerced.
pub open spec fn namespaced(es: Seq<(Seq<char>, Val)>) -> Seq<(Seq<char>, Val)> {
    es.map_values(|e: (Seq<char>, Val)| (dbg_key(e.0), coerce_num(e.1)))
}

/// Check if input looks like a Moment.from format. Pure detection: it
/// consumes nothing, and ignores surrounding whitespace.
pub fn is_moment_format(input: &str) -> (r: bool)
    ensures
        r == spec_is_moment(input@),
{
    let t = trim(input);
    if !has_prefix(t, "Moment.from(") {
        return false;
    }
    let n = t.unicode_len();
    proof {
        reveal_strlit("Moment.from(");
    }
    t.get_char(n - 1) == ')'
}

/// Snapshot detection is insensitive to surrounding whitespace: the
/// predicate agrees on any input and on its trimmed form.
pub proof fn lemma_is_moment_trim_invariant(s: Seq<char>)
    ensures
        spec_is_moment(s) == spec_is_moment(trim_spec(s)),
{
    lemma_trim_idempotent(s);
}

/// Parse a Moment.from format string into a parameter store.
///
/// The envelope must match the snapshot shape and enclose a JSON5 object;
/// every key `k` of the object becomes `antithesis.debugging.k`, and every
/// numeric value becomes its decimal text. Anything else is rejected.
pub fn parse(input: &str) -> (r: Result<Params, Error>)
    ensures
        !spec_is_moment(input@) ==> (r matches Err(e) && e is InvalidArgs),
        spec_is_moment(input@) ==> match json5_doc(moment_inner(input@)) {
            Some(DocV::Object(es)) => r matches Ok(p) && p@ == store_of_entries(namespaced(es))
                && wf(p@),
            Some(DocV::NotObject) => r matches Err(e) && e is InvalidArgs,
            None => r matches Err(e) && e is InvalidArgs,
        },
{
    let t = trim(input);
    if !has_prefix(t, "Moment.from(") {
        return Err(Error::InvalidArgs("expected Moment.from({ ... }) format".to_owned()));
    }
    let n = t.unicode_len();
    proof {
        reveal_strlit("Moment.from(");
    }
    if t.get_char(n - 1) != ')' {
        return Err(Error::InvalidArgs("expected Moment.from({ ... }) format".to_owned()));
    }
    proof {
        assert(n > 12) by {
            assert(t@.subrange(0, 12)[11] == t@[11]);
        }
    }
    let inner = t.substring_char(12, n - 1);
    proof {
        assert(inner@ =~= moment_inner(input@));
    }
    match json5_top_level(inner) {
        Err(msg) => {
            let mut m = "invalid Moment.from format: ".to_owned();
            m.append(msg.as_str());
            Err(Error::InvalidArgs(m))
        },
        Ok(Json5Doc::NotObject) => Err(
            Error::InvalidArgs("Moment.from must contain an object".to_owned()),
        ),
        Ok(Json5Doc::Object(es)) => {
            let ghost model = namespaced(entries_view(es@));
            let mut p = Params::from_empty();
            let mut i: usize = 0;
            while i < es.len()
                invariant
                    0 <= i <= es.len(),
                    model == namespaced(entries_view(es@)),
                    model.len() == es.len(),
                    wf(p@),
                    p@ == spec_merge(Seq::empty(), model.take(i as int)),
                decreases es.len() - i,
            {
                let e = &es[i];
                let mut k = "antithesis.debugging.".to_owned();
                k.append(e.0.as_str());
                let v = match &e.1 {
                    Value::Num(txt) => Value::Str(txt.clone()),
                    other => other.duplicate(),
                };
                proof {
                    assert(k@ == dbg_key(es@[i as int].0@));
                    assert(v@ == coerce_num(es@[i as int].1@));
                    assert(model[i as int] == (dbg_key(es@[i as int].0@), coerce_num(
                        es@[i as int].1@,
                    )));
                }
                p.insert(k.as_str(), v);
                proof {
                    assert(model.take(i + 1).drop_last() =~= model.take(i as int));
                    assert(model.take(i + 1).last() == model[i as int]);
                }
                i = i + 1;
            }
            proof {
                assert(model.take(es.len() as int) =~= model);
            }
            Ok(p)
        },
    }
}

} // verus!
