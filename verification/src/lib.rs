//! Parameter model for a command-line client of a remote test-launch API:
//! a flat dotted-key parameter store, the parsers that populate it from
//! `--key value` argument pairs, JSON5 documents, and pasted session
//! snapshots, the merge step that combines the sources, per-command
//! validation, and a display-redaction transform.
pub mod cli;
pub mod error;
pub mod ingest;
pub mod moment;
pub mod params;
pub mod strutil;

use vstd::prelude::*;

use crate::error::Error;
use crate::ingest::{json5_doc, DocV};
use crate::moment::{moment_inner, namespaced, spec_is_moment};
use crate::params::{parse_args, spec_merge, store_of_entries, wf, Params, StoreModel};

verus! {

/// What reading the standard-input text with the selected parser yields:
/// the snapshot parser when it is enabled and the text has the snapshot
/// shape, the generic JSON5 ingester otherwise.
pub open spec fn spec_stdin_store(s: Seq<char>, support_moment: bool) -> Option<StoreModel> {
    if support_moment && spec_is_moment(s) {
        match json5_doc(moment_inner(s)) {
            Some(DocV::Object(es)) => Some(store_of_entries(namespaced(es))),
            _ => None,
        }
    } else {
        match json5_doc(s) {
            Some(DocV::Object(es)) => Some(store_of_entries(es)),
            _ => None,
        }
    }
}

/// What assembling the two sources yields: each present source must parse,
/// argument-pair parameters take precedence over standard-input parameters
/// on a key collision, and at least one source must be present.
pub open spec fn spec_get_params(
    stdin_text: Option<Seq<char>>,
    toks: Seq<Seq<char>>,
    support_moment: bool,
) -> Option<StoreModel> {
    match stdin_text {
        Some(s) => match spec_stdin_store(s, support_moment) {
            None => None,
            Some(sd) => if toks.len() == 0 {
                Some(sd)
            } else {
                match parse_args(toks) {
                    None => None,
                    Some(ar) => Some(spec_merge(sd, ar)),
                }
            },
        },
        None => if toks.len() == 0 {
            None
        } else {
            parse_args(toks)
        },
    }
}

/// Gather the parameters of one command invocation: parse the standard-input
/// text if one was supplied (as a session snapshot when `support_moment` is
/// set and the text has the snapshot shape, as a JSON5 object otherwise),
/// parse the trailing argument tokens if any were supplied, and merge the
/// two with the argument-pair parameters taking precedence. Supplying
/// neither source is an error.
pub fn get_params(stdin_text: Option<&str>, args: &Vec<String>, support_moment: bool) -> (r:
    Result<Params, Error>)
    ensures
        ({
            let sd = match stdin_text {
                Some(s) => Some(s@),
                None => None::<Seq<char>>,
            };
            match r {
                Ok(p) => spec_get_params(sd, args.deep_view(), support_moment) == Some(p@) && wf(
                    p@,
                ),
                Err(e) => spec_get_params(sd, args.deep_view(), support_moment) is None
                    && e is InvalidArgs,
            }
        }),
        (stdin_text is None && args.deep_view().len() == 0) ==> (r matches Err(
            Error::InvalidArgs(m),
        ) && m@ == "no parameters provided"@),
{
    let stdin_params = match stdin_text {
        Some(s) => {
            if support_moment && crate::moment::is_moment_format(s) {
                match crate::moment::parse(s) {
                    Ok(p) => Some(p),
                    Err(e) => {
                        return Err(e);
                    },
                }
            } else {
                match Params::from_json5_str(s) {
                    Ok(p) => Some(p),
                    Err(e) => {
                        return Err(e);
                    },
                }
            }
        },
        None => None,
    };
    let args_params = if args.len() > 0 {
        match Params::from_args(args) {
            Ok(p) => Some(p),
            Err(e) => {
                return Err(e);
            },
        }
    } else {
        None
    };
    match (stdin_params, args_params) {
        (Some(mut sd), Some(ar)) => {
            sd.merge(ar);
            Ok(sd)
        },
        (Some(sd), None) => Ok(sd),
        (None, Some(ar)) => Ok(ar),
        (None, None) => Err(Error::InvalidArgs("no parameters provided".to_owned())),
    }
}

} // verus!
