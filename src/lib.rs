use vstd::prelude::*;

pub mod comments;
pub mod error;
pub mod laws;
pub mod parser;
pub mod serializer;
pub mod text;
pub mod value;

use crate::comments::without_comments;
use crate::error::{WsonParseError, WsonSerializeError};
use crate::parser::{
    brace_text, document_ok, document_segments, entries_match, is_value_error, is_wrapped, parse_wson,
};
use crate::serializer::{document_text, serialize_wson};
use crate::text::trim;
pub use crate::value::{WsonMap, WsonValue};

verus! {

/// Reads a WSON document.
pub fn loads(input: &str) -> (r: Result<WsonMap, WsonParseError>)
    ensures
        !is_wrapped(trim(without_comments(input@, false)), '{', '}') ==> r is Err
            && r->Err_0.line == Some(1usize) && r->Err_0.column == Some(1usize),
        r is Ok ==> r->Ok_0.wf() && entries_match(
            r->Ok_0,
            document_segments(trim(without_comments(input@, false))),
        ),
        r is Ok ==> r->Ok_0.deep_wf(),
        r is Ok <==> document_ok(trim(without_comments(input@, false))),
        !is_wrapped(trim(without_comments(input@, false)), '{', '}') ==> r is Err
            && r->Err_0.message@ == brace_text(),
        is_wrapped(trim(without_comments(input@, false)), '{', '}') && r is Err ==> is_value_error(
            r->Err_0,
        ),
{
    parse_wson(input)
}

/// Writes a WSON document.
pub fn dumps(data: &WsonMap) -> (r: Result<String, WsonSerializeError>)
    requires
        data.deep_wf(),
    ensures
        r is Ok,
        r->Ok_0@ == document_text(*data),
{
    serialize_wson(data)
}

/// Whether the text reads as a WSON document.
pub fn validate(input: &str) -> (r: bool)
    ensures
        r == document_ok(trim(without_comments(input@, false))),
{
    parse_wson(input).is_ok()
}

} // verus!
