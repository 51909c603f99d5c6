//! Writing an event stream as JSON text: the events are rebuilt into a
//! value, which is then written compact or pretty.

use vstd::prelude::*;

use crate::error::ToonError;
use crate::stream::JsonStreamEvent;
use crate::stream::ev_parse;
use crate::stream::evs_m;
use crate::stream::value_of_events;

verus! {

/// The JSON text of the value a balanced event sequence describes, as
/// one chunk; unbalanced or trailing events are errors.
pub fn json_stream_from_events(events: Vec<JsonStreamEvent>, indent: usize) -> (r: Result<
    Vec<String>,
    ToonError,
>)
    ensures
        r matches Ok(ch) ==> (ev_parse(evs_m(events@), 0) matches Some((v, j)) && j == evs_m(
            events@,
        ).len() && ch@.len() == 1 && ch@[0]@ == crate::cli::json_stringify::json_text(
            v,
            indent as int,
            0,
        )),
        r matches Err(_) ==> !(ev_parse(evs_m(events@), 0) matches Some((v, j)) && j == evs_m(
            events@,
        ).len()),
{
    let ghost evs = evs_m(events@);
    let v = value_of_events(events)?;
    Ok(crate::cli::json_stringify::json_stringify_lines(&v, indent))
}

} // verus!
