//! All events of an input at once.
use crate::error::{Error, ErrorView, ParserConfig};
use crate::parser::event::{Event, EventView};
use crate::parser::model::{NextEvent, Parse};
use crate::parser::Parser;
use crate::scanner::cursor::MAX_INPUT;
use vstd::prelude::*;
use vstd::string::*;

verus! {

/// The events up to the end of the stream or the first error, and that error.
pub struct Stream {
    pub events: Seq<EventView>,
    pub error: Option<ErrorView>,
}

/// The events that a parser gives from a state on. Each leaves less to parse.
pub open spec fn stream(p: Parse) -> Stream
    decreases p.rank(),
{
    match p.next() {
        NextEvent::End(_) => Stream { events: seq![], error: None },
        NextEvent::Failed(e) => Stream { events: seq![], error: Some(e) },
        NextEvent::Event(e, q) => if 0 <= q.rank() < p.rank() {
            let rest = stream(q);
            Stream { events: seq![e] + rest.events, error: rest.error }
        } else {
            Stream { events: seq![e], error: None }
        },
    }
}

/// The values of some events.
pub open spec fn event_views<'a>(s: Seq<Event<'a>>) -> Seq<EventView> {
    Seq::new(s.len(), |i: int| s[i]@)
}

/// Parses `input` into all its events: those before the first error, and that
/// error if there is one.
pub fn collect_events<'a>(input: &'a str, config: ParserConfig) -> (r: (
    Vec<Event<'a>>,
    Option<Error>,
))
    requires
        input.spec_bytes().len() <= MAX_INPUT,
    ensures
        event_views(r.0@) == stream(Parse::fresh(input.spec_bytes(), config.limits)).events,
        r.1 is Some == stream(
            Parse::fresh(input.spec_bytes(), config.limits),
        ).error is Some,
        r.1 matches Some(e) ==> Some(e@) == stream(
            Parse::fresh(input.spec_bytes(), config.limits),
        ).error,
{
    let mut parser = Parser::with_config(input, config);
    let mut events: Vec<Event<'a>> = Vec::new();
    let ghost goal = stream(parser@);
    assert(event_views(events@) + goal.events =~= goal.events);
    loop
        invariant
            parser.wf(),
            parser@.stacked(),
            !parser@.errored,
            goal == stream(Parse::fresh(input.spec_bytes(), config.limits)),
            event_views(events@) + stream(parser@).events == goal.events,
            stream(parser@).error == goal.error,
        decreases parser@.rank(),
    {
        match parser.next_event() {
            None => {
                assert(event_views(events@) =~= goal.events);
                return (events, None);
            },
            Some(Err(e)) => {
                assert(event_views(events@) =~= goal.events);
                return (events, Some(e));
            },
            Some(Ok(event)) => {
                let ghost before = events@;
                events.push(event);
                assert(event_views(events@) =~= event_views(before) + seq![event@]);
                assert(event_views(events@) + stream(parser@).events =~= goal.events);
            },
        }
    }
}

} // verus!
