//! The control channel's framing: lines come in one by one, and an empty
//! line ends a request.

use crate::command::{Request, RequestView};
use crate::parse::{is_complete, parse_request, request_value, ParseError};
use crate::text::LF;
use vstd::prelude::*;

verus! {

/// The lines of a request that has not ended yet.
pub struct Framer {
    pending: Vec<u8>,
}

impl View for Framer {
    type V = Seq<u8>;

    /// The text that has come in since the last request ended.
    closed spec fn view(&self) -> Seq<u8> {
        self.pending@
    }
}

impl Framer {
    /// The framer's invariant: what it holds is made of whole lines.
    pub open spec fn wf(self) -> bool {
        self@.len() == 0 || self@.last() == LF
    }

    /// A framer that has seen no line.
    pub fn new() -> (framer: Framer)
        ensures
            framer.wf(),
            framer@ == Seq::<u8>::empty(),
    {
        Framer { pending: Vec::new() }
    }

    /// Takes one line, given without its line end. A line that is not
    /// empty is kept. An empty line ends the request that the kept lines make,
    /// which is read and returned; with no line kept it means nothing.
    pub fn on_line(&mut self, line: &[u8]) -> (request: Option<Result<Request, ParseError>>)
        requires
            old(self).wf(),
        ensures
            final(self).wf(),
            request != Some(Err::<Request, ParseError>(ParseError::Incomplete)),
            line@.len() > 0 ==> request is None && final(self)@ == (old(self)@ + line@).push(LF),
            line@.len() == 0 && old(self)@.len() == 0 ==> request is None && final(self)@ == old(
                self,
            )@,
            line@.len() == 0 && old(self)@.len() > 0 ==> final(self)@ == Seq::<u8>::empty() && (
            match request {
                Some(Ok(r)) => request_value(old(self)@.push(LF)) == Ok::<RequestView, ParseError>(
                    r@,
                ),
                Some(Err(e)) => request_value(old(self)@.push(LF)) == Err::<
                    RequestView,
                    ParseError,
                >(e),
                None => false,
            }),
    {
        if line.len() > 0 {
            self.pending.extend_from_slice(line);
            self.pending.push(LF);
            return None;
        }
        if self.pending.len() == 0 {
            return None;
        }
        self.pending.push(LF);
        let request = parse_request(self.pending.as_slice());
        self.pending.clear();
        Some(request)
    }

    /// Takes the end of the stream: lines that were kept make a request
    /// without its end, which is incomplete.
    pub fn on_end(&mut self) -> (error: Option<ParseError>)
        ensures
            final(self).wf(),
            final(self)@ == Seq::<u8>::empty(),
            error == if old(self)@.len() > 0 {
                Some(ParseError::Incomplete)
            } else {
                None
            },
    {
        let pending = self.pending.len() > 0;
        self.pending.clear();
        if pending {
            Some(ParseError::Incomplete)
        } else {
            None
        }
    }
}

/// The text that the framer holds after it took a line that is not empty.
pub open spec fn kept(pending: Seq<u8>, line: Seq<u8>) -> Seq<u8> {
    (pending + line).push(LF)
}

/// What the framer hands to the reader is never incomplete: kept lines end
/// with a line end, and the empty line adds the second.
pub proof fn lemma_framed_is_complete(pending: Seq<u8>, line: Seq<u8>)
    ensures
        is_complete(kept(pending, line).push(LF)),
        request_value(kept(pending, line).push(LF)) != Err::<RequestView, ParseError>(
            ParseError::Incomplete,
        ),
{
}

} // verus!
