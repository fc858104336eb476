//! Pipeline dispatcher: one connection's read → parse → handle → serialize →
//! write cycle.
//!
//! The dispatcher owns the connection's request (with its inbound buffer) and
//! the outbound buffer, and exposes a poll-style step function free of I/O:
//! the caller feeds bytes in as the transport yields them, drains serialized
//! bytes out, and calls [`PipelineDispatcher::dispatch`] to make progress.
//! Each step reports what it needs next; the caller loops while steps report
//! progress and suspends on would-block.  Responses enter the outbound buffer
//! in the exact order their requests were parsed, and no byte of a later
//! pipelined request is consumed as part of an earlier one.

use vstd::prelude::*;

use crate::buffer::ByteBuffer;
use crate::error::Error;
use crate::grammar::parse_head;
use crate::response::head_bytes;
use crate::grammar::HeadOutcome;
use crate::request::Request;
use crate::response::Response;

verus! {

/// What a handler's poll yielded: a finished response, not ready yet (poll
/// again on a later cycle), or failure.
pub enum HandlerPoll {
    /// The response is ready to serialize.
    Ready(Response),
    /// The handler is still working; the dispatcher re-polls next cycle.
    NotReady,
    /// The handler failed; the dispatcher sends a fallback error response.
    Failed,
}

/// The application capability: asked once per dispatch cycle while a request
/// is outstanding, it yields the response when done.  `keep_alive` is the
/// configuration point for processing further pipelined requests on the same
/// connection; the conservative default is to close after one response.
pub trait HttpHandler {
    /// Make progress on the given request.  A `Ready` response built through
    /// [`Response`]'s interface is always well-formed.
    fn call(&mut self, req: &Request) -> (r: HandlerPoll)
        requires
            req.wf(),
        ensures
            r matches HandlerPoll::Ready(resp) ==> resp.wf(),
    ;

    /// Process further pipelined requests after a response completes, rather
    /// than closing the connection.  Asked once, when the connection's
    /// dispatcher is created.
    fn keep_alive(&self) -> bool;
}

/// Capability to create one handler per connection.
pub trait NewHandler {
    /// The handler this factory creates.
    type Handler;

    /// Create a handler for a new connection.
    fn new_handler(&self) -> Self::Handler;
}

/// What one dispatch step did, and what the connection needs next.
#[derive(Debug, PartialEq, Eq, Structural, Clone, Copy)]
pub enum Progress {
    /// A step completed; call `dispatch` again.
    Advanced,
    /// Blocked until more inbound bytes arrive (or end of stream is noted).
    NeedInput,
    /// Blocked until the handler's next poll; call `dispatch` again when the
    /// scheduler wakes the connection.
    WaitHandler,
    /// Blocked until serialized bytes are drained with `write_to`.
    NeedWrite,
    /// The connection is finished; nothing more will happen.
    Done,
}

/// The dispatcher's position in one request/response cycle.
#[derive(Debug, PartialEq, Eq, Structural, Clone, Copy)]
pub enum DispatchState {
    /// Waiting for inbound bytes.
    Reading,
    /// Bytes are buffered and not yet scanned.
    Parsing,
    /// A parsed head awaits the handler's response.
    AwaitingHandler,
    /// A serialized response awaits draining.
    Writing,
    /// The finished request's bytes are being shifted out.
    Retiring,
    /// A fatal error's best-effort response awaits draining; the error is
    /// reported once it has drained.
    Closing,
    /// Nothing more will happen.
    Closed,
}

/// The status line and head of the best-effort response sent for a fatal
/// error: the given status with no collected headers.
pub open spec fn error_response_bytes(minor: u8, code: u16, reason: Seq<char>) -> Seq<u8> {
    head_bytes(minor, code, reason, Seq::<(Seq<char>, Seq<char>)>::empty())
}

/// Per-connection pipeline dispatcher.
pub struct PipelineDispatcher<H> {
    req: Request,
    outbuf: ByteBuffer,
    handler: H,
    state: DispatchState,
    peer_closed: bool,
    pending_skip: u64,
    fatal: Option<Error>,
    keep_alive: bool,
}

impl<H: HttpHandler> PipelineDispatcher<H> {
    /// The inbound buffer's unconsumed bytes.
    pub open spec fn inbound(&self) -> Seq<u8> {
        self.spec_req().contents()
    }

    /// Serialized response bytes not yet drained.
    pub closed spec fn outbound(&self) -> Seq<u8> {
        self.outbuf@
    }

    /// Position in the cycle.
    pub closed spec fn phase(&self) -> DispatchState {
        self.state
    }

    /// The current request.
    pub closed spec fn spec_req(&self) -> Request {
        self.req
    }

    /// End of stream has been noted.
    pub closed spec fn peer_done(&self) -> bool {
        self.peer_closed
    }

    /// Body bytes of the retired request still to be shifted out.
    pub closed spec fn skip_pending(&self) -> int {
        self.pending_skip as int
    }

    /// The fatal error to report once its best-effort response has drained.
    pub closed spec fn fatal_pending(&self) -> Option<Error> {
        self.fatal
    }

    /// The handler elected, at construction, to keep the connection alive
    /// across requests.
    pub closed spec fn keeps_alive(&self) -> bool {
        self.keep_alive
    }

    /// The dispatcher's state is consistent: the request is well-formed, a
    /// cycle past parsing holds a parsed request, and a fatal error is
    /// pending exactly while closing.
    pub closed spec fn wf(&self) -> bool {
        &&& self.req.wf()
        &&& (self.state is AwaitingHandler || self.state is Writing) ==> self.req.is_parsed()
        &&& (self.state is Reading || self.state is Parsing) ==> !self.req.is_parsed()
            && self.pending_skip == 0
        &&& self.state is Retiring ==> !self.req.is_parsed()
        &&& (self.fatal is Some <==> self.state is Closing)
    }

    /// Fresh dispatcher for one connection, waiting for input.
    pub fn new(handler: H) -> (d: PipelineDispatcher<H>)
        ensures
            d.wf(),
            d.phase() == DispatchState::Reading,
            d.inbound() == Seq::<u8>::empty(),
            d.outbound() == Seq::<u8>::empty(),
            !d.peer_done(),
    {
        let keep_alive = handler.keep_alive();
        PipelineDispatcher {
            req: Request::new(),
            outbuf: ByteBuffer::new(),
            handler,
            state: DispatchState::Reading,
            peer_closed: false,
            pending_skip: 0,
            fatal: None,
            keep_alive,
        }
    }

    /// Feed bytes the transport yielded into the inbound buffer.
    pub fn read_from(&mut self, chunk: &[u8])
        requires
            old(self).wf(),
        ensures
            final(self).wf(),
            final(self).inbound() == old(self).inbound() + chunk@,
            final(self).outbound() == old(self).outbound(),
            final(self).phase() == if old(self).phase() is Reading {
                DispatchState::Parsing
            } else {
                old(self).phase()
            },
            final(self).peer_done() == old(self).peer_done(),
            final(self).skip_pending() == old(self).skip_pending(),
    {
        self.req.read_from(chunk);
        match self.state {
            DispatchState::Reading => {
                self.state = DispatchState::Parsing;
            },
            _ => {},
        }
    }

    /// Note that the peer closed its end: no more bytes will arrive.
    pub fn note_eof(&mut self)
        requires
            old(self).wf(),
        ensures
            final(self).wf(),
            final(self).peer_done(),
            final(self).inbound() == old(self).inbound(),
            final(self).outbound() == old(self).outbound(),
            final(self).phase() == old(self).phase(),
            final(self).skip_pending() == old(self).skip_pending(),
    {
        self.peer_closed = true;
    }

    /// Serialized bytes are waiting to be drained.
    pub fn has_output(&self) -> (r: bool)
        ensures
            r == (self.outbound().len() != 0),
    {
        !self.outbuf.is_empty()
    }

    /// Drain every serialized byte produced so far into `out`, preserving
    /// order.
    pub fn write_to(&mut self, out: &mut ByteBuffer)
        requires
            old(self).wf(),
        ensures
            final(self).wf(),
            final(out)@ == old(out)@ + old(self).outbound(),
            final(self).outbound() == Seq::<u8>::empty(),
            final(self).spec_req() == old(self).spec_req(),
            final(self).inbound() == old(self).inbound(),
            final(self).phase() == old(self).phase(),
            final(self).peer_done() == old(self).peer_done(),
            final(self).skip_pending() == old(self).skip_pending(),
    {
        let n = self.outbuf.len();
        out.append(self.outbuf.as_slice());
        self.outbuf.consume(n);
        assert(self.outbuf@ =~= Seq::<u8>::empty());
    }

    /// Build and serialize the best-effort response for a fatal error.
    fn push_error_response(&mut self, code: u16, reason: &str)
        requires
            old(self).wf(),
        ensures
            final(self).wf(),
            final(self).outbound() == old(self).outbound() + error_response_bytes(
                old(self).spec_req().spec_version(),
                code,
                reason@,
            ),
            final(self).req == old(self).req,
            final(self).state == old(self).state,
            final(self).peer_closed == old(self).peer_closed,
            final(self).pending_skip == old(self).pending_skip,
            final(self).fatal == old(self).fatal,
    {
        let v = self.req.get_version();
        let mut resp = Response::new(v);
        match resp.set_status(code) {
            Ok(()) => (),
            Err(_) => (),
        }
        match resp.set_reason(reason.to_owned()) {
            Ok(()) => (),
            Err(_) => (),
        }
        resp.done();
        resp.write_to(&mut self.outbuf);
    }

    /// A request with no declared body retires the moment its response has
    /// drained, without waiting for further bytes: the bytes that completed
    /// its head are all it occupies, so the retiring step consumes exactly
    /// them, leaves nothing pending to skip, and the dispatcher moves
    /// straight on.
    pub proof fn lemma_zero_body_retires_immediately(&self)
        requires
            self.wf(),
            self.phase() is Writing,
            self.spec_req().body_len_spec() == 0,
        ensures
            ({
                let total = self.spec_req().head_len() + self.spec_req().body_len_spec();
                &&& total <= self.inbound().len()
                &&& total - (if total <= self.inbound().len() {
                    total
                } else {
                    self.inbound().len() as int
                }) == 0
            }),
    {
        self.req.lemma_parsed_head_within();
    }

    /// One step of the per-connection cycle.
    ///
    /// Reports `NeedInput`, `NeedWrite` or `WaitHandler` when blocked,
    /// `Advanced` after making progress, `Done` when the connection is
    /// finished, and a fatal error exactly once, after its best-effort
    /// response has been drained.
    pub fn dispatch(&mut self) -> (r: Result<Progress, Error>)
        requires
            old(self).wf(),
        ensures
            final(self).wf(),
            final(self).peer_done() == old(self).peer_done(),
            match old(self).phase() {
                DispatchState::Reading => {
                    if old(self).peer_done() {
                        &&& r == Ok::<Progress, Error>(Progress::Done)
                        &&& final(self).phase() is Closed
                        &&& final(self).inbound() == old(self).inbound()
                        &&& final(self).outbound() == old(self).outbound()
                    } else {
                        r == Ok::<Progress, Error>(Progress::NeedInput) && *final(self) == *old(
                            self,
                        )
                    }
                },
                DispatchState::Parsing => {
                    &&& final(self).inbound() == old(self).inbound()
                    &&& match parse_head(
                        old(self).inbound(),
                        old(self).spec_req().max_head_spec(),
                    ) {
                        HeadOutcome::Complete(f) => {
                            &&& r == Ok::<Progress, Error>(Progress::Advanced)
                            &&& final(self).phase() is AwaitingHandler
                            &&& final(self).spec_req().is_parsed()
                            &&& final(self).spec_req().models(f)
                            &&& final(self).spec_req().head_view() == old(self).inbound().take(
                                f.head_len,
                            )
                            &&& final(self).outbound() == old(self).outbound()
                        },
                        HeadOutcome::Incomplete => {
                            &&& r == Ok::<Progress, Error>(Progress::NeedInput)
                            &&& final(self).phase() is Reading
                            &&& !final(self).spec_req().is_parsed()
                            &&& final(self).outbound() == old(self).outbound()
                        },
                        HeadOutcome::Rejected(reason) => {
                            &&& r == Ok::<Progress, Error>(Progress::Advanced)
                            &&& final(self).phase() is Closing
                            &&& final(self).fatal_pending() == Some(Error::ParseError(reason))
                            &&& final(self).outbound() == old(self).outbound()
                                + error_response_bytes(
                                old(self).spec_req().spec_version(),
                                400,
                                "Bad Request"@,
                            )
                        },
                    }
                },
                DispatchState::AwaitingHandler => {
                    &&& final(self).inbound() == old(self).inbound()
                    &&& final(self).spec_req() == old(self).spec_req()
                    &&& {
                        ||| (r == Ok::<Progress, Error>(Progress::WaitHandler)
                            && final(self).phase() is AwaitingHandler
                            && final(self).outbound() == old(self).outbound()
                            && final(self).skip_pending() == old(self).skip_pending()
                            && final(self).fatal_pending() == old(self).fatal_pending())
                        ||| (r == Ok::<Progress, Error>(Progress::Advanced) && final(self).phase()
                            is Writing && exists|resp: Response|
                            #![auto]
                            resp.wf() && final(self).outbound() == old(self).outbound() + (
                            if resp.collecting() {
                                resp.spec_head_bytes()
                            } else {
                                resp.out()
                            }))
                        ||| (r == Ok::<Progress, Error>(Progress::Advanced) && final(self).phase()
                            is Closing && final(self).fatal_pending() == Some(Error::HandlerError)
                            && final(self).outbound() == old(self).outbound()
                            + error_response_bytes(
                            old(self).spec_req().spec_version(),
                            500,
                            "Internal Server Error"@,
                        ))
                    }
                },
                DispatchState::Writing => {
                    &&& if old(self).outbound().len() != 0 {
                        r == Ok::<Progress, Error>(Progress::NeedWrite) && *final(self) == *old(
                            self,
                        )
                    } else {
                        &&& r == Ok::<Progress, Error>(Progress::Advanced)
                        &&& final(self).phase() is Retiring
                        &&& final(self).outbound() == old(self).outbound()
                        &&& !final(self).spec_req().is_parsed()
                        &&& ({
                            let total = old(self).spec_req().head_len() + old(
                                self,
                            ).spec_req().body_len_spec();
                            let take = if total <= old(self).inbound().len() {
                                total
                            } else {
                                old(self).inbound().len() as int
                            };
                            &&& final(self).inbound() == old(self).inbound().skip(take)
                            &&& final(self).skip_pending() == total - take
                        })
                    }
                },
                DispatchState::Retiring => {
                    &&& final(self).outbound() == old(self).outbound()
                    &&& if old(self).skip_pending() == 0 {
                        &&& r == Ok::<Progress, Error>(
                            if old(self).keeps_alive() {
                                Progress::Advanced
                            } else {
                                Progress::Done
                            },
                        )
                        &&& final(self).phase() == (if old(self).keeps_alive() {
                            DispatchState::Parsing
                        } else {
                            DispatchState::Closed
                        })
                        &&& final(self).inbound() == old(self).inbound()
                    } else {
                        if old(self).inbound().len() != 0 {
                            &&& r == Ok::<Progress, Error>(Progress::Advanced)
                            &&& final(self).phase() is Retiring
                            &&& ({
                                let take = if old(self).skip_pending() <= old(
                                    self,
                                ).inbound().len() {
                                    old(self).skip_pending()
                                } else {
                                    old(self).inbound().len() as int
                                };
                                &&& final(self).inbound() == old(self).inbound().skip(take)
                                &&& final(self).skip_pending() == old(self).skip_pending() - take
                            })
                        } else {
                            if old(self).peer_done() {
                                r == Ok::<Progress, Error>(Progress::Done) && final(self).phase()
                                    is Closed
                            } else {
                                r == Ok::<Progress, Error>(Progress::NeedInput) && *final(self)
                                    == *old(self)
                            }
                        }
                    }
                },
                DispatchState::Closing => {
                    &&& final(self).inbound() == old(self).inbound()
                    &&& final(self).outbound() == old(self).outbound()
                    &&& if old(self).outbound().len() != 0 {
                        r == Ok::<Progress, Error>(Progress::NeedWrite) && *final(self) == *old(
                            self,
                        )
                    } else {
                        r == Err::<Progress, Error>(old(self).fatal_pending()->Some_0)
                            && final(self).phase() is Closed
                    }
                },
                DispatchState::Closed => r == Ok::<Progress, Error>(Progress::Done) && *final(self)
                    == *old(self),
            },
    {
        match self.state {
            DispatchState::Reading => {
                if self.peer_closed {
                    self.state = DispatchState::Closed;
                    Ok(Progress::Done)
                } else {
                    Ok(Progress::NeedInput)
                }
            },
            DispatchState::Parsing => {
                match self.req.parse() {
                    Err(e) => {
                        self.push_error_response(400, "Bad Request");
                        self.fatal = Some(e);
                        self.state = DispatchState::Closing;
                        Ok(Progress::Advanced)
                    },
                    Ok(()) => {
                        if self.req.is_ready() {
                            self.state = DispatchState::AwaitingHandler;
                            Ok(Progress::Advanced)
                        } else {
                            self.state = DispatchState::Reading;
                            Ok(Progress::NeedInput)
                        }
                    },
                }
            },
            DispatchState::AwaitingHandler => {
                match self.handler.call(&self.req) {
                    HandlerPoll::NotReady => Ok(Progress::WaitHandler),
                    HandlerPoll::Ready(mut resp) => {
                        resp.done();
                        resp.write_to(&mut self.outbuf);
                        self.state = DispatchState::Writing;
                        Ok(Progress::Advanced)
                    },
                    HandlerPoll::Failed => {
                        self.push_error_response(500, "Internal Server Error");
                        self.fatal = Some(Error::HandlerError);
                        self.state = DispatchState::Closing;
                        Ok(Progress::Advanced)
                    },
                }
            },
            DispatchState::Writing => {
                if !self.outbuf.is_empty() {
                    Ok(Progress::NeedWrite)
                } else {
                    let left = self.req.retire();
                    self.pending_skip = left;
                    self.state = DispatchState::Retiring;
                    Ok(Progress::Advanced)
                }
            },
            DispatchState::Retiring => {
                if self.pending_skip == 0 {
                    if self.keep_alive {
                        self.state = DispatchState::Parsing;
                        Ok(Progress::Advanced)
                    } else {
                        self.state = DispatchState::Closed;
                        Ok(Progress::Done)
                    }
                } else {
                    let avail = self.req.buffered_len();
                    if avail != 0 {
                        if (avail as u64) <= self.pending_skip {
                            self.req.discard(avail);
                            self.pending_skip = self.pending_skip - (avail as u64);
                        } else {
                            let take = self.pending_skip as usize;
                            self.req.discard(take);
                            self.pending_skip = 0;
                        }
                        Ok(Progress::Advanced)
                    } else {
                        if self.peer_closed {
                            self.state = DispatchState::Closed;
                            Ok(Progress::Done)
                        } else {
                            Ok(Progress::NeedInput)
                        }
                    }
                }
            },
            DispatchState::Closing => {
                if !self.outbuf.is_empty() {
                    Ok(Progress::NeedWrite)
                } else {
                    let e = match self.fatal {
                        Some(e) => e,
                        None => Error::HandlerError,
                    };
                    self.fatal = None;
                    self.state = DispatchState::Closed;
                    Err(e)
                }
            },
            DispatchState::Closed => Ok(Progress::Done),
        }
    }

}

} // verus!
