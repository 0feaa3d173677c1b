//! The handler capability and the per-connection session.
//!
//! An [`Agent`] maps one decoded request payload to one response payload; it
//! is supplied by the user of this crate, shared read-only by every
//! connection, and treated as a black box here.  A [`Session`] owns one
//! connection's Read Buffer and drives the decode-handle-encode cycle for
//! that connection alone; the socket reads and writes around it stay with
//! the caller.

use vstd::prelude::*;

use crate::buffer::{buf_bytes, buf_copy_range, buf_extend, buf_len, buf_new};
use crate::codec::MessageCodec;
use crate::error::AgentError;
use crate::frame::{
    drain, frames_concat, lemma_drain_payloads_fit, lemma_frames_concat_push, views_of,
};

verus! {

/// The user-supplied mapping from a request payload to a response payload:
/// deserialization, handling, and serialization of the opaque message type,
/// as the implementer defines them.  An error is surfaced to the session as
/// a per-message failure that is fatal to that one connection.
pub trait Agent: Sized {
    /// Which outcomes the handler allows for a request; `None` stands for a
    /// handler failure on that request.  Left as is, it lets every outcome
    /// through, which is the black-box reading of the handler; an
    /// implementer may pin it down.
    open spec fn handles(&self, request: Seq<u8>, response: Option<Seq<u8>>) -> bool {
        true
    }

    /// Produces the response payload for one request payload.
    fn handle(&self, request: Vec<u8>) -> (r: Result<Vec<u8>, AgentError>)
        ensures
            r matches Ok(v) ==> self.handles(request@, Some(v@)),
            r matches Err(_) ==> self.handles(request@, None),
    ;
}

/// The identity handler: every request is answered with its own payload.
pub struct EchoAgent;

impl Agent for EchoAgent {
    open spec fn handles(&self, request: Seq<u8>, response: Option<Seq<u8>>) -> bool {
        response == Some(request)
    }

    fn handle(&self, request: Vec<u8>) -> (r: Result<Vec<u8>, AgentError>) {
        Ok(request)
    }
}

/// The handler may refuse one of the buffered requests.
pub open spec fn handler_refuses_one<A: Agent>(agent: &A, requests: Seq<Seq<u8>>) -> bool {
    exists|i: int| 0 <= i < requests.len() && #[trigger] agent.handles(requests[i], None)
}

/// The handler may answer one of the buffered requests with a payload too
/// large for the four-byte length field.
pub open spec fn response_oversized<A: Agent>(agent: &A, requests: Seq<Seq<u8>>) -> bool {
    exists|i: int, resp: Seq<u8>|
        0 <= i < requests.len() && #[trigger] agent.handles(requests[i], Some(resp)) && resp.len()
            > u32::MAX
}

/// The returned bytes are the frames of one allowed response per buffered
/// request, in request order.
pub open spec fn responses_framed<A: Agent>(agent: &A, requests: Seq<Seq<u8>>, out: Seq<u8>) -> bool {
    exists|resps: Seq<Seq<u8>>|
        {
            &&& resps.len() == requests.len()
            &&& (forall|i: int|
                0 <= i < requests.len() ==> agent.handles(requests[i], Some(resps[i])))
            &&& (forall|i: int| 0 <= i < resps.len() ==> resps[i].len() <= u32::MAX)
            &&& out == #[trigger] frames_concat(resps)
        }
}

/// With the identity handler the session's output is pinned down exactly:
/// the returned bytes are the buffered requests themselves, re-framed in
/// their arrival order.
pub proof fn lemma_echo_output_exact(echo: &EchoAgent, requests: Seq<Seq<u8>>, out: Seq<u8>)
    requires
        responses_framed(echo, requests, out),
    ensures
        out == frames_concat(requests),
{
    let resps = choose|resps: Seq<Seq<u8>>|
        {
            &&& resps.len() == requests.len()
            &&& (forall|i: int|
                0 <= i < requests.len() ==> echo.handles(requests[i], Some(resps[i])))
            &&& (forall|i: int| 0 <= i < resps.len() ==> resps[i].len() <= u32::MAX)
            &&& out == #[trigger] frames_concat(resps)
        };
    assert forall|i: int| 0 <= i < requests.len() implies resps[i] == requests[i] by {
        assert(echo.handles(requests[i], Some(resps[i])));
    }
    assert(resps =~= requests);
}

/// With the identity handler a session turn is owed success, whatever
/// arrived: the handler refuses nothing, and every payload drained from a
/// buffer fits the four-byte length field, so neither error condition of
/// [`Session::on_bytes`] can hold.
pub proof fn lemma_echo_turn_cannot_fail(echo: &EchoAgent, arrived: Seq<u8>)
    ensures
        !handler_refuses_one(echo, drain(arrived).0),
        !response_oversized(echo, drain(arrived).0),
{
    let requests = drain(arrived).0;
    lemma_drain_payloads_fit(arrived);
    assert forall|i: int, resp: Seq<u8>|
        0 <= i < requests.len() && #[trigger] echo.handles(requests[i], Some(resp)) implies resp.len()
        <= u32::MAX by {
        assert(resp == requests[i]);
    }
}

/// A fresh copy of a byte vector.
fn copy_bytes(v: &Vec<u8>) -> (r: Vec<u8>)
    ensures
        r@ == v@,
{
    let mut r: Vec<u8> = Vec::new();
    let mut i: usize = 0;
    while i < v.len()
        invariant
            i <= v@.len(),
            r@ == v@.subrange(0, i as int),
        decreases v@.len() - i,
    {
        r.push(v[i]);
        proof {
            assert(r@ =~= v@.subrange(0, i as int + 1));
        }
        i += 1;
    }
    proof {
        assert(r@ =~= v@);
    }
    r
}

/// One connection's state: the Read Buffer holding bytes received but not
/// yet assembled into a complete frame.  A session is created per accepted
/// connection and never shared across connections.
pub struct Session {
    buf: bytes::BytesMut,
}

impl Session {
    /// The bytes received on this connection but not yet consumed as a
    /// complete frame.
    pub closed spec fn pending(self) -> Seq<u8> {
        buf_bytes(self.buf)
    }

    /// A session for a freshly accepted connection: nothing buffered.
    pub fn new() -> (s: Session)
        ensures
            s.pending() == Seq::<u8>::empty(),
    {
        Session { buf: buf_new() }
    }

    /// One turn of the read-decode-dispatch-encode cycle: append the bytes
    /// just read from the socket, drain every complete frame now buffered,
    /// hand each payload to the handler in arrival order, and return the
    /// frames of the responses, in that same order, ready to be written
    /// back.  Only the remainder that holds no complete frame stays
    /// buffered.  An error means the connection must be closed: a handler
    /// failure comes back as `User`, a response too large for the length
    /// field as `Serialization`.
    #[verifier::loop_isolation(false)]
    pub fn on_bytes<A: Agent>(&mut self, agent: &A, chunk: &Vec<u8>) -> (r: Result<
        Vec<u8>,
        AgentError,
    >)
        ensures
            ({
                let arrived = old(self).pending() + chunk@;
                let requests = drain(arrived).0;
                &&& final(self).pending() == drain(arrived).1
                &&& match r {
                    Ok(out) => responses_framed(agent, requests, out@),
                    Err(e) => {
                        &&& (e == AgentError::User || e == AgentError::Serialization)
                        &&& (e == AgentError::User ==> handler_refuses_one(agent, requests))
                        &&& (e == AgentError::Serialization ==> response_oversized(
                            agent,
                            requests,
                        ))
                    },
                }
            }),
    {
        let ghost arrived = old(self).pending() + chunk@;
        buf_extend(&mut self.buf, chunk);
        let mut codec = MessageCodec;
        let requests = codec.decode_all(&mut self.buf);
        let ghost reqs = drain(arrived).0;
        let mut dst = buf_new();
        let ghost mut resps: Seq<Seq<u8>> = Seq::empty();
        let n = requests.len();
        let mut i: usize = 0;
        while i < n
            invariant
                i <= n,
                n == requests@.len(),
                views_of(requests@) == reqs,
                reqs == drain(arrived).0,
                resps.len() == i,
                forall|j: int| 0 <= j < i ==> agent.handles(reqs[j], Some(resps[j])),
                forall|j: int| 0 <= j < i ==> resps[j].len() <= u32::MAX,
                buf_bytes(dst) == frames_concat(resps),
            decreases n - i,
        {
            let req = copy_bytes(&requests[i]);
            match agent.handle(req) {
                Ok(resp) => {
                    match codec.encode(&resp, &mut dst) {
                        Ok(_) => {
                            proof {
                                lemma_frames_concat_push(resps, resp@);
                                resps = resps.push(resp@);
                            }
                        },
                        Err(_) => {
                            proof {
                                let k = i as int;
                                let gr = drain(arrived).0;
                                assert(gr[k] == views_of(requests@)[k]);
                                assert(gr[k] == requests@[k]@);
                                assert(gr.len() == requests@.len());
                                assert(agent.handles(gr[k], Some(resp@)) && resp@.len()
                                    > u32::MAX);
                                assert(response_oversized(agent, gr));
                            }
                            return Err(AgentError::Serialization);
                        },
                    }
                },
                Err(_) => {
                    proof {
                        let k = i as int;
                        let gr = drain(arrived).0;
                        assert(gr[k] == views_of(requests@)[k]);
                        assert(gr[k] == requests@[k]@);
                        assert(gr.len() == requests@.len());
                        assert(agent.handles(gr[k], None));
                        assert(handler_refuses_one(agent, gr));
                    }
                    return Err(AgentError::User);
                },
            }
            i += 1;
        }
        let outn = buf_len(&dst);
        let out = buf_copy_range(&dst, 0, outn);
        proof {
            assert(out@ =~= frames_concat(resps));
            assert(responses_framed(agent, drain(arrived).0, out@));
        }
        Ok(out)
    }
}

} // verus!
