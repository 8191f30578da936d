//! The server side of the command substrate.  A request arrives as a
//! reassembled buffer `[command] ([arg_len] [arg_bytes])*`; the server
//! looks the command byte up among its registered handlers and sends the
//! handler's response back, itself shaped
//! `[status] [arg_count] ([arg_len] [arg_bytes])*`.

use vstd::prelude::*;

use crate::error::SbtError;
use crate::uart::{
    all_acks, frag_encodable, frag_stream, lemma_prefix_append, lemma_reassemble_suffix,
    lemma_writes_succeed_skip, n_frags, reassemble, receive_multiple_packets,
    send_multiple_packets_with_ack, writes_succeed, Uart,
};

verus! {

/// The status byte of a response: `Success` is 0x00, `InvalidRequest`
/// 0x01, `HandlerNotFound` 0x02 and `InternalError` 0x03.
#[derive(Clone, Copy, Debug, PartialEq, Eq, Structural)]
pub enum SbtResponseType {
    Success,
    InvalidRequest,
    HandlerNotFound,
    InternalError,
}

impl SbtResponseType {
    /// The status byte of this code.
    pub open spec fn spec_code(self) -> u8 {
        match self {
            SbtResponseType::Success => 0x00,
            SbtResponseType::InvalidRequest => 0x01,
            SbtResponseType::HandlerNotFound => 0x02,
            SbtResponseType::InternalError => 0x03,
        }
    }

    /// The status byte of this code.
    pub fn code(&self) -> (r: u8)
        ensures
            r == self.spec_code(),
    {
        match self {
            SbtResponseType::Success => 0x00,
            SbtResponseType::InvalidRequest => 0x01,
            SbtResponseType::HandlerNotFound => 0x02,
            SbtResponseType::InternalError => 0x03,
        }
    }
}

/// The length-prefixed encoding of an argument list: for each argument,
/// one length byte and then that many data bytes.
pub open spec fn encode_args(args: Seq<Seq<u8>>) -> Seq<u8>
    decreases args.len(),
{
    if args.len() == 0 {
        Seq::empty()
    } else {
        seq![args[0].len() as u8] + args[0] + encode_args(args.skip(1))
    }
}

/// The bytes of a whole response: status, argument count, arguments.
pub open spec fn response_bytes(code: u8, args: Seq<Seq<u8>>) -> Seq<u8> {
    seq![code, args.len() as u8] + encode_args(args)
}

/// A byte vector's deep view is its view.
pub proof fn lemma_bytes_deep_view(v: Vec<u8>)
    ensures
        v.deep_view() == v@,
{
    assert(v.deep_view() =~= v@);
}

/// Indexing a vector-of-vectors' deep view is viewing the element.
pub proof fn lemma_args_deep_view(args: Vec<Vec<u8>>)
    ensures
        args.deep_view().len() == args@.len(),
        forall|i: int| 0 <= i < args@.len() ==> args.deep_view()[i] == args@[i]@,
{
    assert forall|i: int| 0 <= i < args@.len() implies args.deep_view()[i] == args@[i]@ by {
        lemma_bytes_deep_view(args@[i]);
    }
}

/// Appends one length-prefixed argument to a response buffer.
pub fn add_argument_to_response(response: &mut Vec<u8>, arg: Vec<u8>)
    requires
        arg@.len() <= 255,
    ensures
        final(response)@ == old(response)@ + seq![arg@.len() as u8] + arg@,
{
    response.push(arg.len() as u8);
    response.extend_from_slice(arg.as_slice());
    proof {
        assert(response@ =~= old(response)@ + seq![arg@.len() as u8] + arg@);
    }
}

/// Builds a whole response buffer: the status byte, the argument count,
/// then each argument length-prefixed.
pub fn create_response(response_code: SbtResponseType, args: Vec<Vec<u8>>) -> (r: Vec<u8>)
    requires
        args@.len() <= 255,
        forall|i: int| 0 <= i < args@.len() ==> (#[trigger] args@[i])@.len() <= 255,
    ensures
        r@ == response_bytes(response_code.spec_code(), args.deep_view()),
{
    proof {
        lemma_args_deep_view(args);
    }
    let ghost dv = args.deep_view();
    let mut response: Vec<u8> = Vec::new();
    response.push(response_code.code());
    response.push(args.len() as u8);
    let mut i: usize = 0;
    proof {
        assert(dv.skip(0) =~= dv);
        assert(response@ + encode_args(dv) =~= response_bytes(response_code.spec_code(), dv));
    }
    while i < args.len()
        invariant
            i <= args@.len(),
            dv == args.deep_view(),
            forall|j: int| 0 <= j < args@.len() ==> (#[trigger] args@[j])@.len() <= 255,
            response@ + encode_args(dv.skip(i as int)) == response_bytes(
                response_code.spec_code(),
                dv,
            ),
        decreases args@.len() - i,
    {
        proof {
            lemma_args_deep_view(args);
            assert(dv.skip(i as int)[0] == dv[i as int]);
            assert(dv.skip(i as int).skip(1) =~= dv.skip(i as int + 1));
        }
        let ghost prev = response@;
        response.push(args[i].len() as u8);
        response.extend_from_slice(args[i].as_slice());
        proof {
            assert(response@ =~= prev + (seq![dv[i as int].len() as u8] + dv[i as int]));
            assert(response@ + encode_args(dv.skip(i as int + 1)) =~= prev + encode_args(
                dv.skip(i as int),
            ));
        }
        i = i + 1;
    }
    proof {
        assert(dv.skip(dv.len() as int) =~= Seq::<Seq<u8>>::empty());
        assert(response@ + encode_args(dv.skip(dv.len() as int)) =~= response@);
    }
    response
}

/// A registered command handler: a pure function from the request's
/// argument bytes to the full response buffer it wants sent back.  The
/// handler is responsible for shaping its result
/// `[status] [arg_count] ([arg_len] [arg_bytes])*`.
pub trait Handler: Sized {
    /// The response this handler gives to the given argument bytes.  The
    /// default leaves it unconstrained; a handler whose callers reason
    /// about its responses overrides it.
    closed spec fn response_of(&self, args: Seq<u8>) -> Seq<u8> {
        vstd::pervasive::arbitrary()
    }

    /// Computes the response to the given argument bytes.
    fn handle(&self, args: Vec<u8>) -> (r: Vec<u8>)
        ensures
            r@ == self.response_of(args@),
    ;
}

/// A ready-made handler that echoes: it answers with a `Success` status,
/// an argument count of one, and the request's raw argument bytes after
/// the two header bytes.  Where the request carried one length-prefixed
/// argument, the response then carries that same argument back.
pub struct EchoHandler;

impl Handler for EchoHandler {
    open spec fn response_of(&self, args: Seq<u8>) -> Seq<u8> {
        seq![SbtResponseType::Success.spec_code(), 1u8] + args
    }

    fn handle(&self, args: Vec<u8>) -> (r: Vec<u8>) {
        let mut response: Vec<u8> = Vec::new();
        response.push(SbtResponseType::Success.code());
        response.push(1u8);
        response.extend_from_slice(args.as_slice());
        proof {
            assert(response@ =~= seq![SbtResponseType::Success.spec_code(), 1u8] + args@);
        }
        response
    }
}

/// The handler registered for a command byte: the most recently added
/// entry wins, so re-registering a command replaces its handler.
pub open spec fn handler_for<H: Handler>(hs: Seq<(u8, H)>, cmd: u8) -> Option<H>
    decreases hs.len(),
{
    if hs.len() == 0 {
        None
    } else if hs.last().0 == cmd {
        Some(hs.last().1)
    } else {
        handler_for(hs.drop_last(), cmd)
    }
}

/// What the server answers a reassembled request with: an
/// `InvalidRequest` response to an empty request, a `HandlerNotFound`
/// response to an unregistered command byte, and otherwise whatever the
/// registered handler returns for the bytes after the command byte.
pub open spec fn process_spec<H: Handler>(hs: Seq<(u8, H)>, req: Seq<u8>) -> Seq<u8> {
    if req.len() == 0 {
        response_bytes(SbtResponseType::InvalidRequest.spec_code(), Seq::empty())
    } else {
        match handler_for(hs, req[0]) {
            None => response_bytes(SbtResponseType::HandlerNotFound.spec_code(), Seq::empty()),
            Some(h) => h.response_of(req.skip(1)),
        }
    }
}

/// A request/response server over one channel: it receives fragmented
/// requests, dispatches them by their command byte, and sends the
/// handler's response back over the same channel.
pub struct SbtServer<U: Uart, H: Handler> {
    uart: U,
    handlers: Vec<(u8, H)>,
}

impl<U: Uart, H: Handler> SbtServer<U, H> {
    /// The bytes written to the server's channel so far.
    pub closed spec fn uart_written(&self) -> Seq<u8> {
        self.uart.written()
    }

    /// The bytes the server's channel still has to hand out.
    pub closed spec fn uart_inbound(&self) -> Seq<u8> {
        self.uart.inbound()
    }

    /// The verdicts of the coming writes on the server's channel.
    pub closed spec fn uart_faults(&self) -> Seq<bool> {
        self.uart.faults()
    }

    /// The registered handlers, in registration order.
    pub closed spec fn handlers_view(&self) -> Seq<(u8, H)> {
        self.handlers@
    }

    /// A server over the given channel, with no handlers registered.
    pub fn new(uart: U) -> (r: Self)
        ensures
            r.uart_written() == uart.written(),
            r.uart_inbound() == uart.inbound(),
            r.uart_faults() == uart.faults(),
            r.handlers_view() == Seq::<(u8, H)>::empty(),
    {
        SbtServer { uart, handlers: Vec::new() }
    }

    /// Registers a handler for a command byte, replacing any earlier one
    /// for the same byte.
    pub fn add_handler(&mut self, command: u8, handler: H)
        ensures
            final(self).uart_written() == old(self).uart_written(),
            final(self).uart_inbound() == old(self).uart_inbound(),
            final(self).handlers_view() == old(self).handlers_view().push((command, handler)),
            forall|c: u8|
                handler_for(final(self).handlers_view(), c) == if c == command {
                    Some(handler)
                } else {
                    handler_for(old(self).handlers_view(), c)
                },
    {
        self.handlers.push((command, handler));
        proof {
            assert(self.handlers@.drop_last() =~= old(self).handlers@);
        }
    }

    /// A borrow of the server's channel, for looking at what it wrote.
    pub fn get_uart(&self) -> (r: &U)
        ensures
            r.written() == self.uart_written(),
            r.inbound() == self.uart_inbound(),
            r.faults() == self.uart_faults(),
    {
        &self.uart
    }

    /// Receives one fragmented request from the channel and reassembles
    /// it.
    pub fn receive_request(&mut self) -> (r: Result<Vec<u8>, SbtError>)
        ensures
            final(self).handlers_view() == old(self).handlers_view(),
            final(self).uart_written() == old(self).uart_written(),
            final(self).uart_faults() == old(self).uart_faults(),
            final(self).uart_inbound() == reassemble(old(self).uart_inbound(), 0).1,
            match r {
                Ok(v) => reassemble(old(self).uart_inbound(), 0).0 == Ok::<Seq<u8>, SbtError>(v@),
                Err(e) => reassemble(old(self).uart_inbound(), 0).0 == Err::<Seq<u8>, SbtError>(e),
            },
    {
        receive_multiple_packets(&mut self.uart)
    }

    /// Answers one reassembled request: an `InvalidRequest` response if it
    /// is empty, a `HandlerNotFound` response if no handler is registered
    /// for its command byte, and otherwise the registered handler's
    /// response to the bytes after the command byte.
    #[verifier::loop_isolation(false)]
    pub fn process_request(&mut self, request: Vec<u8>) -> (r: Vec<u8>)
        ensures
            final(self).handlers_view() == old(self).handlers_view(),
            final(self).uart_written() == old(self).uart_written(),
            final(self).uart_inbound() == old(self).uart_inbound(),
            final(self).uart_faults() == old(self).uart_faults(),
            r@ == process_spec(old(self).handlers_view(), request@),
    {
        if request.len() == 0 {
            let empty_args: Vec<Vec<u8>> = Vec::new();
            proof {
                assert(empty_args.deep_view() =~= Seq::<Seq<u8>>::empty());
            }
            return create_response(SbtResponseType::InvalidRequest, empty_args);
        }
        let cmd = request[0];
        let ghost hs = self.handlers@;
        let mut idx: usize = self.handlers.len();
        proof {
            assert(hs.take(idx as int) =~= hs);
        }
        while idx > 0
            invariant
                idx <= hs.len(),
                hs == self.handlers@,
                handler_for(hs, cmd) == handler_for(hs.take(idx as int), cmd),
                forall|j: int| idx <= j < hs.len() ==> (#[trigger] hs[j]).0 != cmd,
            decreases idx,
        {
            proof {
                assert(hs.take(idx as int).last() == hs[idx as int - 1]);
                assert(hs.take(idx as int).drop_last() =~= hs.take(idx as int - 1));
            }
            if self.handlers[idx - 1].0 == cmd {
                let mut arg_bytes: Vec<u8> = Vec::new();
                arg_bytes.extend_from_slice(&request.as_slice()[1..request.len()]);
                proof {
                    assert(arg_bytes@ =~= request@.skip(1));
                    assert(handler_for(hs, cmd) == Some(hs[idx as int - 1].1));
                }
                return self.handlers[idx - 1].1.handle(arg_bytes);
            }
            idx = idx - 1;
        }
        proof {
            assert(hs.take(0) =~= Seq::<(u8, H)>::empty());
            assert(handler_for(hs, cmd) is None);
        }
        let empty_args: Vec<Vec<u8>> = Vec::new();
        proof {
            assert(empty_args.deep_view() =~= Seq::<Seq<u8>>::empty());
        }
        create_response(SbtResponseType::HandlerNotFound, empty_args)
    }

    /// Sends a response buffer back over the channel as acknowledged
    /// fragments, with three tries per fragment.
    pub fn send_response(&mut self, response: Vec<u8>, timeout: u64) -> (r: Result<(), SbtError>)
        requires
            frag_encodable(response@),
        ensures
            final(self).handlers_view() == old(self).handlers_view(),
            exists|k: int|
                0 <= k <= old(self).uart_inbound().len() && final(self).uart_inbound() == old(self).uart_inbound().skip(k),
            match r {
                Ok(_) => true,
                Err(e) => e == SbtError::AckTimeout || e == SbtError::WriteFailure,
            },
            (all_acks(old(self).uart_inbound(), n_frags(response@.len() as int)) && timeout >= 1
                && r matches Ok(_)) ==> (final(self).uart_written() == old(self).uart_written()
                + frag_stream(response@) && final(self).uart_inbound() == old(self).uart_inbound().skip(n_frags(response@.len() as int))),
            writes_succeed(old(self).uart_faults()) ==> writes_succeed(final(self).uart_faults()),
            writes_succeed(old(self).uart_faults()) ==> !(r matches Err(SbtError::WriteFailure)),
            (all_acks(old(self).uart_inbound(), n_frags(response@.len() as int)) && timeout >= 1
                && !(r matches Err(SbtError::WriteFailure))) ==> r matches Ok(_),
            old(self).uart_written().is_prefix_of(final(self).uart_written()),
    {
        let ghost before = self.uart;
        let r = send_multiple_packets_with_ack(&mut self.uart, &response, 3, timeout);
        proof {
            let k = choose|k: int|
                0 <= k <= before.inbound().len() && self.uart.inbound() == before.inbound().skip(
                    k,
                );
            assert(0 <= k <= old(self).uart_inbound().len() && self.uart.inbound() == old(
                self,
            ).uart_inbound().skip(k));
        }
        r
    }

    /// One request cycle: receive a fragmented request, dispatch it, and
    /// send the response with three tries per fragment and a 100-poll
    /// acknowledgment window.  A request that cannot even be reassembled
    /// is answered with a single raw `InvalidRequest` status byte,
    /// best-effort and unacknowledged, and the cycle still succeeds; a
    /// response that cannot be sent fails the cycle.
    pub fn run_non_blocking(&mut self) -> (r: Result<(), SbtError>)
        requires
            forall|req: Seq<u8>|
                frag_encodable(#[trigger] process_spec(old(self).handlers_view(), req)),
        ensures
            final(self).handlers_view() == old(self).handlers_view(),
            match r {
                Ok(_) => true,
                Err(e) => e == SbtError::AckTimeout || e == SbtError::WriteFailure,
            },
            ({
                let rr = reassemble(old(self).uart_inbound(), 0);
                if rr.0 is Err {
                    r matches Ok(_) && final(self).uart_inbound() == rr.1 && (final(self).uart_written() == old(self).uart_written() || final(self).uart_written()
                        == old(self).uart_written() + seq![
                        SbtResponseType::InvalidRequest.spec_code(),
                    ])
                } else {
                    let resp = process_spec(old(self).handlers_view(), rr.0->Ok_0);
                    &&& (all_acks(rr.1, n_frags(resp.len() as int)) && r matches Ok(_)) ==> (final(self).uart_written() == old(self).uart_written() + frag_stream(resp) && final(self).uart_inbound() == rr.1.skip(n_frags(resp.len() as int)))
                    &&& (all_acks(rr.1, n_frags(resp.len() as int)) && !(r matches Err(
                        SbtError::WriteFailure,
                    ))) ==> r matches Ok(_)
                }
            }),
            writes_succeed(old(self).uart_faults()) ==> writes_succeed(final(self).uart_faults()),
            writes_succeed(old(self).uart_faults()) ==> !(r matches Err(SbtError::WriteFailure)),
            old(self).uart_written().is_prefix_of(final(self).uart_written()),
            exists|k: int|
                0 <= k <= old(self).uart_inbound().len() && final(self).uart_inbound() == old(self).uart_inbound().skip(k),
    {
        proof {
            lemma_reassemble_suffix(self.uart.inbound(), 0);
        }
        let ghost w0 = self.uart.written();
        match self.receive_request() {
            Ok(request) => {
                let ghost req = request@;
                let ghost mid = self.uart;
                let response = self.process_request(request);
                proof {
                    assert(frag_encodable(process_spec(old(self).handlers_view(), req)));
                    assert(w0.subrange(0, w0.len() as int) =~= w0);
                }
                let r = self.send_response(response, 100);
                proof {
                    let k1 = choose|k: int|
                        0 <= k <= old(self).uart_inbound().len() && mid.inbound() == old(self).uart_inbound().skip(k);
                    let k2 = choose|k: int|
                        0 <= k <= mid.inbound().len() && self.uart.inbound() == mid.inbound().skip(
                            k,
                        );
                    assert(old(self).uart_inbound().skip(k1).skip(k2) =~= old(self).uart_inbound().skip(k1 + k2));
                }
                r
            },
            Err(_) => {
                let ghost f0 = self.uart.faults();
                let mut signal: Vec<u8> = Vec::new();
                signal.push(SbtResponseType::InvalidRequest.code());
                let write_result = self.uart.write(signal.as_slice());
                proof {
                    if writes_succeed(f0) && f0.len() > 0 {
                        lemma_writes_succeed_skip(f0, 1);
                    }
                    if write_result is Ok {
                        assert(self.uart.written() =~= w0 + seq![
                            SbtResponseType::InvalidRequest.spec_code(),
                        ]);
                        lemma_prefix_append(w0, seq![SbtResponseType::InvalidRequest.spec_code()]);
                    } else {
                        assert(w0.subrange(0, w0.len() as int) =~= w0);
                    }
                }
                Ok(())
            },
        }
    }
}

} // verus!
