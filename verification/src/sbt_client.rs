//! The client side of the command substrate.  A request is one command
//! byte followed by length-prefixed arguments; the response that comes
//! back is a status byte, an argument count, and that many
//! length-prefixed arguments.

use vstd::prelude::*;

use crate::error::SbtError;
use crate::sbt_server::{encode_args, lemma_args_deep_view};
use crate::uart::{
    all_acks, frag_encodable, frag_stream, lemma_reassemble_err_kinds, lemma_reassemble_suffix,
    n_frags, reassemble, receive_multiple_packets, send_multiple_packets_with_ack, writes_succeed,
    Uart,
};

verus! {

/// The bytes of a whole request: the command byte, then each argument
/// length-prefixed.  Unlike a response, a request carries no argument
/// count; the receiver parses arguments until the buffer is exhausted.
pub open spec fn request_bytes(command: u8, args: Seq<Seq<u8>>) -> Seq<u8> {
    seq![command] + encode_args(args)
}

/// Parsing `count` length-prefixed arguments off the front of a buffer.
/// An argument whose declared length overruns the buffer, or a missing
/// length byte, is a malformed response; bytes after the last argument
/// are ignored.
pub open spec fn parse_args(s: Seq<u8>, count: int) -> Result<Seq<Seq<u8>>, SbtError>
    decreases count,
{
    if count <= 0 {
        Ok(Seq::empty())
    } else if s.len() < 1 {
        Err(SbtError::MalformedResponse)
    } else if s.len() < 1 + (s[0] as int) {
        Err(SbtError::MalformedResponse)
    } else {
        match parse_args(s.skip(1 + (s[0] as int)), count - 1) {
            Ok(rest) => Ok(seq![s.subrange(1, 1 + (s[0] as int))] + rest),
            Err(e) => Err(e),
        }
    }
}

/// A failed argument parse only ever reports a malformed response.
pub proof fn lemma_parse_args_err_kind(s: Seq<u8>, count: int)
    ensures
        parse_args(s, count) matches Err(e) ==> e == SbtError::MalformedResponse,
    decreases count,
{
    if count > 0 && s.len() >= 1 && s.len() >= 1 + (s[0] as int) {
        lemma_parse_args_err_kind(s.skip(1 + (s[0] as int)), count - 1);
    }
}

/// Parsing a whole response buffer: the status byte, the argument count,
/// then that many length-prefixed arguments.  A buffer too short for its
/// two header bytes is a malformed response.
pub open spec fn parse_response(s: Seq<u8>) -> Result<(u8, Seq<Seq<u8>>), SbtError> {
    if s.len() < 2 {
        Err(SbtError::MalformedResponse)
    } else {
        match parse_args(s.skip(2), s[1] as int) {
            Ok(args) => Ok((s[0], args)),
            Err(e) => Err(e),
        }
    }
}

/// A parsed response: its status byte and its arguments.
#[derive(Debug)]
pub struct SbtResponse {
    response_code: u8,
    args: Vec<Vec<u8>>,
}

impl SbtResponse {
    /// The status byte of the response.
    pub closed spec fn code_view(&self) -> u8 {
        self.response_code
    }

    /// The arguments of the response.
    pub closed spec fn args_view(&self) -> Seq<Seq<u8>> {
        self.args.deep_view()
    }

    /// A response value with the given status byte and arguments.
    pub fn new(response_code: u8, args: Vec<Vec<u8>>) -> (r: SbtResponse)
        ensures
            r.code_view() == response_code,
            r.args_view() == args.deep_view(),
    {
        SbtResponse { response_code, args }
    }
}

impl PartialEq for SbtResponse {
    /// Two responses are equal when their status bytes and their
    /// argument lists agree.
    #[verifier::loop_isolation(false)]
    fn eq(&self, other: &SbtResponse) -> (r: bool) {
        if self.response_code != other.response_code {
            return false;
        }
        if self.args.len() != other.args.len() {
            proof {
                lemma_args_deep_view(self.args);
                lemma_args_deep_view(other.args);
                assert(self.args_view().len() != other.args_view().len());
            }
            return false;
        }
        let mut i: usize = 0;
        while i < self.args.len()
            invariant
                i <= self.args@.len(),
                self.args@.len() == other.args@.len(),
                self.response_code == other.response_code,
                forall|j: int| 0 <= j < i ==> self.args@[j]@ == other.args@[j]@,
            decreases self.args@.len() - i,
        {
            let a = &self.args[i];
            let b = &other.args[i];
            if a.len() != b.len() {
                proof {
                    lemma_args_deep_view(self.args);
                    lemma_args_deep_view(other.args);
                    assert(self.args_view()[i as int].len() != other.args_view()[i as int].len());
                    assert(self.args_view() != other.args_view());
                }
                return false;
            }
            let mut j: usize = 0;
            while j < a.len()
                invariant
                    j <= a@.len(),
                    a@.len() == b@.len(),
                    a@ == self.args@[i as int]@,
                    b@ == other.args@[i as int]@,
                    i < self.args@.len(),
                    i < other.args@.len(),
                    forall|k: int| 0 <= k < j ==> a@[k] == b@[k],
                decreases a@.len() - j,
            {
                if a[j] != b[j] {
                    proof {
                        lemma_args_deep_view(self.args);
                        lemma_args_deep_view(other.args);
                        assert(self.args_view()[i as int][j as int] != other.args_view()[
                            i as int
                        ][j as int]);
                        assert(self.args_view() != other.args_view());
                    }
                    return false;
                }
                j = j + 1;
            }
            proof {
                assert(self.args@[i as int]@ =~= other.args@[i as int]@);
            }
            i = i + 1;
        }
        proof {
            lemma_args_deep_view(self.args);
            lemma_args_deep_view(other.args);
            assert(self.args.deep_view() =~~= other.args.deep_view());
        }
        true
    }
}

impl vstd::std_specs::cmp::PartialEqSpecImpl for SbtResponse {
    open spec fn obeys_eq_spec() -> bool {
        true
    }

    open spec fn eq_spec(&self, other: &SbtResponse) -> bool {
        self.code_view() == other.code_view() && self.args_view() == other.args_view()
    }
}

/// A request/response client over one channel: it sends a fragmented
/// request and parses the fragmented response that comes back.
pub struct SbtClient<U: Uart> {
    uart: U,
}

impl<U: Uart> SbtClient<U> {
    /// The bytes written to the client's channel so far.
    pub closed spec fn uart_written(&self) -> Seq<u8> {
        self.uart.written()
    }

    /// The bytes the client's channel still has to hand out.
    pub closed spec fn uart_inbound(&self) -> Seq<u8> {
        self.uart.inbound()
    }

    /// The verdicts of the coming writes on the client's channel.
    pub closed spec fn uart_faults(&self) -> Seq<bool> {
        self.uart.faults()
    }

    /// A client over the given channel.
    pub fn new(uart: U) -> (r: Self)
        ensures
            r.uart_written() == uart.written(),
            r.uart_inbound() == uart.inbound(),
            r.uart_faults() == uart.faults(),
    {
        SbtClient { uart }
    }

    /// Sends one request — the command byte, then each argument
    /// length-prefixed — as acknowledged fragments with three tries per
    /// fragment and a 100-poll acknowledgment window, then receives and
    /// parses the response.
    pub fn send_request(&mut self, command: u8, args: Vec<Vec<u8>>) -> (r: Result<
        SbtResponse,
        SbtError,
    >)
        requires
            forall|i: int| 0 <= i < args@.len() ==> (#[trigger] args@[i])@.len() <= 255,
            frag_encodable(request_bytes(command, args.deep_view())),
        ensures
            ({
                let req = request_bytes(command, args.deep_view());
                let nf = n_frags(req.len() as int);
                all_acks(old(self).uart_inbound(), nf) ==> (r matches Ok(resp) ==> {
                    let rr = reassemble(old(self).uart_inbound().skip(nf), 0);
                    &&& final(self).uart_written() == old(self).uart_written() + frag_stream(req)
                    &&& rr.0 is Ok
                    &&& parse_response(rr.0->Ok_0) == Ok::<(u8, Seq<Seq<u8>>), SbtError>(
                        (resp.code_view(), resp.args_view()),
                    )
                    &&& final(self).uart_inbound() == rr.1
                })
            }),
            r matches Ok(resp) ==> exists|k: int|
                {
                    let rr = reassemble(#[trigger] old(self).uart_inbound().skip(k), 0);
                    &&& 0 <= k <= old(self).uart_inbound().len()
                    &&& rr.0 is Ok
                    &&& parse_response(rr.0->Ok_0) == Ok::<(u8, Seq<Seq<u8>>), SbtError>(
                        (resp.code_view(), resp.args_view()),
                    )
                    &&& final(self).uart_inbound() == rr.1
                },
            writes_succeed(old(self).uart_faults()) ==> writes_succeed(final(self).uart_faults()),
            writes_succeed(old(self).uart_faults()) ==> !(r matches Err(SbtError::WriteFailure)),
            old(self).uart_written().is_prefix_of(final(self).uart_written()),
            exists|k: int|
                0 <= k <= old(self).uart_inbound().len() && final(self).uart_inbound() == old(self).uart_inbound().skip(k),
            (writes_succeed(old(self).uart_faults()) && all_acks(
                old(self).uart_inbound(),
                n_frags(request_bytes(command, args.deep_view()).len() as int),
            )) ==> ({
                let req = request_bytes(command, args.deep_view());
                let rr = reassemble(old(self).uart_inbound().skip(n_frags(req.len() as int)), 0);
                &&& !(r matches Err(SbtError::AckTimeout))
                &&& final(self).uart_written() == old(self).uart_written() + frag_stream(req)
                &&& final(self).uart_inbound() == rr.1
                &&& match r {
                    Ok(resp) => rr.0 is Ok && parse_response(rr.0->Ok_0) == Ok::<
                        (u8, Seq<Seq<u8>>),
                        SbtError,
                    >((resp.code_view(), resp.args_view())),
                    Err(e) => rr.0 == Err::<Seq<u8>, SbtError>(e) || (rr.0 is Ok && parse_response(
                        rr.0->Ok_0,
                    ) == Err::<(u8, Seq<Seq<u8>>), SbtError>(e)),
                }
            }),
    {
        proof {
            lemma_args_deep_view(args);
        }
        let ghost dv = args.deep_view();
        let ghost req = request_bytes(command, dv);
        let mut request: Vec<u8> = Vec::new();
        request.push(command);
        let mut i: usize = 0;
        proof {
            assert(dv.skip(0) =~= dv);
            assert(request@ + encode_args(dv) =~= req);
        }
        while i < args.len()
            invariant
                i <= args@.len(),
                dv == args.deep_view(),
                forall|j: int| 0 <= j < args@.len() ==> (#[trigger] args@[j])@.len() <= 255,
                request@ + encode_args(dv.skip(i as int)) == req,
            decreases args@.len() - i,
        {
            proof {
                lemma_args_deep_view(args);
                assert(dv.skip(i as int)[0] == dv[i as int]);
                assert(dv.skip(i as int).skip(1) =~= dv.skip(i as int + 1));
            }
            let ghost prev = request@;
            request.push(args[i].len() as u8);
            request.extend_from_slice(args[i].as_slice());
            proof {
                assert(request@ =~= prev + (seq![dv[i as int].len() as u8] + dv[i as int]));
                assert(request@ + encode_args(dv.skip(i as int + 1)) =~= prev + encode_args(
                    dv.skip(i as int),
                ));
            }
            i = i + 1;
        }
        proof {
            assert(dv.skip(dv.len() as int) =~= Seq::<Seq<u8>>::empty());
            assert(request@ + encode_args(dv.skip(dv.len() as int)) =~= request@);
            assert(request@ == req);
        }
        let ghost before = self.uart;
        proof {
            assert(before.written().subrange(0, before.written().len() as int) =~= before.written());
        }
        match send_multiple_packets_with_ack(&mut self.uart, &request, 3, 100) {
            Ok(_) => {
                let ghost mid = self.uart;
                let r = self.receive_response();
                proof {
                    let k = choose|k: int|
                        0 <= k <= before.inbound().len() && mid.inbound() == before.inbound().skip(
                            k,
                        );
                    lemma_reassemble_suffix(mid.inbound(), 0);
                    let k2 = choose|j: int|
                        0 <= j <= mid.inbound().len() && reassemble(mid.inbound(), 0).1
                            == mid.inbound().skip(j);
                    assert(before.inbound().skip(k).skip(k2) =~= before.inbound().skip(k + k2));
                    if r is Ok {
                        assert({
                            let rr = reassemble(old(self).uart_inbound().skip(k), 0);
                            &&& 0 <= k <= old(self).uart_inbound().len()
                            &&& rr.0 is Ok
                            &&& final(self).uart_inbound() == rr.1
                        });
                    }
                    lemma_reassemble_err_kinds(mid.inbound(), 0);
                    if reassemble(mid.inbound(), 0).0 is Ok {
                        let body = reassemble(mid.inbound(), 0).0->Ok_0;
                        if body.len() >= 2 {
                            lemma_parse_args_err_kind(body.skip(2), body[1] as int);
                        }
                    }
                    if writes_succeed(before.faults()) && all_acks(
                        before.inbound(),
                        n_frags(req.len() as int),
                    ) {
                        assert(mid.inbound() == before.inbound().skip(n_frags(req.len() as int)));
                    }
                }
                r
            },
            Err(err) => {
                proof {
                    if writes_succeed(before.faults()) && all_acks(
                        before.inbound(),
                        n_frags(req.len() as int),
                    ) {
                        assert(false);
                    }
                }
                Err(err)
            },
        }
    }

    /// Receives one fragmented response and parses it: the status byte,
    /// the argument count, then that many length-prefixed arguments.  An
    /// argument whose declared length overruns the buffer, or a buffer
    /// too short for its header, fails with `MalformedResponse`.
    #[verifier::loop_isolation(false)]
    pub fn receive_response(&mut self) -> (r: Result<SbtResponse, SbtError>)
        ensures
            final(self).uart_written() == old(self).uart_written(),
            final(self).uart_faults() == old(self).uart_faults(),
            final(self).uart_inbound() == reassemble(old(self).uart_inbound(), 0).1,
            ({
                let rr = reassemble(old(self).uart_inbound(), 0);
                match r {
                    Ok(resp) => rr.0 is Ok && parse_response(rr.0->Ok_0) == Ok::<
                        (u8, Seq<Seq<u8>>),
                        SbtError,
                    >((resp.code_view(), resp.args_view())),
                    Err(e) => rr.0 == Err::<Seq<u8>, SbtError>(e) || (rr.0 is Ok && parse_response(
                        rr.0->Ok_0,
                    ) == Err::<(u8, Seq<Seq<u8>>), SbtError>(e)),
                }
            }),
    {
        let response = match receive_multiple_packets(&mut self.uart) {
            Ok(v) => v,
            Err(e) => {
                return Err(e);
            },
        };
        if response.len() < 2 {
            return Err(SbtError::MalformedResponse);
        }
        let response_code = response[0];
        let arg_count = response[1];
        let ghost body = response@;
        let mut args: Vec<Vec<u8>> = Vec::new();
        let mut parsed: u8 = 0;
        let mut response_index: usize = 2;
        proof {
            lemma_args_deep_view(args);
            assert(args.deep_view() =~= Seq::<Seq<u8>>::empty());
            assert(body.skip(2) =~= body.skip(response_index as int));
        }
        while parsed < arg_count
            invariant
                2 <= response_index <= body.len(),
                body == response@,
                parsed <= arg_count,
                args.deep_view().len() == parsed,
                match parse_args(body.skip(response_index as int), arg_count - parsed) {
                    Ok(rest) => parse_args(body.skip(2), arg_count as int) == Ok::<
                        Seq<Seq<u8>>,
                        SbtError,
                    >(args.deep_view() + rest),
                    Err(e) => parse_args(body.skip(2), arg_count as int) == Err::<
                        Seq<Seq<u8>>,
                        SbtError,
                    >(e),
                },
            decreases arg_count - parsed,
        {
            let ghost tail = body.skip(response_index as int);
            if response_index >= response.len() {
                return Err(SbtError::MalformedResponse);
            }
            let arg_len = response[response_index];
            proof {
                assert(tail[0] == body[response_index as int]);
            }
            if (arg_len as usize) > response.len() - response_index - 1 {
                return Err(SbtError::MalformedResponse);
            }
            let mut arg: Vec<u8> = Vec::new();
            arg.extend_from_slice(
                &response.as_slice()[response_index + 1..response_index + 1 + arg_len as usize],
            );
            proof {
                assert(arg@ =~= tail.subrange(1, 1 + (tail[0] as int)));
            }
            let ghost args_before = args.deep_view();
            args.push(arg);
            proof {
                lemma_args_deep_view(args);
                assert(args.deep_view() =~= args_before.push(arg@));
                assert(tail.skip(1 + (tail[0] as int)) =~= body.skip(
                    response_index + 1 + (arg_len as int),
                ));
                let rest_r = parse_args(
                    body.skip(response_index + 1 + (arg_len as int)),
                    arg_count - parsed - 1,
                );
                if rest_r is Ok {
                    assert(args_before + (seq![arg@] + rest_r->Ok_0) =~= args.deep_view()
                        + rest_r->Ok_0);
                }
            }
            response_index = response_index + 1 + arg_len as usize;
            parsed = parsed + 1;
        }
        proof {
            assert(parse_args(body.skip(response_index as int), 0) == Ok::<Seq<Seq<u8>>, SbtError>(
                Seq::empty(),
            ));
            assert(args.deep_view() + Seq::<Seq<u8>>::empty() =~= args.deep_view());
        }
        Ok(SbtResponse::new(response_code, args))
    }
}

} // verus!
