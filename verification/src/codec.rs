//! The outer frame codec: `u32 BE length || u8 type || payload[length-1]`.
//!
//! Decoding is incremental: bytes arrive in arbitrary chunks, are buffered in
//! a [`ByteQueue`], and a frame is surfaced only once complete, so the message
//! parser never sees a truncated payload. The decoder is one-shot on error:
//! after a zero length (a frame cannot even hold its type byte) or a payload
//! that does not parse, the next message boundary is unknown, so the codec
//! poisons itself and refuses further input; the connection must be closed.

use vstd::prelude::*;

use crate::errors::{DecodeError, EncodeFault, ParseFault};
use crate::request::{
    encode_request_to, lemma_parse_request_faithful, lemma_request_round_trip, parse_request,
    req_encodable, req_kind, req_payload, req_wf, req_wire, spec_parse_request, Request,
    RequestView,
};
use crate::response::{
    encode_response_to, parse_response, resp_encodable, resp_wire, spec_parse_response, Response,
    ResponseView,
};
use crate::wire::{
    be32_bytes, lemma_take_u32_faithful, lemma_take_u32_of_be32, put_bytes, put_u32, take_u32,
};

verus! {

/// Bytes received from the peer and not yet consumed by the decoder.
pub struct ByteQueue {
    data: Vec<u8>,
    pos: usize,
}

impl View for ByteQueue {
    type V = Seq<u8>;

    closed spec fn view(&self) -> Seq<u8> {
        self.data@.skip(self.pos as int)
    }
}

impl ByteQueue {
    #[verifier::type_invariant]
    spec fn wf(&self) -> bool {
        self.pos <= self.data@.len()
    }

    /// An empty queue.
    pub fn new() -> (q: ByteQueue)
        ensures
            q@ == Seq::<u8>::empty(),
    {
        let q = ByteQueue { data: Vec::new(), pos: 0 };
        proof {
            assert(q@ =~= Seq::<u8>::empty());
        }
        q
    }

    /// How many bytes are buffered.
    pub fn len(&self) -> (n: usize)
        ensures
            n == self@.len(),
    {
        proof {
            use_type_invariant(self);
        }
        self.data.len() - self.pos
    }

    /// Append freshly received bytes.
    pub fn feed(&mut self, bytes: &[u8])
        ensures
            final(self)@ == old(self)@ + bytes@,
    {
        proof {
            use_type_invariant(&*self);
        }
        let ghost before = self@;
        let p = self.pos;
        self.pos = 0;
        let mut taken: Vec<u8> = Vec::new();
        core::mem::swap(&mut self.data, &mut taken);
        let newpos: usize;
        if p == taken.len() {
            taken.clear();
            newpos = 0;
        } else {
            newpos = p;
        }
        proof {
            assert(taken@.skip(newpos as int) =~= before);
        }
        taken.extend_from_slice(bytes);
        proof {
            assert(taken@.skip(newpos as int) =~= before + bytes@);
        }
        self.data = taken;
        self.pos = newpos;
        proof {
            assert(self@ =~= before + bytes@);
        }
    }

    /// Consume a big-endian `u32` from the front, if four bytes are buffered.
    fn pop_u32(&mut self) -> (r: Option<u32>)
        ensures
            match r {
                Some(v) => ({
                    let t = take_u32(old(self)@);
                    t is Some && t->Some_0.0 == v && final(self)@ == t->Some_0.1
                }),
                None => take_u32(old(self)@) is None && final(self)@ == old(self)@,
            },
    {
        proof {
            use_type_invariant(&*self);
        }
        match crate::wire::read_u32(&self.data, self.pos) {
            Some((v, p2)) => {
                self.pos = p2;
                Some(v)
            },
            None => None,
        }
    }

    /// Consume one byte from the front, if any is buffered.
    fn pop_u8(&mut self) -> (r: Option<u8>)
        ensures
            match r {
                Some(v) => ({
                    let t = crate::wire::take_u8(old(self)@);
                    t is Some && t->Some_0.0 == v && final(self)@ == t->Some_0.1
                }),
                None => old(self)@.len() == 0 && final(self)@ == old(self)@,
            },
    {
        proof {
            use_type_invariant(&*self);
        }
        match crate::wire::read_u8(&self.data, self.pos) {
            Some((v, p2)) => {
                self.pos = p2;
                Some(v)
            },
            None => None,
        }
    }

    /// Consume exactly `n` buffered bytes from the front.
    fn pop_exact(&mut self, n: usize) -> (r: Vec<u8>)
        requires
            n <= old(self)@.len(),
        ensures
            r@ == old(self)@.take(n as int),
            final(self)@ == old(self)@.skip(n as int),
    {
        proof {
            use_type_invariant(&*self);
        }
        proof {
            assert(self@.len() == self.data@.len() - self.pos);
            assert(self.data@.len() == self.data.len());
        }
        let out = crate::wire::read_exact(&self.data, self.pos, n);
        proof {
            assert(self.data@.subrange(self.pos as int, self.pos as int + n as int) =~= self@.take(
                n as int,
            ));
            assert(self.data@.skip(self.pos as int + n as int) =~= self@.skip(n as int));
        }
        self.pos = self.pos + n;
        out
    }
}

// ===================== specification of one decode step =====================

/// What one decode step does to the unconsumed stream.
pub enum FrameStep {
    /// The buffered bytes do not yet hold a whole frame.
    NeedMore,
    /// The frame announces length zero: fatal.
    ZeroLength,
    /// One whole frame: its type byte, its payload, and the stream after it.
    Frame { kind: u8, payload: Seq<u8>, rest: Seq<u8> },
}

/// One decode step over the unconsumed stream.
pub open spec fn frame_step(s: Seq<u8>) -> FrameStep {
    match take_u32(s) {
        None => FrameStep::NeedMore,
        Some((len, r)) => if len == 0 {
            FrameStep::ZeroLength
        } else if r.len() < len {
            FrameStep::NeedMore
        } else {
            FrameStep::Frame {
                kind: r[0],
                payload: r.subrange(1, len as int),
                rest: r.skip(len as int),
            }
        },
    }
}

/// The frame that carries `length - 1` payload bytes under a type byte.
pub open spec fn frame_bytes(kind: u8, payload: Seq<u8>) -> Seq<u8>
    recommends
        payload.len() + 1 <= u32::MAX,
{
    be32_bytes((payload.len() + 1) as u32) + seq![kind] + payload
}

/// A complete frame consists of exactly the bytes of `frame_bytes` over what
/// it yields, followed by the rest.
pub proof fn lemma_frame_faithful(s: Seq<u8>)
    ensures
        frame_step(s) matches FrameStep::Frame { kind, payload, rest } ==> payload.len() + 1
            <= u32::MAX && s == frame_bytes(kind, payload) + rest,
{
    if frame_step(s) is Frame {
        let kind = frame_step(s)->Frame_kind;
        let payload = frame_step(s)->Frame_payload;
        let rest = frame_step(s)->Frame_rest;
        let (len, r) = take_u32(s)->Some_0;
        lemma_take_u32_faithful(s);
        assert(payload.len() == len - 1);
        assert(r =~= seq![kind] + payload + rest);
        assert(frame_bytes(kind, payload) + rest =~= be32_bytes(len) + r);
    }
}

/// Decoding the frame of a type byte and payload finds exactly them, with the
/// rest untouched.
pub proof fn lemma_frame_of_bytes(kind: u8, payload: Seq<u8>, rest: Seq<u8>)
    requires
        payload.len() + 1 <= u32::MAX,
    ensures
        frame_step(frame_bytes(kind, payload) + rest) == (FrameStep::Frame { kind, payload, rest }),
{
    let len = (payload.len() + 1) as u32;
    let r = seq![kind] + payload + rest;
    assert(frame_bytes(kind, payload) + rest =~= be32_bytes(len) + r);
    lemma_take_u32_of_be32(len, r);
    assert(r[0] == kind);
    assert(r.subrange(1, len as int) =~= payload);
    assert(r.skip(len as int) =~= rest);
}

/// Every proper prefix of a frame leaves the decoder waiting for more input.
pub proof fn lemma_frame_prefix_needs_more(s: Seq<u8>, i: int)
    requires
        frame_step(s) matches FrameStep::Frame { rest, .. } && 0 <= i < s.len() - rest.len(),
    ensures
        frame_step(s.take(i)) is NeedMore,
{
    let (len, r) = take_u32(s)->Some_0;
    let p = s.take(i);
    if i < 4 {
        assert(take_u32(p) is None);
    } else {
        assert(p[0] == s[0] && p[1] == s[1] && p[2] == s[2] && p[3] == s[3]);
        assert(take_u32(p) == Some((len, p.skip(4))));
        assert(p.skip(4).len() == i - 4 < len);
    }
}

// ===================== the codec =====================

/// The stateful frame codec for one connection.
pub struct Codec {
    length: Option<usize>,
    kind: Option<u8>,
    poisoned: bool,
}

impl Codec {
    #[verifier::type_invariant]
    spec fn wf(&self) -> bool {
        &&& (self.length matches Some(l) ==> 1 <= l <= u32::MAX)
        &&& (self.kind is Some ==> self.length is Some)
    }

    /// The bytes already consumed of the frame in progress, reconstructible
    /// from the cached length and type byte.
    pub closed spec fn pending(&self) -> Seq<u8> {
        match self.length {
            None => Seq::empty(),
            Some(l) => be32_bytes(l as u32) + (match self.kind {
                None => Seq::empty(),
                Some(k) => seq![k],
            }),
        }
    }

    /// Whether a decode failure has poisoned this codec.
    pub closed spec fn is_poisoned(&self) -> bool {
        self.poisoned
    }

    /// A fresh codec: nothing pending, not poisoned.
    pub fn new() -> (c: Codec)
        ensures
            c.pending() == Seq::<u8>::empty(),
            !c.is_poisoned(),
    {
        Codec { length: None, kind: None, poisoned: false }
    }

    /// Mark the codec as failed; it will refuse all further input.
    fn poison(&mut self)
        ensures
            final(self).is_poisoned(),
    {
        proof {
            use_type_invariant(&*self);
        }
        self.poisoned = true;
    }

    /// One decode step: consume at most one frame from the queue.
    ///
    /// The unconsumed logical stream is `pending() + src`; the result and the
    /// new state are a function of that stream alone, so feeding bytes one at
    /// a time decodes exactly like feeding them at once.
    #[verifier::spinoff_prover]
    #[verifier::rlimit(100)]
    pub fn decode(&mut self, src: &mut ByteQueue) -> (r: Result<Option<(u8, Vec<u8>)>, DecodeError>)
        ensures
            old(self).is_poisoned() ==> r == Err::<Option<(u8, Vec<u8>)>, DecodeError>(
                DecodeError::FramingLost,
            ) && final(self).is_poisoned() && final(src)@ == old(src)@,
            !old(self).is_poisoned() ==> match frame_step(old(self).pending() + old(src)@) {
                FrameStep::NeedMore => (r matches Ok(o) && o is None) && !final(self).is_poisoned()
                    && final(self).pending() + final(src)@ == old(self).pending() + old(src)@,
                FrameStep::ZeroLength => r == Err::<Option<(u8, Vec<u8>)>, DecodeError>(
                    DecodeError::ZeroLength,
                ) && final(self).is_poisoned(),
                FrameStep::Frame { kind, payload, rest } => (match r {
                    Ok(Some((k, p))) => k == kind && p@ == payload,
                    _ => false,
                }) && !final(self).is_poisoned() && final(self).pending() == Seq::<u8>::empty()
                    && final(src)@ == rest,
            },
    {
        proof {
            use_type_invariant(&*self);
        }
        let ghost s = self.pending() + src@;
        if self.poisoned {
            return Err(DecodeError::FramingLost);
        }
        let len: usize = match self.length {
            Some(l) => {
                proof {
                    lemma_take_u32_of_be32(l as u32, (match self.kind {
                        None => Seq::<u8>::empty(),
                        Some(k) => seq![k],
                    }) + src@);
                    assert(s =~= be32_bytes(l as u32) + ((match self.kind {
                        None => Seq::<u8>::empty(),
                        Some(k) => seq![k],
                    }) + src@));
                }
                l
            },
            None => {
                match src.pop_u32() {
                    Some(v) => {
                        proof {
                            assert(s =~= old(src)@);
                        }
                        if v == 0 {
                            self.poisoned = true;
                            return Err(DecodeError::ZeroLength);
                        }
                        self.length = Some(v as usize);
                        proof {
                            lemma_take_u32_faithful(s);
                        }
                        v as usize
                    },
                    None => {
                        proof {
                            assert(s =~= old(src)@);
                        }
                        return Ok(None);
                    },
                }
            },
        };
        let ghost after_len = take_u32(s)->Some_0.1;
        proof {
            assert(take_u32(s) == Some((len as u32, after_len)));
        }
        let kind: u8 = match self.kind {
            Some(k) => {
                proof {
                    assert(after_len =~= seq![k] + src@);
                }
                k
            },
            None => {
                let ghost before_kind = src@;
                proof {
                    assert(after_len =~= before_kind);
                }
                match src.pop_u8() {
                    Some(k) => {
                        proof {
                            assert(crate::wire::take_u8(before_kind) == Some((k, src@)));
                            assert(after_len =~= seq![k] + src@);
                        }
                        self.kind = Some(k);
                        k
                    },
                    None => {
                        proof {
                            assert(after_len.len() < len);
                            assert(self.pending() =~= be32_bytes(len as u32));
                            assert(self.pending() + src@ =~= s);
                        }
                        return Ok(None);
                    },
                }
            },
        };
        proof {
            assert(after_len =~= seq![kind] + src@);
            assert(after_len[0] == kind);
        }
        if src.len() < len - 1 {
            proof {
                assert(after_len.len() < len);
                assert(self.pending() =~= be32_bytes(len as u32) + seq![kind]);
                assert(self.pending() + src@ =~= s);
            }
            return Ok(None);
        }
        let ghost before_payload = src@;
        let payload = src.pop_exact(len - 1);
        proof {
            assert(after_len.subrange(1, len as int) =~= before_payload.take(len - 1));
            assert(after_len.skip(len as int) =~= before_payload.skip(len - 1));
        }
        self.kind = None;
        self.length = None;
        Ok(Some((kind, payload)))
    }
}

// ===================== typed decoding and encoding =====================

/// Decode at most one request from the queue; a payload that does not parse
/// poisons the codec.
pub fn decode_request(codec: &mut Codec, src: &mut ByteQueue) -> (r: Result<
    Option<Request>,
    DecodeError,
>)
    ensures
        old(codec).is_poisoned() ==> r == Err::<Option<Request>, DecodeError>(
            DecodeError::FramingLost,
        ) && final(codec).is_poisoned(),
        !old(codec).is_poisoned() ==> match frame_step(old(codec).pending() + old(src)@) {
            FrameStep::NeedMore => (r matches Ok(o) && o is None) && !final(codec).is_poisoned()
                && final(codec).pending() + final(src)@ == old(codec).pending() + old(src)@,
            FrameStep::ZeroLength => r == Err::<Option<Request>, DecodeError>(
                DecodeError::ZeroLength,
            ) && final(codec).is_poisoned(),
            FrameStep::Frame { kind, payload, rest } => final(src)@ == rest && match spec_parse_request(
                kind,
                payload,
            ) {
                Ok(m) => (match r {
                    Ok(Some(q)) => q@ == m,
                    _ => false,
                }) && !final(codec).is_poisoned() && final(codec).pending()
                    == Seq::<u8>::empty(),
                Err(f) => r == Err::<Option<Request>, DecodeError>(DecodeError::Malformed(f))
                    && final(codec).is_poisoned(),
            },
        },
{
    match codec.decode(src) {
        Err(e) => Err(e),
        Ok(None) => Ok(None),
        Ok(Some((kind, payload))) => match parse_request(kind, payload) {
            Ok(m) => Ok(Some(m)),
            Err(f) => {
                codec.poison();
                Err(DecodeError::Malformed(f))
            },
        },
    }
}

/// Decode at most one response from the queue; a payload that does not parse
/// poisons the codec.
pub fn decode_response(codec: &mut Codec, src: &mut ByteQueue) -> (r: Result<
    Option<Response>,
    DecodeError,
>)
    ensures
        old(codec).is_poisoned() ==> r == Err::<Option<Response>, DecodeError>(
            DecodeError::FramingLost,
        ) && final(codec).is_poisoned(),
        !old(codec).is_poisoned() ==> match frame_step(old(codec).pending() + old(src)@) {
            FrameStep::NeedMore => (r matches Ok(o) && o is None) && !final(codec).is_poisoned()
                && final(codec).pending() + final(src)@ == old(codec).pending() + old(src)@,
            FrameStep::ZeroLength => r == Err::<Option<Response>, DecodeError>(
                DecodeError::ZeroLength,
            ) && final(codec).is_poisoned(),
            FrameStep::Frame { kind, payload, rest } => final(src)@ == rest && match spec_parse_response(
                kind,
                payload,
            ) {
                Ok(m) => (match r {
                    Ok(Some(q)) => q@ == m,
                    _ => false,
                }) && !final(codec).is_poisoned() && final(codec).pending()
                    == Seq::<u8>::empty(),
                Err(f) => r == Err::<Option<Response>, DecodeError>(DecodeError::Malformed(f))
                    && final(codec).is_poisoned(),
            },
        },
{
    match codec.decode(src) {
        Err(e) => Err(e),
        Ok(None) => Ok(None),
        Ok(Some((kind, payload))) => match parse_response(kind, payload) {
            Ok(m) => Ok(Some(m)),
            Err(f) => {
                codec.poison();
                Err(DecodeError::Malformed(f))
            },
        },
    }
}

/// The framed encoding of a request.
pub open spec fn req_frame(m: RequestView) -> Seq<u8> {
    be32_bytes(req_wire(m).len() as u32) + req_wire(m)
}

/// The framed encoding of a response.
pub open spec fn resp_frame(m: ResponseView) -> Seq<u8> {
    be32_bytes(resp_wire(m).len() as u32) + resp_wire(m)
}

/// Append one framed request: length, then type byte and payload. The length
/// is written only once the payload is serialised; on failure `dst` is
/// untouched.
pub fn encode_request_frame(m: &Request, dst: &mut Vec<u8>) -> (r: Result<(), EncodeFault>)
    ensures
        r is Ok ==> final(dst)@ == old(dst)@ + req_frame(m@),
        r is Ok <==> req_encodable(m@) && req_wire(m@).len() <= u32::MAX && old(dst)@.len() + 4
            + req_wire(m@).len() <= usize::MAX,
        r is Err ==> final(dst)@ == old(dst)@,
{
    let mut body: Vec<u8> = Vec::new();
    proof {
        assert(body@ =~= Seq::<u8>::empty());
    }
    match encode_request_to(m, &mut body) {
        Ok(()) => {},
        Err(f) => {
            return Err(f);
        },
    }
    proof {
        assert(Seq::<u8>::empty() + req_wire(m@) =~= req_wire(m@));
    }
    if body.len() > u32::MAX as usize {
        return Err(EncodeFault::Oversize);
    }
    if usize::MAX - dst.len() < 4 || (usize::MAX - dst.len()) - 4 < body.len() {
        return Err(EncodeFault::NoSpace);
    }
    let n = body.len() as u32;
    match put_u32(dst, n) {
        Ok(()) => {},
        Err(f) => {
            return Err(f);
        },
    }
    match put_bytes(dst, body.as_slice()) {
        Ok(()) => {},
        Err(f) => {
            return Err(f);
        },
    }
    proof {
        assert(dst@ =~= old(dst)@ + req_frame(m@));
        assert(dst@.len() == dst.len());
    }
    Ok(())
}

/// Append one framed response; see [`encode_request_frame`].
pub fn encode_response_frame(m: &Response, dst: &mut Vec<u8>) -> (r: Result<(), EncodeFault>)
    ensures
        r is Ok ==> final(dst)@ == old(dst)@ + resp_frame(m@),
        r is Ok <==> resp_encodable(m@) && resp_wire(m@).len() <= u32::MAX && old(dst)@.len() + 4
            + resp_wire(m@).len() <= usize::MAX,
        r is Err ==> final(dst)@ == old(dst)@,
{
    let mut body: Vec<u8> = Vec::new();
    proof {
        assert(body@ =~= Seq::<u8>::empty());
    }
    match encode_response_to(m, &mut body) {
        Ok(()) => {},
        Err(f) => {
            return Err(f);
        },
    }
    proof {
        assert(Seq::<u8>::empty() + resp_wire(m@) =~= resp_wire(m@));
    }
    if body.len() > u32::MAX as usize {
        return Err(EncodeFault::Oversize);
    }
    if usize::MAX - dst.len() < 4 || (usize::MAX - dst.len()) - 4 < body.len() {
        return Err(EncodeFault::NoSpace);
    }
    let n = body.len() as u32;
    match put_u32(dst, n) {
        Ok(()) => {},
        Err(f) => {
            return Err(f);
        },
    }
    match put_bytes(dst, body.as_slice()) {
        Ok(()) => {},
        Err(f) => {
            return Err(f);
        },
    }
    proof {
        assert(dst@ =~= old(dst)@ + resp_frame(m@));
        assert(dst@.len() == dst.len());
    }
    Ok(())
}

// ===================== stream laws =====================

/// What repeated decoding makes of a byte stream: the requests decoded, the
/// unconsumed remainder, and whether the decoder ended up poisoned.
pub open spec fn drain_requests(s: Seq<u8>) -> (Seq<RequestView>, Seq<u8>, bool)
    decreases s.len(),
{
    match frame_step(s) {
        FrameStep::NeedMore => (Seq::empty(), s, false),
        FrameStep::ZeroLength => (Seq::empty(), s, true),
        FrameStep::Frame { kind, payload, rest } => match spec_parse_request(kind, payload) {
            Err(_) => (Seq::empty(), s, true),
            Ok(m) => {
                let (ms, rem, po) = drain_requests(rest);
                (seq![m] + ms, rem, po)
            },
        },
    }
}

/// The concatenated framed encodings of a message sequence.
pub open spec fn frames_of(ms: Seq<RequestView>) -> Seq<u8>
    decreases ms.len(),
{
    if ms.len() == 0 {
        Seq::empty()
    } else {
        req_frame(ms[0]) + frames_of(ms.drop_first())
    }
}

/// Unless decoding poisons, the messages a stream decodes to are well-formed
/// and their concatenated encodings, followed by the unconsumed remainder,
/// are exactly the input stream.
#[verifier::spinoff_prover]
#[verifier::rlimit(100)]
pub proof fn lemma_stream_faithful(s: Seq<u8>)
    ensures
        ({
            let (ms, rem, po) = drain_requests(s);
            !po ==> frames_of(ms) + rem == s && (forall|i: int|
                0 <= i < ms.len() ==> req_wf(#[trigger] ms[i]))
        }),
    decreases s.len(),
{
    let (ms, rem, po) = drain_requests(s);
    if !po {
        match frame_step(s) {
            FrameStep::NeedMore => {
                assert(frames_of(ms) + rem =~= s);
            },
            FrameStep::ZeroLength => {},
            FrameStep::Frame { kind, payload, rest } => {
                lemma_frame_faithful(s);
                lemma_parse_request_faithful(kind, payload);
                let m = spec_parse_request(kind, payload)->Ok_0;
                lemma_stream_faithful(rest);
                let (mt, rem2, po2) = drain_requests(rest);
                assert(ms.drop_first() =~= mt);
                assert(ms[0] == m);
                assert(req_wire(m) =~= seq![kind] + payload);
                assert(req_frame(m) =~= frame_bytes(kind, payload));
                assert(frames_of(ms) + rem =~= req_frame(m) + (frames_of(mt) + rem2));
                assert(forall|i: int| 1 <= i < ms.len() ==> ms[i] == mt[i - 1]);
            },
        }
    }
}

/// The frame of a well-formed request decodes back to exactly that request,
/// and every proper prefix of the frame only waits for more input: feeding an
/// encoded message byte by byte parses like feeding it whole.
pub proof fn lemma_request_frame_round_trip(m: RequestView, i: int)
    requires
        req_wf(m),
        req_wire(m).len() <= u32::MAX,
        0 <= i < req_frame(m).len(),
    ensures
        frame_step(req_frame(m).take(i)) is NeedMore,
        frame_step(req_frame(m)) == (FrameStep::Frame {
            kind: req_kind(m),
            payload: req_payload(m),
            rest: Seq::<u8>::empty(),
        }),
        spec_parse_request(req_kind(m), req_payload(m)) == Ok::<RequestView, ParseFault>(m),
{
    assert(req_frame(m) =~= frame_bytes(req_kind(m), req_payload(m)) + Seq::<u8>::empty());
    lemma_frame_of_bytes(req_kind(m), req_payload(m), Seq::empty());
    lemma_frame_prefix_needs_more(req_frame(m), i);
    lemma_request_round_trip(m);
}

} // verus!
