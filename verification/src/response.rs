//! Responses an agent sends back to a client.
//!
//! `SUCCESS` and `FAILURE` carry payloads because extensions overload them;
//! a bare success or failure carries an empty payload. An
//! [`ExtensionResponse`] is not a wire kind of its own: it encodes into
//! `SUCCESS` or `EXTENSION_FAILURE`, and parsing returns those raw variants —
//! only a caller that knows which extension it sent can decode the body.

use vstd::prelude::*;

use crate::errors::{EncodeFault, ParseFault};
use crate::extresp::{
    encode_ext_resp_body_to, ext_resp_body, ext_resp_encodable, ExtensionResponse,
    ExtensionResponseView,
};
use crate::wire::{
    be32_bytes, capped, lemma_take_lp_faithful, lemma_take_lp_of_lp, lemma_take_u32_faithful,
    lemma_take_u32_of_be32, lp_bytes, put_bytes, put_lp, put_u32, put_u8, read_lp, read_u32,
    sat_add, take_lp, take_u32,
};

verus! {

pub const SSH_AGENT_FAILURE: u8 = 5;

pub const SSH_AGENT_SUCCESS: u8 = 6;

pub const SSH_AGENT_IDENTITIES_ANSWER: u8 = 12;

pub const SSH_AGENT_SIGN_RESPONSE: u8 = 14;

pub const SSH_AGENT_EXTENSION_FAILURE: u8 = 28;

/// One public key an upstream holds: the opaque key blob and its comment.
/// The multiplexer never decodes the blob; keys are compared and
/// de-duplicated by the full pair.
#[derive(Clone, Debug, PartialEq, Eq, Hash)]
pub struct PublicKey {
    pub blob: Vec<u8>,
    pub comment: Vec<u8>,
}

/// Mathematical shape of a [`PublicKey`].
pub struct PublicKeyView {
    pub blob: Seq<u8>,
    pub comment: Seq<u8>,
}

impl View for PublicKey {
    type V = PublicKeyView;

    open spec fn view(&self) -> PublicKeyView {
        PublicKeyView { blob: self.blob@, comment: self.comment@ }
    }
}

impl DeepView for PublicKey {
    type V = PublicKeyView;

    open spec fn deep_view(&self) -> PublicKeyView {
        self.view()
    }
}

/// A response from an agent, as decoded from one frame.
#[derive(Clone, Debug, PartialEq, Eq)]
pub enum Response {
    /// Generic success; extensions put their reply in `contents`.
    Success { contents: Vec<u8> },
    /// Generic failure; extensions put their reply in `contents`.
    Failure { contents: Vec<u8> },
    /// The keys an agent holds, in its own order.
    Identities { keys: Vec<PublicKey> },
    /// A signature over the requested data.
    SignResponse { signature: Vec<u8> },
    /// A typed extension reply. Never produced by parsing: it encodes into
    /// `Success` or `ExtensionFailure`, whose raw bytes parsing returns.
    Extension(ExtensionResponse),
    /// The agent failed an extension request and sent an error body.
    ExtensionFailure { contents: Vec<u8> },
    /// Any other kind, preserved verbatim.
    Unknown { kind: u8, contents: Vec<u8> },
}

/// Mathematical shape of a [`Response`].
pub enum ResponseView {
    Success { contents: Seq<u8> },
    Failure { contents: Seq<u8> },
    Identities { keys: Seq<PublicKeyView> },
    SignResponse { signature: Seq<u8> },
    Extension(ExtensionResponseView),
    ExtensionFailure { contents: Seq<u8> },
    Unknown { kind: u8, contents: Seq<u8> },
}

impl View for Response {
    type V = ResponseView;

    open spec fn view(&self) -> ResponseView {
        match self {
            Response::Success { contents } => ResponseView::Success { contents: contents@ },
            Response::Failure { contents } => ResponseView::Failure { contents: contents@ },
            Response::Identities { keys } => ResponseView::Identities { keys: keys.deep_view() },
            Response::SignResponse { signature } => ResponseView::SignResponse {
                signature: signature@,
            },
            Response::Extension(e) => ResponseView::Extension(e@),
            Response::ExtensionFailure { contents } => ResponseView::ExtensionFailure {
                contents: contents@,
            },
            Response::Unknown { kind, contents } => ResponseView::Unknown {
                kind: *kind,
                contents: contents@,
            },
        }
    }
}

impl Response {
    /// A bare success: `SUCCESS` with an empty payload.
    pub fn success() -> (r: Response)
        ensures
            r@ == (ResponseView::Success { contents: Seq::<u8>::empty() }),
    {
        let r = Response::Success { contents: Vec::new() };
        proof {
            assert(r@->Success_contents =~= Seq::<u8>::empty());
        }
        r
    }

    /// A bare failure: `FAILURE` with an empty payload.
    pub fn failure() -> (r: Response)
        ensures
            r@ == (ResponseView::Failure { contents: Seq::<u8>::empty() }),
    {
        let r = Response::Failure { contents: Vec::new() };
        proof {
            assert(r@->Failure_contents =~= Seq::<u8>::empty());
        }
        r
    }
}

// ===================== wire form =====================

/// True of the kinds the parser gives their own variant.
pub open spec fn known_response_kind(kind: u8) -> bool {
    ||| kind == SSH_AGENT_FAILURE
    ||| kind == SSH_AGENT_SUCCESS
    ||| kind == SSH_AGENT_IDENTITIES_ANSWER
    ||| kind == SSH_AGENT_SIGN_RESPONSE
    ||| kind == SSH_AGENT_EXTENSION_FAILURE
}

/// The type byte a response travels under; an extension reply borrows
/// `SUCCESS` or `EXTENSION_FAILURE` according to its variant.
pub open spec fn resp_kind(m: ResponseView) -> u8 {
    match m {
        ResponseView::Success { .. } => SSH_AGENT_SUCCESS,
        ResponseView::Failure { .. } => SSH_AGENT_FAILURE,
        ResponseView::Identities { .. } => SSH_AGENT_IDENTITIES_ANSWER,
        ResponseView::SignResponse { .. } => SSH_AGENT_SIGN_RESPONSE,
        ResponseView::Extension(e) => match e {
            ExtensionResponseView::Error(_) => SSH_AGENT_EXTENSION_FAILURE,
            ExtensionResponseView::UpstreamListV2(_) => SSH_AGENT_SUCCESS,
        },
        ResponseView::ExtensionFailure { .. } => SSH_AGENT_EXTENSION_FAILURE,
        ResponseView::Unknown { kind, .. } => kind,
    }
}

/// The wire form of a key list, in order.
pub open spec fn keys_wire(ks: Seq<PublicKeyView>) -> Seq<u8>
    decreases ks.len(),
{
    if ks.len() == 0 {
        Seq::empty()
    } else {
        lp_bytes(ks[0].blob) + lp_bytes(ks[0].comment) + keys_wire(ks.drop_first())
    }
}

/// Every blob and comment fits its 32-bit length field.
pub open spec fn keys_encodable(ks: Seq<PublicKeyView>) -> bool {
    forall|i: int|
        0 <= i < ks.len() ==> (#[trigger] ks[i]).blob.len() <= u32::MAX && ks[i].comment.len()
            <= u32::MAX
}

/// The payload that follows the type byte.
pub open spec fn resp_payload(m: ResponseView) -> Seq<u8> {
    match m {
        ResponseView::Success { contents } => contents,
        ResponseView::Failure { contents } => contents,
        ResponseView::Identities { keys } => be32_bytes(keys.len() as u32) + keys_wire(keys),
        ResponseView::SignResponse { signature } => lp_bytes(signature),
        ResponseView::Extension(e) => ext_resp_body(e),
        ResponseView::ExtensionFailure { contents } => contents,
        ResponseView::Unknown { contents, .. } => contents,
    }
}

/// The whole message: type byte, then payload.
pub open spec fn resp_wire(m: ResponseView) -> Seq<u8> {
    seq![resp_kind(m)] + resp_payload(m)
}

/// Every length fits the 32-bit field that carries it.
pub open spec fn resp_encodable(m: ResponseView) -> bool {
    match m {
        ResponseView::Identities { keys } => keys.len() <= u32::MAX && keys_encodable(keys),
        ResponseView::SignResponse { signature } => signature.len() <= u32::MAX,
        ResponseView::Extension(e) => ext_resp_encodable(e),
        _ => true,
    }
}

/// Well-formed: encodable, not the `Extension` pseudo-variant (it travels as
/// `Success` or `ExtensionFailure`), and an unknown response does not wear a
/// known kind.
pub open spec fn resp_wf(m: ResponseView) -> bool {
    resp_encodable(m) && match m {
        ResponseView::Extension(_) => false,
        ResponseView::Unknown { kind, .. } => !known_response_kind(kind),
        _ => true,
    }
}

// ===================== specification parser =====================

/// Read `n` keys.
pub open spec fn take_keys(s: Seq<u8>, n: nat) -> Result<(Seq<PublicKeyView>, Seq<u8>), ParseFault>
    decreases n,
{
    if n == 0 {
        Ok((Seq::empty(), s))
    } else {
        match take_lp(s) {
            None => Err(ParseFault::Insufficient),
            Some((blob, r0)) => match take_lp(r0) {
                None => Err(ParseFault::Insufficient),
                Some((comment, r1)) => match take_keys(r1, (n - 1) as nat) {
                    Err(f) => Err(f),
                    Ok((ks, r2)) => Ok((seq![PublicKeyView { blob, comment }] + ks, r2)),
                },
            },
        }
    }
}

/// Parse the payload of a response frame of the given kind. The payload must
/// be consumed exactly.
pub open spec fn spec_parse_response(kind: u8, s: Seq<u8>) -> Result<ResponseView, ParseFault> {
    if kind == SSH_AGENT_FAILURE {
        Ok(ResponseView::Failure { contents: s })
    } else if kind == SSH_AGENT_SUCCESS {
        Ok(ResponseView::Success { contents: s })
    } else if kind == SSH_AGENT_IDENTITIES_ANSWER {
        match take_u32(s) {
            None => Err(ParseFault::Insufficient),
            Some((n, r)) => match take_keys(r, n as nat) {
                Err(f) => Err(f),
                Ok((ks, r2)) => if r2.len() == 0 {
                    Ok(ResponseView::Identities { keys: ks })
                } else {
                    Err(ParseFault::Trailing)
                },
            },
        }
    } else if kind == SSH_AGENT_SIGN_RESPONSE {
        match take_lp(s) {
            None => Err(ParseFault::Insufficient),
            Some((signature, r)) => if r.len() == 0 {
                Ok(ResponseView::SignResponse { signature })
            } else {
                Err(ParseFault::Trailing)
            },
        }
    } else if kind == SSH_AGENT_EXTENSION_FAILURE {
        Ok(ResponseView::ExtensionFailure { contents: s })
    } else {
        Ok(ResponseView::Unknown { kind, contents: s })
    }
}

// ===================== key list lemmas =====================

/// The wire form of a key list splits at any index.
pub proof fn lemma_keys_wire_split(ks: Seq<PublicKeyView>, i: int)
    requires
        0 <= i <= ks.len(),
    ensures
        keys_wire(ks) == keys_wire(ks.take(i)) + keys_wire(ks.skip(i)),
    decreases i,
{
    if i == 0 {
        assert(ks.take(0) =~= Seq::<PublicKeyView>::empty());
        assert(ks.skip(0) =~= ks);
        assert(keys_wire(ks.take(0)) + keys_wire(ks) =~= keys_wire(ks));
    } else {
        let dropped = ks.drop_first();
        lemma_keys_wire_split(dropped, i - 1);
        assert(dropped.take(i - 1) =~= ks.take(i).drop_first());
        assert(dropped.skip(i - 1) =~= ks.skip(i));
        assert(ks.take(i)[0] == ks[0]);
        let head = lp_bytes(ks[0].blob) + lp_bytes(ks[0].comment);
        assert(head + (keys_wire(ks.take(i).drop_first()) + keys_wire(ks.skip(i))) =~= (head
            + keys_wire(ks.take(i).drop_first())) + keys_wire(ks.skip(i)));
    }
}

/// The wire form of one more key is the wire form so far plus that key.
pub proof fn lemma_keys_wire_snoc(ks: Seq<PublicKeyView>, i: int)
    requires
        0 <= i < ks.len(),
    ensures
        keys_wire(ks.take(i + 1)) == keys_wire(ks.take(i)) + lp_bytes(ks[i].blob) + lp_bytes(
            ks[i].comment,
        ),
{
    let a = ks.take(i + 1);
    lemma_keys_wire_split(a, i);
    assert(a.take(i) =~= ks.take(i));
    assert(a.skip(i) =~= seq![ks[i]]);
    let single = seq![ks[i]];
    assert(single.drop_first() =~= Seq::<PublicKeyView>::empty());
    assert(keys_wire(single.drop_first()) == Seq::<u8>::empty());
    assert(single[0] == ks[i]);
    let head = lp_bytes(ks[i].blob) + lp_bytes(ks[i].comment);
    assert(keys_wire(single) =~= head);
    assert(keys_wire(ks.take(i)) + head =~= keys_wire(ks.take(i)) + lp_bytes(ks[i].blob)
        + lp_bytes(ks[i].comment));
}

/// Reading `n` written keys gives the keys back.
#[verifier::rlimit(50)]
pub proof fn lemma_take_keys_of_wire(ks: Seq<PublicKeyView>, rest: Seq<u8>)
    requires
        keys_encodable(ks),
    ensures
        take_keys(keys_wire(ks) + rest, ks.len()) == Ok::<
            (Seq<PublicKeyView>, Seq<u8>),
            ParseFault,
        >((ks, rest)),
    decreases ks.len(),
{
    if ks.len() == 0 {
        assert(ks =~= Seq::<PublicKeyView>::empty());
        assert(keys_wire(ks) + rest =~= rest);
    } else {
        let k0 = ks[0];
        let tail = ks.drop_first();
        assert(keys_wire(ks) + rest =~= lp_bytes(k0.blob) + (lp_bytes(k0.comment) + (keys_wire(
            tail,
        ) + rest)));
        lemma_take_lp_of_lp(k0.blob, lp_bytes(k0.comment) + (keys_wire(tail) + rest));
        lemma_take_lp_of_lp(k0.comment, keys_wire(tail) + rest);
        assert(keys_encodable(tail)) by {
            assert(forall|i: int| 0 <= i < tail.len() ==> #[trigger] tail[i] == ks[i + 1]);
        }
        lemma_take_keys_of_wire(tail, rest);
        assert(seq![PublicKeyView { blob: k0.blob, comment: k0.comment }] + tail =~= ks);
    }
}

/// Whatever keys were read re-encode to exactly the bytes consumed.
#[verifier::spinoff_prover]
#[verifier::rlimit(100)]
pub proof fn lemma_take_keys_faithful(s: Seq<u8>, n: nat)
    requires
        take_keys(s, n) is Ok,
    ensures
        ({
            let (ks, r) = take_keys(s, n)->Ok_0;
            ks.len() == n && keys_encodable(ks) && keys_wire(ks) + r == s
        }),
    decreases n,
{
    if n == 0 {
        let (ks, r) = take_keys(s, n)->Ok_0;
        assert(keys_wire(ks) + r =~= s);
    } else {
        let (blob, r0) = take_lp(s)->Some_0;
        let (comment, r1) = take_lp(r0)->Some_0;
        lemma_take_keys_faithful(r1, (n - 1) as nat);
        let (kt, r) = take_keys(r1, (n - 1) as nat)->Ok_0;
        let k0 = PublicKeyView { blob, comment };
        let ks = seq![k0] + kt;
        assert(take_keys(s, n) == Ok::<(Seq<PublicKeyView>, Seq<u8>), ParseFault>((ks, r)));
        assert(ks.drop_first() =~= kt);
        assert(ks[0] == k0);
        assert(keys_wire(ks) == lp_bytes(blob) + lp_bytes(comment) + keys_wire(kt));
        lemma_take_lp_faithful(s);
        lemma_take_lp_faithful(r0);
        assert(keys_encodable(ks)) by {
            assert(forall|i: int| 1 <= i < ks.len() ==> #[trigger] ks[i] == kt[i - 1]);
        }
        assert(keys_wire(ks) + r =~= lp_bytes(blob) + (lp_bytes(comment) + (keys_wire(kt) + r)));
        assert(keys_wire(kt) + r == r1);
        assert(lp_bytes(blob) + (lp_bytes(comment) + r1) =~= (lp_bytes(blob) + lp_bytes(comment))
            + r1);
        assert((lp_bytes(blob) + lp_bytes(comment)) + r1 =~= s);
    }
}

// ===================== parse/encode agreement =====================

/// Whatever parses was well-formed and re-encodes to the very input.
pub proof fn lemma_parse_response_faithful(kind: u8, s: Seq<u8>)
    ensures
        spec_parse_response(kind, s) matches Ok(m) ==> resp_wf(m) && resp_kind(m) == kind
            && resp_payload(m) == s,
{
    if spec_parse_response(kind, s) is Ok {
        let m = spec_parse_response(kind, s)->Ok_0;
        if kind == SSH_AGENT_IDENTITIES_ANSWER {
            let (n, r) = take_u32(s)->Some_0;
            lemma_take_u32_faithful(s);
            lemma_take_keys_faithful(r, n as nat);
            let (ks, r2) = take_keys(r, n as nat)->Ok_0;
            assert(r2 =~= Seq::<u8>::empty());
            assert(keys_wire(ks) + r2 =~= keys_wire(ks));
            assert(resp_payload(m) =~= s);
        } else if kind == SSH_AGENT_SIGN_RESPONSE {
            lemma_take_lp_faithful(s);
            assert(resp_payload(m) =~= s);
        } else {
        }
    }
}

/// Every well-formed response parses back from its own encoding.
pub proof fn lemma_response_round_trip(m: ResponseView)
    requires
        resp_wf(m),
    ensures
        spec_parse_response(resp_kind(m), resp_payload(m)) == Ok::<ResponseView, ParseFault>(m),
{
    match m {
        ResponseView::Identities { keys } => {
            assert(resp_payload(m) =~= be32_bytes(keys.len() as u32) + keys_wire(keys));
            lemma_take_u32_of_be32(keys.len() as u32, keys_wire(keys));
            assert(keys_wire(keys) =~= keys_wire(keys) + Seq::<u8>::empty());
            lemma_take_keys_of_wire(keys, Seq::empty());
        },
        ResponseView::SignResponse { signature } => {
            assert(resp_payload(m) =~= lp_bytes(signature) + Seq::<u8>::empty());
            lemma_take_lp_of_lp(signature, Seq::empty());
        },
        _ => {
        },
    }
}

/// A `list-upstreams-v2` reply travels as a `SUCCESS` whose body decodes back
/// to exactly the listed upstreams, in order.
pub proof fn lemma_list_reply_round_trip(us: Seq<crate::extension::UpstreamView>)
    requires
        crate::extresp::upstream_list_encodable(us),
    ensures
        ({
            let m = ResponseView::Extension(ExtensionResponseView::UpstreamListV2(us));
            let body = crate::extresp::upstream_list_wire(us);
            spec_parse_response(resp_kind(m), resp_payload(m)) == Ok::<ResponseView, ParseFault>(
                ResponseView::Success { contents: body },
            ) && crate::extresp::spec_parse_upstream_list(body) == Ok::<
                Seq<crate::extension::UpstreamView>,
                ParseFault,
            >(us)
        }),
{
    crate::extresp::lemma_upstream_list_round_trip(us);
}

// ===================== executable parser and encoder =====================

impl Response {
    /// A size hint for the whole encoded message, type byte included: exact,
    /// except that a length past the top of `usize` caps there.
    pub fn encoded_length_estimate(&self) -> (r: usize)
        ensures
            r == capped(resp_wire(self@).len() as int),
    {
        match self {
            Response::Success { contents } | Response::Failure { contents } | Response::ExtensionFailure {
                contents,
            } | Response::Unknown { contents, .. } => sat_add(1, contents.len()),
            Response::SignResponse { signature } => sat_add(5, signature.len()),
            Response::Extension(e) => sat_add(1, e.encoded_length_estimate()),
            Response::Identities { keys } => {
                let ghost ks = keys.deep_view();
                let n = keys.len();
                let mut acc: usize = 5;
                let mut i: usize = 0;
                proof {
                    assert(ks.take(0) =~= Seq::<PublicKeyView>::empty());
                }
                while i < n
                    invariant
                        n == ks.len(),
                        ks == keys.deep_view(),
                        i <= n,
                        acc == capped(5 + keys_wire(ks.take(i as int)).len() as int),
                    decreases n - i,
                {
                    proof {
                        lemma_keys_wire_snoc(ks, i as int);
                        assert(ks[i as int] == keys@[i as int]@);
                    }
                    acc = sat_add(
                        acc,
                        sat_add(8, sat_add(keys[i].blob.len(), keys[i].comment.len())),
                    );
                    i = i + 1;
                }
                proof {
                    assert(ks.take(n as int) =~= ks);
                }
                acc
            },
        }
    }

    /// The type byte this response travels under.
    pub fn kind(&self) -> (k: u8)
        ensures
            k == resp_kind(self@),
    {
        match self {
            Response::Success { .. } => SSH_AGENT_SUCCESS,
            Response::Failure { .. } => SSH_AGENT_FAILURE,
            Response::Identities { .. } => SSH_AGENT_IDENTITIES_ANSWER,
            Response::SignResponse { .. } => SSH_AGENT_SIGN_RESPONSE,
            Response::Extension(e) => match e {
                ExtensionResponse::Error(_) => SSH_AGENT_EXTENSION_FAILURE,
                ExtensionResponse::UpstreamListV2(_) => SSH_AGENT_SUCCESS,
            },
            Response::ExtensionFailure { .. } => SSH_AGENT_EXTENSION_FAILURE,
            Response::Unknown { kind, .. } => *kind,
        }
    }
}

/// Parse one response from its frame's kind byte and payload.
#[verifier::loop_isolation(false)]
#[verifier::rlimit(100)]
pub fn parse_response(kind: u8, contents: Vec<u8>) -> (r: Result<Response, ParseFault>)
    ensures
        ({
            let t = spec_parse_response(kind, contents@);
            match r {
                Ok(m) => t == Ok::<ResponseView, ParseFault>(m@),
                Err(f) => t == Err::<ResponseView, ParseFault>(f),
            }
        }),
{
    proof {
        assert(contents@.skip(0) =~= contents@);
    }
    if kind == SSH_AGENT_FAILURE {
        Ok(Response::Failure { contents })
    } else if kind == SSH_AGENT_SUCCESS {
        Ok(Response::Success { contents })
    } else if kind == SSH_AGENT_IDENTITIES_ANSWER {
        let (n, p1) = match read_u32(&contents, 0) {
            Some(v) => v,
            None => {
                return Err(ParseFault::Insufficient);
            },
        };
        let ghost s1 = contents@.skip(p1 as int);
        let mut out: Vec<PublicKey> = Vec::new();
        let mut p: usize = p1;
        let mut i: u32 = 0;
        proof {
            assert(out.deep_view() =~= Seq::<PublicKeyView>::empty());
            if take_keys(s1, n as nat) is Ok {
                let (ks2, r2) = take_keys(s1, n as nat)->Ok_0;
                assert(out.deep_view() + ks2 =~= ks2);
            }
        }
        while i < n
            invariant
                p <= contents@.len(),
                i <= n,
                out.deep_view().len() == i,
                take_keys(s1, n as nat) == (match take_keys(
                    contents@.skip(p as int),
                    (n - i) as nat,
                ) {
                    Ok((ks2, r2)) => Ok::<(Seq<PublicKeyView>, Seq<u8>), ParseFault>(
                        (out.deep_view() + ks2, r2),
                    ),
                    Err(f) => Err(f),
                }),
            decreases n - i,
        {
            let (blob, p2) = match read_lp(&contents, p) {
                Some(v) => v,
                None => {
                    return Err(ParseFault::Insufficient);
                },
            };
            let (comment, p3) = match read_lp(&contents, p2) {
                Some(v) => v,
                None => {
                    return Err(ParseFault::Insufficient);
                },
            };
            let k = PublicKey { blob, comment };
            proof {
                let ghost acc = out.deep_view();
                let rec = take_keys(contents@.skip(p3 as int), (n - i - 1) as nat);
                if rec is Ok {
                    let (ks2, r2) = rec->Ok_0;
                    assert(acc + (seq![k@] + ks2) =~= acc.push(k@) + ks2);
                }
            }
            let ghost acc_before = out.deep_view();
            out.push(k);
            proof {
                assert(out.deep_view() =~= acc_before.push(k@));
            }
            p = p3;
            i = i + 1;
        }
        proof {
            assert(take_keys(contents@.skip(p as int), 0) == Ok::<
                (Seq<PublicKeyView>, Seq<u8>),
                ParseFault,
            >((Seq::empty(), contents@.skip(p as int))));
            assert(out.deep_view() + Seq::<PublicKeyView>::empty() =~= out.deep_view());
        }
        if p != contents.len() {
            return Err(ParseFault::Trailing);
        }
        Ok(Response::Identities { keys: out })
    } else if kind == SSH_AGENT_SIGN_RESPONSE {
        let (signature, p1) = match read_lp(&contents, 0) {
            Some(v) => v,
            None => {
                return Err(ParseFault::Insufficient);
            },
        };
        if p1 != contents.len() {
            return Err(ParseFault::Trailing);
        }
        Ok(Response::SignResponse { signature })
    } else if kind == SSH_AGENT_EXTENSION_FAILURE {
        Ok(Response::ExtensionFailure { contents })
    } else {
        Ok(Response::Unknown { kind, contents })
    }
}

/// Append the wire form of a response: type byte, then payload.
#[verifier::loop_isolation(false)]
#[verifier::rlimit(100)]
pub fn encode_response_to(m: &Response, dst: &mut Vec<u8>) -> (r: Result<(), EncodeFault>)
    ensures
        r is Ok ==> final(dst)@ == old(dst)@ + resp_wire(m@),
        r is Ok <==> resp_encodable(m@) && old(dst)@.len() + resp_wire(m@).len() <= usize::MAX,
{
    let ghost pre = dst@;
    match put_u8(dst, m.kind()) {
        Ok(()) => {},
        Err(f) => {
            return Err(f);
        },
    }
    match m {
        Response::Success { contents } | Response::Failure { contents } | Response::ExtensionFailure {
            contents,
        } | Response::Unknown { contents, .. } => {
            match put_bytes(dst, contents.as_slice()) {
                Ok(()) => {},
                Err(f) => {
                    return Err(f);
                },
            }
            proof {
                assert(dst@ =~= pre + resp_wire(m@));
                assert(dst@.len() == dst.len());
            }
            Ok(())
        },
        Response::SignResponse { signature } => {
            match put_lp(dst, signature.as_slice()) {
                Ok(()) => {},
                Err(f) => {
                    return Err(f);
                },
            }
            proof {
                assert(dst@ =~= pre + resp_wire(m@));
                assert(dst@.len() == dst.len());
            }
            Ok(())
        },
        Response::Extension(e) => {
            match encode_ext_resp_body_to(e, dst) {
                Ok(()) => {},
                Err(f) => {
                    return Err(f);
                },
            }
            proof {
                assert(dst@ =~= pre + resp_wire(m@));
                assert(dst@.len() == dst.len());
            }
            Ok(())
        },
        Response::Identities { keys } => {
            let ghost ks = keys.deep_view();
            let n = keys.len();
            if n > u32::MAX as usize {
                return Err(EncodeFault::Oversize);
            }
            match put_u32(dst, n as u32) {
                Ok(()) => {},
                Err(f) => {
                    return Err(f);
                },
            }
            let mut i: usize = 0;
            while i < n
                invariant
                    n == ks.len(),
                    n <= u32::MAX,
                    i <= n,
                    ks == keys.deep_view(),
                    dst@ == pre + seq![resp_kind(m@)] + be32_bytes(n as u32) + keys_wire(
                        ks.take(i as int),
                    ),
                    forall|j: int|
                        0 <= j < i ==> (#[trigger] ks[j]).blob.len() <= u32::MAX
                            && ks[j].comment.len() <= u32::MAX,
                decreases n - i,
            {
                proof {
                    assert(ks[i as int] == keys@[i as int]@);
                    lemma_keys_wire_split(ks, i as int);
                    let suffix = ks.skip(i as int);
                    assert(suffix[0] == ks[i as int]);
                    assert(keys_wire(suffix) == lp_bytes(suffix[0].blob) + lp_bytes(
                        suffix[0].comment,
                    ) + keys_wire(suffix.drop_first()));
                }
                match put_lp(dst, keys[i].blob.as_slice()) {
                    Ok(()) => {},
                    Err(f) => {
                        return Err(f);
                    },
                }
                match put_lp(dst, keys[i].comment.as_slice()) {
                    Ok(()) => {},
                    Err(f) => {
                        return Err(f);
                    },
                }
                proof {
                    lemma_keys_wire_snoc(ks, i as int);
                    assert(dst@ =~= pre + seq![resp_kind(m@)] + be32_bytes(n as u32) + keys_wire(
                        ks.take(i as int + 1),
                    ));
                }
                i = i + 1;
            }
            proof {
                assert(ks.take(n as int) =~= ks);
                assert(dst@ =~= pre + resp_wire(m@));
                assert(dst@.len() == dst.len());
            }
            Ok(())
        },
    }
}

} // verus!
