//! Requests a client sends to the agent.
//!
//! Each variant has a constant wire kind; parsing consumes the payload
//! exactly (trailing bytes are a fault) and unknown kinds are preserved
//! structurally so they round-trip.

use vstd::prelude::*;

use crate::errors::{EncodeFault, ParseFault};
use crate::extension::{
    encode_extension_to, ext_encodable, ext_wf, ext_wire, lemma_extension_round_trip,
    lemma_parse_extension_faithful, parse_extension, spec_parse_extension, Extension,
    ExtensionView,
};
use crate::wire::{
    be32_bytes, capped, lemma_take_lp_faithful, lemma_take_lp_of_lp, lemma_take_u32_faithful,
    lemma_take_u32_of_be32, lp_bytes, put_bytes, put_lp, put_u32, read_lp, read_u32, sat_add,
    take_lp, take_u32,
};

verus! {

pub const SSH_AGENTC_REQUEST_IDENTITIES: u8 = 11;

pub const SSH_AGENTC_SIGN_REQUEST: u8 = 13;

pub const SSH_AGENTC_ADD_IDENTITY: u8 = 17;

pub const SSH_AGENTC_REMOVE_IDENTITY: u8 = 18;

pub const SSH_AGENTC_REMOVE_ALL_IDENTITIES: u8 = 19;

pub const SSH_AGENTC_ADD_ID_CONSTRAINED: u8 = 25;

pub const SSH_AGENTC_EXTENSION: u8 = 27;

/// A request from a client, as decoded from one frame.
#[derive(Clone, Debug, PartialEq, Eq)]
pub enum Request {
    /// List every identity the agent holds.
    RequestIdentities,
    /// Sign `data` with the key whose blob is `blob`.
    SignRequest { blob: Vec<u8>, data: Vec<u8>, flags: u32 },
    /// Add a key; the payload stays opaque — the multiplexer never parses key
    /// material, it only forwards it.
    AddIdentity { contents: Vec<u8> },
    /// Add a key under constraints; payload opaque as for `AddIdentity`.
    AddIdConstrained { contents: Vec<u8> },
    /// Remove the key whose blob is `blob`.
    RemoveIdentity { blob: Vec<u8> },
    /// Remove every key.
    RemoveAllIdentities,
    /// A vendor extension.
    Extension(Extension),
    /// Any other kind, preserved verbatim.
    Unknown { kind: u8, contents: Vec<u8> },
}

/// Mathematical shape of a [`Request`].
pub enum RequestView {
    RequestIdentities,
    SignRequest { blob: Seq<u8>, data: Seq<u8>, flags: u32 },
    AddIdentity { contents: Seq<u8> },
    AddIdConstrained { contents: Seq<u8> },
    RemoveIdentity { blob: Seq<u8> },
    RemoveAllIdentities,
    Extension(ExtensionView),
    Unknown { kind: u8, contents: Seq<u8> },
}

impl View for Request {
    type V = RequestView;

    open spec fn view(&self) -> RequestView {
        match self {
            Request::RequestIdentities => RequestView::RequestIdentities,
            Request::SignRequest { blob, data, flags } => RequestView::SignRequest {
                blob: blob@,
                data: data@,
                flags: *flags,
            },
            Request::AddIdentity { contents } => RequestView::AddIdentity { contents: contents@ },
            Request::AddIdConstrained { contents } => RequestView::AddIdConstrained {
                contents: contents@,
            },
            Request::RemoveIdentity { blob } => RequestView::RemoveIdentity { blob: blob@ },
            Request::RemoveAllIdentities => RequestView::RemoveAllIdentities,
            Request::Extension(e) => RequestView::Extension(e@),
            Request::Unknown { kind, contents } => RequestView::Unknown {
                kind: *kind,
                contents: contents@,
            },
        }
    }
}

// ===================== wire form =====================

/// True of the kinds the parser gives their own variant.
pub open spec fn known_request_kind(kind: u8) -> bool {
    ||| kind == SSH_AGENTC_REQUEST_IDENTITIES
    ||| kind == SSH_AGENTC_SIGN_REQUEST
    ||| kind == SSH_AGENTC_ADD_IDENTITY
    ||| kind == SSH_AGENTC_ADD_ID_CONSTRAINED
    ||| kind == SSH_AGENTC_REMOVE_IDENTITY
    ||| kind == SSH_AGENTC_REMOVE_ALL_IDENTITIES
    ||| kind == SSH_AGENTC_EXTENSION
}

/// The type byte a request travels under.
pub open spec fn req_kind(m: RequestView) -> u8 {
    match m {
        RequestView::RequestIdentities => SSH_AGENTC_REQUEST_IDENTITIES,
        RequestView::SignRequest { .. } => SSH_AGENTC_SIGN_REQUEST,
        RequestView::AddIdentity { .. } => SSH_AGENTC_ADD_IDENTITY,
        RequestView::AddIdConstrained { .. } => SSH_AGENTC_ADD_ID_CONSTRAINED,
        RequestView::RemoveIdentity { .. } => SSH_AGENTC_REMOVE_IDENTITY,
        RequestView::RemoveAllIdentities => SSH_AGENTC_REMOVE_ALL_IDENTITIES,
        RequestView::Extension(_) => SSH_AGENTC_EXTENSION,
        RequestView::Unknown { kind, .. } => kind,
    }
}

/// The payload that follows the type byte.
pub open spec fn req_payload(m: RequestView) -> Seq<u8> {
    match m {
        RequestView::RequestIdentities => Seq::empty(),
        RequestView::SignRequest { blob, data, flags } => lp_bytes(blob) + lp_bytes(data)
            + be32_bytes(flags),
        RequestView::AddIdentity { contents } => contents,
        RequestView::AddIdConstrained { contents } => contents,
        RequestView::RemoveIdentity { blob } => lp_bytes(blob),
        RequestView::RemoveAllIdentities => Seq::empty(),
        RequestView::Extension(e) => ext_wire(e),
        RequestView::Unknown { contents, .. } => contents,
    }
}

/// The whole message: type byte, then payload.
pub open spec fn req_wire(m: RequestView) -> Seq<u8> {
    seq![req_kind(m)] + req_payload(m)
}

/// Every length fits the 32-bit field that carries it.
pub open spec fn req_encodable(m: RequestView) -> bool {
    match m {
        RequestView::SignRequest { blob, data, .. } => blob.len() <= u32::MAX && data.len()
            <= u32::MAX,
        RequestView::RemoveIdentity { blob } => blob.len() <= u32::MAX,
        RequestView::Extension(e) => ext_encodable(e),
        _ => true,
    }
}

/// Well-formed: encodable, nested extension well-formed, and an unknown
/// request does not wear a known kind.
pub open spec fn req_wf(m: RequestView) -> bool {
    req_encodable(m) && match m {
        RequestView::Extension(e) => ext_wf(e),
        RequestView::Unknown { kind, .. } => !known_request_kind(kind),
        _ => true,
    }
}

// ===================== specification parser =====================

/// Parse the payload of a request frame of the given kind. The payload must
/// be consumed exactly.
pub open spec fn spec_parse_request(kind: u8, s: Seq<u8>) -> Result<RequestView, ParseFault> {
    if kind == SSH_AGENTC_REQUEST_IDENTITIES {
        if s.len() == 0 {
            Ok(RequestView::RequestIdentities)
        } else {
            Err(ParseFault::Trailing)
        }
    } else if kind == SSH_AGENTC_SIGN_REQUEST {
        match take_lp(s) {
            None => Err(ParseFault::Insufficient),
            Some((blob, s1)) => match take_lp(s1) {
                None => Err(ParseFault::Insufficient),
                Some((data, s2)) => match take_u32(s2) {
                    None => Err(ParseFault::Insufficient),
                    Some((flags, s3)) => if s3.len() == 0 {
                        Ok(RequestView::SignRequest { blob, data, flags })
                    } else {
                        Err(ParseFault::Trailing)
                    },
                },
            },
        }
    } else if kind == SSH_AGENTC_ADD_IDENTITY {
        Ok(RequestView::AddIdentity { contents: s })
    } else if kind == SSH_AGENTC_ADD_ID_CONSTRAINED {
        Ok(RequestView::AddIdConstrained { contents: s })
    } else if kind == SSH_AGENTC_REMOVE_IDENTITY {
        match take_lp(s) {
            None => Err(ParseFault::Insufficient),
            Some((blob, s1)) => if s1.len() == 0 {
                Ok(RequestView::RemoveIdentity { blob })
            } else {
                Err(ParseFault::Trailing)
            },
        }
    } else if kind == SSH_AGENTC_REMOVE_ALL_IDENTITIES {
        if s.len() == 0 {
            Ok(RequestView::RemoveAllIdentities)
        } else {
            Err(ParseFault::Trailing)
        }
    } else if kind == SSH_AGENTC_EXTENSION {
        match spec_parse_extension(s) {
            Ok(e) => Ok(RequestView::Extension(e)),
            Err(f) => Err(f),
        }
    } else {
        Ok(RequestView::Unknown { kind, contents: s })
    }
}

// ===================== parse/encode agreement =====================

/// Whatever parses was well-formed and re-encodes to the very input.
pub proof fn lemma_parse_request_faithful(kind: u8, s: Seq<u8>)
    ensures
        spec_parse_request(kind, s) matches Ok(m) ==> req_wf(m) && req_kind(m) == kind
            && req_payload(m) == s,
{
    if spec_parse_request(kind, s) is Ok {
        let m = spec_parse_request(kind, s)->Ok_0;
        if kind == SSH_AGENTC_REQUEST_IDENTITIES || kind == SSH_AGENTC_REMOVE_ALL_IDENTITIES {
            assert(req_payload(m) =~= s);
        } else if kind == SSH_AGENTC_SIGN_REQUEST {
            let (blob, s1) = take_lp(s)->Some_0;
            let (data, s2) = take_lp(s1)->Some_0;
            lemma_take_lp_faithful(s);
            lemma_take_lp_faithful(s1);
            lemma_take_u32_faithful(s2);
            assert(req_payload(m) =~= s);
        } else if kind == SSH_AGENTC_REMOVE_IDENTITY {
            lemma_take_lp_faithful(s);
            assert(req_payload(m) =~= s);
        } else if kind == SSH_AGENTC_EXTENSION {
            lemma_parse_extension_faithful(s);
        } else {
        }
    }
}

/// Every well-formed request parses back from its own encoding.
pub proof fn lemma_request_round_trip(m: RequestView)
    requires
        req_wf(m),
    ensures
        spec_parse_request(req_kind(m), req_payload(m)) == Ok::<RequestView, ParseFault>(m),
{
    match m {
        RequestView::SignRequest { blob, data, flags } => {
            assert(req_payload(m) =~= lp_bytes(blob) + (lp_bytes(data) + be32_bytes(flags)));
            lemma_take_lp_of_lp(blob, lp_bytes(data) + be32_bytes(flags));
            lemma_take_lp_of_lp(data, be32_bytes(flags));
            lemma_take_u32_of_be32(flags, Seq::empty());
            assert(be32_bytes(flags) =~= be32_bytes(flags) + Seq::<u8>::empty());
        },
        RequestView::RemoveIdentity { blob } => {
            assert(req_payload(m) =~= lp_bytes(blob) + Seq::<u8>::empty());
            lemma_take_lp_of_lp(blob, Seq::empty());
        },
        RequestView::Extension(e) => {
            lemma_extension_round_trip(e);
        },
        _ => {
        },
    }
}

// ===================== executable parser and encoder =====================

impl Request {
    /// A size hint for the whole encoded message, type byte included: exact,
    /// except that a length past the top of `usize` caps there.
    pub fn encoded_length_estimate(&self) -> (r: usize)
        ensures
            r == capped(req_wire(self@).len() as int),
    {
        match self {
            Request::RequestIdentities | Request::RemoveAllIdentities => 1,
            Request::SignRequest { blob, data, .. } => sat_add(
                sat_add(13, blob.len()),
                data.len(),
            ),
            Request::AddIdentity { contents } | Request::AddIdConstrained { contents } | Request::Unknown {
                contents,
                ..
            } => sat_add(1, contents.len()),
            Request::RemoveIdentity { blob } => sat_add(5, blob.len()),
            Request::Extension(e) => sat_add(1, e.encoded_length_estimate()),
        }
    }

    /// The type byte this request travels under.
    pub fn kind(&self) -> (k: u8)
        ensures
            k == req_kind(self@),
    {
        match self {
            Request::RequestIdentities => SSH_AGENTC_REQUEST_IDENTITIES,
            Request::SignRequest { .. } => SSH_AGENTC_SIGN_REQUEST,
            Request::AddIdentity { .. } => SSH_AGENTC_ADD_IDENTITY,
            Request::AddIdConstrained { .. } => SSH_AGENTC_ADD_ID_CONSTRAINED,
            Request::RemoveIdentity { .. } => SSH_AGENTC_REMOVE_IDENTITY,
            Request::RemoveAllIdentities => SSH_AGENTC_REMOVE_ALL_IDENTITIES,
            Request::Extension(_) => SSH_AGENTC_EXTENSION,
            Request::Unknown { kind, .. } => *kind,
        }
    }
}

/// Parse one request from its frame's kind byte and payload.
pub fn parse_request(kind: u8, contents: Vec<u8>) -> (r: Result<Request, ParseFault>)
    ensures
        ({
            let t = spec_parse_request(kind, contents@);
            match r {
                Ok(m) => t == Ok::<RequestView, ParseFault>(m@),
                Err(f) => t == Err::<RequestView, ParseFault>(f),
            }
        }),
{
    proof {
        assert(contents@.skip(0) =~= contents@);
    }
    if kind == SSH_AGENTC_REQUEST_IDENTITIES {
        if contents.len() == 0 {
            Ok(Request::RequestIdentities)
        } else {
            Err(ParseFault::Trailing)
        }
    } else if kind == SSH_AGENTC_SIGN_REQUEST {
        let (blob, p1) = match read_lp(&contents, 0) {
            Some(v) => v,
            None => {
                return Err(ParseFault::Insufficient);
            },
        };
        let (data, p2) = match read_lp(&contents, p1) {
            Some(v) => v,
            None => {
                return Err(ParseFault::Insufficient);
            },
        };
        let (flags, p3) = match read_u32(&contents, p2) {
            Some(v) => v,
            None => {
                return Err(ParseFault::Insufficient);
            },
        };
        if p3 != contents.len() {
            return Err(ParseFault::Trailing);
        }
        Ok(Request::SignRequest { blob, data, flags })
    } else if kind == SSH_AGENTC_ADD_IDENTITY {
        Ok(Request::AddIdentity { contents })
    } else if kind == SSH_AGENTC_ADD_ID_CONSTRAINED {
        Ok(Request::AddIdConstrained { contents })
    } else if kind == SSH_AGENTC_REMOVE_IDENTITY {
        let (blob, p1) = match read_lp(&contents, 0) {
            Some(v) => v,
            None => {
                return Err(ParseFault::Insufficient);
            },
        };
        if p1 != contents.len() {
            return Err(ParseFault::Trailing);
        }
        Ok(Request::RemoveIdentity { blob })
    } else if kind == SSH_AGENTC_REMOVE_ALL_IDENTITIES {
        if contents.len() == 0 {
            Ok(Request::RemoveAllIdentities)
        } else {
            Err(ParseFault::Trailing)
        }
    } else if kind == SSH_AGENTC_EXTENSION {
        match parse_extension(&contents, 0) {
            Ok(e) => Ok(Request::Extension(e)),
            Err(f) => Err(f),
        }
    } else {
        Ok(Request::Unknown { kind, contents })
    }
}

/// Append the wire form of a request: type byte, then payload.
pub fn encode_request_to(m: &Request, dst: &mut Vec<u8>) -> (r: Result<(), EncodeFault>)
    ensures
        r is Ok ==> final(dst)@ == old(dst)@ + req_wire(m@),
        r is Ok <==> req_encodable(m@) && old(dst)@.len() + req_wire(m@).len() <= usize::MAX,
{
    let ghost pre = dst@;
    match crate::wire::put_u8(dst, m.kind()) {
        Ok(()) => {},
        Err(f) => {
            return Err(f);
        },
    }
    match m {
        Request::RequestIdentities | Request::RemoveAllIdentities => {
            proof {
                assert(dst@ =~= pre + req_wire(m@));
                assert(dst@.len() == dst.len());
            }
            Ok(())
        },
        Request::SignRequest { blob, data, flags } => {
            match put_lp(dst, blob.as_slice()) {
                Ok(()) => {},
                Err(f) => {
                    return Err(f);
                },
            }
            match put_lp(dst, data.as_slice()) {
                Ok(()) => {},
                Err(f) => {
                    return Err(f);
                },
            }
            match put_u32(dst, *flags) {
                Ok(()) => {},
                Err(f) => {
                    return Err(f);
                },
            }
            proof {
                assert(dst@ =~= pre + req_wire(m@));
                assert(dst@.len() == dst.len());
            }
            Ok(())
        },
        Request::AddIdentity { contents } | Request::AddIdConstrained { contents } | Request::Unknown {
            contents,
            ..
        } => {
            match put_bytes(dst, contents.as_slice()) {
                Ok(()) => {},
                Err(f) => {
                    return Err(f);
                },
            }
            proof {
                assert(dst@ =~= pre + req_wire(m@));
                assert(dst@.len() == dst.len());
            }
            Ok(())
        },
        Request::RemoveIdentity { blob } => {
            match put_lp(dst, blob.as_slice()) {
                Ok(()) => {},
                Err(f) => {
                    return Err(f);
                },
            }
            proof {
                assert(dst@ =~= pre + req_wire(m@));
                assert(dst@.len() == dst.len());
            }
            Ok(())
        },
        Request::Extension(e) => {
            match encode_extension_to(e, dst) {
                Ok(()) => {},
                Err(f) => {
                    return Err(f);
                },
            }
            proof {
                assert(dst@ =~= pre + req_wire(m@));
                assert(dst@.len() == dst.len());
            }
            Ok(())
        },
    }
}

} // verus!
