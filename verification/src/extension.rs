//! The vendor extension sub-protocol carried inside kind-27 requests.
//!
//! An extension payload is `u32-len name || body`. The two known names let an
//! operator register a new upstream and list the registered upstreams; every
//! other name is preserved verbatim as `Unknown` and round-trips exactly.

use vstd::prelude::*;

use crate::errors::{EncodeFault, ParseFault};
use crate::wire::{
    bool_byte, capped, lemma_take_lp_faithful, lemma_take_lp_of_lp, lp_bytes, put_bool, put_bytes,
    put_lp, read_lp, read_rest, read_u8, sat_add, string_from_utf8, take_lp, take_u8,
};
use vstd::utf8::{
    decode_utf8, decode_utf8_encode_utf8, encode_utf8, encode_utf8_decode_utf8,
    encode_utf8_valid_utf8, is_ascii_chars, is_ascii_chars_encode_utf8, valid_utf8,
};

verus! {

/// One upstream agent as carried on the wire: its socket path and whether
/// identity mutations are forwarded to it.
#[derive(Clone, Debug, PartialEq, Eq)]
pub struct Upstream {
    pub path: String,
    pub forward_adds: bool,
}

/// Mathematical shape of an [`Upstream`].
pub struct UpstreamView {
    pub path: Seq<char>,
    pub forward_adds: bool,
}

impl View for Upstream {
    type V = UpstreamView;

    open spec fn view(&self) -> UpstreamView {
        UpstreamView { path: self.path@, forward_adds: self.forward_adds }
    }
}

impl DeepView for Upstream {
    type V = UpstreamView;

    open spec fn deep_view(&self) -> UpstreamView {
        self.view()
    }
}

/// An extension request: a vendor operation named inside a kind-27 frame.
#[derive(Clone, Debug, PartialEq, Eq)]
pub enum Extension {
    /// Register (or promote) the given upstream.
    AddUpstreamV2(Upstream),
    /// List the registered upstreams.
    ListUpstreamsV2,
    /// Any other extension, preserved name and body.
    Unknown { kind: String, contents: Vec<u8> },
}

/// Mathematical shape of an [`Extension`].
pub enum ExtensionView {
    AddUpstreamV2(UpstreamView),
    ListUpstreamsV2,
    Unknown { kind: Seq<char>, contents: Seq<u8> },
}

impl View for Extension {
    type V = ExtensionView;

    open spec fn view(&self) -> ExtensionView {
        match self {
            Extension::AddUpstreamV2(u) => ExtensionView::AddUpstreamV2(u@),
            Extension::ListUpstreamsV2 => ExtensionView::ListUpstreamsV2,
            Extension::Unknown { kind, contents } => ExtensionView::Unknown {
                kind: kind@,
                contents: contents@,
            },
        }
    }
}

/// Extension name that registers a new upstream.
pub open spec fn ext_add_name() -> Seq<char> {
    "add-upstream-v2@nemo157.com"@
}

/// Extension name that lists the registered upstreams.
pub open spec fn ext_list_name() -> Seq<char> {
    "list-upstreams-v2@nemo157.com"@
}

/// The two known extension names differ and both are short ASCII.
pub proof fn lemma_ext_names()
    ensures
        ext_add_name() != ext_list_name(),
        is_ascii_chars(ext_add_name()),
        is_ascii_chars(ext_list_name()),
        encode_utf8(ext_add_name()).len() == 27,
        encode_utf8(ext_list_name()).len() == 29,
{
    reveal_strlit("add-upstream-v2@nemo157.com");
    reveal_strlit("list-upstreams-v2@nemo157.com");
    assert(ext_add_name().len() == 27);
    assert(ext_list_name().len() == 29);
    assert(is_ascii_chars(ext_add_name()));
    assert(is_ascii_chars(ext_list_name()));
    is_ascii_chars_encode_utf8(ext_add_name());
    is_ascii_chars_encode_utf8(ext_list_name());
}

/// [`ext_add_name`] as an executable string.
pub fn ext_add_name_exec() -> (s: String)
    ensures
        s@ == ext_add_name(),
{
    "add-upstream-v2@nemo157.com".to_owned()
}

/// [`ext_list_name`] as an executable string.
pub fn ext_list_name_exec() -> (s: String)
    ensures
        s@ == ext_list_name(),
{
    "list-upstreams-v2@nemo157.com".to_owned()
}

// ===================== wire form =====================

/// The name under which an extension travels.
pub open spec fn ext_name(e: ExtensionView) -> Seq<char> {
    match e {
        ExtensionView::AddUpstreamV2(_) => ext_add_name(),
        ExtensionView::ListUpstreamsV2 => ext_list_name(),
        ExtensionView::Unknown { kind, .. } => kind,
    }
}

/// The body that follows the name.
pub open spec fn ext_body(e: ExtensionView) -> Seq<u8> {
    match e {
        ExtensionView::AddUpstreamV2(u) => lp_bytes(encode_utf8(u.path)) + seq![
            bool_byte(u.forward_adds),
        ],
        ExtensionView::ListUpstreamsV2 => Seq::empty(),
        ExtensionView::Unknown { contents, .. } => contents,
    }
}

/// The whole extension payload: `u32-len name || body`.
pub open spec fn ext_wire(e: ExtensionView) -> Seq<u8> {
    lp_bytes(encode_utf8(ext_name(e))) + ext_body(e)
}

/// Every length fits the 32-bit field that carries it.
pub open spec fn ext_encodable(e: ExtensionView) -> bool {
    encode_utf8(ext_name(e)).len() <= u32::MAX && match e {
        ExtensionView::AddUpstreamV2(u) => encode_utf8(u.path).len() <= u32::MAX,
        _ => true,
    }
}

/// Well-formed: encodable, and an unknown extension does not wear a known
/// name (parsing would otherwise turn it into the known variant).
pub open spec fn ext_wf(e: ExtensionView) -> bool {
    ext_encodable(e) && match e {
        ExtensionView::Unknown { kind, .. } => kind != ext_add_name() && kind != ext_list_name(),
        _ => true,
    }
}

// ===================== specification parser =====================

/// Parse the body of an `add-upstream-v2` extension.
pub open spec fn spec_parse_add_upstream(s: Seq<u8>) -> Result<ExtensionView, ParseFault> {
    match take_lp(s) {
        None => Err(ParseFault::Insufficient),
        Some((path_bytes, s1)) => if !valid_utf8(path_bytes) {
            Err(ParseFault::InvalidUtf8)
        } else {
            match take_u8(s1) {
                None => Err(ParseFault::Insufficient),
                Some((b, s2)) => if b == 0 || b == 1 {
                    if s2.len() == 0 {
                        Ok(
                            ExtensionView::AddUpstreamV2(
                                UpstreamView { path: decode_utf8(path_bytes), forward_adds: b == 1 },
                            ),
                        )
                    } else {
                        Err(ParseFault::Trailing)
                    }
                } else {
                    Err(ParseFault::InvalidBool)
                },
            }
        },
    }
}

/// Parse an extension payload, dispatching on the name.
pub open spec fn spec_parse_extension(s: Seq<u8>) -> Result<ExtensionView, ParseFault> {
    match take_lp(s) {
        None => Err(ParseFault::Insufficient),
        Some((name, rest)) => if !valid_utf8(name) {
            Err(ParseFault::InvalidUtf8)
        } else {
            let kind = decode_utf8(name);
            if kind == ext_add_name() {
                spec_parse_add_upstream(rest)
            } else if kind == ext_list_name() {
                if rest.len() == 0 {
                    Ok(ExtensionView::ListUpstreamsV2)
                } else {
                    Err(ParseFault::Trailing)
                }
            } else {
                Ok(ExtensionView::Unknown { kind, contents: rest })
            }
        },
    }
}

// ===================== parse/encode agreement =====================

/// Whatever parses was well-formed and re-encodes to the very input.
pub proof fn lemma_parse_extension_faithful(s: Seq<u8>)
    ensures
        spec_parse_extension(s) matches Ok(e) ==> ext_wf(e) && ext_wire(e) == s,
{
    if spec_parse_extension(s) is Ok {
        let e = spec_parse_extension(s)->Ok_0;
        let (name, rest) = take_lp(s)->Some_0;
        lemma_take_lp_faithful(s);
        decode_utf8_encode_utf8(name);
        let kind = decode_utf8(name);
        if kind == ext_add_name() {
            let (path_bytes, s1) = take_lp(rest)->Some_0;
            lemma_take_lp_faithful(rest);
            decode_utf8_encode_utf8(path_bytes);
            let (b, s2) = take_u8(s1)->Some_0;
            assert(s1 =~= seq![b] + s2);
            assert(s2 =~= Seq::<u8>::empty());
            assert(s1 =~= seq![bool_byte(b == 1)]);
            assert(ext_wire(e) =~= s);
        } else if kind == ext_list_name() {
            assert(ext_wire(e) =~= s);
        } else {
            assert(ext_wire(e) =~= s);
        }
    }
}

/// Every well-formed extension parses back from its own encoding.
pub proof fn lemma_extension_round_trip(e: ExtensionView)
    requires
        ext_wf(e),
    ensures
        spec_parse_extension(ext_wire(e)) == Ok::<ExtensionView, ParseFault>(e),
{
    let name_bytes = encode_utf8(ext_name(e));
    lemma_take_lp_of_lp(name_bytes, ext_body(e));
    encode_utf8_valid_utf8(ext_name(e));
    encode_utf8_decode_utf8(ext_name(e));
    lemma_ext_names();
    match e {
        ExtensionView::AddUpstreamV2(u) => {
            let path_bytes = encode_utf8(u.path);
            let tail = seq![bool_byte(u.forward_adds)];
            assert(ext_body(e) =~= lp_bytes(path_bytes) + tail);
            lemma_take_lp_of_lp(path_bytes, tail);
            encode_utf8_valid_utf8(u.path);
            encode_utf8_decode_utf8(u.path);
            assert(take_u8(tail) == Some((bool_byte(u.forward_adds), tail.skip(1))));
            assert(tail.skip(1).len() == 0);
        },
        ExtensionView::ListUpstreamsV2 => {
            assert(ext_body(e).len() == 0);
        },
        ExtensionView::Unknown { kind, contents } => {
        },
    }
}

// ===================== executable parser and encoder =====================

impl Extension {
    /// A size hint for the encoded payload: exact, except that a length past
    /// the top of `usize` caps there.
    pub fn encoded_length_estimate(&self) -> (r: usize)
        ensures
            r == capped(ext_wire(self@).len() as int),
    {
        proof {
            lemma_ext_names();
        }
        match self {
            Extension::AddUpstreamV2(u) => {
                // 4-byte name length + 27-byte name + 4-byte path length +
                // the boolean octet.
                proof {
                    assert(ext_wire(self@).len() == 36 + encode_utf8(u.path@).len());
                }
                sat_add(36, u.path.as_str().as_bytes().len())
            },
            Extension::ListUpstreamsV2 => {
                // 4-byte name length + 29-byte name, no body.
                proof {
                    assert(ext_wire(self@).len() == 33);
                }
                33
            },
            Extension::Unknown { kind, contents } => {
                proof {
                    assert(ext_wire(self@).len() == 4 + encode_utf8(kind@).len()
                        + contents@.len());
                }
                sat_add(sat_add(4, kind.as_str().as_bytes().len()), contents.len())
            },
        }
    }

    /// The name under which this extension travels.
    pub fn kind(&self) -> (s: String)
        ensures
            s@ == ext_name(self@),
    {
        match self {
            Extension::AddUpstreamV2(_) => ext_add_name_exec(),
            Extension::ListUpstreamsV2 => ext_list_name_exec(),
            Extension::Unknown { kind, .. } => kind.clone(),
        }
    }
}

/// Parse the extension payload that starts at `pos` and runs to the end of
/// `buf`.
pub fn parse_extension(buf: &Vec<u8>, pos: usize) -> (r: Result<Extension, ParseFault>)
    requires
        pos <= buf@.len(),
    ensures
        ({
            let t = spec_parse_extension(buf@.skip(pos as int));
            match r {
                Ok(e) => t == Ok::<ExtensionView, ParseFault>(e@),
                Err(f) => t == Err::<ExtensionView, ParseFault>(f),
            }
        }),
{
    let (name_bytes, p1) = match read_lp(buf, pos) {
        Some(v) => v,
        None => {
            return Err(ParseFault::Insufficient);
        },
    };
    let kind = match string_from_utf8(name_bytes) {
        Some(k) => k,
        None => {
            return Err(ParseFault::InvalidUtf8);
        },
    };
    if kind == ext_add_name_exec() {
        let (path_bytes, p2) = match read_lp(buf, p1) {
            Some(v) => v,
            None => {
                return Err(ParseFault::Insufficient);
            },
        };
        let path = match string_from_utf8(path_bytes) {
            Some(p) => p,
            None => {
                return Err(ParseFault::InvalidUtf8);
            },
        };
        let (b, p3) = match read_u8(buf, p2) {
            Some(v) => v,
            None => {
                return Err(ParseFault::Insufficient);
            },
        };
        if b > 1 {
            return Err(ParseFault::InvalidBool);
        }
        if p3 != buf.len() {
            return Err(ParseFault::Trailing);
        }
        Ok(Extension::AddUpstreamV2(Upstream { path, forward_adds: b == 1 }))
    } else if kind == ext_list_name_exec() {
        if p1 != buf.len() {
            return Err(ParseFault::Trailing);
        }
        Ok(Extension::ListUpstreamsV2)
    } else {
        let contents = read_rest(buf, p1);
        Ok(Extension::Unknown { kind, contents })
    }
}

/// Append the wire form of an extension payload.
pub fn encode_extension_to(e: &Extension, dst: &mut Vec<u8>) -> (r: Result<(), EncodeFault>)
    ensures
        r is Ok ==> final(dst)@ == old(dst)@ + ext_wire(e@),
        r is Ok <==> ext_encodable(e@) && old(dst)@.len() + ext_wire(e@).len() <= usize::MAX,
{
    let ghost pre = dst@;
    let name = e.kind();
    match put_lp(dst, name.as_str().as_bytes()) {
        Ok(()) => {},
        Err(f) => {
            return Err(f);
        },
    }
    match e {
        Extension::AddUpstreamV2(u) => {
            match put_lp(dst, u.path.as_str().as_bytes()) {
                Ok(()) => {},
                Err(f) => {
                    return Err(f);
                },
            }
            match put_bool(dst, u.forward_adds) {
                Ok(()) => {},
                Err(f) => {
                    return Err(f);
                },
            }
            proof {
                assert(dst@ =~= pre + ext_wire(e@));
                assert(dst@.len() == dst.len());
            }
            Ok(())
        },
        Extension::ListUpstreamsV2 => {
            proof {
                assert(dst@ =~= pre + ext_wire(e@));
                assert(dst@.len() == dst.len());
            }
            Ok(())
        },
        Extension::Unknown { contents, .. } => {
            match put_bytes(dst, contents.as_slice()) {
                Ok(()) => {},
                Err(f) => {
                    return Err(f);
                },
            }
            proof {
                assert(dst@ =~= pre + ext_wire(e@));
                assert(dst@.len() == dst.len());
            }
            Ok(())
        },
    }
}

} // verus!
