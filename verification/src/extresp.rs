//! Bodies of the replies to vendor extension requests.
//!
//! An `add-upstream-v2` reply is a bare `SUCCESS`, or an `EXTENSION_FAILURE`
//! whose body is an [`ErrorMsg`]: `u32 n || n × string`, the root cause first,
//! each later entry wrapping its predecessor. A `list-upstreams-v2` reply is a
//! `SUCCESS` whose body is an [`UpstreamList`]:
//! `u32 n || n × (string path || bool forward_adds)`.

use vstd::prelude::*;

use crate::errors::{EncodeFault, ParseFault};
use crate::extension::{Upstream, UpstreamView};
use crate::wire::{
    be32_bytes, bool_byte, capped, lemma_take_lp_faithful, lemma_take_lp_of_lp,
    lemma_take_u32_of_be32, lp_bytes, put_bool, put_lp, put_u32, read_lp, read_u32, read_u8,
    sat_add, string_from_utf8, take_lp, take_u32, take_u8,
};
use vstd::utf8::{
    decode_utf8, decode_utf8_encode_utf8, encode_utf8, encode_utf8_decode_utf8,
    encode_utf8_valid_utf8, valid_utf8,
};

verus! {

/// A causal error chain as carried on the wire, root cause first.
#[derive(Clone, Debug, PartialEq, Eq)]
pub struct ErrorMsg {
    pub messages: Vec<String>,
}

impl View for ErrorMsg {
    type V = Seq<Seq<char>>;

    open spec fn view(&self) -> Seq<Seq<char>> {
        self.messages.deep_view()
    }
}

/// The registered upstreams as carried in a `list-upstreams-v2` reply,
/// oldest first.
#[derive(Clone, Debug, PartialEq, Eq)]
pub struct UpstreamList {
    pub upstreams: Vec<Upstream>,
}

impl View for UpstreamList {
    type V = Seq<UpstreamView>;

    open spec fn view(&self) -> Seq<UpstreamView> {
        self.upstreams.deep_view()
    }
}

/// A reply to one of the known extension requests. On the wire it borrows a
/// generic response kind: an error travels as `EXTENSION_FAILURE`, a list as
/// `SUCCESS`; the body tells them apart.
#[derive(Clone, Debug, PartialEq, Eq)]
pub enum ExtensionResponse {
    Error(ErrorMsg),
    UpstreamListV2(UpstreamList),
}

/// Mathematical shape of an [`ExtensionResponse`].
pub enum ExtensionResponseView {
    Error(Seq<Seq<char>>),
    UpstreamListV2(Seq<UpstreamView>),
}

impl View for ExtensionResponse {
    type V = ExtensionResponseView;

    open spec fn view(&self) -> ExtensionResponseView {
        match self {
            ExtensionResponse::Error(em) => ExtensionResponseView::Error(em@),
            ExtensionResponse::UpstreamListV2(ul) => ExtensionResponseView::UpstreamListV2(ul@),
        }
    }
}

// ===================== wire form =====================

/// The wire form of the strings of an error chain, in order.
pub open spec fn msgs_wire(ms: Seq<Seq<char>>) -> Seq<u8>
    decreases ms.len(),
{
    if ms.len() == 0 {
        Seq::empty()
    } else {
        lp_bytes(encode_utf8(ms[0])) + msgs_wire(ms.drop_first())
    }
}

/// The body of an `EXTENSION_FAILURE` reply: count, then the strings.
pub open spec fn error_msg_wire(ms: Seq<Seq<char>>) -> Seq<u8> {
    be32_bytes(ms.len() as u32) + msgs_wire(ms)
}

/// Every string of the chain fits its 32-bit length field.
pub open spec fn msgs_encodable(ms: Seq<Seq<char>>) -> bool {
    forall|i: int| 0 <= i < ms.len() ==> encode_utf8(#[trigger] ms[i]).len() <= u32::MAX
}

/// The whole chain is encodable.
pub open spec fn error_msg_encodable(ms: Seq<Seq<char>>) -> bool {
    ms.len() <= u32::MAX && msgs_encodable(ms)
}

/// The wire form of the entries of an upstream list, in order.
pub open spec fn upstreams_wire(us: Seq<UpstreamView>) -> Seq<u8>
    decreases us.len(),
{
    if us.len() == 0 {
        Seq::empty()
    } else {
        lp_bytes(encode_utf8(us[0].path)) + seq![bool_byte(us[0].forward_adds)] + upstreams_wire(
            us.drop_first(),
        )
    }
}

/// The body of a `list-upstreams-v2` reply: count, then the entries.
pub open spec fn upstream_list_wire(us: Seq<UpstreamView>) -> Seq<u8> {
    be32_bytes(us.len() as u32) + upstreams_wire(us)
}

/// Every path of the list fits its 32-bit length field.
pub open spec fn upstreams_encodable(us: Seq<UpstreamView>) -> bool {
    forall|i: int| 0 <= i < us.len() ==> encode_utf8((#[trigger] us[i]).path).len() <= u32::MAX
}

/// The whole list is encodable.
pub open spec fn upstream_list_encodable(us: Seq<UpstreamView>) -> bool {
    us.len() <= u32::MAX && upstreams_encodable(us)
}

/// The body an extension response carries.
pub open spec fn ext_resp_body(e: ExtensionResponseView) -> Seq<u8> {
    match e {
        ExtensionResponseView::Error(ms) => error_msg_wire(ms),
        ExtensionResponseView::UpstreamListV2(us) => upstream_list_wire(us),
    }
}

/// The whole extension response is encodable.
pub open spec fn ext_resp_encodable(e: ExtensionResponseView) -> bool {
    match e {
        ExtensionResponseView::Error(ms) => error_msg_encodable(ms),
        ExtensionResponseView::UpstreamListV2(us) => upstream_list_encodable(us),
    }
}

impl ExtensionResponse {
    /// A size hint for the encoded body: exact, except that a length past the
    /// top of `usize` caps there.
    pub fn encoded_length_estimate(&self) -> (r: usize)
        ensures
            r == capped(ext_resp_body(self@).len() as int),
    {
        match self {
            ExtensionResponse::Error(em) => {
                let ghost ms = em@;
                let n = em.messages.len();
                let mut acc: usize = 4;
                let mut i: usize = 0;
                proof {
                    assert(ms.take(0) =~= Seq::<Seq<char>>::empty());
                }
                while i < n
                    invariant
                        n == ms.len(),
                        ms == em@,
                        i <= n,
                        acc == capped(4 + msgs_wire(ms.take(i as int)).len() as int),
                    decreases n - i,
                {
                    proof {
                        lemma_msgs_wire_snoc(ms, i as int);
                        assert(ms[i as int] == em.messages@[i as int]@);
                    }
                    acc = sat_add(acc, sat_add(4, em.messages[i].as_str().as_bytes().len()));
                    i = i + 1;
                }
                proof {
                    assert(ms.take(n as int) =~= ms);
                }
                acc
            },
            ExtensionResponse::UpstreamListV2(ul) => {
                let ghost us = ul@;
                let n = ul.upstreams.len();
                let mut acc: usize = 4;
                let mut i: usize = 0;
                proof {
                    assert(us.take(0) =~= Seq::<UpstreamView>::empty());
                }
                while i < n
                    invariant
                        n == us.len(),
                        us == ul@,
                        i <= n,
                        acc == capped(4 + upstreams_wire(us.take(i as int)).len() as int),
                    decreases n - i,
                {
                    proof {
                        lemma_upstreams_wire_snoc(us, i as int);
                        assert(us[i as int] == ul.upstreams@[i as int]@);
                    }
                    acc = sat_add(
                        acc,
                        sat_add(5, ul.upstreams[i].path.as_str().as_bytes().len()),
                    );
                    i = i + 1;
                }
                proof {
                    assert(us.take(n as int) =~= us);
                }
                acc
            },
        }
    }
}

// ===================== specification parser =====================

/// Read `n` strings of an error chain.
pub open spec fn take_msgs(s: Seq<u8>, n: nat) -> Result<(Seq<Seq<char>>, Seq<u8>), ParseFault>
    decreases n,
{
    if n == 0 {
        Ok((Seq::empty(), s))
    } else {
        match take_lp(s) {
            None => Err(ParseFault::Insufficient),
            Some((b, r)) => if !valid_utf8(b) {
                Err(ParseFault::InvalidUtf8)
            } else {
                match take_msgs(r, (n - 1) as nat) {
                    Err(f) => Err(f),
                    Ok((ms, r2)) => Ok((seq![decode_utf8(b)] + ms, r2)),
                }
            },
        }
    }
}

/// Parse an error chain; bytes past the chain are left to the caller, who
/// tolerates them.
pub open spec fn spec_parse_error_msg(s: Seq<u8>) -> Result<
    (Seq<Seq<char>>, Seq<u8>),
    ParseFault,
> {
    match take_u32(s) {
        None => Err(ParseFault::Insufficient),
        Some((n, r)) => take_msgs(r, n as nat),
    }
}

/// Read `n` entries of an upstream list.
pub open spec fn take_upstreams(s: Seq<u8>, n: nat) -> Result<
    (Seq<UpstreamView>, Seq<u8>),
    ParseFault,
>
    decreases n,
{
    if n == 0 {
        Ok((Seq::empty(), s))
    } else {
        match take_lp(s) {
            None => Err(ParseFault::Insufficient),
            Some((b, r)) => if !valid_utf8(b) {
                Err(ParseFault::InvalidUtf8)
            } else {
                match take_u8(r) {
                    None => Err(ParseFault::Insufficient),
                    Some((fb, r1)) => if fb == 0 || fb == 1 {
                        match take_upstreams(r1, (n - 1) as nat) {
                            Err(f) => Err(f),
                            Ok((us, r2)) => Ok(
                                (
                                    seq![
                                        UpstreamView {
                                            path: decode_utf8(b),
                                            forward_adds: fb == 1,
                                        },
                                    ] + us,
                                    r2,
                                ),
                            ),
                        }
                    } else {
                        Err(ParseFault::InvalidBool)
                    },
                }
            },
        }
    }
}

/// Parse an upstream list; the body must be consumed exactly.
pub open spec fn spec_parse_upstream_list(s: Seq<u8>) -> Result<Seq<UpstreamView>, ParseFault> {
    match take_u32(s) {
        None => Err(ParseFault::Insufficient),
        Some((n, r)) => match take_upstreams(r, n as nat) {
            Err(f) => Err(f),
            Ok((us, r2)) => if r2.len() == 0 {
                Ok(us)
            } else {
                Err(ParseFault::Trailing)
            },
        },
    }
}

// ===================== list lemmas =====================

/// The wire form of a list splits at any index.
pub proof fn lemma_msgs_wire_split(ms: Seq<Seq<char>>, i: int)
    requires
        0 <= i <= ms.len(),
    ensures
        msgs_wire(ms) == msgs_wire(ms.take(i)) + msgs_wire(ms.skip(i)),
    decreases i,
{
    if i == 0 {
        assert(ms.take(0) =~= Seq::<Seq<char>>::empty());
        assert(ms.skip(0) =~= ms);
        assert(msgs_wire(ms.take(0)) + msgs_wire(ms) =~= msgs_wire(ms));
    } else {
        let dropped = ms.drop_first();
        lemma_msgs_wire_split(dropped, i - 1);
        assert(dropped.take(i - 1) =~= ms.take(i).drop_first());
        assert(dropped.skip(i - 1) =~= ms.skip(i));
        assert(ms.take(i)[0] == ms[0]);
        assert(lp_bytes(encode_utf8(ms[0])) + (msgs_wire(ms.take(i).drop_first()) + msgs_wire(
            ms.skip(i),
        )) =~= (lp_bytes(encode_utf8(ms[0])) + msgs_wire(ms.take(i).drop_first())) + msgs_wire(
            ms.skip(i),
        ));
    }
}

/// The wire form of one more entry is the wire form so far plus that entry.
pub proof fn lemma_msgs_wire_snoc(ms: Seq<Seq<char>>, i: int)
    requires
        0 <= i < ms.len(),
    ensures
        msgs_wire(ms.take(i + 1)) == msgs_wire(ms.take(i)) + lp_bytes(encode_utf8(ms[i])),
{
    let a = ms.take(i + 1);
    lemma_msgs_wire_split(a, i);
    assert(a.take(i) =~= ms.take(i));
    assert(a.skip(i) =~= seq![ms[i]]);
    let single = seq![ms[i]];
    assert(single.drop_first() =~= Seq::<Seq<char>>::empty());
    assert(msgs_wire(single.drop_first()) == Seq::<u8>::empty());
    assert(single[0] == ms[i]);
    assert(msgs_wire(single) =~= lp_bytes(encode_utf8(ms[i])));
}

/// Reading `n` written strings gives the strings back.
#[verifier::rlimit(50)]
pub proof fn lemma_take_msgs_of_wire(ms: Seq<Seq<char>>, rest: Seq<u8>)
    requires
        msgs_encodable(ms),
    ensures
        take_msgs(msgs_wire(ms) + rest, ms.len()) == Ok::<(Seq<Seq<char>>, Seq<u8>), ParseFault>(
            (ms, rest),
        ),
    decreases ms.len(),
{
    if ms.len() == 0 {
        assert(ms =~= Seq::<Seq<char>>::empty());
        assert(msgs_wire(ms) + rest =~= rest);
    } else {
        let m0 = ms[0];
        let tail = ms.drop_first();
        let eb = encode_utf8(m0);
        assert(msgs_wire(ms) + rest =~= lp_bytes(eb) + (msgs_wire(tail) + rest));
        lemma_take_lp_of_lp(eb, msgs_wire(tail) + rest);
        encode_utf8_valid_utf8(m0);
        encode_utf8_decode_utf8(m0);
        assert(msgs_encodable(tail)) by {
            assert(forall|i: int| 0 <= i < tail.len() ==> #[trigger] tail[i] == ms[i + 1]);
        }
        lemma_take_msgs_of_wire(tail, rest);
        assert(seq![decode_utf8(eb)] + tail =~= ms);
    }
}

/// Whatever strings were read re-encode to exactly the bytes consumed.
#[verifier::rlimit(50)]
pub proof fn lemma_take_msgs_faithful(s: Seq<u8>, n: nat)
    ensures
        take_msgs(s, n) matches Ok((ms, r)) ==> ms.len() == n && msgs_encodable(ms) && msgs_wire(
            ms,
        ) + r == s,
    decreases n,
{
    if n > 0 && take_msgs(s, n) is Ok {
        let (b, r1) = take_lp(s)->Some_0;
        lemma_take_lp_faithful(s);
        decode_utf8_encode_utf8(b);
        lemma_take_msgs_faithful(r1, (n - 1) as nat);
        let (mt, r) = take_msgs(r1, (n - 1) as nat)->Ok_0;
        let ms = seq![decode_utf8(b)] + mt;
        assert(ms.drop_first() =~= mt);
        assert(msgs_encodable(ms)) by {
            assert(forall|i: int| 1 <= i < ms.len() ==> #[trigger] ms[i] == mt[i - 1]);
        }
        assert(msgs_wire(ms) + r =~= lp_bytes(b) + (msgs_wire(mt) + r));
        assert(lp_bytes(b) + r1 =~= s);
    }
}

/// The wire form of an upstream list splits at any index.
pub proof fn lemma_upstreams_wire_split(us: Seq<UpstreamView>, i: int)
    requires
        0 <= i <= us.len(),
    ensures
        upstreams_wire(us) == upstreams_wire(us.take(i)) + upstreams_wire(us.skip(i)),
    decreases i,
{
    if i == 0 {
        assert(us.take(0) =~= Seq::<UpstreamView>::empty());
        assert(us.skip(0) =~= us);
        assert(upstreams_wire(us.take(0)) + upstreams_wire(us) =~= upstreams_wire(us));
    } else {
        let dropped = us.drop_first();
        lemma_upstreams_wire_split(dropped, i - 1);
        assert(dropped.take(i - 1) =~= us.take(i).drop_first());
        assert(dropped.skip(i - 1) =~= us.skip(i));
        assert(us.take(i)[0] == us[0]);
        let head = lp_bytes(encode_utf8(us[0].path)) + seq![bool_byte(us[0].forward_adds)];
        assert(head + (upstreams_wire(us.take(i).drop_first()) + upstreams_wire(us.skip(i))) =~= (
        head + upstreams_wire(us.take(i).drop_first())) + upstreams_wire(us.skip(i)));
    }
}

/// The wire form of one more entry is the wire form so far plus that entry.
pub proof fn lemma_upstreams_wire_snoc(us: Seq<UpstreamView>, i: int)
    requires
        0 <= i < us.len(),
    ensures
        upstreams_wire(us.take(i + 1)) == upstreams_wire(us.take(i)) + lp_bytes(
            encode_utf8(us[i].path),
        ) + seq![bool_byte(us[i].forward_adds)],
{
    let a = us.take(i + 1);
    lemma_upstreams_wire_split(a, i);
    assert(a.take(i) =~= us.take(i));
    assert(a.skip(i) =~= seq![us[i]]);
    let single = seq![us[i]];
    assert(single.drop_first() =~= Seq::<UpstreamView>::empty());
    assert(upstreams_wire(single.drop_first()) == Seq::<u8>::empty());
    assert(single[0] == us[i]);
    let head = lp_bytes(encode_utf8(us[i].path)) + seq![bool_byte(us[i].forward_adds)];
    assert(upstreams_wire(single) =~= head);
    assert(upstreams_wire(us.take(i)) + head =~= upstreams_wire(us.take(i)) + lp_bytes(
        encode_utf8(us[i].path),
    ) + seq![bool_byte(us[i].forward_adds)]);
}

/// Reading `n` written entries gives the entries back.
#[verifier::rlimit(100)]
pub proof fn lemma_take_upstreams_of_wire(us: Seq<UpstreamView>, rest: Seq<u8>)
    requires
        upstreams_encodable(us),
    ensures
        take_upstreams(upstreams_wire(us) + rest, us.len()) == Ok::<
            (Seq<UpstreamView>, Seq<u8>),
            ParseFault,
        >((us, rest)),
    decreases us.len(),
{
    if us.len() == 0 {
        assert(us =~= Seq::<UpstreamView>::empty());
        assert(upstreams_wire(us) + rest =~= rest);
    } else {
        let u0 = us[0];
        let tail = us.drop_first();
        let eb = encode_utf8(u0.path);
        let fb = seq![bool_byte(u0.forward_adds)];
        assert(upstreams_wire(us) + rest =~= lp_bytes(eb) + (fb + (upstreams_wire(tail) + rest)));
        lemma_take_lp_of_lp(eb, fb + (upstreams_wire(tail) + rest));
        encode_utf8_valid_utf8(u0.path);
        encode_utf8_decode_utf8(u0.path);
        let after_path = fb + (upstreams_wire(tail) + rest);
        assert(take_u8(after_path) == Some((bool_byte(u0.forward_adds), after_path.skip(1))));
        assert(after_path.skip(1) =~= upstreams_wire(tail) + rest);
        assert(upstreams_encodable(tail)) by {
            assert(forall|i: int| 0 <= i < tail.len() ==> #[trigger] tail[i] == us[i + 1]);
        }
        lemma_take_upstreams_of_wire(tail, rest);
        assert(seq![UpstreamView { path: decode_utf8(eb), forward_adds: u0.forward_adds }] + tail
            =~= us);
    }
}

/// Whatever entries were read re-encode to exactly the bytes consumed.
#[verifier::rlimit(50)]
pub proof fn lemma_take_upstreams_faithful(s: Seq<u8>, n: nat)
    ensures
        take_upstreams(s, n) matches Ok((us, r)) ==> us.len() == n && upstreams_encodable(us)
            && upstreams_wire(us) + r == s,
    decreases n,
{
    if n > 0 && take_upstreams(s, n) is Ok {
        let (b, r0) = take_lp(s)->Some_0;
        lemma_take_lp_faithful(s);
        decode_utf8_encode_utf8(b);
        let (fb, r1) = take_u8(r0)->Some_0;
        lemma_take_upstreams_faithful(r1, (n - 1) as nat);
        let (ut, r) = take_upstreams(r1, (n - 1) as nat)->Ok_0;
        let us = seq![UpstreamView { path: decode_utf8(b), forward_adds: fb == 1 }] + ut;
        assert(us.drop_first() =~= ut);
        assert(upstreams_encodable(us)) by {
            assert(forall|i: int| 1 <= i < us.len() ==> #[trigger] us[i] == ut[i - 1]);
        }
        assert(r0 =~= seq![fb] + r1);
        assert(fb == bool_byte(fb == 1));
        assert(upstreams_wire(us) + r =~= lp_bytes(b) + (seq![fb] + (upstreams_wire(ut) + r)));
        assert(lp_bytes(b) + r0 =~= s);
        assert(lp_bytes(b) + (seq![fb] + r1) =~= s);
    }
}

// ===================== executable encoders and parsers =====================

/// Append the body of an `EXTENSION_FAILURE` reply.
#[verifier::loop_isolation(false)]
pub fn encode_error_msg_to(em: &ErrorMsg, dst: &mut Vec<u8>) -> (r: Result<(), EncodeFault>)
    ensures
        r is Ok ==> final(dst)@ == old(dst)@ + error_msg_wire(em@),
        r is Ok <==> error_msg_encodable(em@) && old(dst)@.len() + error_msg_wire(em@).len()
            <= usize::MAX,
{
    let ghost pre = dst@;
    let ghost ms = em@;
    let n = em.messages.len();
    if n > u32::MAX as usize {
        return Err(EncodeFault::Oversize);
    }
    match put_u32(dst, n as u32) {
        Ok(()) => {},
        Err(f) => {
            return Err(f);
        },
    }
    let mut i: usize = 0;
    while i < n
        invariant
            n == ms.len(),
            n <= u32::MAX,
            i <= n,
            ms == em@,
            dst@ == pre + be32_bytes(n as u32) + msgs_wire(ms.take(i as int)),
            forall|j: int| 0 <= j < i ==> encode_utf8(#[trigger] ms[j]).len() <= u32::MAX,
        decreases n - i,
    {
        proof {
            assert(ms[i as int] == em.messages@[i as int]@);
            lemma_msgs_wire_split(ms, i as int);
            let suffix = ms.skip(i as int);
            assert(suffix[0] == ms[i as int]);
            assert(msgs_wire(suffix) == lp_bytes(encode_utf8(suffix[0])) + msgs_wire(
                suffix.drop_first(),
            ));
        }
        match put_lp(dst, em.messages[i].as_str().as_bytes()) {
            Ok(()) => {},
            Err(f) => {
                return Err(f);
            },
        }
        proof {
            lemma_msgs_wire_snoc(ms, i as int);
            assert(dst@ =~= pre + be32_bytes(n as u32) + msgs_wire(ms.take(i as int + 1)));
        }
        i = i + 1;
    }
    proof {
        assert(ms.take(n as int) =~= ms);
        assert(dst@ =~= pre + error_msg_wire(ms));
        assert(dst@.len() == dst.len());
    }
    Ok(())
}

/// Append the body of a `list-upstreams-v2` reply.
#[verifier::loop_isolation(false)]
pub fn encode_upstream_list_to(ul: &UpstreamList, dst: &mut Vec<u8>) -> (r: Result<
    (),
    EncodeFault,
>)
    ensures
        r is Ok ==> final(dst)@ == old(dst)@ + upstream_list_wire(ul@),
        r is Ok <==> upstream_list_encodable(ul@) && old(dst)@.len() + upstream_list_wire(
            ul@,
        ).len() <= usize::MAX,
{
    let ghost pre = dst@;
    let ghost us = ul@;
    let n = ul.upstreams.len();
    if n > u32::MAX as usize {
        return Err(EncodeFault::Oversize);
    }
    match put_u32(dst, n as u32) {
        Ok(()) => {},
        Err(f) => {
            return Err(f);
        },
    }
    let mut i: usize = 0;
    while i < n
        invariant
            n == us.len(),
            n <= u32::MAX,
            i <= n,
            us == ul@,
            dst@ == pre + be32_bytes(n as u32) + upstreams_wire(us.take(i as int)),
            forall|j: int| 0 <= j < i ==> encode_utf8((#[trigger] us[j]).path).len() <= u32::MAX,
        decreases n - i,
    {
        proof {
            assert(us[i as int] == ul.upstreams@[i as int]@);
            lemma_upstreams_wire_split(us, i as int);
            let suffix = us.skip(i as int);
            assert(suffix[0] == us[i as int]);
            assert(upstreams_wire(suffix) == lp_bytes(encode_utf8(suffix[0].path)) + seq![
                bool_byte(suffix[0].forward_adds),
            ] + upstreams_wire(suffix.drop_first()));
        }
        match put_lp(dst, ul.upstreams[i].path.as_str().as_bytes()) {
            Ok(()) => {},
            Err(f) => {
                return Err(f);
            },
        }
        match put_bool(dst, ul.upstreams[i].forward_adds) {
            Ok(()) => {},
            Err(f) => {
                return Err(f);
            },
        }
        proof {
            lemma_upstreams_wire_snoc(us, i as int);
            assert(dst@ =~= pre + be32_bytes(n as u32) + upstreams_wire(us.take(i as int + 1)));
        }
        i = i + 1;
    }
    proof {
        assert(us.take(n as int) =~= us);
        assert(dst@ =~= pre + upstream_list_wire(us));
        assert(dst@.len() == dst.len());
    }
    Ok(())
}

/// Append the body of an extension response.
pub fn encode_ext_resp_body_to(e: &ExtensionResponse, dst: &mut Vec<u8>) -> (r: Result<
    (),
    EncodeFault,
>)
    ensures
        r is Ok ==> final(dst)@ == old(dst)@ + ext_resp_body(e@),
        r is Ok <==> ext_resp_encodable(e@) && old(dst)@.len() + ext_resp_body(e@).len()
            <= usize::MAX,
{
    match e {
        ExtensionResponse::Error(em) => encode_error_msg_to(em, dst),
        ExtensionResponse::UpstreamListV2(ul) => encode_upstream_list_to(ul, dst),
    }
}

/// Parse the error chain that starts at `pos`; trailing bytes after the chain
/// are tolerated and reported through the returned cursor.
#[verifier::loop_isolation(false)]
pub fn parse_error_msg(buf: &Vec<u8>, pos: usize) -> (r: Result<(ErrorMsg, usize), ParseFault>)
    requires
        pos <= buf@.len(),
    ensures
        ({
            let t = spec_parse_error_msg(buf@.skip(pos as int));
            match r {
                Ok((em, p2)) => pos <= p2 <= buf@.len() && t == Ok::<
                    (Seq<Seq<char>>, Seq<u8>),
                    ParseFault,
                >((em@, buf@.skip(p2 as int))),
                Err(f) => t == Err::<(Seq<Seq<char>>, Seq<u8>), ParseFault>(f),
            }
        }),
{
    let (n, p1) = match read_u32(buf, pos) {
        Some(v) => v,
        None => {
            return Err(ParseFault::Insufficient);
        },
    };
    let ghost s1 = buf@.skip(p1 as int);
    let mut out: Vec<String> = Vec::new();
    let mut p: usize = p1;
    let mut i: u32 = 0;
    proof {
        assert(out.deep_view() + take_msgs(s1, n as nat)->Ok_0.0 =~= take_msgs(
            s1,
            n as nat,
        )->Ok_0.0) by {
            assert(out.deep_view() =~= Seq::<Seq<char>>::empty());
        }
        assert(out.deep_view() =~= Seq::<Seq<char>>::empty());
    }
    while i < n
        invariant
            pos <= p <= buf@.len(),
            i <= n,
            out.deep_view().len() == i,
            take_msgs(s1, n as nat) == (match take_msgs(buf@.skip(p as int), (n - i) as nat) {
                Ok((ms2, r2)) => Ok::<(Seq<Seq<char>>, Seq<u8>), ParseFault>(
                    (out.deep_view() + ms2, r2),
                ),
                Err(f) => Err(f),
            }),
        decreases n - i,
    {
        proof {
            assert(take_msgs(buf@.skip(p as int), (n - i) as nat) == (match take_lp(
                buf@.skip(p as int),
            ) {
                None => Err::<(Seq<Seq<char>>, Seq<u8>), ParseFault>(ParseFault::Insufficient),
                Some((b2, r2)) => if !valid_utf8(b2) {
                    Err(ParseFault::InvalidUtf8)
                } else {
                    match take_msgs(r2, (n - i - 1) as nat) {
                        Err(f) => Err(f),
                        Ok((ms2, rr)) => Ok((seq![decode_utf8(b2)] + ms2, rr)),
                    }
                },
            }));
        }
        let (b, p2) = match read_lp(buf, p) {
            Some(v) => v,
            None => {
                return Err(ParseFault::Insufficient);
            },
        };
        let m = match string_from_utf8(b) {
            Some(m) => m,
            None => {
                return Err(ParseFault::InvalidUtf8);
            },
        };
        proof {
            let ghost acc = out.deep_view();
            let rec = take_msgs(buf@.skip(p2 as int), (n - i - 1) as nat);
            if rec is Ok {
                let (ms2, r2) = rec->Ok_0;
                assert(acc + (seq![m@] + ms2) =~= acc.push(m@) + ms2);
            }
        }
        let ghost acc_before = out.deep_view();
        out.push(m);
        proof {
            assert(out.deep_view() =~= acc_before.push(m@));
        }
        p = p2;
        i = i + 1;
    }
    proof {
        assert(take_msgs(buf@.skip(p as int), 0) == Ok::<(Seq<Seq<char>>, Seq<u8>), ParseFault>(
            (Seq::empty(), buf@.skip(p as int)),
        ));
        assert(out.deep_view() + Seq::<Seq<char>>::empty() =~= out.deep_view());
    }
    Ok((ErrorMsg { messages: out }, p))
}

/// Parse the upstream list that starts at `pos` and must run exactly to the
/// end of `buf`.
#[verifier::loop_isolation(false)]
pub fn parse_upstream_list(buf: &Vec<u8>, pos: usize) -> (r: Result<UpstreamList, ParseFault>)
    requires
        pos <= buf@.len(),
    ensures
        ({
            let t = spec_parse_upstream_list(buf@.skip(pos as int));
            match r {
                Ok(ul) => t == Ok::<Seq<UpstreamView>, ParseFault>(ul@),
                Err(f) => t == Err::<Seq<UpstreamView>, ParseFault>(f),
            }
        }),
{
    let (n, p1) = match read_u32(buf, pos) {
        Some(v) => v,
        None => {
            return Err(ParseFault::Insufficient);
        },
    };
    let ghost s1 = buf@.skip(p1 as int);
    let mut out: Vec<Upstream> = Vec::new();
    let mut p: usize = p1;
    let mut i: u32 = 0;
    proof {
        assert(out.deep_view() =~= Seq::<UpstreamView>::empty());
        if take_upstreams(s1, n as nat) is Ok {
            let (us2, r2) = take_upstreams(s1, n as nat)->Ok_0;
            assert(out.deep_view() + us2 =~= us2);
        }
    }
    while i < n
        invariant
            pos <= p <= buf@.len(),
            i <= n,
            out.deep_view().len() == i,
            take_upstreams(s1, n as nat) == (match take_upstreams(
                buf@.skip(p as int),
                (n - i) as nat,
            ) {
                Ok((us2, r2)) => Ok::<(Seq<UpstreamView>, Seq<u8>), ParseFault>(
                    (out.deep_view() + us2, r2),
                ),
                Err(f) => Err(f),
            }),
        decreases n - i,
    {
        proof {
            assert(take_upstreams(buf@.skip(p as int), (n - i) as nat) == (match take_lp(
                buf@.skip(p as int),
            ) {
                None => Err::<(Seq<UpstreamView>, Seq<u8>), ParseFault>(ParseFault::Insufficient),
                Some((b2, r2)) => if !valid_utf8(b2) {
                    Err(ParseFault::InvalidUtf8)
                } else {
                    match take_u8(r2) {
                        None => Err(ParseFault::Insufficient),
                        Some((fb2, rr)) => if fb2 == 0 || fb2 == 1 {
                            match take_upstreams(rr, (n - i - 1) as nat) {
                                Err(f) => Err(f),
                                Ok((us2, r3)) => Ok(
                                    (
                                        seq![
                                            UpstreamView {
                                                path: decode_utf8(b2),
                                                forward_adds: fb2 == 1,
                                            },
                                        ] + us2,
                                        r3,
                                    ),
                                ),
                            }
                        } else {
                            Err(ParseFault::InvalidBool)
                        },
                    }
                },
            }));
        }
        let (b, p2) = match read_lp(buf, p) {
            Some(v) => v,
            None => {
                return Err(ParseFault::Insufficient);
            },
        };
        let path = match string_from_utf8(b) {
            Some(m) => m,
            None => {
                return Err(ParseFault::InvalidUtf8);
            },
        };
        let (fb, p3) = match read_u8(buf, p2) {
            Some(v) => v,
            None => {
                return Err(ParseFault::Insufficient);
            },
        };
        if fb > 1 {
            return Err(ParseFault::InvalidBool);
        }
        let u = Upstream { path, forward_adds: fb == 1 };
        proof {
            let ghost acc = out.deep_view();
            let rec = take_upstreams(buf@.skip(p3 as int), (n - i - 1) as nat);
            if rec is Ok {
                let (us2, r2) = rec->Ok_0;
                assert(acc + (seq![u@] + us2) =~= acc.push(u@) + us2);
            }
        }
        let ghost acc_before = out.deep_view();
        out.push(u);
        proof {
            assert(out.deep_view() =~= acc_before.push(u@));
        }
        p = p3;
        i = i + 1;
    }
    proof {
        assert(take_upstreams(buf@.skip(p as int), 0) == Ok::<
            (Seq<UpstreamView>, Seq<u8>),
            ParseFault,
        >((Seq::empty(), buf@.skip(p as int))));
        assert(out.deep_view() + Seq::<UpstreamView>::empty() =~= out.deep_view());
    }
    if p != buf.len() {
        return Err(ParseFault::Trailing);
    }
    Ok(UpstreamList { upstreams: out })
}

/// A `list-upstreams-v2` body decodes back to exactly the upstreams it was
/// built from, in order.
pub proof fn lemma_upstream_list_round_trip(us: Seq<UpstreamView>)
    requires
        upstream_list_encodable(us),
    ensures
        spec_parse_upstream_list(upstream_list_wire(us)) == Ok::<Seq<UpstreamView>, ParseFault>(
            us,
        ),
{
    lemma_take_u32_of_be32(us.len() as u32, upstreams_wire(us));
    assert(upstreams_wire(us) =~= upstreams_wire(us) + Seq::<u8>::empty());
    lemma_take_upstreams_of_wire(us, Seq::empty());
}

/// An error chain decodes back to exactly the messages it was built from,
/// root cause first.
pub proof fn lemma_error_msg_round_trip(ms: Seq<Seq<char>>)
    requires
        error_msg_encodable(ms),
    ensures
        spec_parse_error_msg(error_msg_wire(ms)) == Ok::<(Seq<Seq<char>>, Seq<u8>), ParseFault>(
            (ms, Seq::empty()),
        ),
{
    lemma_take_u32_of_be32(ms.len() as u32, msgs_wire(ms));
    assert(msgs_wire(ms) =~= msgs_wire(ms) + Seq::<u8>::empty());
    lemma_take_msgs_of_wire(ms, Seq::empty());
}

} // verus!
