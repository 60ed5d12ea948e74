//! The request dispatcher: how one decoded request maps to upstream work and
//! how upstream answers merge into one reply.
//!
//! The handler loop itself performs the socket I/O; everything it decides is
//! here. A request maps to an [`Action`]; the answers a fan-out gathered are
//! merged by [`merge_identities`] (de-duplicated by the full blob/comment
//! pair, first occurrence kept, newest upstream first) or by
//! [`select_signature`] (first signature wins); an upstream whose socket is
//! gone is evicted through [`on_upstream_failure`].

use vstd::prelude::*;

use crate::client::Client;
use crate::extension::{Extension, ExtensionView, Upstream};
use crate::extresp::{ErrorMsg, ExtensionResponse, ExtensionResponseView, UpstreamList};
use crate::registry::{after_add, newest_forwarder, upstream_views, without_path, Upstreams};
use crate::request::{Request, RequestView};
use crate::response::{PublicKey, PublicKeyView, Response, ResponseView};
use crate::wire::read_exact;

verus! {

/// What the connection handler must do for one decoded request.
#[derive(Debug)]
pub enum Action {
    /// Ask every upstream for its identities, newest first, and reply with
    /// the merged list.
    FanIdentities,
    /// Ask the upstreams to sign, newest first, and reply with the first
    /// signature, or `FAILURE` if none signs.
    FanSign { blob: Vec<u8>, data: Vec<u8>, flags: u32 },
    /// Send the request to this upstream unchanged and reply with whatever it
    /// answers.
    Forward { target: Client, request: Request },
    /// Probe the candidate by requesting its identities; register it on
    /// success.
    Probe(Upstream),
    /// Reply at once.
    Respond(Response),
}

/// The failure reply sent for requests the multiplexer does not serve.
pub open spec fn failure_view() -> ResponseView {
    ResponseView::Failure { contents: Seq::<u8>::empty() }
}

/// Decide what to do with one request, per the dispatch table: identities and
/// sign requests fan out; identity mutations are forwarded to the newest
/// forward-adds upstream, or answered `FAILURE` when none is marked; the two
/// known extensions probe or list; everything else is answered `FAILURE`.
pub fn dispatch(req: Request, reg: &Upstreams) -> (a: Action)
    ensures
        match req@ {
            RequestView::RequestIdentities => a is FanIdentities,
            RequestView::SignRequest { blob, data, flags } => a matches Action::FanSign {
                blob: b,
                data: d,
                flags: f,
            } && b@ == blob && d@ == data && f == flags,
            RequestView::AddIdentity { .. } | RequestView::AddIdConstrained { .. }
                | RequestView::RemoveIdentity { .. } | RequestView::RemoveAllIdentities => match newest_forwarder(
                reg@,
            ) {
                Some(e) => a matches Action::Forward { target, request } && target@.path == e.0
                    && target@.forward_adds == e.1 && request@ == req@,
                None => a matches Action::Respond(r) && r@ == failure_view(),
            },
            RequestView::Extension(e) => match e {
                ExtensionView::AddUpstreamV2(u) => a matches Action::Probe(c) && c@ == u,
                ExtensionView::ListUpstreamsV2 => a matches Action::Respond(r) && r@
                    == ResponseView::Extension(
                    ExtensionResponseView::UpstreamListV2(upstream_views(reg@)),
                ),
                ExtensionView::Unknown { .. } => a matches Action::Respond(r) && r@
                    == failure_view(),
            },
            RequestView::Unknown { .. } => a matches Action::Respond(r) && r@ == failure_view(),
        },
{
    match req {
        Request::RequestIdentities => Action::FanIdentities,
        Request::SignRequest { blob, data, flags } => Action::FanSign { blob, data, flags },
        Request::AddIdentity { .. } | Request::AddIdConstrained { .. } | Request::RemoveIdentity {
            ..
        } | Request::RemoveAllIdentities => {
            match reg.forward_target() {
                Some(target) => Action::Forward { target, request: req },
                None => Action::Respond(Response::failure()),
            }
        },
        Request::Extension(Extension::AddUpstreamV2(u)) => Action::Probe(u),
        Request::Extension(Extension::ListUpstreamsV2) => Action::Respond(list_response(reg)),
        Request::Extension(Extension::Unknown { .. }) => Action::Respond(Response::failure()),
        Request::Unknown { .. } => Action::Respond(Response::failure()),
    }
}

/// The reply to `list-upstreams-v2`: the registered upstreams, oldest first.
pub fn list_response(reg: &Upstreams) -> (r: Response)
    ensures
        r@ == ResponseView::Extension(
            ExtensionResponseView::UpstreamListV2(upstream_views(reg@)),
        ),
{
    let ups = reg.list();
    proof {
        assert(ups.deep_view() =~= upstream_views(reg@));
    }
    Response::Extension(ExtensionResponse::UpstreamListV2(UpstreamList { upstreams: ups }))
}

/// The reply to a request for identities.
pub fn identities_response(keys: Vec<PublicKey>) -> (r: Response)
    ensures
        r@ == (ResponseView::Identities { keys: keys.deep_view() }),
{
    Response::Identities { keys }
}

/// The reply to a sign request: the signature if an upstream produced one,
/// else a bare `FAILURE`.
pub fn sign_response(signature: Option<Vec<u8>>) -> (r: Response)
    ensures
        match signature {
            Some(s) => r@ == (ResponseView::SignResponse { signature: s@ }),
            None => r@ == failure_view(),
        },
{
    match signature {
        Some(signature) => Response::SignResponse { signature },
        None => Response::failure(),
    }
}

/// Settle an `add-upstream-v2` probe: a candidate whose identities request
/// succeeded is registered and answered with a bare `SUCCESS`; a failed probe
/// leaves the registry untouched and reports the causal chain.
pub fn probe_outcome(
    reg: &mut Upstreams,
    candidate: Upstream,
    ok: bool,
    messages: Vec<String>,
) -> (r: Response)
    ensures
        ok ==> final(reg)@ == after_add(old(reg)@, candidate.path@, candidate.forward_adds) && r@
            == (ResponseView::Success { contents: Seq::<u8>::empty() }),
        !ok ==> final(reg)@ == old(reg)@ && r@ == ResponseView::Extension(
            ExtensionResponseView::Error(messages.deep_view()),
        ),
{
    if ok {
        reg.add(Client::from_upstream(candidate));
        Response::success()
    } else {
        Response::Extension(ExtensionResponse::Error(ErrorMsg { messages }))
    }
}

/// Record a failed upstream call: an upstream whose socket is gone is
/// evicted; any other failure is transient and leaves the registry unchanged.
pub fn on_upstream_failure(reg: &mut Upstreams, path: &String, socket_gone: bool)
    ensures
        socket_gone ==> final(reg)@ == without_path(old(reg)@, path@),
        !socket_gone ==> final(reg)@ == old(reg)@,
{
    if socket_gone {
        reg.remove_path(path);
    }
}

// ===================== identity merging =====================

/// Copy one key.
fn clone_key(k: &PublicKey) -> (r: PublicKey)
    ensures
        r@ == k@,
{
    let blob = read_exact(&k.blob, 0, k.blob.len());
    let comment = read_exact(&k.comment, 0, k.comment.len());
    proof {
        assert(blob@ =~= k.blob@);
        assert(comment@ =~= k.comment@);
    }
    PublicKey { blob, comment }
}

/// Whether two keys are the same blob/comment pair.
fn key_eq(a: &PublicKey, b: &PublicKey) -> (r: bool)
    ensures
        r == (a@ == b@),
{
    if bytes_eq(&a.blob, &b.blob) && bytes_eq(&a.comment, &b.comment) {
        true
    } else {
        false
    }
}

/// Whether two byte strings are equal.
fn bytes_eq(a: &Vec<u8>, b: &Vec<u8>) -> (r: bool)
    ensures
        r == (a@ == b@),
{
    if a.len() != b.len() {
        return false;
    }
    let n = a.len();
    let mut i: usize = 0;
    while i < n
        invariant
            n == a@.len() == b@.len(),
            i <= n,
            forall|j: int| 0 <= j < i ==> a@[j] == b@[j],
        decreases n - i,
    {
        if a[i] != b[i] {
            return false;
        }
        i = i + 1;
    }
    proof {
        assert(a@ =~= b@);
    }
    true
}

/// Whether the list already holds this key.
fn holds_key(ks: &Vec<PublicKey>, k: &PublicKey) -> (r: bool)
    ensures
        r == ks.deep_view().contains(k@),
{
    let n = ks.len();
    let mut i: usize = 0;
    while i < n
        invariant
            n == ks.deep_view().len(),
            i <= n,
            forall|j: int| 0 <= j < i ==> ks.deep_view()[j] != k@,
        decreases n - i,
    {
        if key_eq(&ks[i], k) {
            proof {
                assert(ks.deep_view()[i as int] == k@);
            }
            return true;
        }
        i = i + 1;
    }
    proof {
        assert(!ks.deep_view().contains(k@));
    }
    false
}

/// The concatenation of the per-upstream key lists, in fan-out order.
pub open spec fn concat_keys(ls: Seq<Seq<PublicKeyView>>) -> Seq<PublicKeyView>
    decreases ls.len(),
{
    if ls.len() == 0 {
        Seq::empty()
    } else {
        ls[0] + concat_keys(ls.drop_first())
    }
}

/// The keys with later duplicates of the blob/comment pair removed: the first
/// occurrence stays, in place.
pub open spec fn dedup_keys(ks: Seq<PublicKeyView>) -> Seq<PublicKeyView>
    decreases ks.len(),
{
    if ks.len() == 0 {
        Seq::empty()
    } else {
        let rest = dedup_keys(ks.drop_last());
        if ks.drop_last().contains(ks.last()) {
            rest
        } else {
            rest.push(ks.last())
        }
    }
}

/// De-duplication keeps exactly the keys that were there.
pub proof fn lemma_dedup_same_elements(ks: Seq<PublicKeyView>)
    ensures
        forall|x: PublicKeyView| dedup_keys(ks).contains(x) <==> ks.contains(x),
    decreases ks.len(),
{
    if ks.len() > 0 {
        lemma_dedup_same_elements(ks.drop_last());
        assert forall|x: PublicKeyView| ks.contains(x) implies dedup_keys(ks).contains(x) by {
            let i = choose|i: int| 0 <= i < ks.len() && ks[i] == x;
            if i < ks.len() - 1 {
                assert(ks.drop_last()[i] == x);
                assert(ks.drop_last().contains(x));
                let j = choose|j: int|
                    0 <= j < dedup_keys(ks.drop_last()).len() && dedup_keys(ks.drop_last())[j]
                        == x;
                assert(dedup_keys(ks)[j] == x);
            } else {
                if ks.drop_last().contains(x) {
                    let j = choose|j: int|
                        0 <= j < dedup_keys(ks.drop_last()).len() && dedup_keys(ks.drop_last())[j]
                            == x;
                    assert(dedup_keys(ks)[j] == x);
                } else {
                    assert(dedup_keys(ks).last() == x);
                }
            }
        }
        assert forall|x: PublicKeyView| dedup_keys(ks).contains(x) implies ks.contains(x) by {
            let rest = dedup_keys(ks.drop_last());
            let d = dedup_keys(ks);
            let j = choose|j: int| 0 <= j < d.len() && d[j] == x;
            if j < rest.len() {
                assert(d[j] == rest[j]);
                assert(rest.contains(x));
                assert(ks.drop_last().contains(x));
                let i = choose|i: int| 0 <= i < ks.drop_last().len() && ks.drop_last()[i] == x;
                assert(ks.drop_last()[i] == ks[i]);
                assert(ks[i] == x);
                assert(ks.contains(x));
            } else {
                assert(d == rest.push(ks.last()));
                assert(x == ks.last());
                assert(ks[ks.len() - 1] == x);
                assert(ks.contains(x));
            }
        }
    }
}

/// The merged identities list holds no duplicate blob/comment pair.
pub proof fn lemma_dedup_no_duplicates(ks: Seq<PublicKeyView>)
    ensures
        forall|i: int, j: int|
            0 <= i < j < dedup_keys(ks).len() ==> dedup_keys(ks)[i] != dedup_keys(ks)[j],
    decreases ks.len(),
{
    if ks.len() > 0 {
        lemma_dedup_no_duplicates(ks.drop_last());
        lemma_dedup_same_elements(ks.drop_last());
        let rest = dedup_keys(ks.drop_last());
        if !ks.drop_last().contains(ks.last()) {
            assert forall|i: int, j: int|
                0 <= i < j < dedup_keys(ks).len() implies dedup_keys(ks)[i] != dedup_keys(
                ks,
            )[j] by {
                if j < rest.len() {
                } else {
                    assert(dedup_keys(ks)[j] == ks.last());
                    assert(rest.contains(rest[i]));
                }
            }
        }
    }
}

/// The wire form of a list splits at any index.
proof fn lemma_concat_keys_split(ls: Seq<Seq<PublicKeyView>>, i: int)
    requires
        0 <= i <= ls.len(),
    ensures
        concat_keys(ls) == concat_keys(ls.take(i)) + concat_keys(ls.skip(i)),
    decreases i,
{
    if i == 0 {
        assert(ls.take(0) =~= Seq::<Seq<PublicKeyView>>::empty());
        assert(ls.skip(0) =~= ls);
        assert(concat_keys(ls.take(0)) + concat_keys(ls) =~= concat_keys(ls));
    } else {
        let dropped = ls.drop_first();
        lemma_concat_keys_split(dropped, i - 1);
        assert(dropped.take(i - 1) =~= ls.take(i).drop_first());
        assert(dropped.skip(i - 1) =~= ls.skip(i));
        assert(ls.take(i)[0] == ls[0]);
        assert(ls[0] + (concat_keys(ls.take(i).drop_first()) + concat_keys(ls.skip(i))) =~= (ls[0]
            + concat_keys(ls.take(i).drop_first())) + concat_keys(ls.skip(i)));
    }
}

/// Merge the per-upstream key lists, newest upstream first: concatenate, then
/// drop every later duplicate of a blob/comment pair.
pub fn merge_identities(lists: &Vec<Vec<PublicKey>>) -> (r: Vec<PublicKey>)
    ensures
        r.deep_view() == dedup_keys(concat_keys(lists.deep_view())),
{
    let ghost ld = lists.deep_view();
    let mut all: Vec<PublicKey> = Vec::new();
    let n = lists.len();
    let mut i: usize = 0;
    proof {
        assert(all.deep_view() =~= concat_keys(ld.take(0)));
    }
    while i < n
        invariant
            n == ld.len(),
            ld == lists.deep_view(),
            i <= n,
            all.deep_view() == concat_keys(ld.take(i as int)),
        decreases n - i,
    {
        let m = lists[i].len();
        let mut j: usize = 0;
        proof {
            assert(ld[i as int] == lists@[i as int].deep_view());
            assert(ld[i as int].take(0) =~= Seq::<PublicKeyView>::empty());
            assert(all.deep_view() + ld[i as int].take(0) =~= all.deep_view());
        }
        let ghost base = all.deep_view();
        while j < m
            invariant
                n == ld.len(),
                ld == lists.deep_view(),
                i < n,
                m == ld[i as int].len(),
                ld[i as int] == lists@[i as int].deep_view(),
                j <= m,
                all.deep_view() == base + ld[i as int].take(j as int),
            decreases m - j,
        {
            let k = clone_key(&lists[i][j]);
            proof {
                assert(ld[i as int][j as int] == lists@[i as int].deep_view()[j as int]);
                assert(k@ == ld[i as int][j as int]);
            }
            let ghost before = all.deep_view();
            all.push(k);
            proof {
                assert(all.deep_view() =~= before.push(k@));
                assert(before.push(k@) =~= base + ld[i as int].take(j as int + 1));
            }
            j = j + 1;
        }
        proof {
            assert(ld[i as int].take(m as int) =~= ld[i as int]);
            lemma_concat_keys_split(ld, i as int + 1);
            lemma_concat_keys_split(ld, i as int);
            assert(ld.take(i as int + 1).take(i as int) =~= ld.take(i as int));
            assert(ld.take(i as int + 1).skip(i as int) =~= seq![ld[i as int]]);
            assert(concat_keys(seq![ld[i as int]]) =~= ld[i as int]) by {
                assert(seq![ld[i as int]].drop_first() =~= Seq::<Seq<PublicKeyView>>::empty());
                assert(concat_keys(seq![ld[i as int]].drop_first()) == Seq::<
                    PublicKeyView,
                >::empty());
                assert(ld[i as int] + Seq::<PublicKeyView>::empty() =~= ld[i as int]);
            }
            lemma_concat_keys_split(ld.take(i as int + 1), i as int);
            assert(concat_keys(ld.take(i as int + 1)) =~= concat_keys(ld.take(i as int))
                + ld[i as int]);
            assert(all.deep_view() =~= concat_keys(ld.take(i as int + 1)));
        }
        i = i + 1;
    }
    proof {
        assert(ld.take(n as int) =~= ld);
    }
    let ghost av = all.deep_view();
    let mut out: Vec<PublicKey> = Vec::new();
    let total = all.len();
    let mut t: usize = 0;
    proof {
        assert(all@.len() == av.len());
        assert(av.take(0) =~= Seq::<PublicKeyView>::empty());
        assert(out.deep_view() =~= dedup_keys(av.take(0)));
    }
    while t < total
        invariant
            total == av.len(),
            av == all.deep_view(),
            t <= total,
            out.deep_view() == dedup_keys(av.take(t as int)),
            forall|x: PublicKeyView| out.deep_view().contains(x) <==> av.take(t as int).contains(x),
        decreases total - t,
    {
        let k = clone_key(&all[t]);
        proof {
            assert(k@ == av[t as int]);
            assert(av.take(t as int + 1).drop_last() =~= av.take(t as int));
            assert(av.take(t as int + 1).last() == av[t as int]);
        }
        let present = holds_key(&out, &k);
        let ghost before = out.deep_view();
        if !present {
            out.push(k);
            proof {
                assert(out.deep_view() =~= before.push(av[t as int]));
            }
        }
        proof {
            lemma_dedup_same_elements(av.take(t as int + 1));
            let avt1 = av.take(t as int + 1);
            let avt = av.take(t as int);
            let outv = out.deep_view();
            assert forall|x: PublicKeyView| #![trigger avt1.contains(x)]
                outv.contains(x) <==> avt1.contains(x) by {
                if outv.contains(x) {
                    let j = choose|j: int| 0 <= j < outv.len() && outv[j] == x;
                    if j < before.len() {
                        assert(before[j] == x);
                        assert(before.contains(x));
                        let j2 = choose|j2: int| 0 <= j2 < avt.len() && avt[j2] == x;
                        assert(avt1[j2] == x);
                    } else {
                        assert(x == av[t as int]);
                        assert(avt1.last() == x);
                    }
                }
                if avt1.contains(x) {
                    let j = choose|j: int| 0 <= j < avt1.len() && avt1[j] == x;
                    if j < t {
                        assert(avt[j] == x);
                        assert(avt.contains(x));
                        assert(before.contains(x));
                        let j2 = choose|j2: int| 0 <= j2 < before.len() && before[j2] == x;
                        assert(outv[j2] == x);
                    } else {
                        assert(x == av[t as int]);
                        if present {
                            assert(before.contains(x));
                            let j2 = choose|j2: int| 0 <= j2 < before.len() && before[j2] == x;
                            assert(outv[j2] == x);
                        } else {
                            assert(outv.last() == x);
                        }
                    }
                }
            }
        }
        t = t + 1;
    }
    proof {
        assert(av.take(total as int) =~= av);
    }
    out
}

// ===================== signature selection =====================

/// The first signature in fan-out order, if any upstream signed.
pub open spec fn first_signature(rs: Seq<Option<Seq<u8>>>) -> Option<Seq<u8>>
    decreases rs.len(),
{
    if rs.len() == 0 {
        None
    } else if rs[0] is Some {
        rs[0]
    } else {
        first_signature(rs.drop_first())
    }
}

/// Pick the first signature of the gathered per-upstream results, newest
/// upstream first.
pub fn select_signature(rs: Vec<Option<Vec<u8>>>) -> (r: Option<Vec<u8>>)
    ensures
        match r {
            Some(v) => first_signature(rs.deep_view()) == Some(v@),
            None => first_signature(rs.deep_view()) is None,
        },
{
    let ghost dv = rs.deep_view();
    let n = rs.len();
    let mut i: usize = 0;
    proof {
        assert(dv.skip(0) =~= dv);
    }
    while i < n
        invariant
            n == dv.len(),
            dv == rs.deep_view(),
            i <= n,
            first_signature(dv) == first_signature(dv.skip(i as int)),
        decreases n - i,
    {
        proof {
            assert(dv.skip(i as int)[0] == dv[i as int]);
            assert(dv.skip(i as int).drop_first() =~= dv.skip(i as int + 1));
            assert(dv[i as int] == rs@[i as int].deep_view());
        }
        match &rs[i] {
            Some(sig) => {
                let v = read_exact(sig, 0, sig.len());
                proof {
                    assert(v@ =~= sig@);
                }
                return Some(v);
            },
            None => {},
        }
        i = i + 1;
    }
    proof {
        assert(dv.skip(n as int) =~= Seq::<Option<Seq<u8>>>::empty());
    }
    None
}

/// Once one upstream signs, the upstreams after it do not matter: the result
/// over the whole fan-out equals the result over the prefix that ends at the
/// first signer, so the fan-out may stop there.
pub proof fn lemma_sign_short_circuit(rs: Seq<Option<Seq<u8>>>, i: int)
    requires
        0 <= i < rs.len(),
        rs[i] is Some,
        forall|j: int| 0 <= j < i ==> rs[j] is None,
    ensures
        first_signature(rs) == rs[i],
        first_signature(rs.take(i + 1)) == rs[i],
    decreases i,
{
    if i == 0 {
        assert(rs.take(1)[0] == rs[0]);
    } else {
        lemma_sign_short_circuit(rs.drop_first(), i - 1);
        assert(rs.drop_first()[i - 1] == rs[i]);
        assert(forall|j: int| 0 <= j < i - 1 ==> rs.drop_first()[j] == rs[j + 1]);
        assert(rs.take(i + 1)[0] == rs[0]);
        assert(rs.take(i + 1).drop_first() =~= rs.drop_first().take(i));
    }
}

} // verus!
