//! The value identifying one upstream agent.
//!
//! A client is a socket path plus the forward-adds mark. Opening the socket,
//! sending one framed request and awaiting the framed response is I/O and
//! lives outside the library; the functions here build the values such a
//! caller needs and interpret the responses it brings back.

use vstd::prelude::*;

use crate::errors::AgentError;
use crate::extension::{Upstream, UpstreamView};
use crate::extresp::{
    parse_error_msg, parse_upstream_list, spec_parse_error_msg, spec_parse_upstream_list,
};
use crate::response::{PublicKey, Response, ResponseView};

verus! {

/// One upstream agent the registry can hand requests to.
#[derive(Clone, Debug, PartialEq, Eq)]
pub struct Client {
    pub path: String,
    pub forward_adds: bool,
}

impl View for Client {
    type V = UpstreamView;

    open spec fn view(&self) -> UpstreamView {
        UpstreamView { path: self.path@, forward_adds: self.forward_adds }
    }
}

impl Client {
    /// A client for the agent at `path`; identity mutations are not forwarded
    /// to it unless a later registration says so.
    pub fn new(path: String) -> (c: Client)
        ensures
            c@.path == path@,
            !c@.forward_adds,
    {
        Client { path, forward_adds: false }
    }

    /// The client for the upstream an `add-upstream-v2` request names.
    pub fn from_upstream(upstream: Upstream) -> (c: Client)
        ensures
            c@ == upstream@,
    {
        Client { path: upstream.path, forward_adds: upstream.forward_adds }
    }

    /// This client as the wire-level upstream record.
    pub fn info(&self) -> (u: Upstream)
        ensures
            u@ == self@,
    {
        Upstream { path: self.path.clone(), forward_adds: self.forward_adds }
    }
}

/// How long to wait for an answer, in seconds, by request kind. Listing
/// identities tolerates slow agents; signing may wait on a human at a
/// hardware token; the operator extensions are local and quick.
pub const IDENTITIES_TIMEOUT_SECS: u64 = 5;

/// See [`IDENTITIES_TIMEOUT_SECS`].
pub const SIGN_TIMEOUT_SECS: u64 = 60;

/// See [`IDENTITIES_TIMEOUT_SECS`].
pub const EXTENSION_TIMEOUT_SECS: u64 = 1;

// ===================== interpreting the replies =====================

/// What a `REQUEST_IDENTITIES` reply means: the keys, or why there are none.
/// A plain `FAILURE` is the agent refusing the request.
pub fn identities_of(r: Response) -> (out: Result<Vec<PublicKey>, AgentError>)
    ensures
        match r@ {
            ResponseView::Identities { keys } => out matches Ok(ks) && ks.deep_view() == keys,
            ResponseView::Failure { .. } => out == Err::<Vec<PublicKey>, AgentError>(
                AgentError::ServerFailure,
            ),
            _ => out == Err::<Vec<PublicKey>, AgentError>(AgentError::UnexpectedResponse),
        },
{
    match r {
        Response::Identities { keys } => Ok(keys),
        Response::Failure { .. } => Err(AgentError::ServerFailure),
        _ => Err(AgentError::UnexpectedResponse),
    }
}

/// What a `SIGN_REQUEST` reply means: a `FAILURE` is not an error, only this
/// agent declining to sign — the fan-out then asks the next upstream.
pub fn signature_of(r: Response) -> (out: Result<Option<Vec<u8>>, AgentError>)
    ensures
        match r@ {
            ResponseView::SignResponse { signature } => out matches Ok(s) && s matches Some(v)
                && v@ == signature,
            ResponseView::Failure { .. } => out matches Ok(s) && s is None,
            _ => out == Err::<Option<Vec<u8>>, AgentError>(AgentError::UnexpectedResponse),
        },
{
    match r {
        Response::SignResponse { signature } => Ok(Some(signature)),
        Response::Failure { .. } => Ok(None),
        _ => Err(AgentError::UnexpectedResponse),
    }
}

/// What a `list-upstreams-v2` reply means. A `SUCCESS` carries the list; a
/// plain `FAILURE` means the agent does not know the extension; an
/// `EXTENSION_FAILURE` carries a causal error chain, which is rebuilt, or
/// reported as one generic failure when even the chain is malformed.
pub fn upstream_list_of(r: Response) -> (out: Result<Vec<Upstream>, AgentError>)
    ensures
        match r@ {
            ResponseView::Success { contents } => match spec_parse_upstream_list(contents) {
                Ok(us) => out matches Ok(v) && v.deep_view() == us,
                Err(_) => out == Err::<Vec<Upstream>, AgentError>(AgentError::MalformedError),
            },
            ResponseView::Failure { .. } => out == Err::<Vec<Upstream>, AgentError>(
                AgentError::ExtensionNotUnderstood,
            ),
            ResponseView::ExtensionFailure { contents } => match spec_parse_error_msg(contents) {
                Ok((ms, _)) => out matches Err(e) && e matches AgentError::RemoteFailure {
                    messages,
                } && messages.deep_view() == ms,
                Err(_) => out == Err::<Vec<Upstream>, AgentError>(AgentError::MalformedError),
            },
            _ => out == Err::<Vec<Upstream>, AgentError>(AgentError::UnexpectedResponse),
        },
{
    match r {
        Response::Success { contents } => {
            proof {
                assert(contents@.skip(0) =~= contents@);
            }
            match parse_upstream_list(&contents, 0) {
                Ok(ul) => Ok(ul.upstreams),
                Err(_) => Err(AgentError::MalformedError),
            }
        },
        Response::Failure { .. } => Err(AgentError::ExtensionNotUnderstood),
        Response::ExtensionFailure { contents } => {
            proof {
                assert(contents@.skip(0) =~= contents@);
            }
            match parse_error_msg(&contents, 0) {
                Ok((em, _)) => Err(AgentError::RemoteFailure { messages: em.messages }),
                Err(_) => Err(AgentError::MalformedError),
            }
        },
        _ => Err(AgentError::UnexpectedResponse),
    }
}

/// What an `add-upstream-v2` reply means: a bare `SUCCESS` confirms the
/// registration; anything in its payload is unexpected.
pub fn added_of(r: Response) -> (out: Result<(), AgentError>)
    ensures
        match r@ {
            ResponseView::Success { contents } => if contents.len() == 0 {
                out matches Ok(())
            } else {
                out == Err::<(), AgentError>(AgentError::MalformedError)
            },
            ResponseView::Failure { .. } => out == Err::<(), AgentError>(
                AgentError::ExtensionNotUnderstood,
            ),
            ResponseView::ExtensionFailure { contents } => match spec_parse_error_msg(contents) {
                Ok((ms, _)) => out matches Err(e) && e matches AgentError::RemoteFailure {
                    messages,
                } && messages.deep_view() == ms,
                Err(_) => out == Err::<(), AgentError>(AgentError::MalformedError),
            },
            _ => out == Err::<(), AgentError>(AgentError::UnexpectedResponse),
        },
{
    match r {
        Response::Success { contents } => {
            if contents.len() == 0 {
                Ok(())
            } else {
                Err(AgentError::MalformedError)
            }
        },
        Response::Failure { .. } => Err(AgentError::ExtensionNotUnderstood),
        Response::ExtensionFailure { contents } => {
            proof {
                assert(contents@.skip(0) =~= contents@);
            }
            match parse_error_msg(&contents, 0) {
                Ok((em, _)) => Err(AgentError::RemoteFailure { messages: em.messages }),
                Err(_) => Err(AgentError::MalformedError),
            }
        },
        _ => Err(AgentError::UnexpectedResponse),
    }
}

} // verus!
