use sshagmux::client::{
    added_of, identities_of, signature_of, upstream_list_of, Client, EXTENSION_TIMEOUT_SECS,
    IDENTITIES_TIMEOUT_SECS, SIGN_TIMEOUT_SECS,
};
use sshagmux::codec::{decode_response, encode_response_frame, ByteQueue, Codec};
use sshagmux::dispatch::{
    dispatch, identities_response, list_response, merge_identities, on_upstream_failure,
    probe_outcome, select_signature, sign_response, Action,
};
use sshagmux::errors::AgentError;
use sshagmux::extension::Upstream;
use sshagmux::registry::Upstreams;
use sshagmux::request::Request;
use sshagmux::response::{PublicKey, Response};

#[test]
fn add_keeps_path_once_and_last() {
    let mut reg = Upstreams::new();
    reg.add(Client {
        path: "/a".to_string(),
        forward_adds: false,
    });
    reg.add(Client {
        path: "/b".to_string(),
        forward_adds: false,
    });
    // Adding /a again promotes it to newest, still exactly once.
    reg.add(Client {
        path: "/a".to_string(),
        forward_adds: false,
    });
    reg.add(Client {
        path: "/a".to_string(),
        forward_adds: false,
    });
    let listed = reg.list();
    let paths: Vec<&str> = listed.iter().map(|u| u.path.as_str()).collect();
    assert_eq!(paths, vec!["/b", "/a"]);
    assert_eq!(paths.iter().filter(|p| **p == "/a").count(), 1);
}

#[test]
fn only_newest_forwarder_keeps_flag() {
    let mut reg = Upstreams::new();
    reg.add(Client {
        path: "/x".to_string(),
        forward_adds: true,
    });
    reg.add(Client {
        path: "/y".to_string(),
        forward_adds: true,
    });
    let listed = reg.list();
    assert_eq!(listed.len(), 2);
    assert_eq!(listed[0], Upstream { path: "/x".to_string(), forward_adds: false });
    assert_eq!(listed[1], Upstream { path: "/y".to_string(), forward_adds: true });
    assert_eq!(listed.iter().filter(|u| u.forward_adds).count(), 1);
    let target = reg.forward_target().unwrap();
    assert_eq!(target.path, "/y");
    assert!(target.forward_adds);
}

#[test]
fn forwarder_selection_forwards_verbatim() {
    let mut reg = Upstreams::new();
    reg.add(Client {
        path: "/x".to_string(),
        forward_adds: true,
    });
    reg.add(Client {
        path: "/y".to_string(),
        forward_adds: true,
    });
    match dispatch(Request::RemoveAllIdentities, &reg) {
        Action::Forward { target, request } => {
            assert_eq!(target.path, "/y");
            assert_eq!(request, Request::RemoveAllIdentities);
        }
        other => panic!("wrong action: {other:?}"),
    }
}

#[test]
fn no_forwarder_answers_failure() {
    let mut reg = Upstreams::new();
    reg.add(Client {
        path: "/x".to_string(),
        forward_adds: false,
    });
    match dispatch(Request::RemoveAllIdentities, &reg) {
        Action::Respond(r) => assert_eq!(r, Response::Failure { contents: vec![] }),
        other => panic!("wrong action: {other:?}"),
    }
}

#[test]
fn eviction_on_socket_gone() {
    let mut reg = Upstreams::new();
    reg.add(Client {
        path: "/tmp/dead".to_string(),
        forward_adds: false,
    });
    reg.add(Client {
        path: "/tmp/live".to_string(),
        forward_adds: false,
    });
    // A "not found" during fan-out evicts; a transient failure does not.
    on_upstream_failure(&mut reg, &"/tmp/live".to_string(), false);
    assert_eq!(reg.len(), 2);
    on_upstream_failure(&mut reg, &"/tmp/dead".to_string(), true);
    let paths: Vec<String> = reg.list().into_iter().map(|u| u.path).collect();
    assert_eq!(paths, vec!["/tmp/live".to_string()]);
}

#[test]
fn identities_merge_deduplicates_by_pair() {
    let blob1 = vec![1, 1, 1];
    let blob2 = vec![2, 2];
    // Upstream A (newest) first, then B.
    let lists = vec![
        vec![PublicKey {
            blob: blob1.clone(),
            comment: b"a".to_vec(),
        }],
        vec![
            PublicKey {
                blob: blob1.clone(),
                comment: b"a".to_vec(),
            },
            PublicKey {
                blob: blob2.clone(),
                comment: b"b".to_vec(),
            },
        ],
    ];
    let merged = merge_identities(&lists);
    assert_eq!(
        merged,
        vec![
            PublicKey {
                blob: blob1.clone(),
                comment: b"a".to_vec(),
            },
            PublicKey {
                blob: blob2,
                comment: b"b".to_vec(),
            },
        ]
    );
}

#[test]
fn same_blob_different_comment_both_stay() {
    let blob = vec![1];
    let lists = vec![vec![
        PublicKey {
            blob: blob.clone(),
            comment: b"one".to_vec(),
        },
        PublicKey {
            blob: blob.clone(),
            comment: b"two".to_vec(),
        },
    ]];
    let merged = merge_identities(&lists);
    assert_eq!(merged.len(), 2);
}

#[test]
fn sign_short_circuits_on_first_signature() {
    let results = vec![None, Some(vec![9, 9]), Some(vec![1])];
    assert_eq!(select_signature(results), Some(vec![9, 9]));
    assert_eq!(select_signature(vec![None, None]), None);
    assert_eq!(
        sign_response(Some(vec![5])),
        Response::SignResponse { signature: vec![5] }
    );
    assert_eq!(sign_response(None), Response::Failure { contents: vec![] });
}

#[test]
fn probe_failure_reports_chain_and_keeps_registry() {
    let mut reg = Upstreams::new();
    reg.add(Client {
        path: "/a".to_string(),
        forward_adds: false,
    });
    let before: Vec<Upstream> = reg.list();
    let candidate = Upstream {
        path: "/does/not/exist".to_string(),
        forward_adds: false,
    };
    let messages = vec![
        "No such file or directory (os error 2)".to_string(),
        "failed to test connection".to_string(),
    ];
    let reply = probe_outcome(&mut reg, candidate, false, messages.clone());
    assert_eq!(reg.list(), before);
    // The reply travels as EXTENSION_FAILURE carrying the chain, root first.
    assert_eq!(reply.kind(), 28);
    let mut wire = Vec::new();
    encode_response_frame(&reply, &mut wire).unwrap();
    let mut codec = Codec::new();
    let mut q = ByteQueue::new();
    q.feed(&wire);
    let raw = decode_response(&mut codec, &mut q).unwrap().unwrap();
    match added_of(raw) {
        Err(AgentError::RemoteFailure { messages: got }) => {
            assert_eq!(got, messages);
            assert!(got[0].contains("No such file"));
        }
        other => panic!("wrong interpretation: {other:?}"),
    }
}

#[test]
fn probe_success_registers_and_succeeds() {
    let mut reg = Upstreams::new();
    let candidate = Upstream {
        path: "/new".to_string(),
        forward_adds: true,
    };
    let reply = probe_outcome(&mut reg, candidate, true, vec![]);
    assert_eq!(reply, Response::Success { contents: vec![] });
    assert_eq!(reply.kind(), 6);
    let listed = reg.list();
    assert_eq!(listed.len(), 1);
    assert_eq!(listed[0].path, "/new");
    assert!(listed[0].forward_adds);
}

#[test]
fn extension_list_round_trip() {
    let mut reg = Upstreams::new();
    reg.add(Client {
        path: "/a".to_string(),
        forward_adds: false,
    });
    reg.add(Client {
        path: "/b".to_string(),
        forward_adds: true,
    });
    let reply = list_response(&reg);
    // Travels as SUCCESS whose body is the list.
    assert_eq!(reply.kind(), 6);
    let mut wire = Vec::new();
    encode_response_frame(&reply, &mut wire).unwrap();
    let mut codec = Codec::new();
    let mut q = ByteQueue::new();
    q.feed(&wire);
    let raw = decode_response(&mut codec, &mut q).unwrap().unwrap();
    let listed = upstream_list_of(raw).unwrap();
    assert_eq!(
        listed,
        vec![
            Upstream {
                path: "/a".to_string(),
                forward_adds: false,
            },
            Upstream {
                path: "/b".to_string(),
                forward_adds: true,
            },
        ]
    );
}

#[test]
fn dispatch_identities_and_sign() {
    let reg = Upstreams::new();
    assert!(matches!(
        dispatch(Request::RequestIdentities, &reg),
        Action::FanIdentities
    ));
    match dispatch(
        Request::SignRequest {
            blob: vec![1],
            data: vec![2],
            flags: 3,
        },
        &reg,
    ) {
        Action::FanSign { blob, data, flags } => {
            assert_eq!((blob, data, flags), (vec![1], vec![2], 3));
        }
        other => panic!("wrong action: {other:?}"),
    }
    match dispatch(
        Request::Unknown {
            kind: 22,
            contents: vec![],
        },
        &reg,
    ) {
        Action::Respond(r) => assert_eq!(r, Response::Failure { contents: vec![] }),
        other => panic!("wrong action: {other:?}"),
    }
}

#[test]
fn identities_response_wraps_merged_keys() {
    let keys = vec![PublicKey {
        blob: vec![1],
        comment: vec![2],
    }];
    assert_eq!(
        identities_response(keys.clone()),
        Response::Identities { keys }
    );
}

#[test]
fn client_interprets_identities_reply() {
    let keys = vec![PublicKey {
        blob: vec![1],
        comment: b"k".to_vec(),
    }];
    assert_eq!(
        identities_of(Response::Identities { keys: keys.clone() }),
        Ok(keys)
    );
    assert_eq!(
        identities_of(Response::Failure { contents: vec![] }),
        Err(AgentError::ServerFailure)
    );
    assert_eq!(
        identities_of(Response::Success { contents: vec![] }),
        Err(AgentError::UnexpectedResponse)
    );
}

#[test]
fn client_interprets_sign_reply() {
    assert_eq!(
        signature_of(Response::SignResponse {
            signature: vec![3, 4],
        }),
        Ok(Some(vec![3, 4]))
    );
    // A failure only means "this agent will not sign": try the next one.
    assert_eq!(signature_of(Response::Failure { contents: vec![] }), Ok(None));
    assert_eq!(
        signature_of(Response::Identities { keys: vec![] }),
        Err(AgentError::UnexpectedResponse)
    );
}

#[test]
fn client_interprets_extension_failures() {
    assert_eq!(
        upstream_list_of(Response::Failure { contents: vec![] }),
        Err(AgentError::ExtensionNotUnderstood)
    );
    // A malformed error body is reported generically.
    assert_eq!(
        upstream_list_of(Response::ExtensionFailure {
            contents: vec![0, 0],
        }),
        Err(AgentError::MalformedError)
    );
    // A malformed list body likewise.
    assert_eq!(
        upstream_list_of(Response::Success {
            contents: vec![9, 9],
        }),
        Err(AgentError::MalformedError)
    );
    assert_eq!(
        upstream_list_of(Response::SignResponse { signature: vec![] }),
        Err(AgentError::UnexpectedResponse)
    );
    assert_eq!(added_of(Response::Success { contents: vec![] }), Ok(()));
    assert_eq!(
        added_of(Response::Success { contents: vec![1] }),
        Err(AgentError::MalformedError)
    );
}

#[test]
fn client_new_and_info() {
    let c = Client::new("/sock".to_string());
    assert_eq!(c.path, "/sock");
    assert!(!c.forward_adds);
    let u = c.info();
    assert_eq!(u, Upstream { path: "/sock".to_string(), forward_adds: false });
    let c2 = Client::from_upstream(u);
    assert_eq!(c2, c);
}

#[test]
fn timeouts_by_request_kind() {
    assert_eq!(IDENTITIES_TIMEOUT_SECS, 5);
    assert_eq!(SIGN_TIMEOUT_SECS, 60);
    assert_eq!(EXTENSION_TIMEOUT_SECS, 1);
}

#[test]
fn targets_are_newest_first() {
    let mut reg = Upstreams::new();
    reg.add(Client {
        path: "/a".to_string(),
        forward_adds: false,
    });
    reg.add(Client {
        path: "/b".to_string(),
        forward_adds: false,
    });
    let order: Vec<String> = reg.targets().into_iter().map(|c| c.path).collect();
    assert_eq!(order, vec!["/b".to_string(), "/a".to_string()]);
}

#[test]
fn empty_identities_round_trip() {
    let msg = Response::Identities { keys: vec![] };
    let mut wire = Vec::new();
    encode_response_frame(&msg, &mut wire).unwrap();
    assert_eq!(wire, vec![0, 0, 0, 5, 12, 0, 0, 0, 0]);
    let mut codec = Codec::new();
    let mut q = ByteQueue::new();
    q.feed(&wire);
    assert_eq!(decode_response(&mut codec, &mut q).unwrap(), Some(msg));
}

#[test]
fn empty_error_chain_decodes_to_no_messages() {
    // An EXTENSION_FAILURE whose body announces zero messages.
    let raw = Response::ExtensionFailure {
        contents: vec![0, 0, 0, 0],
    };
    assert_eq!(
        added_of(raw),
        Err(AgentError::RemoteFailure { messages: vec![] })
    );
}
