use sshagmux::codec::{decode_request, decode_response, encode_request_frame, encode_response_frame, ByteQueue, Codec};
use sshagmux::errors::{DecodeError, ParseFault};
use sshagmux::extension::{Extension, Upstream};
use sshagmux::request::{parse_request, Request};
use sshagmux::response::{parse_response, PublicKey, Response};

#[test]
fn frame_boundary_whole_frame() {
    // [0,0,0,1, 11]: one REQUEST_IDENTITIES with an empty body, nothing left.
    let mut codec = Codec::new();
    let mut q = ByteQueue::new();
    q.feed(&[0, 0, 0, 1, 11]);
    let got = decode_request(&mut codec, &mut q).unwrap();
    assert_eq!(got, Some(Request::RequestIdentities));
    assert_eq!(q.len(), 0);
}

#[test]
fn frame_boundary_partial_frame_buffers() {
    // [0,0,0,1] alone yields nothing; the bytes stay buffered until the type
    // byte arrives.
    let mut codec = Codec::new();
    let mut q = ByteQueue::new();
    q.feed(&[0, 0, 0, 1]);
    assert_eq!(decode_request(&mut codec, &mut q).unwrap(), None);
    q.feed(&[11]);
    let got = decode_request(&mut codec, &mut q).unwrap();
    assert_eq!(got, Some(Request::RequestIdentities));
    assert_eq!(q.len(), 0);
}

#[test]
fn zero_length_is_fatal_and_poisons() {
    let mut codec = Codec::new();
    let mut q = ByteQueue::new();
    q.feed(&[0, 0, 0, 0, 9, 9]);
    assert_eq!(
        decode_request(&mut codec, &mut q),
        Err(DecodeError::ZeroLength)
    );
    // Valid input afterwards is still refused: framing is lost.
    q.feed(&[0, 0, 0, 1, 11]);
    assert_eq!(
        decode_request(&mut codec, &mut q),
        Err(DecodeError::FramingLost)
    );
    assert_eq!(
        decode_request(&mut codec, &mut q),
        Err(DecodeError::FramingLost)
    );
}

#[test]
fn byte_at_a_time_equals_whole() {
    let msg = Request::SignRequest {
        blob: vec![1, 2, 3],
        data: vec![9, 8, 7, 6],
        flags: 0x01020304,
    };
    let mut wire = Vec::new();
    encode_request_frame(&msg, &mut wire).unwrap();

    // Feed the whole encoding at once.
    let mut codec = Codec::new();
    let mut q = ByteQueue::new();
    q.feed(&wire);
    let whole = decode_request(&mut codec, &mut q).unwrap();

    // Feed it one byte at a time: nothing until the last byte.
    let mut codec2 = Codec::new();
    let mut q2 = ByteQueue::new();
    for i in 0..wire.len() {
        assert_eq!(decode_request(&mut codec2, &mut q2).unwrap(), None);
        q2.feed(&[wire[i]]);
    }
    let parts = decode_request(&mut codec2, &mut q2).unwrap();
    assert_eq!(whole, parts);
    assert_eq!(parts, Some(msg));
    assert_eq!(q2.len(), 0);
}

#[test]
fn two_frames_in_one_feed() {
    let mut wire = Vec::new();
    encode_request_frame(&Request::RequestIdentities, &mut wire).unwrap();
    encode_request_frame(&Request::RemoveAllIdentities, &mut wire).unwrap();
    let mut codec = Codec::new();
    let mut q = ByteQueue::new();
    q.feed(&wire);
    assert_eq!(
        decode_request(&mut codec, &mut q).unwrap(),
        Some(Request::RequestIdentities)
    );
    assert_eq!(
        decode_request(&mut codec, &mut q).unwrap(),
        Some(Request::RemoveAllIdentities)
    );
    assert_eq!(decode_request(&mut codec, &mut q).unwrap(), None);
}

#[test]
fn request_round_trip_every_variant() {
    let cases = vec![
        Request::RequestIdentities,
        Request::SignRequest {
            blob: vec![1, 2],
            data: vec![3],
            flags: 7,
        },
        Request::AddIdentity {
            contents: vec![0, 1, 2, 3],
        },
        Request::AddIdConstrained {
            contents: vec![5, 5],
        },
        Request::RemoveIdentity { blob: vec![42] },
        Request::RemoveAllIdentities,
        Request::Extension(Extension::AddUpstreamV2(Upstream {
            path: "/run/agent.sock".to_string(),
            forward_adds: true,
        })),
        Request::Extension(Extension::ListUpstreamsV2),
        Request::Extension(Extension::Unknown {
            kind: "query@example.com".to_string(),
            contents: vec![1, 2, 3],
        }),
        Request::Unknown {
            kind: 99,
            contents: vec![10, 11],
        },
    ];
    for msg in cases {
        let mut wire = Vec::new();
        encode_request_frame(&msg, &mut wire).unwrap();
        let mut codec = Codec::new();
        let mut q = ByteQueue::new();
        q.feed(&wire);
        assert_eq!(decode_request(&mut codec, &mut q).unwrap(), Some(msg));
        assert_eq!(q.len(), 0);
    }
}

#[test]
fn response_round_trip_every_parsed_variant() {
    let cases = vec![
        Response::Success {
            contents: vec![1, 2],
        },
        Response::Failure { contents: vec![] },
        Response::Identities {
            keys: vec![
                PublicKey {
                    blob: vec![1, 2, 3],
                    comment: vec![b'a'],
                },
                PublicKey {
                    blob: vec![4],
                    comment: vec![],
                },
            ],
        },
        Response::SignResponse {
            signature: vec![9, 9, 9],
        },
        Response::ExtensionFailure {
            contents: vec![7, 7],
        },
        Response::Unknown {
            kind: 200,
            contents: vec![1],
        },
    ];
    for msg in cases {
        let mut wire = Vec::new();
        encode_response_frame(&msg, &mut wire).unwrap();
        let mut codec = Codec::new();
        let mut q = ByteQueue::new();
        q.feed(&wire);
        assert_eq!(decode_response(&mut codec, &mut q).unwrap(), Some(msg));
        assert_eq!(q.len(), 0);
    }
}

#[test]
fn non_ascii_extension_name_round_trips() {
    // The name is decoded from its UTF-8 bytes, not copied: a two-byte
    // encoding comes back as one character.
    let msg = Request::Extension(Extension::Unknown {
        kind: "caf\u{e9}@example.com".to_string(),
        contents: vec![1],
    });
    let mut wire = Vec::new();
    encode_request_frame(&msg, &mut wire).unwrap();
    // The encoded name is 17 bytes for 16 characters.
    let mut codec = Codec::new();
    let mut q = ByteQueue::new();
    q.feed(&wire);
    let got = decode_request(&mut codec, &mut q).unwrap().unwrap();
    match got {
        Request::Extension(Extension::Unknown { kind, contents }) => {
            assert_eq!(kind, "caf\u{e9}@example.com");
            assert_eq!(kind.chars().count(), 16);
            assert_eq!(kind.len(), 17);
            assert_eq!(contents, vec![1]);
        }
        other => panic!("wrong variant: {other:?}"),
    }
}

#[test]
fn trailing_bytes_fail_and_poison() {
    // REQUEST_IDENTITIES must have an empty body.
    assert_eq!(
        parse_request(11, vec![1]),
        Err(ParseFault::Trailing)
    );
    let mut codec = Codec::new();
    let mut q = ByteQueue::new();
    q.feed(&[0, 0, 0, 2, 11, 1]);
    assert_eq!(
        decode_request(&mut codec, &mut q),
        Err(DecodeError::Malformed(ParseFault::Trailing))
    );
    q.feed(&[0, 0, 0, 1, 11]);
    assert_eq!(
        decode_request(&mut codec, &mut q),
        Err(DecodeError::FramingLost)
    );
}

#[test]
fn sign_request_missing_fields_is_insufficient() {
    // A blob length that promises more bytes than the payload holds.
    assert_eq!(
        parse_request(13, vec![0, 0, 0, 9, 1]),
        Err(ParseFault::Insufficient)
    );
}

#[test]
fn bad_boolean_octet_is_rejected() {
    // add-upstream-v2 with path "x" and boolean octet 2.
    let name = b"add-upstream-v2@nemo157.com";
    let mut payload = Vec::new();
    payload.extend_from_slice(&(name.len() as u32).to_be_bytes());
    payload.extend_from_slice(name);
    payload.extend_from_slice(&1u32.to_be_bytes());
    payload.push(b'x');
    payload.push(2);
    assert_eq!(parse_request(27, payload), Err(ParseFault::InvalidBool));
}

#[test]
fn bad_utf8_extension_name_is_rejected() {
    let mut payload = Vec::new();
    payload.extend_from_slice(&2u32.to_be_bytes());
    payload.push(0xff);
    payload.push(0xfe);
    assert_eq!(parse_request(27, payload), Err(ParseFault::InvalidUtf8));
}

#[test]
fn truncated_identities_list_is_insufficient() {
    // The count promises two keys but only one follows: the message must be
    // rejected rather than silently shortened.
    let mut payload = Vec::new();
    payload.extend_from_slice(&2u32.to_be_bytes());
    payload.extend_from_slice(&1u32.to_be_bytes());
    payload.push(7);
    payload.extend_from_slice(&0u32.to_be_bytes());
    assert_eq!(parse_response(12, payload), Err(ParseFault::Insufficient));
}

#[test]
fn identities_answer_exact_wire_bytes() {
    // 12 || n=1 || blob "ab" || comment "c", framed.
    let msg = Response::Identities {
        keys: vec![PublicKey {
            blob: vec![b'a', b'b'],
            comment: vec![b'c'],
        }],
    };
    let mut wire = Vec::new();
    encode_response_frame(&msg, &mut wire).unwrap();
    assert_eq!(
        wire,
        vec![
            0, 0, 0, 16, // frame length: 1 type byte + 15 payload bytes
            12, // IDENTITIES_ANSWER
            0, 0, 0, 1, // one key
            0, 0, 0, 2, b'a', b'b', // blob
            0, 0, 0, 1, b'c', // comment
        ]
    );
}

#[test]
fn length_estimates_are_exact() {
    let req = Request::SignRequest {
        blob: vec![1, 2],
        data: vec![3, 4, 5],
        flags: 0,
    };
    let mut wire = Vec::new();
    encode_request_frame(&req, &mut wire).unwrap();
    // The estimate covers the message, not the 4-byte frame length.
    assert_eq!(req.encoded_length_estimate(), wire.len() - 4);

    let resp = Response::Identities {
        keys: vec![PublicKey {
            blob: vec![1],
            comment: vec![2, 3],
        }],
    };
    let mut wire = Vec::new();
    encode_response_frame(&resp, &mut wire).unwrap();
    assert_eq!(resp.encoded_length_estimate(), wire.len() - 4);

    let ext = Request::Extension(Extension::AddUpstreamV2(Upstream {
        path: "/a".to_string(),
        forward_adds: false,
    }));
    let mut wire = Vec::new();
    encode_request_frame(&ext, &mut wire).unwrap();
    assert_eq!(ext.encoded_length_estimate(), wire.len() - 4);
    assert_eq!(ext.kind(), 27);
}
