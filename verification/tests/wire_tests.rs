use kvs::common::{GetResponse, RemoveResponse, Request, SetResponse};
use kvs::wire;

#[test]
fn request_round_trips() {
    let reqs = vec![
        Request::GetKey {
            key: "a key".to_string(),
        },
        Request::SetKey {
            key: "k\"quoted\"".to_string(),
            value: "line\nbreak".to_string(),
        },
        Request::RemoveKey {
            key: "gone".to_string(),
        },
    ];
    let mut buf: Vec<u8> = Vec::new();
    for req in &reqs {
        buf.extend_from_slice(&wire::encode_request(req));
    }
    let mut pos = 0usize;
    for req in &reqs {
        match wire::decode_request(&buf, pos) {
            wire::ReqStep::RGot { req: back, next } => {
                match (req, &back) {
                    (Request::GetKey { key }, Request::GetKey { key: k2 }) => assert_eq!(key, k2),
                    (
                        Request::SetKey { key, value },
                        Request::SetKey {
                            key: k2,
                            value: v2,
                        },
                    ) => {
                        assert_eq!(key, k2);
                        assert_eq!(value, v2);
                    }
                    (Request::RemoveKey { key }, Request::RemoveKey { key: k2 }) => {
                        assert_eq!(key, k2)
                    }
                    _ => panic!("request kind changed in flight"),
                }
                pos = next;
            }
            _ => panic!("expected a complete request"),
        }
    }
    assert_eq!(pos, buf.len());
}

#[test]
fn get_response_round_trips() {
    let cases = vec![
        GetResponse::Done(Some("va\\lue".to_string())),
        GetResponse::Done(None),
        GetResponse::Failed("Key not found".to_string()),
    ];
    for resp in &cases {
        let buf = wire::encode_get_response(resp);
        match wire::decode_get_response(&buf, 0) {
            wire::GetRespStep::GGot { resp: back, next } => {
                assert_eq!(next, buf.len());
                match (resp, &back) {
                    (GetResponse::Done(a), GetResponse::Done(b)) => assert_eq!(a, b),
                    (GetResponse::Failed(a), GetResponse::Failed(b)) => assert_eq!(a, b),
                    _ => panic!("response kind changed in flight"),
                }
            }
            _ => panic!("expected a complete response"),
        }
    }
}

#[test]
fn unit_response_round_trips() {
    let ok = wire::encode_set_response(&SetResponse::Done(()));
    match wire::decode_unit_response(&ok, 0) {
        wire::UnitRespStep::UGot { failed, next } => {
            assert!(failed.is_none());
            assert_eq!(next, ok.len());
        }
        _ => panic!("expected a complete response"),
    }
    let err = wire::encode_remove_response(&RemoveResponse::Failed("Key not found".to_string()));
    match wire::decode_unit_response(&err, 0) {
        wire::UnitRespStep::UGot { failed, next } => {
            assert_eq!(failed.as_deref(), Some("Key not found"));
            assert_eq!(next, err.len());
        }
        _ => panic!("expected a complete response"),
    }
}

#[test]
fn partial_and_bad_input() {
    let full = wire::encode_request(&Request::SetKey {
        key: "k".to_string(),
        value: "v".to_string(),
    });
    let partial: Vec<u8> = full[..full.len() - 3].to_vec();
    assert!(matches!(
        wire::decode_request(&partial, 0),
        wire::ReqStep::RMore
    ));
    let bad = b"{\"Nope\":0}".to_vec();
    assert!(matches!(wire::decode_request(&bad, 0), wire::ReqStep::RBad));
}
