use kvs::common::{GetResponse, RemoveResponse, Request, SetResponse};
use kvs::{KvServer, KvStore, Reply};

#[test]
fn serve_one_connection_in_order() {
    let store = KvStore::open(Vec::new()).unwrap();
    let mut server = KvServer::new(store);
    let requests = vec![
        Request::SetKey {
            key: "a".to_string(),
            value: "1".to_string(),
        },
        Request::GetKey {
            key: "a".to_string(),
        },
        Request::RemoveKey {
            key: "a".to_string(),
        },
        Request::GetKey {
            key: "a".to_string(),
        },
    ];
    let replies = server.serve(requests);
    assert_eq!(replies.len(), 4);
    assert!(matches!(&replies[0], Reply::OfSet(SetResponse::Done(()))));
    match &replies[1] {
        Reply::OfGet(GetResponse::Done(Some(v))) => assert_eq!(v, "1"),
        _ => panic!("expected the value back"),
    }
    assert!(matches!(
        &replies[2],
        Reply::OfRemove(RemoveResponse::Done(()))
    ));
    assert!(matches!(&replies[3], Reply::OfGet(GetResponse::Done(None))));
}

#[test]
fn engine_errors_become_error_replies() {
    let store = KvStore::open(Vec::new()).unwrap();
    let mut server = KvServer::new(store);
    let replies = server.serve(vec![Request::RemoveKey {
        key: "absent".to_string(),
    }]);
    match &replies[0] {
        Reply::OfRemove(RemoveResponse::Failed(msg)) => assert_eq!(msg, "Key not found"),
        _ => panic!("expected a failure reply"),
    }
}
