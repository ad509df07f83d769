use kvs::client::{get_result, remove_result, set_result, ClientError};
use kvs::kv::command::KVCommand;
use kvs::server::{
    dispatch, get_response, remove_response, select_engine, set_response, ErrorType, Reply,
    ServerResponse, StorageEngine,
};
use kvs::util::OffsetVec;
use kvs::{KVError, KvStore, KvsEngine};

#[test]
fn wire_scenario_set_then_get_over_two_connections() {
    let mut kv = KvStore::open(Vec::new()).unwrap();
    let r1 = dispatch(&mut kv, KVCommand::Put { key: "x".to_string(), value: "9".to_string() });
    assert!(matches!(r1, Reply::Done(ServerResponse::Success(()))));
    let r2 = dispatch(&mut kv, KVCommand::Get { key: "x".to_string() });
    match r2 {
        Reply::Value(resp) => assert_eq!(resp, ServerResponse::Success(Some("9".to_string()))),
        Reply::Done(_) => panic!("a get answers with a value"),
    }
}

#[test]
fn wire_remove_of_missing_key_is_key_not_found() {
    let mut kv = KvStore::open(Vec::new()).unwrap();
    let r = dispatch(&mut kv, KVCommand::Rm { key: "nope".to_string() });
    assert!(matches!(r, Reply::Done(ServerResponse::Error(ErrorType::KeyNotFound))));
}

#[test]
fn responses_collapse_errors() {
    assert_eq!(get_response(Ok(None)), ServerResponse::Success(None));
    assert_eq!(
        get_response(Err(KVError::ReadError("r"))),
        ServerResponse::Error(ErrorType::OperationError)
    );
    assert_eq!(set_response(Ok(())), ServerResponse::Success(()));
    assert_eq!(
        set_response(Err(KVError::WriteError("w"))),
        ServerResponse::Error(ErrorType::OperationError)
    );
    assert_eq!(
        remove_response(Err(KVError::KeyNotFound("k"))),
        ServerResponse::Error(ErrorType::KeyNotFound)
    );
    assert_eq!(
        remove_response(Err(KVError::IOError("io"))),
        ServerResponse::Error(ErrorType::OperationError)
    );
}

#[test]
fn client_maps_responses() {
    assert_eq!(get_result(Some(ServerResponse::Success(Some("v".to_string())))), Ok(Some("v".to_string())));
    assert!(matches!(get_result(None), Err(ClientError::OperationError(_))));
    assert_eq!(set_result(Some(ServerResponse::Success(()))), Ok(()));
    assert!(matches!(
        set_result(Some(ServerResponse::Error(ErrorType::OperationError))),
        Err(ClientError::OperationError(_))
    ));
    assert!(matches!(
        remove_result(Some(ServerResponse::Error(ErrorType::KeyNotFound))),
        Err(ClientError::KeyNotFound(_))
    ));
}

#[test]
fn engine_selection_follows_metadata() {
    assert_eq!(select_engine(None, None).unwrap(), (StorageEngine::Kv, true));
    assert_eq!(select_engine(Some(StorageEngine::Sled), Some(StorageEngine::Sled)).unwrap(), (StorageEngine::Sled, false));
    assert!(select_engine(Some(StorageEngine::Sled), Some(StorageEngine::Kv)).is_err());
    assert!(select_engine(None, Some(StorageEngine::Sled)).is_err());
}

#[test]
fn offset_vec_addresses_from_offset() {
    let mut v: OffsetVec<u32> = OffsetVec::new(10);
    assert_eq!(v.next_index(), 10);
    assert!(v.first().is_none());
    assert_eq!(v.push(7), 10);
    assert_eq!(v.push(8), 11);
    assert_eq!(*v.get(11), 8);
    v.set(10, 5);
    assert_eq!(v.first(), Some((10, &5)));
    assert_eq!(v.last(), Some((11, &8)));
    assert_eq!(v.iter(), &[5, 8]);
    assert_eq!(v.iter_offset(), vec![(10, &5), (11, &8)]);
    assert_eq!(v.pop(), Some(8));
    assert_eq!(v.next_index(), 11);
}

#[test]
fn config_defaults() {
    let c = kvs::kv::config::Config::default();
    assert_eq!(c.db_dir, ".");
    assert_eq!(c.file_size, 4_000_000);
    assert_eq!(c.merge_size, 10_000);
}

#[test]
fn engine_name_is_kvs() {
    let kv = KvStore::open(Vec::new()).unwrap();
    assert_eq!(KvsEngine::name(&kv), "kvs");
}
