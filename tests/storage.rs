use kvs::kv::codec::{decode_record, encode_record};
use kvs::kv::storage::{parse_serial, FileAction, LogStorage};
use kvs::kv::Operation;

#[test]
fn record_encoding_matches_json_layout() {
    let op = Operation::Put("a".to_string(), "1".to_string());
    assert_eq!(encode_record(&op), b"{\"Set\":[\"a\",\"1\"]}".to_vec());
    let op = Operation::Remove("a\"b".to_string());
    assert_eq!(encode_record(&op), b"{\"Remove\":\"a\\\"b\"}".to_vec());
    let op = Operation::Put("\u{1}".to_string(), "\n".to_string());
    assert_eq!(encode_record(&op), b"{\"Set\":[\"\\u0001\",\"\\n\"]}".to_vec());
}

#[test]
fn record_decoding_reads_one_record() {
    let bytes = b"{\"Set\":[\"k\\/\\u0041\",\"v\"]}{\"Get\":\"z\"}".to_vec();
    let (op, end) = decode_record(&bytes, 0).unwrap();
    match op {
        Operation::Put(k, v) => {
            assert_eq!(k, "k/A");
            assert_eq!(v, "v");
        }
        _ => panic!("expected a Set record"),
    }
    let (op, end2) = decode_record(&bytes, end).unwrap();
    assert!(matches!(op, Operation::Get(k) if k == "z"));
    assert_eq!(end2, bytes.len());
    assert!(decode_record(b"{\"Set\":[\"k\"]}", 0).is_none());
}

#[test]
fn serial_names_parse() {
    assert_eq!(parse_serial("0"), Some(0));
    assert_eq!(parse_serial("1234"), Some(1234));
    assert_eq!(parse_serial(""), None);
    assert_eq!(parse_serial("+1"), None);
    assert_eq!(parse_serial("12a"), None);
    assert_eq!(parse_serial("99999999999999999999999"), None);
}

#[test]
fn rotation_creates_new_segment_and_old_records_stay_readable() {
    let mut st = LogStorage::new_empty(0, 100);
    let op = Operation::Put("key".to_string(), "x".repeat(40));
    let p1 = st.write(&op).unwrap();
    let p2 = st.write(&op).unwrap();
    assert_eq!(p1.file_serial, 0);
    assert_eq!(p2.file_serial, 1);
    assert_eq!(p2.offset, 0);
    assert!(matches!(p1.read(&st).unwrap(), Operation::Put(k, _) if k == "key"));
    assert_eq!(st.iter_read_files(), vec![0, 1]);
    let size = encode_record(&op).len();
    assert_eq!(st.storage_size(), 2 * size);
    let actions = st.take_actions();
    assert!(matches!(actions[0], FileAction::Create(0)));
    assert!(matches!(actions[1], FileAction::Append(0, _)));
    assert!(matches!(actions[2], FileAction::Create(1)));
}

#[test]
fn merge_drops_listed_segments() {
    let mut st = LogStorage::new_empty(0, 1000);
    let op = Operation::Put("a".to_string(), "1".to_string());
    st.write(&op).unwrap();
    st.write(&op).unwrap();
    let ptrs = st.merge(&vec![0], &vec![op]).unwrap();
    assert_eq!(ptrs.len(), 1);
    assert_eq!(ptrs[0].file_serial, 1);
    assert_eq!(st.iter_read_files(), vec![1]);
    assert!(matches!(ptrs[0].read(&st).unwrap(), Operation::Put(k, v) if k == "a" && v == "1"));
}

#[test]
fn load_takes_over_segments() {
    let files = vec![
        ("4".to_string(), b"{\"Set\":[\"a\",\"1\"]}".to_vec()),
        ("1".to_string(), Vec::new()),
    ];
    let st = LogStorage::load(files, 4000).unwrap();
    assert_eq!(st.iter_read_files(), vec![1, 4, 5]);
    assert_eq!(st.storage_size(), 17);
    let dup = vec![("1".to_string(), Vec::new()), ("01".to_string(), Vec::new())];
    assert!(LogStorage::load(dup, 4000).is_err());
}

#[test]
fn pointer_to_missing_segment_is_read_error() {
    let st = LogStorage::new_empty(0, 100);
    let p = kvs::kv::storage::LogPointer { file_serial: 7, offset: 0 };
    assert!(matches!(p.read(&st), Err(kvs::KVError::ReadError(_))));
}

#[test]
fn pointer_into_garbage_is_parse_error() {
    let files = vec![("0".to_string(), b"{\"Set\":[\"a\",\"1\"]}".to_vec())];
    let st = LogStorage::load(files, 4000).unwrap();
    let p = kvs::kv::storage::LogPointer { file_serial: 0, offset: 3 };
    assert!(matches!(p.read(&st), Err(kvs::KVError::ParseError(_))));
}

#[test]
fn load_refuses_exhausted_serials() {
    let files = vec![(usize::MAX.to_string(), Vec::new())];
    assert!(matches!(LogStorage::load(files, 4000), Err(kvs::KVError::IOError(_))));
}

#[test]
fn write_iter_returns_pointers_in_order() {
    let mut st = LogStorage::new_empty(3, 4000);
    let ops = vec![
        Operation::Put("a".to_string(), "1".to_string()),
        Operation::Remove("a".to_string()),
    ];
    let ptrs = st.write_iter(&ops).unwrap();
    assert_eq!(ptrs.len(), 2);
    assert_eq!(ptrs[0].offset, 0);
    assert_eq!(ptrs[1].offset, encode_record(&ops[0]).len());
    assert!(matches!(ptrs[1].read(&st).unwrap(), Operation::Remove(k) if k == "a"));
    let entries = st.iter_entries().unwrap();
    assert_eq!(entries.len(), 2);
    assert_eq!(entries[1].0, ptrs[1]);
}

#[test]
fn pointer_past_segment_end_is_read_error() {
    let files = vec![("0".to_string(), b"{\"Set\":[\"a\",\"1\"]}".to_vec())];
    let st = LogStorage::load(files, 4000).unwrap();
    let p = kvs::kv::storage::LogPointer { file_serial: 0, offset: 17 };
    assert!(matches!(p.read(&st), Err(kvs::KVError::ReadError(_))));
}
