use simba::doc::Document;
use simba::doc::EngineError;
use simba::doc::WriteDocumentRequest;
use simba::doc::WriteType;
use simba::doc::CODE_ALREADY_EXISTS;
use simba::doc::CODE_ENGINE_NOT_WRITABLE;
use simba::doc::CODE_INTERNAL;
use simba::doc::CODE_NOT_FOUND;
use simba::doc::CODE_SUCCESS;
use simba::doc::CODE_VERSION_ERR;
use simba::doc::id_coding;
use simba::engine::Config;
use simba::engine::SearchDocumentRequest;
use simba::engine::Simba;
use simba::engine::WriteRaftCallback;
use simba::json::JsonValue;

fn obj1(k: &[u8], v: JsonValue) -> JsonValue {
    JsonValue::Obj(vec![(k.to_vec(), v)])
}

fn doc(id: &[u8], sort_key: &[u8], source: JsonValue) -> Document {
    Document {
        id: id.to_vec(),
        sort_key: sort_key.to_vec(),
        slot: 7,
        version: 0,
        source,
    }
}

fn leader() -> Simba {
    let mut e = Simba::new(Config { flush_sleep_sec: 3 }, false, 1, 1, 1, true);
    e.role_change(true);
    e
}

fn put(e: &mut Simba, wt: WriteType, d: Document) -> Result<(), EngineError> {
    e.write(WriteDocumentRequest {
        doc: Some(d),
        write_type: wt,
    })
}

#[test]
fn create_then_get() {
    let mut e = leader();
    put(&mut e, WriteType::Create, doc(b"a", b"", obj1(b"x", JsonValue::Int(1)))).unwrap();
    let got = e.get(&b"a".to_vec(), &b"".to_vec()).unwrap();
    assert_eq!(got.version, 1);
    assert_eq!(got.source, obj1(b"x", JsonValue::Int(1)));
}

#[test]
fn create_conflict() {
    let mut e = leader();
    put(&mut e, WriteType::Create, doc(b"a", b"", obj1(b"x", JsonValue::Int(1)))).unwrap();
    let r = put(&mut e, WriteType::Create, doc(b"a", b"", obj1(b"x", JsonValue::Int(1))));
    assert_eq!(r, Err(EngineError::AlreadyExists));
}

#[test]
fn update_with_stale_version() {
    let mut e = leader();
    put(&mut e, WriteType::Create, doc(b"a", b"", obj1(b"x", JsonValue::Int(1)))).unwrap();
    let mut d = doc(b"a", b"", obj1(b"x", JsonValue::Int(2)));
    d.version = 5;
    let r = put(&mut e, WriteType::Update, d);
    assert_eq!(r, Err(EngineError::VersionMismatch));
}

#[test]
fn update_with_matching_version() {
    let mut e = leader();
    put(&mut e, WriteType::Create, doc(b"a", b"", obj1(b"x", JsonValue::Int(1)))).unwrap();
    let mut d = doc(b"a", b"", obj1(b"x", JsonValue::Int(2)));
    d.version = 1;
    put(&mut e, WriteType::Update, d).unwrap();
    let got = e.get(&b"a".to_vec(), &b"".to_vec()).unwrap();
    assert_eq!(got.version, 2);
    assert_eq!(got.source, obj1(b"x", JsonValue::Int(2)));
}

#[test]
fn update_with_unspecified_version_is_accepted() {
    let mut e = leader();
    put(&mut e, WriteType::Create, doc(b"a", b"", obj1(b"x", JsonValue::Int(1)))).unwrap();
    let d = doc(b"a", b"", obj1(b"x", JsonValue::Int(3)));
    put(&mut e, WriteType::Update, d).unwrap();
    let got = e.get(&b"a".to_vec(), &b"".to_vec()).unwrap();
    assert_eq!(got.version, 2);
}

#[test]
fn update_absent_not_found() {
    let mut e = leader();
    let r = put(&mut e, WriteType::Update, doc(b"nope", b"", JsonValue::Null));
    assert_eq!(r, Err(EngineError::NotFound));
}

#[test]
fn upsert_merge() {
    let mut e = leader();
    put(&mut e, WriteType::Upsert, doc(b"b", b"", obj1(b"x", JsonValue::Int(1)))).unwrap();
    put(&mut e, WriteType::Upsert, doc(b"b", b"", obj1(b"y", JsonValue::Int(2)))).unwrap();
    let got = e.get(&b"b".to_vec(), &b"".to_vec()).unwrap();
    assert_eq!(got.version, 2);
    assert!(got.source.top_get(&b"x".to_vec()).is_some());
    assert!(got.source.top_get(&b"y".to_vec()).is_some());
}

#[test]
fn delete_then_get() {
    let mut e = leader();
    put(&mut e, WriteType::Create, doc(b"a", b"", obj1(b"x", JsonValue::Int(1)))).unwrap();
    put(&mut e, WriteType::Delete, doc(b"a", b"", JsonValue::Null)).unwrap();
    let r = e.get(&b"a".to_vec(), &b"".to_vec());
    assert_eq!(r, Err(EngineError::NotFound));
}

#[test]
fn delete_absent_is_accepted() {
    let mut e = leader();
    assert!(put(&mut e, WriteType::Delete, doc(b"ghost", b"", JsonValue::Null)).is_ok());
}

#[test]
fn overwrite_resets_version() {
    let mut e = leader();
    put(&mut e, WriteType::Upsert, doc(b"a", b"", obj1(b"x", JsonValue::Int(1)))).unwrap();
    put(&mut e, WriteType::Upsert, doc(b"a", b"", obj1(b"x", JsonValue::Int(2)))).unwrap();
    put(&mut e, WriteType::Overwrite, doc(b"a", b"", obj1(b"x", JsonValue::Int(9)))).unwrap();
    let got = e.get(&b"a".to_vec(), &b"".to_vec()).unwrap();
    assert_eq!(got.version, 1);
    assert_eq!(got.source, obj1(b"x", JsonValue::Int(9)));
}

#[test]
fn writability_gating() {
    let mut e = Simba::new(Config { flush_sleep_sec: 3 }, false, 1, 1, 1, false);
    let r = put(&mut e, WriteType::Create, doc(b"a", b"", JsonValue::Null));
    assert_eq!(r, Err(EngineError::EngineNotWritable));
    e.role_change(true);
    assert!(put(&mut e, WriteType::Create, doc(b"a", b"", JsonValue::Null)).is_ok());
    e.role_change(false);
    let r = put(&mut e, WriteType::Create, doc(b"c", b"", JsonValue::Null));
    assert_eq!(r, Err(EngineError::EngineNotWritable));
}

#[test]
fn readonly_refuses_writes() {
    let mut e = Simba::new(Config { flush_sleep_sec: 3 }, true, 1, 1, 1, false);
    assert!(e.readonly());
    e.role_change(true);
    let r = put(&mut e, WriteType::Create, doc(b"a", b"", JsonValue::Null));
    assert_eq!(r, Err(EngineError::EngineNotWritable));
}

#[test]
fn flush_advances_persisted_sn() {
    let mut e = leader();
    put(&mut e, WriteType::Create, doc(b"a", b"", JsonValue::Null)).unwrap();
    put(&mut e, WriteType::Create, doc(b"b", b"", JsonValue::Null)).unwrap();
    assert_eq!(e.get_sn(), 2);
    assert!(e.kv_sn < 2);
    e.flush_tick();
    assert_eq!(e.kv_sn, e.get_sn());
    assert_eq!(e.index_sn, e.get_sn());
}

#[test]
fn role_change_replay() {
    let mut e = leader();
    for i in 0..100u32 {
        let id = format!("doc{}", i).into_bytes();
        let mut d = doc(&id, b"", obj1(b"x", JsonValue::Int(i as i64)));
        d.slot = i;
        put(&mut e, WriteType::Create, d).unwrap();
    }
    e.flush_tick();
    e.role_change(false);
    let r = put(&mut e, WriteType::Create, doc(b"z", b"", JsonValue::Null));
    assert_eq!(r, Err(EngineError::EngineNotWritable));
    e.role_change(true);
    let (kv_count, index_count) = e.count();
    assert_eq!(kv_count, 100);
    assert_eq!(index_count, 100);
    let got = e.get(&b"doc42".to_vec(), &b"".to_vec()).unwrap();
    assert_eq!(got.version, 1);
}

#[test]
fn role_change_is_idempotent() {
    let mut e = leader();
    put(&mut e, WriteType::Create, doc(b"a", b"", JsonValue::Null)).unwrap();
    e.role_change(true);
    e.role_change(true);
    let (kv_count, index_count) = e.count();
    assert_eq!(kv_count, 1);
    assert_eq!(index_count, 1);
}

#[test]
fn replay_skips_by_watermark() {
    let mut e = leader();
    put(&mut e, WriteType::Create, doc(b"a", b"", obj1(b"x", JsonValue::Int(1)))).unwrap();
    e.flush_tick();
    put(&mut e, WriteType::Upsert, doc(b"a", b"", obj1(b"y", JsonValue::Int(2)))).unwrap();
    put(&mut e, WriteType::Create, doc(b"b", b"", JsonValue::Null)).unwrap();
    e.role_change(false);
    e.role_change(true);
    let got = e.get(&b"a".to_vec(), &b"".to_vec()).unwrap();
    assert_eq!(got.version, 2);
    let (kv_count, _) = e.count();
    assert_eq!(kv_count, 2);
}

#[test]
fn search_by_top_level_key() {
    let mut e = leader();
    put(&mut e, WriteType::Create, doc(b"a", b"", obj1(b"x", JsonValue::Int(1)))).unwrap();
    put(&mut e, WriteType::Create, doc(b"b", b"", obj1(b"y", JsonValue::Int(2)))).unwrap();
    let r = e.search(&SearchDocumentRequest { query_key: b"x".to_vec() });
    assert_eq!(r.code, CODE_SUCCESS);
    assert_eq!(r.total, 1);
    assert_eq!(r.hits, vec![id_coding(&b"a".to_vec(), &b"".to_vec())]);
    let none = e.search(&SearchDocumentRequest { query_key: b"zz".to_vec() });
    assert_eq!(none.total, 0);
}

#[test]
fn search_while_follower_reports_error() {
    let mut e = leader();
    e.role_change(false);
    let r = e.search(&SearchDocumentRequest { query_key: b"x".to_vec() });
    assert_eq!(r.code, CODE_INTERNAL);
    assert_eq!(r.total, 0);
    assert!(r.hits.is_empty());
    assert_eq!(r.info.unwrap().error, 1);
}

#[test]
fn stop_and_release() {
    let mut e = leader();
    e.stop();
    assert!(e.stopped);
    e.release();
    assert!(!e.started);
    let r = put(&mut e, WriteType::Create, doc(b"a", b"", JsonValue::Null));
    assert_eq!(r, Err(EngineError::EngineNotWritable));
}

#[test]
fn set_sn_if_max_is_monotonic() {
    let mut e = leader();
    put(&mut e, WriteType::Create, doc(b"a", b"", JsonValue::Null)).unwrap();
    put(&mut e, WriteType::Create, doc(b"b", b"", JsonValue::Null)).unwrap();
    assert_eq!(e.get_sn(), 2);
    e.set_sn_if_max(1);
    assert_eq!(e.get_sn(), 2);
    e.set_sn_if_max(2);
    assert_eq!(e.get_sn(), 2);
}

#[test]
fn error_codes_are_stable() {
    assert_eq!(EngineError::NotFound.code(), CODE_NOT_FOUND);
    assert_eq!(EngineError::AlreadyExists.code(), CODE_ALREADY_EXISTS);
    assert_eq!(EngineError::VersionMismatch.code(), CODE_VERSION_ERR);
    assert_eq!(EngineError::EngineNotWritable.code(), CODE_ENGINE_NOT_WRITABLE);
    assert_eq!(EngineError::Internal.code(), CODE_INTERNAL);
}

#[test]
fn commit_callback_counts_down() {
    let mut cb = WriteRaftCallback::new(1);
    assert!(!cb.done());
    cb.call();
    assert!(cb.done());
    cb.call();
    assert!(cb.done());
}

#[test]
fn default_config_flushes_every_three_seconds() {
    let c: Config = Default::default();
    assert_eq!(c.flush_sleep_sec, 3);
}

#[test]
fn version_counts_accepted_writes() {
    let mut e = leader();
    for i in 0..10u32 {
        put(
            &mut e,
            WriteType::Upsert,
            doc(b"k", b"s", obj1(b"n", JsonValue::Int(i as i64))),
        )
        .unwrap();
    }
    let got = e.get(&b"k".to_vec(), &b"s".to_vec()).unwrap();
    assert_eq!(got.version, 10);
}
