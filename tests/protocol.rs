use trash_db::cli::{client_outcome, Commands};
use trash_db::engines::{
    get_outcome, remove_outcome, select_engine, set_outcome, Engine, EngineChoice, KvsEngine,
    SledKvsEngine,
};
use trash_db::protocol::{KvsCommands, KvsResponse, MessageBuffer, MESSAGE_SIZE};
use trash_db::server::{engine_call, handle_command, unit_outcome, EngineCall};
use trash_db::KvError;

#[test]
fn engine_selection() {
    assert_eq!(select_engine(None, None), Ok(EngineChoice { engine: Engine::Kvs, record: true }));
    assert_eq!(
        select_engine(None, Some(Engine::Sled)),
        Ok(EngineChoice { engine: Engine::Sled, record: true })
    );
    assert_eq!(
        select_engine(Some(Engine::Sled), None),
        Ok(EngineChoice { engine: Engine::Sled, record: false })
    );
    assert_eq!(
        select_engine(Some(Engine::Kvs), Some(Engine::Kvs)),
        Ok(EngineChoice { engine: Engine::Kvs, record: false })
    );
    assert_eq!(select_engine(Some(Engine::Kvs), Some(Engine::Sled)), Err(KvError::EngineMismatch));
}

#[test]
fn message_framing() {
    let mut buf = MessageBuffer::new();
    let full = [b'a'; MESSAGE_SIZE];
    assert!(!buf.push_chunk(&full, MESSAGE_SIZE));
    let mut tail = [0u8; MESSAGE_SIZE];
    tail[0] = b'b';
    tail[1] = b'c';
    assert!(buf.push_chunk(&tail, 5));
    let payload = buf.payload();
    assert_eq!(payload.len(), MESSAGE_SIZE + 2);
    assert_eq!(&payload[MESSAGE_SIZE..], b"bc");
}

#[test]
fn responses() {
    assert!(matches!(KvsResponse::from_outcome(Ok(Some("v".to_string()))), KvsResponse::Success(Some(v)) if v == "v"));
    assert!(matches!(KvsResponse::from_outcome(Ok(None)), KvsResponse::Success(None)));
    assert!(matches!(KvsResponse::from_outcome(Err(KvError::KeyNotFound)), KvsResponse::Failure(m) if m == "Key not found"));
    assert_eq!(unit_outcome(Ok(())), Ok(None));
    assert_eq!(unit_outcome(Err(KvError::Io)), Err(KvError::Io));
}

#[test]
fn client_output() {
    let get = Commands::Get { key: "k".to_string() };
    let rm = Commands::Rm { key: "k".to_string() };
    let o = client_outcome(&get, KvsResponse::Success(Some("v".to_string())));
    assert_eq!((o.stdout, o.stderr, o.exit_code), (Some("v".to_string()), None, 0));
    let o = client_outcome(&get, KvsResponse::Success(None));
    assert_eq!((o.stdout, o.stderr, o.exit_code), (Some("Key not found".to_string()), None, 0));
    let o = client_outcome(&rm, KvsResponse::Failure("Key not found".to_string()));
    assert_eq!((o.stdout, o.stderr, o.exit_code), (None, Some("Key not found".to_string()), 1));
    let o = client_outcome(&rm, KvsResponse::Success(None));
    assert_eq!((o.stdout, o.stderr, o.exit_code), (None, None, 0));
    assert!(matches!(get.request(), KvsCommands::Get { key } if key == "k"));
}

#[test]
fn sled_engine_round_trip() {
    let engine = SledKvsEngine::open("/tmp/trash_db_sled_round_trip").unwrap();
    let _ = engine.remove("k".to_string());
    assert_eq!(engine.get("k".to_string()), Ok(None));
    engine.set("k".to_string(), "v é".to_string()).unwrap();
    assert_eq!(engine.get("k".to_string()), Ok(Some("v é".to_string())));
    let r = handle_command(&engine, KvsCommands::Get { key: "k".to_string() });
    assert!(matches!(r, KvsResponse::Success(Some(v)) if v == "v é"));
    assert_eq!(engine.remove("k".to_string()), Ok(()));
    assert_eq!(engine.remove("k".to_string()), Err(KvError::KeyNotFound));
    let r = handle_command(&engine, KvsCommands::Rm { key: "k".to_string() });
    assert!(matches!(r, KvsResponse::Failure(m) if m == "Key not found"));
}

#[test]
fn engine_calls_carry_the_request() {
    let put = KvsCommands::Put { key: "k".to_string(), value: "v".to_string() };
    assert!(matches!(engine_call(put), EngineCall::Write { key, value } if key == "k" && value == "v"));
    let get = KvsCommands::Get { key: "g".to_string() };
    assert!(matches!(engine_call(get), EngineCall::Get { key } if key == "g"));
    let rm = KvsCommands::Rm { key: "r".to_string() };
    assert!(matches!(engine_call(rm), EngineCall::Remove { key } if key == "r"));
}

#[test]
fn sled_outcomes() {
    assert_eq!(get_outcome(None), Err(KvError::Io));
    assert_eq!(get_outcome(Some(None)), Ok(None));
    assert_eq!(get_outcome(Some(Some(vec![0xC3, 0xA9]))), Ok(Some("é".to_string())));
    assert_eq!(get_outcome(Some(Some(vec![0xFF]))), Err(KvError::Corruption));
    assert_eq!(set_outcome(true, true), Ok(()));
    assert_eq!(set_outcome(true, false), Err(KvError::Io));
    assert_eq!(set_outcome(false, false), Err(KvError::Io));
    assert_eq!(remove_outcome(Some(true), true), Ok(()));
    assert_eq!(remove_outcome(Some(true), false), Err(KvError::Io));
    assert_eq!(remove_outcome(Some(false), false), Err(KvError::KeyNotFound));
    assert_eq!(remove_outcome(None, false), Err(KvError::Io));
}
