use bee_api::codec::encode;
use bee_api::crud::{
    create_puzzle, create_step, decode_all, delete_puzzle, read_puzzle, read_puzzles, resume,
    update_puzzle, Outcome, Session, Step,
};
use bee_api::puzzle::{key_for_id, PartialPuzzle, Puzzle, Timestamp};
use bee_api::store::{ApiError, Command, Reply};
use std::collections::BTreeMap;

type Store = BTreeMap<String, Vec<u8>>;

fn answer(store: &mut Store, command: Command, log: &mut Vec<String>) -> Reply {
    match command {
        Command::Put { key, value } => {
            log.push(format!("put {}", key));
            store.insert(key, value);
            Reply::Done
        }
        Command::Exists { key } => Reply::Flag(store.contains_key(&key)),
        Command::Get { key } => Reply::Value(store.get(&key).cloned()),
        Command::Delete { key } => {
            log.push(format!("del {}", key));
            store.remove(&key);
            Reply::Done
        }
        Command::Keys { pattern } => {
            let prefix = pattern.trim_end_matches('*');
            Reply::Keys(store.keys().filter(|k| k.starts_with(prefix)).cloned().collect())
        }
        Command::MultiGet { keys } => Reply::Values(keys.iter().map(|k| store.get(k).cloned()).collect()),
    }
}

fn drive(store: &mut Store, mut step: Step, log: &mut Vec<String>) -> Result<Outcome, ApiError> {
    loop {
        match step {
            Step::Call { session, command } => {
                let reply = answer(store, command, log);
                step = resume(session, reply);
            }
            Step::Done(result) => return result,
        }
    }
}

fn texts(items: &[&str]) -> Vec<String> {
    items.iter().map(|s| s.to_string()).collect()
}

fn daily() -> PartialPuzzle {
    PartialPuzzle {
        name: "Daily".to_string(),
        released_at: None,
        words: texts(&["bee", "eel"]),
        letters: texts(&["b", "e", "l"]),
        middle: "e".to_string(),
        language: "en".to_string(),
    }
}

fn one(result: Result<Outcome, ApiError>) -> Puzzle {
    match result {
        Ok(Outcome::Puzzle(p)) => p,
        other => panic!("expected one puzzle, got {:?}", other),
    }
}

fn many(result: Result<Outcome, ApiError>) -> Vec<Puzzle> {
    match result {
        Ok(Outcome::Puzzles(ps)) => ps,
        other => panic!("expected puzzles, got {:?}", other),
    }
}

fn is_not_found(result: &Result<Outcome, ApiError>, id: u128) -> bool {
    match result {
        Err(ApiError::NotFound { key }) => *key == key_for_id(id),
        _ => false,
    }
}

#[test]
fn daily_puzzle_lifecycle() {
    let mut store = Store::new();
    let mut log = Vec::new();
    let created = one(drive(&mut store, create_puzzle(daily()), &mut log));
    assert_eq!(created.created_at, created.updated_at);
    assert_eq!(created.name, "Daily");
    assert_eq!(store.len(), 1);

    let read = one(drive(&mut store, read_puzzle(created.id), &mut log));
    assert_eq!(encode(&read), encode(&created));

    let mut changed = created.clone();
    changed.words = texts(&["bee"]);
    let updated = one(drive(&mut store, update_puzzle(created.id, changed), &mut log));
    assert_eq!(updated.words, texts(&["bee"]));
    let reread = one(drive(&mut store, read_puzzle(created.id), &mut log));
    assert_eq!(reread.words, texts(&["bee"]));
    assert_eq!(reread.id, created.id);

    let deleted = drive(&mut store, delete_puzzle(created.id), &mut log);
    assert!(matches!(deleted, Ok(Outcome::Deleted)));
    let gone = drive(&mut store, read_puzzle(created.id), &mut log);
    assert!(is_not_found(&gone, created.id));
}

#[test]
fn create_then_read_gives_same_record() {
    let mut store = Store::new();
    let mut log = Vec::new();
    let created = one(drive(&mut store, create_puzzle(daily()), &mut log));
    let read = one(drive(&mut store, read_puzzle(created.id), &mut log));
    assert_eq!(read.id, created.id);
    assert_eq!(read.created_at, created.created_at);
    assert_eq!(read.words, created.words);
    assert_eq!(read.letters, created.letters);
    assert_eq!(read.language, created.language);
}

#[test]
fn unknown_identity_is_not_found_everywhere() {
    let mut store = Store::new();
    let mut log = Vec::new();
    drive(&mut store, create_puzzle(daily()), &mut log).unwrap();
    let before = store.clone();
    let x: u128 = 99;
    assert!(is_not_found(&drive(&mut store, read_puzzle(x), &mut log), x));
    let body = Puzzle::from_partial_at(daily(), x, Timestamp { secs: 1, nanos: 0 });
    assert!(is_not_found(&drive(&mut store, update_puzzle(x, body), &mut log), x));
    assert!(is_not_found(&drive(&mut store, delete_puzzle(x), &mut log), x));
    assert_eq!(store, before);
}

#[test]
fn mismatched_update_is_bad_request_without_store_calls() {
    let body = Puzzle::from_partial_at(daily(), 5, Timestamp { secs: 1, nanos: 0 });
    match update_puzzle(6, body) {
        Step::Done(Err(ApiError::BadRequest { path_id, body_id })) => {
            assert_eq!(path_id, 6);
            assert_eq!(body_id, 5);
        }
        other => panic!("expected a bad request, got {:?}", other),
    }
}

#[test]
fn update_writes_under_its_key_only_when_present() {
    let mut store = Store::new();
    let mut log = Vec::new();
    let created = one(drive(&mut store, create_puzzle(daily()), &mut log));
    log.clear();
    drive(&mut store, update_puzzle(created.id, created.clone()), &mut log).unwrap();
    assert_eq!(log, vec![format!("put {}", key_for_id(created.id))]);
}

#[test]
fn list_counts_zero_one_and_many() {
    let mut store = Store::new();
    let mut log = Vec::new();
    assert_eq!(many(drive(&mut store, read_puzzles(), &mut log)).len(), 0);
    drive(&mut store, create_puzzle(daily()), &mut log).unwrap();
    assert_eq!(many(drive(&mut store, read_puzzles(), &mut log)).len(), 1);
    for _ in 0..4 {
        drive(&mut store, create_puzzle(daily()), &mut log).unwrap();
    }
    store.insert("other:1".to_string(), vec![1, 2, 3]);
    let all = many(drive(&mut store, read_puzzles(), &mut log));
    assert_eq!(all.len(), 5);
    let keys: Vec<String> = store.keys().filter(|k| k.starts_with("puzzle:")).cloned().collect();
    let listed: Vec<String> = all.iter().map(|p| p.to_key()).collect();
    assert_eq!(listed, keys);
}

#[test]
fn list_fails_on_foreign_bytes_in_namespace() {
    let mut store = Store::new();
    let mut log = Vec::new();
    drive(&mut store, create_puzzle(daily()), &mut log).unwrap();
    store.insert("puzzle:junk".to_string(), b"{}".to_vec());
    let r = drive(&mut store, read_puzzles(), &mut log);
    assert!(matches!(r, Err(ApiError::Store)));
}

#[test]
fn store_failure_ends_any_operation() {
    let step = read_puzzle(1);
    match step {
        Step::Call { session, command } => {
            assert!(matches!(command, Command::Exists { .. }));
            assert!(matches!(resume(session, Reply::Failed), Step::Done(Err(ApiError::Store))));
        }
        _ => panic!("a read starts with a call"),
    }
}

#[test]
fn vanished_value_is_store_error() {
    let r = resume(Session::ReadFetching { key: key_for_id(1) }, Reply::Value(None));
    assert!(matches!(r, Step::Done(Err(ApiError::Store))));
}

#[test]
fn create_step_puts_encoding_under_key() {
    let p = Puzzle::from_partial_at(daily(), 3, Timestamp { secs: 4, nanos: 5 });
    let expected = encode(&p);
    match create_step(p) {
        Step::Call { command: Command::Put { key, value }, .. } => {
            assert_eq!(key, key_for_id(3));
            assert_eq!(value, expected);
        }
        other => panic!("expected a put, got {:?}", other),
    }
}

#[test]
fn list_pattern_is_puzzle_glob() {
    match read_puzzles() {
        Step::Call { command: Command::Keys { pattern }, .. } => assert_eq!(pattern, "puzzle:*"),
        other => panic!("expected a key listing, got {:?}", other),
    }
}

#[test]
fn decode_all_keeps_order_and_fails_on_missing() {
    let a = Puzzle::from_partial_at(daily(), 1, Timestamp { secs: 1, nanos: 0 });
    let b = Puzzle::from_partial_at(daily(), 2, Timestamp { secs: 2, nanos: 0 });
    let ps = decode_all(vec![Some(encode(&b)), Some(encode(&a))]).unwrap();
    assert_eq!(ps[0].id, 2);
    assert_eq!(ps[1].id, 1);
    assert!(decode_all(vec![Some(encode(&a)), None]).is_none());
    assert_eq!(decode_all(Vec::new()).unwrap().len(), 0);
}
