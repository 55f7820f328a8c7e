use std::time::Duration;

use redis_core::resp::RESP;
use redis_core::storage::{Storage, StorageData, StorageValue};
use redis_core::storage_result::StorageError;

fn words(ws: &[&str]) -> Vec<String> {
    ws.iter().map(|w| String::from(*w)).collect()
}

#[test]
fn storage_test_create_new() {
    let storage: Storage = Storage::new();

    assert_eq!(storage.store.len(), 0);
}

#[test]
fn test_command_ping() {
    let command = vec![String::from("ping")];
    let storage: Storage = Storage::new();

    let output = storage.command_ping(&command).unwrap();

    assert_eq!(output, RESP::SimpleString(String::from("PONG")));
}

#[test]
fn test_command_ping_upppercase() {
    let command = vec![String::from("PING")];
    let storage: Storage = Storage::new();

    let output = storage.command_ping(&command).unwrap();

    assert_eq!(output, RESP::SimpleString(String::from("PONG")));
}

#[test]
fn test_command_echo() {
    let command = vec![String::from("echo"), String::from("42")];
    let storage: Storage = Storage::new();

    let output = storage.command_echo(&command).unwrap();

    assert_eq!(output, RESP::BulkString(String::from("42")));
}

#[test]
fn test_set_value() {
    let mut storage: Storage = Storage::new();
    let avalue = StorageData::from(String::from("avalue"));

    let output = storage
        .set(String::from("akey"), String::from("avalue"))
        .unwrap();

    assert_eq!(output, String::from("OK"));
    assert_eq!(storage.store.len(), 1);
    match storage.store.get(&String::from("akey")) {
        Some(value) => assert_eq!(value, &avalue),
        None => panic!(),
    }
}

#[test]
fn test_get_value() {
    let mut storage: Storage = Storage::new();
    storage.store.insert(
        String::from("akey"),
        StorageData::from(String::from("avalue")),
    );

    let result = storage.get(String::from("akey")).unwrap();

    assert_eq!(storage.store.len(), 1);
    assert_eq!(result, Some(String::from("avalue")));
}

#[test]
fn test_get_value_key_does_not_exist() {
    let storage: Storage = Storage::new();

    let result = storage.get(String::from("akey")).unwrap();

    assert_eq!(storage.store.len(), 0);
    assert_eq!(result, None);
}

#[test]
fn test_process_command_set() {
    let mut storage: Storage = Storage::new();
    let command = vec![
        String::from("set"),
        String::from("key"),
        String::from("value"),
    ];

    let output = storage.process_command(&command).unwrap();

    assert_eq!(output, RESP::SimpleString(String::from("OK")));
    assert_eq!(storage.store.len(), 1);
}

#[test]
fn test_process_command_get() {
    let mut storage: Storage = Storage::new();
    storage.store.insert(
        String::from("akey"),
        StorageData::from(String::from("avalue")),
    );
    let command = vec![String::from("get"), String::from("akey")];

    let output = storage.process_command(&command).unwrap();

    assert_eq!(output, RESP::BulkString(String::from("avalue")));
    assert_eq!(storage.store.len(), 1);
}

#[test]
fn test_read_after_write_and_last_write_wins() {
    let mut storage = Storage::new();
    storage.process_command(&words(&["SET", "k", "one"])).unwrap();
    storage.process_command(&words(&["Set", "k", "two"])).unwrap();
    storage.process_command(&words(&["set", "other", "x"])).unwrap();
    assert_eq!(
        storage.process_command(&words(&["GET", "k"])),
        Ok(RESP::BulkString(String::from("two")))
    );
    assert_eq!(
        storage.process_command(&words(&["get", "other"])),
        Ok(RESP::BulkString(String::from("x")))
    );
    assert_eq!(storage.store.len(), 2);
}

#[test]
fn test_get_missing_key_is_null() {
    let mut storage = Storage::new();
    assert_eq!(storage.process_command(&words(&["GET", "nothing"])), Ok(RESP::Null));
    assert_eq!(storage.store.len(), 0);
}

#[test]
fn test_ping_and_echo_through_process_command() {
    let mut storage = Storage::new();
    assert_eq!(
        storage.process_command(&words(&["PiNg", "ignored"])),
        Ok(RESP::SimpleString(String::from("PONG")))
    );
    assert_eq!(
        storage.process_command(&words(&["ECHO", "hello", "more"])),
        Ok(RESP::BulkString(String::from("hello")))
    );
    assert_eq!(storage.store.len(), 0);
}

#[test]
fn test_unknown_command_is_not_available() {
    let mut storage = Storage::new();
    assert_eq!(
        storage.process_command(&words(&["FLUSHALL", "x"])),
        Err(StorageError::CommandNotAvailable(String::from("FLUSHALL")))
    );
}

#[test]
fn test_wrong_arity_is_a_syntax_error() {
    let mut storage = Storage::new();
    assert_eq!(
        storage.process_command(&words(&["SET", "k"])),
        Err(StorageError::CommandSyntaxError(String::from("SET k")))
    );
    assert_eq!(
        storage.process_command(&words(&["GET", "a", "b"])),
        Err(StorageError::CommandSyntaxError(String::from("GET a b")))
    );
    assert_eq!(
        storage.process_command(&words(&["set", "k", "v", "EX", "10"])),
        Err(StorageError::CommandSyntaxError(String::from("set k v EX 10")))
    );
    assert_eq!(storage.store.len(), 0);
}

#[test]
fn test_process_named_command_uses_the_given_name() {
    let mut storage = Storage::new();
    assert_eq!(
        storage.process_named_command(&words(&["anything", "k", "v"]), &String::from("set")),
        Ok(RESP::SimpleString(String::from("OK")))
    );
    assert_eq!(storage.get(String::from("k")), Ok(Some(String::from("v"))));
}

#[test]
fn test_storage_data_equality_and_expiry() {
    let mut a = StorageData::from(String::from("v"));
    let b = StorageData::from(String::from("v"));
    assert_eq!(a, b);
    assert!(a != StorageData::from(String::from("w")));
    a.add_expiry(Duration::from_secs(5));
    assert_eq!(a.expiry, Some(Duration::from_secs(5)));
    assert!(a != b);
    let mut c = StorageData::from(String::from("v"));
    c.add_expiry(Duration::from_secs(5));
    assert_eq!(a, c);
    c.add_expiry(Duration::from_millis(5));
    assert!(a != c);
    match &a.value {
        StorageValue::String(s) => assert_eq!(s, "v"),
    }
}

#[test]
fn test_set_clears_an_expiry() {
    let mut storage = Storage::new();
    let mut d = StorageData::from(String::from("old"));
    d.add_expiry(Duration::from_secs(1));
    storage.store.insert(String::from("k"), d);
    storage.set(String::from("k"), String::from("new")).unwrap();
    assert_eq!(storage.store.get("k").unwrap().expiry, None);
}

#[test]
fn test_error_messages() {
    assert_eq!(
        StorageError::IncorrectRequest.message(),
        "The client sent an incorrect request!"
    );
    assert_eq!(
        StorageError::CommandNotAvailable(String::from("FOO")).message(),
        "The requested command FOO is not available!"
    );
    assert_eq!(
        StorageError::CommandSyntaxError(String::from("SET k")).message(),
        "Syntax error while processing SET k!"
    );
    assert_eq!(
        StorageError::CommandInternalError(String::from("GET k")).message(),
        "Syntax error while processing GET k!"
    );
}

#[test]
fn test_try_process_command() {
    let mut storage = Storage::new();
    assert_eq!(storage.try_process_command(&words(&[])), None);
    assert_eq!(storage.try_process_command(&words(&["Echo"])), None);
    assert_eq!(
        storage.try_process_command(&words(&["echo", "hi"])),
        Some(Ok(RESP::BulkString(String::from("hi"))))
    );
    assert_eq!(
        storage.try_process_command(&words(&["set", "a", "b"])),
        Some(Ok(RESP::SimpleString(String::from("OK"))))
    );
    assert_eq!(
        storage.try_process_command(&words(&["GET", "a"])),
        Some(Ok(RESP::BulkString(String::from("b"))))
    );
}

#[test]
fn test_command_names_ignore_case() {
    let pairs: [(&[&str], &[&str]); 5] = [
        (&["set", "k", "v"], &["SET", "k", "v"]),
        (&["get", "k"], &["GET", "k"]),
        (&["get", "a", "b"], &["GET", "a", "b"]),
        (&["echo", "hi"], &["ECHO", "hi"]),
        (&["flushall"], &["FLUSHALL"]),
    ];
    for (lower, upper) in pairs {
        let mut s1 = Storage::new();
        let mut s2 = Storage::new();
        s1.set(String::from("k"), String::from("old")).unwrap();
        s2.set(String::from("k"), String::from("old")).unwrap();
        let r1 = s1.process_command(&words(lower));
        let r2 = s2.process_command(&words(upper));
        match (&r1, &r2) {
            (Ok(a), Ok(b)) => assert_eq!(a, b),
            (Err(StorageError::CommandNotAvailable(_)), Err(StorageError::CommandNotAvailable(_))) => {}
            (Err(StorageError::CommandSyntaxError(_)), Err(StorageError::CommandSyntaxError(_))) => {}
            _ => panic!("{:?} {:?}", r1, r2),
        }
        assert_eq!(s1.get(String::from("k")), s2.get(String::from("k")));
        assert_eq!(s1.store.len(), s2.store.len());
    }
}
