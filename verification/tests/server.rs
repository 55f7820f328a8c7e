use redis_core::request::Request;
use redis_core::resp::RESP;
use redis_core::server::{process_request, request_command, try_process_request, Server};
use redis_core::storage::Storage;

#[test]
fn server_test_create_new() {
    let server: Server = Server::new();

    match server.storage {
        Some(_) => panic!(),
        None => (),
    };
}

#[test]
fn test_set_storage() {
    let storage = Storage::new();

    let mut server: Server = Server::new();
    server.set_storage(storage);

    match server.storage {
        Some(_) => (),
        None => panic!(),
    };
}

fn bulk(s: &str) -> RESP {
    RESP::BulkString(String::from(s))
}

fn request(words: &[&str]) -> Request<()> {
    Request { value: RESP::Array(words.iter().map(|w| bulk(w)).collect()), sender: () }
}

fn server_with_storage() -> Server {
    let mut server = Server::new();
    server.set_storage(Storage::new());
    server
}

#[test]
fn test_request_command_of_bulk_strings() {
    let value = RESP::Array(vec![bulk("SET"), bulk("k"), bulk("v")]);
    assert_eq!(
        request_command(&value),
        Some(vec![String::from("SET"), String::from("k"), String::from("v")])
    );
}

#[test]
fn test_request_command_refuses_other_values() {
    assert_eq!(request_command(&RESP::Null), None);
    assert_eq!(request_command(&bulk("PING")), None);
    let mixed = RESP::Array(vec![bulk("GET"), RESP::SimpleString(String::from("k"))]);
    assert_eq!(request_command(&mixed), None);
    assert_eq!(request_command(&RESP::Array(vec![])), Some(vec![]));
}

#[test]
fn test_process_request_sets_a_key() {
    let mut server = server_with_storage();
    process_request(request(&["set", "akey", "avalue"]), &mut server);
    let storage = server.storage.as_ref().unwrap();
    assert_eq!(storage.store.len(), 1);
    assert_eq!(storage.get(String::from("akey")), Ok(Some(String::from("avalue"))));
}

#[test]
fn test_try_process_request_serves_a_valid_request() {
    let mut server = server_with_storage();
    assert!(try_process_request(request(&["SET", "k", "v"]), &mut server));
    assert!(try_process_request(request(&["PING"]), &mut server));
    let storage = server.storage.as_ref().unwrap();
    assert_eq!(storage.get(String::from("k")), Ok(Some(String::from("v"))));
}

#[test]
fn test_try_process_request_refuses_what_cannot_be_served() {
    let mut no_store = Server::new();
    assert!(!try_process_request(request(&["PING"]), &mut no_store));
    assert!(no_store.storage.is_none());

    let mut server = server_with_storage();
    assert!(!try_process_request(request(&[]), &mut server));
    assert!(!try_process_request(request(&["echo"]), &mut server));
    assert!(!try_process_request(Request { value: RESP::Null, sender: () }, &mut server));
    assert_eq!(server.storage.as_ref().unwrap().store.len(), 0);
}
