use redis_core::resp::{bytes_to_resp, parse_at, RESPError, RESP};

fn bulk(s: &str) -> RESP {
    RESP::BulkString(String::from(s))
}

fn read(bytes: &[u8]) -> (Result<RESP, RESPError>, usize) {
    let buffer = bytes.to_vec();
    let mut index: usize = 0;
    let r = bytes_to_resp(&buffer, &mut index);
    (r, index)
}

#[test]
fn test_to_bytes_of_each_kind() {
    assert_eq!(RESP::SimpleString(String::from("PONG")).to_bytes(), b"+PONG\r\n".to_vec());
    assert_eq!(bulk("hello").to_bytes(), b"$5\r\nhello\r\n".to_vec());
    assert_eq!(bulk("").to_bytes(), b"$0\r\n\r\n".to_vec());
    assert_eq!(bulk("twelve chars").to_bytes(), b"$12\r\ntwelve chars\r\n".to_vec());
    assert_eq!(bulk("\u{e9}").to_bytes(), b"$2\r\n\xc3\xa9\r\n".to_vec());
    assert_eq!(RESP::Null.to_bytes(), b"$-1\r\n".to_vec());
    assert_eq!(RESP::Array(vec![]).to_bytes(), b"*0\r\n".to_vec());
    assert_eq!(
        RESP::Array(vec![bulk("a"), RESP::Null, RESP::Array(vec![bulk("bc")])]).to_bytes(),
        b"*3\r\n$1\r\na\r\n$-1\r\n*1\r\n$2\r\nbc\r\n".to_vec()
    );
}

#[test]
fn test_write_to_appends() {
    let mut out = b"xy".to_vec();
    RESP::SimpleString(String::from("OK")).write_to(&mut out);
    assert_eq!(out, b"xy+OK\r\n".to_vec());
}

#[test]
fn test_bytes_to_resp_reads_a_request() {
    let (r, index) = read(b"*2\r\n$3\r\nGET\r\n$1\r\nk\r\n");
    assert_eq!(r, Ok(RESP::Array(vec![bulk("GET"), bulk("k")])));
    assert_eq!(index, 20);
}

#[test]
fn test_bytes_to_resp_reads_values_one_after_another() {
    let buffer = b"+OK\r\n$-1\r\n:1".to_vec();
    let mut index: usize = 0;
    assert_eq!(bytes_to_resp(&buffer, &mut index), Ok(RESP::SimpleString(String::from("OK"))));
    assert_eq!(index, 5);
    assert_eq!(bytes_to_resp(&buffer, &mut index), Ok(RESP::Null));
    assert_eq!(index, 10);
    assert_eq!(bytes_to_resp(&buffer, &mut index), Err(RESPError::WrongType));
    assert_eq!(index, 10);
    let mut past_end: usize = 100;
    assert_eq!(bytes_to_resp(&buffer, &mut past_end), Err(RESPError::OutOfBounds));
    assert_eq!(past_end, 100);
}

#[test]
fn test_bytes_to_resp_errors() {
    assert_eq!(read(b""), (Err(RESPError::OutOfBounds), 0));
    assert_eq!(read(b"x\r\n"), (Err(RESPError::WrongType), 0));
    assert_eq!(read(b"+OK"), (Err(RESPError::OutOfBounds), 0));
    assert_eq!(read(b"+OK\r"), (Err(RESPError::OutOfBounds), 0));
    assert_eq!(read(b"+OK\rx"), (Err(RESPError::IncorrectLength), 0));
    assert_eq!(read(b"$abc\r\n"), (Err(RESPError::ParseInt), 0));
    assert_eq!(read(b"$\r\n"), (Err(RESPError::ParseInt), 0));
    assert_eq!(read(b"$-2\r\n"), (Err(RESPError::ParseInt), 0));
    assert_eq!(read(b"$99999999999999999999999\r\n"), (Err(RESPError::ParseInt), 0));
    assert_eq!(read(b"$5\r\nab\r\n"), (Err(RESPError::OutOfBounds), 0));
    assert_eq!(read(b"$2\r\nabc\r\n"), (Err(RESPError::IncorrectLength), 0));
    assert_eq!(read(b"$2\r\n\xff\xfe\r\n"), (Err(RESPError::FromUtf8), 0));
    assert_eq!(read(b"+\xff\r\n"), (Err(RESPError::FromUtf8), 0));
    assert_eq!(read(b"*1\r\nx"), (Err(RESPError::WrongType), 0));
    assert_eq!(read(b"*2\r\n$1\r\na\r\n"), (Err(RESPError::OutOfBounds), 0));
}

#[test]
fn test_read_back_what_is_written() {
    let values = vec![
        RESP::SimpleString(String::from("PONG")),
        bulk("with\r\ninside"),
        bulk(""),
        bulk("\u{1F600} and \u{e9}"),
        RESP::Null,
        RESP::Array(vec![]),
        RESP::Array(vec![bulk("SET"), bulk("key"), bulk("value"), RESP::Array(vec![RESP::Null])]),
    ];
    for v in values {
        let bytes = v.to_bytes();
        let (r, index) = read(&bytes);
        assert_eq!(index, bytes.len());
        assert_eq!(r, Ok(v));
    }
}

#[test]
fn test_parse_at_a_position() {
    let buffer = b"junk$3\r\nabc\r\n".to_vec();
    assert_eq!(parse_at(&buffer, 4), Ok((bulk("abc"), 13)));
}
