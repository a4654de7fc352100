use protohackers::deserialize::{Error, Protohackers};
use protohackers::echo::EchoServer;
use protohackers::kv::{KeyValueStore, Operation};
use protohackers::primes::{is_prime, IsPrimeResponse};

#[test]
fn test_parse() {
    let contents = b"\x05hello\x00\x00\x00\x40";
    let mut ph = Protohackers::from_bytes(contents.to_vec());
    assert_eq!(ph.parse_str().unwrap(), "hello".to_string());
    assert_eq!(ph.parse_u32().unwrap(), 0x40);
}

#[test]
fn peek_does_not_consume() {
    let mut ph = Protohackers::from_bytes(vec![7, 8]);
    assert_eq!(ph.peek_u8().unwrap(), 7);
    assert_eq!(ph.peek_u8().unwrap(), 7);
    assert_eq!(ph.parse_u8().unwrap(), 7);
    assert_eq!(ph.parse_u8().unwrap(), 8);
    assert_eq!(ph.peek_u8(), Err(Error::UnexpectedEOF));
}

#[test]
fn integers_are_big_endian() {
    let mut ph = Protohackers::from_bytes(vec![
        0x01, 0x02, 0x00, 0x00, 0x01, 0x00, 0x00, 0x00, 0x00, 0x00, 0x00, 0x00, 0x03, 0xE8,
    ]);
    assert_eq!(ph.parse_u16().unwrap(), 0x0102);
    assert_eq!(ph.parse_u32().unwrap(), 0x0100);
    assert_eq!(ph.parse_u64().unwrap(), 1000);
}

#[test]
fn short_reads_report_eof() {
    let mut ph = Protohackers::from_bytes(vec![0x01]);
    assert_eq!(ph.parse_u16(), Err(Error::UnexpectedEOF));
    assert_eq!(ph.parse_u32(), Err(Error::UnexpectedEOF));
    assert_eq!(ph.parse_u64(), Err(Error::UnexpectedEOF));
    assert_eq!(ph.parse_u8().unwrap(), 1);
    assert_eq!(ph.parse_u8(), Err(Error::UnexpectedEOF));
}

#[test]
fn parse_char_reads_one_byte() {
    let mut ph = Protohackers::from_bytes(b"Az".to_vec());
    assert_eq!(ph.parse_char().unwrap(), 'A');
    assert_eq!(ph.parse_char().unwrap(), 'z');
    assert_eq!(ph.parse_char(), Err(Error::UnexpectedEOF));
}

#[test]
fn truncated_string_reports_eof() {
    let mut ph = Protohackers::from_bytes(vec![0x05, b'h', b'i']);
    assert_eq!(ph.parse_str(), Err(Error::UnexpectedEOF));
}

#[test]
fn store_insert_then_retrieve() {
    let mut store = KeyValueStore::default();
    assert_eq!(store.insert(&b"foo".to_vec(), &b"bar".to_vec()), None);
    assert_eq!(store.retrieve(&b"foo".to_vec()), Some(b"foo=bar".to_vec()));
    assert_eq!(store.retrieve(&b"baz".to_vec()), None);
    assert_eq!(store.insert(&b"foo".to_vec(), &b"qux".to_vec()), None);
    assert_eq!(store.retrieve(&b"foo".to_vec()), Some(b"foo=qux".to_vec()));
}

#[test]
fn operations_parse_at_first_equals() {
    assert_eq!(
        Operation::from_record(&b"key=value".to_vec()),
        Operation::Insert { key: b"key".to_vec(), value: b"value".to_vec() }
    );
    assert_eq!(
        Operation::from_record(&b"a=b=c".to_vec()),
        Operation::Insert { key: b"a".to_vec(), value: b"b=c".to_vec() }
    );
    assert_eq!(
        Operation::from_record(&b"=value".to_vec()),
        Operation::Insert { key: Vec::new(), value: b"value".to_vec() }
    );
    assert_eq!(
        Operation::from_record(&b"justakey".to_vec()),
        Operation::Retrieve { key: b"justakey".to_vec() }
    );
}

#[test]
fn version_key_is_read_only() {
    let insert = Operation::from_record(&b"version=2.0".to_vec());
    assert!(insert.is_forbidden());
    let retrieve = Operation::from_record(&b"version".to_vec());
    assert!(!retrieve.is_forbidden());
    let other = Operation::from_record(&b"versions=ok".to_vec());
    assert!(!other.is_forbidden());
}

#[test]
fn primality_matches_known_values() {
    assert!(!is_prime(0));
    assert!(!is_prime(1));
    assert!(is_prime(2));
    assert!(is_prime(3));
    assert!(!is_prime(4));
    assert!(is_prime(17));
    assert!(!is_prime(25));
    assert!(is_prime(97));
    assert!(is_prime(7919));
    assert!(!is_prime(7920));
    assert!(!is_prime(7921));
}

#[test]
fn prime_response_carries_its_fields() {
    let response = IsPrimeResponse { method: "isPrime".to_string(), prime: true };
    assert_eq!(response.method, "isPrime");
    assert!(response.prime);
}

#[test]
fn echo_server_default_port() {
    let server = EchoServer::default();
    assert_eq!(server.port, 12000);
    assert_eq!(EchoServer { port: 7 }.port, 7);
}

#[test]
fn parse_str_maps_bytes_to_code_points() {
    let mut ph = Protohackers::from_bytes(vec![2, 0x41, 0xE9]);
    let s = ph.parse_str().unwrap();
    let chars: Vec<char> = s.chars().collect();
    assert_eq!(chars, vec!['A', '\u{E9}']);
}
