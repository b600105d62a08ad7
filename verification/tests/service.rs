use pool::err::Error;
use pool::server::crypto::{gen_token_at, Auth};
use pool::server::service::{authenticate, delete_data, get_cookie, get_data, parse_auth, set_data};
use pool::server::{classify, DataSlice, FileRequest, Reply, DEFAULT_READ_SIZE};
use pool::store::ChunkStore;

fn text(s: &str) -> String {
    s.to_string()
}

#[test]
fn cookie_attributes() {
    assert_eq!(get_cookie(Some("token=abc")).unwrap(), vec![(text("token"), text("abc"))]);
    assert_eq!(
        get_cookie(Some("a=1;token=abc;b=")).unwrap(),
        vec![(text("a"), text("1")), (text("token"), text("abc")), (text("b"), text(""))]
    );
    assert_eq!(get_cookie(Some("")).unwrap(), Vec::new());
}

#[test]
fn malformed_attributes_are_skipped() {
    assert_eq!(
        get_cookie(Some("a;b=1=2;=;c=3;;d")).unwrap(),
        vec![(text(""), text("")), (text("c"), text("3"))]
    );
}

#[test]
fn attributes_are_not_trimmed() {
    assert_eq!(
        get_cookie(Some("a=1; token=abc")).unwrap(),
        vec![(text("a"), text("1")), (text(" token"), text("abc"))]
    );
}

#[test]
fn request_without_a_cookie_header() {
    assert!(matches!(get_cookie(None), Err(Error::NotLogin(_))));
    assert_eq!(get_cookie(None).unwrap_err().status_code(), 401);
    assert!(matches!(authenticate(&vec![text("0a")], None, 0), Err(Error::NotLogin(_))));
}

fn token(now: u64) -> String {
    gen_token_at("0a1b", &Auth { email: text("someone@example.org"), password: text("x") }, now).unwrap()
}

fn header(now: u64) -> String {
    format!("lang=en;token={}", token(now))
}

#[test]
fn subject_of_a_cookie() {
    let keys = vec![text("0a1b"), text("ffff")];
    let cookie = vec![(text("token"), token(50))];
    assert_eq!(parse_auth(&keys, &cookie, 60).unwrap().email, "someone@example.org");
    assert!(matches!(parse_auth(&keys, &cookie, 3651), Err(Error::NotLogin(_))));
    assert!(matches!(parse_auth(&Vec::new(), &cookie, 60), Err(Error::Other(_))));
    assert!(matches!(parse_auth(&keys, &Vec::new(), 60), Err(Error::NotLogin(_))));
    assert!(matches!(parse_auth(&Vec::new(), &Vec::new(), 60), Err(Error::NotLogin(_))));
    let other_name = vec![(text("lang"), text("en")), (text(" token"), token(50))];
    assert!(matches!(parse_auth(&keys, &other_name, 60), Err(Error::NotLogin(_))));
    assert_eq!(parse_auth(&keys, &Vec::new(), 60).unwrap_err().status_code(), 401);
    assert_eq!(parse_auth(&Vec::new(), &cookie, 60).unwrap_err().status_code(), 500);
    assert!(matches!(parse_auth(&vec![text("ffff")], &cookie, 60), Err(Error::NotLogin(_))));
    let twice = vec![(text("token"), text("junk")), (text("token"), token(50))];
    assert_eq!(parse_auth(&keys, &twice, 60).unwrap().email, "someone@example.org");
}

#[test]
fn subject_of_a_request() {
    let keys = vec![text("0a1b")];
    assert_eq!(authenticate(&keys, Some(&header(5)), 5).unwrap().email, "someone@example.org");
    assert!(matches!(authenticate(&keys, Some("lang=en"), 5), Err(Error::NotLogin(_))));
    assert!(matches!(authenticate(&keys, Some("token=abc"), 5), Err(Error::NotLogin(_))));
    assert!(matches!(authenticate(&Vec::new(), Some(&header(5)), 5), Err(Error::NotLogin(_))));
    assert!(matches!(authenticate(&keys, Some(&header(5)), 3606), Err(Error::NotLogin(_))));
}

fn slice(key: &str, offset: u64, length: u64, payload: &[u8]) -> DataSlice {
    DataSlice { key: text(key), offset, slice_value: payload.to_vec(), length }
}

fn request(key: &str, offset: Option<u64>, size: Option<u64>) -> FileRequest {
    FileRequest { key: text(key), offset, size }
}

#[test]
fn transfer_with_a_valid_token() {
    let keys = vec![text("0a1b")];
    let h = header(100);
    let mut store = ChunkStore::new();
    set_data(&mut store, &keys, Some(&h), 100, slice("k", 0, 10, b"HELLO")).unwrap();
    assert!(matches!(
        get_data(&store, &keys, Some(&h), 100, request("k", None, None)),
        Err(Error::NotFound(_))
    ));
    assert!(matches!(
        set_data(&mut store, &keys, Some(&h), 100, slice("k", 6, 10, b"ORLD")),
        Err(Error::Bounds(_))
    ));
    set_data(&mut store, &keys, Some(&h), 100, slice("k", 5, 10, b"WORLD")).unwrap();
    let ds = get_data(&store, &keys, Some(&h), 100, request("k", None, None)).unwrap();
    assert_eq!(ds.key, "k");
    assert_eq!(ds.offset, 0);
    assert_eq!(ds.slice_value, b"HELLOWORLD".to_vec());
    assert_eq!(ds.length, 10);
    assert_eq!(ds.reply(), Reply::Full);
    let ds = get_data(&store, &keys, Some(&h), 100, request("k", Some(2), Some(3))).unwrap();
    assert_eq!((ds.offset, ds.slice_value.clone(), ds.length), (2, b"LLO".to_vec(), 10));
    assert_eq!(ds.reply(), Reply::Range { total: 10, first: 3, last: 5 });
    let ds = get_data(&store, &keys, Some(&h), 100, request("k", Some(5), None)).unwrap();
    assert_eq!(ds.slice_value, b"WORLD".to_vec());
    assert_eq!(ds.reply(), Reply::Tail { total: 10, first: 6 });
    delete_data(&mut store, &keys, Some(&h), 100, request("k", None, None)).unwrap();
    assert!(matches!(
        get_data(&store, &keys, Some(&h), 100, request("k", None, None)),
        Err(Error::NotFound(_))
    ));
    delete_data(&mut store, &keys, Some(&h), 100, request("k", None, None)).unwrap();
}

#[test]
fn upload_of_length_zero_deletes() {
    let keys = vec![text("0a1b")];
    let h = header(100);
    let mut store = ChunkStore::new();
    set_data(&mut store, &keys, Some(&h), 100, slice("k", 0, 2, b"ab")).unwrap();
    set_data(&mut store, &keys, Some(&h), 100, slice("k", 0, 0, b"")).unwrap();
    assert!(store.get("k", 0, 2).is_err());
}

#[test]
fn transfer_without_a_valid_token_touches_nothing() {
    let keys = vec![text("0a1b")];
    let h = header(100);
    let mut store = ChunkStore::new();
    store.put("k", 0, 2, b"ab").unwrap();
    for (header, now) in [(None, 100), (Some("token=x"), 100), (Some(h.as_str()), 3701)] {
        assert!(matches!(
            set_data(&mut store, &keys, header, now, slice("k", 0, 0, b"")),
            Err(Error::NotLogin(_))
        ));
        assert!(matches!(
            set_data(&mut store, &keys, header, now, slice("n", 0, 1, b"x")),
            Err(Error::NotLogin(_))
        ));
        assert!(matches!(
            get_data(&store, &keys, header, now, request("k", None, None)),
            Err(Error::NotLogin(_))
        ));
        assert!(matches!(
            delete_data(&mut store, &keys, header, now, request("k", None, None)),
            Err(Error::NotLogin(_))
        ));
    }
    assert_eq!(store.get("k", 0, 2).unwrap(), (b"ab".to_vec(), 2));
    assert!(store.get("n", 0, 1).is_err());
}

#[test]
fn default_read_size() {
    assert_eq!(DEFAULT_READ_SIZE, 1024);
    let keys = vec![text("0a1b")];
    let h = header(100);
    let mut store = ChunkStore::new();
    let data = vec![7u8; 2000];
    store.put("k", 0, 2000, &data).unwrap();
    let ds = get_data(&store, &keys, Some(&h), 100, request("k", Some(1), None)).unwrap();
    assert_eq!(ds.slice_value.len(), 1024);
    assert_eq!(ds.reply(), Reply::Range { total: 2000, first: 2, last: 1025 });
}

#[test]
fn classification_of_a_read() {
    assert_eq!(classify(0, 10, 10), Reply::Full);
    assert_eq!(classify(0, 0, 0), Reply::Full);
    assert_eq!(classify(0, 5, 10), Reply::Range { total: 10, first: 1, last: 5 });
    assert_eq!(classify(5, 5, 10), Reply::Tail { total: 10, first: 6 });
    assert_eq!(classify(10, 0, 10), Reply::Tail { total: 10, first: 11 });
    assert_eq!(classify(11, 0, 10), Reply::Range { total: 10, first: 12, last: 11 });
    assert_eq!(
        classify(u64::MAX, 1, 10),
        Reply::Range { total: 10, first: u64::MAX as u128 + 1, last: u64::MAX as u128 + 1 }
    );
}
