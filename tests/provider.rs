use tower_etag_cache::base64_blake3_body_etag::base64_blake3_body_etag;
use tower_etag_cache::const_lru_provider::{
    set_response_headers, CacheGetResponseResult, ConstLruProvider, ConstLruProviderReq,
    ConstLruProviderRes, ResponseHeaders,
};
use tower_etag_cache::lru_table::LruTable;

const POLICY: &str = "max-age=604800,stale-while-revalidate=86400";
const EMPTY_ETAG: &str = "\"rxNJufX5oaagQE3qNtzJSZvLJcmtwRK3zJqTyuQfMmI=\"";
const ABC_ETAG: &str = "\"ZDezrDhGUTP/tjt1JzqNtUjFWEZdedsD/TWcbNW9nYU=\"";
const T_1994: i128 = 784_111_777_000_000_000;
const DATE_1994: &str = "Sun, 06 Nov 1994 08:49:37 +0000";

fn k(s: &str) -> String {
    s.to_string()
}

fn get(p: &mut ConstLruProvider, key: &str, validators: &[&str]) -> CacheGetResponseResult {
    let v: Vec<String> = validators.iter().map(|s| s.to_string()).collect();
    p.on_get_request(k(key), &v)
}

#[test]
fn etag_of_empty_body() {
    assert_eq!(base64_blake3_body_etag(b""), EMPTY_ETAG);
}

#[test]
fn etag_of_abc() {
    assert_eq!(base64_blake3_body_etag(b"abc"), ABC_ETAG);
}

#[test]
fn headers_are_exact() {
    let h = set_response_headers(&k("\"tok\""), T_1994);
    assert_eq!(
        h,
        ResponseHeaders {
            etag: k("\"tok\""),
            cache_control: k(POLICY),
            last_modified: k(DATE_1994),
        }
    );
}

#[test]
fn epoch_date() {
    let h = set_response_headers(&k("\"t\""), 0);
    assert_eq!(h.last_modified, "Thu, 01 Jan 1970 00:00:00 +0000");
}

#[test]
fn put_returns_headers_of_body() {
    let mut p = ConstLruProvider::init(4);
    let h = p.on_put_request(k("A"), b"abc", T_1994);
    assert_eq!(h.etag, ABC_ETAG);
    assert_eq!(h.cache_control, POLICY);
    assert_eq!(h.last_modified, DATE_1994);
}

#[test]
fn get_unknown_key_misses() {
    let mut p = ConstLruProvider::init(4);
    assert_eq!(get(&mut p, "A", &[ABC_ETAG]), CacheGetResponseResult::Miss(k("A")));
}

#[test]
fn get_with_matching_validator_hits() {
    let mut p = ConstLruProvider::init(4);
    p.on_put_request(k("A"), b"abc", T_1994);
    let r = get(&mut p, "A", &["\"other\"", ABC_ETAG]);
    assert_eq!(
        r,
        CacheGetResponseResult::Hit(ResponseHeaders {
            etag: k(ABC_ETAG),
            cache_control: k(POLICY),
            last_modified: k(DATE_1994),
        })
    );
}

#[test]
fn get_without_matching_validator_misses() {
    let mut p = ConstLruProvider::init(4);
    p.on_put_request(k("A"), b"abc", T_1994);
    assert_eq!(get(&mut p, "A", &[]), CacheGetResponseResult::Miss(k("A")));
    assert_eq!(get(&mut p, "A", &["\"other\""]), CacheGetResponseResult::Miss(k("A")));
    // Unquoted and differently cased values are not the ETag.
    let bare = &ABC_ETAG[1..ABC_ETAG.len() - 1];
    assert_eq!(get(&mut p, "A", &[bare]), CacheGetResponseResult::Miss(k("A")));
    let lower = ABC_ETAG.to_lowercase();
    assert_eq!(get(&mut p, "A", &[lower.as_str()]), CacheGetResponseResult::Miss(k("A")));
}

#[test]
fn get_validator_of_other_key_misses() {
    let mut p = ConstLruProvider::init(4);
    p.on_put_request(k("A"), b"abc", T_1994);
    p.on_put_request(k("B"), b"", T_1994);
    assert_eq!(get(&mut p, "B", &[ABC_ETAG]), CacheGetResponseResult::Miss(k("B")));
}

#[test]
fn capacity_two_evicts_oldest() {
    let mut p = ConstLruProvider::init(2);
    p.on_put_request(k("A"), b"x", 1_000_000_000);
    p.on_put_request(k("B"), b"y", 2_000_000_000);
    p.on_put_request(k("C"), b"z", 3_000_000_000);
    let ey = base64_blake3_body_etag(b"y");
    let ez = base64_blake3_body_etag(b"z");
    let ex = base64_blake3_body_etag(b"x");
    assert_eq!(get(&mut p, "A", &[ex.as_str()]), CacheGetResponseResult::Miss(k("A")));
    assert!(matches!(get(&mut p, "B", &[ey.as_str()]), CacheGetResponseResult::Hit(_)));
    assert!(matches!(get(&mut p, "C", &[ez.as_str()]), CacheGetResponseResult::Hit(_)));
}

#[test]
fn access_refreshes_recency() {
    let mut p = ConstLruProvider::init(2);
    p.on_put_request(k("A"), b"x", 0);
    p.on_put_request(k("B"), b"y", 0);
    let ex = base64_blake3_body_etag(b"x");
    let ey = base64_blake3_body_etag(b"y");
    // A miss on a present key still counts as a use.
    assert_eq!(get(&mut p, "A", &[]), CacheGetResponseResult::Miss(k("A")));
    p.on_put_request(k("C"), b"z", 0);
    assert!(matches!(get(&mut p, "A", &[ex.as_str()]), CacheGetResponseResult::Hit(_)));
    assert_eq!(get(&mut p, "B", &[ey.as_str()]), CacheGetResponseResult::Miss(k("B")));
}

#[test]
fn put_refreshes_recency() {
    let mut p = ConstLruProvider::init(2);
    p.on_put_request(k("A"), b"x", 0);
    p.on_put_request(k("B"), b"y", 0);
    p.on_put_request(k("A"), b"x", 0);
    p.on_put_request(k("C"), b"z", 0);
    let ex = base64_blake3_body_etag(b"x");
    let ey = base64_blake3_body_etag(b"y");
    assert!(matches!(get(&mut p, "A", &[ex.as_str()]), CacheGetResponseResult::Hit(_)));
    assert_eq!(get(&mut p, "B", &[ey.as_str()]), CacheGetResponseResult::Miss(k("B")));
}

#[test]
fn same_body_keeps_last_modified() {
    let mut p = ConstLruProvider::init(2);
    let first = p.on_put_request(k("K"), b"same", T_1994);
    let second = p.on_put_request(k("K"), b"same", 0);
    assert_eq!(second.last_modified, DATE_1994);
    assert_eq!(second, first);
}

#[test]
fn changed_body_updates_token_and_time() {
    let mut p = ConstLruProvider::init(2);
    p.on_put_request(k("K"), b"", T_1994);
    let h = p.on_put_request(k("K"), b"abc", 0);
    assert_eq!(h.etag, ABC_ETAG);
    assert_eq!(h.last_modified, "Thu, 01 Jan 1970 00:00:00 +0000");
    assert_eq!(get(&mut p, "K", &[EMPTY_ETAG]), CacheGetResponseResult::Miss(k("K")));
    let r = get(&mut p, "K", &[ABC_ETAG]);
    match r {
        CacheGetResponseResult::Hit(h) => {
            assert_eq!(h.last_modified, "Thu, 01 Jan 1970 00:00:00 +0000")
        }
        CacheGetResponseResult::Miss(_) => panic!("expected a hit"),
    }
}

#[test]
fn handle_dispatches_requests() {
    let mut p = ConstLruProvider::init(1);
    let put = p.handle(ConstLruProviderReq::Put { key: k("A"), body: b"abc".to_vec(), now: T_1994 });
    assert_eq!(
        put,
        ConstLruProviderRes::Put(ResponseHeaders {
            etag: k(ABC_ETAG),
            cache_control: k(POLICY),
            last_modified: k(DATE_1994),
        })
    );
    let hit = p.handle(ConstLruProviderReq::Get { key: k("A"), if_none_match: vec![k(ABC_ETAG)] });
    assert!(matches!(hit, ConstLruProviderRes::Get(CacheGetResponseResult::Hit(_))));
    p.handle(ConstLruProviderReq::Put { key: k("B"), body: b"".to_vec(), now: 0 });
    let miss = p.handle(ConstLruProviderReq::Get { key: k("A"), if_none_match: vec![k(ABC_ETAG)] });
    assert_eq!(miss, ConstLruProviderRes::Get(CacheGetResponseResult::Miss(k("A"))));
}

#[test]
fn table_overflow_drops_first_inserted() {
    let mut t: LruTable<u64> = LruTable::new(3);
    for (i, key) in ["a", "b", "c", "d"].iter().enumerate() {
        t.get_or_create(k(key), i as u64);
        assert!(t.len() <= 3);
    }
    assert_eq!(t.len(), 3);
    assert!(!t.lookup(&k("a")));
    for (i, key) in ["b", "c", "d"].iter().enumerate() {
        assert!(t.lookup(&k(key)));
        assert_eq!(*t.most_recent(), i as u64 + 1);
    }
}

#[test]
fn table_lookup_absent_changes_nothing() {
    let mut t: LruTable<u64> = LruTable::new(2);
    t.get_or_create(k("a"), 1);
    t.get_or_create(k("b"), 2);
    assert!(!t.lookup(&k("z")));
    assert_eq!(*t.most_recent(), 2);
    assert_eq!(t.capacity(), 2);
}

#[test]
fn table_existing_key_keeps_value() {
    let mut t: LruTable<u64> = LruTable::new(2);
    t.get_or_create(k("a"), 1);
    t.get_or_create(k("a"), 9);
    assert_eq!(*t.most_recent(), 1);
    t.set_most_recent(5);
    assert!(t.lookup(&k("a")));
    assert_eq!(*t.most_recent(), 5);
    assert_eq!(t.len(), 1);
}
