//! The cache provider: an LRU table from request keys to ETags, and the
//! conditional-request protocol on top of it.

use vstd::prelude::*;
use vstd::string::StringExecFns;

use crate::base64_blake3_body_etag::{base64_blake3_body_etag, etag_of};
use crate::http_date::{format_http_date, http_date_of, http_date_representable};
use crate::lru_table::{
    after_get_or_create, after_lookup, has_key, index_of, keys_of, keys_unique, lemma_get_or_create_wf, touch, LruTable, Slots,
    value_of_get_or_create,
};

verus! {

/// What the table keeps for one key: the ETag value of the last body seen,
/// and when that value last changed, in nanoseconds since the Unix epoch.
#[derive(Clone, Debug, PartialEq, Eq)]
pub struct CacheEntry {
    pub token: String,
    pub last_changed: i128,
}

impl View for CacheEntry {
    type V = (Seq<char>, i128);

    open spec fn view(&self) -> (Seq<char>, i128) {
        (self.token@, self.last_changed)
    }
}

/// The validator headers that a cached response carries.
#[derive(Clone, Debug, PartialEq, Eq)]
pub struct ResponseHeaders {
    /// The `ETag` value.
    pub etag: String,
    /// The `Cache-Control` value.
    pub cache_control: String,
    /// The `Last-Modified` value.
    pub last_modified: String,
}

impl View for ResponseHeaders {
    type V = (Seq<char>, Seq<char>, Seq<char>);

    open spec fn view(&self) -> (Seq<char>, Seq<char>, Seq<char>) {
        (self.etag@, self.cache_control@, self.last_modified@)
    }
}

/// Seven days fresh, then one more day in which a stale copy may be served
/// while it is revalidated.
pub open spec fn cache_control_policy() -> Seq<char> {
    "max-age=604800,stale-while-revalidate=86400"@
}

/// The headers for ETag `token` last changed at `last_changed`.
pub open spec fn headers_for(token: Seq<char>, last_changed: i128) -> (
    Seq<char>,
    Seq<char>,
    Seq<char>,
) {
    (token, cache_control_policy(), http_date_of(last_changed))
}

/// The outcome of a lookup: the headers of a response that the client
/// already holds, or the key under which a fresh response is to be stored.
#[derive(Clone, Debug, PartialEq, Eq)]
pub enum CacheGetResponseResult {
    Hit(ResponseHeaders),
    Miss(String),
}

/// Whether a request for `key` whose `If-None-Match` values are `validators`
/// is answered from the table `s`: the key is present and one of the values
/// equals its ETag exactly.
pub open spec fn is_hit(s: Slots<(Seq<char>, i128)>, key: Seq<char>, validators: Seq<String>) -> bool {
    has_key(s, key) && exists|j: int|
        0 <= j < validators.len() && #[trigger] validators[j]@ == s[index_of(s, key)].1.0
}

/// What the entry of `key` holds after a body with ETag `token` was stored
/// at time `now`: the old entry where its ETag is the same, else `(token, now)`.
pub open spec fn value_after_put(
    s: Slots<(Seq<char>, i128)>,
    key: Seq<char>,
    token: Seq<char>,
    now: i128,
) -> (Seq<char>, i128) {
    if has_key(s, key) && s[index_of(s, key)].1.0 == token {
        s[index_of(s, key)].1
    } else {
        (token, now)
    }
}

/// The table after a body with ETag `token` was stored for `key` at `now`.
pub open spec fn after_put(
    s: Slots<(Seq<char>, i128)>,
    cap: nat,
    key: Seq<char>,
    token: Seq<char>,
    now: i128,
) -> Slots<(Seq<char>, i128)> {
    let s1 = after_get_or_create(s, cap, key, (token, now));
    s1.update(s1.len() - 1, (key, value_after_put(s, key, token, now)))
}

/// The headers of the response whose body, with ETag `token`, was stored
/// for `key` at `now`.
pub open spec fn headers_after_put(
    s: Slots<(Seq<char>, i128)>,
    key: Seq<char>,
    token: Seq<char>,
    now: i128,
) -> (Seq<char>, Seq<char>, Seq<char>) {
    headers_for(token, value_after_put(s, key, token, now).1)
}

/// The entry of `key` in the table after `put`, and where it stands.
proof fn lemma_put_entry(s: Slots<(Seq<char>, i128)>, cap: nat, key: Seq<char>, token: Seq<char>, now: i128)
    requires
        keys_unique(s),
        0 < cap,
        s.len() <= cap,
    ensures
        ({
            let t = after_put(s, cap, key, token, now);
            &&& keys_unique(t)
            &&& t.len() <= cap
            &&& has_key(t, key)
            &&& index_of(t, key) == t.len() - 1
            &&& t[index_of(t, key)].1 == value_after_put(s, key, token, now)
        }),
{
    lemma_get_or_create_wf(s, cap, key, (token, now));
    let s1 = after_get_or_create(s, cap, key, (token, now));
    let t = after_put(s, cap, key, token, now);
    assert(keys_of(t) =~= keys_of(s1));
    assert forall|a: int, b: int|
        0 <= a < t.len() && 0 <= b < t.len() && a != b implies #[trigger] t[a].0
        != #[trigger] t[b].0 by {
        assert(keys_of(t)[a] == keys_of(s1)[a]);
        assert(keys_of(t)[b] == keys_of(s1)[b]);
    }
    assert(t[t.len() - 1].0 == key);
    assert(has_key(t, key));
}

/// A request for a key that the table does not hold is a miss.
pub proof fn lemma_absent_key_misses(
    s: Slots<(Seq<char>, i128)>,
    key: Seq<char>,
    validators: Seq<String>,
)
    requires
        !has_key(s, key),
    ensures
        !is_hit(s, key, validators),
{
}

/// Storing a body whose ETag equals the stored one leaves the entry, and so
/// its time stamp, as it was.
pub proof fn lemma_same_etag_keeps_time(
    s: Slots<(Seq<char>, i128)>,
    cap: nat,
    key: Seq<char>,
    token: Seq<char>,
    now: i128,
)
    requires
        keys_unique(s),
        0 < cap,
        s.len() <= cap,
        has_key(s, key),
        s[index_of(s, key)].1.0 == token,
    ensures
        ({
            let t = after_put(s, cap, key, token, now);
            t[index_of(t, key)].1 == s[index_of(s, key)].1
        }),
{
    lemma_put_entry(s, cap, key, token, now);
}

/// Storing a body whose ETag differs from the stored one, or for a new key,
/// sets both the ETag and the time stamp.
pub proof fn lemma_new_etag_sets_time(
    s: Slots<(Seq<char>, i128)>,
    cap: nat,
    key: Seq<char>,
    token: Seq<char>,
    now: i128,
)
    requires
        keys_unique(s),
        0 < cap,
        s.len() <= cap,
        !(has_key(s, key) && s[index_of(s, key)].1.0 == token),
    ensures
        ({
            let t = after_put(s, cap, key, token, now);
            t[index_of(t, key)].1 == (token, now)
        }),
{
    lemma_put_entry(s, cap, key, token, now);
}

/// After a body with ETag `token` was stored for `key`, a request for `key`
/// hits exactly when one of its validators equals `token`, and a hit carries
/// `token` and the time stamp of the entry.
pub proof fn lemma_get_after_put(
    s: Slots<(Seq<char>, i128)>,
    cap: nat,
    key: Seq<char>,
    token: Seq<char>,
    now: i128,
    validators: Seq<String>,
)
    requires
        keys_unique(s),
        0 < cap,
        s.len() <= cap,
    ensures
        ({
            let t = after_put(s, cap, key, token, now);
            &&& is_hit(t, key, validators) <==> exists|j: int|
                0 <= j < validators.len() && #[trigger] validators[j]@ == token
            &&& headers_for(t[index_of(t, key)].1.0, t[index_of(t, key)].1.1) == headers_after_put(
                s,
                key,
                token,
                now,
            )
        }),
{
    lemma_put_entry(s, cap, key, token, now);
}

/// Storing the same body twice keeps the time stamp of the first time.
pub proof fn lemma_put_twice_keeps_time(
    s: Slots<(Seq<char>, i128)>,
    cap: nat,
    key: Seq<char>,
    token: Seq<char>,
    first: i128,
    second: i128,
)
    requires
        keys_unique(s),
        0 < cap,
        s.len() <= cap,
    ensures
        ({
            let t1 = after_put(s, cap, key, token, first);
            let t2 = after_put(t1, cap, key, token, second);
            &&& t2[index_of(t2, key)].1 == t1[index_of(t1, key)].1
            &&& headers_after_put(t1, key, token, second) == headers_after_put(s, key, token, first)
        }),
{
    lemma_put_entry(s, cap, key, token, first);
    let t1 = after_put(s, cap, key, token, first);
    lemma_put_entry(t1, cap, key, token, second);
}

/// The HTTP headers for ETag `etag` last changed at `last_modified`.
pub fn set_response_headers(etag: &String, last_modified: i128) -> (r: ResponseHeaders)
    requires
        http_date_representable(last_modified),
    ensures
        r@ == headers_for(etag@, last_modified),
{
    let cache_control = String::from_str("max-age=604800,stale-while-revalidate=86400");
    proof {
        reveal_strlit("max-age=604800,stale-while-revalidate=86400");
    }
    ResponseHeaders {
        etag: etag.clone(),
        cache_control,
        last_modified: format_http_date(last_modified),
    }
}

/// The validator cache: a bounded table from request keys to the ETag of the
/// last response body and the time that ETag last changed.
#[derive(Debug)]
pub struct ConstLruProvider {
    table: LruTable<CacheEntry>,
}

impl View for ConstLruProvider {
    type V = Slots<(Seq<char>, i128)>;

    closed spec fn view(&self) -> Slots<(Seq<char>, i128)> {
        self.table@
    }
}

/// A request to the cache.
#[derive(Clone, Debug, PartialEq, Eq)]
pub enum ConstLruProviderReq {
    /// A conditional request for `key`, with its `If-None-Match` values.
    Get { key: String, if_none_match: Vec<String> },
    /// A response body `body` to remember for `key`, seen at time `now`.
    Put { key: String, body: Vec<u8>, now: i128 },
}

/// The cache's answer to a `ConstLruProviderReq` of the same variant.
#[derive(Clone, Debug, PartialEq, Eq)]
pub enum ConstLruProviderRes {
    Get(CacheGetResponseResult),
    Put(ResponseHeaders),
}

/// Whether the cache can serve `req`: a `Put` needs a time with an HTTP date.
pub open spec fn req_ok(req: ConstLruProviderReq) -> bool {
    match req {
        ConstLruProviderReq::Get { .. } => true,
        ConstLruProviderReq::Put { now, .. } => http_date_representable(now),
    }
}

/// The table after the cache served `req`.
pub open spec fn after_req(s: Slots<(Seq<char>, i128)>, cap: nat, req: ConstLruProviderReq) -> Slots<
    (Seq<char>, i128),
> {
    match req {
        ConstLruProviderReq::Get { key, .. } => after_lookup(s, key@),
        ConstLruProviderReq::Put { key, body, now } => after_put(s, cap, key@, etag_of(body@), now),
    }
}

/// Whether `res` is the answer to `req` on the table `s`.
pub open spec fn answers(
    s: Slots<(Seq<char>, i128)>,
    req: ConstLruProviderReq,
    res: ConstLruProviderRes,
) -> bool {
    match (req, res) {
        (
            ConstLruProviderReq::Get { key, if_none_match },
            ConstLruProviderRes::Get(CacheGetResponseResult::Hit(h)),
        ) => is_hit(s, key@, if_none_match@) && h@ == headers_for(
            s[index_of(s, key@)].1.0,
            s[index_of(s, key@)].1.1,
        ),
        (
            ConstLruProviderReq::Get { key, if_none_match },
            ConstLruProviderRes::Get(CacheGetResponseResult::Miss(k)),
        ) => !is_hit(s, key@, if_none_match@) && k@ == key@,
        (ConstLruProviderReq::Put { key, body, now }, ConstLruProviderRes::Put(h)) => h@
            == headers_after_put(s, key@, etag_of(body@), now),
        _ => false,
    }
}

/// Every time stamp in `s` has an HTTP date.
pub open spec fn dates_representable(s: Slots<(Seq<char>, i128)>) -> bool {
    forall|i: int| 0 <= i < s.len() ==> http_date_representable(#[trigger] s[i].1.1)
}

proof fn lemma_touch_keeps_dates(s: Slots<(Seq<char>, i128)>, i: int)
    requires
        dates_representable(s),
        0 <= i < s.len(),
    ensures
        dates_representable(touch(s, i)),
{
    let t = touch(s, i);
    assert forall|a: int| 0 <= a < t.len() implies http_date_representable(#[trigger] t[a].1.1) by {
        if a == t.len() - 1 {
            assert(t[a] == s[i]);
        } else if a < i {
            assert(t[a] == s[a]);
        } else {
            assert(t[a] == s[a + 1]);
        }
    }
}

proof fn lemma_get_or_create_keeps_dates(
    s: Slots<(Seq<char>, i128)>,
    cap: nat,
    key: Seq<char>,
    d: (Seq<char>, i128),
)
    requires
        dates_representable(s),
        http_date_representable(d.1),
        0 < cap,
        s.len() <= cap,
    ensures
        dates_representable(after_get_or_create(s, cap, key, d)),
{
    if has_key(s, key) {
        lemma_touch_keeps_dates(s, index_of(s, key));
    } else {
        let t = after_get_or_create(s, cap, key, d);
        assert forall|a: int| 0 <= a < t.len() implies http_date_representable(
            #[trigger] t[a].1.1,
        ) by {
            if a == t.len() - 1 {
                assert(t[a].1 == d);
            } else if s.len() >= cap {
                assert(t[a] == s[a + 1]);
            } else {
                assert(t[a] == s[a]);
            }
        }
    }
}

impl ConstLruProvider {
    /// The most entries the table holds.
    pub closed spec fn cap(&self) -> nat {
        self.table.cap()
    }

    pub open spec fn wf(&self) -> bool {
        &&& 0 < self.cap()
        &&& self@.len() <= self.cap()
        &&& keys_unique(self@)
        &&& dates_representable(self@)
    }

    /// An empty cache that keeps at most `capacity` keys.
    pub fn init(capacity: usize) -> (r: Self)
        requires
            capacity > 0,
        ensures
            r.wf(),
            r@ == Seq::<(Seq<char>, (Seq<char>, i128))>::empty(),
            r.cap() == capacity,
    {
        ConstLruProvider { table: LruTable::new(capacity) }
    }

    /// Answers a conditional request for `key` that carries the
    /// `If-None-Match` values `if_none_match`. A present key becomes the most
    /// recently used, whether or not a value matches.
    pub fn on_get_request(&mut self, key: String, if_none_match: &Vec<String>) -> (r:
        CacheGetResponseResult)
        requires
            old(self).wf(),
        ensures
            final(self).wf(),
            final(self).cap() == old(self).cap(),
            final(self)@ == after_lookup(old(self)@, key@),
            match r {
                CacheGetResponseResult::Hit(h) => {
                    &&& is_hit(old(self)@, key@, if_none_match@)
                    &&& h@ == headers_for(
                        old(self)@[index_of(old(self)@, key@)].1.0,
                        old(self)@[index_of(old(self)@, key@)].1.1,
                    )
                },
                CacheGetResponseResult::Miss(k) => {
                    &&& !is_hit(old(self)@, key@, if_none_match@)
                    &&& k@ == key@
                },
            },
    {
        let ghost s = self@;
        if !self.table.lookup(&key) {
            return CacheGetResponseResult::Miss(key);
        }
        proof {
            lemma_touch_keeps_dates(s, index_of(s, key@));
        }
        let entry = self.table.most_recent();
        assert(self@.last() == s[index_of(s, key@)]);
        assert(http_date_representable(self@[self@.len() - 1].1.1));
        let n = if_none_match.len();
        let mut j: usize = 0;
        while j < n
            invariant
                n == if_none_match@.len(),
                j <= n,
                has_key(s, key@),
                self.wf(),
                self.cap() == old(self).cap(),
                self@ == after_lookup(s, key@),
                s == old(self)@,
                entry@ == s[index_of(s, key@)].1,
                http_date_representable(entry.last_changed),
                forall|i: int| 0 <= i < j ==> #[trigger] if_none_match@[i]@ != entry.token@,
            decreases n - j,
        {
            if if_none_match[j] == entry.token {
                return CacheGetResponseResult::Hit(
                    set_response_headers(&entry.token, entry.last_changed),
                );
            }
            j = j + 1;
        }
        CacheGetResponseResult::Miss(key)
    }

    /// Stores ETag `token` for `key`, computed at time `now`. Where the entry
    /// already holds that ETag, its time stamp stays; otherwise both are set.
    /// `key` becomes the most recently used key, evicting the least recently
    /// used one where a new key meets a full table. Returns the headers of the
    /// response.
    pub fn record_etag(&mut self, key: String, token: String, now: i128) -> (r: ResponseHeaders)
        requires
            old(self).wf(),
            http_date_representable(now),
        ensures
            final(self).wf(),
            final(self).cap() == old(self).cap(),
            final(self)@ == after_put(old(self)@, old(self).cap(), key@, token@, now),
            r@ == headers_after_put(old(self)@, key@, token@, now),
    {
        let ghost s = self@;
        let ghost d = (token@, now);
        let ghost k = key@;
        let default = CacheEntry { token: token.clone(), last_changed: now };
        self.table.get_or_create(key, default);
        let ghost s1 = self@;
        proof {
            lemma_get_or_create_keeps_dates(s, self.cap(), k, d);
        }
        let entry = self.table.most_recent();
        let last_changed = if entry.token == token {
            let last_changed = entry.last_changed;
            assert(s1.update(s1.len() - 1, (k, value_after_put(s, k, token@, now))) =~= s1);
            assert(http_date_representable(s1[s1.len() - 1].1.1));
            last_changed
        } else {
            self.table.set_most_recent(CacheEntry { token: token.clone(), last_changed: now });
            assert forall|a: int| 0 <= a < self@.len() implies http_date_representable(
                #[trigger] self@[a].1.1,
            ) by {
                if a < self@.len() - 1 {
                    assert(self@[a] == s1[a]);
                }
            }
            now
        };
        set_response_headers(&token, last_changed)
    }

    /// Stores the ETag of a response body `body` for `key`, at time `now`,
    /// as `record_etag` does.
    pub fn on_put_request(&mut self, key: String, body: &[u8], now: i128) -> (r: ResponseHeaders)
        requires
            old(self).wf(),
            http_date_representable(now),
        ensures
            final(self).wf(),
            final(self).cap() == old(self).cap(),
            final(self)@ == after_put(old(self)@, old(self).cap(), key@, etag_of(body@), now),
            r@ == headers_after_put(old(self)@, key@, etag_of(body@), now),
    {
        let token = base64_blake3_body_etag(body);
        self.record_etag(key, token, now)
    }

    /// Serves one request; the cache applies requests one at a time, so each
    /// answer and the table that follows depend on the table before and the
    /// request alone.
    pub fn handle(&mut self, req: ConstLruProviderReq) -> (res: ConstLruProviderRes)
        requires
            old(self).wf(),
            req_ok(req),
        ensures
            final(self).wf(),
            final(self).cap() == old(self).cap(),
            final(self)@ == after_req(old(self)@, old(self).cap(), req),
            answers(old(self)@, req, res),
    {
        match req {
            ConstLruProviderReq::Get { key, if_none_match } => {
                ConstLruProviderRes::Get(self.on_get_request(key, &if_none_match))
            },
            ConstLruProviderReq::Put { key, body, now } => {
                ConstLruProviderRes::Put(self.on_put_request(key, body.as_slice(), now))
            },
        }
    }
}

} // verus!
