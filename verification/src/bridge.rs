//! Configuration, error model and endpoint parsing of the bridge to the
//! AI microservice.

use vstd::prelude::*;
use std::path::PathBuf;
use std::time::Duration;
use crate::chars::chars_of;
use crate::strings::{push_str, string_from};

verus! {

#[verifier::external_type_specification]
#[verifier::external_body]
pub struct ExPathBuf(PathBuf);

/// A cloned path is the same path.
pub assume_specification[ <PathBuf as Clone>::clone ](p: &PathBuf) -> (r: PathBuf)
    ensures
        r == *p,
;

/// `Duration` is `Copy`: its clone is the same value.
pub assume_specification[ <Duration as Clone>::clone ](d: &Duration) -> (r: Duration)
    ensures
        r == *d,
;

/// What `Duration::from_secs(secs)` returns.
pub uninterp spec fn duration_from_secs(secs: u64) -> Duration;

/// `Duration::from_secs`; the result is named [`duration_from_secs`].
#[verifier::external_body]
pub(crate) fn secs(n: u64) -> (d: Duration)
    ensures
        d == duration_from_secs(n),
{
    Duration::from_secs(n)
}

/// `Duration::is_zero`: true exactly for the duration that spans no time,
/// which is `Duration::from_secs(0)`.
#[verifier::external_body]
pub(crate) fn is_zero(d: &Duration) -> (r: bool)
    ensures
        r == (*d == duration_from_secs(0)),
{
    d.is_zero()
}

/// Knobs of the bridge client.
#[derive(Clone, Debug, PartialEq, Eq)]
pub struct BridgeClientConfig {
    /// Endpoint URI such as `http://127.0.0.1:50051`.
    pub endpoint: String,
    /// Per-call deadline.
    pub request_timeout: Duration,
    /// HTTP/2 keep-alive ping interval.
    pub keepalive: Option<Duration>,
    /// Maximum concurrent streams over the single channel.
    pub concurrency_limit: usize,
}

impl BridgeClientConfig {
    /// Local endpoint, 60 s deadline, 30 s keep-alive, 8 streams.
    pub fn default() -> (r: BridgeClientConfig)
        ensures
            r.endpoint@ == "http://127.0.0.1:50051"@,
            r.request_timeout == duration_from_secs(60),
            r.keepalive == Some(duration_from_secs(30)),
            r.concurrency_limit == 8,
    {
        let mut endpoint = String::new();
        push_str(&mut endpoint, "http://127.0.0.1:50051");
        BridgeClientConfig {
            endpoint,
            request_timeout: secs(60),
            keepalive: Some(secs(30)),
            concurrency_limit: 8,
        }
    }
}

/// Failure of a bridge call.
#[derive(Clone, Debug, PartialEq, Eq)]
pub enum BridgeError {
    /// The server could not be reached.
    Unreachable(String),
    /// The server refused for lack of resources (VRAM admission denied).
    ResourceExhausted(String),
    /// A failure worth retrying.
    Transient(String),
    /// A failure not worth retrying.
    Permanent(String),
    /// A transport-level failure not classified above.
    Transport(String),
}

/// gRPC status codes the bridge distinguishes.
pub const GRPC_INVALID_ARGUMENT: i32 = 3;
pub const GRPC_DEADLINE_EXCEEDED: i32 = 4;
pub const GRPC_RESOURCE_EXHAUSTED: i32 = 8;
pub const GRPC_FAILED_PRECONDITION: i32 = 9;
pub const GRPC_ABORTED: i32 = 10;
pub const GRPC_INTERNAL: i32 = 13;
pub const GRPC_UNAVAILABLE: i32 = 14;

pub open spec fn error_text(e: BridgeError) -> Seq<char> {
    match e {
        BridgeError::Unreachable(m) => "ia server unreachable: "@ + m@,
        BridgeError::ResourceExhausted(m) => "ia resource exhausted: "@ + m@,
        BridgeError::Transient(m) => "ia transient failure: "@ + m@,
        BridgeError::Permanent(m) => "ia permanent failure: "@ + m@,
        BridgeError::Transport(m) => "transport error: "@ + m@,
    }
}

impl BridgeError {
    /// The error classified from a gRPC status code and its message.
    pub fn from_grpc(code: i32, message: String) -> (r: BridgeError)
        ensures
            r == if code == GRPC_UNAVAILABLE {
                BridgeError::Unreachable(message)
            } else if code == GRPC_RESOURCE_EXHAUSTED {
                BridgeError::ResourceExhausted(message)
            } else if code == GRPC_DEADLINE_EXCEEDED || code == GRPC_ABORTED {
                BridgeError::Transient(message)
            } else {
                BridgeError::Permanent(message)
            },
    {
        if code == GRPC_UNAVAILABLE {
            BridgeError::Unreachable(message)
        } else if code == GRPC_RESOURCE_EXHAUSTED {
            BridgeError::ResourceExhausted(message)
        } else if code == GRPC_DEADLINE_EXCEEDED || code == GRPC_ABORTED {
            BridgeError::Transient(message)
        } else {
            BridgeError::Permanent(message)
        }
    }

    /// Human-readable description, including the inner message.
    pub fn message(&self) -> (r: String)
        ensures
            r@ == error_text(*self),
    {
        let mut s = String::new();
        match self {
            BridgeError::Unreachable(m) => {
                push_str(&mut s, "ia server unreachable: ");
                push_str(&mut s, m.as_str());
            },
            BridgeError::ResourceExhausted(m) => {
                push_str(&mut s, "ia resource exhausted: ");
                push_str(&mut s, m.as_str());
            },
            BridgeError::Transient(m) => {
                push_str(&mut s, "ia transient failure: ");
                push_str(&mut s, m.as_str());
            },
            BridgeError::Permanent(m) => {
                push_str(&mut s, "ia permanent failure: ");
                push_str(&mut s, m.as_str());
            },
            BridgeError::Transport(m) => {
                push_str(&mut s, "transport error: ");
                push_str(&mut s, m.as_str());
            },
        }
        s
    }
}

/// Seconds the embedded worker gets to come online by default.
pub const DEFAULT_HEALTH_TIMEOUT_SECS: u64 = 15;

/// How to spawn the embedded AI worker.
#[derive(Clone, Debug, Default)]
pub struct SpawnOptions {
    /// Python interpreter to use instead of the default one.
    pub python_bin: Option<PathBuf>,
    /// Maximum wall-clock time for the worker to come online.
    pub health_timeout: Duration,
    /// Extra environment variables for the child.
    pub env: Option<Vec<(String, String)>>,
}

impl SpawnOptions {
    /// A zero health timeout becomes the default of 15 s.
    pub fn with_default_timeout(self) -> (r: SpawnOptions)
        ensures
            r.health_timeout == if self.health_timeout == duration_from_secs(0) {
                duration_from_secs(DEFAULT_HEALTH_TIMEOUT_SECS)
            } else {
                self.health_timeout
            },
            r.python_bin == self.python_bin,
            r.env == self.env,
    {
        let mut o = self;
        if is_zero(&o.health_timeout) {
            o.health_timeout = secs(DEFAULT_HEALTH_TIMEOUT_SECS);
        }
        o
    }
}

/// `s` with every leading copy of `p` removed (`str::trim_start_matches`).
pub open spec fn strip_all(s: Seq<char>, p: Seq<char>) -> Seq<char>
    decreases s.len(),
{
    if p.len() > 0 && s.len() >= p.len() && s.take(p.len() as int) == p {
        strip_all(s.skip(p.len() as int), p)
    } else {
        s
    }
}

/// Index of the first occurrence of `c` in `s`.
pub open spec fn find_char(s: Seq<char>, c: char) -> Option<int>
    decreases s.len(),
{
    if s.len() == 0 {
        None
    } else {
        match find_char(s.drop_last(), c) {
            Some(i) => Some(i),
            None => if s.last() == c {
                Some(s.len() - 1)
            } else {
                None
            },
        }
    }
}

/// Decimal value of a string of ASCII digits.
pub open spec fn decimal(ds: Seq<char>) -> nat
    decreases ds.len(),
{
    if ds.len() == 0 {
        0
    } else {
        decimal(ds.drop_last()) * 10 + ((ds.last() as u32) - ('0' as u32)) as nat
    }
}

pub open spec fn all_digits(ds: Seq<char>) -> bool {
    forall|i: int| 0 <= i < ds.len() ==> '0' <= #[trigger] ds[i] <= '9'
}

/// `u16::from_str`: an optional `+`, then one or more ASCII digits whose
/// value fits in 16 bits.
pub open spec fn parse_u16(s: Seq<char>) -> Option<u16> {
    let ds = if s.len() > 1 && s[0] == '+' { s.drop_first() } else { s };
    if ds.len() > 0 && all_digits(ds) && decimal(ds) <= u16::MAX {
        Some(decimal(ds) as u16)
    } else {
        None
    }
}

/// Host and port of an endpoint URI, scheme and path dropped.
pub open spec fn host_port(endpoint: Seq<char>) -> Option<(Seq<char>, u16)> {
    let s = strip_all(strip_all(endpoint, "http://"@), "https://"@);
    match find_char(s, ':') {
        None => None,
        Some(c) => {
            let host = s.take(c);
            let rest = s.skip(c + 1);
            let port = match find_char(rest, '/') {
                Some(k) => rest.take(k),
                None => rest,
            };
            match parse_u16(port) {
                Some(p) => Some((host, p)),
                None => None,
            }
        },
    }
}

fn starts_with_at(v: &Vec<char>, at: usize, p: &str) -> (r: bool)
    requires
        at <= v@.len(),
    ensures
        r == (v@.len() - at >= p@.len() && v@.skip(at as int).take(p@.len() as int) == p@),
{
    let pv = chars_of(p);
    let vl = v.len();
    if vl - at < pv.len() {
        return false;
    }
    let mut i: usize = 0;
    while i < pv.len()
        invariant
            i <= pv@.len(),
            pv@ == p@,
            vl == v@.len(),
            at + pv@.len() <= vl,
            forall|k: int| 0 <= k < i ==> v@[at + k] == pv@[k],
        decreases pv@.len() - i,
    {
        if v[at + i] != pv[i] {
            assert(v@.skip(at as int).take(p@.len() as int)[i as int] != p@[i as int]);
            return false;
        }
        i = i + 1;
    }
    assert(v@.skip(at as int).take(p@.len() as int) =~= p@);
    true
}

fn strip_all_from(v: &Vec<char>, start: usize, p: &str) -> (r: usize)
    requires
        start <= v@.len(),
    ensures
        start <= r <= v@.len(),
        v@.skip(r as int) == strip_all(v@.skip(start as int), p@),
{
    let plen = chars_of(p).len();
    let vl = v.len();
    let mut at = start;
    if plen == 0 {
        return at;
    }
    while starts_with_at(v, at, p)
        invariant
            vl == v@.len(),
            start <= at <= v@.len(),
            plen == p@.len(),
            plen > 0,
            strip_all(v@.skip(at as int), p@) == strip_all(v@.skip(start as int), p@),
        decreases v@.len() - at,
    {
        assert(at + plen <= vl);
        proof {
            assert(v@.skip(at as int).skip(plen as int) =~= v@.skip(at + plen));
        }
        at = at + plen;
    }
    at
}

fn parse_port(v: &Vec<char>, a: usize, b: usize) -> (r: Option<u16>)
    requires
        a <= b <= v@.len(),
    ensures
        r == parse_u16(v@.subrange(a as int, b as int)),
{
    let ghost s = v@.subrange(a as int, b as int);
    let mut start = a;
    if b - a > 1 && v[a] == '+' {
        start = a + 1;
    }
    let ghost ds = v@.subrange(start as int, b as int);
    assert(ds =~= (if s.len() > 1 && s[0] == '+' { s.drop_first() } else { s }));
    if start == b {
        assert(ds.len() == 0);
        return None;
    }
    let mut value: u32 = 0;
    let mut i = start;
    assert(v@.subrange(start as int, start as int) =~= Seq::<char>::empty());
    while i < b
        invariant
            a <= start <= i <= b <= v@.len(),
            s == v@.subrange(a as int, b as int),
            ds == (if s.len() > 1 && s[0] == '+' { s.drop_first() } else { s }),
            ds == v@.subrange(start as int, b as int),
            ds.take(i - start) == v@.subrange(start as int, i as int),
            all_digits(v@.subrange(start as int, i as int)),
            value == decimal(v@.subrange(start as int, i as int)),
            value <= u16::MAX,
        decreases b - i,
    {
        let c = v[i];
        let ghost pre = v@.subrange(start as int, i as int);
        let ghost nxt = v@.subrange(start as int, i + 1);
        assert(nxt.drop_last() =~= pre);
        assert(nxt.last() == c);
        assert(ds.take(i + 1 - start) =~= nxt);
        if c < '0' || c > '9' {
            assert(ds[i - start] == c);
            assert(!all_digits(ds));
            return None;
        }
        let d = (c as u32) - ('0' as u32);
        assert(decimal(nxt) == decimal(pre) * 10 + d);
        value = value * 10 + d;
        if value > 0xFFFF {
            proof {
                lemma_decimal_prefix_bound(ds, i + 1 - start);
            }
            return None;
        }
        assert forall|k: int| 0 <= k < nxt.len() implies '0' <= #[trigger] nxt[k] <= '9' by {
            if k < pre.len() {
                assert(nxt[k] == pre[k]);
            }
        }
        i = i + 1;
    }
    assert(ds.take(b - start) =~= ds);
    Some(value as u16)
}

proof fn lemma_decimal_prefix_bound(ds: Seq<char>, k: int)
    requires
        0 <= k <= ds.len(),
    ensures
        all_digits(ds) ==> decimal(ds.take(k)) <= decimal(ds),
    decreases ds.len() - k,
{
    if k < ds.len() {
        lemma_decimal_prefix_bound(ds, k + 1);
        assert(ds.take(k + 1).drop_last() =~= ds.take(k));
        if all_digits(ds) {
            assert('0' <= ds[k] <= '9');
            assert(ds.take(k + 1).last() == ds[k]);
        }
    } else {
        assert(ds.take(k) =~= ds);
    }
}

/// First index at or after `from` holding `c`, or the length.
fn find_from(v: &Vec<char>, from: usize, c: char) -> (r: usize)
    requires
        from <= v@.len(),
    ensures
        from <= r <= v@.len(),
        r < v@.len() ==> find_char(v@.skip(from as int), c) == Some(r - from),
        r == v@.len() ==> find_char(v@.skip(from as int), c) is None,
{
    let ghost s = v@.skip(from as int);
    let mut k = from;
    assert(s.take(0) =~= Seq::<char>::empty());
    while k < v.len() && v[k] != c
        invariant
            from <= k <= v@.len(),
            s == v@.skip(from as int),
            find_char(s.take(k - from), c) is None,
        decreases v@.len() - k,
    {
        assert(s.take(k + 1 - from).drop_last() =~= s.take(k - from));
        assert(s.take(k + 1 - from).last() == v@[k as int]);
        k = k + 1;
    }
    proof {
        if k < v@.len() {
            assert(s.take(k + 1 - from).drop_last() =~= s.take(k - from));
            assert(s.take(k + 1 - from).last() == c);
            lemma_find_char_prefix(s, k + 1 - from, k - from, c);
        } else {
            assert(s.take(k - from) =~= s);
        }
    }
    k
}

/// Host and port of an endpoint such as `http://127.0.0.1:50051`; `None`
/// when there is no `:port` or the port is not a 16-bit number.
pub fn url_to_host_port(endpoint: &str) -> (r: Option<(String, u16)>)
    ensures
        match r {
            Some((h, p)) => host_port(endpoint@) == Some((h@, p)),
            None => host_port(endpoint@) is None,
        },
{
    let v = chars_of(endpoint);
    assert(v@.skip(0) =~= v@);
    let s1 = strip_all_from(&v, 0, "http://");
    let s2 = strip_all_from(&v, s1, "https://");
    let ghost s = v@.skip(s2 as int);
    let c = find_from(&v, s2, ':');
    if c == v.len() {
        return None;
    }
    let e = find_from(&v, c + 1, '/');
    proof {
        let rest = s.skip(c + 1 - s2);
        assert(rest =~= v@.skip(c + 1));
        if e < v.len() {
            assert(rest.take(e - c - 1) =~= v@.subrange(c + 1, e as int));
        } else {
            assert(rest =~= v@.subrange(c + 1, e as int));
        }
        assert(s.take(c - s2) =~= v@.subrange(s2 as int, c as int));
    }
    match parse_port(&v, c + 1, e) {
        Some(port) => {
            let mut host = String::new();
            crate::strings::push_range(&mut host, &v, s2, c);
            Some((host, port))
        },
        None => None,
    }
}

proof fn lemma_find_char_prefix(s: Seq<char>, k: int, i: int, c: char)
    requires
        0 <= k <= s.len(),
        find_char(s.take(k), c) == Some(i),
    ensures
        find_char(s, c) == Some(i),
    decreases s.len() - k,
{
    if k < s.len() {
        assert(s.take(k + 1).drop_last() =~= s.take(k));
        lemma_find_char_prefix(s, k + 1, i, c);
    } else {
        assert(s.take(k) =~= s);
    }
}

} // verus!
