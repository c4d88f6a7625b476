//! How the manager reaches a storage node: the other loopback form of an
//! address to try when a connection fails, and the connection settings for
//! the node's kind of ADS.
use vstd::prelude::*;
use crate::blockchain::positive_u64_setting;
use crate::config::{optional_positive_u64_setting, parse_u64_spec};
use crate::text::{chars_of, string_from_chars};
use crate::types::AdsMode;

verus! {

/// `p` occurs in `s` at `i`.
pub open spec fn occurs_at(s: Seq<char>, p: Seq<char>, i: int) -> bool {
    0 <= i && i + p.len() <= s.len() && s.subrange(i, i + p.len()) == p
}

/// `p` occurs somewhere in `s`.
pub open spec fn contains_text(s: Seq<char>, p: Seq<char>) -> bool {
    exists|i: int| occurs_at(s, p, i)
}

/// `s` with each occurrence of the non-empty `p` replaced by `r`, the
/// occurrences taken from the left without overlapping.
pub open spec fn replace_all(s: Seq<char>, p: Seq<char>, r: Seq<char>) -> Seq<char>
    decreases s.len(),
{
    if p.len() == 0 || s.len() < p.len() {
        s
    } else if s.take(p.len() as int) == p {
        r + replace_all(s.skip(p.len() as int), p, r)
    } else {
        seq![s[0]] + replace_all(s.skip(1), p, r)
    }
}

/// Whether `p` occurs in `s` at `i`.
fn occurs_at_exec(s: &Vec<char>, p: &Vec<char>, i: usize) -> (r: bool)
    ensures
        r == occurs_at(s@, p@, i as int),
{
    let n = s.len();
    if i > n || p.len() > n - i {
        return false;
    }
    let mut k: usize = 0;
    while k < p.len()
        invariant
            n == s@.len(),
            i + p@.len() <= s@.len(),
            k <= p@.len(),
            forall|t: int| 0 <= t < k ==> s@[i + t] == p@[t],
        decreases p@.len() - k,
    {
        if s[i + k] != p[k] {
            assert(s@.subrange(i as int, i + p@.len())[k as int] != p@[k as int]);
            return false;
        }
        k = k + 1;
    }
    assert(s@.subrange(i as int, i + p@.len()) =~= p@);
    true
}

/// Whether `p` occurs in `s`.
fn contains_exec(s: &Vec<char>, p: &Vec<char>) -> (r: bool)
    ensures
        r == contains_text(s@, p@),
{
    let mut i: usize = 0;
    while i <= s.len()
        invariant
            i <= s@.len() + 1,
            forall|t: int| 0 <= t < i ==> !occurs_at(s@, p@, t),
        decreases s@.len() + 1 - i,
    {
        if occurs_at_exec(s, p, i) {
            return true;
        }
        if i == s.len() {
            assert forall|t: int| #[trigger] occurs_at(s@, p@, t) implies false by {
                assert(t < i + 1);
            }
            return false;
        }
        i = i + 1;
    }
    false
}

/// Replaces each occurrence of the non-empty `p` in `s` by `r`.
fn replace_exec(s: &Vec<char>, p: &Vec<char>, r: &Vec<char>) -> (out: Vec<char>)
    requires
        p@.len() > 0,
    ensures
        out@ == replace_all(s@, p@, r@),
{
    let mut out: Vec<char> = Vec::new();
    let mut i: usize = 0;
    assert(s@.skip(0) =~= s@);
    assert(out@ + replace_all(s@, p@, r@) =~= replace_all(s@, p@, r@));
    while i < s.len()
        invariant
            p@.len() > 0,
            i <= s@.len(),
            out@ + replace_all(s@.skip(i as int), p@, r@) == replace_all(s@, p@, r@),
        decreases s@.len() - i,
    {
        let ghost rest = s@.skip(i as int);
        if occurs_at_exec(s, p, i) {
            proof {
                assert(rest.take(p@.len() as int) =~= s@.subrange(i as int, i + p@.len()));
                assert(rest.skip(p@.len() as int) =~= s@.skip(i + p@.len()));
            }
            let mut k: usize = 0;
            let ghost before = out@;
            while k < r.len()
                invariant
                    k <= r@.len(),
                    out@ == before + r@.take(k as int),
                decreases r@.len() - k,
            {
                out.push(r[k]);
                assert(r@.take(k + 1) =~= r@.take(k as int).push(r@[k as int]));
                k = k + 1;
            }
            assert(r@.take(r@.len() as int) =~= r@);
            assert(before + (r@ + replace_all(rest.skip(p@.len() as int), p@, r@)) =~= out@ + replace_all(
                s@.skip(i + p@.len()),
                p@,
                r@,
            ));
            i = i + p.len();
        } else {
            proof {
                if rest.len() >= p@.len() {
                    assert(rest.take(p@.len() as int) =~= s@.subrange(i as int, i + p@.len()));
                }
                assert(rest.skip(1) =~= s@.skip(i + 1));
            }
            let ghost before = out@;
            out.push(s[i]);
            assert(before + (seq![rest[0]] + replace_all(rest.skip(1), p@, r@)) =~= out@ + replace_all(
                s@.skip(i + 1),
                p@,
                r@,
            ));
            i = i + 1;
        }
    }
    assert(s@.skip(i as int) =~= Seq::<char>::empty());
    assert(out@ + Seq::<char>::empty() =~= out@);
    out
}

/// The other loopback form of an address, to try when connecting to it
/// fails: `127.0.0.1` becomes `[::1]` wherever it occurs, else `[::1]`
/// becomes `127.0.0.1`; `None` for an address with neither.
pub fn loopback_fallback_addr(addr: &str) -> (r: Option<String>)
    ensures
        contains_text(addr@, "127.0.0.1"@) ==> (r matches Some(s) && s@ == replace_all(addr@, "127.0.0.1"@, "[::1]"@)),
        !contains_text(addr@, "127.0.0.1"@) && contains_text(addr@, "[::1]"@) ==> (r matches Some(s) && s@
            == replace_all(addr@, "[::1]"@, "127.0.0.1"@)),
        !contains_text(addr@, "127.0.0.1"@) && !contains_text(addr@, "[::1]"@) ==> r is None,
{
    let a = chars_of(addr);
    let v4 = chars_of("127.0.0.1");
    let v6 = chars_of("[::1]");
    proof {
        reveal_strlit("127.0.0.1");
        reveal_strlit("[::1]");
    }
    if contains_exec(&a, &v4) {
        let out = replace_exec(&a, &v4, &v6);
        Some(string_from_chars(out.as_slice()))
    } else if contains_exec(&a, &v6) {
        let out = replace_exec(&a, &v6, &v4);
        Some(string_from_chars(out.as_slice()))
    } else {
        None
    }
}

/// How the manager connects to a storage node: request, connect and TCP
/// keepalive timeouts, the HTTP/2 keepalive interval and timeout (seconds;
/// none where switched off) and the limit on requests under way.
#[derive(Debug, Clone, Copy, PartialEq, Eq, Structural)]
pub struct EndpointSettings {
    pub request_timeout_secs: u64,
    pub connect_timeout_secs: u64,
    pub tcp_keepalive_secs: u64,
    pub http2_keepalive_interval_secs: Option<u64>,
    pub keep_alive_timeout_secs: Option<u64>,
    pub concurrency_limit: usize,
}

/// The ADSs whose storage nodes answer slowly and get the long timeouts:
/// MPT, AccTree and AccTrie.
pub open spec fn heavy_profile(mode: AdsMode) -> bool {
    mode is Mpt || mode is AccTree || mode is AccTrie
}

/// Whether a mode's storage nodes get the long timeouts.
pub fn uses_heavy_profile(mode: AdsMode) -> (r: bool)
    ensures
        r == heavy_profile(mode),
{
    match mode {
        AdsMode::Mpt | AdsMode::AccTree | AdsMode::AccTrie => true,
        AdsMode::Mest => false,
    }
}

/// The environment settings a profile reads, in the order request timeout,
/// connect timeout, TCP keepalive, HTTP/2 keepalive interval, keepalive
/// timeout.
pub fn endpoint_setting_names(heavy: bool) -> (r: Vec<&'static str>)
    ensures
        r@.len() == 5,
        r@[0]@ == if heavy { "MANAGER_HEAVY_STORAGER_RPC_TIMEOUT_SECS"@ } else { "MANAGER_STORAGER_RPC_TIMEOUT_SECS"@ },
        r@[1]@ == if heavy {
            "MANAGER_HEAVY_STORAGER_CONNECT_TIMEOUT_SECS"@
        } else {
            "MANAGER_STORAGER_CONNECT_TIMEOUT_SECS"@
        },
        r@[2]@ == if heavy { "MANAGER_HEAVY_STORAGER_TCP_KEEPALIVE_SECS"@ } else { "MANAGER_STORAGER_TCP_KEEPALIVE_SECS"@ },
        r@[3]@ == if heavy {
            "MANAGER_HEAVY_STORAGER_HTTP2_KEEPALIVE_INTERVAL_SECS"@
        } else {
            "MANAGER_STORAGER_HTTP2_KEEPALIVE_INTERVAL_SECS"@
        },
        r@[4]@ == if heavy {
            "MANAGER_HEAVY_STORAGER_KEEPALIVE_TIMEOUT_SECS"@
        } else {
            "MANAGER_STORAGER_KEEPALIVE_TIMEOUT_SECS"@
        },
{
    if heavy {
        vec![
            "MANAGER_HEAVY_STORAGER_RPC_TIMEOUT_SECS",
            "MANAGER_HEAVY_STORAGER_CONNECT_TIMEOUT_SECS",
            "MANAGER_HEAVY_STORAGER_TCP_KEEPALIVE_SECS",
            "MANAGER_HEAVY_STORAGER_HTTP2_KEEPALIVE_INTERVAL_SECS",
            "MANAGER_HEAVY_STORAGER_KEEPALIVE_TIMEOUT_SECS",
        ]
    } else {
        vec![
            "MANAGER_STORAGER_RPC_TIMEOUT_SECS",
            "MANAGER_STORAGER_CONNECT_TIMEOUT_SECS",
            "MANAGER_STORAGER_TCP_KEEPALIVE_SECS",
            "MANAGER_STORAGER_HTTP2_KEEPALIVE_INTERVAL_SECS",
            "MANAGER_STORAGER_KEEPALIVE_TIMEOUT_SECS",
        ]
    }
}

/// A timeout setting: the value when it parses as a number above zero, else
/// the default.
pub open spec fn positive_or(value: Option<Seq<char>>, default: u64) -> u64 {
    match value {
        Some(v) => match parse_u64_spec(v) {
            Some(n) => if n > 0 { n } else { default },
            None => default,
        },
        None => default,
    }
}

/// An optional setting: when set, the value if it parses as a number above
/// zero and none otherwise; when unset, the default.
pub open spec fn optional_or(value: Option<Seq<char>>, default: Option<u64>) -> Option<u64> {
    match value {
        Some(v) => match parse_u64_spec(v) {
            Some(n) => if n > 0 { Some(n) } else { None },
            None => None,
        },
        None => default,
    }
}

pub open spec fn opt_view(v: Option<&str>) -> Option<Seq<char>> {
    match v {
        Some(s) => Some(s@),
        None => None,
    }
}

/// The connection settings for a mode's storage nodes, from the values of
/// the settings `endpoint_setting_names` lists for its profile (`None`
/// where unset): the long profile defaults to an hour for requests, half a
/// minute to connect, five minutes of TCP keepalive, two minutes between
/// HTTP/2 pings and an hour to wait for their answer; the short one to ten
/// minutes, half a minute, two minutes, one minute and two minutes. The
/// keepalive timeout counts only with a keepalive interval. At most 256
/// requests are under way.
pub fn endpoint_settings(
    mode: AdsMode,
    request_timeout: Option<&str>,
    connect_timeout: Option<&str>,
    tcp_keepalive: Option<&str>,
    http2_keepalive_interval: Option<&str>,
    keep_alive_timeout: Option<&str>,
) -> (r: EndpointSettings)
    ensures
        r.request_timeout_secs == positive_or(opt_view(request_timeout), if heavy_profile(mode) { 3600 } else { 600 }),
        r.connect_timeout_secs == positive_or(opt_view(connect_timeout), 30),
        r.tcp_keepalive_secs == positive_or(opt_view(tcp_keepalive), if heavy_profile(mode) { 300 } else { 120 }),
        r.http2_keepalive_interval_secs == optional_or(
            opt_view(http2_keepalive_interval),
            Some(if heavy_profile(mode) { 120u64 } else { 60u64 }),
        ),
        r.keep_alive_timeout_secs == if r.http2_keepalive_interval_secs is Some {
            optional_or(opt_view(keep_alive_timeout), Some(if heavy_profile(mode) { 3600u64 } else { 120u64 }))
        } else {
            None
        },
        r.concurrency_limit == 256,
{
    let heavy = uses_heavy_profile(mode);
    let request_timeout_secs = positive_u64_setting(request_timeout, if heavy { 3600 } else { 600 });
    let connect_timeout_secs = positive_u64_setting(connect_timeout, 30);
    let tcp_keepalive_secs = positive_u64_setting(tcp_keepalive, if heavy { 300 } else { 120 });
    let http2_keepalive_interval_secs = optional_positive_u64_setting(
        http2_keepalive_interval,
        Some(if heavy { 120 } else { 60 }),
    );
    let keep_alive_timeout_secs = if http2_keepalive_interval_secs.is_some() {
        optional_positive_u64_setting(keep_alive_timeout, Some(if heavy { 3600 } else { 120 }))
    } else {
        None
    };
    EndpointSettings {
        request_timeout_secs,
        connect_timeout_secs,
        tcp_keepalive_secs,
        http2_keepalive_interval_secs,
        keep_alive_timeout_secs,
        concurrency_limit: 256,
    }
}

} // verus!
