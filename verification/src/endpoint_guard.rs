//! Transport guard for the API URL.
//!
//! The API key travels in a header of every request. Over `http://` to a remote host anything on
//! the path can read that header, so such a URL is refused. Loopback is exempt: plaintext to a
//! socket on the same machine crosses no network. A refusal, and no warning: a warning is invisible
//! wherever standard error is redirected, and a leaked key gives no error when it leaks. Who has a
//! reason (an SSH tunnel, a service mesh that terminates TLS elsewhere) can opt out.

use crate::ip_addr;
use crate::text;
use crate::text::Strip;
use crate::unicode;
use vstd::prelude::*;

verus! {

/// The refusal, up to the URL.
pub const REFUSAL_START: &'static str =
    "refusing to send the API key in cleartext: --api-url is ";

/// The refusal, between the URL and the host.
pub const REFUSAL_MIDDLE: &'static str = ", which is plain http:// to the remote host `";

/// The refusal, between the host and the switch.
pub const REFUSAL_ADVICE: &'static str =
    "`. Every request this command makes carries the key in an \
         x-api-key header, and over http:// anything on the path can read it.\n\n  \
         Use an https:// URL, or point --api-url at loopback (127.0.0.1 / ::1 / localhost) and \
         tunnel to the server.\n  \
         If TLS genuinely terminates elsewhere — a service mesh, an SSH tunnel you trust — set ";

/// The switch that opts out.
pub const REFUSAL_SWITCH: &'static str = "SHODH_ALLOW_HTTP";

/// The refusal, after the switch.
pub const REFUSAL_END: &'static str =
    "=true to opt out. That is the same switch the MCP server uses.";

/// The message with which a URL is refused.
pub open spec fn refusal(url: Seq<char>, host: Seq<char>) -> Seq<char> {
    REFUSAL_START@ + url + REFUSAL_MIDDLE@ + host + REFUSAL_ADVICE@ + REFUSAL_SWITCH@ + REFUSAL_END@
}

/// A host without the brackets that a URL puts around an IPv6 address.
pub open spec fn unbracketed(host: Seq<char>) -> Seq<char> {
    text::trim_end(text::trim_start(host, Strip::OpeningBracket), Strip::ClosingBracket)
}

/// A host for which plaintext crosses no network: `localhost` in any case, or a loopback address.
/// No other name is taken for local.
pub open spec fn loopback_host(host: Seq<char>) -> bool {
    let h = unbracketed(host);
    unicode::same_ignoring_ascii_case(h, "localhost"@) || ip_addr::is_loopback(h)
}

/// What follows `://` in a URL whose scheme is `http`.
pub open spec fn after_http(url: Seq<char>) -> Option<Seq<char>> {
    match text::find(url, "://"@) {
        Some(k) if unicode::same_ignoring_ascii_case(url.take(k), "http"@) => Some(
            url.skip(k + 3),
        ),
        _ => None,
    }
}

/// Where the authority ends: at the first `/`, `?` or `#`.
pub open spec fn authority_end(s: Seq<char>) -> nat
    decreases s.len(),
{
    if s.len() == 0 || s[0] == '/' || s[0] == '?' || s[0] == '#' {
        0
    } else {
        1 + authority_end(s.drop_first())
    }
}

/// An authority without its user information, which ends with the last `@`.
pub open spec fn without_userinfo(authority: Seq<char>) -> Seq<char> {
    match authority.index_of_last('@') {
        Some(k) => authority.skip(k + 1),
        None => authority,
    }
}

/// A host and port without the port: up to the last `]`, or else up to the first colon.
pub open spec fn without_port(s: Seq<char>) -> Seq<char> {
    match s.index_of_last(']') {
        Some(k) => s.take(k + 1),
        None => match s.index_of_first(':') {
            Some(k) => s.take(k),
            None => s,
        },
    }
}

/// The host in what follows the scheme of a URL.
pub open spec fn host_in(rest: Seq<char>) -> Seq<char> {
    without_port(without_userinfo(rest.take(authority_end(rest) as int)))
}

/// The remote host to which a URL would send cleartext, if it would.
pub open spec fn cleartext_host(url: Seq<char>) -> Option<Seq<char>> {
    match after_http(url) {
        Some(rest) if !loopback_host(host_in(rest)) => Some(host_in(rest)),
        _ => None,
    }
}

/// Whether the switch is set: `true`, in any case, or `1`.
pub open spec fn opted_out(allow_http: Option<&str>) -> bool {
    match allow_http {
        Some(v) => unicode::same_ignoring_ascii_case(v@, "true"@) || v@ == "1"@,
        None => false,
    }
}

/// Whether plaintext to the host crosses no network.
pub fn is_loopback_host(host: &str) -> (r: bool)
    ensures
        r == loopback_host(host@),
{
    names_loopback(text::chars_of(host).as_slice())
}

fn names_loopback(host: &[char]) -> (r: bool)
    ensures
        r == loopback_host(host@),
{
    let h = text::trimmed_end(
        text::trimmed_start(host, Strip::OpeningBracket),
        Strip::ClosingBracket,
    );
    text::same_but_case(h, text::chars_of("localhost").as_slice()) || ip_addr::writes_loopback(h)
}

/// The host in what follows the scheme of a URL.
fn read_host(rest: &[char]) -> (r: &[char])
    ensures
        r@ == host_in(rest@),
{
    let mut end: usize = 0;
    assert(rest@.skip(0) == rest@);
    while end < rest.len() && rest[end] != '/' && rest[end] != '?' && rest[end] != '#'
        invariant
            end <= rest.len(),
            authority_end(rest@) == end + authority_end(rest@.skip(end as int)),
        decreases rest.len() - end,
    {
        assert(rest@.skip(end as int).drop_first() == rest@.skip(end + 1));
        end += 1;
    }
    let authority = vstd::slice::slice_subrange(rest, 0, end);
    assert(authority@ == rest@.take(end as int));
    proof {
        authority@.index_of_last_ensures('@');
    }
    let server = match text::last_of(authority, '@') {
        Some(k) => {
            let after = vstd::slice::slice_subrange(authority, k + 1, authority.len());
            assert(after@ == authority@.skip(k + 1));
            after
        },
        None => authority,
    };
    proof {
        server@.index_of_last_ensures(']');
        server@.index_of_first_ensures(':');
    }
    match text::last_of(server, ']') {
        Some(k) => {
            let host = vstd::slice::slice_subrange(server, 0, k + 1);
            assert(host@ == server@.take(k + 1));
            host
        },
        None => match text::first_of(server, ':') {
            Some(k) => {
                let host = vstd::slice::slice_subrange(server, 0, k);
                assert(host@ == server@.take(k as int));
                host
            },
            None => server,
        },
    }
}

/// Refuses a URL that would send the API key in cleartext across a network, with a message that
/// names the host, unless the switch `allow_http` says otherwise.
///
/// A URL with another scheme, or with none, is left to the HTTP client.
pub fn check_api_url(url: &str, allow_http: Option<&str>) -> (r: Result<(), String>)
    ensures
        r is Ok <==> cleartext_host(url@) is None || opted_out(allow_http),
        r matches Err(message) ==> message@ == refusal(url@, cleartext_host(url@).unwrap()),
        cleartext_host(url@) is Some ==> (r is Ok <==> (allow_http matches Some(v) && (v@ == seq!['1']
            || (v@.len() == 4 && (v@[0] == 't' || v@[0] == 'T') && (v@[1] == 'r' || v@[1] == 'R') && (
        v@[2] == 'u' || v@[2] == 'U') && (v@[3] == 'e' || v@[3] == 'E'))))),
{
    proof {
        law_opt_out_values(allow_http);
    }
    let skip = match allow_http {
        Some(v) => {
            let value = text::chars_of(v);
            text::same_but_case(value.as_slice(), text::chars_of("true").as_slice())
                || text::same_chars(value.as_slice(), text::chars_of("1").as_slice())
        },
        None => false,
    };
    let chars = text::chars_of(url);
    let separator = text::chars_of("://");
    proof {
        reveal_strlit("://");
        text::lemma_find_in_range(url@, "://"@);
    }
    let at = match text::position_of(chars.as_slice(), separator.as_slice()) {
        Some(k) => k,
        None => return Ok(()),
    };
    assert(text::occurs_at(url@, "://"@, at as int));
    assert(at + 3 <= chars.len());
    let scheme = vstd::slice::slice_subrange(chars.as_slice(), 0, at);
    let rest = vstd::slice::slice_subrange(chars.as_slice(), at + 3, chars.len());
    assert(scheme@ == url@.take(at as int));
    assert(rest@ == url@.skip(at + 3));
    if !text::same_but_case(scheme, text::chars_of("http").as_slice()) {
        return Ok(());
    }
    let host = read_host(rest);
    if names_loopback(host) || skip {
        return Ok(());
    }
    let mut message = REFUSAL_START.to_string();
    message.append(url);
    message.append(REFUSAL_MIDDLE);
    message.append(text::string_of(host).as_str());
    message.append(REFUSAL_ADVICE);
    message.append(REFUSAL_SWITCH);
    message.append(REFUSAL_END);
    Err(message)
}

proof fn lemma_scheme(scheme: Seq<char>, rest: Seq<char>)
    requires
        !scheme.contains(':'),
    ensures
        after_http(scheme + "://"@ + rest) == if unicode::same_ignoring_ascii_case(
            scheme,
            "http"@,
        ) {
            Some(rest)
        } else {
            None
        },
{
    reveal_strlit("://");
    let url = scheme + "://"@ + rest;
    let n = scheme.len() as int;
    text::lemma_find_in_range(url, "://"@);
    assert(url.subrange(n, n + 3) =~= "://"@);
    assert(text::occurs_at(url, "://"@, n));
    let k = text::find(url, "://"@).unwrap();
    assert(text::occurs_at(url, "://"@, k));
    assert(k <= n);
    assert(url.subrange(k, k + 3)[0] == ':');
    if k < n {
        assert(scheme[k] == ':');
        assert(false);
    }
    assert(url.take(n) =~= scheme);
    assert(url.skip(n + 3) =~= rest);
}

/// A URL whose scheme is `https`, in any case, is never refused.
pub proof fn law_https_is_never_refused(scheme: Seq<char>, rest: Seq<char>)
    requires
        unicode::same_ignoring_ascii_case(scheme, "https"@),
    ensures
        cleartext_host(scheme + "://"@ + rest) is None,
{
    reveal_strlit("https");
    reveal_strlit("http");
    let low = unicode::ascii_lowercase(scheme);
    let https = unicode::ascii_lowercase("https"@);
    assert(low.len() == 5 && scheme.len() == 5);
    assert forall|i: int| 0 <= i < scheme.len() implies scheme[i] != ':' by {
        assert(low[i] == unicode::ascii_lower(scheme[i]));
        assert(https[i] == unicode::ascii_lower("https"@[i]));
        assert("https"@[i] != ':');
    }
    lemma_scheme(scheme, rest);
    assert(unicode::ascii_lowercase("http"@).len() == 4);
}

/// A host as a URL writes it: a bracketed address, or a name without colons and brackets.
pub open spec fn is_url_host(host: Seq<char>) -> bool {
    &&& !host.contains('/') && !host.contains('?') && !host.contains('#') && !host.contains('@')
    &&& (host.len() > 0 && host.last() == ']') || (!host.contains(']') && !host.contains(':'))
}

/// Nothing, or a colon and a port.
pub open spec fn is_url_port(port: Seq<char>) -> bool {
    &&& port.len() > 0 ==> port[0] == ':'
    &&& !port.contains('/') && !port.contains('?') && !port.contains('#') && !port.contains('@')
        && !port.contains(']')
}

/// Nothing, or a path, a query or a fragment.
pub open spec fn is_url_tail(tail: Seq<char>) -> bool {
    tail.len() > 0 ==> tail[0] == '/' || tail[0] == '?' || tail[0] == '#'
}

proof fn lemma_authority_end(authority: Seq<char>, tail: Seq<char>)
    requires
        !authority.contains('/') && !authority.contains('?') && !authority.contains('#'),
        is_url_tail(tail),
    ensures
        authority_end(authority + tail) == authority.len(),
{
    lemma_authority_end_shifts(authority, tail);
}

proof fn lemma_contains_add(a: Seq<char>, b: Seq<char>, c: char)
    ensures
        (a + b).contains(c) <==> a.contains(c) || b.contains(c),
{
    let s = a + b;
    if a.contains(c) {
        let k = choose|k: int| 0 <= k < a.len() && a[k] == c;
        assert(s[k] == c);
    }
    if b.contains(c) {
        let k = choose|k: int| 0 <= k < b.len() && b[k] == c;
        assert(s[a.len() + k] == c);
    }
    if s.contains(c) {
        let k = choose|k: int| 0 <= k < s.len() && s[k] == c;
        if k < a.len() {
            assert(a[k] == c);
        } else {
            assert(b[k - a.len()] == c);
        }
    }
}

proof fn lemma_without_port(host: Seq<char>, port: Seq<char>)
    requires
        is_url_host(host),
        is_url_port(port),
    ensures
        without_port(host + port) == host,
{
    let s = host + port;
    let n = host.len() as int;
    s.index_of_last_ensures(']');
    s.index_of_first_ensures(':');
    lemma_contains_add(host, port, ']');
    if host.len() > 0 && host.last() == ']' {
        assert(s[n - 1] == ']');
        assert(host.contains(host[n - 1]));
        let k = s.index_of_last(']').unwrap();
        if k >= n {
            assert(port[k - n] == ']');
            assert(false);
        }
        assert(k == n - 1);
        assert(s.take(n) =~= host);
    } else {
        assert(!s.contains(']'));
        if port.len() > 0 {
            assert(s[n] == ':');
            let k = s.index_of_first(':').unwrap();
            if k < n {
                assert(host[k] == ':');
                assert(false);
            }
            assert(s.take(n) =~= host);
        } else {
            assert(s =~= host);
        }
    }
}

/// A host is found where a URL writes it: over `http`, a host with a port and a path after it is
/// refused if and only if it is not loopback, whatever the port and the path.
pub proof fn law_host_decides(host: Seq<char>, port: Seq<char>, tail: Seq<char>)
    requires
        is_url_host(host),
        is_url_port(port),
        is_url_tail(tail),
    ensures
        cleartext_host("http"@ + "://"@ + (host + port + tail)) == if loopback_host(host) {
            None
        } else {
            Some(host)
        },
{
    let authority = host + port;
    let rest = authority + tail;
    reveal_strlit("http");
    lemma_scheme("http"@, rest);
    lemma_contains_add(host, port, '/');
    lemma_contains_add(host, port, '?');
    lemma_contains_add(host, port, '#');
    lemma_contains_add(host, port, '@');
    lemma_authority_end(authority, tail);
    assert(rest.take(authority.len() as int) =~= authority);
    authority.index_of_last_ensures('@');
    lemma_without_port(host, port);
}

/// Over `http`, in any case, the host alone decides: a URL is refused if and only if its host is not
/// loopback, and then for that host.
pub proof fn law_http_is_decided_by_the_host(scheme: Seq<char>, rest: Seq<char>)
    requires
        unicode::same_ignoring_ascii_case(scheme, "http"@),
    ensures
        cleartext_host(scheme + "://"@ + rest) == if loopback_host(host_in(rest)) {
            None
        } else {
            Some(host_in(rest))
        },
{
    reveal_strlit("http");
    let low = unicode::ascii_lowercase(scheme);
    let http = unicode::ascii_lowercase("http"@);
    assert(low.len() == 4 && scheme.len() == 4);
    assert forall|i: int| 0 <= i < scheme.len() implies scheme[i] != ':' by {
        assert(low[i] == unicode::ascii_lower(scheme[i]));
        assert(http[i] == unicode::ascii_lower("http"@[i]));
        assert("http"@[i] != ':');
    }
    lemma_scheme(scheme, rest);
}

proof fn lemma_authority_end_shifts(front: Seq<char>, rest: Seq<char>)
    requires
        !front.contains('/') && !front.contains('?') && !front.contains('#'),
    ensures
        authority_end(front + rest) == front.len() + authority_end(rest),
    decreases front.len(),
{
    let s = front + rest;
    if front.len() == 0 {
        assert(s =~= rest);
    } else {
        assert(front.contains(front[0]));
        let shorter = front.drop_first();
        assert forall|c: char| shorter.contains(c) implies front.contains(c) by {
            let k = choose|k: int| 0 <= k < shorter.len() && shorter[k] == c;
            assert(front[k + 1] == c);
        }
        lemma_authority_end_shifts(shorter, rest);
        assert(s.drop_first() =~= shorter + rest);
        assert(s[0] == front[0]);
    }
}

proof fn lemma_authority_end_bound(s: Seq<char>)
    ensures
        authority_end(s) <= s.len(),
    decreases s.len(),
{
    if s.len() > 0 {
        lemma_authority_end_bound(s.drop_first());
    }
}

/// User information never disguises the host: with or without it, whatever follows has the same
/// host, and the same URL is refused for it.
pub proof fn law_userinfo_does_not_disguise(scheme: Seq<char>, user: Seq<char>, rest: Seq<char>)
    requires
        !scheme.contains(':'),
        !user.contains('/') && !user.contains('?') && !user.contains('#'),
    ensures
        host_in(user + seq!['@'] + rest) == host_in(rest),
        cleartext_host(scheme + "://"@ + (user + seq!['@'] + rest)) == cleartext_host(
            scheme + "://"@ + rest,
        ),
{
    let front = user + seq!['@'];
    let whole = front + rest;
    let n = front.len() as int;
    assert forall|c: char| c == '/' || c == '?' || c == '#' implies !front.contains(c) by {
        lemma_contains_add(user, seq!['@'], c);
    }
    lemma_authority_end_shifts(front, rest);
    lemma_authority_end_bound(rest);
    let server = rest.take(authority_end(rest) as int);
    let authority = whole.take(authority_end(whole) as int);
    assert(authority =~= front + server);
    authority.index_of_last_ensures('@');
    server.index_of_last_ensures('@');
    assert(authority[n - 1] == '@');
    let k = authority.index_of_last('@').unwrap();
    if server.contains('@') {
        let m = server.index_of_last('@').unwrap();
        assert(authority[n + m] == '@');
        if k > n + m {
            assert(server[k - n] == '@');
            assert(false);
        }
        assert(authority.skip(n + m + 1) =~= server.skip(m + 1));
    } else {
        if k >= n {
            assert(server[k - n] == '@');
            assert(false);
        }
        assert(authority.skip(n) =~= server);
    }
    lemma_scheme(scheme, whole);
    lemma_scheme(scheme, rest);
}

/// What follows the authority never changes the host: a path, a query or a fragment can be there or
/// not.
pub proof fn law_tail_does_not_matter(scheme: Seq<char>, authority: Seq<char>, tail: Seq<char>)
    requires
        !scheme.contains(':'),
        !authority.contains('/') && !authority.contains('?') && !authority.contains('#'),
        is_url_tail(tail),
    ensures
        host_in(authority + tail) == host_in(authority),
        cleartext_host(scheme + "://"@ + (authority + tail)) == cleartext_host(
            scheme + "://"@ + authority,
        ),
{
    lemma_authority_end(authority, tail);
    lemma_authority_end(authority, Seq::empty());
    assert(authority + Seq::<char>::empty() =~= authority);
    assert((authority + tail).take(authority.len() as int) =~= authority);
    assert(authority.take(authority.len() as int) =~= authority);
    lemma_scheme(scheme, authority + tail);
    lemma_scheme(scheme, authority);
}

/// A name is never taken for local unless it is `localhost` itself: a host with a character that
/// no address is written with is loopback if and only if it is `localhost`, up to case.
pub proof fn law_names_are_remote(host: Seq<char>, i: int)
    requires
        0 <= i < unbracketed(host).len(),
        !ip_addr::is_address_char(unbracketed(host)[i]),
    ensures
        loopback_host(host) <==> unicode::same_ignoring_ascii_case(
            unbracketed(host),
            "localhost"@,
        ),
{
    if ip_addr::is_loopback(unbracketed(host)) {
        ip_addr::law_loopback_alphabet(unbracketed(host), i);
    }
}

/// A host that merely ends in `localhost` is remote.
pub proof fn law_localhost_suffix_is_remote(prefix: Seq<char>)
    requires
        prefix.len() > 0,
        prefix[0] != '[',
    ensures
        !loopback_host(prefix + "localhost"@),
{
    reveal_strlit("localhost");
    let host = prefix + "localhost"@;
    assert(host[0] == prefix[0]);
    assert(host.last() == 't');
    assert(unbracketed(host) == host);
    assert(host[prefix.len() as int] == 'l');
    law_names_are_remote(host, prefix.len() as int);
    assert(unicode::ascii_lowercase(host).len() != unicode::ascii_lowercase("localhost"@).len());
}

/// Every refusal names the URL, the host and the switch that opts out.
pub proof fn law_refusal_names_host_and_switch(url: Seq<char>, host: Seq<char>)
    ensures
        exists|i: int| #[trigger] text::occurs_at(refusal(url, host), url, i),
        exists|i: int| #[trigger] text::occurs_at(refusal(url, host), host, i),
        exists|i: int| #[trigger]
            text::occurs_at(refusal(url, host), "SHODH_ALLOW_HTTP"@, i),
{
    let message = refusal(url, host);
    let before_url = REFUSAL_START@.len() as int;
    let before_host = before_url + url.len() + REFUSAL_MIDDLE@.len();
    let before_switch = before_host + host.len() + REFUSAL_ADVICE@.len();
    assert(message.subrange(before_url, before_url + url.len()) =~= url);
    assert(text::occurs_at(message, url, before_url));
    assert(message.subrange(before_host, before_host + host.len()) =~= host);
    assert(text::occurs_at(message, host, before_host));
    assert(message.subrange(before_switch, before_switch + REFUSAL_SWITCH@.len())
        =~= REFUSAL_SWITCH@);
    assert(text::occurs_at(message, REFUSAL_SWITCH@, before_switch));
}

/// The switch opts out by the letters of `true`, each in either case, and by `1`, and by nothing else:
/// neither `false` nor `0`, `no` or the empty text does.
pub proof fn law_opt_out_values(allow_http: Option<&str>)
    ensures
        opted_out(allow_http) <==> (allow_http matches Some(v) && (v@ == seq!['1'] || (v@.len() == 4
            && (v@[0] == 't' || v@[0] == 'T') && (v@[1] == 'r' || v@[1] == 'R') && (v@[2] == 'u'
            || v@[2] == 'U') && (v@[3] == 'e' || v@[3] == 'E')))),
{
    reveal_strlit("true");
    reveal_strlit("1");
    assert("1"@ =~= seq!['1']);
    if let Some(v) = allow_http {
        unicode::law_case_is_all_that_differs(v@, "true"@);
        assert("true"@[0] == 't' && "true"@[1] == 'r' && "true"@[2] == 'u' && "true"@[3] == 'e');
        if unicode::same_ignoring_ascii_case(v@, "true"@) {
            assert(v@[0] == v@[0] && v@[1] == v@[1] && v@[2] == v@[2] && v@[3] == v@[3]);
        }
    }
}

/// Whether a scheme is the letters `http`, each in either case.
proof fn lemma_http_letters(scheme: Seq<char>)
    ensures
        unicode::same_ignoring_ascii_case(scheme, "http"@) <==> scheme.len() == 4 && (scheme[0] == 'h'
            || scheme[0] == 'H') && (scheme[1] == 't' || scheme[1] == 'T') && (scheme[2] == 't'
            || scheme[2] == 'T') && (scheme[3] == 'p' || scheme[3] == 'P'),
{
    reveal_strlit("http");
    unicode::law_case_is_all_that_differs(scheme, "http"@);
    assert("http"@[0] == 'h' && "http"@[1] == 't' && "http"@[2] == 't' && "http"@[3] == 'p');
    if unicode::same_ignoring_ascii_case(scheme, "http"@) {
        assert(scheme[0] == scheme[0] && scheme[1] == scheme[1] && scheme[2] == scheme[2] && scheme[3]
            == scheme[3]);
    }
}

/// Whether a colon and two slashes stand at `k`.
pub open spec fn scheme_ends_at(url: Seq<char>, k: int) -> bool {
    0 <= k && k + 3 <= url.len() && url[k] == ':' && url[k + 1] == '/' && url[k + 2] == '/'
}

proof fn lemma_scheme_end(url: Seq<char>, k: int)
    ensures
        text::occurs_at(url, "://"@, k) <==> scheme_ends_at(url, k),
{
    reveal_strlit("://");
    if scheme_ends_at(url, k) {
        assert(url.subrange(k, k + 3) =~= "://"@);
    }
    if text::occurs_at(url, "://"@, k) {
        let here = url.subrange(k, k + 3);
        assert(here[0] == ':' && here[1] == '/' && here[2] == '/');
    }
}

/// Only `http` is guarded: what stands before the first `://` must be those four letters, in any case,
/// or else nothing is refused; then the URL is refused for the host in what follows, unless that is
/// loopback. Without `://` nothing is refused.
pub proof fn law_only_http_is_guarded(url: Seq<char>, k: int)
    requires
        forall|j: int| 0 <= j < k ==> !#[trigger] scheme_ends_at(url, j),
        scheme_ends_at(url, k) || k >= url.len(),
    ensures
        cleartext_host(url) == if scheme_ends_at(url, k) && k == 4 && (url[0] == 'h' || url[0] == 'H')
            && (url[1] == 't' || url[1] == 'T') && (url[2] == 't' || url[2] == 'T') && (url[3] == 'p'
            || url[3] == 'P') && !loopback_host(host_in(url.skip(7))) {
            Some(host_in(url.skip(7)))
        } else {
            None
        },
{
    reveal_strlit("://");
    text::lemma_find_in_range(url, "://"@);
    assert forall|j: int| 0 <= j < k implies !#[trigger] text::occurs_at(url, "://"@, j) by {
        lemma_scheme_end(url, j);
    }
    lemma_scheme_end(url, k);
    if scheme_ends_at(url, k) {
        assert(text::find(url, "://"@) == Some(k));
        let scheme = url.take(k);
        lemma_http_letters(scheme);
        if k == 4 {
            assert(scheme[0] == url[0] && scheme[1] == url[1] && scheme[2] == url[2] && scheme[3]
                == url[3]);
        }
    } else {
        if let Some(j) = text::find(url, "://"@) {
            assert(text::occurs_at(url, "://"@, j));
            lemma_scheme_end(url, j);
            assert(scheme_ends_at(url, j));
        }
    }
}

/// Where a host ends: a bracket closes it if there is one, whatever follows without another; or else
/// the first colon ends it, or the end of the authority.
pub proof fn law_where_hosts_end(host: Seq<char>, rest: Seq<char>)
    requires
        forall|i: int|
            0 <= i < (host + rest).len() ==> #[trigger] (host + rest)[i] != '/' && (host + rest)[i]
                != '?' && (host + rest)[i] != '#' && (host + rest)[i] != '@',
        !rest.contains(']'),
        (host.len() > 0 && host.last() == ']') || (!host.contains(']') && !host.contains(':') && (
        rest.len() > 0 ==> rest[0] == ':')),
    ensures
        host_in(host + rest) == host,
{
    let s = host + rest;
    let n = host.len() as int;
    assert(!s.contains('/') && !s.contains('?') && !s.contains('#') && !s.contains('@'));
    lemma_authority_end(s, Seq::empty());
    assert(s + Seq::<char>::empty() =~= s);
    assert(s.take(s.len() as int) =~= s);
    s.index_of_last_ensures('@');
    s.index_of_last_ensures(']');
    s.index_of_first_ensures(':');
    lemma_contains_add(host, rest, ']');
    if host.len() > 0 && host.last() == ']' {
        assert(s[n - 1] == ']');
        assert(host.contains(host[n - 1]));
        let k = s.index_of_last(']').unwrap();
        if k >= n {
            assert(rest[k - n] == ']');
            assert(rest.contains(']'));
        }
        assert(s.take(n) =~= host);
    } else if rest.len() > 0 {
        assert(s[n] == ':');
        let k = s.index_of_first(':').unwrap();
        if k < n {
            assert(host[k] == ':');
            assert(host.contains(':'));
        }
        assert(s.take(n) =~= host);
    } else {
        assert(s =~= host);
        lemma_contains_add(host, rest, ':');
    }
}

/// A host is loopback if and only if, without the brackets around it, it is the nine letters of
/// `localhost`, each in either case, or a loopback address.
pub proof fn law_loopback_hosts(opening: Seq<char>, host: Seq<char>, closing: Seq<char>)
    requires
        forall|i: int| 0 <= i < opening.len() ==> #[trigger] opening[i] == '[',
        forall|i: int| 0 <= i < closing.len() ==> #[trigger] closing[i] == ']',
        host.len() > 0 ==> host[0] != '[' && host.last() != ']',
    ensures
        loopback_host(opening + host + closing) <==> ip_addr::is_loopback(host) || (host.len() == 9
            && forall|i: int|
            0 <= i < 9 ==> #[trigger] host[i] == seq!['l', 'o', 'c', 'a', 'l', 'h', 'o', 's', 't'][i]
                || host[i] as int == seq!['l', 'o', 'c', 'a', 'l', 'h', 'o', 's', 't'][i] as int
                - 32),
{
    reveal_strlit("localhost");
    let name = seq!['l', 'o', 'c', 'a', 'l', 'h', 'o', 's', 't'];
    assert("localhost"@ =~= name);
    assert(opening + host + closing =~= opening + (host + closing));
    text::law_stripping_at_the_start(opening, host + closing, Strip::OpeningBracket);
    text::law_stripping_at_the_end(host, closing, Strip::ClosingBracket);
    unicode::law_case_is_all_that_differs(host, name);
    assert forall|i: int| 0 <= i < 9 implies 'a' <= #[trigger] name[i] <= 'z' by {}
    if unicode::same_ignoring_ascii_case(host, name) {
        assert forall|i: int| 0 <= i < 9 implies #[trigger] host[i] == name[i] || host[i] as int
            == name[i] as int - 32 by {
            assert('a' <= name[i] <= 'z');
        }
    }
    if host.len() == 9 && forall|i: int|
        0 <= i < 9 ==> #[trigger] host[i] == name[i] || host[i] as int == name[i] as int - 32 {
        assert forall|i: int| 0 <= i < host.len() implies {
            ||| #[trigger] host[i] == name[i]
            ||| 'A' <= host[i] <= 'Z' && name[i] as int == host[i] as int + 32
            ||| 'A' <= name[i] <= 'Z' && host[i] as int == name[i] as int + 32
        } by {
            assert('a' <= name[i] <= 'z');
        }
    }
}

/// A refusal is made of the URL and the host and of nothing else that varies.
pub proof fn law_refusals_differ_in_url_and_host(
    url: Seq<char>,
    host: Seq<char>,
    other_url: Seq<char>,
    other_host: Seq<char>,
)
    ensures
        exists|end: Seq<char>|
            #![trigger refusal(url, host) + end]
            refusal(url, host) == "refusing to send the API key in cleartext: --api-url is "@ + url
                + ", which is plain http:// to the remote host `"@ + host + end && refusal(
                other_url,
                other_host,
            ) == "refusing to send the API key in cleartext: --api-url is "@ + other_url
                + ", which is plain http:// to the remote host `"@ + other_host + end,
{
    let end = REFUSAL_ADVICE@ + REFUSAL_SWITCH@ + REFUSAL_END@;
    let whole = refusal(url, host) + end;
    assert(refusal(url, host) =~= REFUSAL_START@ + url + REFUSAL_MIDDLE@ + host + end);
    assert(refusal(other_url, other_host) =~= REFUSAL_START@ + other_url + REFUSAL_MIDDLE@
        + other_host + end);
}

} // verus!
