//! Decisions of the LLM client: which endpoint URL to call, whether an
//! endpoint is local or private, and how a streamed response is cut into
//! server-sent-event payloads.
//!
//! Sending requests, resolving host names and parsing the JSON text of each
//! event belong to the caller.
use vstd::prelude::*;
use crate::text::{matches_at, occurs_at, chars_of, concat2, concat3, ends_with, has_prefix, has_suffix, starts_with, string_of, str_eq, trim_chars, trimmed};
use crate::vector_store::{lowercase_of, to_lowercase};
use crate::json::{element, json_document_of, member, parse_json_document, string_of_value, JsonValue};

verus! {

// ---------------------------------------------------------------------------
// Local and private addresses
// ---------------------------------------------------------------------------

/// Host names that name the local machine or the local network.
pub open spec fn localhost_name(h: Seq<char>) -> bool {
    ||| h == "localhost"@
    ||| h == "local"@
    ||| has_suffix(h, ".localhost"@)
    ||| has_suffix(h, ".local"@)
}

/// Whether a host name (in any case) refers to a local address by name:
/// `localhost`, `local`, or a name under `.localhost` or `.local`.
pub fn is_localhost_hostname(host: &str) -> (r: bool)
    ensures
        r == localhost_name(lowercase_of(host@)),
{
    let h = to_lowercase(host);
    let hs = h.as_str();
    if str_eq(hs, "localhost") || str_eq(hs, "local") {
        return true;
    }
    let chars = chars_of(hs);
    ends_with(chars.as_slice(), chars_of(".localhost").as_slice())
        || ends_with(chars.as_slice(), chars_of(".local").as_slice())
}

/// An IP address, as its octets or segments.
#[derive(Clone, Copy, Debug, PartialEq, Eq, Structural)]
pub enum IpAddress {
    /// The four octets.
    V4(u8, u8, u8, u8),
    /// The eight segments.
    V6(u16, u16, u16, u16, u16, u16, u16, u16),
}

/// Loopback (`127.0.0.0/8`, `::1`), private IPv4 (`10/8`, `172.16/12`,
/// `192.168/16`), IPv4 link-local (`169.254/16`) or IPv6 unique local (`fc00::/7`).
pub open spec fn local_or_private(ip: IpAddress) -> bool {
    match ip {
        IpAddress::V4(a, b, _, _) => {
            ||| a == 127
            ||| a == 10
            ||| (a == 172 && 16 <= b <= 31)
            ||| (a == 192 && b == 168)
            ||| (a == 169 && b == 254)
        },
        IpAddress::V6(s0, s1, s2, s3, s4, s5, s6, s7) => {
            ||| (s0 == 0 && s1 == 0 && s2 == 0 && s3 == 0 && s4 == 0 && s5 == 0 && s6 == 0 && s7 == 1)
            ||| (0xfc00 <= s0 <= 0xfdff)
        },
    }
}

/// Whether an IP address is private, loopback, or link-local.
pub fn is_private_or_loopback(ip: &IpAddress) -> (r: bool)
    ensures
        r == local_or_private(*ip),
{
    match ip {
        IpAddress::V4(a, b, _, _) => {
            let (a, b) = (*a, *b);
            a == 127 || a == 10 || (a == 172 && 16 <= b && b <= 31) || (a == 192 && b == 168) || (a == 169
                && b == 254)
        },
        IpAddress::V6(s0, s1, s2, s3, s4, s5, s6, s7) => {
            (*s0 == 0 && *s1 == 0 && *s2 == 0 && *s3 == 0 && *s4 == 0 && *s5 == 0 && *s6 == 0 && *s7 == 1)
                || (0xfc00 <= *s0 && *s0 <= 0xfdff)
        },
    }
}

// ---------------------------------------------------------------------------
// Endpoint validation
// ---------------------------------------------------------------------------

/// The scheme and host of a URL as the `url` crate parses it, or the
/// parse error's message.
pub uninterp spec fn url_parts_of(url: Seq<char>) -> Result<(Seq<char>, Option<Seq<char>>), Seq<char>>;

/// `url::Url::parse` (through `str::parse`), then `scheme()` and
/// `host_str()`; a failure gives the error's `Display` text. The result is
/// the named parts of the argument.
#[verifier::external_body]
fn parse_url(url: &str) -> (r: Result<(String, Option<String>), String>)
    ensures
        match r {
            Ok((scheme, host)) => url_parts_of(url@) == Ok::<(Seq<char>, Option<Seq<char>>), Seq<char>>(
                (scheme@, match host { Some(h) => Some(h@), None => None })),
            Err(e) => url_parts_of(url@) == Err::<(Seq<char>, Option<Seq<char>>), Seq<char>>(e@),
        },
{
    match url.parse::<url::Url>() {
        Ok(u) => Ok((u.scheme().to_string(), u.host_str().map(|h| h.to_string()))),
        Err(e) => Err(e.to_string()),
    }
}

/// The host an endpoint URL may be called at, or why it may not: it must
/// parse, use `http` or `https`, and name a host.
pub open spec fn endpoint_host(url: Seq<char>) -> Result<Seq<char>, Seq<char>> {
    match url_parts_of(url) {
        Err(e) => Err(e),
        Ok((scheme, host)) => if scheme != "http"@ && scheme != "https"@ {
            Err("Only http and https schemes are allowed for LLM endpoints, got: "@ + scheme)
        } else {
            match host {
                Some(h) => Ok(h),
                None => Err("Invalid URL: no host part in '"@ + url + "'"@),
            }
        },
    }
}

/// Checks an LLM endpoint URL: it must parse and use `http` or `https`
/// with a host; the host is returned for the address checks.
pub fn parse_endpoint(url: &str) -> (r: Result<String, String>)
    ensures
        match r {
            Ok(h) => endpoint_host(url@) == Ok::<Seq<char>, Seq<char>>(h@),
            Err(e) => endpoint_host(url@) == Err::<Seq<char>, Seq<char>>(e@),
        },
{
    let (scheme, host) = match parse_url(url) {
        Ok(p) => p,
        Err(e) => {
            return Err(e);
        },
    };
    if !str_eq(scheme.as_str(), "http") && !str_eq(scheme.as_str(), "https") {
        return Err(concat2("Only http and https schemes are allowed for LLM endpoints, got: ", scheme.as_str()));
    }
    match host {
        Some(h) => Ok(h),
        None => Err(concat3("Invalid URL: no host part in '", url, "'")),
    }
}

/// The first resolved address (with its text) that is local or private.
pub open spec fn first_local(ips: Seq<(IpAddress, String)>) -> Option<int>
    decreases ips.len(),
{
    if ips.len() == 0 {
        None
    } else if local_or_private(ips[0].0) {
        Some(0)
    } else {
        match first_local(ips.drop_first()) {
            Some(i) => Some(i + 1),
            None => None,
        }
    }
}

/// What the resolved addresses of an endpoint's host allow: in strict mode
/// a local or private address is refused (naming the host and the first
/// such address); otherwise all are allowed.
pub open spec fn resolved_verdict(host: Seq<char>, ips: Seq<(IpAddress, String)>, strict: bool) -> Result<(), Seq<char>> {
    match first_local(ips) {
        Some(i) => if strict {
            Err("LLM endpoint hostname '"@ + host + "' resolves to a local or private address ("@ + ips[i].1@
                + ")"@)
        } else {
            Ok(())
        },
        None => Ok(()),
    }
}

proof fn lemma_first_local_is_first(ips: Seq<(IpAddress, String)>)
    ensures
        first_local(ips) is None <==> forall|i: int| 0 <= i < ips.len() ==> !local_or_private(#[trigger] ips[i].0),
        first_local(ips) matches Some(i) ==> 0 <= i < ips.len() && local_or_private(ips[i].0)
            && forall|j: int| 0 <= j < i ==> !local_or_private(#[trigger] ips[j].0),
    decreases ips.len(),
{
    if ips.len() > 0 {
        lemma_first_local_is_first(ips.drop_first());
        assert forall|j: int| 1 <= j < ips.len() implies ips[j] == #[trigger] ips.drop_first()[j - 1] by {}
        if !local_or_private(ips[0].0) && first_local(ips.drop_first()) is None {
            assert forall|i: int| 0 <= i < ips.len() implies !local_or_private(#[trigger] ips[i].0) by {
                if i > 0 {
                    assert(ips[i] == ips.drop_first()[i - 1]);
                }
            }
        }
        if let Some(k) = first_local(ips.drop_first()) {
            assert(ips[k + 1] == ips.drop_first()[k]);
            if !local_or_private(ips[0].0) {
                assert forall|j: int| 0 <= j < k + 1 implies !local_or_private(#[trigger] ips[j].0) by {
                    if j > 0 {
                        assert(ips[j] == ips.drop_first()[j - 1]);
                    }
                }
            }
        }
    }
}

/// In strict mode an endpoint is refused exactly when one of the addresses
/// its host resolved to is local or private, and the refusal names the first
/// such address; outside strict mode it is never refused for its addresses.
pub proof fn lemma_resolved_refusal(host: Seq<char>, ips: Seq<(IpAddress, String)>, strict: bool)
    ensures
        resolved_verdict(host, ips, strict) is Err <==>
            (strict && exists|i: int| 0 <= i < ips.len() && local_or_private(#[trigger] ips[i].0)),
        resolved_verdict(host, ips, strict) is Err ==> exists|i: int| {
            &&& 0 <= i < ips.len()
            &&& local_or_private(#[trigger] ips[i].0)
            &&& forall|j: int| 0 <= j < i ==> !local_or_private(#[trigger] ips[j].0)
            &&& resolved_verdict(host, ips, strict) == Err::<(), Seq<char>>("LLM endpoint hostname '"@ + host
                + "' resolves to a local or private address ("@ + ips[i].1@ + ")"@)
        },
{
    lemma_first_local_is_first(ips);
    if let Some(i) = first_local(ips) {
        assert(local_or_private(ips[i].0));
    }
}

/// Checks the addresses an endpoint's host resolved to (each with its
/// text); `strict` refuses local and private addresses.
pub fn check_resolved(host: &str, ips: &Vec<(IpAddress, String)>, strict: bool) -> (r: Result<(), String>)
    ensures
        match r {
            Ok(()) => resolved_verdict(host@, ips@, strict) is Ok,
            Err(e) => resolved_verdict(host@, ips@, strict) == Err::<(), Seq<char>>(e@),
        },
{
    let mut i: usize = 0;
    proof {
        assert(ips@.skip(0) =~= ips@);
    }
    while i < ips.len()
        invariant
            i <= ips@.len(),
            first_local(ips@) == match first_local(ips@.skip(i as int)) {
                Some(k) => Some(k + i),
                None => None::<int>,
            },
        decreases ips@.len() - i,
    {
        proof {
            assert(ips@.skip(i as int)[0] == ips@[i as int]);
            assert(ips@.skip(i as int).drop_first() =~= ips@.skip(i + 1));
        }
        if is_private_or_loopback(&ips[i].0) {
            if strict {
                let a = concat3("LLM endpoint hostname '", host, "' resolves to a local or private address (");
                return Err(concat3(a.as_str(), ips[i].1.as_str(), ")"));
            }
            return Ok(());
        }
        i += 1;
    }
    Ok(())
}

// ---------------------------------------------------------------------------
// Chat completion URL
// ---------------------------------------------------------------------------

/// `s` without its trailing `c` characters.
pub open spec fn strip_trailing(s: Seq<char>, c: char) -> Seq<char>
    decreases s.len(),
{
    if s.len() > 0 && s.last() == c {
        strip_trailing(s.drop_last(), c)
    } else {
        s
    }
}

/// Position of the first occurrence of `p` in `s` at or after `i`, if any.
pub open spec fn find_from(s: Seq<char>, p: Seq<char>, i: int) -> Option<int>
    decreases s.len() + 1 - i,
{
    if i < 0 || i + p.len() > s.len() {
        None
    } else if occurs_at(s, p, i) {
        Some(i)
    } else {
        find_from(s, p, i + 1)
    }
}

/// Position of the first `/` of `s` at or after `i` (the length when none).
pub open spec fn slash_from(s: Seq<char>, i: int) -> int
    decreases s.len() - i,
{
    if i < 0 || i >= s.len() {
        s.len() as int
    } else if s[i] == '/' {
        i
    } else {
        slash_from(s, i + 1)
    }
}

/// The origin of a URL: scheme, `://` and authority, i.e. its text up to the
/// first `/` after the `://` (up to its first `/` when it has no `://`).
pub open spec fn origin(s: Seq<char>) -> Seq<char> {
    let start = match find_from(s, "://"@, 0) {
        Some(p) => p + 3,
        None => 0,
    };
    s.take(slash_from(s, start))
}

/// The chat-completions URL for a configured base URL: a bare host gets
/// `http://` and the path; a URL already ending in the path keeps only its
/// origin and gets the path; any other URL gets the path appended.
pub open spec fn completion_url(base: Seq<char>) -> Seq<char> {
    if !has_prefix(base, "http"@) {
        "http://"@ + base + "/chat/completions"@
    } else if has_suffix(base, "/chat/completions"@) || has_suffix(base, "/v1/chat/completions"@) {
        origin(base) + "/chat/completions"@
    } else {
        base + "/chat/completions"@
    }
}

/// The origin of `s` (see [`origin`]).
fn origin_of(s: &Vec<char>) -> (r: Vec<char>)
    ensures
        r@ == origin(s@),
{
    let sep = chars_of("://");
    proof {
        reveal_strlit("://");
    }
    let mut i: usize = 0;
    let mut start: usize = 0;
    let mut found = false;
    while s.len() >= 3 && i <= s.len() - 3 && !found
        invariant
            sep@ == "://"@,
            i <= s@.len(),
            !found ==> start == 0 && find_from(s@, "://"@, 0) == find_from(s@, "://"@, i as int),
            found ==> start >= 3 && find_from(s@, "://"@, 0) == Some(start - 3),
        decreases s@.len() - i + (if found { 0int } else { 1int }),
    {
        if matches_at(s.as_slice(), sep.as_slice(), i) {
            start = i + 3;
            found = true;
        } else {
            i += 1;
        }
    }
    let ghost st = start as int;
    proof {
        if !found {
            assert(i as int + 3 > s@.len());
            assert(find_from(s@, "://"@, i as int) is None);
            assert(st == 0);
        }
    }
    assert(st == (match find_from(s@, "://"@, 0) { Some(p) => p + 3, None => 0 }));
    let mut j: usize = start;
    if j > s.len() {
        j = s.len();
    }
    while j < s.len() && s[j] != '/'
        invariant
            j <= s@.len(),
            st <= j || j == s@.len(),
            slash_from(s@, st) == slash_from(s@, j as int),
        decreases s@.len() - j,
    {
        j += 1;
    }
    let mut r: Vec<char> = Vec::new();
    let mut k: usize = 0;
    while k < j
        invariant
            k <= j,
            j <= s@.len(),
            r@ == s@.take(k as int),
        decreases j - k,
    {
        r.push(s[k]);
        proof {
            assert(s@.take(k + 1) =~= s@.take(k as int).push(s@[k as int]));
        }
        k += 1;
    }
    r
}

/// The URL the client posts chat completions to, for a configured base URL.
pub fn chat_completions_url(base_url: &str) -> (r: String)
    ensures
        r@ == completion_url(base_url@),
{
    let b = chars_of(base_url);
    if !starts_with(b.as_slice(), chars_of("http").as_slice()) {
        return concat3("http://", base_url, "/chat/completions");
    }
    if ends_with(b.as_slice(), chars_of("/chat/completions").as_slice())
        || ends_with(b.as_slice(), chars_of("/v1/chat/completions").as_slice()) {
        let head = string_of(origin_of(&b).as_slice());
        return concat2(head.as_str(), "/chat/completions");
    }
    concat2(base_url, "/chat/completions")
}

// ---------------------------------------------------------------------------
// Server-sent events
// ---------------------------------------------------------------------------

/// The JSON payload of an event line: the line without a leading `data: `,
/// or nothing when it is the `[DONE]` marker.
pub open spec fn sse_payload_of(line: Seq<char>) -> Option<Seq<char>> {
    let body = if has_prefix(line, "data: "@) { line.skip(6) } else { line };
    if trimmed(body) == "[DONE]"@ { None } else { Some(body) }
}

/// The JSON payload of one event line (see [`sse_payload_of`]).
pub fn sse_payload(line: &str) -> (r: Option<String>)
    ensures
        match r {
            Some(p) => sse_payload_of(line@) == Some(p@),
            None => sse_payload_of(line@) is None,
        },
{
    let chars = chars_of(line);
    let prefix = chars_of("data: ");
    proof {
        reveal_strlit("data: ");
    }
    let mut body: Vec<char> = Vec::new();
    let start: usize = if starts_with(chars.as_slice(), prefix.as_slice()) { 6 } else { 0 };
    let mut i: usize = start;
    while i < chars.len()
        invariant
            start <= i <= chars@.len(),
            body@ == chars@.subrange(start as int, i as int),
        decreases chars@.len() - i,
    {
        body.push(chars[i]);
        proof {
            assert(chars@.subrange(start as int, i + 1) =~= chars@.subrange(start as int, i as int).push(chars@[i as int]));
        }
        i += 1;
    }
    proof {
        assert(chars@.subrange(start as int, chars@.len() as int) =~= chars@.skip(start as int));
        assert(chars@.skip(0) =~= chars@);
    }
    let t = string_of(trim_chars(&body).as_slice());
    if str_eq(t.as_str(), "[DONE]") {
        return None;
    }
    Some(string_of(body.as_slice()))
}

/// Complete lines of a stream buffer, trimmed, and what is left after the
/// last newline.
pub open spec fn split_buffer(buf: Seq<char>) -> (Seq<Seq<char>>, Seq<char>)
    decreases buf.len(),
{
    if buf.len() == 0 {
        (seq![], seq![])
    } else {
        let (lines, rest) = split_buffer(buf.drop_last());
        if buf.last() == '\n' {
            (lines.push(trimmed(rest)), seq![])
        } else {
            (lines, rest.push(buf.last()))
        }
    }
}

/// Splitting a stream buffer takes one line per newline and keeps as the
/// remainder the text after the last newline, which holds no newline.
pub proof fn lemma_split_buffer_shape(buf: Seq<char>)
    ensures
        split_buffer(buf).0.len() == buf.filter(|c: char| c == '\n').len(),
        !split_buffer(buf).1.contains('\n'),
        split_buffer(buf).1.len() <= buf.len(),
        split_buffer(buf).1 == buf.skip(buf.len() - split_buffer(buf).1.len()),
    decreases buf.len(),
{
    reveal(Seq::filter);
    if buf.len() > 0 {
        let front = buf.drop_last();
        lemma_split_buffer_shape(front);
        let rest = split_buffer(front).1;
        if buf.last() != '\n' {
            let r = rest.push(buf.last());
            assert(r =~= buf.skip(buf.len() - r.len()));
            if r.contains('\n') {
                let i = choose|i: int| 0 <= i < r.len() && r[i] == '\n';
                if i < rest.len() {
                    assert(rest[i] == '\n');
                }
            }
        } else {
            assert(buf.skip(buf.len() as int) =~= Seq::<char>::empty());
        }
    }
}

/// Takes the complete lines out of a stream buffer, each trimmed, leaving
/// the text after the last newline in the buffer.
pub fn take_lines(buf: &mut String) -> (lines: Vec<String>)
    ensures
        lines@.map_values(|l: String| l@) == split_buffer(old(buf)@).0,
        final(buf)@ == split_buffer(old(buf)@).1,
{
    let chars = chars_of(buf.as_str());
    let ghost s = chars@;
    let mut lines: Vec<String> = Vec::new();
    let mut cur: Vec<char> = Vec::new();
    let mut i: usize = 0;
    while i < chars.len()
        invariant
            s == chars@,
            i <= s.len(),
            (lines@.map_values(|l: String| l@), cur@) == split_buffer(s.take(i as int)),
        decreases s.len() - i,
    {
        proof {
            assert(s.take(i + 1).drop_last() =~= s.take(i as int));
            assert(s.take(i + 1).last() == s[i as int]);
        }
        if chars[i] == '\n' {
            let line = string_of(trim_chars(&cur).as_slice());
            let ghost before = lines@;
            lines.push(line);
            proof {
                assert(lines@.map_values(|l: String| l@) =~= before.map_values(|l: String| l@).push(trimmed(cur@)));
            }
            cur = Vec::new();
            proof {
                assert(cur@ =~= Seq::<char>::empty());
            }
        } else {
            cur.push(chars[i]);
        }
        i += 1;
    }
    proof {
        assert(s.take(s.len() as int) =~= s);
    }
    *buf = string_of(cur.as_slice());
    lines
}

/// The URL the client posts to always ends with the chat-completions path.
pub proof fn lemma_completion_url_path(base: Seq<char>)
    ensures
        has_suffix(completion_url(base), "/chat/completions"@),
{
    let tail = "/chat/completions"@;
    let u = completion_url(base);
    let head = if !has_prefix(base, "http"@) {
        "http://"@ + base
    } else if has_suffix(base, "/chat/completions"@) || has_suffix(base, "/v1/chat/completions"@) {
        origin(base)
    } else {
        base
    };
    assert(u == head + tail);
    assert((head + tail).subrange(head.len() as int, (head + tail).len() as int) =~= tail);
}


/// What is left after the last newline holds no newline.
proof fn lemma_rest_has_no_newline(buf: Seq<char>)
    ensures
        !split_buffer(buf).1.contains('\n'),
    decreases buf.len(),
{
    if buf.len() > 0 {
        lemma_rest_has_no_newline(buf.drop_last());
        let rest = split_buffer(buf.drop_last()).1;
        if buf.last() != '\n' {
            assert forall|i: int| 0 <= i < rest.push(buf.last()).len() implies rest.push(buf.last())[i] != '\n' by {
                if i < rest.len() {
                    assert(rest[i] == rest.push(buf.last())[i]);
                    assert(!rest.contains('\n'));
                }
            }
        }
    }
}

/// Text without a newline holds no complete line.
proof fn lemma_no_newline_no_lines(s: Seq<char>)
    requires
        !s.contains('\n'),
    ensures
        split_buffer(s) == (Seq::<Seq<char>>::empty(), s),
    decreases s.len(),
{
    if s.len() > 0 {
        assert(s[s.len() - 1] == s.last());
        assert(!s.drop_last().contains('\n')) by {
            if s.drop_last().contains('\n') {
                let i = choose|i: int| 0 <= i < s.drop_last().len() && s.drop_last()[i] == '\n';
                assert(s[i] == '\n');
            }
        }
        lemma_no_newline_no_lines(s.drop_last());
        assert(s.drop_last().push(s.last()) =~= s);
    }
}

/// However a stream is cut into pieces, the same lines come out: taking the
/// lines of `a`, then those of what was left followed by `b`, gives the lines
/// of `a + b` and the same rest.
pub proof fn lemma_lines_independent_of_cuts(a: Seq<char>, b: Seq<char>)
    ensures
        ({
            let (l1, r1) = split_buffer(a);
            let (l2, r2) = split_buffer(r1 + b);
            split_buffer(a + b) == (l1 + l2, r2)
        }),
    decreases b.len(),
{
    let (l1, r1) = split_buffer(a);
    if b.len() == 0 {
        assert(a + b =~= a);
        assert(r1 + b =~= r1);
        lemma_rest_has_no_newline(a);
        lemma_no_newline_no_lines(r1);
        assert(l1 + Seq::<Seq<char>>::empty() =~= l1);
    } else {
        let b0 = b.drop_last();
        lemma_lines_independent_of_cuts(a, b0);
        assert((a + b).drop_last() =~= a + b0);
        assert((a + b).last() == b.last());
        assert((r1 + b).drop_last() =~= r1 + b0);
        assert((r1 + b).last() == b.last());
        let (l2p, r2p) = split_buffer(r1 + b0);
        if b.last() == '\n' {
            assert((l1 + l2p).push(trimmed(r2p)) =~= l1 + l2p.push(trimmed(r2p)));
        }
    }
}

/// The text piece of a parsed event: `choices[0].delta.content` when it is
/// a string, else `choices[0].text` when that is one.
pub open spec fn chunk_content_of(event: JsonValue) -> Option<Seq<char>> {
    let first = match member(event, "choices"@) {
        Some(cs) => element(cs, 0),
        None => None,
    };
    let delta_content = match first {
        Some(f) => match member(f, "delta"@) {
            Some(d) => match member(d, "content"@) {
                Some(c) => string_of_value(c),
                None => None,
            },
            None => None,
        },
        None => None,
    };
    match delta_content {
        Some(c) => Some(c),
        None => match first {
            Some(f) => match member(f, "text"@) {
                Some(t) => string_of_value(t),
                None => None,
            },
            None => None,
        },
    }
}

/// The text piece of an event's JSON text: nothing when the text is not
/// JSON, else the piece [`chunk_content_of`] finds in the parsed event.
pub open spec fn event_content_of(json_text: Seq<char>) -> Option<Seq<char>> {
    match json_document_of(json_text) {
        Ok(v) => chunk_content_of(v),
        Err(_) => None,
    }
}

/// Parses an event's JSON text and gives its text piece (see
/// [`event_content_of`]).
pub fn event_content(json_text: &str) -> (r: Option<String>)
    ensures
        match r {
            Some(c) => event_content_of(json_text@) == Some(c@),
            None => event_content_of(json_text@) is None,
        },
{
    match parse_json_document(json_text) {
        Ok(v) => chunk_content(&v),
        Err(_) => None,
    }
}

/// The text piece of a parsed event (see [`chunk_content_of`]).
pub fn chunk_content(event: &JsonValue) -> (r: Option<String>)
    ensures
        match r {
            Some(c) => chunk_content_of(*event) == Some(c@),
            None => chunk_content_of(*event) is None,
        },
{
    let first = match event.get("choices") {
        Some(cs) => cs.at(0),
        None => None,
    };
    let f = match first {
        Some(f) => f,
        None => return None,
    };
    match f.get("delta") {
        Some(d) => match d.get("content") {
            Some(c) => match c.as_str() {
                Some(text) => return Some(text.to_owned()),
                None => {},
            },
            None => {},
        },
        None => {},
    }
    match f.get("text") {
        Some(t) => match t.as_str() {
            Some(text) => Some(text.to_owned()),
            None => None,
        },
        None => None,
    }
}

} // verus!
