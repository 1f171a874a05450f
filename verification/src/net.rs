//! The parts of the HTTP and TCP clients that need no network: endpoints, the
//! capability rule, requests, response heads, redirects and body framing.
use vstd::prelude::*;
use crate::event::message3;
use crate::readback::lemma_digits_of;
use crate::strings::{all_digits, ascii_lowered, contains, eq_ignore_ascii_case, find, first_from, first_of, hex_number, is_digit, is_space, occurs, parse_unsigned, parsed_unsigned, pieces, read_hex, space, split, to_ascii_lower, trim, trimmed};
use crate::text::{chars_of, nat_text, owned, same_text, string_of, u64_text};
use crate::value::texts;

verus! {

/// How many redirects are followed.
pub const MAX_REDIRECTS: usize = 5;

/// An endpoint: the host, the port, and for HTTP the path.
#[derive(Debug)]
pub struct Url {
    pub host: String,
    pub port: u16,
    pub path: String,
}

/// What a [`Url`] is.
#[verifier::ext_equal]
pub struct UrlV {
    pub host: Seq<char>,
    pub port: u16,
    pub path: Seq<char>,
}

impl Url {
    /// The endpoint.
    pub open spec fn view(&self) -> UrlV {
        UrlV { host: self.host@, port: self.port, path: self.path@ }
    }
}

/// Does what came back agree with what is owed, and an error say what it should?
pub open spec fn agree_url(r: Result<Url, String>, s: Result<UrlV, Seq<char>>) -> bool {
    match (r, s) {
        (Ok(u), Ok(v)) => u@ == v,
        (Err(e), Err(m)) => e@ == m,
        _ => false,
    }
}

// ------------------------------------------------------------- authorities

/// How often a character stands in a text.
pub open spec fn times_in(s: Seq<char>, c: char) -> nat
    decreases s.len(),
{
    if s.len() == 0 {
        0
    } else {
        times_in(s.drop_last(), c) + if s.last() == c {
            1nat
        } else {
            0
        }
    }
}

fn count_char(v: &Vec<char>, c: char) -> (r: usize)
    ensures
        r == times_in(v@, c),
        r <= v@.len(),
{
    let mut n: usize = 0;
    for i in 0..v.len()
        invariant
            n == times_in(v@.take(i as int), c),
            n <= i,
    {
        assert(v@.take(i + 1).drop_last() =~= v@.take(i as int));
        if v[i] == c {
            n = n + 1;
        }
    }
    assert(v@.take(v@.len() as int) =~= v@);
    n
}

/// The first place of a character.
pub open spec fn first_char(s: Seq<char>, c: char) -> Option<int> {
    first_of(s, seq![c])
}

fn find_char(v: &Vec<char>, c: char) -> (r: Option<usize>)
    ensures
        match r {
            Some(i) => first_char(v@, c) == Some(i as int) && i < v@.len(),
            None => first_char(v@, c) is None,
        },
{
    let mut n: Vec<char> = Vec::new();
    n.push(c);
    assert(n@ =~= seq![c]);
    find(v, &n)
}

/// The message of a port that is none.
pub open spec fn bad_port(a: Seq<char>) -> Seq<char> {
    "bad port in '"@ + a + "'"@
}

/// The host and the port of an authority, with `default` where no port is
/// given. A host in brackets is an IPv6 address; so is one with more than one
/// colon, which cannot have a port.
pub open spec fn host_port(a: Seq<char>, default: u16) -> Result<(Seq<char>, u16), Seq<char>> {
    if a.len() == 0 {
        Err("empty host"@)
    } else if a[0] == '[' {
        let rest = a.skip(1);
        match first_char(rest, ']') {
            None => Err("malformed IPv6 authority '"@ + a + "'"@),
            Some(i) => {
                let after = rest.skip(i + 1);
                if after.len() > 0 && after[0] == ':' {
                    match parsed_unsigned(after.skip(1), u16::MAX as int) {
                        Some(p) => Ok((rest.take(i), p as u16)),
                        None => Err(bad_port(a)),
                    }
                } else {
                    Ok((rest.take(i), default))
                }
            },
        }
    } else if times_in(a, ':') > 1 {
        Ok((a, default))
    } else {
        match first_char(a, ':') {
            None => Ok((a, default)),
            Some(i) => {
                let p = a.skip(i + 1);
                if p.len() > 0 && all_digits(p) {
                    match parsed_unsigned(p, u16::MAX as int) {
                        Some(n) => Ok((a.take(i), n as u16)),
                        None => Err(bad_port(a)),
                    }
                } else {
                    Ok((a, default))
                }
            },
        }
    }
}

fn digits_only(v: &Vec<char>, from: usize) -> (r: bool)
    requires
        from <= v@.len(),
    ensures
        r == all_digits(v@.skip(from as int)),
{
    let ghost s = v@.skip(from as int);
    for i in from..v.len()
        invariant
            from <= v@.len(),
            s == v@.skip(from as int),
            forall|k: int| 0 <= k < i - from ==> is_digit(#[trigger] s[k]),
    {
        assert(s[i - from] == v@[i as int]);
        let c: char = v[i];
        if !('0' <= c && c <= '9') {
            assert(!is_digit(s[i - from]));
            return false;
        }
    }
    true
}

/// The host and the port of an authority (see [`host_port`]).
pub fn split_host_port(authority: &str, default_port: u16) -> (r: Result<(String, u16), String>)
    ensures
        match (r, host_port(authority@, default_port)) {
            (Ok((h, p)), Ok((hv, pv))) => h@ == hv && p == pv,
            (Err(e), Err(m)) => e@ == m,
            _ => false,
        },
{
    let v: Vec<char> = chars_of(authority);
    if v.len() == 0 {
        return Err(owned("empty host"));
    }
    if v[0] == '[' {
        let inner: String = string_of(&v, 1, v.len());
        let rest: Vec<char> = chars_of(inner.as_str());
        assert(rest@ =~= v@.skip(1));
        return match find_char(&rest, ']') {
            None => Err(message3("malformed IPv6 authority '", authority, "'")),
            Some(i) => {
                let host: String = string_of(&rest, 0, i);
                assert(host@ =~= rest@.take(i as int));
                let ghost after = rest@.skip(i + 1);
                if i + 1 < rest.len() && rest[i + 1] == ':' {
                    assert(after[0] == ':');
                    let p: String = string_of(&rest, i + 2, rest.len());
                    assert(p@ =~= after.skip(1));
                    match parse_unsigned(p.as_str(), 65535) {
                        Some(n) => Ok((host, n as u16)),
                        None => Err(message3("bad port in '", authority, "'")),
                    }
                } else {
                    proof {
                        if after.len() > 0 {
                            assert(after[0] == rest@[i + 1]);
                        }
                    }
                    Ok((host, default_port))
                }
            },
        };
    }
    if count_char(&v, ':') > 1 {
        return Ok((owned(authority), default_port));
    }
    match find_char(&v, ':') {
        None => Ok((owned(authority), default_port)),
        Some(i) => {
            if i + 1 < v.len() && digits_only(&v, i + 1) {
                let p: String = string_of(&v, i + 1, v.len());
                assert(p@ =~= v@.skip(i + 1));
                let host: String = string_of(&v, 0, i);
                assert(host@ =~= v@.take(i as int));
                match parse_unsigned(p.as_str(), 65535) {
                    Some(n) => Ok((host, n as u16)),
                    None => Err(message3("bad port in '", authority, "'")),
                }
            } else {
                Ok((owned(authority), default_port))
            }
        },
    }
}

// ------------------------------------------------------------------ URLs

/// What stands behind a scheme, which is read without regard to case.
pub open spec fn behind(url: Seq<char>, scheme: Seq<char>) -> Option<Seq<char>> {
    if url.len() >= scheme.len() && ascii_lowered(url.take(scheme.len() as int)) == ascii_lowered(
        scheme,
    ) {
        Some(url.skip(scheme.len() as int))
    } else {
        None
    }
}

fn strip_scheme(url: &str, scheme: &str) -> (r: Option<Vec<char>>)
    ensures
        match r {
            Some(v) => behind(url@, scheme@) == Some(v@),
            None => behind(url@, scheme@) is None,
        },
{
    let v: Vec<char> = chars_of(url);
    let n: usize = chars_of(scheme).len();
    if v.len() < n {
        return None;
    }
    let head: String = string_of(&v, 0, n);
    assert(head@ =~= v@.take(n as int));
    if !eq_ignore_ascii_case(head.as_str(), scheme) {
        return None;
    }
    let tail: String = string_of(&v, n, v.len());
    assert(tail@ =~= v@.skip(n as int));
    Some(chars_of(tail.as_str()))
}

/// The endpoint of `http://host[:port][/path]`. HTTPS is refused in words of
/// its own.
pub open spec fn http_url(url: Seq<char>) -> Result<UrlV, Seq<char>> {
    match behind(url, "http://"@) {
        None => if behind(url, "https://"@) is Some {
            Err(
                "'"@ + url
                    + "': https/TLS is not supported (cert lifecycle is out of scope, \u{a7}28.12.5); use http on a protected channel (loopback, or WireGuard/QUIC \u{2014} a later slice)"@,
            )
        } else {
            Err("'"@ + url + "': not an http:// URL"@)
        },
        Some(rest) => {
            let (authority, path) = match first_char(rest, '/') {
                Some(i) => (rest.take(i), rest.skip(i)),
                None => (rest, seq!['/']),
            };
            match host_port(authority, 80) {
                Err(m) => Err(m),
                Ok((host, port)) => Ok(UrlV { host, port, path }),
            }
        },
    }
}

/// The endpoint of an HTTP URL (see [`http_url`]).
pub fn parse_http_url(url: &str) -> (r: Result<Url, String>)
    ensures
        agree_url(r, http_url(url@)),
{
    match strip_scheme(url, "http://") {
        None => {
            if strip_scheme(url, "https://").is_some() {
                Err(
                    message3(
                        "'",
                        url,
                        "': https/TLS is not supported (cert lifecycle is out of scope, \u{a7}28.12.5); use http on a protected channel (loopback, or WireGuard/QUIC \u{2014} a later slice)",
                    ),
                )
            } else {
                Err(message3("'", url, "': not an http:// URL"))
            }
        },
        Some(rest) => {
            let (authority, path) = match find_char(&rest, '/') {
                Some(i) => {
                    let a: String = string_of(&rest, 0, i);
                    let p: String = string_of(&rest, i, rest.len());
                    assert(a@ =~= rest@.take(i as int));
                    assert(p@ =~= rest@.skip(i as int));
                    (a, p)
                },
                None => {
                    let a: String = string_of(&rest, 0, rest.len());
                    assert(a@ =~= rest@);
                    let mut p: String = String::new();
                    p.push('/');
                    assert(p@ =~= seq!['/']);
                    (a, p)
                },
            };
            match split_host_port(authority.as_str(), 80) {
                Err(e) => Err(e),
                Ok((host, port)) => Ok(Url { host, port, path }),
            }
        },
    }
}

/// The endpoint of `tcp://host:port`; the port must be given.
pub open spec fn tcp_url(url: Seq<char>) -> Result<UrlV, Seq<char>> {
    match behind(url, "tcp://"@) {
        None => Err(
            "'"@ + url + "': subscribe needs a tcp:// URL (e.g. tcp://127.0.0.1:9000)"@,
        ),
        Some(rest) => {
            let authority = match first_char(rest, '/') {
                Some(i) => rest.take(i),
                None => rest,
            };
            match host_port(authority, 0) {
                Err(m) => Err(m),
                Ok((host, port)) => if port == 0 {
                    Err("'"@ + url + "': subscribe needs an explicit port (tcp://host:port)"@)
                } else {
                    Ok(UrlV { host, port, path: Seq::empty() })
                },
            }
        },
    }
}

/// The endpoint of a TCP URL (see [`tcp_url`]).
pub fn parse_tcp_url(url: &str) -> (r: Result<Url, String>)
    ensures
        agree_url(r, tcp_url(url@)),
{
    match strip_scheme(url, "tcp://") {
        None => Err(
            message3(
                "'",
                url,
                "': subscribe needs a tcp:// URL (e.g. tcp://127.0.0.1:9000)",
            ),
        ),
        Some(rest) => {
            let authority: String = match find_char(&rest, '/') {
                Some(i) => {
                    let a: String = string_of(&rest, 0, i);
                    assert(a@ =~= rest@.take(i as int));
                    a
                },
                None => {
                    let a: String = string_of(&rest, 0, rest.len());
                    assert(a@ =~= rest@);
                    a
                },
            };
            match split_host_port(authority.as_str(), 0) {
                Err(e) => Err(e),
                Ok((host, port)) => if port == 0 {
                    Err(
                        message3(
                            "'",
                            url,
                            "': subscribe needs an explicit port (tcp://host:port)",
                        ),
                    )
                } else {
                    let path: String = String::new();
                    assert(path@ =~= Seq::empty());
                    Ok(Url { host, port, path })
                },
            }
        },
    }
}

// ----------------------------------------------------------- capability

/// The host with its port.
pub open spec fn with_port(host: Seq<char>, port: u16) -> Seq<char> {
    host.push(':') + nat_text(port as nat)
}

fn join_port(host: &str, port: u16) -> (r: String)
    ensures
        r@ == with_port(host@, port),
{
    let mut s: String = owned(host);
    s.push(':');
    s.push_str(u64_text(port as u64).as_str());
    s
}

/// Is the host this machine: by its name, or as an address of which that is
/// known?
pub fn is_loopback(host: &str, loopback_address: bool) -> (r: bool)
    ensures
        r == (ascii_lowered(host@) == ascii_lowered("localhost"@) || loopback_address),
{
    eq_ignore_ascii_case(host, "localhost") || loopback_address
}

/// Does an entry of the list grant the endpoint?
pub open spec fn grants(entry: Seq<char>, host: Seq<char>, port: u16) -> bool {
    trimmed(entry).len() > 0 && (trimmed(entry) == host || trimmed(entry) == with_port(host, port))
}

/// May the endpoint be reached: it is this machine, or the comma separated list
/// names the host, or the host with its port?
pub open spec fn reachable(host: Seq<char>, port: u16, loopback_address: bool, allow: Option<Seq<char>>) -> bool {
    ||| ascii_lowered(host) == ascii_lowered("localhost"@)
    ||| loopback_address
    ||| allow is Some && exists|i: int|
        0 <= i < pieces(allow->Some_0, ","@).len() && grants(
            #[trigger] pieces(allow->Some_0, ","@)[i],
            host,
            port,
        )
}

/// Refuses an endpoint that may not be reached (see [`reachable`]). The refusal
/// names the endpoint only, never the list.
pub fn check_capability(host: &str, port: u16, loopback_address: bool, allow: &Option<String>) -> (r:
    Result<(), String>)
    ensures
        match r {
            Ok(_) => reachable(
                host@,
                port,
                loopback_address,
                crate::chunk::opt_text(*allow),
            ),
            Err(e) => !reachable(
                host@,
                port,
                loopback_address,
                crate::chunk::opt_text(*allow),
            ) && e@ == "'"@ + with_port(host@, port)
                + "': outside the granted network capability \u{2014} rejected (loopback is always allowed; grant a remote host via RIVUS_CAP_NET_HOSTS)"@,
        },
{
    if is_loopback(host, loopback_address) {
        return Ok(());
    }
    let hp: String = join_port(host, port);
    match allow {
        Some(list) => {
            proof {
                reveal_strlit(",");
            }
            let entries: Vec<String> = split(list.as_str(), ",");
            let ghost t = texts(entries@);
            for i in 0..entries.len()
                invariant
                    t == texts(entries@),
                    t == pieces(list@, ","@),
                    *allow == Some(*list),
                    hp@ == with_port(host@, port),
                    forall|k: int| 0 <= k < i ==> !grants(#[trigger] t[k], host@, port),
            {
                let e: String = trim(entries[i].as_str());
                assert(t[i as int] == entries@[i as int]@);
                let empty: bool = chars_of(e.as_str()).len() == 0;
                if !empty && (same_text(e.as_str(), host) || same_text(e.as_str(), hp.as_str())) {
                    proof {
                        let all = crate::chunk::opt_text(*allow)->Some_0;
                        assert(all == list@);
                        assert(grants(pieces(all, ","@)[i as int], host@, port));
                    }
                    return Ok(());
                }
            }
        },
        None => {},
    }
    Err(
        message3(
            "'",
            hp.as_str(),
            "': outside the granted network capability \u{2014} rejected (loopback is always allowed; grant a remote host via RIVUS_CAP_NET_HOSTS)",
        ),
    )
}

// -------------------------------------------------------------- requests

/// The host header: the port is left out where it is the usual one.
pub open spec fn host_header(u: UrlV) -> Seq<char> {
    if u.port == 80 {
        u.host
    } else {
        with_port(u.host, u.port)
    }
}

fn host_of(u: &Url) -> (r: String)
    ensures
        r@ == host_header(u@),
{
    if u.port == 80 {
        u.host.clone()
    } else {
        join_port(u.host.as_str(), u.port)
    }
}

/// A GET request that asks for the connection to be closed after the response.
pub open spec fn request(u: UrlV, version: Seq<char>) -> Seq<char> {
    "GET "@ + u.path + " HTTP/1.1\r\nHost: "@ + host_header(u) + "\r\nUser-Agent: rivus/"@ + version
        + "\r\nAccept: */*\r\nConnection: close\r\n\r\n"@
}

/// The text of a GET request (see [`request`]).
pub fn request_text(u: &Url, version: &str) -> (r: String)
    ensures
        r@ == request(u@, version@),
{
    let mut s: String = message3("GET ", u.path.as_str(), " HTTP/1.1\r\nHost: ");
    s.push_str(host_of(u).as_str());
    s.push_str("\r\nUser-Agent: rivus/");
    s.push_str(version);
    s.push_str("\r\nAccept: */*\r\nConnection: close\r\n\r\n");
    s
}

// ------------------------------------------------------- response heads

/// The word with that number, among the words of a text between white space.
pub open spec fn word(s: Seq<char>, n: nat) -> Option<Seq<char>>
    decreases s.len(), 1nat,
{
    if s.len() == 0 {
        None
    } else if is_space(s[0]) {
        word(s.drop_first(), n)
    } else if n == 0 {
        Some(s.take(word_len(s) as int))
    } else {
        word_after(s, n)
    }
}

/// How long the word at the start of a text is.
pub open spec fn word_len(s: Seq<char>) -> nat
    decreases s.len(),
{
    if s.len() == 0 || is_space(s[0]) {
        0
    } else {
        1 + word_len(s.drop_first())
    }
}

/// The word `n` places behind the one that the text starts with.
pub open spec fn word_after(s: Seq<char>, n: nat) -> Option<Seq<char>>
    decreases s.len(), 0nat,
{
    if s.len() == 0 {
        None
    } else if is_space(s[0]) {
        if n == 0 {
            None
        } else {
            word(s.drop_first(), (n - 1) as nat)
        }
    } else {
        word_after(s.drop_first(), n)
    }
}

proof fn lemma_word_len(s: Seq<char>, k: int)
    requires
        0 <= k <= s.len(),
        forall|i: int| 0 <= i < k ==> !is_space(#[trigger] s[i]),
        k == s.len() || is_space(s[k]),
    ensures
        word_len(s) == k,
    decreases k,
{
    if k > 0 {
        assert(!is_space(s[0]));
        let t = s.drop_first();
        assert forall|i: int| 0 <= i < k - 1 implies !is_space(#[trigger] t[i]) by {
            assert(t[i] == s[i + 1]);
        }
        lemma_word_len(t, k - 1);
    }
}

/// The second word of a text.
fn second_word(s: &str) -> (r: Option<String>)
    ensures
        match r {
            Some(w) => word(s@, 1) == Some(w@),
            None => word(s@, 1) is None,
        },
{
    let v: Vec<char> = chars_of(s);
    let mut i: usize = 0;
    assert(v@.skip(0) =~= v@);
    while i < v.len() && space(v[i])
        invariant
            i <= v@.len(),
            word(v@, 1) == word(v@.skip(i as int), 1),
        decreases v@.len() - i,
    {
        assert(v@.skip(i as int).drop_first() =~= v@.skip(i + 1));
        i = i + 1;
    }
    if i == v.len() {
        return None;
    }
    let ghost first = v@.skip(i as int);
    assert(word(v@, 1) == word_after(first, 1));
    while i < v.len() && !space(v[i])
        invariant
            i <= v@.len(),
            word(v@, 1) == word_after(v@.skip(i as int), 1),
        decreases v@.len() - i,
    {
        assert(v@.skip(i as int).drop_first() =~= v@.skip(i + 1));
        i = i + 1;
    }
    if i == v.len() {
        return None;
    }
    assert(v@.skip(i as int).drop_first() =~= v@.skip(i + 1));
    i = i + 1;
    while i < v.len() && space(v[i])
        invariant
            i <= v@.len(),
            word(v@, 1) == word(v@.skip(i as int), 0),
        decreases v@.len() - i,
    {
        assert(v@.skip(i as int).drop_first() =~= v@.skip(i + 1));
        i = i + 1;
    }
    if i == v.len() {
        return None;
    }
    let start: usize = i;
    while i < v.len() && !space(v[i])
        invariant
            start <= i <= v@.len(),
            forall|k: int| start <= k < i ==> !is_space(#[trigger] v@[k]),
        decreases v@.len() - i,
    {
        i = i + 1;
    }
    proof {
        let t = v@.skip(start as int);
        assert forall|k: int| 0 <= k < i - start implies !is_space(#[trigger] t[k]) by {
            assert(t[k] == v@[start + k]);
        }
        lemma_word_len(t, i - start);
        assert(t.take(i - start) =~= v@.subrange(start as int, i as int));
    }
    Some(string_of(&v, start, i))
}

/// The status of a status line: its second word, as a number of sixteen bits.
pub open spec fn status(line: Seq<char>) -> Option<int> {
    match word(line, 1) {
        Some(w) => parsed_unsigned(w, u16::MAX as int),
        None => None,
    }
}

/// The status of a status line (see [`status`]).
pub fn status_of(line: &str) -> (r: Option<u16>)
    ensures
        match r {
            Some(n) => status(line@) == Some(n as int),
            None => status(line@) is None,
        },
{
    match second_word(line) {
        None => None,
        Some(w) => match parse_unsigned(w.as_str(), 65535) {
            Some(n) => Some(n as u16),
            None => None,
        },
    }
}

/// A line without the line end.
pub open spec fn bare_line(s: Seq<char>) -> Seq<char>
    decreases s.len(),
{
    if s.len() > 0 && (s.last() == '\r' || s.last() == '\n') {
        bare_line(s.drop_last())
    } else {
        s
    }
}

/// What a header line is.
#[derive(Debug)]
pub enum HeaderLine {
    /// The end of the headers.
    End,
    /// A line that is no header.
    Other,
    /// A name in lower case, and its value.
    Pair(String, String),
}

/// What a [`HeaderLine`] is.
pub enum HeaderV {
    End,
    Other,
    Pair(Seq<char>, Seq<char>),
}

impl HeaderLine {
    /// The line.
    pub open spec fn view(&self) -> HeaderV {
        match self {
            HeaderLine::End => HeaderV::End,
            HeaderLine::Other => HeaderV::Other,
            HeaderLine::Pair(k, v) => HeaderV::Pair(k@, v@),
        }
    }
}

/// What a header line is: empty at the end of the headers; a name and a value
/// around the first colon.
pub open spec fn header(line: Seq<char>) -> HeaderV {
    let t = bare_line(line);
    if t.len() == 0 {
        HeaderV::End
    } else {
        match first_char(t, ':') {
            None => HeaderV::Other,
            Some(i) => HeaderV::Pair(ascii_lowered(trimmed(t.take(i))), trimmed(t.skip(i + 1))),
        }
    }
}

/// What a header line is (see [`header`]).
pub fn header_line(line: &str) -> (r: HeaderLine)
    ensures
        r@ == header(line@),
{
    let v: Vec<char> = chars_of(line);
    let mut n: usize = v.len();
    assert(v@.take(n as int) =~= v@);
    while n > 0 && (v[n - 1] == '\r' || v[n - 1] == '\n')
        invariant
            n <= v@.len(),
            bare_line(v@) == bare_line(v@.take(n as int)),
        decreases n,
    {
        assert(v@.take(n as int).drop_last() =~= v@.take(n - 1));
        n = n - 1;
    }
    let t: String = string_of(&v, 0, n);
    assert(t@ =~= v@.take(n as int));
    if n == 0 {
        return HeaderLine::End;
    }
    let w: Vec<char> = chars_of(t.as_str());
    match find_char(&w, ':') {
        None => HeaderLine::Other,
        Some(i) => {
            let k: String = string_of(&w, 0, i);
            let x: String = string_of(&w, i + 1, w.len());
            assert(k@ =~= w@.take(i as int));
            assert(x@ =~= w@.skip(i + 1));
            HeaderLine::Pair(to_ascii_lower(trim(k.as_str()).as_str()), trim(x.as_str()))
        },
    }
}

/// The views of headers.
pub open spec fn header_views(h: Seq<(String, String)>) -> Seq<(Seq<char>, Seq<char>)> {
    Seq::new(h.len(), |i: int| (h[i].0@, h[i].1@))
}

/// The headers of the first `n` lines, up to the end of the headers.
pub open spec fn headers_in(lines: Seq<Seq<char>>, n: nat) -> (Seq<(Seq<char>, Seq<char>)>, bool)
    decreases n,
{
    if n == 0 {
        (Seq::empty(), false)
    } else {
        let (up, ended) = headers_in(lines, (n - 1) as nat);
        if ended {
            (up, true)
        } else {
            match header(lines[n - 1]) {
                HeaderV::End => (up, true),
                HeaderV::Other => (up, false),
                HeaderV::Pair(k, v) => (up.push((k, v)), false),
            }
        }
    }
}

proof fn lemma_headers_ended(lines: Seq<Seq<char>>, n: nat, m: nat)
    requires
        n <= m,
        headers_in(lines, n).1,
    ensures
        headers_in(lines, m) == headers_in(lines, n),
    decreases m - n,
{
    if n < m {
        lemma_headers_ended(lines, n, (m - 1) as nat);
    }
}

/// The headers of the lines behind the status line.
pub fn parse_headers(lines: &Vec<String>) -> (r: Vec<(String, String)>)
    ensures
        header_views(r@) == headers_in(texts(lines@), lines@.len()).0,
{
    let ghost t = texts(lines@);
    let mut out: Vec<(String, String)> = Vec::new();
    assert(header_views(out@) =~= Seq::empty());
    for i in 0..lines.len()
        invariant
            t == texts(lines@),
            headers_in(t, i as nat) == (header_views(out@), false),
    {
        assert(t[i as int] == lines@[i as int]@);
        match header_line(lines[i].as_str()) {
            HeaderLine::End => {
                proof {
                    lemma_headers_ended(t, (i + 1) as nat, lines@.len());
                }
                return out;
            },
            HeaderLine::Other => {},
            HeaderLine::Pair(k, v) => {
                let ghost up = header_views(out@);
                out.push((k, v));
                assert(header_views(out@) =~= up.push((k@, v@)));
            },
        }
    }
    out
}

/// The value of the first header of that name.
pub open spec fn value_of(h: Seq<(Seq<char>, Seq<char>)>, name: Seq<char>) -> Option<Seq<char>>
    decreases h.len(),
{
    if h.len() == 0 {
        None
    } else {
        match value_of(h.drop_last(), name) {
            Some(v) => Some(v),
            None => if h.last().0 == name {
                Some(h.last().1)
            } else {
                None
            },
        }
    }
}

proof fn lemma_value_of(h: Seq<(Seq<char>, Seq<char>)>, name: Seq<char>, n: int)
    requires
        0 <= n <= h.len(),
        value_of(h.take(n), name) is Some,
    ensures
        value_of(h, name) == value_of(h.take(n), name),
    decreases h.len() - n,
{
    if n == h.len() {
        assert(h.take(n) =~= h);
    } else {
        assert(h.take(n + 1).drop_last() =~= h.take(n));
        lemma_value_of(h, name, n + 1);
    }
}

/// The value of the first header of that name, which is given in lower case.
pub fn header_value(headers: &Vec<(String, String)>, name: &str) -> (r: Option<String>)
    ensures
        crate::chunk::opt_text(r) == value_of(header_views(headers@), name@),
{
    let ghost h = header_views(headers@);
    assert(h.take(0) =~= Seq::empty());
    for i in 0..headers.len()
        invariant
            h == header_views(headers@),
            value_of(h.take(i as int), name@) is None,
    {
        assert(h.take(i + 1).drop_last() =~= h.take(i as int));
        assert(h[i as int] == (headers@[i as int].0@, headers@[i as int].1@));
        if same_text(headers[i].0.as_str(), name) {
            proof {
                lemma_value_of(h, name@, i + 1);
            }
            return Some(headers[i].1.clone());
        }
    }
    assert(h.take(headers@.len() as int) =~= h);
    None
}

// -------------------------------------------------------------- redirects

/// The directory of a path: what stands before the last slash.
pub open spec fn directory(path: Seq<char>) -> Seq<char>
    decreases path.len(),
{
    if path.len() == 0 {
        Seq::empty()
    } else if path.last() == '/' {
        path.drop_last()
    } else {
        directory(path.drop_last())
    }
}

fn directory_of(path: &str) -> (r: String)
    ensures
        r@ == directory(path@),
{
    let v: Vec<char> = chars_of(path);
    let mut n: usize = v.len();
    assert(v@.take(n as int) =~= v@);
    while n > 0 && v[n - 1] != '/'
        invariant
            n <= v@.len(),
            directory(v@) == directory(v@.take(n as int)),
        decreases n,
    {
        assert(v@.take(n as int).drop_last() =~= v@.take(n - 1));
        n = n - 1;
    }
    if n == 0 {
        let s: String = String::new();
        assert(s@ =~= Seq::empty());
        return s;
    }
    assert(v@.take(n as int).drop_last() =~= v@.subrange(0, n - 1));
    string_of(&v, 0, n - 1)
}

/// Whether a host is written in brackets: one that would not be read as the host
/// without them. A host with a closing bracket cannot be.
pub open spec fn in_brackets(host: Seq<char>) -> bool {
    !host.contains(']') && (host.len() == 0 || host[0] == '[' || host.contains(':'))
}

/// The host and the port as they stand in a URL: the port is left out where it is
/// the usual one.
pub open spec fn authority(u: UrlV) -> Seq<char> {
    let host = if in_brackets(u.host) {
        seq!['['] + u.host + seq![']']
    } else {
        u.host
    };
    if u.port == 80 {
        host
    } else {
        with_port(host, u.port)
    }
}

fn has_char(v: &Vec<char>, c: char) -> (r: bool)
    ensures
        r == v@.contains(c),
{
    for i in 0..v.len()
        invariant
            forall|k: int| 0 <= k < i ==> (#[trigger] v@[k]) != c,
    {
        if v[i] == c {
            assert(v@[i as int] == c);
            return true;
        }
    }
    false
}

fn authority_of(u: &Url) -> (r: String)
    ensures
        r@ == authority(u@),
{
    let v: Vec<char> = chars_of(u.host.as_str());
    let host: String = if !has_char(&v, ']') && (v.len() == 0 || v[0] == '[' || has_char(
        &v,
        ':',
    )) {
        let mut s: String = String::new();
        s.push('[');
        s.push_str(u.host.as_str());
        s.push(']');
        assert(s@ =~= seq!['['] + u.host@ + seq![']']);
        s
    } else {
        u.host.clone()
    };
    if u.port == 80 {
        host
    } else {
        join_port(host.as_str(), u.port)
    }
}

/// Where a redirect leads: an absolute URL as it is; a path on the same host;
/// anything else into the directory of the current path.
pub open spec fn redirected(u: UrlV, loc: Seq<char>) -> Seq<char> {
    if behind(loc, "http://"@) is Some || behind(loc, "https://"@) is Some {
        loc
    } else if loc.len() > 0 && loc[0] == '/' {
        "http://"@ + authority(u) + loc
    } else {
        "http://"@ + authority(u) + directory(u.path) + seq!['/'] + loc
    }
}

/// Where a redirect leads (see [`redirected`]).
pub fn resolve_redirect(u: &Url, loc: &str) -> (r: String)
    ensures
        r@ == redirected(u@, loc@),
{
    if strip_scheme(loc, "http://").is_some() || strip_scheme(loc, "https://").is_some() {
        return owned(loc);
    }
    let v: Vec<char> = chars_of(loc);
    let mut s: String = owned("http://");
    s.push_str(authority_of(u).as_str());
    if v.len() > 0 && v[0] == '/' {
        s.push_str(loc);
        return s;
    }
    s.push_str(directory_of(u.path.as_str()).as_str());
    let ghost up = s@;
    s.push('/');
    assert(s@ =~= up + seq!['/']);
    s.push_str(loc);
    s
}

/// A character stands in two texts put together as often as in each.
pub proof fn lemma_times(s: Seq<char>, t: Seq<char>, c: char)
    ensures
        times_in(s + t, c) == times_in(s, c) + times_in(t, c),
        !s.contains(c) ==> times_in(s, c) == 0,
    decreases t.len() + s.len(),
{
    if t.len() > 0 {
        assert((s + t).drop_last() =~= s + t.drop_last());
        assert((s + t).last() == t.last());
        lemma_times(s, t.drop_last(), c);
    } else {
        assert(s + t =~= s);
        if s.len() > 0 {
            lemma_times(s.drop_last(), t, c);
            if !s.contains(c) {
                assert forall|i: int| 0 <= i < s.drop_last().len() implies s.drop_last()[i] != c by {
                    assert(s.contains(s[i]));
                }
                assert(s.contains(s[s.len() - 1]));
            }
        }
    }
}

/// A character is found at the first place where it stands.
pub proof fn lemma_found(s: Seq<char>, c: char, i: int, at: int)
    requires
        0 <= i <= at < s.len(),
        s[at] == c,
        forall|k: int| i <= k < at ==> (#[trigger] s[k]) != c,
    ensures
        first_from(s, seq![c], i) == Some(at),
    decreases at - i,
{
    assert(s.subrange(i, i + 1) =~= seq![s[i]]);
    if i < at {
        assert(seq![s[i]][0] != seq![c][0]);
        lemma_found(s, c, i + 1, at);
    }
}

/// What is found is there, and not before.
pub proof fn lemma_first_char(s: Seq<char>, c: char, i: int)
    requires
        0 <= i <= s.len(),
    ensures
        match first_from(s, seq![c], i) {
            Some(at) => i <= at < s.len() && s[at] == c && forall|k: int|
                i <= k < at ==> (#[trigger] s[k]) != c,
            None => forall|k: int| i <= k < s.len() ==> (#[trigger] s[k]) != c,
        },
    decreases s.len() - i,
{
    if i < s.len() {
        assert(s.subrange(i, i + 1) =~= seq![s[i]]);
        if s[i] == c {
            assert(seq![s[i]] =~= seq![c]);
        } else {
            assert(seq![s[i]][0] != seq![c][0]);
        }
        lemma_first_char(s, c, i + 1);
    } else {
        assert(first_from(s, seq![c], i + 1) is None);
    }
}

/// The port as it stands behind a host.
spec fn port_text(port: u16) -> Seq<char> {
    if port == 80 {
        Seq::empty()
    } else {
        seq![':'] + nat_text(port as nat)
    }
}

proof fn lemma_port_text(port: u16)
    ensures
        !port_text(port).contains('/'),
        port != 80 ==> {
            let n = nat_text(port as nat);
            &&& n.len() > 0
            &&& all_digits(n)
            &&& parsed_unsigned(n, u16::MAX as int) == Some(port as int)
            &&& !n.contains(':')
            &&& port_text(port).skip(1) == n
        },
{
    let n = nat_text(port as nat);
    lemma_digits_of(port as nat);
    assert forall|i: int| 0 <= i < n.len() implies n[i] != '/' && n[i] != ':' && n[i] != '-' && n[i]
        != '+' by {
        assert(is_digit(n[i]));
    }
    if port != 80 {
        assert(port_text(port).skip(1) =~= n);
        let t = port_text(port);
        assert forall|i: int| 0 <= i < t.len() implies t[i] != '/' by {
            if i > 0 {
                assert(t[i] == n[i - 1]);
            }
        }
    }
}

/// A host without a colon is read back with its port.
proof fn lemma_plain_host(h: Seq<char>, port: u16)
    requires
        h.len() > 0,
        h[0] != '[',
        !h.contains(':'),
    ensures
        host_port(h + port_text(port), 80) == Ok::<(Seq<char>, u16), Seq<char>>((h, port)),
{
    let t = port_text(port);
    let a = h + t;
    lemma_port_text(port);
    lemma_times(h, t, ':');
    assert(a[0] == h[0]);
    assert forall|k: int| 0 <= k < h.len() implies h[k] != ':' by {
        assert(h.contains(h[k]));
    }
    lemma_first_char(a, ':', 0);
    if port == 80 {
        assert(a =~= h);
    } else {
        let n = nat_text(port as nat);
        lemma_times(seq![':'], n, ':');
        lemma_times(n, Seq::empty(), ':');
        assert(times_in(seq![':'], ':') == 1) by {
            assert(seq![':'].drop_last() =~= Seq::empty());
            assert(times_in(Seq::<char>::empty(), ':') == 0);
        }
        assert(a[h.len() as int] == ':');
        lemma_found(a, ':', 0, h.len() as int);
        assert(a.skip(h.len() as int + 1) =~= n);
        assert(a.take(h.len() as int) =~= h);
    }
}

/// A host in brackets is read back with its port.
proof fn lemma_bracketed_host(h: Seq<char>, port: u16)
    requires
        !h.contains(']'),
    ensures
        host_port(seq!['['] + h + seq![']'] + port_text(port), 80) == Ok::<
            (Seq<char>, u16),
            Seq<char>,
        >((h, port)),
{
    let t = port_text(port);
    let a = seq!['['] + h + seq![']'] + t;
    lemma_port_text(port);
    let rest = a.skip(1);
    assert(rest =~= h + seq![']'] + t);
    assert forall|k: int| 0 <= k < h.len() implies rest[k] != ']' by {
        assert(h.contains(h[k]));
    }
    assert(rest[h.len() as int] == ']');
    lemma_found(rest, ']', 0, h.len() as int);
    assert(rest.take(h.len() as int) =~= h);
    assert(rest.skip(h.len() as int + 1) =~= t);
}

/// What the host and the port of an authority write as is read back as they are,
/// and holds no slash where the authority holds none.
proof fn lemma_authority(a: Seq<char>, u: UrlV)
    requires
        !a.contains('/'),
        host_port(a, 80) == Ok::<(Seq<char>, u16), Seq<char>>((u.host, u.port)),
    ensures
        host_port(authority(u), 80) == Ok::<(Seq<char>, u16), Seq<char>>((u.host, u.port)),
        !authority(u).contains('/'),
{
    let h = u.host;
    let t = port_text(u.port);
    lemma_port_text(u.port);
    assert forall|k: int| 0 <= k < a.len() implies a[k] != '/' by {
        assert(a.contains(a[k]));
    }
    let rest = a.skip(1);
    lemma_first_char(a, ':', 0);
    lemma_first_char(rest, ']', 0);
    assert forall|k: int| 0 <= k < h.len() implies h[k] != '/' by {
        if a[0] == '[' {
            assert(h[k] == rest[k]);
            assert(rest[k] == a[k + 1]);
        } else {
            assert(h[k] == a[k]);
        }
    }
    if in_brackets(h) {
        lemma_bracketed_host(h, u.port);
        assert(authority(u) =~= seq!['['] + h + seq![']'] + t);
    } else {
        assert(authority(u) =~= h + t);
        if a[0] == '[' {
            let i = first_char(rest, ']')->Some_0;
            assert forall|k: int| 0 <= k < h.len() implies h[k] != ']' by {
                assert(h[k] == rest[k]);
            }
            lemma_plain_host(h, u.port);
        } else if h == a {
            assert(u.port == 80);
            assert(authority(u) =~= a);
        } else {
            assert(h[0] == a[0]);
            assert forall|k: int| 0 <= k < h.len() implies h[k] != ':' by {
                assert(h[k] == a[k]);
            }
            if h.len() == 0 {
                assert(!h.contains(']'));
            }
            lemma_plain_host(h, u.port);
        }
    }
    let z = authority(u);
    assert forall|k: int| 0 <= k < z.len() implies z[k] != '/' by {
        if in_brackets(h) {
            if k > h.len() + 1 {
                assert(z[k] == t[k - h.len() - 2]);
                assert(t.contains(t[k - h.len() - 2]));
            }
        } else if k >= h.len() {
            assert(z[k] == t[k - h.len()]);
            assert(t.contains(t[k - h.len()]));
        }
    }
}

/// A redirect to an absolute path keeps the host and the port: it is read as the
/// same endpoint with that path.
pub proof fn lemma_redirect_keeps_host(x: Seq<char>, loc: Seq<char>)
    requires
        http_url(x) is Ok,
        loc.len() > 0,
        loc[0] == '/',
    ensures
        ({
            let u = http_url(x)->Ok_0;
            http_url(redirected(u, loc)) == Ok::<UrlV, Seq<char>>(UrlV { path: loc, ..u })
        }),
{
    let u = http_url(x)->Ok_0;
    let rest = behind(x, "http://"@)->Some_0;
    lemma_first_char(rest, '/', 0);
    let a = match first_char(rest, '/') {
        Some(i) => rest.take(i),
        None => rest,
    };
    assert forall|k: int| 0 <= k < a.len() implies a[k] != '/' by {
        assert(a[k] == rest[k]);
    }
    lemma_authority(a, u);
    reveal_strlit("http://");
    reveal_strlit("https://");
    let z = authority(u);
    let url = "http://"@ + z + loc;
    assert(ascii_lowered(loc.take(7))[0] == '/' || loc.len() < 7);
    assert(ascii_lowered("http://"@)[0] == 'h');
    assert(ascii_lowered("https://"@)[0] == 'h');
    assert(ascii_lowered(loc.take(8))[0] == '/' || loc.len() < 8);
    assert(redirected(u, loc) == url);
    assert(url.take(7) =~= "http://"@);
    assert(url.skip(7) =~= z + loc);
    assert forall|k: int| 0 <= k < z.len() implies z[k] != '/' by {
        assert(z.contains(z[k]));
    }
    lemma_found(z + loc, '/', 0, z.len() as int);
    assert((z + loc).take(z.len() as int) =~= z);
    assert((z + loc).skip(z.len() as int) =~= loc);
}

/// What is done with a response.
#[derive(Debug)]
pub enum Reply {
    /// Its body is read.
    Body,
    /// Another URL is fetched.
    Redirect(String),
    /// It is an error.
    Fail(String),
}

/// What a [`Reply`] is.
pub enum ReplyV {
    Body,
    Redirect(Seq<char>),
    Fail(Seq<char>),
}

impl Reply {
    /// The reply.
    pub open spec fn view(&self) -> ReplyV {
        match self {
            Reply::Body => ReplyV::Body,
            Reply::Redirect(u) => ReplyV::Redirect(u@),
            Reply::Fail(m) => ReplyV::Fail(m@),
        }
    }
}

/// What is done with a response: a success has a body, a redirect leads where
/// its location says, and anything else is an error.
pub open spec fn reply(current: Seq<char>, u: UrlV, code: u16, h: Seq<(Seq<char>, Seq<char>)>) -> ReplyV {
    if 200 <= code <= 299 {
        ReplyV::Body
    } else if 300 <= code <= 399 {
        match value_of(h, "location"@) {
            None => ReplyV::Fail(
                current + ": "@ + nat_text(code as nat) + " redirect without Location"@,
            ),
            Some(loc) => ReplyV::Redirect(redirected(u, loc)),
        }
    } else {
        ReplyV::Fail(
            "GET "@ + current + ": HTTP "@ + nat_text(code as nat)
                + " (only 2xx responses carry a body to read)"@,
        )
    }
}

/// What is done with a response (see [`reply`]).
pub fn on_response(current: &str, u: &Url, code: u16, headers: &Vec<(String, String)>) -> (r: Reply)
    ensures
        r@ == reply(current@, u@, code, header_views(headers@)),
{
    if 200 <= code && code <= 299 {
        return Reply::Body;
    }
    let digits: String = u64_text(code as u64);
    if 300 <= code && code <= 399 {
        return match header_value(headers, "location") {
            None => {
                let mut s: String = owned(current);
                s.push_str(": ");
                s.push_str(digits.as_str());
                s.push_str(" redirect without Location");
                Reply::Fail(s)
            },
            Some(loc) => Reply::Redirect(resolve_redirect(u, loc.as_str())),
        };
    }
    let mut s: String = message3("GET ", current, ": HTTP ");
    s.push_str(digits.as_str());
    s.push_str(" (only 2xx responses carry a body to read)");
    Reply::Fail(s)
}

/// The message where redirects do not end.
pub fn too_many_redirects(url: &str) -> (r: String)
    ensures
        r@ == "GET "@ + url@ + ": too many redirects (> 5)"@,
{
    message3("GET ", url, ": too many redirects (> 5)")
}

// ---------------------------------------------------------------- bodies

/// How a body is framed.
#[derive(Clone, Copy, Debug, PartialEq, Eq, Structural)]
pub enum BodyMode {
    /// So many bytes are left.
    Length(u64),
    /// In chunks: so many bytes of the current one are left.
    Chunked { remaining: u64, done: bool },
    /// Until the connection is closed.
    Close,
}

/// How a body is framed: in chunks where the transfer encoding says so, else by
/// its length where that is given, else by the end of the connection.
pub open spec fn framing(h: Seq<(Seq<char>, Seq<char>)>) -> BodyMode {
    let te = value_of(h, "transfer-encoding"@);
    let cl = value_of(h, "content-length"@);
    if te is Some && occurs(ascii_lowered(te->Some_0), "chunked"@) {
        BodyMode::Chunked { remaining: 0, done: false }
    } else if cl is Some && parsed_unsigned(cl->Some_0, u64::MAX as int) is Some {
        BodyMode::Length(parsed_unsigned(cl->Some_0, u64::MAX as int)->Some_0 as u64)
    } else {
        BodyMode::Close
    }
}

/// How a body is framed (see [`framing`]).
pub fn http_body(headers: &Vec<(String, String)>) -> (r: BodyMode)
    ensures
        r == framing(header_views(headers@)),
{
    match header_value(headers, "transfer-encoding") {
        Some(v) => {
            if contains(to_ascii_lower(v.as_str()).as_str(), "chunked") {
                return BodyMode::Chunked { remaining: 0, done: false };
            }
        },
        None => {},
    }
    match header_value(headers, "content-length") {
        Some(v) => match parse_unsigned(v.as_str(), u64::MAX) {
            Some(n) => BodyMode::Length(n),
            None => BodyMode::Close,
        },
        None => BodyMode::Close,
    }
}

/// What is read next.
#[derive(Clone, Copy, Debug, PartialEq, Eq, Structural)]
pub enum NextRead {
    /// Nothing: the body has ended.
    End,
    /// The line with the size of the next chunk.
    SizeLine,
    /// So many bytes at most.
    Bytes(usize),
}

/// The smaller of what is left and what there is room for.
pub open spec fn room(left: u64, space: usize) -> usize {
    if left < space {
        left as usize
    } else {
        space
    }
}

/// What is read next into so much space.
pub open spec fn next_read(m: BodyMode, space: usize) -> NextRead {
    match m {
        BodyMode::Close => NextRead::Bytes(space),
        BodyMode::Length(left) => if left == 0 {
            NextRead::End
        } else {
            NextRead::Bytes(room(left, space))
        },
        BodyMode::Chunked { remaining, done } => if done {
            NextRead::End
        } else if remaining == 0 {
            NextRead::SizeLine
        } else {
            NextRead::Bytes(room(remaining, space))
        },
    }
}

/// The size that the line of a chunk gives: hexadecimal, before any extension.
pub open spec fn chunk_size(line: Seq<char>) -> Option<int> {
    hex_number(trimmed(pieces(trimmed(line), ";"@)[0]))
}

/// The size that the line of a chunk gives (see [`chunk_size`]).
pub fn size_of_chunk(line: &str) -> (r: Option<u64>)
    ensures
        match r {
            Some(n) => chunk_size(line@) == Some(n as int),
            None => chunk_size(line@) is None,
        },
{
    proof {
        reveal_strlit(";");
    }
    let t: String = trim(line);
    let parts: Vec<String> = split(t.as_str(), ";");
    assert(texts(parts@)[0] == parts@[0]@);
    read_hex(trim(parts[0].as_str()).as_str())
}

/// What follows the size line of a chunk.
#[derive(Clone, Copy, Debug, PartialEq, Eq, Structural)]
pub enum AfterSize {
    /// The bytes of the chunk.
    Data,
    /// Trailing headers, up to an empty line.
    Trailer,
    /// Nothing: the connection was closed.
    Closed,
    /// The line gives no size.
    Bad,
}

impl BodyMode {
    /// What is read next into so much space (see [`next_read`]).
    pub fn plan(&self, space: usize) -> (r: NextRead)
        ensures
            r == next_read(*self, space),
    {
        match *self {
            BodyMode::Close => NextRead::Bytes(space),
            BodyMode::Length(left) => if left == 0 {
                NextRead::End
            } else if left < space as u64 {
                NextRead::Bytes(left as usize)
            } else {
                NextRead::Bytes(space)
            },
            BodyMode::Chunked { remaining, done } => if done {
                NextRead::End
            } else if remaining == 0 {
                NextRead::SizeLine
            } else if remaining < space as u64 {
                NextRead::Bytes(remaining as usize)
            } else {
                NextRead::Bytes(space)
            },
        }
    }

    /// Notes bytes that were read; `true` where a chunk has ended, and with it
    /// the line end behind it is to be skipped.
    pub fn took(&mut self, n: usize, space: usize) -> (r: bool)
        requires
            next_read(*old(self), space) matches NextRead::Bytes(most) && n <= most,
        ensures
            *final(self) == match *old(self) {
                BodyMode::Close => BodyMode::Close,
                BodyMode::Length(left) => BodyMode::Length((left - n) as u64),
                BodyMode::Chunked { remaining, done } => BodyMode::Chunked {
                    remaining: (remaining - n) as u64,
                    done,
                },
            },
            r == (*final(self) matches BodyMode::Chunked { remaining, .. } && remaining == 0),
    {
        match *self {
            BodyMode::Close => false,
            BodyMode::Length(left) => {
                *self = BodyMode::Length(left - n as u64);
                false
            },
            BodyMode::Chunked { remaining, done } => {
                *self = BodyMode::Chunked { remaining: remaining - n as u64, done };
                remaining == n as u64
            },
        }
    }

    /// Notes the size line of the next chunk; `None` where the connection was
    /// closed before it.
    pub fn size_line(&mut self, line: Option<&str>) -> (r: AfterSize)
        requires
            *old(self) == (BodyMode::Chunked { remaining: 0, done: false }),
        ensures
            match line {
                None => r is Closed && *final(self) == (BodyMode::Chunked {
                    remaining: 0,
                    done: true,
                }),
                Some(l) => match chunk_size(l@) {
                    None => r is Bad && *final(self) == *old(self),
                    Some(n) => if n == 0 {
                        r is Trailer && *final(self) == (BodyMode::Chunked {
                            remaining: 0,
                            done: true,
                        })
                    } else {
                        r is Data && *final(self) == (BodyMode::Chunked {
                            remaining: n as u64,
                            done: false,
                        })
                    },
                },
            },
    {
        match line {
            None => {
                *self = BodyMode::Chunked { remaining: 0, done: true };
                AfterSize::Closed
            },
            Some(l) => match size_of_chunk(l) {
                None => AfterSize::Bad,
                Some(n) => if n == 0 {
                    *self = BodyMode::Chunked { remaining: 0, done: true };
                    AfterSize::Trailer
                } else {
                    *self = BodyMode::Chunked { remaining: n, done: false };
                    AfterSize::Data
                },
            },
        }
    }
}

} // verus!
