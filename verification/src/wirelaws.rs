//! What binary records decode to, told by bytes, and what URLs, headers and framed
//! bodies of the wire mean, told by characters.
use vstd::prelude::*;
use crate::binary::{big, bin_cell, bin_cells, bin_columns, bin_fields, unsigned, BinType, Endian};
use crate::float::F64;
use crate::host::{Log, Query};
use crate::net::{framing, header, host_port, http_url, lemma_found, lemma_first_char, lemma_times, next_read, reachable, redirected, reply, request, tcp_url, value_of, BodyMode, HeaderV, NextRead, ReplyV, UrlV};
use crate::readback::lemma_digits_of;
use crate::strings::{all_digits, ascii_lowered, hex_number, is_digit, parsed_unsigned, pieces, trimmed};
use crate::text::nat_text;
use crate::textlaws::{lemma_pieces_each, stands_at};
use crate::value::{DataType, Datum};

verus! {

// ------------------------------------------------------------------- records

/// The number of bytes of a field.
pub open spec fn bytes_of(t: BinType) -> int {
    if t is I8 || t is U8 || t is Bool {
        1
    } else if t is I16 || t is U16 {
        2
    } else if t is I32 || t is U32 || t is F32 {
        4
    } else {
        8
    }
}

/// The largest number of so many bytes, and one.
pub open spec fn past(n: int) -> int
    decreases n,
{
    if n <= 0 {
        1
    } else {
        256 * past(n - 1)
    }
}

/// Bytes are read as a number digit by digit, to the base 256: in big-endian order a
/// further byte stands last, in little-endian order it stands first.
pub proof fn lemma_bytes_as_number(b: Seq<u8>, x: u8)
    ensures
        unsigned(Seq::empty(), Endian::Big) == 0,
        unsigned(Seq::empty(), Endian::Little) == 0,
        unsigned(b.push(x), Endian::Big) == 256 * unsigned(b, Endian::Big) + x,
        unsigned(seq![x] + b, Endian::Little) == 256 * unsigned(b, Endian::Little) + x,
{
    assert(b.push(x).drop_last() =~= b);
    let e = Seq::<u8>::empty();
    assert(e.reverse() =~= e);
    let l = seq![x] + b;
    assert(l.reverse() =~= b.reverse().push(x));
    assert(b.reverse().push(x).drop_last() =~= b.reverse());
}

proof fn lemma_big_bound(b: Seq<u8>)
    ensures
        big(b) < past(b.len() as int),
    decreases b.len(),
{
    if b.len() > 0 {
        lemma_big_bound(b.drop_last());
    }
}

proof fn lemma_unsigned_bound(b: Seq<u8>, e: Endian)
    ensures
        unsigned(b, e) < past(b.len() as int),
{
    lemma_big_bound(b);
    lemma_big_bound(b.reverse());
}

proof fn lemma_past()
    ensures
        past(1) == 0x100,
        past(2) == 0x1_0000,
        past(4) == 0x1_0000_0000,
        past(8) == 0x1_0000_0000_0000_0000,
{
    assert(past(0) == 1);
    assert(past(1) == 256 * past(0));
    assert(past(2) == 256 * past(1));
    assert(past(3) == 256 * past(2));
    assert(past(4) == 256 * past(3));
    assert(past(5) == 256 * past(4));
    assert(past(6) == 256 * past(5));
    assert(past(7) == 256 * past(6));
    assert(past(8) == 256 * past(7));
}

/// An integer field is the number of its bytes where it is unsigned, and where it is
/// signed the number that differs from it by the range of so many bytes or not at all
/// and lies within half the range around zero.
pub proof fn lemma_integer_fields(b: Seq<u8>, t: BinType, e: Endian, log: Log)
    requires
        b.len() == bytes_of(t),
    ensures
        t.width() == bytes_of(t),
        t is U8 || t is U16 || t is U32 ==> (bin_cell(b, t, e, log) matches Ok(Datum::I64(n)) && n
            == unsigned(b, e)),
        t is I8 || t is I16 || t is I32 || t is I64 ==> (bin_cell(b, t, e, log) matches Ok(
            Datum::I64(n),
        ) && {
            let m = past(b.len() as int);
            &&& n == unsigned(b, e) || n == unsigned(b, e) - m
            &&& -m <= 2 * n < m
        }),
        t is U64 && unsigned(b, e) <= i64::MAX ==> (bin_cell(b, t, e, log) matches Ok(Datum::I64(n)) && n
            == unsigned(b, e)),
{
    lemma_unsigned_bound(b, e);
    lemma_past();
}

/// A truth field is true where its byte is not zero; a double field has the bits of
/// its bytes.
pub proof fn lemma_other_fields(b: Seq<u8>, e: Endian, log: Log)
    ensures
        b.len() == 1 ==> bin_cell(b, BinType::Bool, e, log) == Ok::<Datum, Query>(
            Datum::Bool(b[0] != 0),
        ),
        b.len() == 8 ==> (bin_cell(b, BinType::F64, e, log) matches Ok(Datum::F64(x)) && x.bits
            == unsigned(b, e)),
        BinType::Bool.lane_type() == DataType::Bool,
        BinType::F64.lane_type() == DataType::F64,
        BinType::F32.lane_type() == DataType::F64,
        BinType::I8.lane_type() == DataType::I64,
        BinType::U8.lane_type() == DataType::I64,
        BinType::I16.lane_type() == DataType::I64,
        BinType::U16.lane_type() == DataType::I64,
        BinType::I32.lane_type() == DataType::I64,
        BinType::U32.lane_type() == DataType::I64,
        BinType::I64.lane_type() == DataType::I64,
        BinType::U64.lane_type() == DataType::I64,
{
    lemma_unsigned_bound(b, e);
    lemma_past();
}

proof fn lemma_bin_cells(buf: Seq<u8>, off: int, rec: int, t: BinType, e: Endian, n: nat, log: Log)
    requires
        bin_cells(buf, off, rec, t, e, n, log) is Ok,
    ensures
        ({
            let s = bin_cells(buf, off, rec, t, e, n, log)->Ok_0;
            &&& s.len() == n
            &&& forall|r: int|
                0 <= r < n ==> bin_cell(
                    buf.subrange(r * rec + off, r * rec + off + t.width()),
                    t,
                    e,
                    log,
                ) == Ok::<Datum, Query>(#[trigger] s[r])
        }),
    decreases n,
{
    if n > 0 {
        lemma_bin_cells(buf, off, rec, t, e, (n - 1) as nat, log);
    }
}

/// The cell of a record's field is decoded from the bytes at the record's place and
/// the field's offset in it; there is a column for each field, of its type.
pub proof fn lemma_records_decode(
    buf: Seq<u8>,
    ts: Seq<BinType>,
    offsets: Seq<usize>,
    rec: int,
    e: Endian,
    n: nat,
    k: nat,
    log: Log,
)
    requires
        bin_columns(buf, ts, offsets, rec, e, n, k, log) is Ok,
    ensures
        ({
            let cols = bin_columns(buf, ts, offsets, rec, e, n, k, log)->Ok_0;
            &&& cols.len() == k
            &&& forall|j: int| #![trigger cols[j]]
                0 <= j < k ==> {
                    &&& cols[j].dtype == ts[j].lane_type()
                    &&& cols[j].cells.len() == n
                    &&& forall|r: int|
                        0 <= r < n ==> bin_cell(
                            buf.subrange(
                                r * rec + offsets[j],
                                r * rec + offsets[j] + ts[j].width(),
                            ),
                            ts[j],
                            e,
                            log,
                        ) == Ok::<Datum, Query>(#[trigger] cols[j].cells[r])
                }
        }),
    decreases k,
{
    if k > 0 {
        lemma_records_decode(buf, ts, offsets, rec, e, n, (k - 1) as nat, log);
        lemma_bin_cells(buf, offsets[k - 1] as int, rec, ts[k - 1], e, n, log);
        let (cols, up) = (
            bin_columns(buf, ts, offsets, rec, e, n, k, log)->Ok_0,
            bin_columns(buf, ts, offsets, rec, e, n, (k - 1) as nat, log)->Ok_0,
        );
        assert forall|j: int| #![trigger cols[j]]
            0 <= j < k implies {
            &&& cols[j].dtype == ts[j].lane_type()
            &&& cols[j].cells.len() == n
            &&& forall|r: int|
                0 <= r < n ==> bin_cell(
                    buf.subrange(r * rec + offsets[j], r * rec + offsets[j] + ts[j].width()),
                    ts[j],
                    e,
                    log,
                ) == Ok::<Datum, Query>(#[trigger] cols[j].cells[r])
        } by {
            if j < k - 1 {
                assert(cols[j] == up[j]);
            }
        }
    }
}

/// The columns of records are named and typed by the fields, in order.
pub proof fn lemma_record_columns(s: Seq<(String, BinType)>, i: int)
    requires
        0 <= i < s.len(),
    ensures
        bin_fields(s).len() == s.len(),
        bin_fields(s)[i].name == s[i].0@,
        bin_fields(s)[i].dtype == s[i].1.lane_type(),
{
}

// ----------------------------------------------------------------------- URLs

/// A plain host: some text without a colon or a slash, and no bracket before it.
pub open spec fn plain_host(h: Seq<char>) -> bool {
    h.len() > 0 && h[0] != '[' && !h.contains(':') && !h.contains('/')
}

/// A path: it starts with a slash.
pub open spec fn rooted(p: Seq<char>) -> bool {
    p.len() > 0 && p[0] == '/'
}

proof fn lemma_numeral(port: u16)
    ensures
        ({
            let n = nat_text(port as nat);
            &&& n.len() > 0
            &&& all_digits(n)
            &&& parsed_unsigned(n, u16::MAX as int) == Some(port as int)
            &&& !n.contains(':')
            &&& !n.contains('/')
        }),
{
    let n = nat_text(port as nat);
    lemma_digits_of(port as nat);
    assert(is_digit(n[0]));
    assert forall|i: int| 0 <= i < n.len() implies n[i] != '/' && #[trigger] n[i] != ':' by {
        assert(is_digit(n[i]));
    }
}

proof fn lemma_host_port(h: Seq<char>, port: u16, default: u16)
    requires
        plain_host(h),
    ensures
        host_port(h, default) == Ok::<(Seq<char>, u16), Seq<char>>((h, default)),
        host_port(h + seq![':'] + nat_text(port as nat), default) == Ok::<
            (Seq<char>, u16),
            Seq<char>,
        >((h, port)),
{
    let n = nat_text(port as nat);
    let a = h + seq![':'] + n;
    lemma_numeral(port);
    lemma_times(h, Seq::empty(), ':');
    lemma_first_char(h, ':', 0);
    assert forall|k: int| 0 <= k < h.len() implies (#[trigger] h[k]) != ':' by {
        assert(h.contains(h[k]));
    }
    assert(a =~= h + (seq![':'] + n));
    lemma_times(h, seq![':'] + n, ':');
    lemma_times(seq![':'], n, ':');
    lemma_times(n, Seq::empty(), ':');
    assert(crate::net::times_in(seq![':'], ':') == 1) by {
        assert(seq![':'].drop_last() =~= Seq::empty());
        assert(crate::net::times_in(Seq::empty(), ':') == 0);
    }
    assert forall|k: int| 0 <= k < h.len() implies (#[trigger] a[k]) != ':' by {
        assert(a[k] == h[k]);
    }
    assert(a[h.len() as int] == ':');
    lemma_found(a, ':', 0, h.len() as int);
    assert(a.skip(h.len() as int + 1) =~= n);
    assert(a.take(h.len() as int) =~= h);
    assert(a[0] == h[0]);
}

proof fn lemma_behind(scheme: Seq<char>, rest: Seq<char>)
    ensures
        crate::net::behind(scheme + rest, scheme) == Some(rest),
{
    let url = scheme + rest;
    assert(url.take(scheme.len() as int) =~= scheme);
    assert(url.skip(scheme.len() as int) =~= rest);
}

proof fn lemma_cut_path(a: Seq<char>, path: Seq<char>)
    requires
        !a.contains('/'),
        rooted(path),
    ensures
        crate::net::first_char(a + path, '/') == Some(a.len() as int),
        (a + path).take(a.len() as int) == a,
        (a + path).skip(a.len() as int) == path,
        crate::net::first_char(a, '/') is None,
{
    let s = a + path;
    assert forall|k: int| 0 <= k < a.len() implies (#[trigger] s[k]) != '/' by {
        assert(a.contains(a[k]));
    }
    assert(s[a.len() as int] == '/');
    lemma_found(s, '/', 0, a.len() as int);
    assert(s.take(a.len() as int) =~= a);
    assert(s.skip(a.len() as int) =~= path);
    lemma_first_char(a, '/', 0);
    if let Some(i) = crate::net::first_char(a, '/') {
        assert(a.contains(a[i]));
    }
}

/// The parts of an HTTP URL are its host, its port and its path: where no port is
/// written it is 80, and where no path is, it is the root.
pub proof fn lemma_http_url_parts(h: Seq<char>, port: u16, path: Seq<char>)
    requires
        plain_host(h),
        rooted(path),
    ensures
        http_url("http://"@ + (h + seq![':'] + nat_text(port as nat) + path)) == Ok::<
            UrlV,
            Seq<char>,
        >((UrlV { host: h, port, path })),
        http_url("http://"@ + (h + path)) == Ok::<UrlV, Seq<char>>((UrlV { host: h, port: 80, path })),
        http_url("http://"@ + h) == Ok::<UrlV, Seq<char>>((UrlV { host: h, port: 80, path: seq!['/'] })),
{
    let a = h + seq![':'] + nat_text(port as nat);
    lemma_host_port(h, port, 80);
    lemma_numeral(port);
    assert(!a.contains('/')) by {
        if a.contains('/') {
            let i = choose|i: int| 0 <= i < a.len() && a[i] == '/';
            if i < h.len() {
                assert(h.contains(h[i]));
            } else if i > h.len() {
                assert(nat_text(port as nat).contains(nat_text(port as nat)[i - h.len() - 1]));
            }
        }
    }
    lemma_cut_path(a, path);
    lemma_cut_path(h, path);
    lemma_behind("http://"@, a + path);
    lemma_behind("http://"@, h + path);
    lemma_behind("http://"@, h);
}

/// A TCP URL has a host and a port of its own; without a port it is refused.
pub proof fn lemma_tcp_url_parts(h: Seq<char>, port: u16)
    requires
        plain_host(h),
        port != 0,
    ensures
        tcp_url("tcp://"@ + (h + seq![':'] + nat_text(port as nat))) == Ok::<UrlV, Seq<char>>(
            (UrlV { host: h, port, path: Seq::empty() }),
        ),
        tcp_url("tcp://"@ + h) is Err,
{
    let a = h + seq![':'] + nat_text(port as nat);
    lemma_host_port(h, port, 0);
    lemma_numeral(port);
    assert(!a.contains('/')) by {
        if a.contains('/') {
            let i = choose|i: int| 0 <= i < a.len() && a[i] == '/';
            if i < h.len() {
                assert(h.contains(h[i]));
            } else if i > h.len() {
                assert(nat_text(port as nat).contains(nat_text(port as nat)[i - h.len() - 1]));
            }
        }
    }
    lemma_cut_path(a, seq!['/']);
    lemma_cut_path(h, seq!['/']);
    lemma_behind("tcp://"@, a);
    lemma_behind("tcp://"@, h);
}

/// An endpoint that is not this machine is reached only where the list names its host
/// or its host and port; nothing is granted without a list.
pub proof fn lemma_reach_granted(host: Seq<char>, port: u16, other: Seq<char>)
    requires
        ascii_lowered(host) != ascii_lowered("localhost"@),
        trimmed(host) == host,
        host.len() > 0,
        !host.contains(','),
        !other.contains(','),
        trimmed(other) == other,
    ensures
        !reachable(host, port, false, None),
        reachable(host, port, true, None),
        reachable(host, port, false, Some(host)),
        other != host && other != host + seq![':'] + nat_text(port as nat) ==> !reachable(
            host,
            port,
            false,
            Some(other),
        ),
{
    reveal_strlit(",");
    assert(","@ =~= seq![',']);
    lemma_one_piece(host);
    lemma_one_piece(other);
    let list = Some(host);
    assert(pieces(list->Some_0, ","@) == seq![host]);
    assert(pieces(list->Some_0, ","@).len() == 1);
    assert(crate::net::grants(pieces(list->Some_0, ","@)[0], host, port));
    assert(reachable(host, port, false, list));
    let w = crate::net::with_port(host, port);
    assert(w =~= host + seq![':'] + nat_text(port as nat));
}

proof fn lemma_one_piece(s: Seq<char>)
    requires
        !s.contains(','),
    ensures
        pieces(s, seq![',']) == seq![s],
{
    assert forall|i: int| !(#[trigger] stands_at(s, seq![','], i)) by {
        if stands_at(s, seq![','], i) {
            assert(s[i + 0] == seq![','][0]);
            assert(s.contains(s[i]));
        }
    }
    lemma_pieces_each(s, seq![','], s, s);
}

/// A request asks for the path from the host, with the port named where it is not 80.
pub proof fn lemma_request_asks(u: UrlV, version: Seq<char>)
    ensures
        request(u, version) == "GET "@ + u.path + " HTTP/1.1\r\nHost: "@ + (if u.port == 80 {
            u.host
        } else {
            u.host + seq![':'] + nat_text(u.port as nat)
        }) + "\r\nUser-Agent: rivus/"@ + version
            + "\r\nAccept: */*\r\nConnection: close\r\n\r\n"@,
{
    let w = crate::net::with_port(u.host, u.port);
    assert(w =~= u.host + seq![':'] + nat_text(u.port as nat));
}

// -------------------------------------------------------------------- headers

/// A header line without a line end falls apart at its first colon: the name in lower
/// case and the value, both trimmed; without a colon it is none, and an empty one
/// ends the headers.
pub proof fn lemma_header_parts(name: Seq<char>, value: Seq<char>)
    requires
        !name.contains(':'),
        value.len() > 0,
        value.last() != '\r',
        value.last() != '\n',
    ensures
        header(name + seq![':'] + value) == HeaderV::Pair(ascii_lowered(trimmed(name)), trimmed(value)),
        header(Seq::empty()) == HeaderV::End,
        header(seq!['\r', '\n']) == HeaderV::End,
        name.len() > 0 && name.last() != '\r' && name.last() != '\n' ==> header(name) == HeaderV::Other,
{
    let t = name + seq![':'] + value;
    assert(t.last() == value.last());
    assert(crate::net::bare_line(t) == t);
    assert forall|k: int| 0 <= k < name.len() implies (#[trigger] t[k]) != ':' by {
        assert(name.contains(name[k]));
    }
    assert(t[name.len() as int] == ':');
    lemma_found(t, ':', 0, name.len() as int);
    assert(t.take(name.len() as int) =~= name);
    assert(t.skip(name.len() as int + 1) =~= value);
    let (a, b) = (seq!['\r', '\n'], seq!['\r']);
    assert(a.drop_last() =~= b);
    assert(b.drop_last() =~= Seq::empty());
    assert(crate::net::bare_line(Seq::empty()) =~= Seq::empty());
    assert(crate::net::bare_line(b) =~= Seq::empty());
    assert(crate::net::bare_line(a) =~= Seq::empty());
    if name.len() > 0 && name.last() != '\r' && name.last() != '\n' {
        assert(crate::net::bare_line(name) == name);
        lemma_first_char(name, ':', 0);
        if let Some(i) = crate::net::first_char(name, ':') {
            assert(name.contains(name[i]));
        }
    }
}

/// The value of a header is that of the first of its name.
pub proof fn lemma_header_value_first(h: Seq<(Seq<char>, Seq<char>)>, name: Seq<char>, i: int)
    ensures
        0 <= i < h.len() && h[i].0 == name && (forall|k: int|
            0 <= k < i ==> (#[trigger] h[k]).0 != name) ==> value_of(h, name) == Some(h[i].1),
        (forall|k: int| 0 <= k < h.len() ==> (#[trigger] h[k]).0 != name) ==> value_of(h, name) is None,
    decreases h.len(),
{
    if h.len() > 0 {
        let up = h.drop_last();
        lemma_header_value_first(up, name, i);
        assert forall|k: int| 0 <= k < up.len() implies up[k] == #[trigger] h[k] by {}
        if 0 <= i < h.len() && h[i].0 == name && (forall|k: int|
            0 <= k < i ==> (#[trigger] h[k]).0 != name) {
            if i < up.len() {
                assert(up[i].0 == name);
            } else {
                assert forall|k: int| 0 <= k < up.len() implies (#[trigger] up[k]).0 != name by {
                    assert(h[k].0 != name);
                }
            }
        }
        if forall|k: int| 0 <= k < h.len() ==> (#[trigger] h[k]).0 != name {
            assert forall|k: int| 0 <= k < up.len() implies (#[trigger] up[k]).0 != name by {
                assert(h[k].0 != name);
            }
            assert(h[h.len() - 1].0 != name);
        }
    }
}

/// A success carries a body, a redirect leads where its location says, and any other
/// code, and a redirect without a location, is a failure.
pub proof fn lemma_replies(current: Seq<char>, u: UrlV, code: u16, h: Seq<(Seq<char>, Seq<char>)>)
    ensures
        200 <= code < 300 ==> reply(current, u, code, h) == ReplyV::Body,
        300 <= code < 400 && value_of(h, "location"@) is Some ==> reply(current, u, code, h)
            == ReplyV::Redirect(redirected(u, value_of(h, "location"@)->0)),
        300 <= code < 400 && value_of(h, "location"@) is None ==> reply(current, u, code, h) is Fail,
        code < 200 || code >= 400 ==> reply(current, u, code, h) is Fail,
{
}

/// An absolute location is gone to as it is.
pub proof fn lemma_absolute_redirect(u: UrlV, rest: Seq<char>)
    ensures
        redirected(u, "http://"@ + rest) == "http://"@ + rest,
        redirected(u, "https://"@ + rest) == "https://"@ + rest,
{
    lemma_behind("http://"@, rest);
    lemma_behind("https://"@, rest);
}

// --------------------------------------------------------------------- bodies

/// A body of a given length is read to that length and no further; one in chunks
/// starts with a size line, is read to the end of each chunk, and ends with the last;
/// any other is read until the connection closes.
pub proof fn lemma_next_reads(left: u64, space: usize)
    ensures
        next_read(BodyMode::Close, space) == NextRead::Bytes(space),
        next_read(BodyMode::Length(0), space) == NextRead::End,
        left > 0 ==> (next_read(BodyMode::Length(left), space) matches NextRead::Bytes(n) && n <= left
            && n <= space && (n == left || n == space)),
        next_read(BodyMode::Chunked { remaining: left, done: true }, space) == NextRead::End,
        next_read(BodyMode::Chunked { remaining: 0, done: false }, space) == NextRead::SizeLine,
        left > 0 ==> (next_read(BodyMode::Chunked { remaining: left, done: false }, space) matches NextRead::Bytes(
            n,
        ) && n <= left && n <= space && (n == left || n == space)),
{
}

/// How a body is framed: in chunks where the transfer encoding names them; else by
/// the length where one is given as a number; else by the end of the connection.
pub proof fn lemma_framing_chosen(h: Seq<(Seq<char>, Seq<char>)>, n: u64)
    ensures
        value_of(h, "transfer-encoding"@) == Some("chunked"@) ==> framing(h) == (BodyMode::Chunked {
            remaining: 0,
            done: false,
        }),
        value_of(h, "transfer-encoding"@) is None && value_of(h, "content-length"@) == Some(
            nat_text(n as nat),
        ) ==> framing(h) == BodyMode::Length(n),
        value_of(h, "transfer-encoding"@) is None && value_of(h, "content-length"@) is None ==> framing(
            h,
        ) == BodyMode::Close,
{
    let c = "chunked"@;
    reveal_strlit("chunked");
    assert(ascii_lowered(c) =~= c);
    assert(c.subrange(0, c.len() as int) =~= c);
    assert(crate::strings::occurs_at(c, c, 0));
    let t = nat_text(n as nat);
    lemma_digits_of(n as nat);
    assert(is_digit(t[0]));
}

/// A hexadecimal number is read digit by digit: a further digit stands last, and
/// counts as itself beside sixteen times what stands before it.
pub proof fn lemma_hex_number_digits(s: Seq<char>, c: char, n: int, d: int)
    requires
        s.len() > 0,
        s[0] != '+',
        hex_number(s) == Some(n),
        ('0' <= c <= '9' && d == c as int - '0' as int) || ('a' <= c <= 'f' && d == c as int - 'a' as int
            + 10) || ('A' <= c <= 'F' && d == c as int - 'A' as int + 10),
        16 * n + d <= u64::MAX,
    ensures
        hex_number(s.push(c)) == Some(16 * n + d),
        c != '+' ==> hex_number(seq![c]) == Some(d),
{
    assert(s.push(c).drop_last() =~= s);
    assert(s.push(c)[0] == s[0]);
    let one = seq![c];
    assert(one.drop_last() =~= Seq::empty());
    assert(crate::strings::hex_value(Seq::empty()) == Some(0int));
    assert(crate::strings::hex_value(one) == Some(d));
}

} // verus!
