//! The bytes of an output that workers wrote in parts.
use vstd::prelude::*;
use vstd::utf8::{encode_scalar, encode_utf8};
use crate::chunk::Batch;
use crate::dispatch::{headed, lemma_line_end, line_end, parts_joined};
use crate::division::{coming_out, lemma_all_out, outs};
use crate::host::{Log, Query};
use crate::parts::{all_chunks, bodies, csv_file, header_of, lemma_bodies_append};
use crate::sink::jsonl_lines;
use crate::stage::Labelled;
use crate::text::{lemma_scalar_bytes, one_line};

verus! {

/// Texts behind one another are their bytes behind one another.
pub proof fn lemma_bytes_append(a: Seq<char>, b: Seq<char>)
    ensures
        encode_utf8(a + b) == encode_utf8(a) + encode_utf8(b),
    decreases a.len(),
{
    if a.len() == 0 {
        assert(a + b =~= b);
        assert(encode_utf8(a) + encode_utf8(b) =~= encode_utf8(b));
    } else {
        assert((a + b).drop_first() =~= a.drop_first() + b);
        lemma_bytes_append(a.drop_first(), b);
        let x = encode_scalar(a[0] as u32);
        assert(x + (encode_utf8(a.drop_first()) + encode_utf8(b)) =~= x + encode_utf8(
            a.drop_first(),
        ) + encode_utf8(b));
    }
}

proof fn lemma_no_newline(t: Seq<char>)
    requires
        forall|i: int| 0 <= i < t.len() ==> (#[trigger] t[i]) != '\n',
    ensures
        forall|i: int| 0 <= i < encode_utf8(t).len() ==> (#[trigger] encode_utf8(t)[i]) != 10,
    decreases t.len(),
{
    if t.len() > 0 {
        let rest = t.drop_first();
        assert forall|i: int| 0 <= i < rest.len() implies (#[trigger] rest[i]) != '\n' by {
            assert(rest[i] == t[i + 1]);
        }
        lemma_no_newline(rest);
        lemma_scalar_bytes(t[0]);
        let (x, y) = (encode_scalar(t[0] as u32), encode_utf8(rest));
        assert forall|i: int| 0 <= i < (x + y).len() implies (#[trigger] (x + y)[i]) != 10 by {
            if i < x.len() {
                assert((x + y)[i] == x[i]);
            } else {
                assert((x + y)[i] == y[i - x.len()]);
            }
        }
    }
}

proof fn lemma_line_bytes(h: Seq<char>)
    requires
        one_line(h),
    ensures
        ({
            let b = encode_utf8(h);
            b.len() > 0 && b.last() == 10 && forall|i: int|
                0 <= i < b.len() - 1 ==> (#[trigger] b[i]) != 10
        }),
{
    let t = h.drop_last();
    let nl = seq!['\n'];
    assert(h =~= t + nl);
    assert forall|i: int| 0 <= i < t.len() implies (#[trigger] t[i]) != '\n' by {
        assert(t[i] == h[i]);
    }
    lemma_no_newline(t);
    lemma_bytes_append(t, nl);
    lemma_scalar_bytes('\n');
    assert(nl.drop_first() =~= Seq::empty());
    assert(encode_utf8(nl.drop_first()) =~= Seq::empty());
    assert(encode_utf8(nl) =~= seq![10u8]);
    let (x, b) = (encode_utf8(t), encode_utf8(h));
    assert(b =~= x + seq![10u8]);
    assert forall|i: int| 0 <= i < b.len() - 1 implies (#[trigger] b[i]) != 10 by {
        assert(b[i] == x[i]);
    }
}

/// The bytes of the file of each part.
pub open spec fn part_files(outs: Seq<Seq<Batch>>, sep: char, log: Log) -> Seq<Seq<u8>> {
    Seq::new(outs.len(), |i: int| encode_utf8(csv_file(outs[i], sep, log)->Ok_0))
}

/// The files of the parts can be made, and those that are not empty have this
/// header.
pub open spec fn one_header(outs: Seq<Seq<Batch>>, header: Seq<char>, sep: char, log: Log) -> bool {
    &&& one_line(header)
    &&& forall|i: int|
        0 <= i < outs.len() ==> csv_file(#[trigger] outs[i], sep, log) is Ok && (outs[i].len() > 0
            ==> header_of(outs[i], sep) == Some(header))
}

proof fn lemma_files_joined(o: Seq<Seq<Batch>>, header: Seq<char>, n: nat, sep: char, log: Log)
    requires
        one_header(o, header, sep, log),
        n <= o.len(),
    ensures
        ({
            let all = all_chunks(o.take(n as int));
            &&& bodies(all, sep, log) is Ok
            &&& all.len() > 0 ==> header_of(all, sep) == Some(header)
            &&& headed(part_files(o, sep, log), n) == (all.len() > 0)
            &&& csv_file(all, sep, log) matches Ok(text) && parts_joined(
                part_files(o, sep, log),
                true,
                n,
            ) == encode_utf8(text)
        }),
    decreases n,
{
    let files = part_files(o, sep, log);
    let now = o.take(n as int);
    if n == 0 {
        assert(now =~= Seq::empty());
        assert(encode_utf8(Seq::empty()) =~= Seq::empty());
    } else {
        let m = (n - 1) as nat;
        lemma_files_joined(o, header, m, sep, log);
        let up = o.take(m as int);
        assert(now.drop_last() =~= up);
        assert(now.last() == o[n - 1]);
        let (x, y) = (all_chunks(up), o[n - 1]);
        assert(csv_file(y, sep, log) is Ok);
        lemma_bodies_append(x, y, sep, log);
        let (a, b) = (bodies(x, sep, log)->Ok_0, bodies(y, sep, log)->Ok_0);
        if x.len() > 0 {
            assert((x + y)[0] == x[0]);
        } else if y.len() > 0 {
            assert((x + y)[0] == y[0]);
        }
        lemma_line_bytes(header);
        let h = encode_utf8(header);
        let p = files[n - 1];
        if y.len() > 0 {
            lemma_bytes_append(header, b);
            assert(p == h + encode_utf8(b));
            lemma_line_end(h, encode_utf8(b), 0);
            assert(p.skip(h.len() as int) =~= encode_utf8(b));
        } else {
            assert(b =~= Seq::empty());
            assert(p =~= Seq::empty());
            assert(p.skip(line_end(p, 0)) =~= Seq::empty());
        }
        lemma_headed_more(files, n);
        let done = parts_joined(files, true, m);
        if x.len() > 0 {
            lemma_bytes_append(header + a, b);
            assert((header + a) + b =~= header + (a + b));
            if y.len() == 0 {
                assert(a + b =~= a);
                assert(done + Seq::<u8>::empty() =~= done);
            }
        } else {
            assert(x =~= Seq::empty());
            assert(a =~= Seq::empty());
            assert(x + y =~= y);
            assert(encode_utf8(Seq::empty()) =~= Seq::empty());
            assert(done + p =~= p);
        }
    }
}

proof fn lemma_headed_more(files: Seq<Seq<u8>>, n: nat)
    requires
        0 < n <= files.len(),
    ensures
        headed(files, n) == (headed(files, (n - 1) as nat) || files[n - 1].len() > 0),
{
    if headed(files, n) {
        let i = choose|i: int| 0 <= i < n && (#[trigger] files[i]).len() > 0;
        if i < n - 1 {
            assert(files[i].len() > 0);
        }
    }
    if headed(files, (n - 1) as nat) {
        let i = choose|i: int| 0 <= i < n - 1 && (#[trigger] files[i]).len() > 0;
        assert(files[i].len() > 0);
    }
}

/// Range parts written in parallel are, byte for byte, the file that one serial run
/// over all ranges writes: every worker sends the chunks of its range along the
/// path into a file of its own, and the files are put behind one another without
/// the headers of the later ones.
pub proof fn lemma_range_parts_are_serial(
    path: Seq<Labelled>,
    parts: Seq<Seq<Batch>>,
    header: Seq<char>,
    sep: char,
    log: Log,
)
    requires
        forall|i: int| 0 <= i < parts.len() ==> coming_out(path, #[trigger] parts[i], log) is Ok,
        one_header(outs(path, parts, log), header, sep, log),
    ensures
        coming_out(path, all_chunks(parts), log) matches Ok(all) && (csv_file(all, sep, log) matches Ok(
            text,
        ) && parts_joined(
            part_files(outs(path, parts, log), sep, log),
            true,
            parts.len(),
        ) == encode_utf8(text)),
{
    let o = outs(path, parts, log);
    lemma_all_out(path, parts, log);
    lemma_files_joined(o, header, o.len(), sep, log);
    assert(o.take(o.len() as int) =~= o);
}

// ------------------------------------------------------------- JSON lines

/// The text of a JSON-lines file: the lines of all chunks.
pub open spec fn jsonl_file(bs: Seq<Batch>, log: Log) -> Result<Seq<char>, Query>
    decreases bs.len(),
{
    if bs.len() == 0 {
        Ok(Seq::empty())
    } else {
        match jsonl_file(bs.drop_last(), log) {
            Err(q) => Err(q),
            Ok(s) => match jsonl_lines(bs.last(), bs.last().len, log) {
                Err(q) => Err(q),
                Ok(t) => Ok(s + t),
            },
        }
    }
}

proof fn lemma_jsonl_append(x: Seq<Batch>, y: Seq<Batch>, log: Log)
    requires
        jsonl_file(x, log) is Ok,
        jsonl_file(y, log) is Ok,
    ensures
        jsonl_file(x + y, log) == Ok::<Seq<char>, Query>(
            jsonl_file(x, log)->Ok_0 + jsonl_file(y, log)->Ok_0,
        ),
    decreases y.len(),
{
    let a = jsonl_file(x, log)->Ok_0;
    if y.len() == 0 {
        assert(x + y =~= x);
        assert(a + Seq::<char>::empty() =~= a);
    } else {
        assert((x + y).drop_last() =~= x + y.drop_last());
        assert((x + y).last() == y.last());
        lemma_jsonl_append(x, y.drop_last(), log);
        let b = jsonl_file(y.drop_last(), log)->Ok_0;
        let t = jsonl_lines(y.last(), y.last().len, log)->Ok_0;
        assert((a + b) + t =~= a + (b + t));
    }
}

/// The bytes of the JSON-lines file of each part.
pub open spec fn part_jsonl_files(outs: Seq<Seq<Batch>>, log: Log) -> Seq<Seq<u8>> {
    Seq::new(outs.len(), |i: int| encode_utf8(jsonl_file(outs[i], log)->Ok_0))
}

proof fn lemma_jsonl_joined(o: Seq<Seq<Batch>>, n: nat, log: Log)
    requires
        forall|i: int| 0 <= i < o.len() ==> jsonl_file(#[trigger] o[i], log) is Ok,
        n <= o.len(),
    ensures
        jsonl_file(all_chunks(o.take(n as int)), log) matches Ok(text) && parts_joined(
            part_jsonl_files(o, log),
            false,
            n,
        ) == encode_utf8(text),
    decreases n,
{
    let now = o.take(n as int);
    if n == 0 {
        assert(now =~= Seq::empty());
        assert(encode_utf8(Seq::empty()) =~= Seq::empty());
    } else {
        let up = o.take(n - 1);
        lemma_jsonl_joined(o, (n - 1) as nat, log);
        assert(now.drop_last() =~= up);
        assert(now.last() == o[n - 1]);
        lemma_jsonl_append(all_chunks(up), o[n - 1], log);
        lemma_bytes_append(jsonl_file(all_chunks(up), log)->Ok_0, jsonl_file(o[n - 1], log)->Ok_0);
    }
}

/// Range parts written in parallel as JSON lines are, byte for byte, the file that
/// one serial run over all ranges writes.
pub proof fn lemma_jsonl_parts_are_serial(path: Seq<Labelled>, parts: Seq<Seq<Batch>>, log: Log)
    requires
        forall|i: int| 0 <= i < parts.len() ==> coming_out(path, #[trigger] parts[i], log) is Ok,
        forall|i: int|
            0 <= i < parts.len() ==> jsonl_file(#[trigger] outs(path, parts, log)[i], log) is Ok,
    ensures
        coming_out(path, all_chunks(parts), log) matches Ok(all) && (jsonl_file(all, log) matches Ok(
            text,
        ) && parts_joined(
            part_jsonl_files(outs(path, parts, log), log),
            false,
            parts.len(),
        ) == encode_utf8(text)),
{
    let o = outs(path, parts, log);
    lemma_all_out(path, parts, log);
    lemma_jsonl_joined(o, o.len(), log);
    assert(o.take(o.len() as int) =~= o);
}

} // verus!
