//! Data for tests and measurements: the same seed gives the same bytes.
use vstd::prelude::*;
use vstd::arithmetic::power2::pow2;
use crate::fxhash::little;
use crate::readback::lemma_digits_of;
use crate::strings::is_digit;
use crate::text::{nat_text, one_line, owned, u64_text};

verus! {

/// A small pseudo-random generator.
pub struct Rng(pub u64);

/// The step of the generator's state.
pub const STEP: u64 = 0x9e37_79b9_7f4a_7c15;

/// The number that a state gives.
pub open spec fn scrambled(s: u64) -> u64 {
    let a = (s ^ (s >> 30)).wrapping_mul(0xbf58_476d_1ce4_e5b9);
    let b = (a ^ (a >> 27)).wrapping_mul(0x94d0_49bb_1331_11eb);
    b ^ (b >> 31)
}

/// The state after one draw.
pub open spec fn stepped(s: u64) -> u64 {
    s.wrapping_add(STEP)
}

/// The number below `n` that the next draw gives.
pub open spec fn draw(s: u64, n: u64) -> u64 {
    if n == 0 {
        0
    } else {
        scrambled(stepped(s)) % n
    }
}

impl Rng {
    /// The generator of a seed.
    pub fn new(seed: u64) -> (r: Rng)
        ensures
            r.0 == seed.wrapping_add(STEP),
    {
        Rng(seed.wrapping_add(STEP))
    }

    /// The next number.
    pub fn next_u64(&mut self) -> (r: u64)
        ensures
            final(self).0 == stepped(old(self).0),
            r == scrambled(stepped(old(self).0)),
    {
        self.0 = self.0.wrapping_add(STEP);
        let s: u64 = self.0;
        let a: u64 = (s ^ (s >> 30)).wrapping_mul(0xbf58_476d_1ce4_e5b9);
        let b: u64 = (a ^ (a >> 27)).wrapping_mul(0x94d0_49bb_1331_11eb);
        b ^ (b >> 31)
    }

    /// The next number, brought below `n`; 0 where `n` is 0.
    pub fn below(&mut self, n: u64) -> (r: u64)
        ensures
            final(self).0 == stepped(old(self).0),
            r == draw(old(self).0, n),
            n > 0 ==> r < n,
    {
        let x: u64 = self.next_u64();
        if n == 0 {
            0
        } else {
            x % n
        }
    }
}

// ------------------------------------------------------------------ words

/// The country with that number.
pub open spec fn country(i: int) -> Seq<char> {
    if i == 0 {
        seq!['J', 'P']
    } else if i == 1 {
        seq!['U', 'S']
    } else if i == 2 {
        seq!['D', 'E']
    } else if i == 3 {
        seq!['F', 'R']
    } else {
        seq!['B', 'R']
    }
}

fn country_of(i: u64) -> (r: &'static str)
    requires
        i < 5,
    ensures
        r@ == country(i as int),
{
    proof {
        reveal_strlit("JP");
        reveal_strlit("US");
        reveal_strlit("DE");
        reveal_strlit("FR");
        reveal_strlit("BR");
        assert("JP"@ =~= seq!['J', 'P']);
        assert("US"@ =~= seq!['U', 'S']);
        assert("DE"@ =~= seq!['D', 'E']);
        assert("FR"@ =~= seq!['F', 'R']);
        assert("BR"@ =~= seq!['B', 'R']);
    }
    if i == 0 {
        "JP"
    } else if i == 1 {
        "US"
    } else if i == 2 {
        "DE"
    } else if i == 3 {
        "FR"
    } else {
        "BR"
    }
}

/// The first name with that number.
pub open spec fn first_name(i: int) -> Seq<char> {
    if i == 0 {
        "aki"@
    } else if i == 1 {
        "ben"@
    } else if i == 2 {
        "cho"@
    } else if i == 3 {
        "dee"@
    } else if i == 4 {
        "eri"@
    } else if i == 5 {
        "fum"@
    } else if i == 6 {
        "gen"@
    } else {
        "hina"@
    }
}

fn first_name_of(i: usize) -> (r: &'static str)
    requires
        i < 8,
    ensures
        r@ == first_name(i as int),
{
    if i == 0 {
        "aki"
    } else if i == 1 {
        "ben"
    } else if i == 2 {
        "cho"
    } else if i == 3 {
        "dee"
    } else if i == 4 {
        "eri"
    } else if i == 5 {
        "fum"
    } else if i == 6 {
        "gen"
    } else {
        "hina"
    }
}

/// The name of a row: one of eight, and the row's number.
pub open spec fn name(i: nat) -> Seq<char> {
    first_name((i % 8) as int) + nat_text(i)
}

fn name_of(i: usize) -> (r: String)
    ensures
        r@ == name(i as nat),
{
    let mut s: String = owned(first_name_of(i % 8));
    s.push_str(u64_text(i as u64).as_str());
    s
}

/// `true` or `false`.
pub open spec fn flag(b: bool) -> Seq<char> {
    if b {
        "true"@
    } else {
        "false"@
    }
}

fn flag_of(b: bool) -> (r: &'static str)
    ensures
        r@ == flag(b),
{
    if b {
        "true"
    } else {
        "false"
    }
}

/// Hundredths, as they are shown: without zeros at the end, and without a point
/// where nothing follows it.
pub open spec fn hundredths(k: nat) -> Seq<char> {
    let q = nat_text(k / 100);
    let r = k % 100;
    if r == 0 {
        q
    } else if r % 10 == 0 {
        q + seq!['.'] + nat_text(r / 10)
    } else {
        q + seq!['.'] + nat_text(r / 10) + nat_text(r % 10)
    }
}

fn hundredths_of(k: u64) -> (r: String)
    ensures
        r@ == hundredths(k as nat),
{
    let mut s: String = u64_text(k / 100);
    let rest: u64 = k % 100;
    if rest == 0 {
        return s;
    }
    let ghost q = s@;
    s.push('.');
    assert(s@ =~= q + seq!['.']);
    s.push_str(u64_text(rest / 10).as_str());
    if rest % 10 != 0 {
        s.push_str(u64_text(rest % 10).as_str());
    }
    s
}

// ------------------------------------------------------------------- rows

/// The names of the columns.
pub open spec fn header() -> Seq<char> {
    "id,name,age,score,country,active"@
}

/// What is drawn for a row: the age, the score in hundredths, the country, and
/// whether it is active.
pub struct RowDraw {
    pub age: u64,
    pub score: u64,
    pub country: u64,
    pub active: bool,
}

/// The draws of a row, and the state after them.
pub open spec fn row_draw(s: u64) -> (RowDraw, u64) {
    let s1 = stepped(s);
    let s2 = stepped(s1);
    let s3 = stepped(s2);
    (
        RowDraw {
            age: draw(s, 90),
            score: draw(s1, 10_000),
            country: draw(s2, 5),
            active: draw(s3, 2) == 1,
        },
        stepped(s3),
    )
}

fn draw_row(rng: &mut Rng) -> (r: RowDraw)
    ensures
        (r, final(rng).0) == row_draw(old(rng).0),
        r.country < 5,
{
    let age: u64 = rng.below(90);
    let score: u64 = rng.below(10_000);
    let country: u64 = rng.below(5);
    let active: bool = rng.below(2) == 1;
    RowDraw { age, score, country, active }
}

/// The CSV line of a row.
pub open spec fn csv_row(i: nat, d: RowDraw) -> Seq<char> {
    nat_text(i) + ","@ + name(i) + ","@ + nat_text(d.age as nat) + ","@ + hundredths(d.score as nat)
        + ","@ + country(d.country as int) + ","@ + flag(d.active) + "\n"@
}

fn push_csv_row(s: &mut String, i: usize, d: &RowDraw)
    requires
        d.country < 5,
    ensures
        final(s)@ == old(s)@ + csv_row(i as nat, *d),
{
    let mut t: String = u64_text(i as u64);
    t.push_str(",");
    t.push_str(name_of(i).as_str());
    t.push_str(",");
    t.push_str(u64_text(d.age).as_str());
    t.push_str(",");
    t.push_str(hundredths_of(d.score).as_str());
    t.push_str(",");
    t.push_str(country_of(d.country));
    t.push_str(",");
    t.push_str(flag_of(d.active));
    t.push_str("\n");
    s.push_str(t.as_str());
}

/// The first `n` CSV lines, and the state after them.
pub open spec fn csv_rows(n: nat, s: u64) -> (Seq<char>, u64)
    decreases n,
{
    if n == 0 {
        (Seq::empty(), s)
    } else {
        let (t, up) = csv_rows((n - 1) as nat, s);
        let (d, after) = row_draw(up);
        (t + csv_row((n - 1) as nat, d), after)
    }
}

/// Well formed records as CSV.
pub fn clean(rows: usize, seed: u64) -> (r: String)
    ensures
        r@ == header() + "\n"@ + csv_rows(rows as nat, seed.wrapping_add(STEP)).0,
{
    let mut rng: Rng = Rng::new(seed);
    let ghost s0 = rng.0;
    let mut s: String = owned("id,name,age,score,country,active");
    s.push_str("\n");
    let ghost head = s@;
    assert(head + Seq::<char>::empty() =~= head);
    for i in 0..rows
        invariant
            csv_rows(i as nat, s0).1 == rng.0,
            s@ == head + csv_rows(i as nat, s0).0,
    {
        let ghost up = csv_rows(i as nat, s0).0;
        let d: RowDraw = draw_row(&mut rng);
        push_csv_row(&mut s, i, &d);
        assert(head + up + csv_row(i as nat, d) =~= head + (up + csv_row(i as nat, d)));
    }
    s
}

/// The first `n` CSV lines of which some are malformed, and the state after
/// them: a draw below the threshold, of a million, spoils a line.
pub open spec fn spoiled_rows(n: nat, threshold: u64, s: u64) -> (Seq<char>, u64)
    decreases n,
{
    if n == 0 {
        (Seq::empty(), s)
    } else {
        let (t, up) = spoiled_rows((n - 1) as nat, threshold, s);
        let i = (n - 1) as nat;
        if draw(up, 1_000_000) < threshold {
            let s1 = stepped(up);
            if draw(s1, 2) == 0 {
                (t + (nat_text(i) + ","@ + name(i) + "\n"@), stepped(s1))
            } else {
                (t + "###garbage row###\n"@, stepped(s1))
            }
        } else {
            let (d, after) = row_draw(stepped(up));
            (t + csv_row(i, d), after)
        }
    }
}

/// Records as CSV of which some are malformed: too few fields, or one of junk.
/// `threshold` is the part of a million that is.
pub fn error_heavy(rows: usize, threshold: u64, seed: u64) -> (r: String)
    ensures
        r@ == header() + "\n"@ + spoiled_rows(rows as nat, threshold, seed.wrapping_add(STEP)).0,
{
    let mut rng: Rng = Rng::new(seed);
    let ghost s0 = rng.0;
    let mut s: String = owned("id,name,age,score,country,active");
    s.push_str("\n");
    let ghost head = s@;
    assert(head + Seq::<char>::empty() =~= head);
    for i in 0..rows
        invariant
            spoiled_rows(i as nat, threshold, s0).1 == rng.0,
            s@ == head + spoiled_rows(i as nat, threshold, s0).0,
    {
        let ghost up = spoiled_rows(i as nat, threshold, s0).0;
        let ghost next = spoiled_rows((i + 1) as nat, threshold, s0).0;
        if rng.below(1_000_000) < threshold {
            if rng.below(2) == 0 {
                let mut t: String = u64_text(i as u64);
                t.push_str(",");
                t.push_str(name_of(i).as_str());
                t.push_str("\n");
                s.push_str(t.as_str());
            } else {
                s.push_str("###garbage row###\n");
            }
        } else {
            let d: RowDraw = draw_row(&mut rng);
            push_csv_row(&mut s, i, &d);
        }
        assert(s@ =~= head + next);
    }
    s
}

/// The first `n` lines of a column of mixed types, and the state after them.
pub open spec fn mixed_rows(n: nat, threshold: u64, s: u64) -> (Seq<char>, u64)
    decreases n,
{
    if n == 0 {
        (Seq::empty(), s)
    } else {
        let (t, up) = mixed_rows((n - 1) as nat, threshold, s);
        let i = nat_text((n - 1) as nat);
        let s1 = stepped(up);
        if draw(up, 1_000_000) < threshold {
            let s2 = stepped(s1);
            if draw(s1, 2) == 0 {
                (t + (i + ","@ + nat_text(draw(s2, 100) as nat) + ".5\n"@), stepped(s2))
            } else {
                (t + (i + ",N/A\n"@), s2)
            }
        } else {
            (t + (i + ","@ + nat_text(draw(s1, 100) as nat) + "\n"@), stepped(s1))
        }
    }
}

/// A column of integers among which some cells are halves or text. `threshold`
/// is the part of a million that is.
pub fn mixed_types(rows: usize, threshold: u64, seed: u64) -> (r: String)
    ensures
        r@ == "id,value\n"@ + mixed_rows(rows as nat, threshold, seed.wrapping_add(STEP)).0,
{
    let mut rng: Rng = Rng::new(seed);
    let ghost s0 = rng.0;
    let mut s: String = owned("id,value\n");
    let ghost head = s@;
    assert(head + Seq::<char>::empty() =~= head);
    for i in 0..rows
        invariant
            mixed_rows(i as nat, threshold, s0).1 == rng.0,
            s@ == head + mixed_rows(i as nat, threshold, s0).0,
    {
        let ghost next = mixed_rows((i + 1) as nat, threshold, s0).0;
        let mut t: String = u64_text(i as u64);
        if rng.below(1_000_000) < threshold {
            if rng.below(2) == 0 {
                t.push_str(",");
                t.push_str(u64_text(rng.below(100)).as_str());
                t.push_str(".5\n");
            } else {
                t.push_str(",N/A\n");
            }
        } else {
            t.push_str(",");
            t.push_str(u64_text(rng.below(100)).as_str());
            t.push_str("\n");
        }
        s.push_str(t.as_str());
        assert(s@ =~= head + next);
    }
    s
}

/// The JSON line of a row.
pub open spec fn json_row(i: nat, d: RowDraw) -> Seq<char> {
    "{\"id\":"@ + nat_text(i) + ",\"name\":\""@ + name(i) + "\",\"age\":"@ + nat_text(d.age as nat)
        + ",\"score\":"@ + hundredths(d.score as nat) + ",\"country\":\""@ + country(
        d.country as int,
    ) + "\",\"active\":"@ + flag(d.active) + "}\n"@
}

/// The first `n` JSON lines, and the state after them.
pub open spec fn json_rows(n: nat, s: u64) -> (Seq<char>, u64)
    decreases n,
{
    if n == 0 {
        (Seq::empty(), s)
    } else {
        let (t, up) = json_rows((n - 1) as nat, s);
        let (d, after) = row_draw(up);
        (t + json_row((n - 1) as nat, d), after)
    }
}

/// The same records as [`clean`] as JSON lines.
pub fn jsonl_clean(rows: usize, seed: u64) -> (r: String)
    ensures
        r@ == json_rows(rows as nat, seed.wrapping_add(STEP)).0,
{
    let mut rng: Rng = Rng::new(seed);
    let ghost s0 = rng.0;
    let mut s: String = String::new();
    assert(s@ =~= Seq::empty());
    for i in 0..rows
        invariant
            json_rows(i as nat, s0) == (s@, rng.0),
    {
        let d: RowDraw = draw_row(&mut rng);
        let mut t: String = owned("{\"id\":");
        t.push_str(u64_text(i as u64).as_str());
        t.push_str(",\"name\":\"");
        t.push_str(name_of(i).as_str());
        t.push_str("\",\"age\":");
        t.push_str(u64_text(d.age).as_str());
        t.push_str(",\"score\":");
        t.push_str(hundredths_of(d.score).as_str());
        t.push_str(",\"country\":\"");
        t.push_str(country_of(d.country));
        t.push_str("\",\"active\":");
        t.push_str(flag_of(d.active));
        t.push_str("}\n");
        s.push_str(t.as_str());
    }
    s
}

/// The state before row `n`.
pub open spec fn row_state(n: nat, s: u64) -> u64
    decreases n,
{
    if n == 0 {
        s
    } else {
        row_draw(row_state((n - 1) as nat, s)).1
    }
}

/// The six fields of a row.
pub open spec fn record(i: nat, d: RowDraw) -> Seq<Seq<char>> {
    seq![
        nat_text(i),
        name(i),
        nat_text(d.age as nat),
        hundredths(d.score as nat),
        country(d.country as int),
        flag(d.active),
    ]
}

/// The records of the first `n` rows.
pub open spec fn records(n: nat, s: u64) -> Seq<Seq<Seq<char>>> {
    Seq::new(n, |i: int| record(i as nat, row_draw(row_state(i as nat, s)).0))
}

/// A record as a line of CSV.
pub open spec fn csv_line(f: Seq<Seq<char>>) -> Seq<char> {
    f[0] + ","@ + f[1] + ","@ + f[2] + ","@ + f[3] + ","@ + f[4] + ","@ + f[5] + "\n"@
}

/// A record as a line of JSON.
pub open spec fn json_line(f: Seq<Seq<char>>) -> Seq<char> {
    "{\"id\":"@ + f[0] + ",\"name\":\""@ + f[1] + "\",\"age\":"@ + f[2] + ",\"score\":"@ + f[3]
        + ",\"country\":\""@ + f[4] + "\",\"active\":"@ + f[5] + "}\n"@
}

/// Texts one after the other.
pub open spec fn joined(ts: Seq<Seq<char>>) -> Seq<char>
    decreases ts.len(),
{
    if ts.len() == 0 {
        Seq::empty()
    } else {
        joined(ts.drop_last()) + ts.last()
    }
}

/// The records as lines of CSV.
pub open spec fn csv_lines(rs: Seq<Seq<Seq<char>>>) -> Seq<Seq<char>> {
    Seq::new(rs.len(), |i: int| csv_line(rs[i]))
}

/// The records as lines of JSON.
pub open spec fn json_lines(rs: Seq<Seq<Seq<char>>>) -> Seq<Seq<char>> {
    Seq::new(rs.len(), |i: int| json_line(rs[i]))
}

proof fn lemma_lines_pushed(rs: Seq<Seq<Seq<char>>>, f: Seq<Seq<char>>)
    ensures
        joined(csv_lines(rs.push(f))) == joined(csv_lines(rs)) + csv_line(f),
        joined(json_lines(rs.push(f))) == joined(json_lines(rs)) + json_line(f),
{
    let (a, b) = (csv_lines(rs.push(f)), json_lines(rs.push(f)));
    assert(a.last() == csv_line(f));
    assert(b.last() == json_line(f));
    assert(a.drop_last() =~= csv_lines(rs));
    assert(b.drop_last() =~= json_lines(rs));
}

/// A row's line holds the fields of its record.
pub proof fn lemma_row_lines(i: nat, d: RowDraw)
    ensures
        csv_row(i, d) == csv_line(record(i, d)),
        json_row(i, d) == json_line(record(i, d)),
{
    let f = record(i, d);
    assert(f[0] == nat_text(i) && f[1] == name(i) && f[2] == nat_text(d.age as nat));
    assert(f[3] == hundredths(d.score as nat) && f[4] == country(d.country as int));
    assert(f[5] == flag(d.active));
}

/// The CSV and the JSON data of a seed hold the same records, line by line: both
/// are the lines of one list of as many records as there are rows.
pub proof fn lemma_same_records(n: nat, s: u64)
    ensures
        records(n, s).len() == n,
        csv_rows(n, s) == (joined(csv_lines(records(n, s))), row_state(n, s)),
        json_rows(n, s) == (joined(json_lines(records(n, s))), row_state(n, s)),
    decreases n,
{
    if n > 0 {
        let k = (n - 1) as nat;
        let (more, fewer) = (records(n, s), records(k, s));
        lemma_same_records(k, s);
        lemma_row_lines(k, row_draw(row_state(k, s)).0);
        assert(more =~= fewer.push(record(k, row_draw(row_state(k, s)).0)));
        lemma_lines_pushed(fewer, record(k, row_draw(row_state(k, s)).0));
    }
}

/// A field holds nothing that ends a line, a field or a text.
pub open spec fn plain(t: Seq<char>) -> bool {
    &&& t.len() > 0
    &&& forall|i: int|
        0 <= i < t.len() ==> (#[trigger] t[i]) != '\n' && t[i] != ',' && t[i] != '"' && t[i] != '\\'
}

proof fn lemma_plain_number(n: nat)
    ensures
        plain(nat_text(n)),
{
    lemma_digits_of(n);
    let t = nat_text(n);
    assert(t.len() > 0);
    assert forall|i: int| 0 <= i < t.len() implies (#[trigger] t[i]) != '\n' && t[i] != ','
        && t[i] != '"' && t[i] != '\\' by {
        assert(is_digit(t[i]));
    }
}

proof fn lemma_plain_append(a: Seq<char>, b: Seq<char>)
    requires
        plain(a),
        plain(b),
    ensures
        plain(a + b),
{
    let t = a + b;
    assert forall|i: int| 0 <= i < t.len() implies (#[trigger] t[i]) != '\n' && t[i] != ','
        && t[i] != '"' && t[i] != '\\' by {
        if i < a.len() {
            assert(t[i] == a[i]);
        } else {
            assert(t[i] == b[i - a.len()]);
        }
    }
}

proof fn lemma_plain_words(k: int, b: bool)
    ensures
        plain(first_name(k)),
        plain(country(k)),
        plain(flag(b)),
{
    reveal_strlit("aki");
    reveal_strlit("ben");
    reveal_strlit("cho");
    reveal_strlit("dee");
    reveal_strlit("eri");
    reveal_strlit("fum");
    reveal_strlit("gen");
    reveal_strlit("hina");
    reveal_strlit("true");
    reveal_strlit("false");
}

proof fn lemma_plain_hundredths(k: nat)
    ensures
        plain(hundredths(k)),
{
    let (q, r) = (nat_text(k / 100), k % 100);
    lemma_plain_number(k / 100);
    lemma_plain_number(r / 10);
    lemma_plain_number(r % 10);
    assert(plain(seq!['.']));
    lemma_plain_append(q, seq!['.']);
    lemma_plain_append(q + seq!['.'], nat_text(r / 10));
    lemma_plain_append(q + seq!['.'] + nat_text(r / 10), nat_text(r % 10));
}

/// A record has six fields, and no field holds a newline, a comma, a quote or a
/// backslash: in a line of CSV and in one of JSON they stay apart.
pub proof fn lemma_record_fields(i: nat, d: RowDraw)
    ensures
        record(i, d).len() == 6,
        forall|j: int| 0 <= j < 6 ==> plain(#[trigger] record(i, d)[j]),
{
    lemma_plain_number(i);
    lemma_plain_number(d.age as nat);
    lemma_plain_hundredths(d.score as nat);
    lemma_plain_words((i % 8) as int, d.active);
    lemma_plain_words(d.country as int, d.active);
    lemma_plain_append(first_name((i % 8) as int), nat_text(i));
}

spec fn unbroken(t: Seq<char>) -> bool {
    forall|i: int| 0 <= i < t.len() ==> (#[trigger] t[i]) != '\n'
}

proof fn lemma_unbroken_append(a: Seq<char>, b: Seq<char>)
    requires
        unbroken(a),
        unbroken(b),
    ensures
        unbroken(a + b),
{
    let t = a + b;
    assert forall|i: int| 0 <= i < t.len() implies (#[trigger] t[i]) != '\n' by {
        if i < a.len() {
            assert(t[i] == a[i]);
        } else {
            assert(t[i] == b[i - a.len()]);
        }
    }
}

proof fn lemma_line_ended(a: Seq<char>, b: Seq<char>)
    requires
        unbroken(a),
        one_line(b),
    ensures
        one_line(a + b),
{
    let t = a + b;
    assert(t.last() == b.last());
    assert forall|i: int| 0 <= i < t.len() - 1 implies (#[trigger] t[i]) != '\n' by {
        if i < a.len() {
            assert(t[i] == a[i]);
        } else {
            assert(t[i] == b[i - a.len()]);
        }
    }
}

proof fn lemma_csv_line(f: Seq<Seq<char>>)
    requires
        f.len() == 6,
        forall|j: int| 0 <= j < 6 ==> plain(#[trigger] f[j]),
    ensures
        one_line(csv_line(f)),
{
    reveal_strlit(",");
    reveal_strlit("\n");
    let c = ","@;
    assert(plain(f[0]) && plain(f[1]) && plain(f[2]) && plain(f[3]) && plain(f[4]) && plain(f[5]));
    let t1 = f[0] + c;
    lemma_unbroken_append(f[0], c);
    lemma_unbroken_append(t1, f[1]);
    let t2 = t1 + f[1] + c;
    lemma_unbroken_append(t1 + f[1], c);
    lemma_unbroken_append(t2, f[2]);
    let t3 = t2 + f[2] + c;
    lemma_unbroken_append(t2 + f[2], c);
    lemma_unbroken_append(t3, f[3]);
    let t4 = t3 + f[3] + c;
    lemma_unbroken_append(t3 + f[3], c);
    lemma_unbroken_append(t4, f[4]);
    let t5 = t4 + f[4] + c;
    lemma_unbroken_append(t4 + f[4], c);
    lemma_unbroken_append(t5, f[5]);
    lemma_line_ended(t5 + f[5], "\n"@);
}

proof fn lemma_json_line(f: Seq<Seq<char>>)
    requires
        f.len() == 6,
        forall|j: int| 0 <= j < 6 ==> plain(#[trigger] f[j]),
    ensures
        one_line(json_line(f)),
{
    reveal_strlit("{\"id\":");
    reveal_strlit(",\"name\":\"");
    reveal_strlit("\",\"age\":");
    reveal_strlit(",\"score\":");
    reveal_strlit(",\"country\":\"");
    reveal_strlit("\",\"active\":");
    reveal_strlit("}\n");
    assert(plain(f[0]) && plain(f[1]) && plain(f[2]) && plain(f[3]) && plain(f[4]) && plain(f[5]));
    let t1 = "{\"id\":"@ + f[0];
    lemma_unbroken_append("{\"id\":"@, f[0]);
    let t2 = t1 + ",\"name\":\""@;
    lemma_unbroken_append(t1, ",\"name\":\""@);
    let t3 = t2 + f[1] + "\",\"age\":"@;
    lemma_unbroken_append(t2, f[1]);
    lemma_unbroken_append(t2 + f[1], "\",\"age\":"@);
    let t4 = t3 + f[2] + ",\"score\":"@;
    lemma_unbroken_append(t3, f[2]);
    lemma_unbroken_append(t3 + f[2], ",\"score\":"@);
    let t5 = t4 + f[3] + ",\"country\":\""@;
    lemma_unbroken_append(t4, f[3]);
    lemma_unbroken_append(t4 + f[3], ",\"country\":\""@);
    let t6 = t5 + f[4] + "\",\"active\":"@;
    lemma_unbroken_append(t5, f[4]);
    lemma_unbroken_append(t5 + f[4], "\",\"active\":"@);
    lemma_unbroken_append(t6, f[5]);
    lemma_line_ended(t6 + f[5], "}\n"@);
}

/// Each record is one line of CSV and one of JSON, ended by a newline. With
/// [`lemma_same_records`]: the data of `n` rows has exactly `n` such lines.
pub proof fn lemma_lines(n: nat, s: u64)
    ensures
        csv_lines(records(n, s)).len() == n,
        json_lines(records(n, s)).len() == n,
        forall|i: int| 0 <= i < n ==> one_line(#[trigger] csv_lines(records(n, s))[i]),
        forall|i: int| 0 <= i < n ==> one_line(#[trigger] json_lines(records(n, s))[i]),
{
    let rs = records(n, s);
    assert forall|i: int| 0 <= i < n implies one_line(#[trigger] csv_lines(rs)[i]) by {
        lemma_record_fields(i as nat, row_draw(row_state(i as nat, s)).0);
        lemma_csv_line(rs[i]);
    }
    assert forall|i: int| 0 <= i < n implies one_line(#[trigger] json_lines(rs)[i]) by {
        lemma_record_fields(i as nat, row_draw(row_state(i as nat, s)).0);
        lemma_json_line(rs[i]);
    }
}

proof fn lemma_prefix_grows(a: Seq<char>, b: Seq<char>, x: Seq<char>)
    requires
        a.is_prefix_of(b),
    ensures
        a.is_prefix_of(b + x),
{
    assert(a =~= (b + x).subrange(0, a.len() as int));
}

proof fn lemma_fewer_spoiled(k: nat, n: nat, threshold: u64, s: u64)
    requires
        k <= n,
    ensures
        spoiled_rows(k, threshold, s).0.is_prefix_of(spoiled_rows(n, threshold, s).0),
    decreases n,
{
    let a = spoiled_rows(k, threshold, s).0;
    if k == n {
        assert(a =~= a.subrange(0, a.len() as int));
    } else {
        let i = (n - 1) as nat;
        lemma_fewer_spoiled(k, i, threshold, s);
        let (t, up) = spoiled_rows(i, threshold, s);
        lemma_prefix_grows(a, t, nat_text(i) + ","@ + name(i) + "\n"@);
        lemma_prefix_grows(a, t, "###garbage row###\n"@);
        lemma_prefix_grows(a, t, csv_row(i, row_draw(stepped(up)).0));
    }
}

proof fn lemma_fewer_mixed(k: nat, n: nat, threshold: u64, s: u64)
    requires
        k <= n,
    ensures
        mixed_rows(k, threshold, s).0.is_prefix_of(mixed_rows(n, threshold, s).0),
    decreases n,
{
    let a = mixed_rows(k, threshold, s).0;
    if k == n {
        assert(a =~= a.subrange(0, a.len() as int));
    } else {
        lemma_fewer_mixed(k, (n - 1) as nat, threshold, s);
        let (t, up) = mixed_rows((n - 1) as nat, threshold, s);
        let i = nat_text((n - 1) as nat);
        let s1 = stepped(up);
        lemma_prefix_grows(a, t, i + ","@ + nat_text(draw(stepped(s1), 100) as nat) + ".5\n"@);
        lemma_prefix_grows(a, t, i + ",N/A\n"@);
        lemma_prefix_grows(a, t, i + ","@ + nat_text(draw(s1, 100) as nat) + "\n"@);
    }
}

/// Fewer rows of a seed are a prefix of more, in each of the forms.
pub proof fn lemma_fewer_rows(k: nat, n: nat, threshold: u64, s: u64)
    requires
        k <= n,
    ensures
        csv_rows(k, s).0.is_prefix_of(csv_rows(n, s).0),
        json_rows(k, s).0.is_prefix_of(json_rows(n, s).0),
        spoiled_rows(k, threshold, s).0.is_prefix_of(spoiled_rows(n, threshold, s).0),
        mixed_rows(k, threshold, s).0.is_prefix_of(mixed_rows(n, threshold, s).0),
    decreases n,
{
    lemma_fewer_spoiled(k, n, threshold, s);
    lemma_fewer_mixed(k, n, threshold, s);
    let (a, b) = (csv_rows(k, s).0, json_rows(k, s).0);
    if k == n {
        assert(a =~= a.subrange(0, a.len() as int));
        assert(b =~= b.subrange(0, b.len() as int));
    } else {
        let m = (n - 1) as nat;
        lemma_fewer_rows(k, m, threshold, s);
        lemma_prefix_grows(a, csv_rows(m, s).0, csv_row(m, row_draw(csv_rows(m, s).1).0));
        lemma_prefix_grows(b, json_rows(m, s).0, json_row(m, row_draw(json_rows(m, s).1).0));
    }
}

// ----------------------------------------------------------------- binary

/// A number over 100 with its point moved until the quotient has 53 bits: the
/// number, and by how many places.
pub open spec fn normal(a: nat, s: nat) -> (nat, nat)
    decreases 0xc80_0000_0000_0000 - a,
    when 0 < a
{
    if a >= 0x640_0000_0000_0000 {
        (a, s)
    } else {
        normal(2 * a, s + 1)
    }
}

/// A quotient rounded to the nearest, and to the even one of two equally near.
pub open spec fn nearest(a: nat, b: nat) -> nat {
    let q = a / b;
    let r = a % b;
    if 2 * r < b || (2 * r == b && q % 2 == 0) {
        q
    } else {
        q + 1
    }
}

/// The bits of the double nearest to a number of hundredths.
pub open spec fn hundredths_bits(k: nat) -> int {
    if k == 0 {
        0
    } else {
        let (a, s) = normal(k, 0);
        (1074 - s) * 0x10_0000_0000_0000 + nearest(a, 100)
    }
}

fn bits_of_hundredths(k: u64) -> (r: u64)
    requires
        k < 10_000,
    ensures
        r == hundredths_bits(k as nat),
{
    if k == 0 {
        return 0;
    }
    let mut a: u64 = k;
    let mut s: u64 = 0;
    proof {
        vstd::arithmetic::power2::lemma2_to64();
    }
    while a < 0x640_0000_0000_0000
        invariant
            0 < k < 10_000,
            0 < a < 0xc80_0000_0000_0000,
            a == k * pow2(s as nat),
            s <= 60,
            normal(k as nat, 0) == normal(a as nat, s as nat),
        decreases 0xc80_0000_0000_0000 - a,
    {
        proof {
            vstd::arithmetic::power2::lemma2_to64_rest();
            vstd::arithmetic::power2::lemma2_to64();
            vstd::arithmetic::power2::lemma_pow2_unfold((s + 1) as nat);
            assert(2 * (k * pow2(s as nat)) == k * (2 * pow2(s as nat))) by (nonlinear_arith);
            if s == 60 {
                assert(k * pow2(60) >= pow2(60)) by (nonlinear_arith)
                    requires
                        k >= 1,
                        pow2(60) >= 0,
                ;
                assert(pow2(60) == 0x1000_0000_0000_0000);
            }
        }
        a = 2 * a;
        s = s + 1;
    }
    let q: u64 = a / 100;
    let rest: u64 = a % 100;
    let m: u64 = if 2 * rest < 100 || (2 * rest == 100 && q % 2 == 0) {
        q
    } else {
        q + 1
    };
    assert((1074 - s) * 0x10_0000_0000_0000 <= 1074 * 0x10_0000_0000_0000) by (nonlinear_arith)
        requires
            0 <= s <= 60,
    ;
    (1074 - s) * 0x10_0000_0000_0000 + m
}

/// The low `n` bytes of a number, the lowest first.
pub open spec fn le_bytes(x: int, n: nat) -> Seq<u8>
    decreases n,
{
    if n == 0 {
        Seq::empty()
    } else {
        seq![(x % 256) as u8] + le_bytes(x / 256, (n - 1) as nat)
    }
}

/// Bytes read back are the number that was written, where it fits.
pub proof fn lemma_bytes_read_back(x: int, n: nat)
    requires
        0 <= x < pow2(8 * n),
    ensures
        le_bytes(x, n).len() == n,
        little(le_bytes(x, n)) == x,
    decreases n,
{
    vstd::arithmetic::power2::lemma2_to64();
    if n > 0 {
        vstd::arithmetic::power2::lemma_pow2_adds(8, (8 * (n - 1)) as nat);
        assert(pow2(8) == 256);
        assert(x / 256 < pow2((8 * (n - 1)) as nat)) by (nonlinear_arith)
            requires
                0 <= x < 256 * pow2((8 * (n - 1)) as nat),
        ;
        lemma_bytes_read_back(x / 256, (n - 1) as nat);
        let s = le_bytes(x, n);
        assert(s.drop_first() =~= le_bytes(x / 256, (n - 1) as nat));
        assert(s[0] == (x % 256) as u8);
    }
}

fn push_le(out: &mut Vec<u8>, x: u64, n: usize)
    ensures
        final(out)@ == old(out)@ + le_bytes(x as int, n as nat),
    decreases n,
{
    let ghost start = out@;
    if n == 0 {
        assert(start + Seq::<u8>::empty() =~= start);
        return;
    }
    out.push((x % 256) as u8);
    push_le(out, x / 256, n - 1);
    assert(out@ =~= start + le_bytes(x as int, n as nat));
}

/// The bytes of a row: its number and the age in four bytes each, the score as
/// a double, and one byte that is 1 where it is active.
pub open spec fn bin_row(i: nat, age: u64, score: u64, active: bool) -> Seq<u8> {
    le_bytes((i % 0x1_0000_0000) as int, 4) + le_bytes(age as int, 4) + le_bytes(
        hundredths_bits(score as nat),
        8,
    ) + seq![
        if active {
            1u8
        } else {
            0u8
        },
    ]
}

/// The bytes of the first `n` rows, and the state after them.
pub open spec fn bin_rows(n: nat, s: u64) -> (Seq<u8>, u64)
    decreases n,
{
    if n == 0 {
        (Seq::empty(), s)
    } else {
        let (t, up) = bin_rows((n - 1) as nat, s);
        let s1 = stepped(up);
        let s2 = stepped(s1);
        (
            t + bin_row((n - 1) as nat, draw(up, 90), draw(s1, 10_000), draw(s2, 2) == 1),
            stepped(s2),
        )
    }
}

/// Records of seventeen bytes: `i32 id, i32 age, f64 score, u8 active`, the
/// lowest byte first.
pub fn bin_clean(rows: usize, seed: u64) -> (r: Vec<u8>)
    ensures
        r@ == bin_rows(rows as nat, seed.wrapping_add(STEP)).0,
{
    let mut rng: Rng = Rng::new(seed);
    let ghost s0 = rng.0;
    let mut out: Vec<u8> = Vec::new();
    for i in 0..rows
        invariant
            bin_rows(i as nat, s0) == (out@, rng.0),
    {
        let ghost up = out@;
        push_le(&mut out, i as u64 % 0x1_0000_0000, 4);
        let age: u64 = rng.below(90);
        push_le(&mut out, age, 4);
        let score: u64 = rng.below(10_000);
        push_le(&mut out, bits_of_hundredths(score), 8);
        let active: bool = rng.below(2) == 1;
        out.push(
            if active {
                1
            } else {
                0
            },
        );
        assert(out@ =~= up + bin_row(i as nat, age, score, active));
    }
    out
}

} // verus!
