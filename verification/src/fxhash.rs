//! A fast hasher for short keys that are made inside the program: each word is
//! rotated in and multiplied. The same bytes hash the same everywhere.
use vstd::prelude::*;
use std::hash::{BuildHasherDefault, Hasher};

verus! {

/// The multiplier.
pub const K: u64 = 0x517c_c1b7_2722_0a95;

/// The hasher.
#[derive(Default, Debug)]
pub struct FxHasher {
    pub hash: u64,
}

/// Makes hashers for maps and sets.
pub type FxBuild = BuildHasherDefault<FxHasher>;

/// The bits moved five places to the left, those that fall out coming in at the
/// right.
pub open spec fn rotl5(h: u64) -> u64 {
    (h << 5) | (h >> 59)
}

/// The hash after one word.
pub open spec fn mixed(h: u64, word: u64) -> u64 {
    (rotl5(h) ^ word).wrapping_mul(K)
}

/// The number that bytes write, the lowest first.
pub open spec fn little(s: Seq<u8>) -> int
    decreases s.len(),
{
    if s.len() == 0 {
        0
    } else {
        s[0] + 256 * little(s.drop_first())
    }
}

/// The hash after single bytes.
pub open spec fn mixed_bytes(h: u64, s: Seq<u8>) -> u64
    decreases s.len(),
{
    if s.len() == 0 {
        h
    } else {
        mixed_bytes(mixed(h, s[0] as u64), s.drop_first())
    }
}

/// The hash after bytes: words of eight, then at most one of four, then single
/// bytes.
pub open spec fn hashed(h: u64, s: Seq<u8>) -> u64
    decreases s.len(),
{
    if s.len() >= 8 {
        hashed(mixed(h, little(s.take(8)) as u64), s.skip(8))
    } else if s.len() >= 4 {
        mixed_bytes(mixed(h, little(s.take(4)) as u64), s.skip(4))
    } else {
        mixed_bytes(h, s)
    }
}

fn word4(b: &[u8], at: usize) -> (r: u64)
    requires
        at + 4 <= b@.len(),
    ensures
        r == little(b@.subrange(at as int, at + 4)),
        r < 0x1_0000_0000,
{
    proof {
        reveal_with_fuel(little, 6);
        let s = b@.subrange(at as int, at + 4);
        let a = s.drop_first();
        let c = a.drop_first();
        let d = c.drop_first();
        assert(a[0] == s[1] && c[0] == s[2] && d[0] == s[3]);
        assert(d.drop_first().len() == 0);
        assert(little(d) == s[3] as int);
        assert(little(c) == s[2] + 256 * little(d));
        assert(little(a) == s[1] + 256 * little(c));
    }
    b[at] as u64 + 256 * (b[at + 1] as u64 + 256 * (b[at + 2] as u64 + 256 * (b[at + 3] as u64)))
}

proof fn lemma_little_split(s: Seq<u8>)
    requires
        s.len() == 8,
    ensures
        little(s) == little(s.subrange(0, 4)) + 0x1_0000_0000 * little(s.subrange(4, 8)),
{
    assert(s =~= s.subrange(0, 4) + s.subrange(4, 8));
    lemma_little_from(s, s.subrange(4, 8), s.subrange(0, 4));
}

proof fn lemma_little_from(s: Seq<u8>, hi: Seq<u8>, lo: Seq<u8>)
    requires
        s == lo + hi,
        lo.len() == 4,
    ensures
        little(s) == little(lo) + 0x1_0000_0000 * little(hi),
{
    reveal_with_fuel(little, 6);
    let s1 = s.drop_first();
    let s2 = s1.drop_first();
    let s3 = s2.drop_first();
    let s4 = s3.drop_first();
    assert(s4 =~= hi);
    assert(s1[0] == s[1] && s2[0] == s[2] && s3[0] == s[3]);
    assert(little(s) == s[0] + 256 * little(s1));
    assert(little(s1) == s[1] + 256 * little(s2));
    assert(little(s2) == s[2] + 256 * little(s3));
    assert(little(s3) == s[3] + 256 * little(s4));
    let l1 = lo.drop_first();
    let l2 = l1.drop_first();
    let l3 = l2.drop_first();
    assert(l1[0] == lo[1] && l2[0] == lo[2] && l3[0] == lo[3]);
    assert(little(lo) == lo[0] + 256 * little(l1));
    assert(little(l1) == lo[1] + 256 * little(l2));
    assert(little(l2) == lo[2] + 256 * little(l3));
    assert(little(l3) == lo[3] as int);
}

fn word8(b: &[u8], at: usize) -> (r: u64)
    requires
        at + 8 <= b@.len(),
    ensures
        r == little(b@.subrange(at as int, at + 8)),
{
    let size: usize = b.len();
    assert(at + 8 <= size);
    let lo: u64 = word4(b, at);
    let hi: u64 = word4(b, at + 4);
    proof {
        let s = b@.subrange(at as int, at + 8);
        assert(s.subrange(0, 4) =~= b@.subrange(at as int, at + 4));
        assert(s.subrange(4, 8) =~= b@.subrange(at + 4, at + 8));
        assert(s =~= s.subrange(0, 4) + s.subrange(4, 8));
        lemma_little_split(s);
    }
    lo + 0x1_0000_0000 * hi
}

impl FxHasher {
    /// A hasher that has seen nothing.
    pub fn new() -> (r: FxHasher)
        ensures
            r.hash == 0,
    {
        FxHasher { hash: 0 }
    }

    /// Mixes a word in.
    pub fn mix(&mut self, word: u64)
        ensures
            final(self).hash == mixed(old(self).hash, word),
    {
        let h: u64 = self.hash;
        self.hash = (((h << 5) | (h >> 59)) ^ word).wrapping_mul(K);
    }

    /// Mixes bytes in (see [`hashed`]).
    pub fn mix_bytes(&mut self, bytes: &[u8])
        ensures
            final(self).hash == hashed(old(self).hash, bytes@),
    {
        let n: usize = bytes.len();
        let mut at: usize = 0;
        let ghost all = hashed(self.hash, bytes@);
        assert(bytes@.skip(0) =~= bytes@);
        while n - at >= 8
            invariant
                n == bytes@.len(),
                at <= n,
                all == hashed(self.hash, bytes@.skip(at as int)),
                all == hashed(old(self).hash, bytes@),
            decreases n - at,
        {
            let w: u64 = word8(bytes, at);
            proof {
                let s = bytes@.skip(at as int);
                assert(s.take(8) =~= bytes@.subrange(at as int, at + 8));
                assert(s.skip(8) =~= bytes@.skip(at + 8));
            }
            self.mix(w);
            at = at + 8;
        }
        if n - at >= 4 {
            let w: u64 = word4(bytes, at);
            proof {
                let s = bytes@.skip(at as int);
                assert(s.take(4) =~= bytes@.subrange(at as int, at + 4));
                assert(s.skip(4) =~= bytes@.skip(at + 4));
            }
            self.mix(w);
            at = at + 4;
        }
        while at < n
            invariant
                n == bytes@.len(),
                at <= n,
                all == mixed_bytes(self.hash, bytes@.skip(at as int)),
                all == hashed(old(self).hash, bytes@),
            decreases n - at,
        {
            assert(bytes@.skip(at as int).drop_first() =~= bytes@.skip(at + 1));
            assert(bytes@.skip(at as int)[0] == bytes@[at as int]);
            self.mix(bytes[at] as u64);
            at = at + 1;
        }
    }
}

impl Hasher for FxHasher {
    fn write(&mut self, bytes: &[u8])
        ensures
            final(self).hash == hashed(old(self).hash, bytes@),
    {
        self.mix_bytes(bytes)
    }

    fn write_u8(&mut self, n: u8)
        ensures
            final(self).hash == mixed(old(self).hash, n as u64),
    {
        self.mix(n as u64)
    }

    fn write_u64(&mut self, n: u64)
        ensures
            final(self).hash == mixed(old(self).hash, n),
    {
        self.mix(n)
    }

    fn write_usize(&mut self, n: usize)
        ensures
            final(self).hash == mixed(old(self).hash, n as u64),
    {
        self.mix(n as u64)
    }

    fn finish(&self) -> (r: u64)
        ensures
            r == self.hash,
    {
        self.hash
    }
}

} // verus!
