use vstd::prelude::*;
use crate::seeds::{byte_code, code, lemma_pow4_mono, pow4};

verus! {

/// Number of bases packed into one fingerprint word.
pub const WORD_BASES: usize = 16;

/// Two 32-bit words taken from one read (or one read pair); see `pair_fingerprint`.
pub type DoublePair = (u32, u32);

/// The base-4 packing of `n` bases of `s` taken every second byte from `off` on.
pub open spec fn word(s: Seq<u8>, off: int, n: nat) -> nat
    decreases n,
{
    if n == 0 {
        0
    } else {
        word(s, off, (n - 1) as nat) * 4 + code(s[off + 2 * (n - 1)])
    }
}

/// Fingerprint of a read pair: from each mate, the even-indexed and the odd-indexed bases of its
/// first 32 bytes. `None` when a mate is shorter than 33 bytes.
pub open spec fn pair_fingerprint(s1: Seq<u8>, s2: Seq<u8>) -> Option<(DoublePair, DoublePair)> {
    if s1.len() < 2 * WORD_BASES + 1 || s2.len() < 2 * WORD_BASES + 1 {
        None
    } else {
        Some(
            (
                (word(s1, 0, 16) as u32, word(s2, 0, 16) as u32),
                (word(s1, 1, 16) as u32, word(s2, 1, 16) as u32),
            ),
        )
    }
}

/// Fingerprint of a single read: the even-indexed and the odd-indexed bases of 32 bytes from its
/// front and of 32 bytes from its middle. `None` when the read is shorter than 66 bytes.
pub open spec fn single_fingerprint(s: Seq<u8>) -> Option<(DoublePair, DoublePair)> {
    if s.len() < 4 * WORD_BASES + 2 {
        None
    } else {
        let h = (s.len() / 2) as int;
        Some(
            (
                (word(s, 0, 16) as u32, word(s, h, 16) as u32),
                (word(s, 1, 16) as u32, word(s, h + 1, 16) as u32),
            ),
        )
    }
}

proof fn lemma_word_bound(s: Seq<u8>, off: int, n: nat)
    ensures
        word(s, off, n) < pow4(n),
    decreases n,
{
    if n > 0 {
        let m = (n - 1) as nat;
        lemma_word_bound(s, off, m);
        let w = word(s, off, m);
        let x = code(s[off + 2 * m]);
        let p = pow4(m);
        assert(x <= 3);
        assert(w * 4 + x < 4 * p) by (nonlinear_arith)
            requires
                w < p,
                x <= 3,
        ;
    }
}

proof fn lemma_pow4_16()
    ensures
        pow4(16) == 0x1_0000_0000,
{
    reveal_with_fuel(pow4, 17);
}

fn word_at(s: &[u8], off: usize) -> (r: u32)
    requires
        off + 2 * WORD_BASES <= s@.len(),
    ensures
        r as nat == word(s@, off as int, 16),
{
    let n = s.len();
    let mut w: u32 = 0;
    let mut i: usize = 0;
    while i < WORD_BASES
        invariant
            n == s@.len(),
            off + 2 * WORD_BASES <= s@.len(),
            i <= WORD_BASES,
            w as nat == word(s@, off as int, i as nat),
        decreases WORD_BASES - i,
    {
        proof {
            lemma_word_bound(s@, off as int, (i + 1) as nat);
            lemma_pow4_16();
            lemma_pow4_mono((i + 1) as nat, 16);
        }
        let x: u32 = match byte_code(s[off + 2 * i]) {
            Some(v) => v as u32,
            None => 0,
        };
        w = w * 4 + x;
        i = i + 1;
    }
    w
}

/// Fingerprint of a read pair used to recognise duplicated fragments.
pub fn pair_kmer(s1: &[u8], s2: &[u8]) -> (r: Option<(DoublePair, DoublePair)>)
    ensures
        r == pair_fingerprint(s1@, s2@),
{
    if s1.len() < 2 * WORD_BASES + 1 || s2.len() < 2 * WORD_BASES + 1 {
        None
    } else {
        let f = word_at(s1, 0);
        let r = word_at(s2, 0);
        let g = word_at(s1, 1);
        let t = word_at(s2, 1);
        Some(((f, r), (g, t)))
    }
}

/// Fingerprint of a single read used to recognise duplicated reads.
pub fn pair_kmer_single(s1: &[u8]) -> (r: Option<(DoublePair, DoublePair)>)
    ensures
        r == single_fingerprint(s1@),
{
    if s1.len() < 4 * WORD_BASES + 2 {
        None
    } else {
        let halfway = s1.len() / 2;
        let f = word_at(s1, 0);
        let r = word_at(s1, halfway);
        let g = word_at(s1, 1);
        let t = word_at(s1, halfway + 1);
        Some(((f, r), (g, t)))
    }
}

} // verus!
