//! Little-endian codec for the machine words of the serialized buffer header.
use vstd::prelude::*;

verus! {

/// Number of bytes in one encoded header word.
pub const WORD_BYTES: usize = 8;

/// The `n` little-endian base-256 digits of `x`, least significant first.
pub open spec fn le_encode(x: nat, n: nat) -> Seq<u8>
    decreases n,
{
    if n == 0 {
        Seq::empty()
    } else {
        seq![(x % 256) as u8].add(le_encode(x / 256, (n - 1) as nat))
    }
}

/// The number whose little-endian base-256 digits are `s`.
pub open spec fn le_decode(s: Seq<u8>) -> nat
    decreases s.len(),
{
    if s.len() == 0 {
        0
    } else {
        (s[0] as nat + 256 * le_decode(s.drop_first())) as nat
    }
}

/// Decoding an encoding of `n` digits gives back the number modulo `256^n`.
pub proof fn lemma_decode_encode(x: nat, n: nat)
    ensures
        le_encode(x, n).len() == n,
        le_decode(le_encode(x, n)) == x % vstd::arithmetic::power::pow(256, n) as nat,
    decreases n,
{
    reveal(vstd::arithmetic::power::pow);
    if n > 0 {
        lemma_decode_encode(x / 256, (n - 1) as nat);
        let e = le_encode(x, n);
        assert(e.drop_first() =~= le_encode(x / 256, (n - 1) as nat));
        let p = vstd::arithmetic::power::pow(256, (n - 1) as nat);
        vstd::arithmetic::power::lemma_pow_positive(256, (n - 1) as nat);
        assert(x as int % (256 * p) == x as int % 256 + 256 * ((x as int / 256) % p)) by {
            vstd::arithmetic::div_mod::lemma_breakdown(x as int, 256, p);
        }
    }
}

/// A decoded number is below `256^len`.
pub proof fn lemma_decode_bound(s: Seq<u8>)
    ensures
        le_decode(s) < vstd::arithmetic::power::pow(256, s.len()),
    decreases s.len(),
{
    reveal(vstd::arithmetic::power::pow);
    if s.len() > 0 {
        lemma_decode_bound(s.drop_first());
        let p = vstd::arithmetic::power::pow(256, (s.len() - 1) as nat);
        assert(s[0] as nat + 256 * le_decode(s.drop_first()) < 256 * p) by (nonlinear_arith)
            requires
                s[0] < 256,
                le_decode(s.drop_first()) < p,
        ;
    }
}

/// `256^8`, the bound of a word.
pub proof fn lemma_word_pow()
    ensures
        vstd::arithmetic::power::pow(256, 8) == u64::MAX + 1,
{
    reveal_with_fuel(vstd::arithmetic::power::pow, 9);
}

/// The little-endian bytes of `x`, one header word.
pub fn encode_word(x: u64) -> (r: Vec<u8>)
    ensures
        r@ == le_encode(x as nat, WORD_BYTES as nat),
{
    let mut r: Vec<u8> = Vec::new();
    let mut v: u64 = x;
    let mut k: usize = 0;
    while k < WORD_BYTES
        invariant
            k <= WORD_BYTES,
            r@ + le_encode(v as nat, (WORD_BYTES - k) as nat) == le_encode(x as nat, WORD_BYTES as nat),
        decreases WORD_BYTES - k,
    {
        proof {
            let rest = le_encode(v as nat, (WORD_BYTES - k) as nat);
            assert(rest =~= seq![(v % 256) as u8].add(le_encode((v / 256) as nat, (WORD_BYTES - k - 1) as nat)));
            assert(r@.push((v % 256) as u8) + le_encode((v / 256) as nat, (WORD_BYTES - k - 1) as nat) =~= r@ + rest);
        }
        r.push((v % 256) as u8);
        v = v / 256;
        k = k + 1;
    }
    proof {
        assert(le_encode(v as nat, 0) =~= Seq::<u8>::empty());
        assert(r@ + Seq::<u8>::empty() =~= r@);
    }
    r
}

/// The word whose little-endian bytes are `b[start..start + 8]`.
pub fn decode_word(b: &[u8], start: usize) -> (r: u64)
    requires
        start + WORD_BYTES <= b@.len(),
    ensures
        r as nat == le_decode(b@.subrange(start as int, start + WORD_BYTES)),
{
    let len: usize = b.len();
    let mut acc: u64 = 0;
    let mut k: usize = WORD_BYTES;
    proof {
        assert(b@.subrange(start + WORD_BYTES, start + WORD_BYTES) =~= Seq::<u8>::empty());
    }
    while k > 0
        invariant
            k <= WORD_BYTES,
            start + WORD_BYTES <= len,
            len == b@.len(),
            acc as nat == le_decode(b@.subrange(start + k, start + WORD_BYTES)),
        decreases k,
    {
        let ghost tail = b@.subrange(start + k - 1, start + WORD_BYTES);
        proof {
            assert(tail.drop_first() =~= b@.subrange(start + k, start + WORD_BYTES));
            lemma_decode_bound(tail);
            lemma_word_pow();
            vstd::arithmetic::power::lemma_pow_increases(256, tail.len(), 8);
        }
        let digit: u8 = b[start + (k - 1)];
        acc = digit as u64 + 256 * acc;
        k = k - 1;
    }
    acc
}

} // verus!
