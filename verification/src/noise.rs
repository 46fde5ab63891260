//! Deterministic integer hashing and a small sequential generator.
//!
//! The same `(seed, x, y)` always hashes to the same value on every platform,
//! which is what makes generated worlds reproducible and their tests
//! meaningful.

use vstd::prelude::*;

verus! {

/// `a + b` modulo 2^32.
pub open spec fn add32(a: u32, b: u32) -> u32 {
    ((a + b) % 0x1_0000_0000) as u32
}

/// `a * b` modulo 2^32.
pub open spec fn mul32(a: u32, b: u32) -> u32 {
    ((a * b) % 0x1_0000_0000) as u32
}

/// The hash of `(seed, x, y)`: the coordinates (as two's-complement `u32`)
/// scaled by odd constants and added to the seed, then three rounds of
/// xor-shift and multiply by odd constants, finalizer style.
pub open spec fn hash_of(seed: u32, x: i32, y: i32) -> u32 {
    let h0 = add32(add32(seed, mul32(x as u32, 0x9E37_79B9)), mul32(y as u32, 0x85EB_CA6B));
    let h1 = h0 ^ (h0 >> 15u32);
    let h2 = mul32(h1, 0x2545_F491);
    let h3 = h2 ^ (h2 >> 13u32);
    let h4 = mul32(h3, 0x27D4_EB2F);
    h4 ^ (h4 >> 16u32)
}

fn wrap_add(a: u32, b: u32) -> (r: u32)
    ensures
        r == add32(a, b),
{
    a.wrapping_add(b)
}

fn wrap_mul(a: u32, b: u32) -> (r: u32)
    ensures
        r == mul32(a, b),
{
    a.wrapping_mul(b)
}

/// Hashes three integers to a well-distributed `u32`: flipping any single
/// input bit changes about half the output bits.
pub fn hash3(seed: u32, x: i32, y: i32) -> (h: u32)
    ensures
        h == hash_of(seed, x, y),
{
    let mut h = seed;
    h = wrap_add(h, wrap_mul(x as u32, 0x9E37_79B9));
    h = wrap_add(h, wrap_mul(y as u32, 0x85EB_CA6B));
    h = h ^ (h >> 15u32);
    h = wrap_mul(h, 0x2545_F491);
    h = h ^ (h >> 13u32);
    h = wrap_mul(h, 0x27D4_EB2F);
    h = h ^ (h >> 16u32);
    h
}

/// One xorshift32 step.
pub open spec fn xorshift(s: u32) -> u32 {
    let a = s ^ (s << 13u32);
    let b = a ^ (a >> 17u32);
    b ^ (b << 5u32)
}

/// The state a seed starts from: 0 is remapped, since an all-zero state is
/// a fixed point of the xorshift step.
pub open spec fn seeded(seed: u32) -> u32 {
    if seed == 0 { 0x9E37_79B9 } else { seed }
}

/// A small, fast, seedable generator (xorshift32), for sequential work where
/// there is no natural coordinate to hash.
#[derive(Debug, Clone)]
pub struct Rng(u32);

impl Rng {
    /// The generator's state; never zero.
    pub closed spec fn state(&self) -> u32 {
        self.0
    }

    /// Seeds the generator.
    pub fn new(seed: u32) -> (r: Self)
        ensures
            r.state() == seeded(seed),
            r.state() != 0,
    {
        Rng(if seed == 0 { 0x9E37_79B9 } else { seed })
    }

    /// Next raw `u32`: the next xorshift32 state.
    pub fn next_u32(&mut self) -> (x: u32)
        ensures
            x == xorshift(old(self).state()),
            final(self).state() == x,
            old(self).state() != 0 ==> x != 0,
    {
        let mut x = self.0;
        x = x ^ (x << 13u32);
        x = x ^ (x >> 17u32);
        x = x ^ (x << 5u32);
        self.0 = x;
        proof {
            lemma_xorshift_nonzero(old(self).state());
        }
        x
    }

    /// Next value in `0..n` by multiply-shift reduction (the high half of
    /// the next raw value times `n`); 0, without advancing, if `n` is 0.
    pub fn next_below(&mut self, n: u32) -> (v: u32)
        ensures
            n == 0 ==> v == 0 && final(self).state() == old(self).state(),
            n > 0 ==> {
                &&& final(self).state() == xorshift(old(self).state())
                &&& v == (xorshift(old(self).state()) as int * n as int) / 0x1_0000_0000
                &&& v < n
            },
            old(self).state() != 0 ==> final(self).state() != 0,
    {
        if n == 0 {
            return 0;
        }
        let x = self.next_u32();
        proof {
            assert(x * n < 0x1_0000_0000 * 0x1_0000_0000) by (nonlinear_arith)
                requires x < 0x1_0000_0000, n < 0x1_0000_0000;
        }
        let p = (x as u64) * (n as u64);
        proof {
            assert(p < 0x1_0000_0000 * n) by (nonlinear_arith)
                requires p == x * n, x < 0x1_0000_0000, n > 0;
            vstd::arithmetic::div_mod::lemma_div_by_multiple_is_strongly_ordered(
                p as int, 0x1_0000_0000 * n, n as int, 0x1_0000_0000);
            vstd::arithmetic::div_mod::lemma_div_multiples_vanish(n as int, 0x1_0000_0000);
            assert(0x1_0000_0000 * n == n * 0x1_0000_0000) by (nonlinear_arith);
            assert(p >> 32u64 == p / 0x1_0000_0000) by (bit_vector);
        }
        (p >> 32u64) as u32
    }

    /// Picks an element of `items` at the index [`next_below`](Self::next_below)
    /// gives for its length (as `u32`), or `None` if there is none there.
    pub fn pick<'a, T>(&mut self, items: &'a [T]) -> (c: Option<&'a T>)
        ensures
            ({
                let n = items@.len() as u32;
                let i = if n == 0 { 0 } else { (xorshift(old(self).state()) as int * n as int) / 0x1_0000_0000 };
                &&& n == 0 ==> final(self).state() == old(self).state()
                &&& n > 0 ==> final(self).state() == xorshift(old(self).state())
                &&& c == (if i < items@.len() { Some(&items@[i]) } else { None })
            }),
            items@.len() == 0 ==> c is None,
    {
        let n = #[verifier::truncate] (items.len() as u32);
        let i = self.next_below(n) as usize;
        if i < items.len() {
            Some(&items[i])
        } else {
            None
        }
    }
}

/// A nonzero state never steps to zero, so the generator never gets stuck
/// emitting zeros.
pub proof fn lemma_xorshift_nonzero(s: u32)
    ensures
        s != 0 ==> xorshift(s) != 0,
{
    assert(s != 0 ==> (s ^ (s << 13u32)) ^ ((s ^ (s << 13u32)) >> 17u32) ^ (((s ^ (s << 13u32)) ^ ((s ^ (s << 13u32)) >> 17u32)) << 5u32) != 0) by (bit_vector);
}

} // verus!
