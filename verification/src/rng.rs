use vstd::prelude::*;

verus! {

/// One xorshift step: two shift-xors of the 64-bit state.
pub open spec fn xorshift_step(s: u64) -> u64 {
    (s ^ (s << 7)) ^ ((s ^ (s << 7)) >> 9)
}

/// The generator state after `n` steps.
pub open spec fn xorshift_iter(s: u64, n: nat) -> u64
    decreases n,
{
    if n == 0 {
        s
    } else {
        xorshift_step(xorshift_iter(s, (n - 1) as nat))
    }
}

/// An explicitly passed xorshift random source.  Strategies that need
/// randomness take one of these instead of reading process-wide state.
#[derive(Clone, Copy, Debug, PartialEq, Eq, Structural)]
pub struct Xorshift {
    pub s: u64,
}

impl Xorshift {
    /// A zero state would be a fixed point of the step function, so the seed
    /// must be non-zero; callers that want a clock-derived seed compute one
    /// themselves.
    pub fn init(seed: u64) -> (r: Xorshift)
        requires
            seed != 0,
        ensures
            r.s == seed,
            r.s != 0,
    {
        Xorshift { s: seed }
    }

    /// Next raw 64-bit value of the stream.
    pub fn gen(&mut self) -> (r: u64)
        ensures
            final(self).s == xorshift_step(old(self).s),
            r == final(self).s,
            old(self).s != 0 ==> final(self).s != 0,
    {
        proof {
            lemma_xorshift_step_nonzero(self.s);
        }
        let a = self.s ^ (self.s << 7u64);
        let b = a ^ (a >> 9u64);
        self.s = b;
        b
    }

    /// Uniform draw in `[a, b)`: the raw value reduced as `gen() % (b-a) + a`.
    pub fn gen_range(&mut self, a: usize, b: usize) -> (r: usize)
        requires
            a < b,
        ensures
            a <= r < b,
            final(self).s == xorshift_step(old(self).s),
            r == a + (xorshift_step(old(self).s) % ((b - a) as u64)) as usize,
    {
        let g = self.gen();
        let span = (b - a) as u64;
        let m = g % span;
        (m as usize) + a
    }

    /// Coin from the low bit of the stream.
    pub fn gen_bool(&mut self) -> (r: bool)
        ensures
            final(self).s == xorshift_step(old(self).s),
            r == ((final(self).s & 1) == 1),
    {
        let g = self.gen();
        g & 1 == 1
    }
}

#[verifier::external_type_specification]
#[verifier::external_body]
pub struct ExStdRng(rand::rngs::StdRng);

/// Relies on rand::Rng::gen_range over the range 0..n: a uniform value below
/// n.  The call panics on an empty range, which the requires excludes.
#[verifier::external_body]
pub(crate) fn rand_below(rng: &mut rand::rngs::StdRng, n: usize) -> (r: usize)
    requires
        n >= 1,
    ensures
        r < n,
{
    rand::Rng::gen_range(rng, 0..n)
}

/// The step function is a bijection on the 64-bit words, so a non-zero state
/// never collapses to the stuck state 0.
pub proof fn lemma_xorshift_step_nonzero(s: u64)
    ensures
        s != 0 ==> xorshift_step(s) != 0,
{
    assert(s != 0 ==> ((s ^ (s << 7)) ^ ((s ^ (s << 7)) >> 9)) != 0) by (bit_vector);
}

} // verus!
