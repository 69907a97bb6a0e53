use vstd::prelude::*;

verus! {

/// A deterministic pseudo-random stream (Marsaglia's xorshift128).
///
/// The engine owns exactly one stream and threads it through every
/// operation that consumes randomness, so that a run is reproducible
/// bit-for-bit from the seed alone.  Every method's result is pinned by
/// its contract as a function of the state before the call.
pub struct Rng {
    pub x: u32,
    pub y: u32,
    pub z: u32,
    pub w: u32,
}

/// The state a stream starts in for a given seed.  The three constants
/// are Marsaglia's classic initialisers; the seed perturbs the fourth
/// word, so the initial state is never all zero.
pub open spec fn spec_rng_seeded(seed: u32) -> Rng {
    Rng { x: 123456789u32, y: 362436069u32, z: 521288629u32, w: seed ^ 88675123u32 }
}

/// One xorshift128 transition of the whole state.
pub open spec fn spec_rng_next(r: Rng) -> Rng {
    let t = r.x ^ (r.x << 11u32);
    Rng {
        x: r.y,
        y: r.z,
        z: r.w,
        w: r.w ^ (r.w >> 19u32) ^ t ^ (t >> 8u32),
    }
}

/// The value drawn by one transition.
pub open spec fn spec_rng_value(r: Rng) -> u32 {
    spec_rng_next(r).w
}

impl Rng {
    /// Seed the stream from a single integer.
    pub fn seeded(seed: u32) -> (r: Rng)
        ensures
            r == spec_rng_seeded(seed),
    {
        Rng { x: 123456789, y: 362436069, z: 521288629, w: seed ^ 88675123 }
    }

    /// Draw the next raw 32-bit value, advancing the state.
    pub fn next_u32(&mut self) -> (r: u32)
        ensures
            *final(self) == spec_rng_next(*old(self)),
            r == spec_rng_value(*old(self)),
    {
        let t = self.x ^ (self.x << 11u32);
        self.x = self.y;
        self.y = self.z;
        self.z = self.w;
        self.w = self.w ^ (self.w >> 19u32) ^ t ^ (t >> 8u32);
        self.w
    }

    /// Draw a value below `n`, advancing the state by one transition.
    pub fn next_below(&mut self, n: u32) -> (r: u32)
        requires
            n > 0,
        ensures
            *final(self) == spec_rng_next(*old(self)),
            r == spec_rng_value(*old(self)) % n,
            r < n,
    {
        let v = self.next_u32();
        v % n
    }

    /// Draw an index below `n`, advancing the state by one transition.
    pub fn next_below_usize(&mut self, n: usize) -> (r: usize)
        requires
            n > 0,
        ensures
            *final(self) == spec_rng_next(*old(self)),
            r as int == spec_rng_value(*old(self)) as int % n as int,
            r < n,
    {
        let v = self.next_u32();
        (v as usize) % n
    }
}

} // verus!
