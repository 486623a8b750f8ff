use vstd::prelude::*;

verus! {

/// Modulus of the generator's recurrence.
pub const RND_MAX: u64 = 0x3fffffff;

/// Initial fold state for seeding a generator from a key.
pub const SEED_X: u64 = 1345345333;
pub const SEED_Y: u64 = 0x12345671;
pub const SEED_Z: u64 = 7;

/// Folds one key byte into the seeding state; space and tab bytes are
/// skipped, every other byte contributes. All arithmetic wraps modulo 2^64.
pub open spec fn seed_byte(x: u64, y: u64, z: u64, k: u8) -> (u64, u64, u64) {
    if k == 32 || k == 9 {
        (x, y, z)
    } else {
        let x2 = x ^ ((x & 0x3f).wrapping_add(z)).wrapping_mul(k as u64).wrapping_add(x << 8u64);
        let y2 = y.wrapping_add((y << 8u64) ^ x2);
        let z2 = z.wrapping_add(k as u64);
        (x2, y2, z2)
    }
}

/// Folds a whole key, byte by byte, into the seeding state.
pub open spec fn seed_fold(key: Seq<u8>, x: u64, y: u64, z: u64) -> (u64, u64, u64)
    decreases key.len(),
{
    if key.len() == 0 {
        (x, y, z)
    } else {
        let s = seed_byte(x, y, z, key[0]);
        seed_fold(key.skip(1), s.0, s.1, s.2)
    }
}

/// The generator state a key seeds: the folded pair, masked to 31 bits.
pub open spec fn spec_seed(key: Seq<u8>) -> MyRnd {
    let f = seed_fold(key, SEED_X, SEED_Y, SEED_Z);
    MyRnd { x: f.0 & 0x7fffffff, y: f.1 & 0x7fffffff }
}

/// Deterministic pseudo-random generator: two integers of at most 31 bits,
/// advanced by a fixed recurrence modulo `RND_MAX` on every draw.
#[derive(Clone, Copy, PartialEq, Eq, Structural)]
pub struct MyRnd {
    pub x: u64,
    pub y: u64,
}

impl MyRnd {
    /// Both words fit in 31 bits, so one advance cannot overflow.
    pub open spec fn wf(self) -> bool {
        self.x <= 0x7fffffff && self.y <= 0x7fffffff
    }

    /// One advance of the recurrence.
    pub open spec fn spec_step(self) -> MyRnd {
        let x2 = ((self.x * 3 + self.y) % (RND_MAX as int)) as u64;
        let y2 = ((x2 + self.y + 33) % (RND_MAX as int)) as u64;
        MyRnd { x: x2, y: y2 }
    }

    /// The table index an advanced state yields. The legacy engine divides
    /// the bit pattern of `x` read as a floating value by the pattern of
    /// `RND_MAX` read the same way and scales by 255; since `x` and `RND_MAX`
    /// are both below 2^52, the two patterns denote subnormal values scaled by
    /// the same power of two, so the quotient is the correctly rounded real
    /// `x / RND_MAX` and the scaled, truncated result equals this integer
    /// quotient for every state the recurrence can produce.
    pub open spec fn spec_index(self) -> u8 {
        ((self.x * 255) / (RND_MAX as int)) as u8
    }

    /// Seeds a generator from a key. Space and tab bytes are skipped; the key
    /// may be empty.
    pub fn from_key(key: &[u8]) -> (r: MyRnd)
        ensures
            r == spec_seed(key@),
            r.wf(),
    {
        let mut x: u64 = SEED_X;
        let mut y: u64 = SEED_Y;
        let mut z: u64 = SEED_Z;
        let mut i: usize = 0;
        proof {
            assert(key@.skip(0) =~= key@);
        }
        while i < key.len()
            invariant
                0 <= i <= key@.len(),
                seed_fold(key@.skip(i as int), x, y, z) == seed_fold(key@, SEED_X, SEED_Y, SEED_Z),
            decreases key@.len() - i,
        {
            let ghost x0 = x;
            let ghost y0 = y;
            let ghost z0 = z;
            let k = key[i];
            if !(k == 32 || k == 9) {
                x = x ^ ((x & 0x3f).wrapping_add(z)).wrapping_mul(k as u64).wrapping_add(x << 8u64);
                y = y.wrapping_add((y << 8u64) ^ x);
                z = z.wrapping_add(k as u64);
            }
            proof {
                let s = key@.skip(i as int);
                assert(s[0] == key@[i as int]);
                assert(s.skip(1) =~= key@.skip(i as int + 1));
                assert((x, y, z) == seed_byte(x0, y0, z0, k));
                assert(seed_fold(s, x0, y0, z0) == seed_fold(key@.skip(i as int + 1), x, y, z));
            }
            i = i + 1;
        }
        proof {
            assert(key@.skip(key@.len() as int) =~= Seq::<u8>::empty());
        }
        let r = MyRnd { x: x & 0x7fffffff, y: y & 0x7fffffff };
        proof {
            assert(x & 0x7fffffff <= 0x7fffffff && y & 0x7fffffff <= 0x7fffffff) by (bit_vector);
        }
        r
    }

    /// Advances the generator and returns the table index it draws.
    pub fn next_index(&mut self) -> (d: u8)
        requires
            old(self).wf(),
        ensures
            *final(self) == old(self).spec_step(),
            final(self).wf(),
            d == final(self).spec_index(),
    {
        self.x = (self.x * 3 + self.y) % RND_MAX;
        self.y = (self.x + self.y + 33) % RND_MAX;
        proof {
            assert(self.x * 255 / (RND_MAX as int) < 255) by (nonlinear_arith)
                requires
                    self.x < RND_MAX,
                    RND_MAX == 0x3fffffff,
            ;
        }
        ((self.x * 255) / RND_MAX) as u8
    }
}

} // verus!
