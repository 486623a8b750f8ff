use vstd::prelude::*;

use crate::rnd::MyRnd;
use crate::rnd::spec_seed;

verus! {

broadcast use vstd::array::group_array_axioms;

/// Mathematical model of a cipher session: the substitution table and its
/// inverse, the retained seed, the live generator cursor, and the feedback
/// register.
#[verifier::ext_equal]
pub struct CryptModel {
    pub dbuf: Seq<u8>,
    pub ebuf: Seq<u8>,
    pub org_rand: MyRnd,
    pub rand: MyRnd,
    pub shift: u8,
}

impl CryptModel {
    pub open spec fn wf(self) -> bool {
        &&& self.dbuf.len() == 256
        &&& self.ebuf.len() == 256
        &&& self.rand.wf()
        &&& self.org_rand.wf()
    }

    /// The decode table undoes the encode table on every byte value.
    pub open spec fn tables_inverse(self) -> bool {
        forall|b: u8| #![auto] self.dbuf[self.ebuf[b as int] as int] == b
    }
}

/// Decoding one byte: draw an index, fold it into the register, look the
/// shifted byte up in the table, and fold the output back into the register.
pub open spec fn spec_decode_byte(m: CryptModel, b: u8) -> (CryptModel, u8) {
    let r2 = m.rand.spec_step();
    let d = r2.spec_index();
    let s1 = m.shift ^ d;
    let j = b ^ s1;
    let out = m.dbuf[j as int];
    (
        CryptModel { dbuf: m.dbuf, ebuf: m.ebuf, org_rand: m.org_rand, rand: r2, shift: s1 ^ out },
        out,
    )
}

/// Encoding one byte: the exact algebraic inverse of `spec_decode_byte`.
pub open spec fn spec_encode_byte(m: CryptModel, b: u8) -> (CryptModel, u8) {
    let r2 = m.rand.spec_step();
    let d = r2.spec_index();
    let s1 = m.shift ^ d;
    let out = m.ebuf[b as int] ^ s1;
    (
        CryptModel { dbuf: m.dbuf, ebuf: m.ebuf, org_rand: m.org_rand, rand: r2, shift: s1 ^ b },
        out,
    )
}

/// Decoding a sequence, strictly in order, threading the session state.
pub open spec fn spec_decode_seq(m: CryptModel, input: Seq<u8>) -> (CryptModel, Seq<u8>)
    decreases input.len(),
{
    if input.len() == 0 {
        (m, Seq::empty())
    } else {
        let prev = spec_decode_seq(m, input.drop_last());
        let stepped = spec_decode_byte(prev.0, input.last());
        (stepped.0, prev.1.push(stepped.1))
    }
}

/// Encoding a sequence, strictly in order, threading the session state.
pub open spec fn spec_encode_seq(m: CryptModel, input: Seq<u8>) -> (CryptModel, Seq<u8>)
    decreases input.len(),
{
    if input.len() == 0 {
        (m, Seq::empty())
    } else {
        let prev = spec_encode_seq(m, input.drop_last());
        let stepped = spec_encode_byte(prev.0, input.last());
        (stepped.0, prev.1.push(stepped.1))
    }
}

/// The identity table the shuffle starts from.
pub open spec fn spec_init_table() -> Seq<u8> {
    Seq::new(256, |i: int| i as u8)
}

/// The shuffle that builds the decode table: at each position, swap with the
/// position the generator draws, including when the two coincide.
pub open spec fn spec_shuffle(t: Seq<u8>, r: MyRnd, i: int) -> (Seq<u8>, MyRnd)
    decreases 256 - i,
{
    if !(0 <= i < 256) {
        (t, r)
    } else {
        let r2 = r.spec_step();
        let j = r2.spec_index() as int;
        let t2 = t.update(i, t[j]).update(j, t[i]);
        spec_shuffle(t2, r2, i + 1)
    }
}

/// Inverting the decode table entry by entry.
pub open spec fn spec_invert(t: Seq<u8>, e: Seq<u8>, i: int) -> Seq<u8>
    decreases 256 - i,
{
    if !(0 <= i < 256) {
        e
    } else {
        spec_invert(t, e.update(t[i] as int, i as u8), i + 1)
    }
}

/// The session a seed determines: shuffled table, its inverse, the advanced
/// generator retained both as live cursor and as restart point, register zero.
pub open spec fn spec_from_seed(seed: MyRnd) -> CryptModel {
    let s = spec_shuffle(spec_init_table(), seed, 0);
    let e = spec_invert(s.0, Seq::new(256, |i: int| 0u8), 0);
    CryptModel { dbuf: s.0, ebuf: e, org_rand: s.1, rand: s.1, shift: 0 }
}

/// The session a key determines.
pub open spec fn spec_session(key: Seq<u8>) -> CryptModel {
    spec_from_seed(spec_seed(key))
}

/// Resetting a session: the cursor returns to the retained seed and the
/// register to zero; the tables are untouched.
pub open spec fn spec_reinit(m: CryptModel) -> CryptModel {
    CryptModel { dbuf: m.dbuf, ebuf: m.ebuf, org_rand: m.org_rand, rand: m.org_rand, shift: 0 }
}

/// One-shot encoding under a key, through a fresh session.
pub open spec fn spec_encode(key: Seq<u8>, data: Seq<u8>) -> Seq<u8> {
    spec_encode_seq(spec_session(key), data).1
}

/// One-shot decoding under a key, through a fresh session.
pub open spec fn spec_decode(key: Seq<u8>, data: Seq<u8>) -> Seq<u8> {
    spec_decode_seq(spec_session(key), data).1
}

/// A stateful cipher session bound to a key: immutable substitution tables,
/// the retained seed, and the private generator cursor and feedback register.
#[derive(Clone, Copy)]
pub struct SqlCrypt {
    dbuf: [u8; 256],
    ebuf: [u8; 256],
    org_rand: MyRnd,
    rand: MyRnd,
    shift: u8,
}

impl View for SqlCrypt {
    type V = CryptModel;

    closed spec fn view(&self) -> CryptModel {
        CryptModel {
            dbuf: self.dbuf@,
            ebuf: self.ebuf@,
            org_rand: self.org_rand,
            rand: self.rand,
            shift: self.shift,
        }
    }
}

impl SqlCrypt {
    /// Builds a fresh session from a key.
    pub fn from_key(key: &[u8]) -> (c: SqlCrypt)
        ensures
            c@ == spec_session(key@),
            c@.wf(),
    {
        Self::from_seed(MyRnd::from_key(key))
    }

    /// Builds the tables from a seed by the generator-driven shuffle.
    fn from_seed(seed: MyRnd) -> (c: SqlCrypt)
        requires
            seed.wf(),
        ensures
            c@ == spec_from_seed(seed),
            c@.wf(),
    {
        let mut rand = seed;
        let mut dbuf: [u8; 256] = [0u8; 256];
        let mut i: usize = 0;
        while i < 256
            invariant
                0 <= i <= 256,
                forall|k: int| 0 <= k < i ==> dbuf@[k] == k as u8,
            decreases 256 - i,
        {
            dbuf[i] = i as u8;
            i = i + 1;
        }
        proof {
            assert(dbuf@ =~= spec_init_table());
        }
        let mut i: usize = 0;
        while i < 256
            invariant
                0 <= i <= 256,
                rand.wf(),
                spec_shuffle(dbuf@, rand, i as int) == spec_shuffle(spec_init_table(), seed, 0),
            decreases 256 - i,
        {
            let ghost t0 = dbuf@;
            let ghost r0 = rand;
            let j = rand.next_index() as usize;
            let a = dbuf[i];
            let b = dbuf[j];
            dbuf[i] = b;
            dbuf[j] = a;
            proof {
                assert(dbuf@ =~= t0.update(i as int, t0[j as int]).update(j as int, t0[i as int]));
                assert(spec_shuffle(t0, r0, i as int) == spec_shuffle(dbuf@, rand, i as int + 1));
            }
            i = i + 1;
        }
        let mut ebuf: [u8; 256] = [0u8; 256];
        let ghost e_init = ebuf@;
        let mut i: usize = 0;
        while i < 256
            invariant
                0 <= i <= 256,
                spec_invert(dbuf@, ebuf@, i as int) == spec_invert(dbuf@, e_init, 0),
            decreases 256 - i,
        {
            let ghost e0 = ebuf@;
            let v = dbuf[i];
            ebuf[v as usize] = i as u8;
            proof {
                assert(ebuf@ =~= e0.update(dbuf@[i as int] as int, i as u8));
                assert(spec_invert(dbuf@, e0, i as int) == spec_invert(dbuf@, ebuf@, i as int + 1));
            }
            i = i + 1;
        }
        let c = SqlCrypt { dbuf, ebuf, org_rand: rand, rand, shift: 0 };
        proof {
            assert(e_init =~= Seq::new(256, |k: int| 0u8));
            assert(c@ =~= spec_from_seed(seed));
        }
        c
    }

    /// Restores the generator cursor to the retained seed and zeroes the
    /// register; the tables are untouched. A subsequent decode reproduces the
    /// output of a freshly built session for the same key.
    pub fn reinit(&mut self)
        ensures
            final(self)@ == spec_reinit(old(self)@),
            old(self)@.wf() ==> final(self)@.wf(),
    {
        self.rand = self.org_rand;
        self.shift = 0;
    }

    /// Decodes one byte, advancing the cursor and the register.
    pub fn decode_byte(&mut self, x: u8) -> (y: u8)
        requires
            old(self)@.wf(),
        ensures
            final(self)@ == spec_decode_byte(old(self)@, x).0,
            y == spec_decode_byte(old(self)@, x).1,
            final(self)@.wf(),
    {
        let d = self.rand.next_index();
        self.shift = self.shift ^ d;
        let j = x ^ self.shift;
        let y = self.dbuf[j as usize];
        self.shift = self.shift ^ y;
        y
    }

    /// Encodes one byte, advancing the cursor and the register.
    pub fn encode_byte(&mut self, x: u8) -> (y: u8)
        requires
            old(self)@.wf(),
        ensures
            final(self)@ == spec_encode_byte(old(self)@, x).0,
            y == spec_encode_byte(old(self)@, x).1,
            final(self)@.wf(),
    {
        let d = self.rand.next_index();
        self.shift = self.shift ^ d;
        let y = self.ebuf[x as usize] ^ self.shift;
        self.shift = self.shift ^ x;
        y
    }

    /// Decodes a buffer in place, byte by byte, in order.
    pub fn decode_inplace(&mut self, x: &mut Vec<u8>)
        requires
            old(self)@.wf(),
        ensures
            final(self)@ == spec_decode_seq(old(self)@, old(x)@).0,
            final(x)@ == spec_decode_seq(old(self)@, old(x)@).1,
            final(self)@.wf(),
    {
        let ghost input = x@;
        let ghost m0 = self@;
        let n = x.len();
        let mut i: usize = 0;
        while i < n
            invariant
                0 <= i <= n,
                n == input.len(),
                x@.len() == input.len(),
                forall|k: int| i <= k < input.len() ==> x@[k] == input[k],
                self@ == spec_decode_seq(m0, input.take(i as int)).0,
                x@.take(i as int) == spec_decode_seq(m0, input.take(i as int)).1,
                self@.wf(),
            decreases n - i,
        {
            let ghost outprev = x@.take(i as int);
            let b = x[i];
            let y = self.decode_byte(b);
            x[i] = y;
            proof {
                assert(input.take(i as int + 1).drop_last() =~= input.take(i as int));
                assert(input.take(i as int + 1).last() == b);
                assert(x@.take(i as int + 1) =~= outprev.push(y));
            }
            i = i + 1;
        }
        proof {
            assert(input.take(n as int) =~= input);
            assert(x@.take(n as int) =~= x@);
        }
    }

    /// Encodes a buffer in place, byte by byte, in order.
    pub fn encode_inplace(&mut self, x: &mut Vec<u8>)
        requires
            old(self)@.wf(),
        ensures
            final(self)@ == spec_encode_seq(old(self)@, old(x)@).0,
            final(x)@ == spec_encode_seq(old(self)@, old(x)@).1,
            final(self)@.wf(),
    {
        let ghost input = x@;
        let ghost m0 = self@;
        let n = x.len();
        let mut i: usize = 0;
        while i < n
            invariant
                0 <= i <= n,
                n == input.len(),
                x@.len() == input.len(),
                forall|k: int| i <= k < input.len() ==> x@[k] == input[k],
                self@ == spec_encode_seq(m0, input.take(i as int)).0,
                x@.take(i as int) == spec_encode_seq(m0, input.take(i as int)).1,
                self@.wf(),
            decreases n - i,
        {
            let ghost outprev = x@.take(i as int);
            let b = x[i];
            let y = self.encode_byte(b);
            x[i] = y;
            proof {
                assert(input.take(i as int + 1).drop_last() =~= input.take(i as int));
                assert(input.take(i as int + 1).last() == b);
                assert(x@.take(i as int + 1) =~= outprev.push(y));
            }
            i = i + 1;
        }
        proof {
            assert(input.take(n as int) =~= input);
            assert(x@.take(n as int) =~= x@);
        }
    }

    /// Decodes a buffer, returning the decoded bytes.
    pub fn decode(&mut self, x: Vec<u8>) -> (r: Vec<u8>)
        requires
            old(self)@.wf(),
        ensures
            final(self)@ == spec_decode_seq(old(self)@, x@).0,
            r@ == spec_decode_seq(old(self)@, x@).1,
            final(self)@.wf(),
    {
        let mut x = x;
        self.decode_inplace(&mut x);
        x
    }

    /// Encodes a buffer, returning the encoded bytes.
    pub fn encode(&mut self, x: Vec<u8>) -> (r: Vec<u8>)
        requires
            old(self)@.wf(),
        ensures
            final(self)@ == spec_encode_seq(old(self)@, x@).0,
            r@ == spec_encode_seq(old(self)@, x@).1,
            final(self)@.wf(),
    {
        let mut x = x;
        self.encode_inplace(&mut x);
        x
    }
}

/// Copies a byte slice into an owned buffer.
pub(crate) fn to_owned_bytes(data: &[u8]) -> (v: Vec<u8>)
    ensures
        v@ == data@,
{
    let mut v: Vec<u8> = Vec::new();
    let mut i: usize = 0;
    while i < data.len()
        invariant
            0 <= i <= data@.len(),
            v@ == data@.take(i as int),
        decreases data@.len() - i,
    {
        v.push(data[i]);
        proof {
            assert(data@.take(i as int + 1) =~= data@.take(i as int).push(data@[i as int]));
        }
        i = i + 1;
    }
    proof {
        assert(data@.take(data@.len() as int) =~= data@);
    }
    v
}

} // verus!
