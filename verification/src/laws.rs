use vstd::prelude::*;

use crate::crypt::CryptModel;
use crate::crypt::spec_decode;
use crate::crypt::spec_decode_byte;
use crate::crypt::spec_decode_seq;
use crate::crypt::spec_encode;
use crate::crypt::spec_encode_byte;
use crate::crypt::spec_encode_seq;
use crate::crypt::spec_init_table;
use crate::crypt::spec_invert;
use crate::crypt::spec_reinit;
use crate::crypt::spec_session;
use crate::crypt::spec_shuffle;
use crate::rnd::MyRnd;
use crate::rnd::spec_seed;

verus! {

/// Value `v` occurs in table `t` at or after position `lo`.
pub open spec fn value_at_or_after(t: Seq<u8>, lo: int, v: u8) -> bool {
    exists|i: int| lo <= i < 256 && t[i] == v
}

/// Every byte value occurs somewhere in the table.
pub open spec fn covers_all(t: Seq<u8>) -> bool {
    forall|v: u8| value_at_or_after(t, 0, v)
}

proof fn lemma_init_covers()
    ensures
        covers_all(spec_init_table()),
{
    assert forall|v: u8| value_at_or_after(spec_init_table(), 0, v) by {
        assert(spec_init_table()[v as int] == v);
    }
}

proof fn lemma_swap_covers(t: Seq<u8>, a: int, b: int)
    requires
        t.len() == 256,
        0 <= a < 256,
        0 <= b < 256,
        covers_all(t),
    ensures
        covers_all(t.update(a, t[b]).update(b, t[a])),
{
    let t2 = t.update(a, t[b]).update(b, t[a]);
    assert forall|v: u8| value_at_or_after(t2, 0, v) by {
        assert(value_at_or_after(t, 0, v));
        let i = choose|i: int| 0 <= i < 256 && t[i] == v;
        if i == b {
            assert(t2[a] == v);
        } else if i == a {
            assert(t2[b] == v);
        } else {
            assert(t2[i] == v);
        }
    }
}

proof fn lemma_shuffle_covers(t: Seq<u8>, r: MyRnd, i: int)
    requires
        t.len() == 256,
        covers_all(t),
    ensures
        spec_shuffle(t, r, i).0.len() == 256,
        covers_all(spec_shuffle(t, r, i).0),
        r.wf() ==> spec_shuffle(t, r, i).1.wf(),
    decreases 256 - i,
{
    if 0 <= i < 256 {
        let r2 = r.spec_step();
        let j = r2.spec_index() as int;
        let t2 = t.update(i, t[j]).update(j, t[i]);
        lemma_swap_covers(t, i, j);
        lemma_shuffle_covers(t2, r2, i + 1);
    }
}

proof fn lemma_invert_inverse(t: Seq<u8>, e: Seq<u8>, i: int)
    requires
        t.len() == 256,
        e.len() == 256,
        0 <= i <= 256,
    ensures
        spec_invert(t, e, i).len() == 256,
        forall|b: u8|
            #![auto]
            value_at_or_after(t, i, b) ==> t[spec_invert(t, e, i)[b as int] as int] == b,
        forall|b: u8|
            #![auto]
            !value_at_or_after(t, i, b) ==> spec_invert(t, e, i)[b as int] == e[b as int],
    decreases 256 - i,
{
    if i < 256 {
        let e2 = e.update(t[i] as int, i as u8);
        lemma_invert_inverse(t, e2, i + 1);
        let r = spec_invert(t, e, i);
        assert(r == spec_invert(t, e2, i + 1));
        assert forall|b: u8|
            #![auto]
            value_at_or_after(t, i, b) implies t[r[b as int] as int] == b by {
            if value_at_or_after(t, i + 1, b) {
            } else {
                let w = choose|w: int| i <= w < 256 && t[w] == b;
                if w != i {
                    assert(t[w] == b);
                    assert(value_at_or_after(t, i + 1, b));
                }
                assert(t[i] == b);
                assert(r[b as int] == e2[b as int]);
                assert(e2[b as int] == i as u8);
            }
        }
        assert forall|b: u8|
            #![auto]
            !value_at_or_after(t, i, b) implies r[b as int] == e[b as int] by {
            if t[i] == b {
                assert(value_at_or_after(t, i, b));
            }
            if value_at_or_after(t, i + 1, b) {
                let w = choose|w: int| i + 1 <= w < 256 && t[w] == b;
                assert(t[w] == b);
                assert(value_at_or_after(t, i, b));
            }
            assert(r[b as int] == e2[b as int]);
            assert(e2[b as int] == e[b as int]);
        }
    }
}

/// Every session built from a key is well formed, carries mutually inverse
/// tables, starts with its cursor at the retained seed, and a zero register.
pub proof fn lemma_session_wf(key: Seq<u8>)
    ensures
        spec_session(key).wf(),
        spec_session(key).tables_inverse(),
        spec_session(key).rand == spec_session(key).org_rand,
        spec_session(key).shift == 0,
{
    let seed = spec_seed(key);
    let fx = crate::rnd::seed_fold(key, crate::rnd::SEED_X, crate::rnd::SEED_Y, crate::rnd::SEED_Z).0;
    let fy = crate::rnd::seed_fold(key, crate::rnd::SEED_X, crate::rnd::SEED_Y, crate::rnd::SEED_Z).1;
    assert(fx & 0x7fffffff <= 0x7fffffff && fy & 0x7fffffff <= 0x7fffffff) by (bit_vector);
    assert(seed.wf());
    lemma_init_covers();
    lemma_shuffle_covers(spec_init_table(), seed, 0);
    let s = spec_shuffle(spec_init_table(), seed, 0);
    lemma_invert_inverse(s.0, Seq::new(256, |k: int| 0u8), 0);
    let m = spec_session(key);
    assert forall|b: u8| #![auto] m.dbuf[m.ebuf[b as int] as int] == b by {
        assert(value_at_or_after(s.0, 0, b));
    }
}

/// Processing a sequence touches only the cursor and the register: the
/// tables and the retained seed come through unchanged, and the output has
/// the input's length.
proof fn lemma_encode_seq_preserves(m: CryptModel, p: Seq<u8>)
    requires
        m.wf(),
    ensures
        spec_encode_seq(m, p).0.wf(),
        spec_encode_seq(m, p).0.dbuf == m.dbuf,
        spec_encode_seq(m, p).0.ebuf == m.ebuf,
        spec_encode_seq(m, p).0.org_rand == m.org_rand,
        spec_encode_seq(m, p).1.len() == p.len(),
    decreases p.len(),
{
    if p.len() != 0 {
        lemma_encode_seq_preserves(m, p.drop_last());
    }
}

proof fn lemma_decode_seq_preserves(m: CryptModel, p: Seq<u8>)
    requires
        m.wf(),
    ensures
        spec_decode_seq(m, p).0.wf(),
        spec_decode_seq(m, p).0.dbuf == m.dbuf,
        spec_decode_seq(m, p).0.ebuf == m.ebuf,
        spec_decode_seq(m, p).0.org_rand == m.org_rand,
        spec_decode_seq(m, p).1.len() == p.len(),
    decreases p.len(),
{
    if p.len() != 0 {
        lemma_decode_seq_preserves(m, p.drop_last());
    }
}

/// Both directions preserve length: a sequence's encoding and decoding under
/// any key are exactly as long as the sequence.
pub proof fn lemma_length_preserved(key: Seq<u8>, p: Seq<u8>)
    ensures
        spec_encode(key, p).len() == p.len(),
        spec_decode(key, p).len() == p.len(),
{
    lemma_session_wf(key);
    lemma_encode_seq_preserves(spec_session(key), p);
    lemma_decode_seq_preserves(spec_session(key), p);
}

proof fn lemma_roundtrip_byte(m: CryptModel, b: u8)
    requires
        m.wf(),
        m.tables_inverse(),
    ensures
        spec_decode_byte(m, spec_encode_byte(m, b).1).0 == spec_encode_byte(m, b).0,
        spec_decode_byte(m, spec_encode_byte(m, b).1).1 == b,
{
    let r2 = m.rand.spec_step();
    let d = r2.spec_index();
    let s1 = m.shift ^ d;
    let e = m.ebuf[b as int];
    let c = e ^ s1;
    assert((e ^ s1) ^ s1 == e) by (bit_vector);
    assert(m.dbuf[e as int] == b);
    assert(spec_decode_byte(m, c).1 == b);
    assert(spec_decode_byte(m, c).0 =~= spec_encode_byte(m, b).0);
}

/// Encode and decode are mutual inverses from any synchronized state: two
/// well-formed sessions with mutually inverse tables that start at the same
/// cursor and register — in particular, sessions for the same key driven
/// through the same number of prior operations — turn a sequence into
/// ciphertext and back into the original, ending in the same state.
pub proof fn lemma_roundtrip_seq(m: CryptModel, p: Seq<u8>)
    requires
        m.wf(),
        m.tables_inverse(),
    ensures
        spec_decode_seq(m, spec_encode_seq(m, p).1).0 == spec_encode_seq(m, p).0,
        spec_decode_seq(m, spec_encode_seq(m, p).1).1 == p,
    decreases p.len(),
{
    let e = spec_encode_seq(m, p);
    if p.len() == 0 {
        assert(p =~= Seq::<u8>::empty());
    } else {
        let q = p.drop_last();
        lemma_roundtrip_seq(m, q);
        lemma_encode_seq_preserves(m, q);
        let e1 = spec_encode_seq(m, q);
        assert(e1.0.tables_inverse()) by {
            assert forall|v: u8| #![auto] e1.0.dbuf[e1.0.ebuf[v as int] as int] == v by {
                assert(m.dbuf[m.ebuf[v as int] as int] == v);
            }
        }
        lemma_roundtrip_byte(e1.0, p.last());
        let st = spec_encode_byte(e1.0, p.last());
        assert(e.1.drop_last() =~= e1.1);
        assert(e.1.last() == st.1);
        assert(spec_decode_seq(m, e.1).1 =~= q.push(p.last()));
        assert(q.push(p.last()) =~= p);
    }
}

/// For every key and every byte sequence, decoding the encoding through
/// fresh sessions for that key returns the original sequence.
pub proof fn lemma_decode_encode_roundtrip(key: Seq<u8>, p: Seq<u8>)
    ensures
        spec_decode(key, spec_encode(key, p)) == p,
{
    lemma_session_wf(key);
    lemma_roundtrip_seq(spec_session(key), p);
}

/// Table construction is deterministic: any two sessions built from the same
/// key carry identical tables and an identical retained seed.
pub proof fn lemma_tables_deterministic(key: Seq<u8>, a: CryptModel, b: CryptModel)
    requires
        a == spec_session(key),
        b == spec_session(key),
    ensures
        a.dbuf == b.dbuf,
        a.ebuf == b.ebuf,
        a.org_rand == b.org_rand,
        a.rand == b.rand,
        a.shift == b.shift,
{
}

/// Encoding a sequence through a fresh session and resetting that session
/// restores it exactly to its fresh state, so decoding the ciphertext after
/// the reset returns the original sequence.
pub proof fn lemma_reinit_roundtrip(key: Seq<u8>, p: Seq<u8>)
    ensures
        spec_reinit(spec_encode_seq(spec_session(key), p).0) == spec_session(key),
        spec_decode_seq(
            spec_reinit(spec_encode_seq(spec_session(key), p).0),
            spec_encode_seq(spec_session(key), p).1,
        ).1 == p,
{
    lemma_session_wf(key);
    let s = spec_session(key);
    lemma_encode_seq_preserves(s, p);
    let enc = spec_encode_seq(s, p);
    assert(spec_reinit(enc.0) =~= s);
    lemma_roundtrip_seq(s, p);
}

/// Two sessions handed out for the same key are the same pristine value, so
/// driving one of them through any sequence cannot change what the other
/// produces.
pub proof fn lemma_sessions_independent(key: Seq<u8>, a: CryptModel, b: CryptModel, p: Seq<u8>)
    requires
        a == spec_session(key),
        b == spec_session(key),
    ensures
        spec_encode_seq(a, p) == spec_encode_seq(b, p),
        spec_decode_seq(a, p) == spec_decode_seq(b, p),
{
}

/// No session acts as the identity on every sequence: for every key there is
/// a nonempty sequence that encodes to something other than itself. (Single
/// chosen bytes can encode to themselves by coincidence, so the statement is
/// existential over sequences.)
pub proof fn lemma_cipher_not_identity(key: Seq<u8>)
    ensures
        exists|p: Seq<u8>| p.len() > 0 && spec_encode(key, p) != p,
{
    lemma_session_wf(key);
    let m = spec_session(key);
    let r1 = m.rand.spec_step();
    let d0 = r1.spec_index();
    if exists|x: u8| m.ebuf[x as int] ^ d0 != x {
        let x = choose|x: u8| m.ebuf[x as int] ^ d0 != x;
        let p = seq![x];
        assert(p.drop_last() =~= Seq::<u8>::empty());
        assert(spec_encode_seq(m, Seq::<u8>::empty()) == (m, Seq::<u8>::empty()));
        assert(p.last() == x);
        let st = spec_encode_byte(m, x);
        let sh = m.shift;
        assert(sh ^ d0 == d0) by (bit_vector)
            requires
                sh == 0u8,
        ;
        assert(spec_encode_seq(m, p) == (st.0, Seq::<u8>::empty().push(st.1)));
        assert(spec_encode(key, p) == Seq::<u8>::empty().push(st.1));
        assert(spec_encode(key, p)[0] != p[0]);
        assert(p.len() > 0 && spec_encode(key, p) != p);
    } else {
        let r2 = r1.spec_step();
        let d1 = r2.spec_index();
        let x0 = d1 ^ 1;
        let p = seq![x0, 0u8];
        assert(p.drop_last() =~= seq![x0]);
        assert(seq![x0].drop_last() =~= Seq::<u8>::empty());
        assert(spec_encode_seq(m, Seq::<u8>::empty()) == (m, Seq::<u8>::empty()));
        assert(seq![x0].last() == x0);
        let st1 = spec_encode_byte(m, x0);
        let m1 = st1.0;
        assert(spec_encode_seq(m, seq![x0]) == (m1, Seq::<u8>::empty().push(st1.1)));
        assert(p.last() == 0u8);
        let st2 = spec_encode_byte(m1, 0u8);
        assert(spec_encode_seq(m, p) == (st2.0, Seq::<u8>::empty().push(st1.1).push(st2.1)));
        assert(spec_encode(key, p) == Seq::<u8>::empty().push(st1.1).push(st2.1));
        let e0 = m.ebuf[0];
        assert(e0 ^ d0 == 0);
        assert(m1.rand == r1 && m1.ebuf == m.ebuf);
        let sh = m.shift;
        let s1 = sh ^ d0;
        assert(m1.shift == s1 ^ x0);
        let o2 = st2.1;
        assert(o2 == e0 ^ (((sh ^ d0) ^ x0) ^ d1));
        assert(e0 ^ (((sh ^ d0) ^ x0) ^ d1) == 1) by (bit_vector)
            requires
                e0 ^ d0 == 0u8,
                sh == 0u8,
                x0 == d1 ^ 1,
        ;
        assert(spec_encode(key, p)[1] != p[1]);
        assert(p.len() > 0 && spec_encode(key, p) != p);
    }
}

} // verus!
