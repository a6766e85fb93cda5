//! BLAKE2B-256 hash gadget.  The compression function is computed natively as
//! a hint over the padded message bytes held in circuit cells, and the digest
//! is written back into designated output cells; chunk-boundary hash states
//! and end-of-message flags are exposed as public values so that several
//! independent messages can be batched into one circuit.

use vstd::prelude::*;
use vstd::arithmetic::power::{lemma_pow_adds, lemma_pow_multiplies, lemma_pow_positive, pow};
use vstd::arithmetic::power2::{lemma2_to64, lemma2_to64_rest, pow2};
use crate::builder::{CircuitBuilder, Target};
use crate::errors::WitnessError;

verus! {

/// Wrapping 64-bit addition.
pub open spec fn wadd(a: u64, b: u64) -> u64 {
    ((a + b) % 0x10000000000000000) as u64
}

/// Right rotation of a 64-bit word.
pub open spec fn rotr(x: u64, n: u64) -> u64
    recommends
        0 < n < 64,
{
    (x >> n) | (x << (64 - n) as u64)
}

/// The eight BLAKE2B initialization words.
pub open spec fn iv() -> Seq<u64> {
    seq![
        0x6a09e667f3bcc908u64,
        0xbb67ae8584caa73bu64,
        0x3c6ef372fe94f82bu64,
        0xa54ff53a5f1d36f1u64,
        0x510e527fade682d1u64,
        0x9b05688c2b3e6c1fu64,
        0x1f83d9abfb41bd6bu64,
        0x5be0cd19137e2179u64,
    ]
}

/// Initial hash state for an unkeyed 32-byte digest: the first
/// initialization word absorbs the parameter block.
pub open spec fn initial_state() -> Seq<u64> {
    iv().update(0, iv()[0] ^ 0x01010020u64)
}

/// One quarter-round mix of the 16-word working vector.
pub open spec fn g_mix(v: Seq<u64>, a: int, b: int, c: int, d: int, x: u64, y: u64) -> Seq<u64>
    recommends
        v.len() == 16,
        0 <= a < 16,
        0 <= b < 16,
        0 <= c < 16,
        0 <= d < 16,
{
    let v1 = v.update(a, wadd(wadd(v[a], v[b]), x));
    let v2 = v1.update(d, rotr(v1[d] ^ v1[a], 32));
    let v3 = v2.update(c, wadd(v2[c], v2[d]));
    let v4 = v3.update(b, rotr(v3[b] ^ v3[c], 24));
    let v5 = v4.update(a, wadd(wadd(v4[a], v4[b]), y));
    let v6 = v5.update(d, rotr(v5[d] ^ v5[a], 16));
    let v7 = v6.update(c, wadd(v6[c], v6[d]));
    v7.update(b, rotr(v7[b] ^ v7[c], 63))
}

/// Eight quarter-rounds with an explicit message-word schedule.
pub open spec fn mix8(v: Seq<u64>, m: Seq<u64>,
    s0: int, s1: int, s2: int, s3: int, s4: int, s5: int, s6: int, s7: int,
    s8: int, s9: int, s10: int, s11: int, s12: int, s13: int, s14: int, s15: int,
) -> Seq<u64> {
    let v1 = g_mix(v, 0, 4, 8, 12, m[s0], m[s1]);
    let v2 = g_mix(v1, 1, 5, 9, 13, m[s2], m[s3]);
    let v3 = g_mix(v2, 2, 6, 10, 14, m[s4], m[s5]);
    let v4 = g_mix(v3, 3, 7, 11, 15, m[s6], m[s7]);
    let v5 = g_mix(v4, 0, 5, 10, 15, m[s8], m[s9]);
    let v6 = g_mix(v5, 1, 6, 11, 12, m[s10], m[s11]);
    let v7 = g_mix(v6, 2, 7, 8, 13, m[s12], m[s13]);
    g_mix(v7, 3, 4, 9, 14, m[s14], m[s15])
}

/// One full round: the message-word schedule per round index.
pub open spec fn round_mix(v: Seq<u64>, m: Seq<u64>, r: int) -> Seq<u64>
    recommends
        v.len() == 16,
        m.len() == 16,
        0 <= r < 12,
{
    if r == 0 || r == 10 {
        mix8(v, m, 0, 1, 2, 3, 4, 5, 6, 7, 8, 9, 10, 11, 12, 13, 14, 15)
    } else if r == 1 || r == 11 {
        mix8(v, m, 14, 10, 4, 8, 9, 15, 13, 6, 1, 12, 0, 2, 11, 7, 5, 3)
    } else if r == 2 {
        mix8(v, m, 11, 8, 12, 0, 5, 2, 15, 13, 10, 14, 3, 6, 7, 1, 9, 4)
    } else if r == 3 {
        mix8(v, m, 7, 9, 3, 1, 13, 12, 11, 14, 2, 6, 5, 10, 4, 0, 15, 8)
    } else if r == 4 {
        mix8(v, m, 9, 0, 5, 7, 2, 4, 10, 15, 14, 1, 11, 12, 6, 8, 3, 13)
    } else if r == 5 {
        mix8(v, m, 2, 12, 6, 10, 0, 11, 8, 3, 4, 13, 7, 5, 15, 14, 1, 9)
    } else if r == 6 {
        mix8(v, m, 12, 5, 1, 15, 14, 13, 4, 10, 0, 7, 6, 3, 9, 2, 8, 11)
    } else if r == 7 {
        mix8(v, m, 13, 11, 7, 14, 12, 1, 3, 9, 5, 0, 15, 4, 8, 6, 2, 10)
    } else if r == 8 {
        mix8(v, m, 6, 15, 14, 9, 11, 3, 0, 8, 12, 2, 13, 7, 1, 4, 10, 5)
    } else {
        mix8(v, m, 10, 2, 8, 4, 7, 6, 1, 5, 15, 11, 9, 14, 3, 12, 13, 0)
    }
}

/// The working vector after the first `r` rounds.
pub open spec fn rounds_spec(v: Seq<u64>, m: Seq<u64>, r: nat) -> Seq<u64>
    decreases r,
{
    if r == 0 {
        v
    } else {
        round_mix(rounds_spec(v, m, (r - 1) as nat), m, r - 1)
    }
}

/// Value of a little-endian byte sequence.
pub open spec fn le_val(s: Seq<u8>) -> int
    decreases s.len(),
{
    if s.len() == 0 {
        0
    } else {
        s[0] + 256 * le_val(s.drop_first())
    }
}

/// A little-endian byte sequence is bounded by `256^len`.
pub proof fn lemma_le_val_bound(s: Seq<u8>)
    ensures
        0 <= le_val(s) < pow(256, s.len()),
    decreases s.len(),
{
    reveal(pow);
    if s.len() > 0 {
        lemma_le_val_bound(s.drop_first());
        let t = le_val(s.drop_first());
        assert(256 * t <= 256 * (pow(256, (s.len() - 1) as nat) - 1)) by {
            vstd::arithmetic::mul::lemma_mul_left_inequality(
                256, t, pow(256, (s.len() - 1) as nat) - 1);
        }
        assert(256 * (pow(256, (s.len() - 1) as nat) - 1)
            == 256 * pow(256, (s.len() - 1) as nat) - 256) by {
            vstd::arithmetic::mul::lemma_mul_is_distributive_sub(
                256, pow(256, (s.len() - 1) as nat), 1);
        }
        vstd::arithmetic::mul::lemma_mul_nonnegative(256, t);
    }
}

/// The sixteen little-endian message words of one 128-byte chunk.
pub open spec fn msg_words(chunk: Seq<u8>) -> Seq<u64>
    recommends
        chunk.len() == 128,
{
    Seq::new(16, |i: int| le_val(chunk.subrange(8 * i, 8 * i + 8)) as u64)
}

/// Byte `j` of the little-endian encoding of a word.
pub open spec fn word_byte(w: u64, j: int) -> u8
    recommends
        0 <= j < 8,
{
    ((w >> (8 * j) as u64) & 0xff) as u8
}

/// The compression function: mixes one 128-byte chunk into the hash state,
/// with the byte counter `t` and the final-chunk flag.
pub open spec fn compress_spec(h: Seq<u64>, chunk: Seq<u8>, t: u64, last: bool) -> Seq<u64>
    recommends
        h.len() == 8,
        chunk.len() == 128,
{
    let m = msg_words(chunk);
    let v0 = h + iv();
    let v1 = v0.update(12, v0[12] ^ t);
    let v2 = if last {
        v1.update(14, v1[14] ^ 0xffffffffffffffffu64)
    } else {
        v1
    };
    let vf = rounds_spec(v2, m, 12);
    Seq::new(8, |i: int| h[i] ^ vf[i] ^ vf[i + 8])
}

/// Hash state after the first `j` chunks of a padded message.  Every chunk
/// but the last counts 128 bytes; the last counts the true message length.
pub open spec fn state_after(padded: Seq<u8>, mlen: u64, j: nat) -> Seq<u64>
    recommends
        padded.len() % 128 == 0,
        j <= padded.len() / 128,
    decreases j,
{
    if j == 0 {
        initial_state()
    } else {
        let n = padded.len() as int / 128;
        let last = j == n;
        let bc: u64 = if last {
            mlen
        } else {
            (128 * j) as u64
        };
        compress_spec(
            state_after(padded, mlen, (j - 1) as nat),
            padded.subrange(128 * (j - 1), 128 * (j as int)),
            bc,
            last,
        )
    }
}

/// The 32-byte digest of a padded message: the little-endian bytes of the
/// first four state words after the final chunk.
pub open spec fn digest_spec(padded: Seq<u8>, mlen: u64) -> Seq<u8>
    recommends
        padded.len() % 128 == 0,
{
    let h = state_after(padded, mlen, (padded.len() as int / 128) as nat);
    Seq::new(32, |i: int| word_byte(h[i / 8], i % 8))
}

/// Zero-pads a message to a positive multiple of 128 bytes.
pub open spec fn pad_spec(msg: Seq<u8>) -> Seq<u8> {
    let chunks = if msg.len() == 0 {
        1int
    } else {
        (msg.len() + 127) as int / 128
    };
    msg + Seq::new((128 * chunks - msg.len()) as nat, |i: int| 0u8)
}

/// BLAKE2B-256 of a message, as computed by the hint path.
pub open spec fn blake2b256_spec(msg: Seq<u8>) -> Seq<u8>
    recommends
        msg.len() < 0x10000000000000000,
{
    digest_spec(pad_spec(msg), msg.len() as u64)
}

/// Wrapping 64-bit addition, executable.
pub fn wadd64(a: u64, b: u64) -> (r: u64)
    ensures
        r == wadd(a, b),
{
    let s: u128 = a as u128 + b as u128;
    (s % 0x10000000000000000) as u64
}

/// Right rotation, executable.
pub fn rotr64(x: u64, n: u64) -> (r: u64)
    requires
        0 < n < 64,
    ensures
        r == rotr(x, n),
{
    (x >> n) | (x << (64 - n))
}

/// One quarter-round applied in place.
pub fn g_apply(v: &mut Vec<u64>, a: usize, b: usize, c: usize, d: usize, x: u64, y: u64)
    requires
        old(v)@.len() == 16,
        a < 16,
        b < 16,
        c < 16,
        d < 16,
    ensures
        final(v)@ == g_mix(old(v)@, a as int, b as int, c as int, d as int, x, y),
        final(v)@.len() == 16,
{
    let t1 = wadd64(wadd64(v[a], v[b]), x);
    v.set(a, t1);
    let t2 = rotr64(v[d] ^ v[a], 32);
    v.set(d, t2);
    let t3 = wadd64(v[c], v[d]);
    v.set(c, t3);
    let t4 = rotr64(v[b] ^ v[c], 24);
    v.set(b, t4);
    let t5 = wadd64(wadd64(v[a], v[b]), y);
    v.set(a, t5);
    let t6 = rotr64(v[d] ^ v[a], 16);
    v.set(d, t6);
    let t7 = wadd64(v[c], v[d]);
    v.set(c, t7);
    let t8 = rotr64(v[b] ^ v[c], 63);
    v.set(b, t8);
}

/// Eight quarter-rounds with an explicit schedule, applied in place.
pub fn mix8_apply(v: &mut Vec<u64>, m: &Vec<u64>,
    s0: usize, s1: usize, s2: usize, s3: usize, s4: usize, s5: usize, s6: usize, s7: usize,
    s8: usize, s9: usize, s10: usize, s11: usize, s12: usize, s13: usize, s14: usize, s15: usize,
)
    requires
        old(v)@.len() == 16,
        m@.len() == 16,
        s0 < 16, s1 < 16, s2 < 16, s3 < 16, s4 < 16, s5 < 16, s6 < 16, s7 < 16,
        s8 < 16, s9 < 16, s10 < 16, s11 < 16, s12 < 16, s13 < 16, s14 < 16, s15 < 16,
    ensures
        final(v)@ == mix8(old(v)@, m@,
            s0 as int, s1 as int, s2 as int, s3 as int, s4 as int, s5 as int, s6 as int,
            s7 as int, s8 as int, s9 as int, s10 as int, s11 as int, s12 as int, s13 as int,
            s14 as int, s15 as int),
        final(v)@.len() == 16,
{
    g_apply(v, 0, 4, 8, 12, m[s0], m[s1]);
    g_apply(v, 1, 5, 9, 13, m[s2], m[s3]);
    g_apply(v, 2, 6, 10, 14, m[s4], m[s5]);
    g_apply(v, 3, 7, 11, 15, m[s6], m[s7]);
    g_apply(v, 0, 5, 10, 15, m[s8], m[s9]);
    g_apply(v, 1, 6, 11, 12, m[s10], m[s11]);
    g_apply(v, 2, 7, 8, 13, m[s12], m[s13]);
    g_apply(v, 3, 4, 9, 14, m[s14], m[s15]);
}

/// One full round applied in place.
pub fn round_apply(v: &mut Vec<u64>, m: &Vec<u64>, r: usize)
    requires
        old(v)@.len() == 16,
        m@.len() == 16,
        r < 12,
    ensures
        final(v)@ == round_mix(old(v)@, m@, r as int),
        final(v)@.len() == 16,
{
    if r == 0 || r == 10 {
        mix8_apply(v, m, 0, 1, 2, 3, 4, 5, 6, 7, 8, 9, 10, 11, 12, 13, 14, 15);
    } else if r == 1 || r == 11 {
        mix8_apply(v, m, 14, 10, 4, 8, 9, 15, 13, 6, 1, 12, 0, 2, 11, 7, 5, 3);
    } else if r == 2 {
        mix8_apply(v, m, 11, 8, 12, 0, 5, 2, 15, 13, 10, 14, 3, 6, 7, 1, 9, 4);
    } else if r == 3 {
        mix8_apply(v, m, 7, 9, 3, 1, 13, 12, 11, 14, 2, 6, 5, 10, 4, 0, 15, 8);
    } else if r == 4 {
        mix8_apply(v, m, 9, 0, 5, 7, 2, 4, 10, 15, 14, 1, 11, 12, 6, 8, 3, 13);
    } else if r == 5 {
        mix8_apply(v, m, 2, 12, 6, 10, 0, 11, 8, 3, 4, 13, 7, 5, 15, 14, 1, 9);
    } else if r == 6 {
        mix8_apply(v, m, 12, 5, 1, 15, 14, 13, 4, 10, 0, 7, 6, 3, 9, 2, 8, 11);
    } else if r == 7 {
        mix8_apply(v, m, 13, 11, 7, 14, 12, 1, 3, 9, 5, 0, 15, 4, 8, 6, 2, 10);
    } else if r == 8 {
        mix8_apply(v, m, 6, 15, 14, 9, 11, 3, 0, 8, 12, 2, 13, 7, 1, 4, 10, 5);
    } else {
        mix8_apply(v, m, 10, 2, 8, 4, 7, 6, 1, 5, 15, 11, 9, 14, 3, 12, 13, 0);
    }
}

/// The initialization words, executable.
pub fn iv_vec() -> (r: Vec<u64>)
    ensures
        r@ == iv(),
        r@.len() == 8,
{
    let mut r: Vec<u64> = Vec::new();
    r.push(0x6a09e667f3bcc908);
    r.push(0xbb67ae8584caa73b);
    r.push(0x3c6ef372fe94f82b);
    r.push(0xa54ff53a5f1d36f1);
    r.push(0x510e527fade682d1);
    r.push(0x9b05688c2b3e6c1f);
    r.push(0x1f83d9abfb41bd6b);
    r.push(0x5be0cd19137e2179);
    proof {
        assert(r@ =~= iv());
    }
    r
}

/// The initial hash state, executable.
pub fn initial_state_vec() -> (r: Vec<u64>)
    ensures
        r@ == initial_state(),
        r@.len() == 8,
{
    let mut r = iv_vec();
    let w = r[0] ^ 0x01010020;
    r.set(0, w);
    proof {
        assert(r@ =~= initial_state());
    }
    r
}

/// Reads the little-endian word at byte offset `off`.
#[verifier::rlimit(50)]
#[verifier::loop_isolation(false)]
pub fn chunk_word(chunk: &Vec<u8>, off: usize) -> (w: u64)
    requires
        off + 8 <= chunk@.len(),
    ensures
        w as int == le_val(chunk@.subrange(off as int, off as int + 8)),
{
    let len = chunk.len();
    let mut w: u64 = 0;
    let mut t: usize = 0;
    proof {
        reveal(pow);
        assert(chunk@.subrange(off as int + 8, off as int + 8) =~= Seq::<u8>::empty());
    }
    while t < 8
        invariant
            t <= 8,
            off + 8 <= chunk@.len(),
            w as int == le_val(chunk@.subrange(off + 8 - t, off + 8)),
            w < pow(256, t as nat),
        decreases 8 - t,
    {
        proof {
            reveal(pow);
            let lo = off + 8 - t - 1;
            assert(chunk@.subrange(lo as int, off + 8).drop_first()
                =~= chunk@.subrange(lo + 1, off + 8));
            lemma_pow_le_val_64();
            assert(pow(256, t as nat) <= pow(256, 7)) by {
                if t < 7 {
                    vstd::arithmetic::power::lemma_pow_strictly_increases(256, t as nat, 7);
                }
            }
            assert(256 * w <= 256 * (pow(256, 7) - 1)) by {
                vstd::arithmetic::mul::lemma_mul_left_inequality(256, w as int, pow(256, 7) - 1);
            }
            assert(256 * (pow(256, 7) - 1) == 256 * pow(256, 7) - 256) by {
                vstd::arithmetic::mul::lemma_mul_is_distributive_sub(256, pow(256, 7), 1);
            }
        }
        w = chunk[off + 8 - t - 1] as u64 + 256 * w;
        t = t + 1;
    }
    proof {
        assert(chunk@.subrange(off as int, off + 8)
            =~= chunk@.subrange(off + 8 - 8, off + 8));
    }
    w
}

/// `256^8 == 2^64`, so eight bytes always fit one word.
pub proof fn lemma_pow_le_val_64()
    ensures
        pow(256, 8) == 0x10000000000000000,
        pow(256, 7) == 0x100000000000000,
{
    lemma_pow_multiplies(2, 8, 8);
    lemma_pow_multiplies(2, 8, 7);
    vstd::arithmetic::power2::lemma_pow2(64);
    vstd::arithmetic::power2::lemma_pow2(56);
    vstd::arithmetic::power2::lemma_pow2(8);
    lemma2_to64();
    lemma2_to64_rest();
    assert(pow(2, 8) == pow2(8));
    assert(pow(256, 8) == pow(pow(2, 8), 8));
    assert(pow(256, 7) == pow(pow(2, 8), 7));
}

/// The sixteen message words of the chunk starting at `off`.
#[verifier::loop_isolation(false)]
pub fn chunk_words(chunk: &Vec<u8>, off: usize) -> (m: Vec<u64>)
    requires
        off + 128 <= chunk@.len(),
    ensures
        m@ =~= msg_words(chunk@.subrange(off as int, off as int + 128)),
        m@.len() == 16,
{
    let len = chunk.len();
    let mut m: Vec<u64> = Vec::new();
    let mut i: usize = 0;
    while i < 16
        invariant
            i <= 16,
            off + 128 <= chunk@.len(),
            m@.len() == i,
            forall|j: int| 0 <= j < i ==> m@[j]
                == le_val(chunk@.subrange(off + 8 * j, off + 8 * j + 8)),
        decreases 16 - i,
    {
        let w = chunk_word(chunk, off + 8 * i);
        m.push(w);
        i = i + 1;
    }
    proof {
        let c = chunk@.subrange(off as int, off as int + 128);
        assert forall|j: int| 0 <= j < 16 implies m@[j] == msg_words(c)[j] by {
            assert(c.subrange(8 * j, 8 * j + 8)
                =~= chunk@.subrange(off + 8 * j, off + 8 * j + 8));
        }
    }
    m
}

/// The hash gadget: its associated functions express the compression and the
/// hint registration; the cells it owns tie the hint to the circuit.
pub struct BLAKE2BGadget {
    /// All padded message cells of the batch, in order.
    pub padded_messages: Vec<Target>,
    /// Chunks per batched message.
    pub chunk_sizes: Vec<usize>,
}

impl BLAKE2BGadget {
    /// The compression function, computed natively.  Mixes one 128-byte
    /// chunk into the state under the byte counter and final-chunk flag.
    #[verifier::rlimit(50)]
#[verifier::loop_isolation(false)]
    pub fn compress(chunk: &Vec<u8>, state: &Vec<u64>, bytes_compressed: u64, last_chunk: bool)
        -> (out: Vec<u64>)
        requires
            chunk@.len() == 128,
            state@.len() == 8,
        ensures
            out@ == compress_spec(state@, chunk@, bytes_compressed, last_chunk),
            out@.len() == 8,
    {
        let m = chunk_words(chunk, 0);
        proof {
            assert(chunk@.subrange(0, 128) =~= chunk@);
        }
        let mut v: Vec<u64> = Vec::new();
        let mut i: usize = 0;
        while i < 8
            invariant
                i <= 8,
                state@.len() == 8,
                v@ =~= state@.take(i as int),
            decreases 8 - i,
        {
            v.push(state[i]);
            i = i + 1;
        }
        let ivw = iv_vec();
        let mut j: usize = 0;
        while j < 8
            invariant
                j <= 8,
                ivw@ == iv(),
                v@ =~= state@ + iv().take(j as int),
            decreases 8 - j,
        {
            v.push(ivw[j]);
            j = j + 1;
        }
        proof {
            assert(v@ =~= state@ + iv());
        }
        let t12 = v[12] ^ bytes_compressed;
        v.set(12, t12);
        if last_chunk {
            let t14 = v[14] ^ 0xffffffffffffffff;
            v.set(14, t14);
        }
        let ghost v_start = v@;
        let mut r: usize = 0;
        while r < 12
            invariant
                r <= 12,
                m@.len() == 16,
                v@ == rounds_spec(v_start, m@, r as nat),
                v@.len() == 16,
            decreases 12 - r,
        {
            round_apply(&mut v, &m, r);
            r = r + 1;
        }
        let mut out: Vec<u64> = Vec::new();
        let mut i: usize = 0;
        while i < 8
            invariant
                i <= 8,
                v@.len() == 16,
                state@.len() == 8,
                out@.len() == i,
                forall|k: int| 0 <= k < i ==> out@[k] == (state@[k] ^ v@[k] ^ v@[k + 8]),
            decreases 8 - i,
        {
            out.push(state[i] ^ v[i] ^ v[i + 8]);
            i = i + 1;
        }
        proof {
            assert(out@ =~= compress_spec(state@, chunk@, bytes_compressed, last_chunk));
        }
        out
    }

    /// Digest of a whole padded message: runs the compression chunk by
    /// chunk with the running byte counter, then serializes the first four
    /// state words.
    #[verifier::rlimit(50)]
#[verifier::loop_isolation(false)]
    pub fn digest(padded: &Vec<u8>, message_len: u64) -> (d: Vec<u8>)
        requires
            padded@.len() % 128 == 0,
            padded@.len() >= 128,
        ensures
            d@ == digest_spec(padded@, message_len),
            d@.len() == 32,
    {
        let num_chunks = padded.len() / 128;
        let mut state = initial_state_vec();
        let mut j: usize = 0;
        while j < num_chunks
            invariant
                j <= num_chunks,
                num_chunks == padded@.len() as int / 128,
                padded@.len() % 128 == 0,
                padded@.len() >= 128,
                state@.len() == 8,
                state@ == state_after(padded@, message_len, j as nat),
            decreases num_chunks - j,
        {
            let last_chunk = j == num_chunks - 1;
            proof {
                vstd::arithmetic::div_mod::lemma_fundamental_div_mod(padded@.len() as int, 128);
                assert(128 * (j + 1) <= padded@.len());
            }
            let bytes_compressed: u64 = if last_chunk {
                message_len
            } else {
                (128 * (j as u64 + 1))
            };
            let mut chunk: Vec<u8> = Vec::new();
            let mut b: usize = 0;
            while b < 128
                invariant
                    b <= 128,
                    j < num_chunks,
                    num_chunks == padded@.len() as int / 128,
                    128 * (j + 1) <= padded@.len(),
                    chunk@ =~= padded@.subrange(128 * j, 128 * j + b),
                decreases 128 - b,
            {
                chunk.push(padded[128 * j + b]);
                b = b + 1;
            }
            state = Self::compress(&chunk, &state, bytes_compressed, last_chunk);
            proof {
                assert(chunk@ =~= padded@.subrange(128 * j, 128 * (j + 1)));
                assert(state@ == state_after(padded@, message_len, (j + 1) as nat));
            }
            j = j + 1;
        }
        let mut d: Vec<u8> = Vec::new();
        let mut i: usize = 0;
        while i < 32
            invariant
                i <= 32,
                state@.len() == 8,
                state@ == state_after(padded@, message_len, (padded@.len() as int / 128) as nat),
                d@.len() == i,
                forall|k: int| 0 <= k < i ==> d@[k] == word_byte(state@[k / 8], k % 8),
            decreases 32 - i,
        {
            let w = state[i / 8];
            let byte = ((w >> ((8 * (i % 8)) as u64)) & 0xff) as u8;
            d.push(byte);
            i = i + 1;
        }
        proof {
            assert(d@ =~= digest_spec(padded@, message_len));
        }
        d
    }
}

/// Chunk chaining: the state exposed after the first chunk of a multi-chunk
/// padded message is exactly the compression of its first 128 bytes into
/// the initial state, with a 128-byte counter and no final-chunk flag.
pub proof fn lemma_first_chunk_state(padded: Seq<u8>, mlen: u64)
    requires
        padded.len() % 128 == 0,
        padded.len() >= 256,
    ensures
        state_after(padded, mlen, 1) == compress_spec(
            initial_state(),
            padded.subrange(0, 128),
            128,
            false,
        ),
{
    vstd::arithmetic::div_mod::lemma_fundamental_div_mod(padded.len() as int, 128);
    assert(padded.len() as int / 128 >= 2) by {
        if padded.len() as int / 128 < 2 {
            assert(padded.len() < 256);
        }
    }
    assert(state_after(padded, mlen, 0) == initial_state());
    assert(state_after(padded, mlen, 1) == compress_spec(
        state_after(padded, mlen, 0),
        padded.subrange(0int, 128int),
        128,
        false,
    ));
    assert(padded.subrange(0int, 128int) =~= padded.subrange(0, 128));
}

/// The native hint generator: reads the padded message bytes and the true
/// message length from the assignment and writes the 32 digest bytes.
pub struct BLAKE2BHintGenerator {
    pub padded_message: Vec<Target>,
    pub message_len: Target,
    pub digest_bytes: Vec<Target>,
}

impl BLAKE2BHintGenerator {
    /// Cells all allocated, a whole positive number of chunks, 32 digest
    /// cells.
    pub open spec fn wf(self, b: CircuitBuilder) -> bool {
        &&& forall|i: int| 0 <= i < self.padded_message.len()
            ==> b.target_in_bounds(#[trigger] self.padded_message[i])
        &&& b.target_in_bounds(self.message_len)
        &&& forall|i: int| 0 <= i < self.digest_bytes.len()
            ==> b.target_in_bounds(#[trigger] self.digest_bytes[i])
        &&& self.padded_message.len() % 128 == 0
        &&& self.padded_message.len() >= 128
        &&& self.digest_bytes.len() == 32
    }

    /// Binds a hint generator to its message, length and digest cells.
    pub fn new(padded_message: &Vec<Target>, message_len: Target, digest_bytes: Vec<Target>)
        -> (r: BLAKE2BHintGenerator)
        ensures
            r.padded_message@ == padded_message@,
            r.message_len == message_len,
            r.digest_bytes@ == digest_bytes@,
    {
        let mut copied: Vec<Target> = Vec::new();
        let mut i: usize = 0;
        while i < padded_message.len()
            invariant
                i <= padded_message@.len(),
                copied@ =~= padded_message@.take(i as int),
            decreases padded_message@.len() - i,
        {
            copied.push(padded_message[i]);
            i = i + 1;
        }
        proof {
            assert(copied@ =~= padded_message@);
        }
        BLAKE2BHintGenerator { padded_message: copied, message_len, digest_bytes }
    }

    /// Stable name of this generator kind.
    pub fn id() -> (r: String)
        ensures
            r@ == "BLAKE2BHintGenerator"@,
    {
        broadcast use vstd::string::to_string_from_display_ensures_for_str;

        "BLAKE2BHintGenerator".to_string()
    }
}

/// What the hint writes, as a function of the dependency cell values: the
/// digest bytes of the message, or an error if some claimed byte cell holds
/// a value above 255.
pub open spec fn hint_output_vals(vals: Seq<u64>, mlen: u64) -> Result<Seq<u64>, WitnessError>
    recommends
        vals.len() % 128 == 0,
        vals.len() >= 128,
{
    if exists|i: int| 0 <= i < vals.len() && vals[i] > 255 {
        Err(WitnessError::ByteValueOutOfRange)
    } else {
        let bytes = Seq::new(vals.len(), |i: int| vals[i] as u8);
        Ok(Seq::new(32, |i: int| digest_spec(bytes, mlen)[i] as u64))
    }
}

/// Executable mirror of `hint_output_vals`.
#[verifier::loop_isolation(false)]
pub fn hint_digest_values(vals: &Vec<u64>, mlen: u64) -> (r: Result<Vec<u64>, WitnessError>)
    requires
        vals@.len() % 128 == 0,
        vals@.len() >= 128,
    ensures
        match r {
            Ok(d) => hint_output_vals(vals@, mlen) == Ok::<Seq<u64>, WitnessError>(d@),
            Err(e) => hint_output_vals(vals@, mlen) == Err::<Seq<u64>, WitnessError>(e),
        },
{
    let mut bytes: Vec<u8> = Vec::new();
    let mut i: usize = 0;
    while i < vals.len()
        invariant
            i <= vals@.len(),
            bytes@.len() == i,
            forall|j: int| 0 <= j < i ==> vals@[j] <= 255,
            forall|j: int| 0 <= j < i ==> bytes@[j] == vals@[j] as u8,
        decreases vals@.len() - i,
    {
        let v = vals[i];
        if v > 255 {
            return Err(WitnessError::ByteValueOutOfRange);
        }
        bytes.push(v as u8);
        i = i + 1;
    }
    let d = BLAKE2BGadget::digest(&bytes, mlen);
    let mut out: Vec<u64> = Vec::new();
    let mut k: usize = 0;
    while k < 32
        invariant
            k <= 32,
            d@.len() == 32,
            out@.len() == k,
            forall|j: int| 0 <= j < k ==> out@[j] == d@[j] as u64,
        decreases 32 - k,
    {
        out.push(d[k] as u64);
        k = k + 1;
    }
    proof {
        assert(bytes@ =~= Seq::new(vals@.len(), |i: int| vals@[i] as u8));
        assert(out@ =~= Seq::new(32, |i: int| digest_spec(bytes@, mlen)[i] as u64));
    }
    Ok(out)
}

/// Flag values for one message: zero on every chunk but the last.
pub open spec fn msg_pattern(c: usize) -> Seq<u64> {
    Seq::new(c as nat, |i: int| if i == c - 1 {
        1u64
    } else {
        0u64
    })
}

/// End-of-message flags for a batch: the per-message patterns, in order.
pub open spec fn end_bits_pattern(chunk_sizes: Seq<usize>) -> Seq<u64>
    decreases chunk_sizes.len(),
{
    if chunk_sizes.len() == 0 {
        Seq::empty()
    } else {
        msg_pattern(chunk_sizes[0]) + end_bits_pattern(chunk_sizes.drop_first())
    }
}

/// Total chunk count of a batch.
pub open spec fn total_chunks(chunk_sizes: Seq<usize>) -> int
    decreases chunk_sizes.len(),
{
    if chunk_sizes.len() == 0 {
        0
    } else {
        chunk_sizes[0] + total_chunks(chunk_sizes.drop_first())
    }
}

/// Chunks that precede message `m` in the batch.
pub open spec fn chunks_before(chunk_sizes: Seq<usize>, m: int) -> int {
    total_chunks(chunk_sizes.take(m))
}


/// Chunk totals are nonnegative.
pub proof fn lemma_total_nonneg(chunk_sizes: Seq<usize>)
    ensures
        0 <= total_chunks(chunk_sizes),
    decreases chunk_sizes.len(),
{
    if chunk_sizes.len() > 0 {
        lemma_total_nonneg(chunk_sizes.drop_first());
    }
}

/// A message's chunks lie inside the batch total.
pub proof fn lemma_chunks_prefix(chunk_sizes: Seq<usize>, m: int)
    requires
        0 <= m < chunk_sizes.len(),
    ensures
        0 <= chunks_before(chunk_sizes, m),
        chunks_before(chunk_sizes, m) + chunk_sizes[m] <= total_chunks(chunk_sizes),
    decreases m,
{
    lemma_total_nonneg(chunk_sizes.take(m));
    if m == 0 {
        assert(chunk_sizes.take(0) =~= Seq::<usize>::empty());
        lemma_total_nonneg(chunk_sizes.drop_first());
    } else {
        lemma_chunks_prefix(chunk_sizes.drop_first(), m - 1);
        assert(chunk_sizes.take(m).drop_first() =~= chunk_sizes.drop_first().take(m - 1));
    }
}

/// Batching isolation, structural half: in the end-of-message flags of a
/// batch, each message contributes exactly one set flag, at its own final
/// chunk; every other position is clear.
pub proof fn lemma_end_bits_one_per_message(chunk_sizes: Seq<usize>)
    requires
        forall|m: int| 0 <= m < chunk_sizes.len() ==> #[trigger] chunk_sizes[m] >= 1,
    ensures
        end_bits_pattern(chunk_sizes).len() == total_chunks(chunk_sizes),
        forall|m: int| 0 <= m < chunk_sizes.len()
            ==> #[trigger] end_bits_pattern(chunk_sizes)[
                chunks_before(chunk_sizes, m) + chunk_sizes[m] - 1] == 1,
        forall|m: int, j: int|
            #![trigger end_bits_pattern(chunk_sizes)[j], chunks_before(chunk_sizes, m)]
            0 <= m < chunk_sizes.len() && chunks_before(chunk_sizes, m) <= j
                && j < chunks_before(chunk_sizes, m) + chunk_sizes[m] - 1
                ==> end_bits_pattern(chunk_sizes)[j] == 0,
    decreases chunk_sizes.len(),
{
    if chunk_sizes.len() > 0 {
        let tail = chunk_sizes.drop_first();
        lemma_end_bits_one_per_message(tail);
        assert(chunk_sizes.take(0) =~= Seq::<usize>::empty());
        assert forall|m: int| 0 <= m < chunk_sizes.len()
            implies #[trigger] end_bits_pattern(chunk_sizes)[
                chunks_before(chunk_sizes, m) + chunk_sizes[m] - 1] == 1 by {
            lemma_chunks_prefix(chunk_sizes, m);
            if m == 0 {
                assert(chunks_before(chunk_sizes, 0) == 0);
            } else {
                lemma_chunks_prefix(tail, m - 1);
                assert(chunk_sizes.take(m).drop_first() =~= tail.take(m - 1));
                assert(chunks_before(chunk_sizes, m)
                    == chunk_sizes[0] + chunks_before(tail, m - 1));
                assert(end_bits_pattern(tail)[
                    chunks_before(tail, m - 1) + tail[m - 1] - 1] == 1);
            }
        }
        assert forall|m: int, j: int|
            #![trigger end_bits_pattern(chunk_sizes)[j], chunks_before(chunk_sizes, m)]
            0 <= m < chunk_sizes.len() && chunks_before(chunk_sizes, m) <= j
                && j < chunks_before(chunk_sizes, m) + chunk_sizes[m] - 1
            implies end_bits_pattern(chunk_sizes)[j] == 0 by {
            lemma_chunks_prefix(chunk_sizes, m);
            if m == 0 {
                assert(chunks_before(chunk_sizes, 0) == 0);
            } else {
                lemma_chunks_prefix(tail, m - 1);
                assert(chunk_sizes.take(m).drop_first() =~= tail.take(m - 1));
                assert(chunks_before(chunk_sizes, m)
                    == chunk_sizes[0] + chunks_before(tail, m - 1));
                assert(end_bits_pattern(tail)[j - chunk_sizes[0]] == 0);
            }
        }
    }
}

/// The compiled-in initialization constants as public-input byte values:
/// the little-endian bytes of the eight initial state words.  BLAKE2B mixes
/// no further additive round-constant table; its fixed tables are this
/// initial state and the message-word schedule.
pub open spec fn initialization_bytes() -> Seq<u64> {
    Seq::new(64, |j: int| word_byte(initial_state()[j / 8], j % 8) as u64)
}

/// Extending a batch by one message adds that message's chunks.
pub proof fn lemma_total_take_push(chunk_sizes: Seq<usize>, m: int)
    requires
        0 <= m < chunk_sizes.len(),
    ensures
        total_chunks(chunk_sizes.take(m + 1)) == total_chunks(chunk_sizes.take(m))
            + chunk_sizes[m],
    decreases m,
{
    if m == 0 {
        assert(chunk_sizes.take(1).drop_first() =~= Seq::<usize>::empty());
        assert(chunk_sizes.take(0) =~= Seq::<usize>::empty());
    } else {
        lemma_total_take_push(chunk_sizes.drop_first(), m - 1);
        assert(chunk_sizes.take(m + 1).drop_first() =~= chunk_sizes.drop_first().take(m));
        assert(chunk_sizes.take(m).drop_first() =~= chunk_sizes.drop_first().take(m - 1));
    }
}

/// Chunk prefixes grow with the message index.
pub proof fn lemma_chunks_before_monotone(chunk_sizes: Seq<usize>, a: int, b: int)
    requires
        0 <= a <= b <= chunk_sizes.len(),
    ensures
        chunks_before(chunk_sizes, a) <= chunks_before(chunk_sizes, b),
    decreases b - a,
{
    if a < b {
        lemma_chunks_before_monotone(chunk_sizes, a, b - 1);
        lemma_total_take_push(chunk_sizes, b - 1);
    }
}

/// Public values of a batched hash proof: chunk-boundary state bytes and one
/// end-of-message flag cell per chunk.
pub struct BLAKE2BPublicData {
    pub hash_state: Vec<Target>,
    pub end_bits: Vec<Target>,
}

impl BLAKE2BPublicData {
    /// Allocates the public cells of a batch: one flag constant per chunk,
    /// carrying the end-of-message pattern of the chunk sizes, and 32 state
    /// byte cells per chunk boundary — fresh virtual cells for interior
    /// boundaries, and for each message's final chunk that message's digest
    /// cells, each 4-byte group reversed into word order.
    #[verifier::loop_isolation(false)]
    #[verifier::rlimit(100)]
    pub fn add_virtual(
        builder: &mut CircuitBuilder,
        digests: &Vec<Target>,
        chunk_sizes: &Vec<usize>,
    ) -> (r: Result<BLAKE2BPublicData, crate::errors::CircuitError>)
        requires
            old(builder).wf(),
            digests@.len() == 32 * chunk_sizes@.len(),
            forall|i: int| 0 <= i < digests@.len()
                ==> old(builder).target_in_bounds(#[trigger] digests@[i]),
            forall|m: int| 0 <= m < chunk_sizes@.len() ==> #[trigger] chunk_sizes@[m] >= 1,
        ensures
            final(builder).wf(),
            final(builder).extends(*old(builder)),
            match r {
                Ok(pd) => {
                    &&& pd.end_bits@.len() == end_bits_pattern(chunk_sizes@).len()
                    &&& final(builder).constants@ == old(builder).constants@ + Seq::new(
                        pd.end_bits@.len(),
                        |j: int| (pd.end_bits@[j], end_bits_pattern(chunk_sizes@)[j]),
                    )
                    &&& forall|j: int| 0 <= j < pd.end_bits@.len()
                        ==> final(builder).target_in_bounds(#[trigger] pd.end_bits@[j])
                    &&& pd.hash_state@.len() == 32 * total_chunks(chunk_sizes@)
                    &&& forall|k: int| 0 <= k < pd.hash_state@.len()
                        ==> final(builder).target_in_bounds(#[trigger] pd.hash_state@[k])
                    // each message's final chunk boundary exposes its digest
                    // bytes, 4-byte groups reversed into word order
                    &&& forall|m2: int, p: int|
                        0 <= m2 < chunk_sizes@.len() && 0 <= p < 32
                            ==> #[trigger] pd.hash_state@[
                                32 * chunks_before(chunk_sizes@, m2 + 1) - 32 + p]
                                == digests@[32 * m2 + 4 * (p / 4) + 3 - (p % 4)]
                },
                Err(e) => {
                    &&& e == crate::errors::CircuitError::CellLimitExceeded
                    &&& old(builder).parent@.len() + end_bits_pattern(chunk_sizes@).len()
                        + 32 * total_chunks(chunk_sizes@) > usize::MAX
                },
            },
    {
        let dn = digests.len();
        proof {
            lemma_end_bits_one_per_message(chunk_sizes@);
            lemma_total_nonneg(chunk_sizes@);
            assert(dn == digests@.len());
        }
        let flag_vals = end_bit_values(chunk_sizes);
        let mut end_bits: Vec<Target> = Vec::new();
        let mut j: usize = 0;
        while j < flag_vals.len()
            invariant
                j <= flag_vals@.len(),
                flag_vals@ == end_bits_pattern(chunk_sizes@),
                builder.wf(),
                builder.extends(*old(builder)),
                builder.parent@.len() == old(builder).parent@.len() + j,
                end_bits@.len() == j,
                builder.constants@ =~= old(builder).constants@ + Seq::new(
                    j as nat,
                    |k: int| (end_bits@[k], end_bits_pattern(chunk_sizes@)[k]),
                ),
                forall|k: int| 0 <= k < j
                    ==> builder.target_in_bounds(#[trigger] end_bits@[k]),
            decreases flag_vals@.len() - j,
        {
            let c = match builder.constant(flag_vals[j]) {
                Ok(c) => c,
                Err(e) => {
                    return Err(e);
                },
            };
            end_bits.push(c);
            proof {
                assert(builder.constants@ =~= old(builder).constants@ + Seq::new(
                    (j + 1) as nat,
                    |k: int| (end_bits@[k], end_bits_pattern(chunk_sizes@)[k]),
                ));
            }
            j = j + 1;
        }
        let ghost cs_done = builder.constants@;
        let mut hash_state: Vec<Target> = Vec::new();
        let mut m: usize = 0;
        proof {
            assert(chunk_sizes@.take(0) =~= Seq::<usize>::empty());
        }
        while m < chunk_sizes.len()
            invariant
                m <= chunk_sizes@.len(),
                digests@.len() == 32 * chunk_sizes@.len(),
                forall|mm: int| 0 <= mm < chunk_sizes@.len()
                    ==> #[trigger] chunk_sizes@[mm] >= 1,
                builder.wf(),
                builder.extends(*old(builder)),
                builder.constants@ == cs_done,
                builder.parent@.len() <= old(builder).parent@.len()
                    + end_bits_pattern(chunk_sizes@).len()
                    + 32 * chunks_before(chunk_sizes@, m as int),
                forall|i: int| 0 <= i < digests@.len()
                    ==> builder.target_in_bounds(#[trigger] digests@[i]),
                end_bits@.len() == end_bits_pattern(chunk_sizes@).len(),
                forall|k: int| 0 <= k < end_bits@.len()
                    ==> builder.target_in_bounds(#[trigger] end_bits@[k]),
                hash_state@.len() == 32 * chunks_before(chunk_sizes@, m as int),
                forall|k: int| 0 <= k < hash_state@.len()
                    ==> builder.target_in_bounds(#[trigger] hash_state@[k]),
                forall|m2: int, p: int|
                    0 <= m2 < m && 0 <= p < 32
                        ==> #[trigger] hash_state@[
                            32 * chunks_before(chunk_sizes@, m2 + 1) - 32 + p]
                            == digests@[32 * m2 + 4 * (p / 4) + 3 - (p % 4)],
            decreases chunk_sizes@.len() - m,
        {
            let c = chunk_sizes[m];
            let ghost hs0 = hash_state@;
            proof {
                lemma_total_take_push(chunk_sizes@, m as int);
                lemma_chunks_before_monotone(chunk_sizes@, m as int + 1,
                    chunk_sizes@.len() as int);
                lemma_total_nonneg(chunk_sizes@.take(m as int));
            }
            let mut cb: usize = 0;
            while cb < c - 1
                invariant
                    cb <= c - 1,
                    c == chunk_sizes@[m as int],
                    c >= 1,
                    m < chunk_sizes@.len(),
                    builder.wf(),
                    builder.extends(*old(builder)),
                    builder.constants@ == cs_done,
                    builder.parent@.len() <= old(builder).parent@.len()
                        + end_bits_pattern(chunk_sizes@).len()
                        + 32 * (chunks_before(chunk_sizes@, m as int) + cb),
                    hash_state@.len() == 32 * (chunks_before(chunk_sizes@, m as int) + cb),
                    hs0.len() == 32 * chunks_before(chunk_sizes@, m as int),
                    forall|k: int| 0 <= k < hs0.len() ==> #[trigger] hash_state@[k] == hs0[k],
                    forall|k: int| 0 <= k < hash_state@.len()
                        ==> builder.target_in_bounds(#[trigger] hash_state@[k]),
                    forall|k: int| 0 <= k < end_bits@.len()
                        ==> builder.target_in_bounds(#[trigger] end_bits@[k]),
                    forall|i3: int| 0 <= i3 < digests@.len()
                        ==> builder.target_in_bounds(#[trigger] digests@[i3]),
                decreases c - 1 - cb,
            {
                let mut b2: usize = 0;
                while b2 < 32
                    invariant
                        b2 <= 32,
                        builder.wf(),
                        builder.extends(*old(builder)),
                        builder.constants@ == cs_done,
                        builder.parent@.len() <= old(builder).parent@.len()
                            + end_bits_pattern(chunk_sizes@).len()
                            + 32 * (chunks_before(chunk_sizes@, m as int) + cb) + b2,
                        hash_state@.len()
                            == 32 * (chunks_before(chunk_sizes@, m as int) + cb) + b2,
                        hs0.len() == 32 * chunks_before(chunk_sizes@, m as int),
                        forall|k: int| 0 <= k < hs0.len()
                            ==> #[trigger] hash_state@[k] == hs0[k],
                        forall|k: int| 0 <= k < hash_state@.len()
                            ==> builder.target_in_bounds(#[trigger] hash_state@[k]),
                        forall|k: int| 0 <= k < end_bits@.len()
                            ==> builder.target_in_bounds(#[trigger] end_bits@[k]),
                        forall|i3: int| 0 <= i3 < digests@.len()
                            ==> builder.target_in_bounds(#[trigger] digests@[i3]),
                    decreases 32 - b2,
                {
                    let v = match builder.add_virtual_target() {
                        Ok(v) => v,
                        Err(e) => {
                            proof {
                                lemma_chunks_before_monotone(chunk_sizes@, m as int + 1,
                                    chunk_sizes@.len() as int);
                                lemma_total_take_push(chunk_sizes@, m as int);
                                assert(32 * (chunks_before(chunk_sizes@, m as int) + cb) + b2
                                    <= 32 * chunks_before(chunk_sizes@, m as int)
                                        + 32 * c - 64 + 31);
                                assert(32 * (chunks_before(chunk_sizes@, m as int) + cb) + b2
                                    < 32 * chunks_before(chunk_sizes@, m as int + 1) - 32);
                                assert(chunk_sizes@.take(chunk_sizes@.len() as int)
                                    =~= chunk_sizes@);
                                assert(chunks_before(chunk_sizes@, m as int + 1)
                                    <= total_chunks(chunk_sizes@));
                                assert(builder.parent@.len() == usize::MAX);
                            }
                            return Err(e);
                        },
                    };
                    hash_state.push(v);
                    b2 = b2 + 1;
                }
                cb = cb + 1;
            }
            let mut p: usize = 0;
            while p < 32
                invariant
                    p <= 32,
                    c == chunk_sizes@[m as int],
                    c >= 1,
                    m < chunk_sizes@.len(),
                    digests@.len() == 32 * chunk_sizes@.len(),
                    builder.wf(),
                    builder.extends(*old(builder)),
                    builder.constants@ == cs_done,
                    builder.parent@.len() <= old(builder).parent@.len()
                        + end_bits_pattern(chunk_sizes@).len()
                        + 32 * (chunks_before(chunk_sizes@, m as int) + c - 1),
                    forall|i: int| 0 <= i < digests@.len()
                        ==> builder.target_in_bounds(#[trigger] digests@[i]),
                    hash_state@.len()
                        == 32 * (chunks_before(chunk_sizes@, m as int) + c - 1) + p,
                    hs0.len() == 32 * chunks_before(chunk_sizes@, m as int),
                    forall|k: int| 0 <= k < hs0.len() ==> #[trigger] hash_state@[k] == hs0[k],
                    forall|k: int| 0 <= k < hash_state@.len()
                        ==> builder.target_in_bounds(#[trigger] hash_state@[k]),
                    forall|k: int| 0 <= k < end_bits@.len()
                        ==> builder.target_in_bounds(#[trigger] end_bits@[k]),
                    forall|q: int| 0 <= q < p
                        ==> #[trigger] hash_state@[
                            32 * (chunks_before(chunk_sizes@, m as int) + c - 1) + q]
                            == digests@[32 * m + 4 * (q / 4) + 3 - (q % 4)],
                decreases 32 - p,
            {
                let gi = p / 4;
                let bi = p % 4;
                proof {
                    assert(gi <= 7 && bi <= 3);
                    assert(32 * m + 32 <= 32 * chunk_sizes@.len());
                    assert(digests@.len() <= usize::MAX);
                    assert(32 * m + 4 * gi + 3 - bi < digests@.len());
                }
                hash_state.push(digests[32 * m + 4 * gi + 3 - bi]);
                p = p + 1;
            }
            proof {
                assert(hash_state@.len() == 32 * chunks_before(chunk_sizes@, m as int + 1));
                assert forall|m2: int, q: int|
                    0 <= m2 < m + 1 && 0 <= q < 32
                        implies #[trigger] hash_state@[
                            32 * chunks_before(chunk_sizes@, m2 + 1) - 32 + q]
                            == digests@[32 * m2 + 4 * (q / 4) + 3 - (q % 4)] by {
                    if m2 < m {
                        lemma_chunks_before_monotone(chunk_sizes@, m2 + 1, m as int);
                        lemma_chunks_prefix(chunk_sizes@, m2);
                        lemma_total_take_push(chunk_sizes@, m2);
                        lemma_total_nonneg(chunk_sizes@.take(m2));
                        assert(chunks_before(chunk_sizes@, m2 + 1) >= 1);
                        assert(32 * chunks_before(chunk_sizes@, m2 + 1) - 32 + q
                            < hs0.len());
                        assert(hash_state@[32 * chunks_before(chunk_sizes@, m2 + 1)
                            - 32 + q]
                            == hs0[32 * chunks_before(chunk_sizes@, m2 + 1) - 32 + q]);
                    } else {
                        assert(chunks_before(chunk_sizes@, m as int + 1)
                            == chunks_before(chunk_sizes@, m as int) + c);
                    }
                }
            }
            m = m + 1;
        }
        proof {
            assert(chunk_sizes@.take(chunk_sizes@.len() as int) =~= chunk_sizes@);
        }
        Ok(BLAKE2BPublicData { hash_state, end_bits })
    }

    /// The ordered public inputs of the batch: the compiled-in hash
    /// initialization constants (as fresh constant cells carrying the
    /// little-endian bytes of the initial state words — BLAKE2B has no
    /// separate additive round-constant table), then the chunk-boundary
    /// state bytes, then the end-of-message flags.
    #[verifier::loop_isolation(false)]
    pub fn public_input_targets(&self, builder: &mut CircuitBuilder) -> (r: Result<
        Vec<Target>,
        crate::errors::CircuitError,
    >)
        requires
            old(builder).wf(),
        ensures
            final(builder).wf(),
            final(builder).extends(*old(builder)),
            match r {
                Ok(v) => {
                    &&& v@.len() == 64 + self.hash_state@.len() + self.end_bits@.len()
                    &&& v@.subrange(64, v@.len() as int)
                        == self.hash_state@ + self.end_bits@
                    &&& final(builder).constants@ == old(builder).constants@ + Seq::new(
                        64,
                        |j: int| (v@[j], initialization_bytes()[j]),
                    )
                    &&& forall|j: int| 0 <= j < 64
                        ==> final(builder).target_in_bounds(#[trigger] v@[j])
                },
                Err(e) => {
                    &&& e == crate::errors::CircuitError::CellLimitExceeded
                    &&& old(builder).parent@.len() + 64 > usize::MAX
                },
            },
    {
        let isv = initial_state_vec();
        let mut r: Vec<Target> = Vec::new();
        let mut j: usize = 0;
        while j < 64
            invariant
                j <= 64,
                isv@ == initial_state(),
                builder.wf(),
                builder.extends(*old(builder)),
                builder.parent@.len() == old(builder).parent@.len() + j,
                r@.len() == j,
                builder.constants@ =~= old(builder).constants@ + Seq::new(
                    j as nat,
                    |k: int| (r@[k], initialization_bytes()[k]),
                ),
                forall|k: int| 0 <= k < j
                    ==> builder.target_in_bounds(#[trigger] r@[k]),
            decreases 64 - j,
        {
            let w = isv[j / 8];
            let sh: u64 = (8 * (j % 8)) as u64;
            let byte = ((w >> sh) & 0xff) as u64;
            proof {
                assert((w >> sh) & 0xff < 256) by (bit_vector);
                assert(byte == initialization_bytes()[j as int]) by {
                    assert(initial_state()[j as int / 8] == w);
                    assert(word_byte(w, j as int % 8)
                        == (((w >> sh) & 0xff) as u8));
                }
            }
            let c = match builder.constant(byte) {
                Ok(c) => c,
                Err(e) => {
                    return Err(e);
                },
            };
            r.push(c);
            proof {
                assert(builder.constants@ =~= old(builder).constants@ + Seq::new(
                    (j + 1) as nat,
                    |k: int| (r@[k], initialization_bytes()[k]),
                ));
            }
            j = j + 1;
        }
        let ghost r64 = r@;
        let mut i: usize = 0;
        while i < self.hash_state.len()
            invariant
                i <= self.hash_state@.len(),
                r@ =~= r64 + self.hash_state@.take(i as int),
                r64.len() == 64,
            decreases self.hash_state@.len() - i,
        {
            r.push(self.hash_state[i]);
            i = i + 1;
        }
        let mut i2: usize = 0;
        while i2 < self.end_bits.len()
            invariant
                i2 <= self.end_bits@.len(),
                r@ =~= r64 + self.hash_state@ + self.end_bits@.take(i2 as int),
                r64.len() == 64,
            decreases self.end_bits@.len() - i2,
        {
            r.push(self.end_bits[i2]);
            i2 = i2 + 1;
        }
        proof {
            assert(r@ =~= r64 + self.hash_state@ + self.end_bits@);
            assert(r@.subrange(64, r@.len() as int)
                =~= self.hash_state@ + self.end_bits@);
            assert forall|k: int| 0 <= k < 64 implies r@[k] == r64[k] by {}
        }
        Ok(r)
    }
}

/// The end-of-message flag values of a batch, executable.
#[verifier::loop_isolation(false)]
pub fn end_bit_values(chunk_sizes: &Vec<usize>) -> (r: Vec<u64>)
    requires
        forall|m: int| 0 <= m < chunk_sizes@.len() ==> #[trigger] chunk_sizes@[m] >= 1,
    ensures
        r@ == end_bits_pattern(chunk_sizes@),
{
    let mut r: Vec<u64> = Vec::new();
    let mut m: usize = 0;
    proof {
        assert(chunk_sizes@.take(0) =~= Seq::<usize>::empty());
    }
    while m < chunk_sizes.len()
        invariant
            m <= chunk_sizes@.len(),
            r@ =~= end_bits_pattern(chunk_sizes@.take(m as int)),
        decreases chunk_sizes@.len() - m,
    {
        let c = chunk_sizes[m];
        let mut i: usize = 0;
        while i < c
            invariant
                i <= c,
                c == chunk_sizes@[m as int],
                c >= 1,
                m < chunk_sizes@.len(),
                r@ =~= end_bits_pattern(chunk_sizes@.take(m as int))
                    + msg_pattern(c).take(i as int),
            decreases c - i,
        {
            if i == c - 1 {
                r.push(1);
            } else {
                r.push(0);
            }
            i = i + 1;
        }
        proof {
            lemma_pattern_take_push(chunk_sizes@, m as int);
            assert(msg_pattern(c).take(c as int) =~= msg_pattern(c));
        }
        m = m + 1;
    }
    proof {
        assert(chunk_sizes@.take(chunk_sizes@.len() as int) =~= chunk_sizes@);
    }
    r
}

/// Extending a batch by one message appends that message's flag pattern.
pub proof fn lemma_pattern_take_push(chunk_sizes: Seq<usize>, m: int)
    requires
        0 <= m < chunk_sizes.len(),
    ensures
        end_bits_pattern(chunk_sizes.take(m + 1)) == end_bits_pattern(chunk_sizes.take(m))
            + msg_pattern(chunk_sizes[m]),
    decreases m,
{
    if m == 0 {
        assert(chunk_sizes.take(1).drop_first() =~= Seq::<usize>::empty());
        assert(chunk_sizes.take(0) =~= Seq::<usize>::empty());
        assert(chunk_sizes.take(1)[0] == chunk_sizes[0]);
        assert(end_bits_pattern(chunk_sizes.take(1))
            == msg_pattern(chunk_sizes.take(1)[0])
                + end_bits_pattern(chunk_sizes.take(1).drop_first()));
        assert(end_bits_pattern(chunk_sizes.take(1))
            =~= Seq::empty() + msg_pattern(chunk_sizes[0]));
        assert(end_bits_pattern(chunk_sizes.take(0)) + msg_pattern(chunk_sizes[0])
            =~= end_bits_pattern(chunk_sizes.take(1)));
    } else {
        lemma_pattern_take_push(chunk_sizes.drop_first(), m - 1);
        assert(chunk_sizes.take(m + 1).drop_first() =~= chunk_sizes.drop_first().take(m));
        assert(chunk_sizes.take(m).drop_first() =~= chunk_sizes.drop_first().take(m - 1));
        assert(chunk_sizes.drop_first()[m - 1] == chunk_sizes[m]);
        assert(end_bits_pattern(chunk_sizes.take(m + 1))
            =~= end_bits_pattern(chunk_sizes.take(m)) + msg_pattern(chunk_sizes[m]));
    }
}

/// Everything one batched hash proof needs at witness time: the gadget's
/// cells, the byte table its range claims feed, the padded message cells and
/// chunk counts, and the public-value cells.  The trace layout itself
/// belongs to the proving backend.
pub struct BLAKE2BGenerator {
    pub gadget: BLAKE2BGadget,
    pub table: crate::byte_table::ByteLookupTable,
    pub padded_messages: Vec<Target>,
    pub chunk_sizes: Vec<usize>,
    pub pub_values_target: BLAKE2BPublicData,
}

} // verus!
