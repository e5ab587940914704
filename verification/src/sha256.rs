//! SHA-256, as FIPS 180-4 defines it.
//!
//! The promise of a burn is that the bytes on the stick are the bytes in the image, so the hash is
//! the one part that must never be unavailable or wrong.

use vstd::prelude::*;
use vstd::slice::slice_subrange;
use vstd::string::*;


verus! {

// ---- the standard ---------------------------------------------------------------------------

/// The round constants: the first bits of the fractional parts of the cube roots of the first
/// sixty-four primes.
pub const ROUND: [u32; 64] = [
    0x428a2f98, 0x71374491, 0xb5c0fbcf, 0xe9b5dba5, 0x3956c25b, 0x59f111f1, 0x923f82a4, 0xab1c5ed5,
    0xd807aa98, 0x12835b01, 0x243185be, 0x550c7dc3, 0x72be5d74, 0x80deb1fe, 0x9bdc06a7, 0xc19bf174,
    0xe49b69c1, 0xefbe4786, 0x0fc19dc6, 0x240ca1cc, 0x2de92c6f, 0x4a7484aa, 0x5cb0a9dc, 0x76f988da,
    0x983e5152, 0xa831c66d, 0xb00327c8, 0xbf597fc7, 0xc6e00bf3, 0xd5a79147, 0x06ca6351, 0x14292967,
    0x27b70a85, 0x2e1b2138, 0x4d2c6dfc, 0x53380d13, 0x650a7354, 0x766a0abb, 0x81c2c92e, 0x92722c85,
    0xa2bfe8a1, 0xa81a664b, 0xc24b8b70, 0xc76c51a3, 0xd192e819, 0xd6990624, 0xf40e3585, 0x106aa070,
    0x19a4c116, 0x1e376c08, 0x2748774c, 0x34b0bcb5, 0x391c0cb3, 0x4ed8aa4a, 0x5b9cca4f, 0x682e6ff3,
    0x748f82ee, 0x78a5636f, 0x84c87814, 0x8cc70208, 0x90befffa, 0xa4506ceb, 0xbef9a3f7, 0xc67178f2,
];

/// The initial state: the first bits of the fractional parts of the square roots of the first
/// eight primes.
pub const START: [u32; 8] = [
    0x6a09e667, 0xbb67ae85, 0x3c6ef372, 0xa54ff53a, 0x510e527f, 0x9b05688c, 0x1f83d9ab, 0x5be0cd19,
];

/// Addition modulo 2^32.
pub open spec fn plus(a: u32, b: u32) -> u32 {
    ((a + b) % 0x1_0000_0000) as u32
}

pub open spec fn rotated(x: u32, n: u32) -> u32 {
    (x >> n) | (x << ((32 - n) as u32))
}

pub open spec fn choice(x: u32, y: u32, z: u32) -> u32 {
    (x & y) ^ (!x & z)
}

pub open spec fn majority(x: u32, y: u32, z: u32) -> u32 {
    (x & y) ^ (x & z) ^ (y & z)
}

pub open spec fn big_sigma0(x: u32) -> u32 {
    rotated(x, 2) ^ rotated(x, 13) ^ rotated(x, 22)
}

pub open spec fn big_sigma1(x: u32) -> u32 {
    rotated(x, 6) ^ rotated(x, 11) ^ rotated(x, 25)
}

pub open spec fn small_sigma0(x: u32) -> u32 {
    rotated(x, 7) ^ rotated(x, 18) ^ (x >> 3u32)
}

pub open spec fn small_sigma1(x: u32) -> u32 {
    rotated(x, 17) ^ rotated(x, 19) ^ (x >> 10u32)
}

/// The word that four bytes of a block write, the greatest byte first.
pub open spec fn word_at(block: Seq<u8>, t: int) -> u32 {
    (0x1000000 * block[4 * t] + 0x10000 * block[4 * t + 1] + 0x100 * block[4 * t + 2] + block[4 * t
        + 3]) as u32
}

/// Word `t` of the message schedule of a block.
pub open spec fn schedule(block: Seq<u8>, t: nat) -> u32
    decreases t,
{
    if t < 16 {
        word_at(block, t as int)
    } else {
        plus(
            plus(
                plus(
                    small_sigma1(schedule(block, (t - 2) as nat)),
                    schedule(block, (t - 7) as nat),
                ),
                small_sigma0(schedule(block, (t - 15) as nat)),
            ),
            schedule(block, (t - 16) as nat),
        )
    }
}

/// The eight working variables.
pub struct Working {
    pub a: u32,
    pub b: u32,
    pub c: u32,
    pub d: u32,
    pub e: u32,
    pub f: u32,
    pub g: u32,
    pub h: u32,
}

/// One round with the round constant `k` and the schedule word `w`.
pub open spec fn round(v: Working, k: u32, w: u32) -> Working {
    let t1 = plus(plus(plus(plus(v.h, big_sigma1(v.e)), choice(v.e, v.f, v.g)), k), w);
    let t2 = plus(big_sigma0(v.a), majority(v.a, v.b, v.c));
    Working {
        a: plus(t1, t2),
        b: v.a,
        c: v.b,
        d: v.c,
        e: plus(v.d, t1),
        f: v.e,
        g: v.f,
        h: v.g,
    }
}

/// The working variables after `t` rounds.
pub open spec fn rounds(v: Working, block: Seq<u8>, t: nat) -> Working
    decreases t,
{
    if t == 0 {
        v
    } else {
        round(rounds(v, block, (t - 1) as nat), ROUND@[t - 1], schedule(block, (t - 1) as nat))
    }
}

/// The state after one block.
#[verifier::opaque]
pub open spec fn compressed(h: Seq<u32>, block: Seq<u8>) -> Seq<u32> {
    let v = rounds(
        Working { a: h[0], b: h[1], c: h[2], d: h[3], e: h[4], f: h[5], g: h[6], h: h[7] },
        block,
        64,
    );
    seq![
        plus(h[0], v.a),
        plus(h[1], v.b),
        plus(h[2], v.c),
        plus(h[3], v.d),
        plus(h[4], v.e),
        plus(h[5], v.f),
        plus(h[6], v.g),
        plus(h[7], v.h),
    ]
}

/// The state after all whole blocks of some bytes.
pub open spec fn absorbed(h: Seq<u32>, bytes: Seq<u8>) -> Seq<u32>
    decreases bytes.len(),
{
    if bytes.len() < 64 {
        h
    } else {
        absorbed(compressed(h, bytes.take(64)), bytes.skip(64))
    }
}

/// The eight bytes of a number, the greatest first.
pub open spec fn big_end(n: u64) -> Seq<u8> {
    seq![
        (n / 0x100000000000000) as u8,
        (n / 0x1000000000000 % 0x100) as u8,
        (n / 0x10000000000 % 0x100) as u8,
        (n / 0x100000000 % 0x100) as u8,
        (n / 0x1000000 % 0x100) as u8,
        (n / 0x10000 % 0x100) as u8,
        (n / 0x100 % 0x100) as u8,
        (n % 0x100) as u8,
    ]
}

/// How many zero bytes stand between the end mark and the length.
pub open spec fn zeros_after(len: nat) -> nat {
    if len % 64 < 56 {
        (55 - len % 64) as nat
    } else {
        (119 - len % 64) as nat
    }
}

/// What follows a message: an end mark, zeros, and the length of the message in bits.
pub open spec fn padding(len: nat) -> Seq<u8> {
    seq![0x80u8] + Seq::new(zeros_after(len), |i: int| 0u8) + big_end(
        ((8 * len) % 0x1_0000_0000_0000_0000) as u64,
    )
}

/// The bytes of the state, each word with its greatest byte first.
pub open spec fn state_bytes(h: Seq<u32>) -> Seq<u8> {
    Seq::new(
        32,
        |i: int|
            if i % 4 == 0 {
                (h[i / 4] / 0x1000000) as u8
            } else if i % 4 == 1 {
                (h[i / 4] / 0x10000 % 0x100) as u8
            } else if i % 4 == 2 {
                (h[i / 4] / 0x100 % 0x100) as u8
            } else {
                (h[i / 4] % 0x100) as u8
            },
    )
}

/// The hash of a message.
pub open spec fn digest(message: Seq<u8>) -> Seq<u8> {
    state_bytes(absorbed(START@, message + padding(message.len())))
}

// ---- the computation ------------------------------------------------------------------------

fn sum(a: u32, b: u32) -> (r: u32)
    ensures
        r == plus(a, b),
{
    a.wrapping_add(b)
}

fn rotate(x: u32, n: u32) -> (r: u32)
    requires
        0 < n < 32,
    ensures
        r == rotated(x, n),
{
    (x >> n) | (x << (32 - n))
}

fn word(block: &[u8], t: usize) -> (r: u32)
    requires
        block@.len() == 64,
        t < 16,
    ensures
        r == word_at(block@, t as int),
{
    let i: usize = 4 * t;
    0x1000000 * block[i] as u32 + 0x10000 * block[i + 1] as u32 + 0x100 * block[i + 2] as u32 + block[i
        + 3] as u32
}

fn scheduled(block: &[u8]) -> (w: [u32; 64])
    requires
        block@.len() == 64,
    ensures
        forall|t: int| 0 <= t < 64 ==> #[trigger] w@[t] == schedule(block@, t as nat),
{
    let mut w: [u32; 64] = [0u32; 64];
    let mut t: usize = 0;
    while t < 16
        invariant
            t <= 16,
            block@.len() == 64,
            forall|j: int| 0 <= j < t ==> #[trigger] w@[j] == schedule(block@, j as nat),
        decreases 16 - t,
    {
        w[t] = word(block, t);
        t += 1;
    }
    while t < 64
        invariant
            16 <= t <= 64,
            forall|j: int| 0 <= j < t ==> #[trigger] w@[j] == schedule(block@, j as nat),
        decreases 64 - t,
    {
        let x: u32 = w[t - 2];
        let y: u32 = w[t - 15];
        let s1: u32 = rotate(x, 17) ^ rotate(x, 19) ^ (x >> 10u32);
        let s0: u32 = rotate(y, 7) ^ rotate(y, 18) ^ (y >> 3u32);
        let v: u32 = sum(sum(sum(s1, w[t - 7]), s0), w[t - 16]);
        assert(v == schedule(block@, t as nat));
        w[t] = v;
        t += 1;
    }
    w
}

fn one_round(v: &Working, k: u32, w: u32) -> (r: Working)
    ensures
        r == round(*v, k, w),
{
    let s1: u32 = rotate(v.e, 6) ^ rotate(v.e, 11) ^ rotate(v.e, 25);
    let ch: u32 = (v.e & v.f) ^ (!v.e & v.g);
    let t1: u32 = sum(sum(sum(sum(v.h, s1), ch), k), w);
    let s0: u32 = rotate(v.a, 2) ^ rotate(v.a, 13) ^ rotate(v.a, 22);
    let maj: u32 = (v.a & v.b) ^ (v.a & v.c) ^ (v.b & v.c);
    let t2: u32 = sum(s0, maj);
    Working {
        a: sum(t1, t2),
        b: v.a,
        c: v.b,
        d: v.c,
        e: sum(v.d, t1),
        f: v.e,
        g: v.f,
        h: v.g,
    }
}

fn compress(h: &[u32; 8], block: &[u8]) -> (r: [u32; 8])
    requires
        block@.len() == 64,
    ensures
        r@ == compressed(h@, block@),
{
    let w: [u32; 64] = scheduled(block);
    let ghost first = Working {
        a: h@[0],
        b: h@[1],
        c: h@[2],
        d: h@[3],
        e: h@[4],
        f: h@[5],
        g: h@[6],
        h: h@[7],
    };
    let mut v: Working = Working {
        a: h[0],
        b: h[1],
        c: h[2],
        d: h[3],
        e: h[4],
        f: h[5],
        g: h[6],
        h: h[7],
    };
    let mut t: usize = 0;
    while t < 64
        invariant
            t <= 64,
            v == rounds(first, block@, t as nat),
            forall|j: int| 0 <= j < 64 ==> #[trigger] w@[j] == schedule(block@, j as nat),
        decreases 64 - t,
    {
        v = one_round(&v, ROUND[t], w[t]);
        t += 1;
    }
    let r: [u32; 8] = [
        sum(h[0], v.a),
        sum(h[1], v.b),
        sum(h[2], v.c),
        sum(h[3], v.d),
        sum(h[4], v.e),
        sum(h[5], v.f),
        sum(h[6], v.g),
        sum(h[7], v.h),
    ];
    assert(r@ =~= compressed(h@, block@)) by {
        reveal(compressed);
    }
    r
}

/// Hashing can go on from any block boundary: the state after two pieces, the first of whole
/// blocks, is that of the second piece from the state after the first.
pub proof fn law_hashing_goes_on(h: Seq<u32>, a: Seq<u8>, b: Seq<u8>)
    requires
        a.len() % 64 == 0,
    ensures
        absorbed(h, a + b) == absorbed(absorbed(h, a), b),
    decreases a.len(),
{
    if a.len() == 0 {
        assert(a + b =~= b);
    } else {
        assert((a + b).take(64) =~= a.take(64));
        assert((a + b).skip(64) =~= a.skip(64) + b);
        law_hashing_goes_on(compressed(h, a.take(64)), a.skip(64), b);
    }
}

proof fn lemma_one_block(h: Seq<u32>, done: Seq<u8>, block: Seq<u8>)
    requires
        done.len() % 64 == 0,
        block.len() == 64,
    ensures
        absorbed(h, done + block) == compressed(absorbed(h, done), block),
{
    law_hashing_goes_on(h, done, block);
    let s = absorbed(h, done);
    assert(block.take(64) =~= block);
    assert(absorbed(s, block) == absorbed(compressed(s, block), block.skip(64)));
}

proof fn lemma_next_byte(done: Seq<u8>, buffer: Seq<u8>, before: Seq<u8>, data: Seq<u8>, i: int)
    requires
        0 <= i < data.len(),
        done + buffer == before + data.take(i),
    ensures
        done + buffer.push(data[i]) == before + data.take(i + 1),
{
    assert(data.take(i + 1) =~= data.take(i).push(data[i]));
    assert(done + buffer.push(data[i]) =~= (done + buffer).push(data[i]));
    assert(before + data.take(i).push(data[i]) =~= (before + data.take(i)).push(data[i]));
}

proof fn lemma_next_block(done: Seq<u8>, buffer: Seq<u8>, before: Seq<u8>, data: Seq<u8>, i: int)
    requires
        0 <= i <= data.len() - 64,
        buffer.len() == 0,
        done + buffer == before + data.take(i),
    ensures
        (done + data.subrange(i, i + 64)) + buffer == before + data.take(i + 64),
{
    let block = data.subrange(i, i + 64);
    assert(data.take(i + 64) =~= data.take(i) + block);
    assert(done + buffer =~= done);
    assert((done + block) + buffer =~= done + block);
    assert(before + (data.take(i) + block) =~= (before + data.take(i)) + block);
}

/// A hash in the making. Its view is what it has been fed so far.
pub struct Sha256 {
    state: [u32; 8],
    buffer: Vec<u8>,
    total: u64,
    done: Ghost<Seq<u8>>,
}

impl View for Sha256 {
    type V = Seq<u8>;

    closed spec fn view(&self) -> Seq<u8> {
        self.done@ + self.buffer@
    }
}

impl Sha256 {
    pub closed spec fn wf(&self) -> bool {
        &&& self.done@.len() % 64 == 0
        &&& self.buffer@.len() < 64
        &&& self.state@ == absorbed(START@, self.done@)
        &&& self.total == (self.done@.len() + self.buffer@.len()) % 0x1_0000_0000_0000_0000
    }

    pub fn new() -> (r: Self)
        ensures
            r.wf(),
            r@ == Seq::<u8>::empty(),
    {
        let r = Sha256 {
            state: START,
            buffer: Vec::new(),
            total: 0,
            done: Ghost(Seq::empty()),
        };
        assert(r@ =~= Seq::<u8>::empty());
        r
    }

    /// Feed it more bytes.
    pub fn update(&mut self, data: &[u8])
        requires
            old(self).wf(),
        ensures
            final(self).wf(),
            final(self)@ == old(self)@ + data@,
    {
        let n: usize = data.len();
        let ghost before = self@;
        let mut i: usize = 0;
        let mut state: [u32; 8] = self.state;
        let mut buffer: Vec<u8> = Vec::new();
        buffer.append(&mut self.buffer);
        let ghost mut done = self.done@;
        assert(data@.take(0) =~= Seq::<u8>::empty());
        assert(done + buffer@ =~= before + data@.take(0));
        if buffer.len() > 0 {
            while i < n && buffer.len() < 64
                invariant
                    i <= n == data@.len(),
                    buffer@.len() <= 64,
                    done + buffer@ == before + data@.take(i as int),
                decreases n - i,
            {
                proof {
                    lemma_next_byte(done, buffer@, before, data@, i as int);
                }
                buffer.push(data[i]);
                i += 1;
            }
            if buffer.len() == 64 {
                proof {
                    lemma_one_block(START@, done, buffer@);
                    done = done + buffer@;
                }
                state = compress(&state, &buffer);
                buffer = Vec::new();
                assert(done + buffer@ =~= done);
            }
        }
        if buffer.len() == 0 {
            while n - i >= 64
                invariant
                    i <= n == data@.len(),
                    buffer@.len() == 0,
                    done.len() % 64 == 0,
                    state@ == absorbed(START@, done),
                    done + buffer@ == before + data@.take(i as int),
                decreases n - i,
            {
                let block: &[u8] = slice_subrange(data, i, i + 64);
                proof {
                    lemma_one_block(START@, done, block@);
                    lemma_next_block(done, buffer@, before, data@, i as int);
                    done = done + block@;
                }
                state = compress(&state, block);
                i += 64;
            }
            while i < n
                invariant
                    i <= n == data@.len(),
                    buffer@.len() + (n - i) < 64,
                    done + buffer@ == before + data@.take(i as int),
                decreases n - i,
            {
                proof {
                    lemma_next_byte(done, buffer@, before, data@, i as int);
                }
                buffer.push(data[i]);
                i += 1;
            }
        }
        assert(i == n);
        assert(data@.take(n as int) =~= data@);
        assert(done.len() + buffer@.len() == before.len() + n);
        self.total = self.total.wrapping_add(n as u64);
        self.state = state;
        self.buffer = buffer;
        proof {
            self.done@ = done;
        }
    }

    /// The hash of everything it was fed.
    pub fn finish(&self) -> (r: [u8; 32])
        requires
            self.wf(),
        ensures
            r@ == digest(self@),
    {
        let ghost message = self@;
        let mut tail: Vec<u8> = self.buffer.clone();
        assert(tail@ =~= self.buffer@);
        let used: usize = tail.len();
        let zeros: usize = if used < 56 {
            55 - used
        } else {
            119 - used
        };
        assert(message.len() % 64 == used);
        assert(zeros == zeros_after(message.len()));
        tail.push(0x80);
        let mut i: usize = 0;
        while i < zeros
            invariant
                i <= zeros,
                tail@ == self.buffer@ + seq![0x80u8] + Seq::new(i as nat, |j: int| 0u8),
            decreases zeros - i,
        {
            tail.push(0);
            i += 1;
            assert(tail@ =~= self.buffer@ + seq![0x80u8] + Seq::new(i as nat, |j: int| 0u8));
        }
        let bits: u64 = self.total.wrapping_mul(8);
        assert(bits == (8 * message.len()) % 0x1_0000_0000_0000_0000) by {
            vstd::arithmetic::div_mod::lemma_mul_mod_noop_left(
                message.len() as int,
                8,
                0x1_0000_0000_0000_0000,
            );
        }
        push_big_end(&mut tail, bits);
        assert(tail@ =~= self.buffer@ + padding(message.len()));
        assert(message + padding(message.len()) =~= self.done@ + tail@);
        proof {
            law_hashing_goes_on(START@, self.done@, tail@);
        }
        assert(tail@.len() == 64 || tail@.len() == 128);
        let first: &[u8] = slice_subrange(&tail, 0, 64);
        let mut state: [u32; 8] = compress(&self.state, first);
        assert(first@ =~= tail@.take(64));
        assert(absorbed(self.state@, tail@) == absorbed(state@, tail@.skip(64)));
        if tail.len() == 128 {
            let second: &[u8] = slice_subrange(&tail, 64, 128);
            assert(second@ =~= tail@.skip(64));
            proof {
                assert(second@.take(64) =~= second@);
                assert(absorbed(state@, second@) == absorbed(
                    compressed(state@, second@),
                    second@.skip(64),
                ));
            }
            state = compress(&state, second);
        }
        assert(state@ == absorbed(self.state@, tail@));
        to_bytes(&state)
    }
}

fn push_big_end(out: &mut Vec<u8>, n: u64)
    ensures
        final(out)@ == old(out)@ + big_end(n),
{
    let ghost before = out@;
    out.push((n / 0x100000000000000) as u8);
    out.push((n / 0x1000000000000 % 0x100) as u8);
    out.push((n / 0x10000000000 % 0x100) as u8);
    out.push((n / 0x100000000 % 0x100) as u8);
    out.push((n / 0x1000000 % 0x100) as u8);
    out.push((n / 0x10000 % 0x100) as u8);
    out.push((n / 0x100 % 0x100) as u8);
    out.push((n % 0x100) as u8);
    assert(out@ =~= before + big_end(n));
}

fn to_bytes(h: &[u32; 8]) -> (r: [u8; 32])
    ensures
        r@ == state_bytes(h@),
{
    let mut r: [u8; 32] = [0u8; 32];
    let mut i: usize = 0;
    while i < 8
        invariant
            i <= 8,
            forall|j: int| 0 <= j < 4 * i ==> #[trigger] r@[j] == state_bytes(h@)[j],
        decreases 8 - i,
    {
        let w: u32 = h[i];
        r[4 * i] = (w / 0x1000000) as u8;
        r[4 * i + 1] = (w / 0x10000 % 0x100) as u8;
        r[4 * i + 2] = (w / 0x100 % 0x100) as u8;
        r[4 * i + 3] = (w % 0x100) as u8;
        i += 1;
    }
    assert(r@ =~= state_bytes(h@));
    r
}

// ---- in words -------------------------------------------------------------------------------

pub open spec fn hex_digit(d: int) -> char {
    if d < 10 {
        (('0' as u32) + d) as char
    } else {
        (('a' as u32) + d - 10) as char
    }
}

/// Two small hexadecimal digits for each byte.
pub open spec fn hex_text(bytes: Seq<u8>) -> Seq<char> {
    Seq::new(
        2 * bytes.len(),
        |i: int|
            if i % 2 == 0 {
                hex_digit(bytes[i / 2] as int / 16)
            } else {
                hex_digit(bytes[i / 2] as int % 16)
            },
    )
}

fn small_hex(d: u8) -> (r: char)
    requires
        d < 16,
    ensures
        r == hex_digit(d as int),
{
    if d < 10 {
        (48 + d) as char
    } else {
        (87 + d) as char
    }
}

pub fn hex(bytes: &[u8]) -> (r: String)
    ensures
        r@ == hex_text(bytes@),
{
    let mut s: String = String::new();
    let mut i: usize = 0;
    while i < bytes.len()
        invariant
            i <= bytes@.len(),
            s@ == hex_text(bytes@.take(i as int)),
        decreases bytes@.len() - i,
    {
        s.push(small_hex(bytes[i] / 16));
        s.push(small_hex(bytes[i] % 16));
        i += 1;
        assert(s@ =~= hex_text(bytes@.take(i as int)));
    }
    assert(bytes@.take(i as int) =~= bytes@);
    s
}

/// The name of the implementation that does the hashing.
pub fn engine() -> (r: &'static str)
    ensures
        r@ == "portable"@,
{
    "portable"
}

/// The hash of a message as it is written down.
pub open spec fn written(message: Seq<u8>) -> Seq<char> {
    hex_text(digest(message))
}

/// A hash as it is written down is sixty-four small hexadecimal digits.
pub proof fn law_a_hash_is_64_digits(message: Seq<u8>)
    ensures
        written(message).len() == 64,
        forall|i: int|
            0 <= i < 64 ==> ('0' <= #[trigger] written(message)[i] <= '9' || 'a' <= written(
                message,
            )[i] <= 'f'),
{
    let h = digest(message);
    assert forall|i: int| 0 <= i < 64 implies ('0' <= #[trigger] written(message)[i] <= '9' || 'a'
        <= written(message)[i] <= 'f') by {
        let b = h[i / 2];
        assert(b as int / 16 < 16 && 0 <= b as int % 16 < 16);
    }
}

// ---- counting while hashing -----------------------------------------------------------------

/// Hashes bytes as they pass and counts them. Its view is what has passed.
pub struct Tally {
    hasher: Sha256,
    total: u64,
}

impl View for Tally {
    type V = Seq<u8>;

    closed spec fn view(&self) -> Seq<u8> {
        self.hasher@
    }
}

impl Tally {
    pub closed spec fn wf(&self) -> bool {
        &&& self.hasher.wf()
        &&& self.total == self.hasher@.len()
    }

    pub fn new() -> (r: Self)
        ensures
            r.wf(),
            r@ == Seq::<u8>::empty(),
    {
        Tally { hasher: Sha256::new(), total: 0 }
    }

    /// How many bytes have passed.
    pub fn total(&self) -> (r: u64)
        requires
            self.wf(),
        ensures
            r == self@.len(),
    {
        self.total
    }

    /// More bytes pass.
    pub fn add(&mut self, data: &[u8])
        requires
            old(self).wf(),
            old(self)@.len() + data@.len() <= u64::MAX,
        ensures
            final(self).wf(),
            final(self)@ == old(self)@ + data@,
    {
        self.hasher.update(data);
        self.total = self.total + data.len() as u64;
    }

    /// The hash of what has passed, as it is written down, and its length.
    pub fn finish(&self) -> (r: (String, u64))
        requires
            self.wf(),
        ensures
            r.0@ == written(self@),
            r.1 == self@.len(),
    {
        (hex(&self.hasher.finish()), self.total)
    }
}

proof fn lemma_big_end(n: u64)
    requires
        n < 0x1_0000_0000,
    ensures
        ({
            let e = big_end(n);
            &&& e.len() == 8
            &&& e[0] == 0 && e[1] == 0 && e[2] == 0 && e[3] == 0
            &&& e[4] * 0x1000000 + e[5] * 0x10000 + e[6] * 0x100 + e[7] == n
        }),
{
}

proof fn lemma_padding(len: nat, k: int)
    requires
        0 <= k < 8,
    ensures
        padding(len).len() == zeros_after(len) + 9,
        padding(len)[zeros_after(len) + 1 + k] == big_end(
            ((8 * len) % 0x1_0000_0000_0000_0000) as u64,
        )[k],
{
}

/// A message is filled up to whole blocks of 64 bytes, with as little as will do: one bit, then zeros, and
/// at the end the number of bits of the message, the greatest byte first.
pub proof fn law_a_message_is_filled_up_to_whole_blocks(len: nat, i: int)
    ensures
        (len + padding(len).len()) % 64 == 0,
        9 <= padding(len).len() <= 72,
        padding(len)[0] == 0x80,
        1 <= i < padding(len).len() - 8 ==> padding(len)[i] == 0,
        len < 0x100_0000 ==> ({
            let p = padding(len);
            let n = p.len() as int;
            &&& p[n - 8] == 0 && p[n - 7] == 0 && p[n - 6] == 0 && p[n - 5] == 0
            &&& p[n - 4] * 0x1000000 + p[n - 3] * 0x10000 + p[n - 2] * 0x100 + p[n - 1] == 8 * len
        }),
{
    lemma_padding(len, 0);
    lemma_padding(len, 1);
    lemma_padding(len, 2);
    lemma_padding(len, 3);
    lemma_padding(len, 4);
    lemma_padding(len, 5);
    lemma_padding(len, 6);
    lemma_padding(len, 7);
    lemma_filled(len);
    if len < 0x100_0000 {
        lemma_big_end((8 * len) as u64);
    }
}

proof fn lemma_filled(len: nat)
    ensures
        (len + zeros_after(len) + 9) % 64 == 0,
{
    let r = len % 64;
    assert((len + zeros_after(len) + 9) % 64 == (r + zeros_after(len) + 9) % 64);
}

} // verus!
