//! SHA-256, stated as a mathematical function on byte sequences and
//! implemented block by block.

use super::u256::U256;
use sha2::{Digest, Sha256};
use vstd::prelude::*;

verus! {

/// The initial chaining value.
pub const H256_INIT: [u32; 8] = [
    0x6A09E667, 0xBB67AE85, 0x3C6EF372, 0xA54FF53A, 0x510E527F, 0x9B05688C, 0x1F83D9AB, 0x5BE0CD19,
];

/// The sixty-four round constants.
pub const K256: [u32; 64] = [
    0x428A2F98, 0x71374491, 0xB5C0FBCF, 0xE9B5DBA5, 0x3956C25B, 0x59F111F1, 0x923F82A4, 0xAB1C5ED5,
    0xD807AA98, 0x12835B01, 0x243185BE, 0x550C7DC3, 0x72BE5D74, 0x80DEB1FE, 0x9BDC06A7, 0xC19BF174,
    0xE49B69C1, 0xEFBE4786, 0x0FC19DC6, 0x240CA1CC, 0x2DE92C6F, 0x4A7484AA, 0x5CB0A9DC, 0x76F988DA,
    0x983E5152, 0xA831C66D, 0xB00327C8, 0xBF597FC7, 0xC6E00BF3, 0xD5A79147, 0x06CA6351, 0x14292967,
    0x27B70A85, 0x2E1B2138, 0x4D2C6DFC, 0x53380D13, 0x650A7354, 0x766A0ABB, 0x81C2C92E, 0x92722C85,
    0xA2BFE8A1, 0xA81A664B, 0xC24B8B70, 0xC76C51A3, 0xD192E819, 0xD6990624, 0xF40E3585, 0x106AA070,
    0x19A4C116, 0x1E376C08, 0x2748774C, 0x34B0BCB5, 0x391C0CB3, 0x4ED8AA4A, 0x5B9CCA4F, 0x682E6FF3,
    0x748F82EE, 0x78A5636F, 0x84C87814, 0x8CC70208, 0x90BEFFFA, 0xA4506CEB, 0xBEF9A3F7, 0xC67178F2,
];

/// Addition modulo 2^32.
pub open spec fn add32(x: u32, y: u32) -> u32 {
    if x + y > u32::MAX {
        (x + y - 0x1_0000_0000) as u32
    } else {
        (x + y) as u32
    }
}

/// Rotation of a word to the right by `n` bits, `0 < n < 32`.
pub open spec fn rotr(x: u32, n: u32) -> u32 {
    (x >> n) | (x << ((32 - n) as u32))
}

pub open spec fn small_sigma0(x: u32) -> u32 {
    rotr(x, 7) ^ rotr(x, 18) ^ (x >> 3u32)
}

pub open spec fn small_sigma1(x: u32) -> u32 {
    rotr(x, 17) ^ rotr(x, 19) ^ (x >> 10u32)
}

pub open spec fn big_sigma0(x: u32) -> u32 {
    rotr(x, 2) ^ rotr(x, 13) ^ rotr(x, 22)
}

pub open spec fn big_sigma1(x: u32) -> u32 {
    rotr(x, 6) ^ rotr(x, 11) ^ rotr(x, 25)
}

pub open spec fn choice(e: u32, f: u32, g: u32) -> u32 {
    (e & f) ^ ((!e) & g)
}

pub open spec fn majority(a: u32, b: u32, c: u32) -> u32 {
    (a & b) ^ (a & c) ^ (b & c)
}

/// The big-endian word made of four bytes.
pub open spec fn be_word(b0: u8, b1: u8, b2: u8, b3: u8) -> u32 {
    ((b0 as u32) << 24u32) | ((b1 as u32) << 16u32) | ((b2 as u32) << 8u32) | (b3 as u32)
}

/// Word `t` of the message schedule of a 64-byte block.
pub open spec fn schedule(block: Seq<u8>, t: nat) -> u32
    decreases t,
{
    if t < 16 {
        let i = 4 * (t as int);
        be_word(block[i], block[i + 1], block[i + 2], block[i + 3])
    } else {
        add32(
            add32(
                add32(schedule(block, (t - 16) as nat), small_sigma0(schedule(block, (t - 15) as nat))),
                schedule(block, (t - 7) as nat),
            ),
            small_sigma1(schedule(block, (t - 2) as nat)),
        )
    }
}

/// One round of the compression function on the working variables
/// `a..h`, held in that order.
pub open spec fn round(v: Seq<u32>, k: u32, w: u32) -> Seq<u32> {
    let temp1 = add32(add32(add32(add32(v[7], big_sigma1(v[4])), choice(v[4], v[5], v[6])), k), w);
    let temp2 = add32(big_sigma0(v[0]), majority(v[0], v[1], v[2]));
    seq![add32(temp1, temp2), v[0], v[1], v[2], add32(v[3], temp1), v[4], v[5], v[6]]
}

/// The working variables after the first `t` rounds on `block`.
pub open spec fn rounds(state: Seq<u32>, block: Seq<u8>, t: nat) -> Seq<u32>
    decreases t,
{
    if t == 0 {
        state
    } else {
        round(rounds(state, block, (t - 1) as nat), K256@[t - 1], schedule(block, (t - 1) as nat))
    }
}

/// The chaining value after one 64-byte block.
pub open spec fn compress(state: Seq<u32>, block: Seq<u8>) -> Seq<u32> {
    let v = rounds(state, block, 64);
    Seq::new(8, |i: int| add32(state[i], v[i]))
}

/// How many zero bytes the padding of a message of `len` bytes holds.
pub open spec fn pad_zeros(len: nat) -> nat {
    ((119 - (len % 64)) % 64) as nat
}

/// The eight bytes of `n`, most significant first.
pub open spec fn be64(n: u64) -> Seq<u8> {
    seq![
        ((n >> 56u64) & 0xff) as u8,
        ((n >> 48u64) & 0xff) as u8,
        ((n >> 40u64) & 0xff) as u8,
        ((n >> 32u64) & 0xff) as u8,
        ((n >> 24u64) & 0xff) as u8,
        ((n >> 16u64) & 0xff) as u8,
        ((n >> 8u64) & 0xff) as u8,
        (n & 0xff) as u8,
    ]
}

/// The message followed by its padding: a `0x80` byte, zeros up to eight
/// bytes short of a block boundary, and the bit length on eight bytes.
pub open spec fn padded(msg: Seq<u8>) -> Seq<u8> {
    msg + seq![0x80u8] + Seq::new(pad_zeros(msg.len()), |i: int| 0u8) + be64(
        (msg.len() * 8) as u64,
    )
}

/// The chaining value after the first `n` blocks of `data`.
pub open spec fn absorb(state: Seq<u32>, data: Seq<u8>, n: nat) -> Seq<u32>
    decreases n,
{
    if n == 0 {
        state
    } else {
        compress(absorb(state, data, (n - 1) as nat), data.subrange(64 * (n - 1), 64 * (n as int)))
    }
}

/// The four bytes of a word, most significant first.
pub open spec fn word_bytes(w: u32) -> Seq<u8> {
    seq![
        ((w >> 24u32) & 0xff) as u8,
        ((w >> 16u32) & 0xff) as u8,
        ((w >> 8u32) & 0xff) as u8,
        (w & 0xff) as u8,
    ]
}

/// The thirty-two bytes of a chaining value.
pub open spec fn digest_bytes(state: Seq<u32>) -> Seq<u8> {
    Seq::new(32, |i: int| word_bytes(state[i / 4])[i % 4])
}

/// The SHA-256 digest of a message shorter than 2^61 bytes.
pub open spec fn sha256_spec(msg: Seq<u8>) -> Seq<u8> {
    let p = padded(msg);
    digest_bytes(absorb(H256_INIT@, p, p.len() / 64))
}

/// Rotates `x` right by `n` bits.
fn rotate_right(x: u32, n: u32) -> (r: u32)
    requires
        0 < n < 32,
    ensures
        r == rotr(x, n),
{
    (x >> n) | (x << (32 - n))
}

/// Absorbs one 64-byte block into the chaining value.
pub fn compute_block(block: &[u8; 64], state: &mut [u32; 8])
    ensures
        final(state)@ == compress(old(state)@, block@),
{
    let mut w = [0u32; 64];
    let mut i: usize = 0;
    while i < 16
        invariant
            i <= 16,
            forall|j: int| 0 <= j < i ==> w[j] == schedule(block@, j as nat),
        decreases 16 - i,
    {
        let j = i * 4;
        w[i] = ((block[j] as u32) << 24) | ((block[j + 1] as u32) << 16) | ((block[j + 2] as u32)
            << 8) | (block[j + 3] as u32);
        i += 1;
    }
    while i < 64
        invariant
            16 <= i <= 64,
            forall|j: int| 0 <= j < i ==> w[j] == schedule(block@, j as nat),
        decreases 64 - i,
    {
        let s0 = rotate_right(w[i - 15], 7) ^ rotate_right(w[i - 15], 18) ^ (w[i - 15] >> 3);
        let s1 = rotate_right(w[i - 2], 17) ^ rotate_right(w[i - 2], 19) ^ (w[i - 2] >> 10);
        w[i] = w[i - 16].wrapping_add(s0).wrapping_add(w[i - 7]).wrapping_add(s1);
        i += 1;
    }

    let mut a = state[0];
    let mut b = state[1];
    let mut c = state[2];
    let mut d = state[3];
    let mut e = state[4];
    let mut f = state[5];
    let mut g = state[6];
    let mut h = state[7];
    assert(seq![a, b, c, d, e, f, g, h] =~= state@);

    let mut t: usize = 0;
    while t < 64
        invariant
            t <= 64,
            forall|j: int| 0 <= j < 64 ==> w[j] == schedule(block@, j as nat),
            seq![a, b, c, d, e, f, g, h] == rounds(state@, block@, t as nat),
        decreases 64 - t,
    {
        let s0 = rotate_right(a, 2) ^ rotate_right(a, 13) ^ rotate_right(a, 22);
        let s1 = rotate_right(e, 6) ^ rotate_right(e, 11) ^ rotate_right(e, 25);
        let maj = (a & b) ^ (a & c) ^ (b & c);
        let ch = (e & f) ^ ((!e) & g);
        let temp1 = h.wrapping_add(s1).wrapping_add(ch).wrapping_add(K256[t]).wrapping_add(w[t]);
        let temp2 = s0.wrapping_add(maj);
        let ghost before = seq![a, b, c, d, e, f, g, h];

        h = g;
        g = f;
        f = e;
        e = d.wrapping_add(temp1);
        d = c;
        c = b;
        b = a;
        a = temp1.wrapping_add(temp2);
        t += 1;
        assert(seq![a, b, c, d, e, f, g, h] =~= round(
            before,
            K256@[t - 1],
            schedule(block@, (t - 1) as nat),
        ));
    }

    let ghost start = state@;
    state[0] = state[0].wrapping_add(a);
    state[1] = state[1].wrapping_add(b);
    state[2] = state[2].wrapping_add(c);
    state[3] = state[3].wrapping_add(d);
    state[4] = state[4].wrapping_add(e);
    state[5] = state[5].wrapping_add(f);
    state[6] = state[6].wrapping_add(g);
    state[7] = state[7].wrapping_add(h);
    assert(state@ =~= compress(start, block@));
}

/// Copies the 64 bytes of `input` that start at `at` into a block.
fn load_block(input: &[u8], at: usize) -> (block: [u8; 64])
    requires
        at + 64 <= input@.len(),
    ensures
        block@ == input@.subrange(at as int, at + 64),
{
    let n = input.len();
    let mut block = [0u8; 64];
    let mut k: usize = 0;
    while k < 64
        invariant
            k <= 64,
            at + 64 <= n == input@.len(),
            forall|j: int| 0 <= j < k ==> block[j] == input@[at + j],
        decreases 64 - k,
    {
        block[k] = input[at + k];
        k += 1;
    }
    assert(block@ =~= input@.subrange(at as int, at + 64));
    block
}

/// The bytes of a chaining value, most significant byte of each word first.
fn state_bytes(state: &[u32; 8]) -> (out: [u8; 32])
    ensures
        out@ == digest_bytes(state@),
{
    let mut out = [0u8; 32];
    let mut i: usize = 0;
    while i < 8
        invariant
            i <= 8,
            forall|j: int| 0 <= j < 4 * i ==> out[j] == word_bytes(state[j / 4])[j % 4],
        decreases 8 - i,
    {
        let w = state[i];
        out[4 * i] = ((w >> 24) & 0xff) as u8;
        out[4 * i + 1] = ((w >> 16) & 0xff) as u8;
        out[4 * i + 2] = ((w >> 8) & 0xff) as u8;
        out[4 * i + 3] = (w & 0xff) as u8;
        i += 1;
    }
    assert(out@ =~= digest_bytes(state@));
    out
}

/// Writes `n`, most significant byte first, into the last eight bytes of a block.
fn write_length(block: &mut [u8; 64], n: u64)
    ensures
        final(block)@ == old(block)@.subrange(0, 56) + be64(n),
{
    block[56] = ((n >> 56) & 0xff) as u8;
    block[57] = ((n >> 48) & 0xff) as u8;
    block[58] = ((n >> 40) & 0xff) as u8;
    block[59] = ((n >> 32) & 0xff) as u8;
    block[60] = ((n >> 24) & 0xff) as u8;
    block[61] = ((n >> 16) & 0xff) as u8;
    block[62] = ((n >> 8) & 0xff) as u8;
    block[63] = (n & 0xff) as u8;
    assert(block@ =~= old(block)@.subrange(0, 56) + be64(n));
}

/// Byte `i` of the padded message, region by region.
pub open spec fn padded_byte(msg: Seq<u8>, i: int) -> u8 {
    let total = msg.len() + 9 + pad_zeros(msg.len());
    if i < msg.len() {
        msg[i]
    } else if i == msg.len() {
        0x80u8
    } else if i < total - 8 {
        0u8
    } else {
        be64((msg.len() * 8) as u64)[i - (total - 8)]
    }
}

/// The padded message ends on a block boundary, one or two blocks after
/// the last full block of the message, and holds `padded_byte` at each index.
pub proof fn lemma_padded(msg: Seq<u8>)
    ensures
        padded(msg).len() == msg.len() + 9 + pad_zeros(msg.len()),
        padded(msg).len() == (msg.len() / 64) * 64 + (if msg.len() % 64 > 55 {
            128int
        } else {
            64int
        }),
        forall|i: int| 0 <= i < padded(msg).len() ==> #[trigger] padded(msg)[i] == padded_byte(msg, i),
{
}

/// Absorbs what follows the last full block of `input`, with the padding.
fn absorb_tail(input: &[u8], bot: usize, state: &mut [u32; 8])
    requires
        input@.len() < 0x2000_0000_0000_0000,
        bot % 64 == 0,
        bot <= input@.len() < bot + 64,
        old(state)@ == absorb(H256_INIT@, padded(input@), (bot / 64) as nat),
    ensures
        final(state)@ == absorb(H256_INIT@, padded(input@), padded(input@).len() / 64),
{
    let input_len = input.len();
    let rem = input_len - bot;
    let bit_len: u64 = (input_len as u64) * 8u64;
    let ghost p = padded(input@);
    let ghost done = (bot / 64) as int;
    proof {
        lemma_padded(input@);
    }
    let mut block = [0u8; 64];
    let mut k: usize = 0;
    while k < rem
        invariant
            k <= rem < 64,
            bot + rem == input_len == input@.len(),
            forall|j: int| 0 <= j < k ==> block[j] == input@[bot + j],
            forall|j: int| k <= j < 64 ==> block[j] == 0,
        decreases rem - k,
    {
        block[k] = input[bot + k];
        k += 1;
    }
    block[rem] = 0x80;

    if rem > 55 {
        assert(block@ =~= p.subrange(64 * done, 64 * (done + 1)));
        compute_block(&block, state);
        assert(state@ == absorb(H256_INIT@, p, (done + 1) as nat));
        block = [0u8; 64];
        write_length(&mut block, bit_len);
        assert(block@ =~= p.subrange(64 * (done + 1), 64 * (done + 2)));
        compute_block(&block, state);
        assert(state@ == absorb(H256_INIT@, p, (done + 2) as nat));
    } else {
        write_length(&mut block, bit_len);
        assert(block@ =~= p.subrange(64 * done, 64 * (done + 1)));
        compute_block(&block, state);
        assert(state@ == absorb(H256_INIT@, p, (done + 1) as nat));
    }
}

/// SHA-256 of `input`.
pub fn sha256(input: &[u8]) -> (digest: U256)
    requires
        input@.len() < 0x2000_0000_0000_0000,
    ensures
        digest@ == sha256_spec(input@),
{
    let mut state = H256_INIT;
    let input_len = input.len();
    let ghost p = padded(input@);
    proof {
        lemma_padded(input@);
    }

    let mut bot: usize = 0;
    while input_len - bot >= 64
        invariant
            bot <= input_len,
            input_len == input@.len(),
            bot % 64 == 0,
            p == padded(input@),
            p.len() >= input_len,
            forall|i: int| 0 <= i < input_len ==> #[trigger] p[i] == input@[i],
            state@ == absorb(H256_INIT@, p, (bot / 64) as nat),
        decreases input_len - bot,
    {
        let block = load_block(input, bot);
        assert(block@ =~= p.subrange(64 * (bot / 64) as int, 64 * (bot / 64 + 1) as int));
        compute_block(&block, &mut state);
        bot += 64;
    }
    absorb_tail(input, bot, &mut state);
    U256(state_bytes(&state))
}

/// The digest that the `sha2` crate computes for a message.
pub uninterp spec fn sha2_digest(input: Seq<u8>) -> Seq<u8>;

/// `Sha256::digest` of the `sha2` crate: the thirty-two bytes it computes
/// for `input`, which depend on `input` alone.
#[verifier::external_body]
fn sha2_sha256(input: &[u8]) -> (out: [u8; 32])
    ensures
        out@ == sha2_digest(input@),
{
    Sha256::digest(input).into()
}

/// SHA-256 of `input` as the `sha2` crate computes it.
pub fn sha256_bytes(input: &[u8]) -> (digest: U256)
    ensures
        digest@ == sha2_digest(input@),
{
    U256::from(sha2_sha256(input))
}

} // verus!
