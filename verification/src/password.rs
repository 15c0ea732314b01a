//! Deterministic password generation from a seed phrase.
//!
//! The seed's bytes are mixed into a four-word state, which then yields a
//! stream of pseudo-random bytes; each byte picks one character of the
//! chosen character set. The scheme is repeatable, not cryptographically
//! secure.
use vstd::prelude::*;

use crate::text::{chars_of, push_char};

verus! {


/// The multiplier of every mixing step.
pub const MIX_MULTIPLIER: u64 = 6364136223846793005u64;

/// The password length used when the requested length cannot be read.
pub const DEFAULT_LENGTH: usize = 16usize;

// ---------------------------------------------------------------------------
// The byte stream
// ---------------------------------------------------------------------------

/// The state before any seed byte is mixed in.
pub open spec fn initial_state() -> Seq<u64> {
    seq![
        0x6a09_e667_f3bc_c908u64,
        0xbb67_ae85_84ca_a73bu64,
        0x3c6e_f372_fe94_f82bu64,
        0xa54f_f53a_5f1d_36f1u64,
    ]
}

/// Mixes the seed byte `b`, found at position `i` of the seed, into `st`.
pub open spec fn absorb_step(st: Seq<u64>, i: int, b: u8) -> Seq<u64> {
    let idx = i % 4;
    let v = st[idx].wrapping_mul(MIX_MULTIPLIER).wrapping_add(b as u64).wrapping_add(i as u64);
    let st1 = st.update(idx, v);
    st1.update((idx + 1) % 4, st1[(idx + 1) % 4] ^ v)
}

/// The state once the first `n` bytes of `seed` are mixed in.
pub open spec fn absorbed(seed: Seq<u8>, n: nat) -> Seq<u64>
    decreases n,
{
    if n == 0 {
        initial_state()
    } else {
        absorb_step(absorbed(seed, (n - 1) as nat), n - 1, seed[n - 1])
    }
}

/// Step `k` of the extra mixing rounds (round `k / 4`, word `k % 4`).
pub open spec fn stir_step(st: Seq<u64>, k: int) -> Seq<u64> {
    let idx = k % 4;
    let v = st[idx].wrapping_mul(MIX_MULTIPLIER).wrapping_add(k as u64);
    let st1 = st.update(idx, v);
    st1.update((idx + 1) % 4, st1[(idx + 1) % 4] ^ (v >> 17u64))
}

/// `st` after the first `n` steps of the extra mixing rounds.
pub open spec fn stirred(st: Seq<u64>, n: nat) -> Seq<u64>
    decreases n,
{
    if n == 0 {
        st
    } else {
        stir_step(stirred(st, (n - 1) as nat), n - 1)
    }
}

/// The state from which the bytes of a non-empty seed are drawn: every seed
/// byte mixed in, then eight rounds of four steps.
pub open spec fn seeded_state(seed: Seq<u8>) -> Seq<u64> {
    stirred(absorbed(seed, seed.len()), 32)
}

/// The word that block `c` of the output is cut from.
pub open spec fn block_word(st: Seq<u64>, c: nat) -> u64 {
    st[(c % 4) as int].wrapping_mul(MIX_MULTIPLIER).wrapping_add(c as u64)
}

/// The state after block `c` has been drawn from `st`.
pub open spec fn squeeze_step(st: Seq<u64>, c: nat) -> Seq<u64> {
    let j = ((c + 1) % 4) as int;
    st.update(j, st[j].wrapping_add(block_word(st, c) >> 13u64))
}

/// The state once `c` blocks have been drawn, starting from `st0`.
pub open spec fn squeezed(st0: Seq<u64>, c: nat) -> Seq<u64>
    decreases c,
{
    if c == 0 {
        st0
    } else {
        squeeze_step(squeezed(st0, (c - 1) as nat), (c - 1) as nat)
    }
}

/// The eight bytes of `w`, least significant first (`u64::to_le_bytes`).
pub open spec fn le_bytes(w: u64) -> Seq<u8> {
    Seq::new(8, |k: int| (w >> ((8 * k) as u64)) as u8)
}

/// The first `c` blocks of bytes drawn from `st0`.
pub open spec fn byte_stream(st0: Seq<u64>, c: nat) -> Seq<u8>
    decreases c,
{
    if c == 0 {
        Seq::<u8>::empty()
    } else {
        byte_stream(st0, (c - 1) as nat) + le_bytes(
            block_word(squeezed(st0, (c - 1) as nat), (c - 1) as nat),
        )
    }
}

/// The `length` bytes derived from `seed`: all zero for an empty seed, else
/// the first `length` bytes of the stream drawn from the seeded state.
pub open spec fn seed_hash(seed: Seq<u8>, length: nat) -> Seq<u8> {
    if seed.len() == 0 {
        Seq::new(length, |i: int| 0u8)
    } else {
        byte_stream(seeded_state(seed), (length + 7) / 8).take(length as int)
    }
}

/// A stream of `c` blocks is `8 * c` bytes long.
pub proof fn lemma_byte_stream_len(st0: Seq<u64>, c: nat)
    ensures
        byte_stream(st0, c).len() == 8 * c,
    decreases c,
{
    if c > 0 {
        lemma_byte_stream_len(st0, (c - 1) as nat);
    }
}

// ---------------------------------------------------------------------------
// Every seed byte counts
// ---------------------------------------------------------------------------

/// Multiplying by the mixing multiplier loses nothing: it is odd, so it has
/// an inverse modulo 2^64.
proof fn lemma_mix_multiplier_undone(z: u64)
    ensures
        ((z as int * MIX_MULTIPLIER as int) % 0x1_0000_0000_0000_0000int) * 13877824140714322085int
            % 0x1_0000_0000_0000_0000int == z as int,
{
    let r: int = 0x1_0000_0000_0000_0000int;
    let m: int = MIX_MULTIPLIER as int;
    let inv: int = 13877824140714322085int;
    let k: int = 4787856489426250814int;
    assert(m * inv == 1 + k * r);
    let zi = z as int;
    vstd::arithmetic::div_mod::lemma_mul_mod_noop_left(zi * m, inv, r);
    assert((zi * m) * inv == zi + r * (zi * k)) by (nonlinear_arith)
        requires
            m * inv == 1 + k * r,
    ;
    vstd::arithmetic::div_mod::lemma_mod_multiples_vanish(zi * k, zi, r);
    vstd::arithmetic::div_mod::lemma_small_mod(z as nat, r as nat);
}

/// Distinct words stay distinct when multiplied by the mixing multiplier.
proof fn lemma_mix_mul_injective(x: u64, y: u64)
    requires
        x.wrapping_mul(MIX_MULTIPLIER) == y.wrapping_mul(MIX_MULTIPLIER),
    ensures
        x == y,
{
    lemma_mix_multiplier_undone(x);
    lemma_mix_multiplier_undone(y);
}

/// Every state met while mixing has four words.
proof fn lemma_absorbed_len(seed: Seq<u8>, n: nat)
    ensures
        absorbed(seed, n).len() == 4,
    decreases n,
{
    if n > 0 {
        lemma_absorbed_len(seed, (n - 1) as nat);
    }
}

/// The extra rounds keep four words.
proof fn lemma_stirred_len(st: Seq<u64>, n: nat)
    requires
        st.len() == 4,
    ensures
        stirred(st, n).len() == 4,
    decreases n,
{
    if n > 0 {
        lemma_stirred_len(st, (n - 1) as nat);
    }
}

/// Mixing the same byte into two different states gives different states.
proof fn lemma_absorb_step_keeps_states_apart(a: Seq<u64>, b: Seq<u64>, i: int, x: u8)
    requires
        a.len() == 4,
        b.len() == 4,
        0 <= i,
        absorb_step(a, i, x) == absorb_step(b, i, x),
    ensures
        a == b,
{
    let idx = i % 4;
    let nxt = (idx + 1) % 4;
    let va = a[idx].wrapping_mul(MIX_MULTIPLIER).wrapping_add(x as u64).wrapping_add(i as u64);
    let vb = b[idx].wrapping_mul(MIX_MULTIPLIER).wrapping_add(x as u64).wrapping_add(i as u64);
    assert(absorb_step(a, i, x)[idx] == va);
    assert(absorb_step(b, i, x)[idx] == vb);
    assert(va == vb);
    lemma_mix_mul_injective(a[idx], b[idx]);
    let wa = a[nxt];
    let wb = b[nxt];
    assert(absorb_step(a, i, x)[nxt] == wa ^ va);
    assert(absorb_step(b, i, x)[nxt] == wb ^ vb);
    assert((wa ^ va) == (wb ^ va) ==> wa == wb) by (bit_vector);
    assert forall|j: int| 0 <= j < 4 implies a[j] == b[j] by {
        if j != idx && j != nxt {
            assert(absorb_step(a, i, x)[j] == a[j]);
            assert(absorb_step(b, i, x)[j] == b[j]);
        }
    }
    assert(a =~= b);
}

/// Mixing different bytes into the same state gives different states.
proof fn lemma_absorb_step_tells_bytes_apart(a: Seq<u64>, i: int, x: u8, y: u8)
    requires
        a.len() == 4,
        0 <= i,
        x != y,
    ensures
        absorb_step(a, i, x) != absorb_step(a, i, y),
{
    let idx = i % 4;
    let w = a[idx].wrapping_mul(MIX_MULTIPLIER);
    assert(absorb_step(a, i, x)[idx] == w.wrapping_add(x as u64).wrapping_add(i as u64));
    assert(absorb_step(a, i, y)[idx] == w.wrapping_add(y as u64).wrapping_add(i as u64));
}

/// An extra mixing step gives different states for different states.
proof fn lemma_stir_step_keeps_states_apart(a: Seq<u64>, b: Seq<u64>, k: int)
    requires
        a.len() == 4,
        b.len() == 4,
        0 <= k,
        stir_step(a, k) == stir_step(b, k),
    ensures
        a == b,
{
    let idx = k % 4;
    let nxt = (idx + 1) % 4;
    let va = a[idx].wrapping_mul(MIX_MULTIPLIER).wrapping_add(k as u64);
    let vb = b[idx].wrapping_mul(MIX_MULTIPLIER).wrapping_add(k as u64);
    assert(stir_step(a, k)[idx] == va);
    assert(stir_step(b, k)[idx] == vb);
    lemma_mix_mul_injective(a[idx], b[idx]);
    let wa = a[nxt];
    let wb = b[nxt];
    let sh = va >> 17u64;
    assert(stir_step(a, k)[nxt] == wa ^ sh);
    assert(stir_step(b, k)[nxt] == wb ^ sh);
    assert((wa ^ sh) == (wb ^ sh) ==> wa == wb) by (bit_vector);
    assert forall|j: int| 0 <= j < 4 implies a[j] == b[j] by {
        if j != idx && j != nxt {
            assert(stir_step(a, k)[j] == a[j]);
            assert(stir_step(b, k)[j] == b[j]);
        }
    }
    assert(a =~= b);
}

/// The extra rounds never bring two different states together.
proof fn lemma_stirred_keeps_states_apart(a: Seq<u64>, b: Seq<u64>, n: nat)
    requires
        a.len() == 4,
        b.len() == 4,
        stirred(a, n) == stirred(b, n),
    ensures
        a == b,
    decreases n,
{
    if n > 0 {
        lemma_stirred_len(a, (n - 1) as nat);
        lemma_stirred_len(b, (n - 1) as nat);
        lemma_stir_step_keeps_states_apart(stirred(a, (n - 1) as nat), stirred(b, (n - 1) as nat), n - 1);
        lemma_stirred_keeps_states_apart(a, b, (n - 1) as nat);
    }
}

/// Seeds that agree on their first `n` bytes reach the same state after them.
proof fn lemma_absorbed_same_prefix(s1: Seq<u8>, s2: Seq<u8>, n: nat)
    requires
        n <= s1.len(),
        n <= s2.len(),
        forall|i: int| 0 <= i < n ==> s1[i] == s2[i],
    ensures
        absorbed(s1, n) == absorbed(s2, n),
    decreases n,
{
    if n > 0 {
        lemma_absorbed_same_prefix(s1, s2, (n - 1) as nat);
    }
}

/// Seeds that differ only at position `j` are in different states once
/// byte `j` has been mixed in, and stay so.
proof fn lemma_absorbed_apart(s1: Seq<u8>, s2: Seq<u8>, j: int, n: nat)
    requires
        s1.len() == s2.len(),
        0 <= j < n <= s1.len(),
        s1[j] != s2[j],
        forall|i: int| 0 <= i < s1.len() && i != j ==> s1[i] == s2[i],
    ensures
        absorbed(s1, n) != absorbed(s2, n),
    decreases n,
{
    lemma_absorbed_len(s1, (n - 1) as nat);
    lemma_absorbed_len(s2, (n - 1) as nat);
    if n - 1 == j {
        lemma_absorbed_same_prefix(s1, s2, j as nat);
        lemma_absorb_step_tells_bytes_apart(absorbed(s1, j as nat), j, s1[j], s2[j]);
    } else {
        lemma_absorbed_apart(s1, s2, j, (n - 1) as nat);
        if absorbed(s1, n) == absorbed(s2, n) {
            lemma_absorb_step_keeps_states_apart(
                absorbed(s1, (n - 1) as nat),
                absorbed(s2, (n - 1) as nat),
                n - 1,
                s1[n - 1],
            );
        }
    }
}

/// Every byte of the seed counts: two seeds of the same length that differ
/// in any one byte, wherever it stands, lead to different states, from which
/// the password bytes are drawn.
pub proof fn lemma_every_seed_byte_counts(s1: Seq<u8>, s2: Seq<u8>, j: int)
    requires
        s1.len() == s2.len(),
        0 <= j < s1.len(),
        s1[j] != s2[j],
        forall|i: int| 0 <= i < s1.len() && i != j ==> s1[i] == s2[i],
    ensures
        seeded_state(s1) != seeded_state(s2),
{
    lemma_absorbed_apart(s1, s2, j, s1.len());
    lemma_absorbed_len(s1, s1.len());
    lemma_absorbed_len(s2, s2.len());
    if seeded_state(s1) == seeded_state(s2) {
        lemma_stirred_keeps_states_apart(absorbed(s1, s1.len()), absorbed(s2, s2.len()), 32);
    }
}

/// The derived bytes number exactly `length`, and are all zero for an empty
/// seed.
pub proof fn lemma_seed_hash_shape(seed: Seq<u8>, length: nat)
    ensures
        seed_hash(seed, length).len() == length,
        seed.len() == 0 ==> forall|i: int| 0 <= i < length ==> seed_hash(seed, length)[i] == 0,
{
    if seed.len() > 0 {
        lemma_byte_stream_len(seeded_state(seed), (length + 7) / 8);
    }
}

/// A shorter stream is the start of a longer one.
proof fn lemma_byte_stream_prefix(st0: Seq<u64>, a: nat, b: nat)
    requires
        a <= b,
    ensures
        byte_stream(st0, a) == byte_stream(st0, b).take((8 * a) as int),
    decreases b,
{
    lemma_byte_stream_len(st0, a);
    lemma_byte_stream_len(st0, b);
    if a == b {
        assert(byte_stream(st0, b).take((8 * a) as int) =~= byte_stream(st0, b));
    } else {
        lemma_byte_stream_prefix(st0, a, (b - 1) as nat);
        lemma_byte_stream_len(st0, (b - 1) as nat);
        assert(byte_stream(st0, b).take((8 * a) as int) =~= byte_stream(st0, (b - 1) as nat).take((8 * a) as int));
    }
}

/// Asking for fewer bytes gives the start of what asking for more gives.
pub proof fn lemma_seed_hash_prefix(seed: Seq<u8>, n: nat, m: nat)
    requires
        n <= m,
    ensures
        seed_hash(seed, n) == seed_hash(seed, m).take(n as int),
{
    if seed.len() == 0 {
        assert(seed_hash(seed, n) =~= seed_hash(seed, m).take(n as int));
    } else {
        let st0 = seeded_state(seed);
        let a = (n + 7) / 8;
        let b = (m + 7) / 8;
        lemma_byte_stream_prefix(st0, a, b);
        lemma_byte_stream_len(st0, a);
        lemma_byte_stream_len(st0, b);
        assert(seed_hash(seed, n) =~= seed_hash(seed, m).take(n as int));
    }
}

/// Derives `length` pseudo-random bytes from `seed`; the same seed and length
/// always give the same bytes, and an empty seed gives zeros.
pub fn hash_seed(seed: &str, length: usize) -> (out: Vec<u8>)
    ensures
        out@ == seed_hash(vstd::utf8::encode_utf8(seed@), length as nat),
        out@.len() == length,
{
    proof {
        lemma_seed_hash_shape(vstd::utf8::encode_utf8(seed@), length as nat);
    }
    let seed_bytes = seed.as_bytes();
    let n = seed_bytes.len();
    if n == 0 {
        let mut zeros: Vec<u8> = Vec::new();
        while zeros.len() < length
            invariant
                zeros.len() <= length,
                forall|i: int| 0 <= i < zeros.len() ==> zeros@[i] == 0u8,
            decreases length - zeros.len(),
        {
            zeros.push(0u8);
        }
        assert(zeros@ =~= seed_hash(vstd::utf8::encode_utf8(seed@), length as nat));
        return zeros;
    }
    let mut st: Vec<u64> = vec![
        0x6a09_e667_f3bc_c908u64,
        0xbb67_ae85_84ca_a73bu64,
        0x3c6e_f372_fe94_f82bu64,
        0xa54f_f53a_5f1d_36f1u64,
    ];
    assert(st@ =~= initial_state());
    // Mix the seed into the state.
    let mut i: usize = 0;
    while i < n
        invariant
            i <= n == seed_bytes@.len(),
            seed_bytes@ == vstd::utf8::encode_utf8(seed@),
            st@ == absorbed(seed_bytes@, i as nat),
            st@.len() == 4,
        decreases n - i,
    {
        let idx = i % 4;
        let v = st[idx].wrapping_mul(MIX_MULTIPLIER).wrapping_add(seed_bytes[i] as u64).wrapping_add(
            i as u64,
        );
        st.set(idx, v);
        let next = (idx + 1) % 4;
        let w = st[next] ^ v;
        st.set(next, w);
        i = i + 1;
    }
    // Additional mixing rounds.
    let ghost absorbed_state = st@;
    let mut round: u64 = 0;
    while round < 8
        invariant
            round <= 8,
            st@ == stirred(absorbed_state, (round * 4) as nat),
            st@.len() == 4,
        decreases 8 - round,
    {
        let mut w: u64 = 0;
        while w < 4
            invariant
                round < 8,
                w <= 4,
                st@ == stirred(absorbed_state, (round * 4 + w) as nat),
                st@.len() == 4,
            decreases 4 - w,
        {
            let k: u64 = round * 4 + w;
            let idx = w as usize;
            assert(idx as int == (k as int) % 4);
            let v = st[idx].wrapping_mul(MIX_MULTIPLIER).wrapping_add(k);
            st.set(idx, v);
            let next = (idx + 1) % 4;
            let x = st[next] ^ (v >> 17u64);
            st.set(next, x);
            w = w + 1;
        }
        round = round + 1;
    }
    let ghost st0 = st@;
    assert(st0 == seeded_state(vstd::utf8::encode_utf8(seed@)));
    // Draw the output bytes.
    let mut out: Vec<u8> = Vec::new();
    let mut counter: u64 = 0;
    while out.len() < length
        invariant
            st@ == squeezed(st0, counter as nat),
            st@.len() == 4,
            out.len() <= length,
            out.len() == (if 8 * counter <= length {
                8 * counter
            } else {
                length as int
            }),
            counter == 0 || 8 * (counter - 1) < length,
            out@ == byte_stream(st0, counter as nat).take(out.len() as int),
        decreases length - out.len(),
    {
        proof {
            lemma_byte_stream_len(st0, counter as nat);
        }
        let ghost before = out@;
        let idx = (counter % 4) as usize;
        let mix = st[idx].wrapping_mul(MIX_MULTIPLIER).wrapping_add(counter);
        assert(mix == block_word(st@, counter as nat));
        assert(before == byte_stream(st0, counter as nat));
        let next_counter = counter + 1;
        let j = (next_counter % 4) as usize;
        let bumped = st[j].wrapping_add(mix >> 13u64);
        st.set(j, bumped);
        let ghost block = le_bytes(mix);
        let mut k: u64 = 0;
        while k < 8
            invariant
                k <= 8,
                out.len() <= length,
                before.len() == 8 * counter,
                before.len() < length,
                out.len() == (if before.len() + k <= length {
                    before.len() + k
                } else {
                    length as int
                }),
                out@ == (before + block).take(out.len() as int),
                block == le_bytes(mix),
            decreases 8 - k,
        {
            if out.len() < length {
                let byte = (mix >> (8 * k)) as u8;
                assert(byte == block[k as int]);
                out.push(byte);
                assert(out@ =~= (before + block).take(out.len() as int));
            }
            k = k + 1;
        }
        counter = next_counter;
        proof {
            assert(byte_stream(st0, counter as nat) == before + block);
            assert(st@ =~= squeezed(st0, counter as nat));
        }
    }
    proof {
        let blocks = (length as nat + 7) / 8;
        assert(counter as nat == blocks);
        lemma_byte_stream_len(st0, counter as nat);
    }
    out
}

// ---------------------------------------------------------------------------
// Character sets and passwords
// ---------------------------------------------------------------------------

/// The lower-case ASCII letters.
pub open spec fn lowercase_letters() -> Seq<char> {
    seq![
        'a', 'b', 'c', 'd', 'e', 'f', 'g', 'h', 'i', 'j', 'k', 'l', 'm', 'n', 'o', 'p', 'q',
        'r', 's', 't', 'u', 'v', 'w', 'x', 'y', 'z',
    ]
}

/// The upper-case ASCII letters.
pub open spec fn uppercase_letters() -> Seq<char> {
    seq![
        'A', 'B', 'C', 'D', 'E', 'F', 'G', 'H', 'I', 'J', 'K', 'L', 'M', 'N', 'O', 'P', 'Q',
        'R', 'S', 'T', 'U', 'V', 'W', 'X', 'Y', 'Z',
    ]
}

/// The decimal digits.
pub open spec fn digit_chars() -> Seq<char> {
    seq!['0', '1', '2', '3', '4', '5', '6', '7', '8', '9']
}

/// The special characters a password may hold.
pub open spec fn special_chars() -> Seq<char> {
    seq![
        '!', '@', '#', '$', '%', '^', '&', '*', '(', ')', '-', '_', '=', '+', '[', ']', '{',
        '}', '|', ';', ':', ',', '.', '<', '>', '?',
    ]
}

/// The characters a password is drawn from: the letters, then the digits if
/// asked for, then the special characters if asked for.
pub open spec fn password_charset(use_numbers: bool, use_special: bool) -> Seq<char> {
    lowercase_letters() + uppercase_letters() + (if use_numbers {
        digit_chars()
    } else {
        Seq::<char>::empty()
    }) + (if use_special {
        special_chars()
    } else {
        Seq::<char>::empty()
    })
}

/// The password for a seed given by its bytes: empty for an empty seed, else
/// one character per derived byte, the byte taken modulo the size of the
/// character set.
pub open spec fn password_for(
    seed: Seq<u8>,
    length: nat,
    use_numbers: bool,
    use_special: bool,
) -> Seq<char> {
    if seed.len() == 0 {
        Seq::<char>::empty()
    } else {
        picked(password_charset(use_numbers, use_special), seed_hash(seed, length))
    }
}

/// One character of `charset` per byte of `hash`, the byte taken modulo the
/// size of the set.
pub open spec fn picked(charset: Seq<char>, hash: Seq<u8>) -> Seq<char> {
    Seq::new(hash.len(), |i: int| charset[(hash[i] as int) % (charset.len() as int)])
}

/// The character set for the given options.
pub fn build_charset(use_numbers: bool, use_special: bool) -> (charset: Vec<char>)
    ensures
        charset@ == password_charset(use_numbers, use_special),
{
    let mut charset: Vec<char> = vec![
        'a', 'b', 'c', 'd', 'e', 'f', 'g', 'h', 'i', 'j', 'k', 'l', 'm', 'n', 'o', 'p', 'q',
        'r', 's', 't', 'u', 'v', 'w', 'x', 'y', 'z',
    ];
    let mut upper: Vec<char> = vec![
        'A', 'B', 'C', 'D', 'E', 'F', 'G', 'H', 'I', 'J', 'K', 'L', 'M', 'N', 'O', 'P', 'Q',
        'R', 'S', 'T', 'U', 'V', 'W', 'X', 'Y', 'Z',
    ];
    assert(charset@ =~= lowercase_letters());
    assert(upper@ =~= uppercase_letters());
    charset.append(&mut upper);
    if use_numbers {
        let mut digits: Vec<char> = vec!['0', '1', '2', '3', '4', '5', '6', '7', '8', '9'];
        assert(digits@ =~= digit_chars());
        charset.append(&mut digits);
    }
    if use_special {
        let mut special: Vec<char> = vec![
            '!', '@', '#', '$', '%', '^', '&', '*', '(', ')', '-', '_', '=', '+', '[', ']', '{',
            '}', '|', ';', ':', ',', '.', '<', '>', '?',
        ];
        assert(special@ =~= special_chars());
        charset.append(&mut special);
    }
    assert(charset@ =~= password_charset(use_numbers, use_special));
    charset
}

/// Generates the password for `seed`: empty when the seed is empty, else
/// `length` characters from the chosen character set.
pub fn generate_password(seed: &str, length: usize, use_numbers: bool, use_special: bool) -> (pw:
    String)
    ensures
        pw@ == password_for(vstd::utf8::encode_utf8(seed@), length as nat, use_numbers, use_special),
{
    if seed.as_bytes().len() == 0 {
        return String::new();
    }
    let charset = build_charset(use_numbers, use_special);
    let hash = hash_seed(seed, length);
    pick_chars(&charset, &hash)
}

/// Picks one character of `charset` for each byte of `hash`.
pub fn pick_chars(charset: &Vec<char>, hash: &Vec<u8>) -> (out: String)
    requires
        charset.len() > 0,
    ensures
        out@ == picked(charset@, hash@),
{
    let size = charset.len();
    let n = hash.len();
    let mut out = String::new();
    let mut i: usize = 0;
    while i < n
        invariant
            i <= n == hash@.len(),
            size == charset@.len() > 0,
            out@ == picked(charset@, hash@).take(i as int),
        decreases n - i,
    {
        let c = charset[(hash[i] as usize) % size];
        push_char(&mut out, c);
        assert(out@ =~= picked(charset@, hash@).take(i + 1));
        i = i + 1;
    }
    assert(out@ =~= picked(charset@, hash@));
    out
}

/// A password for a non-empty seed has exactly the requested length.
pub proof fn lemma_password_length(seed: Seq<u8>, length: nat, use_numbers: bool, use_special: bool)
    requires
        seed.len() > 0,
    ensures
        password_for(seed, length, use_numbers, use_special).len() == length,
{
    lemma_seed_hash_shape(seed, length);
}

/// For a non-empty seed, a shorter password with the same options is the
/// start of a longer one.
pub proof fn lemma_password_prefix(
    seed: Seq<u8>,
    n: nat,
    m: nat,
    use_numbers: bool,
    use_special: bool,
)
    requires
        seed.len() > 0,
        n <= m,
    ensures
        password_for(seed, n, use_numbers, use_special) == password_for(
            seed,
            m,
            use_numbers,
            use_special,
        ).take(n as int),
{
    let charset = password_charset(use_numbers, use_special);
    lemma_seed_hash_prefix(seed, n, m);
    lemma_seed_hash_shape(seed, m);
    lemma_picked_prefix(charset, seed_hash(seed, m), n);
}

/// Picking for the start of the bytes gives the start of the picks.
proof fn lemma_picked_prefix(charset: Seq<char>, hash: Seq<u8>, n: nat)
    requires
        n <= hash.len(),
    ensures
        picked(charset, hash.take(n as int)) == picked(charset, hash).take(n as int),
{
    assert(picked(charset, hash.take(n as int)) =~= picked(charset, hash).take(n as int));
}

/// Every character of a password is a letter, a digit only when digits were
/// asked for, or a special character only when those were asked for.
pub proof fn lemma_password_alphabet(
    seed: Seq<u8>,
    length: nat,
    use_numbers: bool,
    use_special: bool,
)
    ensures
        forall|i: int|
            #![trigger password_for(seed, length, use_numbers, use_special)[i]]
            0 <= i < password_for(seed, length, use_numbers, use_special).len() ==> {
                let c = password_for(seed, length, use_numbers, use_special)[i];
                ||| lowercase_letters().contains(c)
                ||| uppercase_letters().contains(c)
                ||| (use_numbers && digit_chars().contains(c))
                ||| (use_special && special_chars().contains(c))
            },
{
    let charset = password_charset(use_numbers, use_special);
    let pw = password_for(seed, length, use_numbers, use_special);
    assert forall|i: int| 0 <= i < pw.len() implies {
        let c = #[trigger] pw[i];
        ||| lowercase_letters().contains(c)
        ||| uppercase_letters().contains(c)
        ||| (use_numbers && digit_chars().contains(c))
        ||| (use_special && special_chars().contains(c))
    } by {
        let hash = seed_hash(seed, length);
        lemma_seed_hash_shape(seed, length);
        let j = (hash[i] as int) % (charset.len() as int);
        assert(pw[i] == charset[j]);
        let lo = lowercase_letters();
        let up = uppercase_letters();
        let dg: Seq<char> = if use_numbers {
            digit_chars()
        } else {
            Seq::<char>::empty()
        };
        let sp: Seq<char> = if use_special {
            special_chars()
        } else {
            Seq::<char>::empty()
        };
        if j < 26 {
            assert(charset[j] == lo[j]);
        } else if j < 52 {
            assert(charset[j] == up[j - 26]);
        } else if j < 52 + dg.len() {
            assert(charset[j] == dg[j - 52]);
        } else {
            assert(charset[j] == sp[j - 52 - dg.len()]);
        }
    }
}

// ---------------------------------------------------------------------------
// Reading the requested length
// ---------------------------------------------------------------------------

/// Whether `c` is an ASCII decimal digit.
pub open spec fn is_ascii_digit(c: char) -> bool {
    '0' <= c && c <= '9'
}

/// The number written by the decimal digits `digits`.
pub open spec fn decimal_value(digits: Seq<char>) -> int
    decreases digits.len(),
{
    if digits.len() == 0 {
        0
    } else {
        decimal_value(digits.drop_last()) * 10 + (digits.last() as int - '0' as int)
    }
}

/// Whether `digits` is a non-empty run of ASCII decimal digits.
pub open spec fn all_digits(digits: Seq<char>) -> bool {
    digits.len() > 0 && forall|i: int| 0 <= i < digits.len() ==> is_ascii_digit(#[trigger] digits[i])
}

/// `text` without one leading `+`.
pub open spec fn without_plus(text: Seq<char>) -> Seq<char> {
    if text.len() > 0 && text[0] == '+' {
        text.drop_first()
    } else {
        text
    }
}

/// What `usize::from_str` reads from `text`: an optional `+` followed by at
/// least one ASCII digit and nothing else, naming a value that fits in a
/// `usize`; `None` for anything else.
pub open spec fn parsed_usize(text: Seq<char>) -> Option<usize> {
    let digits = without_plus(text);
    if all_digits(digits) && decimal_value(digits) <= usize::MAX {
        Some(decimal_value(digits) as usize)
    } else {
        None
    }
}

/// Over digits, a number is at least the number written by any of its
/// prefixes, and never negative.
proof fn lemma_decimal_prefix(digits: Seq<char>, j: int)
    requires
        0 <= j <= digits.len(),
        forall|i: int| 0 <= i < digits.len() ==> is_ascii_digit(#[trigger] digits[i]),
    ensures
        decimal_value(digits.take(j)) <= decimal_value(digits),
        0 <= decimal_value(digits.take(j)),
    decreases digits.len(),
{
    if j == digits.len() {
        assert(digits.take(j) =~= digits);
        if digits.len() > 0 {
            lemma_decimal_prefix(digits.drop_last(), j - 1);
            assert(digits.drop_last().take(j - 1) =~= digits.drop_last());
        }
    } else {
        let rest = digits.drop_last();
        lemma_decimal_prefix(rest, j);
        lemma_decimal_prefix(rest, rest.len() as int);
        assert(rest.take(j) =~= digits.take(j));
        assert(rest.take(rest.len() as int) =~= rest);
    }
}

/// Reads a `usize` written in decimal, as `usize::from_str` does: an
/// optional `+`, then only ASCII digits, naming a value that fits.
pub fn parse_usize(text: &str) -> (n: Option<usize>)
    ensures
        n == parsed_usize(text@),
{
    let chars = chars_of(text);
    let len = chars.len();
    let start: usize = if len > 0 && chars[0] == '+' {
        1
    } else {
        0
    };
    let ghost digits = without_plus(text@);
    assert(digits =~= chars@.skip(start as int));
    if start >= len {
        return None;
    }
    let mut value: usize = 0;
    let mut k: usize = start;
    assert(digits.take(0) =~= Seq::<char>::empty());
    while k < len
        invariant
            start <= k <= len == chars.len(),
            start < len,
            chars@ == text@,
            digits == without_plus(text@),
            digits == chars@.skip(start as int),
            digits.len() == len - start,
            forall|i: int| 0 <= i < k - start ==> is_ascii_digit(#[trigger] digits[i]),
            value == decimal_value(digits.take(k - start)),
        decreases len - k,
    {
        let c = chars[k];
        assert(c == digits[k - start]);
        if !('0' <= c && c <= '9') {
            assert(!is_ascii_digit(digits[k - start]));
            return None;
        }
        let d = ((c as u32) - ('0' as u32)) as usize;
        assert(digits.take(k - start + 1).drop_last() =~= digits.take(k - start));
        assert(decimal_value(digits.take(k - start + 1)) == value * 10 + d);
        let next = match value.checked_mul(10) {
            Some(m) => m.checked_add(d),
            None => None,
        };
        match next {
            Some(v) => {
                value = v;
            },
            None => {
                proof {
                    if all_digits(digits) {
                        lemma_decimal_prefix(digits, k - start + 1);
                    }
                }
                return None;
            },
        }
        k = k + 1;
    }
    assert(digits.take(len - start) =~= digits);
    Some(value)
}

/// The decimal numeral of `n`, most significant digit first, without
/// leading zeros.
pub open spec fn decimal_numeral(n: nat) -> Seq<char>
    decreases n,
{
    if n < 10 {
        seq![digit_chars()[n as int]]
    } else {
        decimal_numeral(n / 10).push(digit_chars()[(n % 10) as int])
    }
}

/// Each digit character stands for its position among the digits.
proof fn lemma_digit_values()
    ensures
        forall|k: int|
            0 <= k < 10 ==> is_ascii_digit(#[trigger] digit_chars()[k]) && digit_chars()[k] as int
                - '0' as int == k,
{
    assert forall|k: int| 0 <= k < 10 implies is_ascii_digit(#[trigger] digit_chars()[k])
        && digit_chars()[k] as int - '0' as int == k by {
        if k == 0 {
        } else if k == 1 {
        } else if k == 2 {
        } else if k == 3 {
        } else if k == 4 {
        } else if k == 5 {
        } else if k == 6 {
        } else if k == 7 {
        } else if k == 8 {
        } else {
        }
    }
}

/// A numeral is a run of digits that writes its number.
proof fn lemma_numeral_value(n: nat)
    ensures
        all_digits(decimal_numeral(n)),
        decimal_value(decimal_numeral(n)) == n,
    decreases n,
{
    lemma_digit_values();
    let s = decimal_numeral(n);
    if n < 10 {
        assert(s.drop_last() =~= Seq::<char>::empty());
        assert(digit_chars()[n as int] as int - '0' as int == n);
        assert(decimal_value(s) == decimal_value(s.drop_last()) * 10 + (s.last() as int - '0' as int));
    } else {
        lemma_numeral_value(n / 10);
        let d = (n % 10) as int;
        assert(s.drop_last() =~= decimal_numeral(n / 10));
        assert(s.last() == digit_chars()[d]);
        assert(digit_chars()[d] as int - '0' as int == d);
        assert(decimal_value(s) == decimal_value(s.drop_last()) * 10 + (s.last() as int - '0' as int));
        assert(forall|i: int| 0 <= i < s.len() - 1 ==> s[i] == decimal_numeral(n / 10)[i]);
        assert((n / 10) * 10 + n % 10 == n);
    }
}

/// Every number that fits in a `usize` is read back from its decimal
/// numeral, with or without a leading `+`.
pub proof fn lemma_numerals_are_read_back(n: nat)
    requires
        n <= usize::MAX,
    ensures
        parsed_usize(decimal_numeral(n)) == Some(n as usize),
        parsed_usize(seq!['+'] + decimal_numeral(n)) == Some(n as usize),
{
    lemma_numeral_value(n);
    let s = decimal_numeral(n);
    assert(is_ascii_digit(s[0]));
    assert(without_plus(s) == s);
    assert((seq!['+'] + s).drop_first() =~= s);
    assert(without_plus(seq!['+'] + s) == s);
}

/// The password length that the length slider's text asks for, or the
/// default length where the text is no number.
pub fn requested_length(text: &str) -> (n: usize)
    ensures
        n == match parsed_usize(text@) {
            Some(v) => v,
            None => DEFAULT_LENGTH,
        },
{
    match parse_usize(text) {
        Some(v) => v,
        None => DEFAULT_LENGTH,
    }
}

} // verus!
