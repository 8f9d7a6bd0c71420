//! A toy TLS-like handshake: modular exponentiation, a toy hash, a CA
//! signature over the server's name and Diffie-Hellman public key, key
//! derivation and an XOR stream cipher, plus the framing of handshake
//! messages. Every parameter is deliberately tiny; nothing here is secure.
use crate::primes::{is_prime, lemma_rsa_roundtrip};
use vstd::arithmetic::power::pow;
use vstd::prelude::*;
use vstd::string::StringSliceAdditionalSpecFns;

verus! {

/// Diffie-Hellman modulus, the Mersenne prime 2^61 - 1.
pub const DH_P: u64 = 2_305_843_009_213_693_951;
/// Diffie-Hellman generator.
pub const DH_G: u64 = 5;
/// The server's long-term Diffie-Hellman secret.
pub const SERVER_DH_PRIVATE: u64 = 9_876_543_210_987;
/// The CA's textbook RSA modulus 61 * 53.
pub const RSA_N: u64 = 3233;
/// The CA's public exponent.
pub const RSA_E: u64 = 17;
/// The CA's private exponent.
pub const RSA_D: u64 = 2753;
/// The name the server's certificate carries.
pub const SERVER_NAME: &'static str = "toytls.local";

pub const MSG_CLIENT_HELLO: u8 = 1;
pub const MSG_SERVER_HELLO: u8 = 2;
pub const MSG_CERTIFICATE: u8 = 3;
pub const MSG_SERVER_HELLO_DONE: u8 = 4;
pub const MSG_CLIENT_KEY_EXCHANGE: u8 = 5;
pub const MSG_FINISHED: u8 = 6;
pub const MSG_APP_DATA: u8 = 7;

// ---------------------------------------------------------------------------
// Modular exponentiation
// ---------------------------------------------------------------------------

proof fn lemma_mod_pow_step(r: int, b: int, e: nat, m: int)
    requires
        m > 0,
    ensures
        (r * pow(b, e)) % m == ((if e % 2 == 1 {
            (r * b) % m
        } else {
            r
        }) * pow((b * b) % m, e / 2)) % m,
{
    let h = e / 2;
    vstd::arithmetic::power::lemma_pow_multiplies(b, 2, h);
    vstd::arithmetic::power::lemma_square_is_pow2(b);
    assert(pow(b, 2) == b * b) by {
        vstd::arithmetic::power::lemma_pow1(b);
        vstd::arithmetic::power::lemma_pow_adds(b, 1, 1);
    }
    assert(pow(b, 2 * h) == pow(b * b, h));
    let q = pow(b * b, h);
    vstd::arithmetic::power::lemma_pow_mod_noop(b * b, h, m);
    assert(q % m == pow((b * b) % m, h) % m);
    let qm = pow((b * b) % m, h);
    if e % 2 == 1 {
        assert(e == 2 * h + 1);
        vstd::arithmetic::power::lemma_pow_adds(b, 2 * h, 1);
        vstd::arithmetic::power::lemma_pow1(b);
        assert(pow(b, e) == q * b);
        assert(r * pow(b, e) == (r * b) * q) by (nonlinear_arith)
            requires
                pow(b, e) == q * b,
        ;
        vstd::arithmetic::div_mod::lemma_mul_mod_noop_left(r * b, q, m);
        vstd::arithmetic::div_mod::lemma_mul_mod_noop_right((r * b) % m, q, m);
        vstd::arithmetic::div_mod::lemma_mul_mod_noop_right((r * b) % m, qm, m);
    } else {
        assert(e == 2 * h);
        vstd::arithmetic::div_mod::lemma_mul_mod_noop_right(r, q, m);
        vstd::arithmetic::div_mod::lemma_mul_mod_noop_right(r, qm, m);
    }
}

/// base^exp mod modulus by square-and-multiply (128-bit intermediates, so
/// no product overflows).
pub fn mod_pow(base: u64, exp: u64, modulus: u64) -> (r: u64)
    requires
        modulus > 0,
    ensures
        r == pow(base as int, exp as nat) % (modulus as int),
{
    if modulus == 1 {
        return 0;
    }
    let m: u128 = modulus as u128;
    let mut result: u128 = 1;
    let mut b: u128 = (base as u128) % m;
    let mut e: u64 = exp;
    proof {
        vstd::arithmetic::power::lemma_pow_mod_noop(base as int, exp as nat, m as int);
        vstd::arithmetic::div_mod::lemma_small_mod(1, m as nat);
        assert(pow(b as int, e as nat) % (m as int) == pow(base as int, exp as nat) % (m as int));
        assert((1 * pow(b as int, e as nat)) == pow(b as int, e as nat));
    }
    while e > 0
        invariant
            m == modulus,
            m > 1,
            result < m,
            b < m,
            (result * pow(b as int, e as nat)) % (m as int) == pow(base as int, exp as nat) % (
            m as int),
        decreases e,
    {
        proof {
            lemma_mod_pow_step(result as int, b as int, e as nat, m as int);
        }
        assert(result * b <= 0xFFFF_FFFF_FFFF_FFFFu128 * 0xFFFF_FFFF_FFFF_FFFFu128) by (nonlinear_arith)
            requires
                result < m,
                b < m,
                m <= 0xFFFF_FFFF_FFFF_FFFFu128,
        ;
        assert(b * b <= 0xFFFF_FFFF_FFFF_FFFFu128 * 0xFFFF_FFFF_FFFF_FFFFu128) by (nonlinear_arith)
            requires
                b < m,
                m <= 0xFFFF_FFFF_FFFF_FFFFu128,
        ;
        if e & 1 == 1 {
            assert(e % 2 == 1) by (bit_vector)
                requires
                    e & 1 == 1,
            ;
            result = result * b % m;
        } else {
            assert(e % 2 == 0) by (bit_vector)
                requires
                    e & 1 != 1,
            ;
        }
        let e0 = e;
        e = e >> 1;
        assert(e == e0 / 2) by (bit_vector)
            requires
                e == e0 >> 1,
        ;
        b = b * b % m;
    }
    proof {
        vstd::arithmetic::power::lemma_pow0(b as int);
        vstd::arithmetic::div_mod::lemma_small_mod(result as nat, m as nat);
    }
    result as u64
}

// ---------------------------------------------------------------------------
// Hash, randomness, key derivation, cipher
// ---------------------------------------------------------------------------

/// The toy hash: h := (h * 31 + byte) mod modulus over the bytes, with the
/// multiplication and addition wrapping at 64 bits.
pub open spec fn toy_hash_of(data: Seq<u8>, modulus: u64) -> u64
    decreases data.len(),
{
    if data.len() == 0 {
        0
    } else {
        (toy_hash_of(data.drop_last(), modulus).wrapping_mul(31).wrapping_add(
            data.last() as u64,
        ) % modulus) as u64
    }
}

/// Squashes `data` into a number below `modulus`.
pub fn toy_hash(data: &[u8], modulus: u64) -> (h: u64)
    requires
        modulus > 0,
    ensures
        h == toy_hash_of(data@, modulus),
        data@.len() > 0 ==> h < modulus,
{
    let mut h: u64 = 0;
    let mut i: usize = 0;
    while i < data.len()
        invariant
            i <= data@.len(),
            modulus > 0,
            h == toy_hash_of(data@.take(i as int), modulus),
            i > 0 ==> h < modulus,
        decreases data@.len() - i,
    {
        proof {
            assert(data@.take(i + 1).drop_last() =~= data@.take(i as int));
        }
        h = h.wrapping_mul(31).wrapping_add(data[i] as u64) % modulus;
        i = i + 1;
    }
    assert(data@.take(i as int) =~= data@);
    h
}

/// Diffie-Hellman agreement: each side raises the other's public value
/// (g^secret mod p) to its own secret, and both arrive at the same shared
/// secret.
pub proof fn dh_shared_secret_agrees(g: nat, p: nat, a: nat, b: nat)
    requires
        p > 0,
    ensures
        pow(pow(g as int, a) % (p as int), b) % (p as int) == pow(pow(g as int, b) % (p as int), a)
            % (p as int),
{
    vstd::arithmetic::power::lemma_pow_mod_noop(pow(g as int, a), b, p as int);
    vstd::arithmetic::power::lemma_pow_mod_noop(pow(g as int, b), a, p as int);
    vstd::arithmetic::power::lemma_pow_multiplies(g as int, a, b);
    vstd::arithmetic::power::lemma_pow_multiplies(g as int, b, a);
    vstd::arithmetic::mul::lemma_mul_is_commutative(a as int, b as int);
}

/// One step of the 64-bit linear congruential generator.
pub open spec fn lcg(s: u64) -> u64 {
    s.wrapping_mul(6_364_136_223_846_793_005).wrapping_add(1_442_695_040_888_963_407)
}

/// Advances the generator state and returns the new state.
pub fn next_rand(state: &mut u64) -> (r: u64)
    ensures
        *final(state) == lcg(*old(state)),
        r == *final(state),
{
    *state = state.wrapping_mul(6_364_136_223_846_793_005).wrapping_add(
        1_442_695_040_888_963_407,
    );
    *state
}

/// The seed made from a clock reading in nanoseconds: the reading's low 64
/// bits with the lowest bit set (so never 0), or a fixed odd value when the
/// clock reads before 1970.
pub fn seed_from_nanos(nanos: Option<u128>) -> (s: u64)
    ensures
        s == (match nanos {
            Some(n) => ((n % 0x1_0000_0000_0000_0000) as u64) | 1,
            None => 0x1234_5678_9abc_def0u64 | 1,
        }),
{
    match nanos {
        Some(n) => {
            let low: u64 = #[verifier::truncate] (n as u64);
            assert(low == n % 0x1_0000_0000_0000_0000) by (bit_vector)
                requires
                    low == n as u64,
            ;
            low | 1
        },
        None => 0x1234_5678_9abc_def0u64 | 1,
    }
}

/// The system clock's type, carried through unchanged.
#[verifier::external_type_specification]
#[verifier::external_body]
pub struct ExSystemTime(std::time::SystemTime);

/// Calls `SystemTime::now`. The reading depends on the machine's clock, so
/// nothing is stated of it.
#[verifier::external_body]
fn clock_now() -> std::time::SystemTime {
    std::time::SystemTime::now()
}

/// Calls `SystemTime::duration_since` with the Unix epoch, which documents
/// an error when `t` is earlier than the epoch; that error becomes `None`.
/// Nothing is stated of the duration.
#[verifier::external_body]
fn since_epoch(t: &std::time::SystemTime) -> Option<std::time::Duration> {
    t.duration_since(std::time::UNIX_EPOCH).ok()
}

/// Calls `Duration::as_nanos`. Nothing is stated of the value, since a
/// `Duration` is opaque here.
#[verifier::external_body]
fn total_nanos(d: &std::time::Duration) -> u128 {
    d.as_nanos()
}

/// A fresh generator seed from the clock: the low 64 bits of its
/// nanoseconds since the Unix epoch with the lowest bit set, or a fixed odd value if the clock reads
/// before 1970. Always odd, so never 0.
pub fn rng_seed() -> (s: u64)
    ensures
        s % 2 == 1,
{
    let nanos = match since_epoch(&clock_now()) {
        Some(d) => Some(total_nanos(&d)),
        None => None,
    };
    let s = seed_from_nanos(nanos);
    proof {
        match nanos {
            Some(n) => {
                let low = (n % 0x1_0000_0000_0000_0000) as u64;
                assert((low | 1) % 2 == 1) by (bit_vector);
            },
            None => {
                assert((0x1234_5678_9abc_def0u64 | 1) % 2 == 1) by (bit_vector);
            },
        }
    }
    s
}

/// 64-bit rotation to the left by `k` (0 < k < 64).
pub open spec fn rotl(x: u64, k: u64) -> u64 {
    (x << k) | (x >> (64 - k) as u64)
}

/// Mixes the shared secret with both randoms, forces the value odd and runs
/// the generator three times over it.
pub open spec fn session_key_of(shared_secret: u64, client_random: u64, server_random: u64) -> u64 {
    lcg(lcg(lcg((shared_secret ^ rotl(client_random, 17) ^ rotl(server_random, 31)) | 1)))
}

/// The generator step as integer arithmetic modulo 2^64.
proof fn lemma_lcg_int(x: u64)
    ensures
        lcg(x) as int == (x as int * 6_364_136_223_846_793_005 + 1_442_695_040_888_963_407) % (
        0x1_0000_0000_0000_0000int),
{
    let m = 0x1_0000_0000_0000_0000int;
    let p = (x as int * 6_364_136_223_846_793_005) % m;
    vstd::arithmetic::div_mod::lemma_mod_bound(x as int * 6_364_136_223_846_793_005, m);
    vstd::arithmetic::div_mod::lemma_add_mod_noop(
        x as int * 6_364_136_223_846_793_005,
        1_442_695_040_888_963_407,
        m,
    );
    vstd::arithmetic::div_mod::lemma_small_mod(1_442_695_040_888_963_407, m as nat);
    let q = p + 1_442_695_040_888_963_407;
    if q >= m {
        vstd::arithmetic::div_mod::lemma_mod_sub_multiples_vanish(q, m);
        vstd::arithmetic::div_mod::lemma_small_mod((q - m) as nat, m as nat);
    } else {
        vstd::arithmetic::div_mod::lemma_small_mod(q as nat, m as nat);
    }
}

/// The generator step is one-to-one (its multiplier is odd, so invertible
/// modulo 2^64).
proof fn lemma_lcg_injective(x: u64, y: u64)
    requires
        lcg(x) == lcg(y),
    ensures
        x == y,
{
    let m = 0x1_0000_0000_0000_0000int;
    let a = 6_364_136_223_846_793_005int;
    let b = 1_442_695_040_888_963_407int;
    lemma_lcg_int(x);
    lemma_lcg_int(y);
    vstd::arithmetic::div_mod::lemma_mod_equivalence(x * a + b, y * a + b, m);
    let d = x as int - y as int;
    assert((x * a + b) - (y * a + b) == d * a) by (nonlinear_arith)
        requires
            d == x as int - y as int,
    ;
    vstd::arithmetic::div_mod::lemma_fundamental_div_mod(d * a, m);
    let q = (d * a) / m;
    assert(d * a == m * q);
    // a * 13877824140714322085 == 1 + 4787856489426250814 * m
    assert(d == m * (q * 13_877_824_140_714_322_085 - d * 4_787_856_489_426_250_814))
        by (nonlinear_arith)
        requires
            d * a == m * q,
            a == 6_364_136_223_846_793_005,
            m == 0x1_0000_0000_0000_0000int,
    ;
    let w = q * 13_877_824_140_714_322_085 - d * 4_787_856_489_426_250_814;
    assert(w == 0) by (nonlinear_arith)
        requires
            d == m * w,
            -m < d < m,
            m > 0,
    ;
}

/// The session key depends on both hello randoms: for a fixed shared secret,
/// two client randoms give the same key exactly when they differ at most in
/// bit 47 (rotated to bit 0, which the derivation forces to 1), and two
/// server randoms exactly when they differ at most in bit 33.
pub proof fn session_key_uses_randoms(secret: u64, c1: u64, c2: u64, r1: u64, r2: u64)
    ensures
        (session_key_of(secret, c1, r1) == session_key_of(secret, c2, r1)) <==> (c1 ^ c2)
            & 0xFFFF_7FFF_FFFF_FFFF == 0,
        (session_key_of(secret, c1, r1) == session_key_of(secret, c1, r2)) <==> (r1 ^ r2)
            & 0xFFFF_FFFD_FFFF_FFFF == 0,
{
    let m11 = (secret ^ rotl(c1, 17) ^ rotl(r1, 31)) | 1;
    let m21 = (secret ^ rotl(c2, 17) ^ rotl(r1, 31)) | 1;
    let m12 = (secret ^ rotl(c1, 17) ^ rotl(r2, 31)) | 1;
    if session_key_of(secret, c1, r1) == session_key_of(secret, c2, r1) {
        lemma_lcg_injective(lcg(lcg(m11)), lcg(lcg(m21)));
        lemma_lcg_injective(lcg(m11), lcg(m21));
        lemma_lcg_injective(m11, m21);
    }
    if session_key_of(secret, c1, r1) == session_key_of(secret, c1, r2) {
        lemma_lcg_injective(lcg(lcg(m11)), lcg(lcg(m12)));
        lemma_lcg_injective(lcg(m11), lcg(m12));
        lemma_lcg_injective(m11, m12);
    }
    assert((((secret ^ ((c1 << 17u64) | (c1 >> 47u64)) ^ ((r1 << 31u64) | (r1 >> 33u64))) | 1)
        == ((secret ^ ((c2 << 17u64) | (c2 >> 47u64)) ^ ((r1 << 31u64) | (r1 >> 33u64))) | 1))
        <==> ((c1 ^ c2) & 0xFFFF_7FFF_FFFF_FFFF == 0)) by (bit_vector);
    assert((((secret ^ ((c1 << 17u64) | (c1 >> 47u64)) ^ ((r1 << 31u64) | (r1 >> 33u64))) | 1)
        == ((secret ^ ((c1 << 17u64) | (c1 >> 47u64)) ^ ((r2 << 31u64) | (r2 >> 33u64))) | 1))
        <==> ((r1 ^ r2) & 0xFFFF_FFFD_FFFF_FFFF == 0)) by (bit_vector);
    assert(rotl(c1, 17) == ((c1 << 17u64) | (c1 >> 47u64)));
    assert(rotl(c2, 17) == ((c2 << 17u64) | (c2 >> 47u64)));
    assert(rotl(r1, 31) == ((r1 << 31u64) | (r1 >> 33u64)));
    assert(rotl(r2, 31) == ((r2 << 31u64) | (r2 >> 33u64)));
}

/// Derives the session key from the Diffie-Hellman secret and the two
/// hello randoms, so that the same secret gives a new key per session.
pub fn derive_session_key(shared_secret: u64, client_random: u64, server_random: u64) -> (k: u64)
    ensures
        k == session_key_of(shared_secret, client_random, server_random),
{
    let cr = (client_random << 17u64) | (client_random >> 47u64);
    let sr = (server_random << 31u64) | (server_random >> 33u64);
    let mut mixed = shared_secret ^ cr ^ sr;
    mixed = mixed | 1;
    let mut n: usize = 0;
    while n < 3
        invariant
            n <= 3,
            mixed == (if n == 0 {
                (shared_secret ^ rotl(client_random, 17) ^ rotl(server_random, 31)) | 1
            } else if n == 1 {
                lcg((shared_secret ^ rotl(client_random, 17) ^ rotl(server_random, 31)) | 1)
            } else if n == 2 {
                lcg(lcg((shared_secret ^ rotl(client_random, 17) ^ rotl(server_random, 31)) | 1))
            } else {
                session_key_of(shared_secret, client_random, server_random)
            }),
        decreases 3 - n,
    {
        mixed = mixed.wrapping_mul(6_364_136_223_846_793_005).wrapping_add(
            1_442_695_040_888_963_407,
        );
        n = n + 1;
    }
    mixed
}

/// The generator state after `i + 1` steps from the key made odd.
pub open spec fn keystream_state(key: u64, i: nat) -> u64
    decreases i,
{
    if i == 0 {
        lcg(key | 1)
    } else {
        lcg(keystream_state(key, (i - 1) as nat))
    }
}

/// Keystream byte `i`: bits 33..40 of the generator state.
pub open spec fn keystream_byte(key: u64, i: nat) -> u8 {
    (keystream_state(key, i) >> 33u64) as u8
}

/// Each byte XOR-ed with the keystream byte at its position.
pub open spec fn xor_stream(data: Seq<u8>, key: u64) -> Seq<u8> {
    Seq::new(data.len(), |i: int| data[i] ^ keystream_byte(key, i as nat))
}

/// The toy stream cipher; encrypting and decrypting are the same operation.
pub fn xor_cipher(data: &[u8], session_key: u64) -> (out: Vec<u8>)
    ensures
        out@ == xor_stream(data@, session_key),
{
    let mut state = session_key | 1;
    let mut out: Vec<u8> = Vec::new();
    let mut i: usize = 0;
    while i < data.len()
        invariant
            i <= data@.len(),
            out@.len() == i,
            forall|j: int| 0 <= j < i ==> out@[j] == data@[j] ^ keystream_byte(session_key, j as nat),
            i == 0 ==> state == session_key | 1,
            i > 0 ==> state == keystream_state(session_key, (i - 1) as nat),
        decreases data@.len() - i,
    {
        state = state.wrapping_mul(6_364_136_223_846_793_005).wrapping_add(
            1_442_695_040_888_963_407,
        );
        let keystream = (state >> 33u64) as u8;
        out.push(data[i] ^ keystream);
        i = i + 1;
    }
    assert(out@ =~= xor_stream(data@, session_key));
    out
}

/// XOR with the same keystream twice gives the data back: decryption undoes
/// encryption under the same session key.
pub proof fn xor_cipher_involution(data: Seq<u8>, key: u64)
    ensures
        xor_stream(xor_stream(data, key), key) == data,
{
    assert forall|i: int| 0 <= i < data.len() implies xor_stream(xor_stream(data, key), key)[i]
        == data[i] by {
        let k = keystream_byte(key, i as nat);
        let d = data[i];
        assert((d ^ k) ^ k == d) by (bit_vector);
    }
    assert(xor_stream(xor_stream(data, key), key) =~= data);
}

/// The handshake's two ends meet: with the client's secret `c` and the
/// server's secret `s`, each side raises the other's public value (DH_G to
/// its secret modulo DH_P) to its own secret, both reach the same shared
/// secret and so derive the same session key from the two hello randoms,
/// and whatever one side encrypts under its key the other decrypts back.
pub proof fn handshake_channel_agrees(
    c: u64,
    s: u64,
    client_random: u64,
    server_random: u64,
    data: Seq<u8>,
)
    ensures
        ({
            let p = DH_P as int;
            let client_shared = pow(pow(DH_G as int, s as nat) % p, c as nat) % p;
            let server_shared = pow(pow(DH_G as int, c as nat) % p, s as nat) % p;
            let kc = session_key_of(client_shared as u64, client_random, server_random);
            let ks = session_key_of(server_shared as u64, client_random, server_random);
            &&& client_shared == server_shared
            &&& kc == ks
            &&& xor_stream(xor_stream(data, kc), ks) == data
        }),
{
    dh_shared_secret_agrees(DH_G as nat, DH_P as nat, s as nat, c as nat);
    let p = DH_P as int;
    let client_shared = pow(pow(DH_G as int, s as nat) % p, c as nat) % p;
    let kc = session_key_of(client_shared as u64, client_random, server_random);
    xor_cipher_involution(data, kc);
}

// ---------------------------------------------------------------------------
// Certificate
// ---------------------------------------------------------------------------

/// The eight big-endian bytes of a 64-bit value.
pub open spec fn u64_bytes(v: u64) -> Seq<u8> {
    Seq::new(8, |i: int| ((v as int / pow(256, (7 - i) as nat)) % 256) as u8)
}

pub(crate) fn push_u64(buf: &mut Vec<u8>, v: u64)
    ensures
        final(buf)@ == old(buf)@ + u64_bytes(v),
{
    let mut i: usize = 0;
    while i < 8
        invariant
            i <= 8,
            buf@ == old(buf)@ + u64_bytes(v).take(i as int),
        decreases 8 - i,
    {
        let shift: u64 = (7 - i as u64) * 8;
        let byte = ((v >> shift) & 0xFF) as u8;
        proof {
            lemma_byte_of(v, (7 - i) as nat);
        }
        buf.push(byte);
        i = i + 1;
        assert(buf@ =~= old(buf)@ + u64_bytes(v).take(i as int));
    }
    assert(u64_bytes(v).take(8) =~= u64_bytes(v));
}

proof fn lemma_pow256(k: nat)
    ensures
        pow(256, k) == vstd::arithmetic::power2::pow2(k * 8),
{
    vstd::arithmetic::power2::lemma2_to64();
    vstd::arithmetic::power2::lemma_pow2(8);
    vstd::arithmetic::power2::lemma_pow2(k * 8);
    vstd::arithmetic::power::lemma_pow_multiplies(2, 8, k);
    assert(8 * k == k * 8) by (nonlinear_arith);
}

proof fn lemma_byte_of(v: u64, k: nat)
    requires
        k < 8,
    ensures
        ((v >> ((k * 8) as u64)) & 0xFF) as u8 == ((v as int / pow(256, k)) % 256) as u8,
{
    let s: u64 = (k * 8) as u64;
    vstd::bits::lemma_u64_shr_is_div(v, s);
    lemma_pow256(k);
    let q: u64 = v >> s;
    assert(q & 0xFF == q % 256) by (bit_vector);
}

proof fn lemma_same_byte(a: u64, b: u64, k: nat)
    requires
        u64_bytes(a) == u64_bytes(b),
        k < 8,
    ensures
        ((a >> ((k * 8) as u64)) & 0xFF) as u8 == ((b >> ((k * 8) as u64)) & 0xFF) as u8,
{
    lemma_byte_of(a, k);
    lemma_byte_of(b, k);
    let i = 7 - k as int;
    assert(((7 - i) as nat) == k);
    assert(u64_bytes(a)[i] == ((a as int / pow(256, k)) % 256) as u8);
    assert(u64_bytes(b)[i] == ((b as int / pow(256, k)) % 256) as u8);
    assert(u64_bytes(a)[i] == u64_bytes(b)[i]);
}

/// Different values have different big-endian bytes.
pub(crate) proof fn lemma_u64_bytes_injective(a: u64, b: u64)
    requires
        u64_bytes(a) == u64_bytes(b),
    ensures
        a == b,
{
    lemma_same_byte(a, b, 0);
    lemma_same_byte(a, b, 1);
    lemma_same_byte(a, b, 2);
    lemma_same_byte(a, b, 3);
    lemma_same_byte(a, b, 4);
    lemma_same_byte(a, b, 5);
    lemma_same_byte(a, b, 6);
    lemma_same_byte(a, b, 7);
    assert(a == b) by (bit_vector)
        requires
            ((a >> 0u64) & 0xFF) as u8 == ((b >> 0u64) & 0xFF) as u8,
            ((a >> 8u64) & 0xFF) as u8 == ((b >> 8u64) & 0xFF) as u8,
            ((a >> 16u64) & 0xFF) as u8 == ((b >> 16u64) & 0xFF) as u8,
            ((a >> 24u64) & 0xFF) as u8 == ((b >> 24u64) & 0xFF) as u8,
            ((a >> 32u64) & 0xFF) as u8 == ((b >> 32u64) & 0xFF) as u8,
            ((a >> 40u64) & 0xFF) as u8 == ((b >> 40u64) & 0xFF) as u8,
            ((a >> 48u64) & 0xFF) as u8 == ((b >> 48u64) & 0xFF) as u8,
            ((a >> 56u64) & 0xFF) as u8 == ((b >> 56u64) & 0xFF) as u8,
    ;
}

/// The bytes the CA hashes: the name, then the public key in big-endian.
pub open spec fn cert_data(name: Seq<u8>, dh_public: u64) -> Seq<u8> {
    name + u64_bytes(dh_public)
}

/// The digest the CA signs: the toy hash of name and key, modulo the RSA
/// modulus.
pub fn cert_digest(name: &str, dh_public: u64) -> (d: u64)
    ensures
        d == toy_hash_of(cert_data(name.spec_bytes(), dh_public), RSA_N),
        d < RSA_N,
{
    let mut data: Vec<u8> = Vec::new();
    data.extend_from_slice(name.as_bytes());
    push_u64(&mut data, dh_public);
    proof {
        assert(data@ =~= cert_data(name.spec_bytes(), dh_public));
    }
    toy_hash(data.as_slice(), RSA_N)
}

/// The CA's signature: digest^d mod n with the CA's private exponent.
pub fn ca_sign(name: &str, dh_public: u64) -> (s: u64)
    ensures
        s == pow(toy_hash_of(cert_data(name.spec_bytes(), dh_public), RSA_N) as int, RSA_D as nat)
            % (RSA_N as int),
{
    let digest = cert_digest(name, dh_public);
    mod_pow(digest, RSA_D, RSA_N)
}

/// 61 and 53 are prime and 17 * 2753 is 1 modulo (61 - 1)(53 - 1).
proof fn lemma_ca_key()
    ensures
        is_prime(61),
        is_prime(53),
        (17nat * 2753nat) % ((61nat - 1) * (53nat - 1)) as nat == 1,
        (2753nat * 17nat) % ((61nat - 1) * (53nat - 1)) as nat == 1,
{
    assert(forall|d: u8| 1 < d < 61 ==> #[trigger] (61u8 % d) != 0) by (bit_vector);
    assert(forall|d: u8| 1 < d < 53 ==> #[trigger] (53u8 % d) != 0) by (bit_vector);
    assert forall|d: nat| 1 < d < 61 implies #[trigger] (61nat % d) != 0 by {
        assert(61u8 % (d as u8) != 0);
    }
    assert forall|d: nat| 1 < d < 53 implies #[trigger] (53nat % d) != 0 by {
        assert(53u8 % (d as u8) != 0);
    }
    assert(17nat * 2753nat == 15 * 3120 + 1);
    assert(2753nat * 17nat == 15 * 3120 + 1);
    assert(((61nat - 1) * (53nat - 1)) as nat == 3120);
    vstd::arithmetic::div_mod::lemma_fundamental_div_mod_converse_mod(46801, 3120, 15, 1);
}

/// The CA's key really is a textbook RSA pair: whatever name and key a
/// certificate carries, raising the CA's signature over them to the public
/// exponent modulo n gives back their digest, so a certificate signed by
/// the CA passes the check below.
pub proof fn ca_signature_verifies(name: Seq<u8>, dh_public: u64)
    ensures
        pow(
            pow(toy_hash_of(cert_data(name, dh_public), RSA_N) as int, RSA_D as nat) % (
            RSA_N as int),
            RSA_E as nat,
        ) % (RSA_N as int) == toy_hash_of(cert_data(name, dh_public), RSA_N),
{
    let data = cert_data(name, dh_public);
    if data.len() > 0 {
        assert(toy_hash_of(data, RSA_N) < RSA_N);
    }
    lemma_ca_key();
    lemma_rsa_roundtrip(61, 53, 17, 2753, toy_hash_of(data, RSA_N) as nat);
}

/// Tampering is detected: the certificate check accepts a signature for a
/// name and key exactly when it equals the CA's signature over them modulo
/// n, so changing a signature below n in any way (a flipped bit, say) makes
/// the check fail.
pub proof fn certificate_check_exact(name: Seq<u8>, dh_public: u64, signature: u64)
    ensures
        (pow(signature as int, RSA_E as nat) % (RSA_N as int) == toy_hash_of(
            cert_data(name, dh_public),
            RSA_N,
        )) <==> ((signature as int) % (RSA_N as int) == pow(
            toy_hash_of(cert_data(name, dh_public), RSA_N) as int,
            RSA_D as nat,
        ) % (RSA_N as int)),
{
    let n = RSA_N as int;
    let h = toy_hash_of(cert_data(name, dh_public), RSA_N);
    let s = (signature as int) % n;
    vstd::arithmetic::div_mod::lemma_mod_bound(signature as int, n);
    vstd::arithmetic::power::lemma_pow_mod_noop(signature as int, RSA_E as nat, n);
    lemma_ca_key();
    // Accepted implies it is the CA's signature: undo the public exponent.
    lemma_rsa_roundtrip(61, 53, 2753, 17, s as nat);
    // The CA's signature (reduced) is accepted.
    ca_signature_verifies(name, dh_public);
}

/// Checks a signature with the CA's public exponent: signature^e mod n must
/// equal the digest recomputed from the name and key.
pub fn verify_cert(name: &str, dh_public: u64, signature: u64) -> (ok: bool)
    ensures
        ok == (pow(signature as int, RSA_E as nat) % (RSA_N as int) == toy_hash_of(
            cert_data(name.spec_bytes(), dh_public),
            RSA_N,
        )),
{
    let recovered = mod_pow(signature, RSA_E, RSA_N);
    recovered == cert_digest(name, dh_public)
}

// ---------------------------------------------------------------------------
// Message framing and handshake payloads
// ---------------------------------------------------------------------------

/// A message on the wire: type byte, payload length as 4 big-endian bytes
/// (the length truncated to 32 bits), payload.
pub open spec fn frame_bytes(msg_type: u8, payload: Seq<u8>) -> Seq<u8> {
    seq![msg_type] + crate::dns::u32_bytes(payload.len() as u32) + payload
}

/// Frames a handshake message.
pub fn frame(msg_type: u8, payload: &[u8]) -> (out: Vec<u8>)
    ensures
        out@ == frame_bytes(msg_type, payload@),
{
    let mut out: Vec<u8> = Vec::new();
    out.push(msg_type);
    let len = payload.len() as u32;
    out.push((len / 16777216) as u8);
    out.push(((len / 65536) % 256) as u8);
    out.push(((len / 256) % 256) as u8);
    out.push((len % 256) as u8);
    out.extend_from_slice(payload);
    assert(out@ =~= frame_bytes(msg_type, payload@));
    out
}

/// The type and payload length a 5-byte frame header announces.
pub fn frame_header(header: [u8; 5]) -> (r: (u8, usize))
    ensures
        r.0 == header@[0],
        r.1 == crate::dns::be32(header@, 1),
{
    let len: u32 = (header[1] as u32) * 16777216 + (header[2] as u32) * 65536 + (header[3] as u32)
        * 256 + header[4] as u32;
    (header[0], len as usize)
}

/// Reads the first 8 bytes as a big-endian `u64`.
pub fn read_u64(bytes: &[u8]) -> (v: u64)
    requires
        bytes@.len() >= 8,
    ensures
        u64_bytes(v) == bytes@.subrange(0, 8),
{
    let mut v: u64 = 0;
    let mut i: usize = 0;
    proof {
        vstd::arithmetic::power::lemma_pow0(256);
        assert(u64_bytes_low(v, 0) =~= bytes@.subrange(0, 0));
    }
    while i < 8
        invariant
            i <= 8,
            bytes@.len() >= 8,
            v < pow(256, i as nat),
            u64_bytes_low(v, i as nat) == bytes@.subrange(0, i as int),
        decreases 8 - i,
    {
        proof {
            lemma_shift_in(v, bytes@[i as int], i as nat);
            assert(bytes@.subrange(0, i + 1) =~= bytes@.subrange(0, i as int).push(bytes@[i as int]));
        }
        v = v * 256 + bytes[i] as u64;
        i = i + 1;
    }
    proof {
        lemma_u64_bytes_low_full(v);
    }
    v
}

/// The `n` leading big-endian bytes of an `n`-byte value.
pub open spec fn u64_bytes_low(v: u64, n: nat) -> Seq<u8> {
    Seq::new(n, |i: int| ((v as int / pow(256, (n - 1 - i) as nat)) % 256) as u8)
}

proof fn lemma_shift_in(v: u64, b: u8, n: nat)
    requires
        n < 8,
        v < pow(256, n),
    ensures
        v * 256 + b < pow(256, n + 1),
        v * 256 + b <= u64::MAX,
        u64_bytes_low((v * 256 + b) as u64, n + 1) == u64_bytes_low(v, n).push(b),
{
    vstd::arithmetic::power::lemma_pow_adds(256, n, 1);
    vstd::arithmetic::power::lemma_pow1(256);
    assert(v * 256 + b < pow(256, n + 1)) by (nonlinear_arith)
        requires
            v < pow(256, n),
            pow(256, n + 1) == pow(256, n) * 256,
            b < 256,
    ;
    vstd::arithmetic::power::lemma_pow_increases(256, n + 1, 8);
    lemma_pow256(8);
    vstd::arithmetic::power2::lemma2_to64();
    let w: int = v * 256 + b;
    assert forall|i: int| 0 <= i < n + 1 implies #[trigger] u64_bytes_low(w as u64, n + 1)[i]
        == u64_bytes_low(v, n).push(b)[i] by {
        if i == n {
            vstd::arithmetic::power::lemma_pow0(256);
            assert(w % 256 == b) by (nonlinear_arith)
                requires
                    w == v * 256 + b,
                    b < 256,
                    v >= 0,
            ;
        } else {
            let k = (n - 1 - i) as nat;
            vstd::arithmetic::power::lemma_pow_adds(256, k, 1);
            vstd::arithmetic::power::lemma_pow_positive(256, k);
            let p = pow(256, k);
            assert(w / (p * 256) == (v as int) / p) by {
                vstd::arithmetic::div_mod::lemma_div_denominator(w, 256, p);
                assert(w / 256 == v) by (nonlinear_arith)
                    requires
                        w == v * 256 + b,
                        b < 256,
                        v >= 0,
                ;
                vstd::arithmetic::mul::lemma_mul_is_commutative(256, p);
            }
            assert(pow(256, (n + 1 - 1 - i) as nat) == p * 256);
        }
    }
    assert(u64_bytes_low((v * 256 + b) as u64, n + 1) =~= u64_bytes_low(v, n).push(b));
}

proof fn lemma_u64_bytes_low_full(v: u64)
    ensures
        u64_bytes_low(v, 8) == u64_bytes(v),
{
    assert(u64_bytes_low(v, 8) =~= u64_bytes(v));
}

} // verus!

verus! {

/// A hello message's payload: the sender's random, then its cipher list.
pub fn hello_payload(random: u64, ciphers: &str) -> (out: Vec<u8>)
    ensures
        out@ == u64_bytes(random) + ciphers.spec_bytes(),
{
    let mut out: Vec<u8> = Vec::new();
    push_u64(&mut out, random);
    out.extend_from_slice(ciphers.as_bytes());
    out
}

/// The certificate message's payload: public key, CA signature, name.
pub fn certificate_payload(dh_public: u64, signature: u64, name: &str) -> (out: Vec<u8>)
    ensures
        out@ == u64_bytes(dh_public) + u64_bytes(signature) + name.spec_bytes(),
{
    let mut out: Vec<u8> = Vec::new();
    push_u64(&mut out, dh_public);
    push_u64(&mut out, signature);
    out.extend_from_slice(name.as_bytes());
    out
}

/// Splits a certificate payload into public key, signature and name (the
/// name's bytes read as UTF-8, invalid sequences replaced).
pub fn parse_certificate(cert: &[u8]) -> (r: (u64, u64, String))
    requires
        cert@.len() >= 16,
    ensures
        u64_bytes(r.0) == cert@.subrange(0, 8),
        u64_bytes(r.1) == cert@.subrange(8, 16),
        r.2@ == crate::text::utf8_lossy(cert@.subrange(16, cert@.len() as int)),
{
    let dh_public = read_u64(&cert[0..8]);
    let signature = read_u64(&cert[8..16]);
    let name = crate::text::from_utf8_lossy(&cert[16..cert.len()]);
    proof {
        assert(cert@.subrange(0, 8).subrange(0, 8) =~= cert@.subrange(0, 8));
        assert(cert@.subrange(8, 16).subrange(0, 8) =~= cert@.subrange(8, 16));
    }
    (dh_public, signature, name)
}

/// What the client concludes from the server's certificate.
#[derive(PartialEq, Eq, Structural)]
pub enum CertCheck {
    /// Signed by the CA and issued to the expected server.
    Trusted,
    /// The CA's signature does not verify: possibly a man in the middle.
    BadSignature,
    /// A valid certificate for another name.
    WrongName,
}

/// The client's decision: the signature is checked first, then the name.
pub fn check_certificate(name: &str, dh_public: u64, signature: u64) -> (c: CertCheck)
    ensures
        c == (if pow(signature as int, RSA_E as nat) % (RSA_N as int) != toy_hash_of(
            cert_data(name.spec_bytes(), dh_public),
            RSA_N,
        ) {
            CertCheck::BadSignature
        } else if name@ != SERVER_NAME@ {
            CertCheck::WrongName
        } else {
            CertCheck::Trusted
        }),
{
    if !verify_cert(name, dh_public, signature) {
        return CertCheck::BadSignature;
    }
    let expected = String::from_str(SERVER_NAME);
    let got = String::from_str(name);
    if got != expected {
        return CertCheck::WrongName;
    }
    CertCheck::Trusted
}

/// The client's ephemeral Diffie-Hellman secret from a random number: in
/// 1 ..= p - 2.
pub fn client_dh_private(rand: u64) -> (x: u64)
    ensures
        x == rand % ((DH_P - 2) as u64) + 1,
        1 <= x <= DH_P - 2,
{
    (rand % (DH_P - 2)) + 1
}

pub open spec fn http_ok_html(body: Seq<char>) -> Seq<char> {
    "HTTP/1.1 200 OK\r\nContent-Type: text/html\r\nContent-Length: "@ + crate::text::dec(
        (vstd::utf8::encode_utf8(body).len() as usize) as nat,
    ) + "\r\n\r\n"@ + body
}

/// The HTTP response the server sends over the encrypted channel.
pub fn server_response(body: &str) -> (s: String)
    ensures
        s@ == http_ok_html(body@),
{
    let mut s = String::from_str("HTTP/1.1 200 OK\r\nContent-Type: text/html\r\nContent-Length: ");
    let n = body.len();
    crate::text::push_dec(&mut s, n as u64);
    s.append("\r\n\r\n");
    s.append(body);
    s
}

} // verus!
