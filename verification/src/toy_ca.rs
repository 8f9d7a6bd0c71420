//! A toy certificate authority: textbook RSA keys, certificates signed over
//! their to-be-signed bytes, and verification of a root -> intermediate ->
//! server chain. The keys are tiny; nothing here is secure.
pub use crate::toy_tls::mod_pow;
use crate::primes::{is_prime, lemma_rsa_roundtrip};
use crate::text::{dec, push_dec};
use crate::toy_tls::{lemma_u64_bytes_injective, push_u64, u64_bytes};
use vstd::arithmetic::power::pow;
use vstd::prelude::*;
use vstd::string::StringSliceAdditionalSpecFns;

verus! {

// ---------------------------------------------------------------------------
// Number theory
// ---------------------------------------------------------------------------

/// Greatest common divisor by Euclid's algorithm.
pub open spec fn gcd_of(a: nat, b: nat) -> nat
    decreases b,
{
    if b == 0 {
        a
    } else {
        gcd_of(b, a % b)
    }
}

/// The coefficients (s, t) of Bezout's identity s a + t b = gcd(a, b) as the
/// extended Euclidean algorithm finds them.
pub open spec fn bezout_pair(a: nat, b: nat) -> (int, int)
    decreases b,
{
    if b == 0 {
        (1, 0)
    } else {
        let (s, t) = bezout_pair(b, a % b);
        (t, s - t * ((a / b) as int))
    }
}

/// Greatest common divisor.
pub fn gcd(a: u64, b: u64) -> (g: u64)
    ensures
        g == gcd_of(a as nat, b as nat),
    decreases b,
{
    if b == 0 {
        a
    } else {
        gcd(b, a % b)
    }
}

pub open spec fn abs(x: int) -> int {
    if x < 0 {
        -x
    } else {
        x
    }
}

proof fn lemma_bezout_step(old_r: int, r: int, old_s: int, s: int, q: int, m: int)
    requires
        r >= 1,
        old_r >= 0,
        q == old_r / r,
        abs(old_s) * r + abs(s) * old_r == m,
        old_s * s <= 0,
    ensures
        abs(s) * (old_r - q * r) + abs(old_s - q * s) * r == m,
        s * (old_s - q * s) <= 0,
        q >= 0,
        q * r <= old_r,
        q * abs(s) <= m,
        abs(old_s - q * s) == abs(old_s) + q * abs(s),
{
    vstd::arithmetic::div_mod::lemma_fundamental_div_mod(old_r, r);
    vstd::arithmetic::div_mod::lemma_div_pos_is_pos(old_r, r);
    assert(q >= 0);
    assert(q * r <= old_r) by {
        vstd::arithmetic::div_mod::lemma_mod_pos_bound(old_r, r);
    }
    assert(abs(old_s - q * s) == abs(old_s) + q * abs(s)) by (nonlinear_arith)
        requires
            old_s * s <= 0,
            q >= 0,
    ;
    assert(abs(s) * (old_r - q * r) + (abs(old_s) + q * abs(s)) * r == abs(old_s) * r + abs(s)
        * old_r) by (nonlinear_arith);
    assert(s * (old_s - q * s) <= 0) by (nonlinear_arith)
        requires
            old_s * s <= 0,
            q >= 0,
    ;
    assert(q * abs(s) * r <= abs(s) * old_r) by (nonlinear_arith)
        requires
            q * r <= old_r,
            q >= 0,
    ;
    assert(q * abs(s) <= m) by (nonlinear_arith)
        requires
            q * abs(s) * r <= abs(s) * old_r,
            abs(old_s) * r + abs(s) * old_r == m,
            r >= 1,
            q >= 0,
    ;
}

/// The inverse of `a` modulo `m` by the extended Euclidean algorithm: its
/// Bezout coefficient for `a` reduced modulo `m`, which multiplied by `a`
/// leaves gcd(a, m) modulo `m` (so 1 when they are coprime).
pub fn modinv(a: u64, m: u64) -> (x: u64)
    requires
        m > 0,
    ensures
        x as int == bezout_pair(a as nat, m as nat).0 % (m as int),
        (a as int * x as int) % (m as int) == gcd_of(a as nat, m as nat) % (m as nat),
{
    let mut old_r: i128 = a as i128;
    let mut r: i128 = m as i128;
    let mut old_s: i128 = 1;
    let mut s: i128 = 0;
    let ghost mut old_t: int = 0;
    let ghost mut t: int = 1;
    let ghost mi = m as int;
    while r != 0
        invariant
            mi == m,
            mi >= 1,
            0 <= old_r <= u64::MAX,
            0 <= r <= u64::MAX,
            gcd_of(old_r as nat, r as nat) == gcd_of(a as nat, m as nat),
            old_r == old_s * a + old_t * mi,
            r == s * a + t * mi,
            abs(old_s as int) * r + abs(s as int) * old_r == mi,
            old_s * s <= 0,
            abs(old_s as int) <= mi,
            abs(s as int) <= mi,
            bezout_pair(a as nat, m as nat).0 == bezout_pair(old_r as nat, r as nat).0 * old_s
                + bezout_pair(old_r as nat, r as nat).1 * s,
        decreases r,
    {
        let ghost g_old_r = old_r as int;
        let ghost g_r = r as int;
        let ghost g_old_s = old_s as int;
        let ghost g_s = s as int;
        let q = old_r / r;
        proof {
            lemma_bezout_step(g_old_r, g_r, g_old_s, g_s, q as int, mi);
            assert(q <= u64::MAX) by (nonlinear_arith)
                requires
                    q * g_r <= g_old_r,
                    g_r >= 1,
                    g_old_r <= u64::MAX,
                    q >= 0,
            ;
            assert(abs(q * g_s) <= mi) by (nonlinear_arith)
                requires
                    q * abs(g_s) <= mi,
                    q >= 0,
            ;
        }
        proof {
            let (bs, bt) = bezout_pair(g_r as nat, (g_old_r % g_r) as nat);
            vstd::arithmetic::div_mod::lemma_fundamental_div_mod(g_old_r, g_r);
            assert(bezout_pair(g_old_r as nat, g_r as nat) == (bt, bs - bt * q));
            assert(bt * g_old_s + (bs - bt * q) * g_s == bs * g_s + bt * (g_old_s - q * g_s))
                by (nonlinear_arith);
        }
        let new_r = old_r - q * r;
        old_r = r;
        r = new_r;
        let new_s = old_s - q * s;
        old_s = s;
        s = new_s;
        proof {
            vstd::arithmetic::div_mod::lemma_fundamental_div_mod(g_old_r, g_r);
            assert(r as int == g_old_r % g_r);
            vstd::arithmetic::div_mod::lemma_mod_pos_bound(g_old_r, g_r);
            let nt = old_t - q * t;
            assert(r == s * a + nt * mi) by (nonlinear_arith)
                requires
                    g_old_r == g_old_s * a + old_t * mi,
                    g_r == g_s * a + t * mi,
                    r == g_old_r - q * g_r,
                    s == g_old_s - q * g_s,
                    nt == old_t - q * t,
            ;
            old_t = t;
            t = nt;
            assert(abs(s as int) <= mi) by (nonlinear_arith)
                requires
                    abs(old_s as int) * r + abs(s as int) * old_r == mi,
                    old_r >= 1,
                    r >= 0,
            ;
        }
    }
    let mm: i128 = m as i128;
    // |old_s| <= m here, so one shift by m makes a negative coefficient
    // non-negative before reducing.
    let x: u64 = if old_s < 0 {
        ((old_s + mm) % mm) as u64
    } else {
        (old_s % mm) as u64
    };
    proof {
        let xs = old_s as int;
        let (p0, p1) = bezout_pair(old_r as nat, r as nat);
        assert(p0 == 1 && p1 == 0);
        assert(p0 * xs + p1 * (s as int) == xs) by (nonlinear_arith)
            requires
                p0 == 1,
                p1 == 0,
        ;
        assert(old_r == gcd_of(a as nat, m as nat));
        assert(x as int == xs % mi) by {
            if xs < 0 {
                vstd::arithmetic::div_mod::lemma_mod_add_multiples_vanish(xs, mi);
            }
        }
        assert((a as int * x as int) % mi == (xs * a) % mi) by {
            vstd::arithmetic::div_mod::lemma_mul_mod_noop_right(a as int, xs, mi);
            vstd::arithmetic::mul::lemma_mul_is_commutative(a as int, xs);
        }
        assert((xs * a) % mi == (old_r as int) % mi) by {
            vstd::arithmetic::div_mod::lemma_mod_multiples_vanish(old_t, xs * a, mi);
            vstd::arithmetic::mul::lemma_mul_is_commutative(old_t, mi);
        }
    }
    x
}

// ---------------------------------------------------------------------------
// Hash and keys
// ---------------------------------------------------------------------------

/// FNV-1a over the bytes (64-bit, wrapping).
pub open spec fn fnv1a(data: Seq<u8>) -> u64
    decreases data.len(),
{
    if data.len() == 0 {
        14_695_981_039_346_656_037u64
    } else {
        (fnv1a(data.drop_last()) ^ (data.last() as u64)).wrapping_mul(1_099_511_628_211)
    }
}

/// Squashes a certificate's contents into one number.
pub fn toy_hash(data: &[u8]) -> (h: u64)
    ensures
        h == fnv1a(data@),
{
    let mut h: u64 = 14_695_981_039_346_656_037;
    let mut i: usize = 0;
    while i < data.len()
        invariant
            i <= data@.len(),
            h == fnv1a(data@.take(i as int)),
        decreases data@.len() - i,
    {
        proof {
            assert(data@.take(i + 1).drop_last() =~= data@.take(i as int));
        }
        h = h ^ data[i] as u64;
        h = h.wrapping_mul(1_099_511_628_211);
        i = i + 1;
    }
    assert(data@.take(i as int) =~= data@);
    h
}

/// An RSA key pair: public (e, n), private d.
#[derive(Clone, Copy)]
pub struct RsaKey {
    pub e: u64,
    pub d: u64,
    pub n: u64,
}

impl RsaKey {
    /// The public half (e, n).
    pub fn public(&self) -> (pk: (u64, u64))
        ensures
            pk == (self.e, self.n),
    {
        (self.e, self.n)
    }

    /// Signs a digest: digest^d mod n.
    pub fn sign(&self, digest: u64) -> (s: u64)
        requires
            self.n > 0,
        ensures
            s == pow(digest as int, self.d as nat) % (self.n as int),
    {
        mod_pow(digest, self.d, self.n)
    }
}

/// The smallest odd exponent from 3 up that is coprime to `phi`.
pub open spec fn is_first_exponent(e: nat, phi: nat) -> bool {
    &&& e >= 3
    &&& e % 2 == 1
    &&& gcd_of(e, phi) == 1
    &&& forall|k: nat| 3 <= k < e && k % 2 == 1 ==> gcd_of(k, phi) != 1
}

proof fn lemma_gcd_next(phi: nat)
    requires
        phi >= 1,
    ensures
        gcd_of(phi + 1, phi) == 1,
        phi % 2 == 1 ==> gcd_of(phi + 2, phi) == 1,
{
    if phi == 1 {
        assert(gcd_of(2, 1) == gcd_of(1, 0));
        assert(gcd_of(3, 1) == gcd_of(1, 0));
    } else {
        vstd::arithmetic::div_mod::lemma_mod_add_multiples_vanish(1, phi as int);
        vstd::arithmetic::div_mod::lemma_small_mod(1, phi);
        assert((phi + 1) % phi == 1);
        assert(gcd_of(phi + 1, phi) == gcd_of(phi, 1));
        assert(gcd_of(phi, 1) == gcd_of(1, 0));
        if phi % 2 == 1 {
            vstd::arithmetic::div_mod::lemma_mod_add_multiples_vanish(2, phi as int);
            vstd::arithmetic::div_mod::lemma_small_mod(2, phi);
            assert(gcd_of(phi + 2, phi) == gcd_of(phi, 2));
            assert(gcd_of(phi, 2) == gcd_of(2, 1));
            assert(gcd_of(2, 1) == gcd_of(1, 0));
        }
    }
}

/// `k` is a textbook RSA key over p and q: n = p q, and e d is 1 modulo
/// (p - 1)(q - 1).
pub open spec fn rsa_pair(k: RsaKey, p: nat, q: nat) -> bool {
    &&& k.n == p * q
    &&& (k.e as int * k.d as int) % ((p - 1) * (q - 1)) == 1int % ((p - 1) * (q - 1))
}

/// Builds a key pair from two primes: n = p q, e the smallest odd number
/// from 3 up coprime to (p - 1)(q - 1), d its inverse modulo that.
pub fn make_rsa(p: u64, q: u64) -> (k: RsaKey)
    requires
        p >= 2,
        q >= 2,
        p * q <= u64::MAX,
    ensures
        rsa_pair(k, p as nat, q as nat),
        is_first_exponent(k.e as nat, ((p - 1) * (q - 1)) as nat),
        k.d < (p - 1) * (q - 1),
{
    let n = p * q;
    assert((p - 1) * (q - 1) <= p * q - 3) by (nonlinear_arith)
        requires
            p >= 2,
            q >= 2,
    ;
    let phi = (p - 1) * (q - 1);
    assert(phi >= 1) by (nonlinear_arith)
        requires
            p >= 2,
            q >= 2,
            phi == (p - 1) * (q - 1),
    ;
    proof {
        lemma_gcd_next(phi as nat);
    }
    let ghost target: nat = if phi % 2 == 0 {
        (phi + 1) as nat
    } else if phi == 1 {
        3
    } else {
        (phi + 2) as nat
    };
    assert(gcd_of(target, phi as nat) == 1) by {
        if phi == 1 {
            assert(gcd_of(3, 1) == gcd_of(1, 0));
        }
    }
    let mut e: u64 = 3;
    while gcd(e, phi) != 1
        invariant
            3 <= e <= target,
            e % 2 == 1,
            target % 2 == 1,
            target <= phi + 2,
            phi + 2 <= u64::MAX,
            gcd_of(target, phi as nat) == 1,
            forall|k: nat| 3 <= k < e && k % 2 == 1 ==> gcd_of(k, phi as nat) != 1,
        decreases target - e,
    {
        assert(e != target);
        e = e + 2;
    }
    let d = modinv(e, phi);
    RsaKey { e, d, n }
}

// ---------------------------------------------------------------------------
// Certificates
// ---------------------------------------------------------------------------

/// A certificate: the issuer vouches that `public_key` belongs to `subject`.
pub struct Certificate {
    pub subject: String,
    pub issuer: String,
    /// Expiry date as YYYYMMDD.
    pub not_after: u64,
    /// The subject's public key (e, n).
    pub public_key: (u64, u64),
    /// The issuer's signature over the to-be-signed bytes.
    pub signature: u64,
}

impl Clone for Certificate {
    fn clone(&self) -> (c: Self)
        ensures
            c == *self,
    {
        Certificate {
            subject: self.subject.clone(),
            issuer: self.issuer.clone(),
            not_after: self.not_after,
            public_key: self.public_key,
            signature: self.signature,
        }
    }
}

/// The to-be-signed bytes: subject, `|`, issuer, `|`, then expiry and both
/// key numbers in big-endian. Changing any field changes them.
pub open spec fn tbs_bytes(subject: Seq<u8>, issuer: Seq<u8>, not_after: u64, pk: (u64, u64)) -> Seq<
    u8,
> {
    subject + seq![0x7Cu8] + issuer + seq![0x7Cu8] + u64_bytes(not_after) + u64_bytes(pk.0)
        + u64_bytes(pk.1)
}

/// The to-be-signed bytes cover every field but the signature: for a given
/// subject, equal bytes mean the same issuer, expiry and public key, so
/// changing any of them changes what the signature was made over.
pub proof fn tbs_determines_fields(
    subject: Seq<u8>,
    issuer1: Seq<u8>,
    not_after1: u64,
    pk1: (u64, u64),
    issuer2: Seq<u8>,
    not_after2: u64,
    pk2: (u64, u64),
)
    requires
        tbs_bytes(subject, issuer1, not_after1, pk1) == tbs_bytes(subject, issuer2, not_after2, pk2),
    ensures
        issuer1 == issuer2,
        not_after1 == not_after2,
        pk1 == pk2,
{
    let t1 = tbs_bytes(subject, issuer1, not_after1, pk1);
    let t2 = tbs_bytes(subject, issuer2, not_after2, pk2);
    let s = subject.len() as int;
    let l = issuer1.len() as int;
    assert(t1.len() == s + 1 + issuer1.len() + 1 + 24);
    assert(t2.len() == s + 1 + issuer2.len() + 1 + 24);
    assert(issuer1 =~= t1.subrange(s + 1, s + 1 + l));
    assert(issuer2 =~= t2.subrange(s + 1, s + 1 + l));
    let b = s + 2 + l;
    assert(u64_bytes(not_after1) =~= t1.subrange(b, b + 8));
    assert(u64_bytes(not_after2) =~= t2.subrange(b, b + 8));
    assert(u64_bytes(pk1.0) =~= t1.subrange(b + 8, b + 16));
    assert(u64_bytes(pk2.0) =~= t2.subrange(b + 8, b + 16));
    assert(u64_bytes(pk1.1) =~= t1.subrange(b + 16, b + 24));
    assert(u64_bytes(pk2.1) =~= t2.subrange(b + 16, b + 24));
    lemma_u64_bytes_injective(not_after1, not_after2);
    lemma_u64_bytes_injective(pk1.0, pk2.0);
    lemma_u64_bytes_injective(pk1.1, pk2.1);
}

/// The to-be-signed bytes of a certificate's fields.
pub fn cert_tbs(subject: &str, issuer: &str, not_after: u64, public_key: (u64, u64)) -> (v: Vec<
    u8,
>)
    ensures
        v@ == tbs_bytes(subject.spec_bytes(), issuer.spec_bytes(), not_after, public_key),
{
    let mut v: Vec<u8> = Vec::new();
    v.extend_from_slice(subject.as_bytes());
    v.push(0x7C);
    v.extend_from_slice(issuer.as_bytes());
    v.push(0x7C);
    push_u64(&mut v, not_after);
    push_u64(&mut v, public_key.0);
    push_u64(&mut v, public_key.1);
    assert(v@ =~= tbs_bytes(subject.spec_bytes(), issuer.spec_bytes(), not_after, public_key));
    v
}

/// The digest a certificate's signature covers under modulus `n`.
pub open spec fn cert_digest_of(c: Certificate, n: u64) -> int {
    (fnv1a(tbs_bytes(encode_bytes(c.subject@), encode_bytes(c.issuer@), c.not_after, c.public_key))
        as int) % (n as int)
}

/// UTF-8 bytes of a text.
pub open spec fn encode_bytes(s: Seq<char>) -> Seq<u8> {
    vstd::utf8::encode_utf8(s)
}

/// Issues a certificate: the issuer signs the subject's fields with its
/// private key (the digest is reduced below the issuer's modulus first).
pub fn issue_cert(
    subject: &str,
    issuer_name: &str,
    not_after: u64,
    subject_pubkey: (u64, u64),
    issuer_key: &RsaKey,
) -> (c: Certificate)
    requires
        issuer_key.n > 0,
    ensures
        c.subject@ == subject@,
        c.issuer@ == issuer_name@,
        c.not_after == not_after,
        c.public_key == subject_pubkey,
        c.signature == pow(cert_digest_of(c, issuer_key.n), issuer_key.d as nat) % (
        issuer_key.n as int),
{
    let tbs = cert_tbs(subject, issuer_name, not_after, subject_pubkey);
    let digest = toy_hash(tbs.as_slice()) % issuer_key.n;
    let signature = issuer_key.sign(digest);
    Certificate {
        subject: String::from_str(subject),
        issuer: String::from_str(issuer_name),
        not_after,
        public_key: subject_pubkey,
        signature,
    }
}

/// Whether `c`'s signature, raised to the public exponent modulo the public
/// modulus, gives back the digest of its fields.
pub open spec fn signature_valid(c: Certificate, pk: (u64, u64)) -> bool {
    pow(c.signature as int, pk.0 as nat) % (pk.1 as int) == cert_digest_of(c, pk.1)
}

/// A key pair from two distinct primes undoes its own signatures: raising
/// the signature of a digest below n to the public exponent modulo n gives
/// the digest back.
pub proof fn signature_roundtrip(k: RsaKey, p: nat, q: nat, digest: nat)
    requires
        is_prime(p),
        is_prime(q),
        p != q,
        rsa_pair(k, p, q),
        digest < k.n,
    ensures
        pow(pow(digest as int, k.d as nat) % (k.n as int), k.e as nat) % (k.n as int) == digest,
{
    let phi = (p - 1) * (q - 1);
    assert(phi >= 2) by (nonlinear_arith)
        requires
            p >= 2,
            q >= 2,
            p != q,
            phi == (p - 1) * (q - 1),
    ;
    vstd::arithmetic::div_mod::lemma_small_mod(1, phi as nat);
    lemma_rsa_roundtrip(p, q, k.e as nat, k.d as nat, digest);
}

/// A certificate issued with a key pair from two distinct primes passes the
/// signature check under that key's public half.
pub proof fn issued_certificate_verifies(c: Certificate, k: RsaKey, p: nat, q: nat)
    requires
        is_prime(p),
        is_prime(q),
        p != q,
        rsa_pair(k, p, q),
        c.signature == pow(cert_digest_of(c, k.n), k.d as nat) % (k.n as int),
    ensures
        signature_valid(c, (k.e, k.n)),
{
    assert(k.n > 0) by (nonlinear_arith)
        requires
            k.n == p * q,
            p >= 2,
            q >= 2,
    ;
    let digest = cert_digest_of(c, k.n);
    vstd::arithmetic::div_mod::lemma_mod_bound(
        fnv1a(
            tbs_bytes(encode_bytes(c.subject@), encode_bytes(c.issuer@), c.not_after, c.public_key),
        ) as int,
        k.n as int,
    );
    signature_roundtrip(k, p, q, digest as nat);
}

/// Checks a certificate's signature with the issuer's public key (e, n).
pub fn verify_signature(cert: &Certificate, issuer_pubkey: (u64, u64)) -> (ok: bool)
    requires
        issuer_pubkey.1 > 0,
    ensures
        ok == signature_valid(*cert, issuer_pubkey),
{
    let (e, n) = issuer_pubkey;
    let tbs = cert_tbs(cert.subject.as_str(), cert.issuer.as_str(), cert.not_after, cert.public_key);
    let digest = toy_hash(tbs.as_slice()) % n;
    mod_pow(cert.signature, e, n) == digest
}

/// Why a chain was refused, in the order the checks are made.
#[derive(Clone, Copy, Debug, PartialEq, Eq, Structural)]
pub enum ChainError {
    /// The intermediate's issuer is not the trusted root's name.
    IntermediateIssuer,
    /// The intermediate's signature does not verify with the root key.
    IntermediateSignature,
    /// The intermediate expired before today.
    IntermediateExpired,
    /// The server certificate's issuer is not the intermediate.
    ServerIssuer,
    /// The server certificate's signature does not verify with the
    /// intermediate's key.
    ServerSignature,
    /// The server certificate expired before today.
    ServerExpired,
    /// The server certificate names another host.
    HostnameMismatch,
}

/// The first check of the chain that fails, if any.
pub open spec fn chain_failure(
    server: Certificate,
    intermediate: Certificate,
    root_name: Seq<char>,
    root_pubkey: (u64, u64),
    today: u64,
    hostname: Seq<char>,
) -> Option<ChainError> {
    if intermediate.issuer@ != root_name {
        Some(ChainError::IntermediateIssuer)
    } else if !signature_valid(intermediate, root_pubkey) {
        Some(ChainError::IntermediateSignature)
    } else if intermediate.not_after < today {
        Some(ChainError::IntermediateExpired)
    } else if server.issuer@ != intermediate.subject@ {
        Some(ChainError::ServerIssuer)
    } else if !signature_valid(server, intermediate.public_key) {
        Some(ChainError::ServerSignature)
    } else if server.not_after < today {
        Some(ChainError::ServerExpired)
    } else if server.subject@ != hostname {
        Some(ChainError::HostnameMismatch)
    } else {
        None
    }
}

/// The moduli that the checks divide by are non-zero wherever the checks
/// reach them.
pub open spec fn chain_moduli_nonzero(
    intermediate: Certificate,
    root_name: Seq<char>,
    root_pubkey: (u64, u64),
    today: u64,
) -> bool {
    &&& intermediate.issuer@ == root_name ==> root_pubkey.1 > 0
    &&& (intermediate.issuer@ == root_name && signature_valid(intermediate, root_pubkey)
        && intermediate.not_after >= today) ==> intermediate.public_key.1 > 0
}

/// A genuine chain is accepted: when the root's key signed the intermediate
/// under the root's name, the intermediate's key signed the server
/// certificate under the intermediate's name, neither has expired and the
/// server certificate names the host, every check passes (and every
/// modulus the checks divide by is non-zero).
pub proof fn genuine_chain_accepted(
    server: Certificate,
    intermediate: Certificate,
    root_key: RsaKey,
    inter_key: RsaKey,
    root_primes: (nat, nat),
    inter_primes: (nat, nat),
    root_name: Seq<char>,
    today: u64,
    hostname: Seq<char>,
)
    requires
        is_prime(root_primes.0),
        is_prime(root_primes.1),
        root_primes.0 != root_primes.1,
        rsa_pair(root_key, root_primes.0, root_primes.1),
        is_prime(inter_primes.0),
        is_prime(inter_primes.1),
        inter_primes.0 != inter_primes.1,
        rsa_pair(inter_key, inter_primes.0, inter_primes.1),
        intermediate.issuer@ == root_name,
        intermediate.public_key == (inter_key.e, inter_key.n),
        intermediate.signature == pow(cert_digest_of(intermediate, root_key.n), root_key.d as nat)
            % (root_key.n as int),
        intermediate.not_after >= today,
        server.issuer@ == intermediate.subject@,
        server.signature == pow(cert_digest_of(server, inter_key.n), inter_key.d as nat) % (
        inter_key.n as int),
        server.not_after >= today,
        server.subject@ == hostname,
    ensures
        chain_moduli_nonzero(intermediate, root_name, (root_key.e, root_key.n), today),
        chain_failure(server, intermediate, root_name, (root_key.e, root_key.n), today, hostname)
            is None,
{
    assert(root_key.n > 0 && inter_key.n > 0) by (nonlinear_arith)
        requires
            root_key.n == root_primes.0 * root_primes.1,
            inter_key.n == inter_primes.0 * inter_primes.1,
            root_primes.0 >= 2,
            root_primes.1 >= 2,
            inter_primes.0 >= 2,
            inter_primes.1 >= 2,
    ;
    issued_certificate_verifies(intermediate, root_key, root_primes.0, root_primes.1);
    issued_certificate_verifies(server, inter_key, inter_primes.0, inter_primes.1);
}

/// Verifies server <- intermediate <- root, trusting only the root's name
/// and public key: issuers, signatures and expiry of the intermediate, then
/// of the server certificate, then the host name.
pub fn verify_chain(
    server: &Certificate,
    intermediate: &Certificate,
    trust_anchor: (&str, (u64, u64)),
    today: u64,
    hostname: &str,
) -> (r: Result<(), ChainError>)
    requires
        chain_moduli_nonzero(*intermediate, trust_anchor.0@, trust_anchor.1, today),
    ensures
        r == (match chain_failure(
            *server,
            *intermediate,
            trust_anchor.0@,
            trust_anchor.1,
            today,
            hostname@,
        ) {
            Some(e) => Err(e),
            None => Ok(()),
        }),
{
    let (root_name, root_pubkey) = trust_anchor;
    let root = String::from_str(root_name);
    if intermediate.issuer != root {
        return Err(ChainError::IntermediateIssuer);
    }
    if !verify_signature(intermediate, root_pubkey) {
        return Err(ChainError::IntermediateSignature);
    }
    if intermediate.not_after < today {
        return Err(ChainError::IntermediateExpired);
    }
    if server.issuer != intermediate.subject {
        return Err(ChainError::ServerIssuer);
    }
    if !verify_signature(server, intermediate.public_key) {
        return Err(ChainError::ServerSignature);
    }
    if server.not_after < today {
        return Err(ChainError::ServerExpired);
    }
    let host = String::from_str(hostname);
    if server.subject != host {
        return Err(ChainError::HostnameMismatch);
    }
    Ok(())
}


/// Why a chain was refused, as text naming the fields that disagree.
pub open spec fn chain_error_message(
    e: ChainError,
    server: Certificate,
    intermediate: Certificate,
    root_name: Seq<char>,
    today: u64,
    hostname: Seq<char>,
) -> Seq<char> {
    match e {
        ChainError::IntermediateIssuer => "中間CAの発行者 \""@ + intermediate.issuer@
            + "\" が、信頼するルート \""@ + root_name + "\" と一致しない"@,
        ChainError::IntermediateSignature => "中間CA証明書の署名がルートCAの公開鍵で検証できない (偽の発行者)"@,
        ChainError::IntermediateExpired => "中間CA証明書が期限切れ (期限="@ + dec(
            intermediate.not_after as nat,
        ) + ", 今日="@ + dec(today as nat) + ")"@,
        ChainError::ServerIssuer => "サーバー証明書の発行者 \""@ + server.issuer@ + "\" が、中間CA \""@
            + intermediate.subject@ + "\" と一致しない (チェーンが繋がらない)"@,
        ChainError::ServerSignature => "サーバー証明書の署名が中間CAの公開鍵で検証できない (改ざんの疑い)"@,
        ChainError::ServerExpired => "サーバー証明書が期限切れ (期限="@ + dec(server.not_after as nat)
            + ", 今日="@ + dec(today as nat) + ")"@,
        ChainError::HostnameMismatch => "証明書の名前 \""@ + server.subject@ + "\" がアクセス先 \""@
            + hostname + "\" と一致しない"@,
    }
}

/// The text of a chain refusal for the certificates, trust anchor name,
/// date and host name that were checked.
pub fn chain_error_text(
    e: ChainError,
    server: &Certificate,
    intermediate: &Certificate,
    root_name: &str,
    today: u64,
    hostname: &str,
) -> (s: String)
    ensures
        s@ == chain_error_message(e, *server, *intermediate, root_name@, today, hostname@),
{
    match e {
        ChainError::IntermediateIssuer => {
            let mut s = String::from_str("中間CAの発行者 \"");
            s.append(intermediate.issuer.as_str());
            s.append("\" が、信頼するルート \"");
            s.append(root_name);
            s.append("\" と一致しない");
            s
        },
        ChainError::IntermediateSignature => String::from_str(
            "中間CA証明書の署名がルートCAの公開鍵で検証できない (偽の発行者)",
        ),
        ChainError::IntermediateExpired => {
            let mut s = String::from_str("中間CA証明書が期限切れ (期限=");
            push_dec(&mut s, intermediate.not_after);
            s.append(", 今日=");
            push_dec(&mut s, today);
            s.append(")");
            s
        },
        ChainError::ServerIssuer => {
            let mut s = String::from_str("サーバー証明書の発行者 \"");
            s.append(server.issuer.as_str());
            s.append("\" が、中間CA \"");
            s.append(intermediate.subject.as_str());
            s.append("\" と一致しない (チェーンが繋がらない)");
            s
        },
        ChainError::ServerSignature => String::from_str(
            "サーバー証明書の署名が中間CAの公開鍵で検証できない (改ざんの疑い)",
        ),
        ChainError::ServerExpired => {
            let mut s = String::from_str("サーバー証明書が期限切れ (期限=");
            push_dec(&mut s, server.not_after);
            s.append(", 今日=");
            push_dec(&mut s, today);
            s.append(")");
            s
        },
        ChainError::HostnameMismatch => {
            let mut s = String::from_str("証明書の名前 \"");
            s.append(server.subject.as_str());
            s.append("\" がアクセス先 \"");
            s.append(hostname);
            s.append("\" と一致しない");
            s
        },
    }
}

} // verus!
