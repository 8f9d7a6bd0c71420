# rustlab

Verified building blocks for a set of small networking and image-format
exercises, written in Verus. Every function in `src/` carries a contract that
Verus proves; the handful of calls into the standard library that Verus has no
specification for go through small wrappers whose contracts are documented
next to them.

## Layout

- `src/` — the library.
  - `png_chunks.rs`, `png_ihdr.rs`: PNG signature, chunk walking with CRC-32,
    IHDR decoding, pixel layout and header validation.
  - `dns.rs`: domain-name encoding and decoding with compression pointers,
    queries, response parsing and an authoritative responder.
  - `hpack.rs`: HPACK prefixed integers, the static and dynamic tables and a
    decoder for indexed fields and literals with incremental indexing.
  - `http.rs`: HTTP/1.1 request parsing, form decoding and routing.
  - `tcp.rs`: the TCP three-way handshake, echo and close as two state
    machines.
  - `toy_tls.rs`, `toy_ca.rs`, `primes.rs`: a toy TLS handshake, a toy
    certificate chain over textbook RSA, and the number theory (Fermat's
    little theorem, the Chinese-remainder step) that shows RSA signatures
    verify.
  - `text.rs`: decimal formatting and parsing, trimming, searching.
  - `basics.rs` … `generics.rs`: the introductory language exercises.
- `tests/` — executable tests of the library.
- `app/` — the programs around the library: sockets, files, threads,
  printing, and the exercises that work on floating point.

## Laws

Besides the per-function contracts, `src/` states and proves properties that
span several functions, among them: decoding an encoded HPACK integer, with
any bytes after it, gives it back and stops where it ends; a literal followed by indexed references decodes to that many copies of
the header; a name written in DNS label form reads back, as its labels and as its
text, and the responder's
reply to an A query reads back as the zone's addresses; the XOR stream cipher
undoes itself; both Diffie-Hellman parties reach the same secret; an RSA key
made from two distinct primes verifies its own signatures, so a genuinely
issued certificate chain is accepted; the toy TLS certificate check accepts a
signature exactly when it is the CA's, so a tampered one is refused; a client and server that exchange
segments without loss end with the message echoed and both sides closed; and
a counter ends at its increments minus its decrements, in any order.
