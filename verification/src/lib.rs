//! Small verified building blocks behind a set of networking and image-format
//! exercises: PNG chunk and header parsing, DNS messages, HPACK integers and
//! tables, a toy TLS handshake and certificate chain, a minimal HTTP server,
//! and the basic language exercises that lead up to them.
pub mod text;
pub mod png_chunks;
pub mod png_ihdr;
pub mod dns;
pub mod hpack;
pub mod toy_tls;
pub mod toy_ca;
pub mod primes;
pub mod http;
pub mod tcp;
pub mod basics;
pub mod ownership;
pub mod borrowing;
pub mod lifetimes;
pub mod structs;
pub mod enums;
pub mod errors;
pub mod collections;
pub mod generics;
