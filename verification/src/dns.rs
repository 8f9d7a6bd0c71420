//! DNS messages (RFC 1035): domain-name encoding and decoding with
//! compression pointers, building a recursive query, parsing a response and
//! answering a query from a small authoritative zone.
use vstd::prelude::*;
use crate::text::{dec, from_utf8_lossy, push_dec, utf8_lossy};
use vstd::string::StringSliceAdditionalSpecFns;

verus! {

/// IPv4 address record.
pub const TYPE_A: u16 = 1;
/// Canonical-name (alias) record.
pub const TYPE_CNAME: u16 = 5;
/// IPv6 address record.
pub const TYPE_AAAA: u16 = 28;
/// The Internet class.
pub const CLASS_IN: u16 = 1;

/// Big-endian 16-bit value at `pos`.
pub open spec fn be16(s: Seq<u8>, pos: int) -> int {
    s[pos] * 256 + s[pos + 1]
}

/// Big-endian 32-bit value at `pos`.
pub open spec fn be32(s: Seq<u8>, pos: int) -> int {
    s[pos] * 16777216 + s[pos + 1] * 65536 + s[pos + 2] * 256 + s[pos + 3]
}

/// The two big-endian bytes of a 16-bit value.
pub open spec fn u16_bytes(v: u16) -> Seq<u8> {
    seq![(v / 256) as u8, (v % 256) as u8]
}

/// The four big-endian bytes of a 32-bit value.
pub open spec fn u32_bytes(v: u32) -> Seq<u8> {
    seq![
        (v / 16777216) as u8,
        ((v / 65536) % 256) as u8,
        ((v / 256) % 256) as u8,
        (v % 256) as u8,
    ]
}

fn push_u16(buf: &mut Vec<u8>, v: u16)
    ensures
        final(buf)@ == old(buf)@ + u16_bytes(v),
{
    buf.push((v / 256) as u8);
    buf.push((v % 256) as u8);
    assert(buf@ =~= old(buf)@ + u16_bytes(v));
}

fn push_u32(buf: &mut Vec<u8>, v: u32)
    ensures
        final(buf)@ == old(buf)@ + u32_bytes(v),
{
    buf.push((v / 16777216) as u8);
    buf.push(((v / 65536) % 256) as u8);
    buf.push(((v / 256) % 256) as u8);
    buf.push((v % 256) as u8);
    assert(buf@ =~= old(buf)@ + u32_bytes(v));
}

// ---------------------------------------------------------------------------
// Name encoding
// ---------------------------------------------------------------------------

/// The pieces of `b` between `.` bytes (always at least one piece).
pub open spec fn split_dots(b: Seq<u8>) -> Seq<Seq<u8>>
    decreases b.len(),
{
    if b.len() == 0 {
        seq![Seq::empty()]
    } else {
        let r = split_dots(b.drop_last());
        if b.last() == 0x2E {
            r.push(Seq::empty())
        } else {
            r.update(r.len() - 1, r.last().push(b.last()))
        }
    }
}

/// Each non-empty label as its length byte followed by its bytes.
pub open spec fn encode_labels(labels: Seq<Seq<u8>>) -> Seq<u8>
    decreases labels.len(),
{
    if labels.len() == 0 {
        Seq::empty()
    } else {
        encode_labels(labels.drop_last()) + if labels.last().len() == 0 {
            Seq::empty()
        } else {
            seq![labels.last().len() as u8] + labels.last()
        }
    }
}

/// A domain name in label form: `"example.com"` becomes
/// `[7]example[3]com[0]`. Empty labels are skipped; a label length is stored
/// in one byte.
pub open spec fn encoded_name(name: Seq<u8>) -> Seq<u8> {
    encode_labels(split_dots(name)) + seq![0u8]
}

proof fn lemma_split_dots_nonempty(b: Seq<u8>)
    ensures
        split_dots(b).len() >= 1,
    decreases b.len(),
{
    if b.len() > 0 {
        lemma_split_dots_nonempty(b.drop_last());
    }
}

fn emit_label(buf: &mut Vec<u8>, b: &[u8], start: usize, end: usize)
    requires
        start <= end <= b@.len(),
    ensures
        final(buf)@ == old(buf)@ + (if end == start {
            Seq::<u8>::empty()
        } else {
            seq![(end - start) as u8] + b@.subrange(start as int, end as int)
        }),
{
    if end > start {
        buf.push((end - start) as u8);
        let mut k = start;
        while k < end
            invariant
                start <= k <= end,
                end <= b@.len(),
                buf@ == old(buf)@ + seq![(end - start) as u8] + b@.subrange(
                    start as int,
                    k as int,
                ),
            decreases end - k,
        {
            buf.push(b[k]);
            k = k + 1;
            assert(buf@ =~= old(buf)@ + seq![(end - start) as u8] + b@.subrange(
                start as int,
                k as int,
            ));
        }
    } else {
        assert(buf@ =~= old(buf)@ + Seq::<u8>::empty());
    }
}

/// Appends `name` in label form to `buf`.
pub fn encode_name(buf: &mut Vec<u8>, name: &str)
    ensures
        final(buf)@ == old(buf)@ + encoded_name(name.spec_bytes()),
{
    let b = name.as_bytes();
    let mut start: usize = 0;
    let mut i: usize = 0;
    while i < b.len()
        invariant
            start <= i <= b@.len(),
            b@ == name.spec_bytes(),
            split_dots(b@.take(i as int)).len() >= 1,
            split_dots(b@.take(i as int)).last() == b@.subrange(start as int, i as int),
            buf@ == old(buf)@ + encode_labels(split_dots(b@.take(i as int)).drop_last()),
        decreases b@.len() - i,
    {
        let ghost prev = split_dots(b@.take(i as int));
        proof {
            assert(b@.take(i + 1).drop_last() =~= b@.take(i as int));
        }
        if b[i] == 0x2E {
            emit_label(buf, b, start, i);
            proof {
                let cur = split_dots(b@.take(i + 1));
                assert(cur == prev.push(Seq::empty()));
                assert(cur.drop_last() =~= prev);
                assert(prev =~= prev.drop_last().push(prev.last()));
                assert(encode_labels(prev) == encode_labels(prev.drop_last()) + (if prev.last().len()
                    == 0 {
                    Seq::<u8>::empty()
                } else {
                    seq![prev.last().len() as u8] + prev.last()
                }));
                assert(buf@ =~= old(buf)@ + encode_labels(cur.drop_last()));
            }
            start = i + 1;
            proof {
                assert(b@.subrange(start as int, i + 1) =~= Seq::<u8>::empty());
            }
        } else {
            proof {
                let cur = split_dots(b@.take(i + 1));
                assert(cur == prev.update(prev.len() - 1, prev.last().push(b@[i as int])));
                assert(cur.drop_last() =~= prev.drop_last());
                assert(cur.last() =~= b@.subrange(start as int, i + 1));
            }
        }
        i = i + 1;
    }
    let ghost prev = split_dots(b@.take(i as int));
    emit_label(buf, b, start, i);
    buf.push(0);
    proof {
        assert(b@.take(i as int) =~= b@);
        assert(prev =~= prev.drop_last().push(prev.last()));
        assert(encode_labels(prev) == encode_labels(prev.drop_last()) + (if prev.last().len() == 0 {
            Seq::<u8>::empty()
        } else {
            seq![prev.last().len() as u8] + prev.last()
        }));
        assert(buf@ =~= old(buf)@ + encoded_name(name.spec_bytes()));
    }
}

// ---------------------------------------------------------------------------
// Name decoding
// ---------------------------------------------------------------------------

/// Reading a name at `pos` with `fuel` steps left: the labels met and where
/// the name ends in the message where it was first met (before any pointer
/// was followed), or `None` when the steps run out. `end` is that end as
/// recorded so far.
pub open spec fn name_walk(buf: Seq<u8>, pos: int, jumped: bool, end: int, fuel: nat) -> Option<
    (Seq<Seq<u8>>, int),
>
    decreases fuel,
{
    if fuel == 0 {
        None
    } else if pos < 0 || pos >= buf.len() {
        Some((Seq::empty(), end))
    } else if buf[pos] == 0 {
        Some(
            (
                Seq::empty(),
                if !jumped {
                    pos + 1
                } else {
                    end
                },
            ),
        )
    } else if buf[pos] >= 0xC0 {
        if pos + 1 >= buf.len() {
            Some((Seq::empty(), end))
        } else {
            name_walk(
                buf,
                (buf[pos] - 0xC0) * 256 + buf[pos + 1],
                true,
                if !jumped {
                    pos + 2
                } else {
                    end
                },
                (fuel - 1) as nat,
            )
        }
    } else {
        let len = buf[pos] as int;
        if pos + 1 + len > buf.len() {
            Some((Seq::empty(), end))
        } else {
            match name_walk(buf, pos + 1 + len, jumped, end, (fuel - 1) as nat) {
                Some((ls, e)) => Some((seq![buf.subrange(pos + 1, pos + 1 + len)] + ls, e)),
                None => None,
            }
        }
    }
}

/// Reading a name at `start` finishes (compression pointers do not loop).
pub open spec fn name_terminates(buf: Seq<u8>, start: int) -> bool {
    exists|fuel: nat| (#[trigger] name_walk(buf, start, false, start, fuel)) is Some
}

pub open spec fn name_fuel(buf: Seq<u8>, start: int) -> nat {
    choose|fuel: nat| (#[trigger] name_walk(buf, start, false, start, fuel)) is Some
}

/// The labels of the name at `start` and the bytes it occupies there.
pub open spec fn name_at(buf: Seq<u8>, start: int) -> (Seq<Seq<u8>>, int) {
    let (ls, end) = name_walk(buf, start, false, start, name_fuel(buf, start))->Some_0;
    (ls, end - start)
}

/// Labels decoded and joined with `.`.
pub open spec fn join_labels(ls: Seq<Seq<u8>>) -> Seq<char>
    decreases ls.len(),
{
    if ls.len() == 0 {
        Seq::empty()
    } else if ls.len() == 1 {
        utf8_lossy(ls[0])
    } else {
        join_labels(ls.drop_last()) + "."@ + utf8_lossy(ls.last())
    }
}

/// The non-empty labels, in order.
pub open spec fn kept_labels(ls: Seq<Seq<u8>>) -> Seq<Seq<u8>>
    decreases ls.len(),
{
    if ls.len() == 0 {
        Seq::empty()
    } else {
        (if ls[0].len() > 0 {
            seq![ls[0]]
        } else {
            Seq::empty()
        }) + kept_labels(ls.drop_first())
    }
}

/// One label in label form (nothing for an empty label).
pub open spec fn label_form(l: Seq<u8>) -> Seq<u8> {
    if l.len() == 0 {
        Seq::empty()
    } else {
        seq![l.len() as u8] + l
    }
}

proof fn lemma_encode_labels_front(ls: Seq<Seq<u8>>)
    requires
        ls.len() > 0,
    ensures
        encode_labels(ls) == label_form(ls[0]) + encode_labels(ls.drop_first()),
    decreases ls.len(),
{
    if ls.len() == 1 {
        assert(ls.drop_first() =~= Seq::<Seq<u8>>::empty());
        assert(ls.drop_last() =~= Seq::<Seq<u8>>::empty());
        assert(encode_labels(ls.drop_last()) == Seq::<u8>::empty());
        assert(ls.last() == ls[0]);
        assert(encode_labels(ls) =~= label_form(ls[0]) + Seq::<u8>::empty());
    } else {
        lemma_encode_labels_front(ls.drop_last());
        assert(ls.drop_last().drop_first() =~= ls.drop_first().drop_last());
        assert(ls.drop_first().last() == ls.last());
        assert(encode_labels(ls) =~= label_form(ls[0]) + encode_labels(ls.drop_first()));
    }
}

proof fn lemma_name_walk_fuel(buf: Seq<u8>, pos: int, jumped: bool, end: int, f: nat, g: nat)
    requires
        f <= g,
        name_walk(buf, pos, jumped, end, f) is Some,
    ensures
        name_walk(buf, pos, jumped, end, g) == name_walk(buf, pos, jumped, end, f),
    decreases f,
{
    if f > 0 && 0 <= pos < buf.len() && buf[pos] != 0 {
        if buf[pos] >= 0xC0 {
            if pos + 1 < buf.len() {
                lemma_name_walk_fuel(
                    buf,
                    (buf[pos] - 0xC0) * 256 + buf[pos + 1],
                    true,
                    if !jumped {
                        pos + 2
                    } else {
                        end
                    },
                    (f - 1) as nat,
                    (g - 1) as nat,
                );
            }
        } else if pos + 1 + buf[pos] <= buf.len() {
            lemma_name_walk_fuel(buf, pos + 1 + buf[pos], jumped, end, (f - 1) as nat, (g - 1) as nat);
        }
    }
}

proof fn lemma_walk_labels(
    pre: Seq<u8>,
    ls: Seq<Seq<u8>>,
    post: Seq<u8>,
    jumped: bool,
    end: int,
    fuel: nat,
)
    requires
        fuel > ls.len(),
        forall|i: int| 0 <= i < ls.len() ==> #[trigger] ls[i].len() < 0xC0,
    ensures
        name_walk(pre + encode_labels(ls) + seq![0u8] + post, pre.len() as int, jumped, end, fuel)
            == Some(
            (
                kept_labels(ls),
                if jumped {
                    end
                } else {
                    (pre.len() + encode_labels(ls).len() + 1) as int
                },
            ),
        ),
    decreases ls.len(),
{
    let buf = pre + encode_labels(ls) + seq![0u8] + post;
    if ls.len() == 0 {
        assert(buf[pre.len() as int] == 0);
    } else {
        lemma_encode_labels_front(ls);
        let l = ls[0];
        let rest = ls.drop_first();
        assert forall|i: int| 0 <= i < rest.len() implies #[trigger] rest[i].len() < 0xC0 by {
            assert(rest[i] == ls[i + 1]);
        }
        if l.len() == 0 {
            assert(buf =~= pre + encode_labels(rest) + seq![0u8] + post);
            lemma_walk_labels(pre, rest, post, jumped, end, fuel);
            assert(kept_labels(ls) =~= kept_labels(rest));
        } else {
            let pre2 = pre + seq![l.len() as u8] + l;
            assert(buf =~= pre2 + encode_labels(rest) + seq![0u8] + post);
            let pos = pre.len() as int;
            assert(buf[pos] == l.len() as u8);
            assert(buf.subrange(pos + 1, pos + 1 + l.len()) =~= l);
            lemma_walk_labels(pre2, rest, post, jumped, end, (fuel - 1) as nat);
            assert(kept_labels(ls) =~= seq![l] + kept_labels(rest));
        }
    }
}

/// A name written in label form can be read back: wherever its encoding
/// stands in a message, reading a name there gives its non-empty labels and
/// the encoding's length, provided every label is shorter than 192 bytes
/// (a longer label's length byte would read as a compression pointer).
pub proof fn name_roundtrip(pre: Seq<u8>, name: Seq<u8>, post: Seq<u8>)
    requires
        forall|i: int| 0 <= i < split_dots(name).len() ==> #[trigger] split_dots(name)[i].len() < 0xC0,
    ensures
        name_terminates(pre + encoded_name(name) + post, pre.len() as int),
        name_at(pre + encoded_name(name) + post, pre.len() as int) == (
            kept_labels(split_dots(name)),
            encoded_name(name).len() as int,
        ),
{
    let buf = pre + encoded_name(name) + post;
    let ls = split_dots(name);
    let start = pre.len() as int;
    let fuel = (ls.len() + 1) as nat;
    assert(buf =~= pre + encode_labels(ls) + seq![0u8] + post);
    lemma_walk_labels(pre, ls, post, false, start, fuel);
    assert(name_terminates(buf, start));
    let chosen = name_fuel(buf, start);
    if chosen <= fuel {
        lemma_name_walk_fuel(buf, start, false, start, chosen, fuel);
    } else {
        lemma_name_walk_fuel(buf, start, false, start, fuel, chosen);
    }
}

/// Every label is well-formed UTF-8.
pub open spec fn labels_utf8(ls: Seq<Seq<u8>>) -> bool {
    forall|i: int| 0 <= i < ls.len() ==> vstd::utf8::valid_utf8(#[trigger] ls[i])
}

/// The labels decoded as UTF-8 and joined with `.`.
pub open spec fn decoded_name(ls: Seq<Seq<u8>>) -> Seq<char>
    decreases ls.len(),
{
    if ls.len() == 0 {
        Seq::empty()
    } else if ls.len() == 1 {
        vstd::utf8::decode_utf8(ls[0])
    } else {
        decoded_name(ls.drop_last()) + seq!['.'] + vstd::utf8::decode_utf8(ls.last())
    }
}

/// No `.` byte in `y`.
spec fn no_dot(y: Seq<u8>) -> bool {
    forall|i: int| 0 <= i < y.len() ==> #[trigger] y[i] != 0x2E
}

/// Index of the last `.` byte, or -1.
spec fn last_dot(b: Seq<u8>) -> int
    decreases b.len(),
{
    if b.len() == 0 {
        -1
    } else if b.last() == 0x2E {
        b.len() - 1
    } else {
        last_dot(b.drop_last())
    }
}

proof fn lemma_last_dot(b: Seq<u8>)
    ensures
        -1 <= last_dot(b) < b.len(),
        last_dot(b) >= 0 ==> b[last_dot(b)] == 0x2E && no_dot(
            b.subrange(last_dot(b) + 1, b.len() as int),
        ),
        last_dot(b) == -1 ==> no_dot(b),
    decreases b.len(),
{
    if b.len() > 0 && b.last() != 0x2E {
        let c = b.drop_last();
        lemma_last_dot(c);
        let d = last_dot(c);
        if d >= 0 {
            assert forall|i: int| 0 <= i < b.len() - (d + 1) implies #[trigger] b.subrange(
                d + 1,
                b.len() as int,
            )[i] != 0x2E by {
                if i < c.len() - (d + 1) {
                    assert(c.subrange(d + 1, c.len() as int)[i] == b[d + 1 + i]);
                }
            }
        } else {
            assert forall|i: int| 0 <= i < b.len() implies #[trigger] b[i] != 0x2E by {
                if i < c.len() {
                    assert(c[i] == b[i]);
                }
            }
        }
    }
}

proof fn lemma_split_no_dot(y: Seq<u8>)
    requires
        no_dot(y),
    ensures
        split_dots(y) == seq![y],
    decreases y.len(),
{
    if y.len() > 0 {
        let c = y.drop_last();
        assert(no_dot(c)) by {
            assert forall|i: int| 0 <= i < c.len() implies #[trigger] c[i] != 0x2E by {
                assert(c[i] == y[i]);
            }
        }
        lemma_split_no_dot(c);
        assert(y.last() != 0x2E);
        assert(c.push(y.last()) =~= y);
        assert(split_dots(y) =~= seq![y]);
    } else {
        assert(y =~= Seq::<u8>::empty());
    }
}

proof fn lemma_split_after_dot(x: Seq<u8>, y: Seq<u8>)
    requires
        no_dot(y),
    ensures
        split_dots(x + seq![0x2Eu8] + y) == split_dots(x).push(y),
    decreases y.len(),
{
    let b = x + seq![0x2Eu8] + y;
    if y.len() == 0 {
        assert(b.drop_last() =~= x);
        assert(y =~= Seq::<u8>::empty());
    } else {
        let c = y.drop_last();
        assert(no_dot(c)) by {
            assert forall|i: int| 0 <= i < c.len() implies #[trigger] c[i] != 0x2E by {
                assert(c[i] == y[i]);
            }
        }
        lemma_split_after_dot(x, c);
        assert(b.drop_last() =~= x + seq![0x2Eu8] + c);
        assert(b.last() == y.last());
        assert(y.last() != 0x2E);
        assert(c.push(y.last()) =~= y);
        let r = split_dots(x).push(c);
        assert(r.update(r.len() - 1, r.last().push(b.last())) =~= split_dots(x).push(y));
    }
}

/// A `.` then well-formed UTF-8 decodes to `.` then that text.
proof fn lemma_dot_then(y: Seq<u8>)
    requires
        vstd::utf8::valid_utf8(seq![0x2Eu8] + y),
    ensures
        vstd::utf8::valid_utf8(y),
        vstd::utf8::decode_utf8(seq![0x2Eu8] + y) == seq!['.'] + vstd::utf8::decode_utf8(y),
{
    let b = seq![0x2Eu8] + y;
    assert(vstd::utf8::pop_first_scalar(b) =~= y);
    assert((0x2Eu8 & 0x7F) as u32 == 0x2E) by (bit_vector);
    assert(vstd::utf8::decode_first_scalar(b) == 0x2E);
    assert((0x2Eu32 as char) == '.');
}

/// Splitting well-formed UTF-8 at its `.` bytes gives well-formed labels
/// whose decoded texts joined with `.` are the decoded whole.
proof fn lemma_split_decoded(b: Seq<u8>)
    requires
        vstd::utf8::valid_utf8(b),
    ensures
        labels_utf8(split_dots(b)),
        decoded_name(split_dots(b)) == vstd::utf8::decode_utf8(b),
    decreases b.len(),
{
    lemma_last_dot(b);
    let d = last_dot(b);
    if d == -1 {
        lemma_split_no_dot(b);
    } else {
        let x = b.subrange(0, d);
        let rest = b.subrange(d, b.len() as int);
        let y = b.subrange(d + 1, b.len() as int);
        assert(b =~= x + seq![0x2Eu8] + y);
        assert(rest =~= seq![0x2Eu8] + y);
        vstd::utf8::is_char_boundary_iff_not_is_continuation_byte(b, d);
        vstd::utf8::valid_utf8_split(b, d);
        vstd::utf8::decode_utf8_split(b, d);
        lemma_dot_then(y);
        lemma_split_decoded(x);
        lemma_split_after_dot(x, y);
        lemma_split_dots_nonempty(x);
        let ls = split_dots(x).push(y);
        assert(ls.drop_last() =~= split_dots(x));
        assert forall|i: int| 0 <= i < ls.len() implies vstd::utf8::valid_utf8(#[trigger] ls[i]) by {
            if i < ls.len() - 1 {
                assert(ls[i] == split_dots(x)[i]);
            }
        }
        assert(decoded_name(ls) =~= vstd::utf8::decode_utf8(x) + (seq!['.']
            + vstd::utf8::decode_utf8(y)));
    }
}

/// Labels that are all non-empty are all kept.
proof fn lemma_kept_all(ls: Seq<Seq<u8>>)
    requires
        forall|i: int| 0 <= i < ls.len() ==> #[trigger] ls[i].len() > 0,
    ensures
        kept_labels(ls) == ls,
    decreases ls.len(),
{
    if ls.len() > 0 {
        let r = ls.drop_first();
        assert forall|i: int| 0 <= i < r.len() implies #[trigger] r[i].len() > 0 by {
            assert(r[i] == ls[i + 1]);
        }
        lemma_kept_all(r);
        assert(seq![ls[0]] + r =~= ls);
    }
}

/// A name's text reads back: a name whose dot-separated labels are all
/// non-empty and shorter than 192 bytes (or the empty name), written in
/// label form anywhere in a message, reads back there as labels that are
/// well-formed UTF-8 and decode, joined with `.`, to that very text, over
/// the bytes of its encoding.
pub proof fn name_text_roundtrip(pre: Seq<u8>, name: Seq<char>, post: Seq<u8>)
    requires
        name.len() == 0 || forall|i: int|
            0 <= i < split_dots(vstd::utf8::encode_utf8(name)).len() ==> #[trigger] split_dots(
                vstd::utf8::encode_utf8(name),
            )[i].len() > 0,
        forall|i: int|
            0 <= i < split_dots(vstd::utf8::encode_utf8(name)).len() ==> #[trigger] split_dots(
                vstd::utf8::encode_utf8(name),
            )[i].len() < 0xC0,
    ensures
        ({
            let b = vstd::utf8::encode_utf8(name);
            let buf = pre + encoded_name(b) + post;
            &&& name_terminates(buf, pre.len() as int)
            &&& labels_utf8(name_at(buf, pre.len() as int).0)
            &&& decoded_name(name_at(buf, pre.len() as int).0) == name
            &&& name_at(buf, pre.len() as int).1 == encoded_name(b).len()
        }),
{
    let b = vstd::utf8::encode_utf8(name);
    name_roundtrip(pre, b, post);
    if name.len() == 0 {
        assert(b =~= Seq::<u8>::empty());
        let ls = seq![Seq::<u8>::empty()];
        assert(split_dots(b) =~= ls);
        assert(ls.drop_first() =~= Seq::<Seq<u8>>::empty());
        assert(kept_labels(ls.drop_first()) == Seq::<Seq<u8>>::empty());
        assert(ls[0].len() == 0);
        assert(kept_labels(ls) =~= Seq::<Seq<u8>>::empty());
        assert(decoded_name(Seq::<Seq<u8>>::empty()) =~= name);
    } else {
        vstd::utf8::encode_utf8_valid_utf8(name);
        vstd::utf8::encode_utf8_decode_utf8(name);
        lemma_split_decoded(b);
        lemma_kept_all(split_dots(b));
    }
}

/// Reads the name at `start`, following compression pointers (a byte with the
/// top two bits set plus the next byte give an offset from the message
/// start). Returns the dotted name and how far to advance from `start`; after
/// a pointer that is 2 bytes, wherever the pointer led.
pub fn parse_name(buf: &[u8], start: usize) -> (r: (String, usize))
    requires
        name_terminates(buf@, start as int),
    ensures
        r.0@ == join_labels(name_at(buf@, start as int).0),
        labels_utf8(name_at(buf@, start as int).0) ==> r.0@ == decoded_name(
            name_at(buf@, start as int).0,
        ),
        r.1 == name_at(buf@, start as int).1,
        start < buf@.len() ==> r.1 <= buf@.len() - start,
        start >= buf@.len() ==> r.1 == 0,
{
    let ghost fuel0 = name_fuel(buf@, start as int);
    let ghost full = name_walk(buf@, start as int, false, start as int, fuel0);
    let mut out = String::new();
    let mut pos: usize = start;
    let mut jumped = false;
    let mut name_end: usize = start;
    let mut any_label = false;
    let ghost mut fuel: nat = fuel0;
    let ghost mut seen: Seq<Seq<u8>> = Seq::empty();
    proof {
        reveal_strlit(".");
    }
    loop
        invariant_except_break
            full == (match name_walk(buf@, pos as int, jumped, name_end as int, fuel) {
                Some((ls, e)) => Some((seen + ls, e)),
                None => None,
            }),
            !jumped ==> start <= pos && name_end == start,
            start >= buf@.len() ==> pos == start && !jumped,
        invariant
            full is Some,
            out@ == join_labels(seen),
            labels_utf8(seen) ==> out@ == decoded_name(seen),
            any_label == (seen.len() > 0),
            start <= name_end,
            name_end <= buf@.len() || name_end == start,
        ensures
            full == Some((seen, name_end as int)),
        decreases fuel,
    {
        proof {
            assert(fuel > 0);
        }
        if pos >= buf.len() {
            break;
        }
        let b = buf[pos];
        if b == 0 {
            pos = pos + 1;
            if !jumped {
                name_end = pos;
            }
            break;
        }
        if b >= 0xC0 {
            if pos + 1 >= buf.len() {
                break;
            }
            let offset: usize = ((b - 0xC0) as usize) * 256 + buf[pos + 1] as usize;
            if !jumped {
                name_end = pos + 2;
                jumped = true;
            }
            pos = offset;
            proof {
                fuel = (fuel - 1) as nat;
            }
            continue;
        }
        let len = b as usize;
        if len > buf.len() - pos - 1 {
            break;
        }
        let label = from_utf8_lossy(&buf[pos + 1..pos + 1 + len]);
        let ghost label_bytes = buf@.subrange(pos + 1, pos + 1 + len);
        let ghost old_out = out@;
        let ghost old_seen = seen;
        if any_label {
            out.append(".");
        }
        out.append(label.as_str());
        any_label = true;
        proof {
            let ns = seen.push(label_bytes);
            assert(ns.drop_last() =~= seen);
            match name_walk(buf@, pos + 1 + len, jumped, name_end as int, (fuel - 1) as nat) {
                Some((ls, e)) => {
                    assert(seen + (seq![label_bytes] + ls) =~= ns + ls);
                },
                None => {},
            }
            seen = ns;
            fuel = (fuel - 1) as nat;
            if seen.len() == 1 {
                assert(out@ =~= join_labels(seen));
            } else {
                assert(out@ =~= join_labels(seen));
            }
            if labels_utf8(ns) {
                assert forall|i: int| 0 <= i < old_seen.len() implies vstd::utf8::valid_utf8(
                    #[trigger] old_seen[i],
                ) by {
                    assert(ns[i] == old_seen[i]);
                }
                assert(vstd::utf8::valid_utf8(ns[ns.len() - 1]));
                assert(ns.last() == label_bytes);
                reveal_strlit(".");
                assert("."@ =~= seq!['.']);
                assert(out@ =~= decoded_name(ns));
            }
        }
        pos = pos + 1 + len;
    }
    proof {
        assert(seen + Seq::<Seq<u8>>::empty() =~= seen);
    }
    (out, name_end - start)
}

// ---------------------------------------------------------------------------
// Queries
// ---------------------------------------------------------------------------

/// The header of a standard recursive query, then the question.
pub open spec fn query_bytes(id: u16, qname: Seq<u8>, qtype: u16) -> Seq<u8> {
    u16_bytes(id) + u16_bytes(0x0100) + u16_bytes(1) + u16_bytes(0) + u16_bytes(0) + u16_bytes(0)
        + encoded_name(qname) + u16_bytes(qtype) + u16_bytes(CLASS_IN)
}

/// Builds a standard query with recursion desired (flags 0x0100), one
/// question, and no other records.
pub fn build_query(id: u16, qname: &str, qtype: u16) -> (buf: Vec<u8>)
    ensures
        buf@ == query_bytes(id, qname.spec_bytes(), qtype),
{
    let mut buf: Vec<u8> = Vec::with_capacity(64);
    push_u16(&mut buf, id);
    push_u16(&mut buf, 0x0100);
    push_u16(&mut buf, 1);
    push_u16(&mut buf, 0);
    push_u16(&mut buf, 0);
    push_u16(&mut buf, 0);
    encode_name(&mut buf, qname);
    push_u16(&mut buf, qtype);
    push_u16(&mut buf, CLASS_IN);
    assert(buf@ =~= query_bytes(id, qname.spec_bytes(), qtype));
    buf
}

/// Mnemonic of a record type.
pub fn record_type_name(t: u16) -> (s: &'static str)
    ensures
        s@ == (if t == TYPE_A {
            "A"@
        } else if t == TYPE_CNAME {
            "CNAME"@
        } else if t == TYPE_AAAA {
            "AAAA"@
        } else {
            "?"@
        }),
{
    if t == TYPE_A {
        "A"
    } else if t == TYPE_CNAME {
        "CNAME"
    } else if t == TYPE_AAAA {
        "AAAA"
    } else {
        "?"
    }
}

} // verus!

verus! {

// ---------------------------------------------------------------------------
// Responses
// ---------------------------------------------------------------------------

/// The data of a resource record.
pub enum RData {
    /// An IPv4 address (type A with 4 bytes of data).
    A([u8; 4]),
    /// An IPv6 address (type AAAA with 16 bytes of data).
    Aaaa([u8; 16]),
    /// The canonical name a CNAME record points to.
    Cname(String),
    /// Any other record: its type and data length.
    Other { rtype: u16, len: usize },
}

/// One answer record.
pub struct DnsAnswer {
    pub name: String,
    pub rtype: u16,
    pub ttl: u32,
    pub data: RData,
}

/// Why a response yields no answers.
pub enum ResponseError {
    /// Shorter than the 12-byte header.
    ShortHeader,
    /// A non-zero response code.
    Rcode(u16),
}

/// Where the question section ends, skipping `n` questions from `pos`;
/// `None` if a name on the way never ends.
pub open spec fn skip_questions(buf: Seq<u8>, pos: int, n: nat) -> Option<int>
    decreases n,
{
    if n == 0 {
        Some(pos)
    } else if !name_terminates(buf, pos) {
        None
    } else {
        skip_questions(buf, pos + name_at(buf, pos).1 + 4, (n - 1) as nat)
    }
}

/// Start positions of the answers read from `pos`, at most `n` of them; the
/// reading stops early at a record that does not fit in the message, and
/// yields `None` if a name on the way never ends.
pub open spec fn answer_positions(buf: Seq<u8>, pos: int, n: nat) -> Option<Seq<int>>
    decreases n,
{
    if n == 0 {
        Some(Seq::empty())
    } else if !name_terminates(buf, pos) {
        None
    } else {
        let p = pos + name_at(buf, pos).1;
        if p + 10 > buf.len() {
            Some(Seq::empty())
        } else {
            let rdl = be16(buf, p + 8);
            let p2 = p + 10;
            if p2 + rdl > buf.len() {
                Some(Seq::empty())
            } else if be16(buf, p) == TYPE_CNAME && !name_terminates(buf, p2) {
                None
            } else {
                match answer_positions(buf, p2 + rdl, (n - 1) as nat) {
                    Some(rest) => Some(seq![pos] + rest),
                    None => None,
                }
            }
        }
    }
}

/// `a` is the answer record whose owner name starts at `pos`.
pub open spec fn answer_at(buf: Seq<u8>, a: DnsAnswer, pos: int) -> bool {
    let p = pos + name_at(buf, pos).1;
    let rtype = be16(buf, p);
    let rdl = be16(buf, p + 8);
    let p2 = p + 10;
    &&& a.name@ == join_labels(name_at(buf, pos).0)
    &&& a.rtype == rtype
    &&& a.ttl == be32(buf, p + 4)
    &&& if rtype == TYPE_A && rdl == 4 {
        a.data matches RData::A(x) && x@ == buf.subrange(p2, p2 + 4)
    } else if rtype == TYPE_AAAA && rdl == 16 {
        a.data matches RData::Aaaa(x) && x@ == buf.subrange(p2, p2 + 16)
    } else if rtype == TYPE_CNAME {
        a.data matches RData::Cname(c) && c@ == join_labels(name_at(buf, p2).0)
    } else {
        a.data == RData::Other { rtype: rtype as u16, len: rdl as usize }
    }
}

/// Address records read as addresses: an answer whose record has type 28
/// (AAAA) and 16 bytes of data holds those 16 bytes as an IPv6 address, and
/// one of type 1 (A) with 4 bytes of data holds those 4 bytes as an IPv4
/// address.
pub proof fn address_answers_read(buf: Seq<u8>, pos: int, a: DnsAnswer)
    requires
        answer_at(buf, a, pos),
    ensures
        ({
            let p = pos + name_at(buf, pos).1;
            &&& (buf[p] == 0 && buf[p + 1] == 28 && buf[p + 8] == 0 && buf[p + 9] == 16) ==> (
            a.data matches RData::Aaaa(x) && x@ == buf.subrange(p + 10, p + 26))
            &&& (buf[p] == 0 && buf[p + 1] == 1 && buf[p + 8] == 0 && buf[p + 9] == 4) ==> (
            a.data matches RData::A(x) && x@ == buf.subrange(p + 10, p + 14))
        }),
{
}

/// Reading a response: an error, or where each answer starts; `None` if a
/// name on the way never ends.
pub open spec fn response_layout(buf: Seq<u8>) -> Option<Result<Seq<int>, ResponseError>> {
    if buf.len() < 12 {
        Some(Err(ResponseError::ShortHeader))
    } else if buf[3] % 16 != 0 {
        Some(Err(ResponseError::Rcode((buf[3] % 16) as u16)))
    } else {
        match skip_questions(buf, 12, be16(buf, 4) as nat) {
            None => None,
            Some(p) => match answer_positions(buf, p, be16(buf, 6) as nat) {
                None => None,
                Some(ps) => Some(Ok(ps)),
            },
        }
    }
}

fn read_u16(buf: &[u8], pos: usize) -> (v: u16)
    requires
        pos + 2 <= buf@.len(),
    ensures
        v == be16(buf@, pos as int),
{
    (buf[pos] as u16) * 256 + buf[pos + 1] as u16
}

fn read_u32(buf: &[u8], pos: usize) -> (v: u32)
    requires
        pos + 4 <= buf@.len(),
    ensures
        v == be32(buf@, pos as int),
{
    (buf[pos] as u32) * 16777216 + (buf[pos + 1] as u32) * 65536 + (buf[pos + 2] as u32) * 256
        + buf[pos + 3] as u32
}

/// Reading goes on from `pos`: a label that fits or a complete pointer.
spec fn walk_continues(buf: Seq<u8>, pos: int) -> bool {
    &&& 0 <= pos < buf.len()
    &&& buf[pos] != 0
    &&& if buf[pos] >= 0xC0 {
        pos + 1 < buf.len()
    } else {
        pos + 1 + buf[pos] <= buf.len()
    }
}

/// Where reading goes next from `pos`.
spec fn walk_next(buf: Seq<u8>, pos: int) -> int {
    if buf[pos] >= 0xC0 {
        (buf[pos] - 0xC0) * 256 + buf[pos + 1]
    } else {
        pos + 1 + buf[pos]
    }
}

/// The position after `k` steps from `pos`.
spec fn walk_pos(buf: Seq<u8>, pos: int, k: nat) -> int
    decreases k,
{
    if k == 0 {
        pos
    } else {
        walk_pos(buf, walk_next(buf, pos), (k - 1) as nat)
    }
}

/// Reading from `pos` stops within `fuel` steps.
spec fn walk_stops(buf: Seq<u8>, pos: int, fuel: nat) -> bool
    decreases fuel,
{
    fuel > 0 && (!walk_continues(buf, pos) || walk_stops(buf, walk_next(buf, pos), (fuel - 1) as nat))
}

proof fn lemma_walk_some(buf: Seq<u8>, pos: int, jumped: bool, end: int, fuel: nat)
    ensures
        (name_walk(buf, pos, jumped, end, fuel) is Some) == walk_stops(buf, pos, fuel),
    decreases fuel,
{
    if fuel > 0 && walk_continues(buf, pos) {
        let nj = if buf[pos] >= 0xC0 {
            true
        } else {
            jumped
        };
        let ne = if buf[pos] >= 0xC0 && !jumped {
            pos + 2
        } else {
            end
        };
        lemma_walk_some(buf, walk_next(buf, pos), nj, ne, (fuel - 1) as nat);
    }
}

proof fn lemma_walk_pos_add(buf: Seq<u8>, pos: int, a: nat, b: nat)
    ensures
        walk_pos(buf, pos, a + b) == walk_pos(buf, walk_pos(buf, pos, a), b),
    decreases a,
{
    if a > 0 {
        lemma_walk_pos_add(buf, walk_next(buf, pos), (a - 1) as nat, b);
    }
}

/// A walk that stops within `fuel` steps stops at some step `k` below it,
/// going on at every step before.
proof fn lemma_walk_stop_step(buf: Seq<u8>, pos: int, fuel: nat) -> (k: nat)
    requires
        walk_stops(buf, pos, fuel),
    ensures
        k < fuel,
        !walk_continues(buf, walk_pos(buf, pos, k)),
        forall|m: nat| m < k ==> walk_continues(buf, #[trigger] walk_pos(buf, pos, m)),
    decreases fuel,
{
    if !walk_continues(buf, pos) {
        0
    } else {
        let k1 = lemma_walk_stop_step(buf, walk_next(buf, pos), (fuel - 1) as nat);
        assert forall|m: nat| m < k1 + 1 implies walk_continues(buf, #[trigger] walk_pos(buf, pos, m)) by {
            if m > 0 {
                assert(walk_pos(buf, pos, m) == walk_pos(buf, walk_next(buf, pos), (m - 1) as nat));
            }
        }
        k1 + 1
    }
}

/// A walk that stops at step `k` stops within `k + 1` steps.
proof fn lemma_walk_stops_at(buf: Seq<u8>, pos: int, k: nat)
    requires
        !walk_continues(buf, walk_pos(buf, pos, k)),
        forall|m: nat| m < k ==> walk_continues(buf, #[trigger] walk_pos(buf, pos, m)),
    ensures
        walk_stops(buf, pos, k + 1),
    decreases k,
{
    if k > 0 {
        assert(walk_continues(buf, walk_pos(buf, pos, 0)));
        assert forall|m: nat| m < k - 1 implies walk_continues(
            buf,
            #[trigger] walk_pos(buf, walk_next(buf, pos), m),
        ) by {
            assert(walk_pos(buf, pos, m + 1) == walk_pos(buf, walk_next(buf, pos), m));
        }
        assert(walk_pos(buf, pos, k) == walk_pos(buf, walk_next(buf, pos), (k - 1) as nat));
        lemma_walk_stops_at(buf, walk_next(buf, pos), (k - 1) as nat);
    }
}

/// A stopping walk visits no position twice before it stops, so it stops
/// within buf.len() + 1 steps.
proof fn lemma_walk_bound(buf: Seq<u8>, pos: int, fuel: nat)
    requires
        walk_stops(buf, pos, fuel),
    ensures
        walk_stops(buf, pos, buf.len() + 1),
{
    let k = lemma_walk_stop_step(buf, pos, fuel);
    let f = |m: int| walk_pos(buf, pos, m as nat);
    let steps = vstd::set_lib::set_int_range(0, k as int);
    let seen = steps.map(f);
    assert forall|i: int, j: int| steps.contains(i) && steps.contains(j) && f(i) == f(j) implies i
        == j by {
        if i != j {
            let (lo, hi) = if i < j {
                (i as nat, j as nat)
            } else {
                (j as nat, i as nat)
            };
            let t = (k - hi) as nat;
            lemma_walk_pos_add(buf, pos, lo, t);
            lemma_walk_pos_add(buf, pos, hi, t);
            assert(walk_pos(buf, pos, hi + t) == walk_pos(buf, pos, k));
            assert(walk_continues(buf, walk_pos(buf, pos, lo + t)));
        }
    }
    vstd::set_lib::lemma_int_range(0, k as int);
    vstd::set_lib::lemma_map_size(steps, seen, f);
    let all = vstd::set_lib::set_int_range(0, buf.len() as int);
    vstd::set_lib::lemma_int_range(0, buf.len() as int);
    assert forall|x: int| seen.contains(x) implies all.contains(x) by {
        let m = choose|m: int| steps.contains(m) && f(m) == x;
        assert(walk_continues(buf, walk_pos(buf, pos, m as nat)));
    }
    vstd::set_lib::lemma_len_subset(seen, all);
    lemma_walk_stops_at(buf, pos, k);
    lemma_walk_stops_monotone(buf, pos, k + 1, buf.len() + 1);
}

proof fn lemma_walk_stops_monotone(buf: Seq<u8>, pos: int, f: nat, g: nat)
    requires
        walk_stops(buf, pos, f),
        f <= g,
    ensures
        walk_stops(buf, pos, g),
    decreases f,
{
    if walk_continues(buf, pos) {
        lemma_walk_stops_monotone(buf, walk_next(buf, pos), (f - 1) as nat, (g - 1) as nat);
    }
}

/// A name that ends at all ends within 2 len + 2 steps.
proof fn lemma_name_terminates_bounded(buf: Seq<u8>, start: int)
    requires
        name_terminates(buf, start),
    ensures
        name_walk(buf, start, false, start, (2 * buf.len() + 2) as nat) is Some,
{
    let f = name_fuel(buf, start);
    lemma_walk_some(buf, start, false, start, f);
    lemma_walk_bound(buf, start, f);
    lemma_walk_stops_monotone(buf, start, buf.len() + 1, (2 * buf.len() + 2) as nat);
    lemma_walk_some(buf, start, false, start, (2 * buf.len() + 2) as nat);
}

/// Whether reading a name at `start` ends, that is, compression pointers do
/// not loop; trying `2 * len + 2` steps (label or pointer) is enough.
pub fn name_ends(buf: &[u8], start: usize) -> (b: bool)
    requires
        buf@.len() < isize::MAX,
    ensures
        b == name_terminates(buf@, start as int),
{
    let ghost f0 = (2 * buf@.len() + 2) as nat;
    proof {
        if name_terminates(buf@, start as int) {
            lemma_name_terminates_bounded(buf@, start as int);
        }
    }
    let mut fuel: usize = 2 * buf.len() + 2;
    let mut pos: usize = start;
    let mut jumped = false;
    let mut end: usize = start;
    loop
        invariant
            fuel as nat <= f0,
            f0 == (2 * buf@.len() + 2) as nat,
            name_terminates(buf@, start as int) ==> name_walk(
                buf@,
                start as int,
                false,
                start as int,
                f0,
            ) is Some,
            (name_walk(buf@, start as int, false, start as int, f0) is Some) == (name_walk(
                buf@,
                pos as int,
                jumped,
                end as int,
                fuel as nat,
            ) is Some),
        ensures
            name_walk(buf@, pos as int, jumped, end as int, fuel as nat) is Some,
            (name_walk(buf@, start as int, false, start as int, f0) is Some) == (name_walk(
                buf@,
                pos as int,
                jumped,
                end as int,
                fuel as nat,
            ) is Some),
        decreases fuel,
    {
        if fuel == 0 {
            assert(name_walk(buf@, pos as int, jumped, end as int, 0) is None);
            return false;
        }
        if pos >= buf.len() {
            assert(name_walk(buf@, pos as int, jumped, end as int, fuel as nat) is Some);
            break;
        }
        let c = buf[pos];
        if c == 0 {
            assert(name_walk(buf@, pos as int, jumped, end as int, fuel as nat) is Some);
            break;
        }
        if c >= 0xC0 {
            if pos + 1 >= buf.len() {
                assert(name_walk(buf@, pos as int, jumped, end as int, fuel as nat) is Some);
                break;
            }
            let target: usize = ((c - 0xC0) as usize) * 256 + buf[pos + 1] as usize;
            if !jumped {
                end = pos + 2;
                jumped = true;
            }
            pos = target;
        } else {
            let len = c as usize;
            if len > buf.len() - pos - 1 {
                assert(name_walk(buf@, pos as int, jumped, end as int, fuel as nat) is Some);
                break;
            }
            pos = pos + 1 + len;
        }
        fuel = fuel - 1;
    }
    proof {
        assert(name_walk(buf@, start as int, false, start as int, f0) is Some);
    }
    true
}

/// Whether every name that reading the response would follow ends, so that
/// `parse_response` may read it.
pub fn response_names_end(buf: &[u8]) -> (b: bool)
    requires
        buf@.len() < isize::MAX,
    ensures
        b == (response_layout(buf@) is Some),
{
    if buf.len() < 12 || buf[3] % 16 != 0 {
        return true;
    }
    let qdcount = read_u16(buf, 4) as usize;
    let ancount = read_u16(buf, 6) as usize;
    let mut pos: usize = 12;
    let mut i: usize = 0;
    while i < qdcount
        invariant
            12 <= buf@.len() < isize::MAX,
            buf@[3] % 16 == 0,
            qdcount == be16(buf@, 4),
            ancount == be16(buf@, 6),
            i <= qdcount,
            pos <= buf@.len() + 4 * i + 12,
            skip_questions(buf@, 12, qdcount as nat) == skip_questions(
                buf@,
                pos as int,
                (qdcount - i) as nat,
            ),
        decreases qdcount - i,
    {
        if !name_ends(buf, pos) {
            return false;
        }
        let (_, consumed) = parse_name(buf, pos);
        pos = pos + consumed + 4;
        i = i + 1;
    }
    let ghost p0 = pos as int;
    let mut j: usize = 0;
    while j < ancount
        invariant
            12 <= buf@.len() < isize::MAX,
            buf@[3] % 16 == 0,
            skip_questions(buf@, 12, be16(buf@, 4) as nat) == Some(p0),
            ancount == be16(buf@, 6),
            j <= ancount,
            pos <= buf@.len() + 4 * qdcount + 12,
            qdcount <= 65535,
            (answer_positions(buf@, p0, ancount as nat) is Some) == (answer_positions(
                buf@,
                pos as int,
                (ancount - j) as nat,
            ) is Some),
        decreases ancount - j,
    {
        if !name_ends(buf, pos) {
            return false;
        }
        let (_, consumed) = parse_name(buf, pos);
        let p = pos + consumed;
        if p + 10 > buf.len() {
            return true;
        }
        let rtype = read_u16(buf, p);
        let rdl = read_u16(buf, p + 8) as usize;
        let p2 = p + 10;
        if rdl > buf.len() - p2 {
            return true;
        }
        if rtype == TYPE_CNAME && !name_ends(buf, p2) {
            return false;
        }
        proof {
            match answer_positions(buf@, (p2 + rdl) as int, (ancount - j - 1) as nat) {
                Some(rest) => {
                    assert(answer_positions(buf@, pos as int, (ancount - j) as nat) is Some);
                },
                None => {},
            }
        }
        pos = p2 + rdl;
        j = j + 1;
    }
    true
}

/// The meaning of a response code.
pub open spec fn rcode_text(rcode: u16) -> Seq<char> {
    if rcode == 1 {
        "Format error"@
    } else if rcode == 2 {
        "Server failure"@
    } else if rcode == 3 {
        "NXDOMAIN (名前が存在しない)"@
    } else if rcode == 4 {
        "Not implemented"@
    } else if rcode == 5 {
        "Refused"@
    } else {
        "Unknown"@
    }
}

/// Why a response yields no answers, as text.
pub open spec fn response_error_message(e: ResponseError) -> Seq<char> {
    match e {
        ResponseError::ShortHeader => "DNSヘッダーが12バイト未満"@,
        ResponseError::Rcode(r) => "DNS RCODE="@ + dec(r as nat) + " ("@ + rcode_text(r) + ")"@,
    }
}

/// The text of a response error.
pub fn response_error_text(e: &ResponseError) -> (s: String)
    ensures
        s@ == response_error_message(*e),
{
    match e {
        ResponseError::ShortHeader => String::from_str("DNSヘッダーが12バイト未満"),
        ResponseError::Rcode(r) => {
            let mut s = String::from_str("DNS RCODE=");
            push_dec(&mut s, *r as u64);
            s.append(" (");
            s.append(rcode_message(*r));
            s.append(")");
            s
        },
    }
}

/// An IPv4 address in dotted-decimal form.
pub open spec fn ipv4_text(o: Seq<u8>) -> Seq<char> {
    dec(o[0] as nat) + "."@ + dec(o[1] as nat) + "."@ + dec(o[2] as nat) + "."@ + dec(o[3] as nat)
}

/// The text of a record's data; `None` for an IPv6 address, whose
/// canonical form (with zero compression) is left to the caller.
pub open spec fn rdata_text(d: RData) -> Option<Seq<char>> {
    match d {
        RData::A(o) => Some(ipv4_text(o@)),
        RData::Aaaa(_) => None,
        RData::Cname(c) => Some(c@),
        RData::Other { rtype, len } => Some(
            "(type="@ + dec(rtype as nat) + ", "@ + dec(len as nat) + " bytes)"@,
        ),
    }
}

impl RData {
    /// The record data as text: an IPv4 address in dotted-decimal form, a
    /// canonical name as it stands, any other record as its type and
    /// length; `None` for an IPv6 address.
    pub fn text(&self) -> (s: Option<String>)
        ensures
            match (s, rdata_text(*self)) {
                (Some(a), Some(b)) => a@ == b,
                (None, None) => true,
                _ => false,
            },
    {
        match self {
            RData::A(o) => {
                let mut s = String::new();
                push_dec(&mut s, o[0] as u64);
                s.append(".");
                push_dec(&mut s, o[1] as u64);
                s.append(".");
                push_dec(&mut s, o[2] as u64);
                s.append(".");
                push_dec(&mut s, o[3] as u64);
                Some(s)
            },
            RData::Aaaa(_) => None,
            RData::Cname(c) => Some(c.clone()),
            RData::Other { rtype, len } => {
                let mut s = String::from_str("(type=");
                push_dec(&mut s, *rtype as u64);
                s.append(", ");
                push_dec(&mut s, *len as u64);
                s.append(" bytes)");
                Some(s)
            },
        }
    }
}

/// Message of a response code.
pub fn rcode_message(rcode: u16) -> (s: &'static str)
    ensures
        s@ == rcode_text(rcode),
{
    match rcode {
        1 => "Format error",
        2 => "Server failure",
        3 => "NXDOMAIN (名前が存在しない)",
        4 => "Not implemented",
        5 => "Refused",
        _ => "Unknown",
    }
}

fn read_answer(buf: &[u8], pos: usize, p: usize, rdl: usize) -> (a: DnsAnswer)
    requires
        buf@.len() <= isize::MAX,
        name_terminates(buf@, pos as int),
        p == pos + name_at(buf@, pos as int).1,
        p + 10 + rdl <= buf@.len(),
        rdl == be16(buf@, p + 8),
        be16(buf@, p as int) == TYPE_CNAME ==> name_terminates(buf@, p + 10),
    ensures
        answer_at(buf@, a, pos as int),
{
    let rtype = read_u16(buf, p);
    let ttl = read_u32(buf, p + 4);
    let q = p + 10;
    let data = if rtype == TYPE_A && rdl == 4 {
        let x: [u8; 4] = [buf[q], buf[q + 1], buf[q + 2], buf[q + 3]];
        assert(x@ =~= buf@.subrange(q as int, q + 4));
        RData::A(x)
    } else if rtype == TYPE_AAAA && rdl == 16 {
        let x: [u8; 16] = [
            buf[q],
            buf[q + 1],
            buf[q + 2],
            buf[q + 3],
            buf[q + 4],
            buf[q + 5],
            buf[q + 6],
            buf[q + 7],
            buf[q + 8],
            buf[q + 9],
            buf[q + 10],
            buf[q + 11],
            buf[q + 12],
            buf[q + 13],
            buf[q + 14],
            buf[q + 15],
        ];
        assert(x@ =~= buf@.subrange(q as int, q + 16));
        RData::Aaaa(x)
    } else if rtype == TYPE_CNAME {
        let (cname, _) = parse_name(buf, q);
        RData::Cname(cname)
    } else {
        RData::Other { rtype, len: rdl }
    };
    let (name, _) = parse_name(buf, pos);
    DnsAnswer { name, rtype, ttl, data }
}

/// Reads the answers of a response. The message must not be so large that
/// positions past its end overflow (`isize::MAX` bounds every buffer), and
/// the names read on the way must end.
pub fn parse_response(buf: &[u8]) -> (res: Result<Vec<DnsAnswer>, ResponseError>)
    requires
        buf@.len() <= isize::MAX,
        response_layout(buf@) is Some,
    ensures
        match response_layout(buf@)->Some_0 {
            Err(e) => res == Err::<Vec<DnsAnswer>, ResponseError>(e),
            Ok(ps) => res matches Ok(answers) && answers@.len() == ps.len() && forall|i: int|
                0 <= i < ps.len() ==> answer_at(buf@, #[trigger] answers@[i], ps[i]),
        },
{
    if buf.len() < 12 {
        return Err(ResponseError::ShortHeader);
    }
    let flags = read_u16(buf, 2);
    let qdcount = read_u16(buf, 4);
    let ancount = read_u16(buf, 6);
    let rcode = flags & 0x000F;
    let b2 = buf[2];
    let b3 = buf[3];
    assert(rcode == b3 % 16) by (bit_vector)
        requires
            flags == b2 * 256 + b3,
            rcode == flags & 0x000F,
    ;
    if rcode != 0 {
        return Err(ResponseError::Rcode(rcode));
    }
    let mut pos: usize = 12;
    let mut k: u16 = 0;
    while k < qdcount
        invariant
            k <= qdcount,
            buf@.len() <= isize::MAX,
            pos <= buf@.len() + 4 * k + 12,
            skip_questions(buf@, 12, qdcount as nat) == skip_questions(
                buf@,
                pos as int,
                (qdcount - k) as nat,
            ),
            skip_questions(buf@, 12, qdcount as nat) is Some,
        decreases qdcount - k,
    {
        let (_, consumed) = parse_name(buf, pos);
        pos = pos + consumed;
        pos = pos + 4;
        k = k + 1;
    }
    let ghost qend = pos as int;
    assert(skip_questions(buf@, pos as int, 0) == Some(pos as int));
    assert(skip_questions(buf@, 12, qdcount as nat) == Some(qend));
    let mut answers: Vec<DnsAnswer> = Vec::new();
    let ghost mut ps: Seq<int> = Seq::empty();
    let mut j: u16 = 0;
    loop
        invariant
            j <= ancount,
            buf@.len() <= isize::MAX,
            pos <= buf@.len() + 4 * 65536 + 12,
            answers@.len() == ps.len(),
            forall|i: int| 0 <= i < ps.len() ==> answer_at(buf@, #[trigger] answers@[i], ps[i]),
            answer_positions(buf@, qend, ancount as nat) == (match answer_positions(
                buf@,
                pos as int,
                (ancount - j) as nat,
            ) {
                Some(rest) => Some(ps + rest),
                None => None,
            }),
            answer_positions(buf@, qend, ancount as nat) is Some,
        ensures
            answers@.len() == ps.len(),
            forall|i: int| 0 <= i < ps.len() ==> answer_at(buf@, #[trigger] answers@[i], ps[i]),
            answer_positions(buf@, qend, ancount as nat) == Some(ps),
        decreases ancount - j,
    {
        if j >= ancount {
            proof {
                assert(ps + Seq::<int>::empty() =~= ps);
            }
            break;
        }
        let (_, consumed) = parse_name(buf, pos);
        let p = pos + consumed;
        if p > buf.len() || buf.len() - p < 10 {
            proof {
                assert(ps + Seq::<int>::empty() =~= ps);
            }
            break;
        }
        let rdl = read_u16(buf, p + 8) as usize;
        if rdl > buf.len() - p - 10 {
            proof {
                assert(ps + Seq::<int>::empty() =~= ps);
            }
            break;
        }
        let a = read_answer(buf, pos, p, rdl);
        let ghost old_answers = answers@;
        answers.push(a);
        proof {
            let rest = answer_positions(buf@, p + 10 + rdl, (ancount - j - 1) as nat)->Some_0;
            assert(ps + (seq![pos as int] + rest) =~= ps.push(pos as int) + rest);
            assert forall|i: int| 0 <= i < ps.len() + 1 implies answer_at(
                buf@,
                #[trigger] answers@[i],
                ps.push(pos as int)[i],
            ) by {
                if i < ps.len() {
                    assert(answers@[i] == old_answers[i]);
                }
            }
            ps = ps.push(pos as int);
        }
        pos = p + 10 + rdl;
        j = j + 1;
    }
    Ok(answers)
}

} // verus!

verus! {

// ---------------------------------------------------------------------------
// Authoritative answers
// ---------------------------------------------------------------------------

/// Index of the first zone entry, from `i` on, whose name is `name`.
pub open spec fn zone_find(records: Seq<(String, Vec<[u8; 4]>)>, name: Seq<char>, i: int) -> Option<
    int,
>
    decreases records.len() - i,
{
    if i < 0 || i >= records.len() {
        None
    } else if records[i].0@ == name {
        Some(i)
    } else {
        zone_find(records, name, i + 1)
    }
}

proof fn lemma_zone_find(records: Seq<(String, Vec<[u8; 4]>)>, name: Seq<char>, i: int)
    ensures
        zone_find(records, name, i) matches Some(k) ==> i <= k < records.len() && records[k].0@
            == name,
    decreases records.len() - i,
{
    if 0 <= i < records.len() && records[i].0@ != name {
        lemma_zone_find(records, name, i + 1);
    }
}

/// One A record answering the question: a pointer to the name at offset 12,
/// type A, class IN, TTL 60, 4 bytes of address.
pub open spec fn a_record(addr: [u8; 4]) -> Seq<u8> {
    seq![0xC0u8, 0x0C] + u16_bytes(TYPE_A) + u16_bytes(CLASS_IN) + u32_bytes(60) + u16_bytes(4)
        + addr@
}

pub open spec fn a_records(addrs: Seq<[u8; 4]>) -> Seq<u8>
    decreases addrs.len(),
{
    if addrs.len() == 0 {
        Seq::empty()
    } else {
        a_records(addrs.drop_last()) + a_record(addrs.last())
    }
}

/// The reply to a query: the ID and question echoed, QR and AA set, NXDOMAIN
/// for names outside the zone, and one A record per address when the
/// question asks for A records of a known name.
pub open spec fn query_reply(buf: Seq<u8>, records: Seq<(String, Vec<[u8; 4]>)>) -> Seq<u8> {
    let (labels, consumed) = name_at(buf, 12);
    let qname = join_labels(labels);
    let pos = 12 + consumed;
    let qtype = be16(buf, pos);
    let found = zone_find(records, qname, 0);
    let addrs: Seq<[u8; 4]> = if qtype == TYPE_A && found is Some {
        records[found->Some_0].1@
    } else {
        Seq::empty()
    };
    let rcode: u16 = if found is Some {
        0
    } else {
        3
    };
    buf.subrange(0, 2) + u16_bytes((0x8400 + rcode) as u16) + buf.subrange(4, 6) + u16_bytes(
        addrs.len() as u16,
    ) + u16_bytes(0) + u16_bytes(0) + buf.subrange(12, pos + 4) + a_records(addrs)
}

/// No name occurs twice in the zone (as in a map from names to addresses).
pub open spec fn zone_names_distinct(records: Seq<(String, Vec<[u8; 4]>)>) -> bool {
    forall|i: int, j: int|
        0 <= i < j < records.len() ==> #[trigger] records[i].0@ != #[trigger] records[j].0@
}

/// Whether no name occurs twice in the zone.
pub fn zone_names_unique(records: &[(String, Vec<[u8; 4]>)]) -> (b: bool)
    ensures
        b == zone_names_distinct(records@),
{
    let mut j: usize = 0;
    while j < records.len()
        invariant
            j <= records@.len(),
            forall|a: int, c: int|
                0 <= a < c < j ==> #[trigger] records@[a].0@ != #[trigger] records@[c].0@,
        decreases records@.len() - j,
    {
        let mut i: usize = 0;
        while i < j
            invariant
                i <= j < records@.len(),
                forall|a: int, c: int|
                    0 <= a < c < j ==> #[trigger] records@[a].0@ != #[trigger] records@[c].0@,
                forall|a: int| 0 <= a < i ==> #[trigger] records@[a].0@ != records@[j as int].0@,
            decreases j - i,
        {
            if records[i].0 == records[j].0 {
                return false;
            }
            i = i + 1;
        }
        j = j + 1;
    }
    true
}

/// Answers a query from the zone `records` (name to IPv4 addresses, no name
/// twice). The question must be complete: its name must end and be followed by type and
/// class.
pub fn handle_query(buf: &[u8], records: &[(String, Vec<[u8; 4]>)]) -> (resp: Vec<u8>)
    requires
        zone_names_distinct(records@),
        12 <= buf@.len() <= isize::MAX,
        name_terminates(buf@, 12),
        12 + name_at(buf@, 12).1 + 4 <= buf@.len(),
    ensures
        resp@ == query_reply(buf@, records@),
{
    let (qname, consumed) = parse_name(buf, 12);
    let pos = 12 + consumed;
    let qtype = read_u16(buf, pos);
    let question_end = pos + 4;
    let mut found: Option<usize> = None;
    let mut i: usize = 0;
    loop
        invariant_except_break
            i <= records@.len(),
            found is None,
            zone_find(records@, qname@, 0) == zone_find(records@, qname@, i as int),
        ensures
            match zone_find(records@, qname@, 0) {
                Some(k) => found == Some(k as usize),
                None => found is None,
            },
        decreases records@.len() - i,
    {
        if i >= records.len() {
            break;
        }
        if records[i].0 == qname {
            found = Some(i);
            break;
        }
        i = i + 1;
    }
    proof {
        lemma_zone_find(records@, qname@, 0);
    }
    let ghost gfound = zone_find(records@, qname@, 0);
    assert(match gfound {
        Some(k) => found == Some(k as usize),
        None => found is None,
    });
    let empty: Vec<[u8; 4]> = Vec::new();
    let addrs: &Vec<[u8; 4]> = match found {
        Some(k) => if qtype == TYPE_A {
            &records[k].1
        } else {
            &empty
        },
        None => &empty,
    };
    let rcode: u16 = if found.is_some() {
        0
    } else {
        3
    };
    let mut resp: Vec<u8> = Vec::new();
    resp.push(buf[0]);
    resp.push(buf[1]);
    push_u16(&mut resp, 0x8400 + rcode);
    resp.push(buf[4]);
    resp.push(buf[5]);
    push_u16(&mut resp, addrs.len() as u16);
    push_u16(&mut resp, 0);
    push_u16(&mut resp, 0);
    let mut q: usize = 12;
    while q < question_end
        invariant
            12 <= q <= question_end,
            question_end <= buf@.len(),
            resp@ == buf@.subrange(0, 2) + u16_bytes((0x8400 + rcode) as u16) + buf@.subrange(4, 6)
                + u16_bytes(addrs@.len() as u16) + u16_bytes(0) + u16_bytes(0) + buf@.subrange(
                12,
                q as int,
            ),
        decreases question_end - q,
    {
        resp.push(buf[q]);
        q = q + 1;
        assert(resp@ =~= buf@.subrange(0, 2) + u16_bytes((0x8400 + rcode) as u16) + buf@.subrange(
            4,
            6,
        ) + u16_bytes(addrs@.len() as u16) + u16_bytes(0) + u16_bytes(0) + buf@.subrange(
            12,
            q as int,
        ));
    }
    let ghost head = resp@;
    let mut a: usize = 0;
    while a < addrs.len()
        invariant
            a <= addrs@.len(),
            resp@ == head + a_records(addrs@.take(a as int)),
        decreases addrs@.len() - a,
    {
        let addr = addrs[a];
        resp.push(0xC0);
        resp.push(0x0C);
        push_u16(&mut resp, TYPE_A);
        push_u16(&mut resp, CLASS_IN);
        push_u32(&mut resp, 60);
        push_u16(&mut resp, 4);
        resp.push(addr[0]);
        resp.push(addr[1]);
        resp.push(addr[2]);
        resp.push(addr[3]);
        proof {
            assert(addrs@.take(a + 1).drop_last() =~= addrs@.take(a as int));
            assert(addr@ =~= seq![addr@[0], addr@[1], addr@[2], addr@[3]]);
        }
        a = a + 1;
        assert(resp@ =~= head + a_records(addrs@.take(a as int)));
    }
    proof {
        assert(addrs@.take(a as int) =~= addrs@);
        assert(resp@ =~= query_reply(buf@, records@));
    }
    resp
}


proof fn lemma_a_record_len(x: [u8; 4])
    ensures
        a_record(x).len() == 16,
{
    assert(x@.len() == 4);
}

proof fn lemma_a_records_len(addrs: Seq<[u8; 4]>)
    ensures
        a_records(addrs).len() == 16 * addrs.len(),
    decreases addrs.len(),
{
    if addrs.len() > 0 {
        lemma_a_records_len(addrs.drop_last());
        lemma_a_record_len(addrs.last());
    }
}

proof fn lemma_a_records_at(addrs: Seq<[u8; 4]>, i: int)
    requires
        0 <= i < addrs.len(),
    ensures
        a_records(addrs).subrange(16 * i, 16 * i + 16) == a_record(addrs[i]),
    decreases addrs.len(),
{
    let init = addrs.drop_last();
    lemma_a_records_len(init);
    lemma_a_record_len(addrs.last());
    let all = a_records(addrs);
    assert(all == a_records(init) + a_record(addrs.last()));
    if i < addrs.len() - 1 {
        lemma_a_records_at(init, i);
        assert(all.subrange(16 * i, 16 * i + 16) =~= a_records(init).subrange(16 * i, 16 * i + 16));
    } else {
        assert(all.subrange(16 * i, 16 * i + 16) =~= a_record(addrs.last()));
    }
}

/// A compression pointer to offset 12 reads the name written there.
proof fn lemma_pointer_name(buf: Seq<u8>, name: Seq<u8>, p: int)
    requires
        forall|i: int| 0 <= i < split_dots(name).len() ==> #[trigger] split_dots(name)[i].len() < 0xC0,
        buf.len() >= 12 + encoded_name(name).len(),
        buf.subrange(12, 12 + encoded_name(name).len() as int) == encoded_name(name),
        0 <= p,
        p + 1 < buf.len(),
        buf[p] == 0xC0,
        buf[p + 1] == 0x0C,
    ensures
        name_terminates(buf, p),
        name_at(buf, p) == (kept_labels(split_dots(name)), 2int),
{
    let ls = split_dots(name);
    let enc = encoded_name(name);
    let pre = buf.subrange(0, 12);
    let post = buf.subrange(12 + enc.len() as int, buf.len() as int);
    assert(buf =~= pre + buf.subrange(12, 12 + enc.len() as int) + post);
    assert(enc =~= encode_labels(ls) + seq![0u8]);
    assert(buf =~= pre + encode_labels(ls) + seq![0u8] + post);
    let fuel = (ls.len() + 2) as nat;
    lemma_walk_labels(pre, ls, post, true, p + 2, (fuel - 1) as nat);
    assert(name_walk(buf, p, false, p, fuel) == name_walk(buf, 12, true, p + 2, (fuel - 1) as nat));
    assert(name_terminates(buf, p));
    let chosen = name_fuel(buf, p);
    if chosen <= fuel {
        lemma_name_walk_fuel(buf, p, false, p, chosen, fuel);
    } else {
        lemma_name_walk_fuel(buf, p, false, p, fuel, chosen);
    }
}

/// The bytes of the `i`-th A record of a reply whose records start at `base`.
proof fn lemma_record_bytes(reply: Seq<u8>, addrs: Seq<[u8; 4]>, base: int, i: int)
    requires
        base >= 0,
        reply.len() == base + 16 * addrs.len(),
        reply.subrange(base, reply.len() as int) == a_records(addrs),
        0 <= i < addrs.len(),
    ensures
        ({
            let q = base + 16 * i;
            &&& reply[q] == 0xC0
            &&& reply[q + 1] == 0x0C
            &&& be16(reply, q + 2) == TYPE_A
            &&& be32(reply, q + 6) == 60
            &&& be16(reply, q + 10) == 4
            &&& reply.subrange(q + 12, q + 16) == addrs[i]@
        }),
{
    let q = base + 16 * i;
    let x = addrs[i]@;
    let rec = a_record(addrs[i]);
    assert(x.len() == 4);
    let fixed = seq![0xC0u8, 0x0Cu8, 0u8, 1u8, 0u8, 1u8, 0u8, 0u8, 0u8, 60u8, 0u8, 4u8];
    assert(rec =~= fixed + x);
    lemma_a_records_at(addrs, i);
    assert(reply.subrange(q, q + 16) =~= rec) by {
        assert(reply.subrange(q, q + 16) =~= reply.subrange(base, reply.len() as int).subrange(
            16 * i,
            16 * i + 16,
        ));
    }
    assert forall|t: int| 0 <= t < 16 implies reply[q + t] == #[trigger] rec[t] by {
        assert(reply.subrange(q, q + 16)[t] == reply[q + t]);
    }
    assert(rec[12] == x[0] && rec[13] == x[1] && rec[14] == x[2] && rec[15] == x[3]);
    let tailb = reply.subrange(q + 12, q + 16);
    assert(tailb[0] == reply[q + 12] && tailb[1] == reply[q + 13]);
    assert(tailb[2] == reply[q + 14] && tailb[3] == reply[q + 15]);
    assert(reply[q + 12] == rec[12] && reply[q + 13] == rec[13]);
    assert(reply[q + 14] == rec[14] && reply[q + 15] == rec[15]);
    assert(tailb =~= x);
    assert(rec[0] == 0xC0 && rec[1] == 0x0C && rec[2] == 0 && rec[3] == 1);
    assert(rec[6] == 0 && rec[7] == 0 && rec[8] == 0 && rec[9] == 60);
    assert(rec[10] == 0 && rec[11] == 4);
}

/// The A records from `base + 16 j` on are read one after another.
proof fn lemma_answers(reply: Seq<u8>, name: Seq<u8>, addrs: Seq<[u8; 4]>, base: int, j: int)
    requires
        forall|i: int| 0 <= i < split_dots(name).len() ==> #[trigger] split_dots(name)[i].len() < 0xC0,
        base >= 12 + encoded_name(name).len(),
        reply.len() == base + 16 * addrs.len(),
        reply.subrange(12, 12 + encoded_name(name).len() as int) == encoded_name(name),
        reply.subrange(base, reply.len() as int) == a_records(addrs),
        0 <= j <= addrs.len(),
    ensures
        answer_positions(reply, base + 16 * j, (addrs.len() - j) as nat) == Some(
            Seq::new((addrs.len() - j) as nat, |t: int| base + 16 * (j + t)),
        ),
    decreases addrs.len() - j,
{
    let m = (addrs.len() - j) as nat;
    if m == 0 {
        assert(Seq::new(0, |t: int| base + 16 * (j + t)) =~= Seq::<int>::empty());
    } else {
        let pos = base + 16 * j;
        lemma_record_bytes(reply, addrs, base, j);
        lemma_pointer_name(reply, name, pos);
        let p = pos + 2;
        lemma_answers(reply, name, addrs, base, j + 1);
        assert(p + 10 + 4 == base + 16 * (j + 1));
        assert(seq![pos] + Seq::new((m - 1) as nat, |t: int| base + 16 * (j + 1 + t)) =~= Seq::new(
            m,
            |t: int| base + 16 * (j + t),
        ));
    }
}


/// What the `i`-th A record of such a reply reads as.
proof fn lemma_answer_fields(
    reply: Seq<u8>,
    name: Seq<u8>,
    addrs: Seq<[u8; 4]>,
    base: int,
    i: int,
    a: DnsAnswer,
)
    requires
        forall|t: int| 0 <= t < split_dots(name).len() ==> #[trigger] split_dots(name)[t].len() < 0xC0,
        base >= 12 + encoded_name(name).len(),
        reply.len() == base + 16 * addrs.len(),
        reply.subrange(12, 12 + encoded_name(name).len() as int) == encoded_name(name),
        reply.subrange(base, reply.len() as int) == a_records(addrs),
        0 <= i < addrs.len(),
    ensures
        answer_at(reply, a, base + 16 * i) == (a.name@ == join_labels(kept_labels(split_dots(name)))
            && a.rtype == TYPE_A && a.ttl == 60 && (a.data matches RData::A(x) && x@
            == addrs[i]@)),
{
    let q = base + 16 * i;
    lemma_record_bytes(reply, addrs, base, i);
    lemma_pointer_name(reply, name, q);
}

/// An A query: its name reads back at offset 12 and the type A follows it.
proof fn lemma_query_shape(id: u16, name: Seq<u8>)
    requires
        forall|i: int| 0 <= i < split_dots(name).len() ==> #[trigger] split_dots(name)[i].len() < 0xC0,
    ensures
        ({
            let query = query_bytes(id, name, TYPE_A);
            let len = encoded_name(name).len() as int;
            &&& query.len() == 12 + len + 4
            &&& name_terminates(query, 12)
            &&& name_at(query, 12) == (kept_labels(split_dots(name)), len)
            &&& be16(query, 12 + len) == TYPE_A
            &&& be16(query, 4) == 1
            &&& query.subrange(12, 12 + len + 4) == encoded_name(name) + u16_bytes(TYPE_A)
                + u16_bytes(CLASS_IN)
        }),
{
    let query = query_bytes(id, name, TYPE_A);
    let enc = encoded_name(name);
    let hq = u16_bytes(id) + u16_bytes(0x0100) + u16_bytes(1) + u16_bytes(0) + u16_bytes(0)
        + u16_bytes(0);
    let tail = u16_bytes(TYPE_A) + u16_bytes(CLASS_IN);
    assert(query =~= hq + enc + tail);
    name_roundtrip(hq, name, tail);
    let pos = 12 + enc.len() as int;
    assert(query[pos] == 0 && query[pos + 1] == 1);
    assert(query[4] == 0 && query[5] == 1);
    assert(query.subrange(12, pos + 4) =~= enc + tail);
}

/// How a reply carrying `addrs` as A records after its question reads.
proof fn lemma_found_layout(reply: Seq<u8>, name: Seq<u8>, addrs: Seq<[u8; 4]>)
    requires
        forall|i: int| 0 <= i < split_dots(name).len() ==> #[trigger] split_dots(name)[i].len() < 0xC0,
        reply.len() == 12 + encoded_name(name).len() + 4 + 16 * addrs.len(),
        reply[3] == 0,
        be16(reply, 4) == 1,
        be16(reply, 6) == addrs.len(),
        reply.subrange(12, 12 + encoded_name(name).len() as int) == encoded_name(name),
        reply.subrange(12 + encoded_name(name).len() as int + 4, reply.len() as int) == a_records(addrs),
    ensures
        response_layout(reply) matches Some(Ok(ps)) && ps.len() == addrs.len() && forall|
            i: int,
            a: DnsAnswer,
        |
            0 <= i < ps.len() ==> (#[trigger] answer_at(reply, a, ps[i]) == (a.name@ == join_labels(
                kept_labels(split_dots(name)),
            ) && a.rtype == TYPE_A && a.ttl == 60 && (a.data matches RData::A(x) && x@
                == addrs[i]@))),
{
    let enc = encoded_name(name);
    let len = enc.len() as int;
    let pre = reply.subrange(0, 12);
    let post = reply.subrange(12 + len, reply.len() as int);
    assert(reply =~= pre + enc + post);
    name_roundtrip(pre, name, post);
    let base = 12 + len + 4;
    assert(skip_questions(reply, 12, 1) == skip_questions(reply, base, 0));
    lemma_answers(reply, name, addrs, base, 0);
    let ps = Seq::new(addrs.len(), |t: int| base + 16 * (0 + t));
    assert(response_layout(reply) == Some(Ok::<Seq<int>, ResponseError>(ps)));
    assert forall|i: int, a: DnsAnswer| 0 <= i < ps.len() implies (#[trigger] answer_at(
        reply,
        a,
        ps[i],
    ) == (a.name@ == join_labels(kept_labels(split_dots(name))) && a.rtype == TYPE_A && a.ttl
        == 60 && (a.data matches RData::A(x) && x@ == addrs[i]@))) by {
        assert(ps[i] == base + 16 * i);
        lemma_answer_fields(reply, name, addrs, base, i, a);
    }
}

/// The reply to an A query for `name`: a 12-byte header carrying the response
/// code and counts, the question echoed, then the A records of the zone's
/// addresses for the name.
proof fn lemma_reply_shape(id: u16, name: Seq<u8>, records: Seq<(String, Vec<[u8; 4]>)>)
    requires
        forall|i: int| 0 <= i < split_dots(name).len() ==> #[trigger] split_dots(name)[i].len() < 0xC0,
    ensures
        ({
            let query = query_bytes(id, name, TYPE_A);
            let reply = query_reply(query, records);
            let enc = encoded_name(name);
            let found = zone_find(records, join_labels(kept_labels(split_dots(name))), 0);
            let addrs: Seq<[u8; 4]> = if found is Some {
                records[found->Some_0].1@
            } else {
                Seq::empty()
            };
            &&& reply.len() == 12 + enc.len() + 4 + a_records(addrs).len()
            &&& reply[3] == (if found is Some {
                0u8
            } else {
                3u8
            })
            &&& reply[4] == 0
            &&& reply[5] == 1
            &&& reply[6] == ((addrs.len() as u16) / 256) as u8
            &&& reply[7] == ((addrs.len() as u16) % 256) as u8
            &&& reply.subrange(12, 12 + enc.len() as int) == enc
            &&& reply.subrange(12 + enc.len() as int + 4, reply.len() as int) == a_records(addrs)
        }),
{
    let query = query_bytes(id, name, TYPE_A);
    let reply = query_reply(query, records);
    let enc = encoded_name(name);
    let len = enc.len() as int;
    lemma_query_shape(id, name);
    let pos = 12 + len;
    let found = zone_find(records, join_labels(kept_labels(split_dots(name))), 0);
    let addrs: Seq<[u8; 4]> = if found is Some {
        records[found->Some_0].1@
    } else {
        Seq::empty()
    };
    let rcode: u16 = if found is Some {
        0
    } else {
        3
    };
    let hr = query.subrange(0, 2) + u16_bytes((0x8400 + rcode) as u16) + query.subrange(4, 6)
        + u16_bytes(addrs.len() as u16) + u16_bytes(0) + u16_bytes(0);
    assert(reply == hr + query.subrange(12, pos + 4) + a_records(addrs));
    let tail = u16_bytes(TYPE_A) + u16_bytes(CLASS_IN);
    assert(reply =~= hr + (enc + tail) + a_records(addrs));
    assert(query[4] == 0 && query[5] == 1);
    assert(reply.subrange(12, 12 + len) =~= enc);
    assert(reply.subrange(pos + 4, reply.len() as int) =~= a_records(addrs));
}

/// The resolver reads back what the zone holds: the server's reply to an A
/// query for `name` (each label shorter than 192 bytes) is NXDOMAIN
/// (response code 3) when the name is not in the zone, and otherwise one
/// answer per address of the name, in order, each owned by the queried
/// name, of type A, with a TTL of 60 seconds and that address as its data.
/// The query itself meets what answering it needs. (A name with more than
/// 65535 addresses is left out: the answer count would wrap.)
pub proof fn zone_answers_read_back(id: u16, name: Seq<u8>, records: Seq<(String, Vec<[u8; 4]>)>)
    requires
        forall|i: int| 0 <= i < split_dots(name).len() ==> #[trigger] split_dots(name)[i].len() < 0xC0,
        zone_find(records, join_labels(kept_labels(split_dots(name))), 0) matches Some(k)
            ==> records[k].1@.len() <= 0xFFFF,
    ensures
        ({
            let query = query_bytes(id, name, TYPE_A);
            let reply = query_reply(query, records);
            let qname = join_labels(kept_labels(split_dots(name)));
            &&& name_terminates(query, 12)
            &&& 12 + name_at(query, 12).1 + 4 <= query.len()
            &&& match zone_find(records, qname, 0) {
                None => response_layout(reply) == Some(
                    Err::<Seq<int>, ResponseError>(ResponseError::Rcode(3)),
                ),
                Some(k) => response_layout(reply) matches Some(Ok(ps)) && ps.len()
                    == records[k].1@.len() && forall|i: int, a: DnsAnswer|
                    0 <= i < ps.len() ==> (#[trigger] answer_at(reply, a, ps[i]) == (a.name@
                        == qname && a.rtype == TYPE_A && a.ttl == 60 && (a.data matches RData::A(
                        x,
                    ) && x@ == records[k].1@[i]@))),
            }
        }),
{
    let query = query_bytes(id, name, TYPE_A);
    let reply = query_reply(query, records);
    let enc = encoded_name(name);
    lemma_query_shape(id, name);
    lemma_reply_shape(id, name, records);
    let found = zone_find(records, join_labels(kept_labels(split_dots(name))), 0);
    let addrs: Seq<[u8; 4]> = if found is Some {
        records[found->Some_0].1@
    } else {
        Seq::empty()
    };
    lemma_a_records_len(addrs);
    if found is Some {
        let n = addrs.len();
        assert(n as u16 == n);
        vstd::arithmetic::div_mod::lemma_fundamental_div_mod(n as int, 256);
        assert(be16(reply, 6) == n);
        lemma_found_layout(reply, name, addrs);
    }
}

} // verus!
