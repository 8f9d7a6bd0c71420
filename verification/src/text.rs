//! Text helpers shared by the topic modules: decimal rendering of integers,
//! the grammar that `str::parse` accepts for integers, and byte-level views
//! of string slices.
use std::num::ParseIntError;
use vstd::prelude::*;
use vstd::string::StringSliceAdditionalSpecFns;

verus! {

/// The standard library's integer parse error, carried through unchanged.
#[verifier::external_type_specification]
#[verifier::external_body]
pub struct ExParseIntError(ParseIntError);

/// ASCII decimal digit.
pub open spec fn is_digit_char(c: char) -> bool {
    '0' <= c && c <= '9'
}

pub open spec fn digit_value(c: char) -> int {
    (c as int) - ('0' as int)
}

pub open spec fn all_digits(s: Seq<char>) -> bool {
    forall|i: int| 0 <= i < s.len() ==> #[trigger] is_digit_char(s[i])
}

/// Value of a string of decimal digits (most significant first).
pub open spec fn digits_value(s: Seq<char>) -> int
    decreases s.len(),
{
    if s.len() == 0 {
        0
    } else {
        digits_value(s.drop_last()) * 10 + digit_value(s.last())
    }
}

/// What `str::parse` accepts for a signed integer: an optional `+` or `-`
/// followed by one or more ASCII digits, and nothing else.
pub open spec fn signed_decimal(s: Seq<char>) -> Option<int> {
    if s.len() > 0 && (s[0] == '+' || s[0] == '-') {
        let d = s.drop_first();
        if d.len() > 0 && all_digits(d) {
            if s[0] == '-' {
                Some(-digits_value(d))
            } else {
                Some(digits_value(d))
            }
        } else {
            None
        }
    } else if s.len() > 0 && all_digits(s) {
        Some(digits_value(s))
    } else {
        None
    }
}

/// What `str::parse` accepts for an unsigned integer: an optional `+`
/// followed by one or more ASCII digits, and nothing else.
pub open spec fn unsigned_decimal(s: Seq<char>) -> Option<int> {
    if s.len() > 0 && s[0] == '+' {
        let d = s.drop_first();
        if d.len() > 0 && all_digits(d) {
            Some(digits_value(d))
        } else {
            None
        }
    } else if s.len() > 0 && all_digits(s) {
        Some(digits_value(s))
    } else {
        None
    }
}

/// The `i32` that `s.parse::<i32>()` yields, if any.
pub open spec fn parsed_i32(s: Seq<char>) -> Option<i32> {
    match signed_decimal(s) {
        Some(v) => if i32::MIN <= v <= i32::MAX {
            Some(v as i32)
        } else {
            None
        },
        None => None,
    }
}

/// The `u32` that `s.parse::<u32>()` yields, if any.
pub open spec fn parsed_u32(s: Seq<char>) -> Option<u32> {
    match unsigned_decimal(s) {
        Some(v) => if v <= u32::MAX {
            Some(v as u32)
        } else {
            None
        },
        None => None,
    }
}

/// Calls `str::parse::<i32>`. Its documentation (`i32::from_str_radix` with
/// radix 10) says it accepts exactly an optional sign followed by ASCII digits
/// whose value fits in `i32`; this contract states that and the value.
#[verifier::external_body]
pub(crate) fn parse_i32(s: &str) -> (res: Result<i32, ParseIntError>)
    ensures
        res is Ok <==> parsed_i32(s@) is Some,
        res matches Ok(n) ==> parsed_i32(s@) == Some(n),
{
    s.parse::<i32>()
}

/// Calls `str::parse::<u32>`. Its documentation (`u32::from_str_radix` with
/// radix 10) says it accepts exactly an optional `+` followed by ASCII digits
/// whose value fits in `u32`; this contract states that and the value.
#[verifier::external_body]
pub(crate) fn parse_u32(s: &str) -> (res: Result<u32, ParseIntError>)
    ensures
        res is Ok <==> parsed_u32(s@) is Some,
        res matches Ok(n) ==> parsed_u32(s@) == Some(n),
{
    s.parse::<u32>()
}

/// The `usize` that `s.parse::<usize>()` yields, if any.
pub open spec fn parsed_usize(s: Seq<char>) -> Option<usize> {
    match unsigned_decimal(s) {
        Some(v) => if v <= usize::MAX {
            Some(v as usize)
        } else {
            None
        },
        None => None,
    }
}

/// Calls `str::parse::<usize>`. Its documentation (`usize::from_str_radix`
/// with radix 10) says it accepts exactly an optional `+` followed by ASCII
/// digits whose value fits in `usize`; this contract states that and the value.
#[verifier::external_body]
pub(crate) fn parse_usize(s: &str) -> (res: Result<usize, ParseIntError>)
    ensures
        res is Ok <==> parsed_usize(s@) is Some,
        res matches Ok(n) ==> parsed_usize(s@) == Some(n),
{
    s.parse::<usize>()
}

/// Calls `std::str::from_utf8`, which documents that it succeeds exactly on
/// well-formed UTF-8 and then views the same bytes as a string slice.
#[verifier::external_body]
pub(crate) fn utf8_str(bytes: &[u8]) -> (res: Option<&str>)
    ensures
        res is Some <==> vstd::utf8::valid_utf8(bytes@),
        res matches Some(s) ==> s.spec_bytes() == bytes@,
{
    std::str::from_utf8(bytes).ok()
}

/// `String::from_utf8_lossy` of a byte sequence.
pub uninterp spec fn utf8_lossy(bytes: Seq<u8>) -> Seq<char>;

/// Calls `String::from_utf8_lossy`. The result is a function of the bytes
/// alone; on well-formed UTF-8 it is the decoded text (the documentation
/// says invalid sequences, and only those, become U+FFFD).
#[verifier::external_body]
pub(crate) fn from_utf8_lossy(bytes: &[u8]) -> (s: String)
    ensures
        s@ == utf8_lossy(bytes@),
        vstd::utf8::valid_utf8(bytes@) ==> s@ == vstd::utf8::decode_utf8(bytes@),
{
    String::from_utf8_lossy(bytes).into_owned()
}

/// Calls `String::push`, documented to append one character.
#[verifier::external_body]
pub(crate) fn push_char(s: &mut String, c: char)
    ensures
        final(s)@ == old(s)@.push(c),
{
    s.push(c)
}

/// The character of a digit value 0..=9.
pub open spec fn digit_char(d: nat) -> char {
    if d == 0 {
        '0'
    } else if d == 1 {
        '1'
    } else if d == 2 {
        '2'
    } else if d == 3 {
        '3'
    } else if d == 4 {
        '4'
    } else if d == 5 {
        '5'
    } else if d == 6 {
        '6'
    } else if d == 7 {
        '7'
    } else if d == 8 {
        '8'
    } else {
        '9'
    }
}

/// Decimal rendering of a natural number, as `{}` formats it.
pub open spec fn dec(n: nat) -> Seq<char>
    decreases n,
{
    if n < 10 {
        seq![digit_char(n)]
    } else {
        dec(n / 10).push(digit_char(n % 10))
    }
}

/// Decimal rendering of an integer, with a leading `-` when negative.
pub open spec fn dec_int(n: int) -> Seq<char> {
    if n < 0 {
        seq!['-'] + dec((-n) as nat)
    } else {
        dec(n as nat)
    }
}

fn digit_str(d: u64) -> (s: &'static str)
    requires
        d < 10,
    ensures
        s@ == seq![digit_char(d as nat)],
{
    proof {
        reveal_strlit("0");
        reveal_strlit("1");
        reveal_strlit("2");
        reveal_strlit("3");
        reveal_strlit("4");
        reveal_strlit("5");
        reveal_strlit("6");
        reveal_strlit("7");
        reveal_strlit("8");
        reveal_strlit("9");
    }
    if d == 0 {
        "0"
    } else if d == 1 {
        "1"
    } else if d == 2 {
        "2"
    } else if d == 3 {
        "3"
    } else if d == 4 {
        "4"
    } else if d == 5 {
        "5"
    } else if d == 6 {
        "6"
    } else if d == 7 {
        "7"
    } else if d == 8 {
        "8"
    } else {
        "9"
    }
}

/// Appends the decimal rendering of `n` to `out`.
pub fn push_dec(out: &mut String, n: u64)
    ensures
        final(out)@ == old(out)@ + dec(n as nat),
    decreases n,
{
    if n >= 10 {
        push_dec(out, n / 10);
    }
    let ghost mid = out@;
    out.append(digit_str(n % 10));
    proof {
        if n >= 10 {
            assert(out@ =~= old(out)@ + dec(n as nat));
        } else {
            assert(out@ =~= old(out)@ + dec(n as nat));
        }
    }
}

/// Appends the decimal rendering of a signed `n` to `out`.
pub fn push_dec_i64(out: &mut String, n: i64)
    ensures
        final(out)@ == old(out)@ + dec_int(n as int),
{
    if n < 0 {
        proof {
            reveal_strlit("-");
        }
        out.append("-");
        let m: u64 = if n == i64::MIN {
            9223372036854775808u64
        } else {
            (-n) as u64
        };
        push_dec(out, m);
        assert(out@ =~= old(out)@ + dec_int(n as int));
    } else {
        push_dec(out, n as u64);
    }
}

/// Decimal rendering of `n` as a fresh string.
pub fn dec_string(n: u64) -> (s: String)
    ensures
        s@ == dec(n as nat),
{
    let mut s = String::new();
    push_dec(&mut s, n);
    assert(s@ =~= dec(n as nat));
    s
}

/// The characters of `s`, in order.
pub fn chars_of(s: &str) -> (v: Vec<char>)
    ensures
        v@ == s@,
{
    let mut v: Vec<char> = Vec::new();
    for c in it: s.chars()
        invariant
            it.seq() == s@,
            v@ == it.seq().take(it.index() as int),
    {
        v.push(c);
    }
    v
}

/// A string holding `chars[from..to]`.
pub fn string_of(chars: &[char], from: usize, to: usize) -> (s: String)
    requires
        from <= to <= chars@.len(),
    ensures
        s@ == chars@.subrange(from as int, to as int),
{
    let mut s = String::new();
    let mut i = from;
    while i < to
        invariant
            from <= i <= to <= chars@.len(),
            s@ == chars@.subrange(from as int, i as int),
        decreases to - i,
    {
        push_char(&mut s, chars[i]);
        i = i + 1;
    }
    s
}

/// Position of the first `c` in `s`.
pub open spec fn find_char<A>(s: Seq<A>, c: A) -> Option<int>
    decreases s.len(),
{
    if s.len() == 0 {
        None
    } else if s[0] == c {
        Some(0)
    } else {
        match find_char(s.drop_first(), c) {
            Some(i) => Some(i + 1),
            None => None,
        }
    }
}

/// `find_char` is the least position holding `c`, or `None` when none does.
pub proof fn lemma_find_char<A>(s: Seq<A>, c: A)
    ensures
        match find_char(s, c) {
            Some(i) => 0 <= i < s.len() && s[i] == c && forall|k: int| 0 <= k < i ==> s[k] != c,
            None => forall|k: int| 0 <= k < s.len() ==> s[k] != c,
        },
    decreases s.len(),
{
    if s.len() > 0 && s[0] != c {
        lemma_find_char(s.drop_first(), c);
        assert forall|k: int| 0 < k < s.len() implies s[k] == s.drop_first()[k - 1] by {}
    }
}

/// `s` split around its first `c`, as `str::split_once` does.
pub open spec fn split_once(s: Seq<char>, c: char) -> Option<(Seq<char>, Seq<char>)> {
    match find_char(s, c) {
        Some(i) => Some((s.take(i), s.skip(i + 1))),
        None => None,
    }
}

/// The first `c` in `chars[from..to]`, as an index into `chars`.
pub fn index_of(chars: &[char], from: usize, to: usize, c: char) -> (r: Option<usize>)
    requires
        from <= to <= chars@.len(),
    ensures
        r == (match find_char(chars@.subrange(from as int, to as int), c) {
            Some(i) => Some((from + i) as usize),
            None => None,
        }),
{
    let ghost sub = chars@.subrange(from as int, to as int);
    proof {
        lemma_find_char(sub, c);
    }
    let mut i = from;
    while i < to
        invariant
            from <= i <= to <= chars@.len(),
            sub == chars@.subrange(from as int, to as int),
            forall|k: int| from <= k < i ==> chars@[k] != c,
            match find_char(sub, c) {
                Some(j) => 0 <= j < sub.len() && sub[j] == c && forall|k: int|
                    0 <= k < j ==> sub[k] != c,
                None => forall|k: int| 0 <= k < sub.len() ==> sub[k] != c,
            },
        decreases to - i,
    {
        if chars[i] == c {
            proof {
                assert(sub[i - from] == c);
                if let Some(j) = find_char(sub, c) {
                    assert(!(j < i - from)) by {
                        if j < i - from {
                            assert(chars@[from + j] != c);
                        }
                    }
                    assert(!(j > i - from));
                }
            }
            return Some(i);
        }
        i = i + 1;
    }
    proof {
        if let Some(j) = find_char(sub, c) {
            assert(chars@[from + j] == c);
        }
    }
    None
}

/// Carriage return or line feed.
pub open spec fn is_line_end(c: char) -> bool {
    c == '\r' || c == '\n'
}

/// `s` without its trailing carriage returns and line feeds.
pub open spec fn strip_line_end(s: Seq<char>) -> Seq<char>
    decreases s.len(),
{
    if s.len() > 0 && is_line_end(s.last()) {
        strip_line_end(s.drop_last())
    } else {
        s
    }
}

/// The end of `chars[from..to]` once trailing `\r` and `\n` are dropped.
pub fn strip_line_end_at(chars: &[char], from: usize, to: usize) -> (e: usize)
    requires
        from <= to <= chars@.len(),
    ensures
        from <= e <= to,
        chars@.subrange(from as int, e as int) == strip_line_end(
            chars@.subrange(from as int, to as int),
        ),
{
    let mut e = to;
    while e > from && (chars[e - 1] == '\r' || chars[e - 1] == '\n')
        invariant
            from <= e <= to <= chars@.len(),
            strip_line_end(chars@.subrange(from as int, e as int)) == strip_line_end(
                chars@.subrange(from as int, to as int),
            ),
        decreases e,
    {
        assert(chars@.subrange(from as int, e as int).drop_last() =~= chars@.subrange(
            from as int,
            e - 1,
        ));
        e = e - 1;
    }
    e
}

/// Unicode `White_Space`, which `char::is_whitespace` tests.
pub open spec fn is_whitespace(c: char) -> bool {
    ||| '\u{9}' <= c <= '\u{d}'
    ||| c == ' '
    ||| c == '\u{85}'
    ||| c == '\u{a0}'
    ||| c == '\u{1680}'
    ||| '\u{2000}' <= c <= '\u{200a}'
    ||| c == '\u{2028}'
    ||| c == '\u{2029}'
    ||| c == '\u{202f}'
    ||| c == '\u{205f}'
    ||| c == '\u{3000}'
}

pub(crate) fn whitespace(c: char) -> (b: bool)
    ensures
        b == is_whitespace(c),
{
    ('\u{9}' <= c && c <= '\u{d}') || c == ' ' || c == '\u{85}' || c == '\u{a0}' || c
        == '\u{1680}' || ('\u{2000}' <= c && c <= '\u{200a}') || c == '\u{2028}' || c
        == '\u{2029}' || c == '\u{202f}' || c == '\u{205f}' || c == '\u{3000}'
}

/// `s` without trailing whitespace.
pub open spec fn trim_end(s: Seq<char>) -> Seq<char>
    decreases s.len(),
{
    if s.len() > 0 && is_whitespace(s.last()) {
        trim_end(s.drop_last())
    } else {
        s
    }
}

/// `s` without leading whitespace.
pub open spec fn trim_start(s: Seq<char>) -> Seq<char>
    decreases s.len(),
{
    if s.len() > 0 && is_whitespace(s[0]) {
        trim_start(s.drop_first())
    } else {
        s
    }
}

/// `s` without leading or trailing whitespace, as `str::trim` gives it.
pub open spec fn trim(s: Seq<char>) -> Seq<char> {
    trim_start(trim_end(s))
}

/// The bounds of `chars[from..to]` once whitespace is trimmed from both ends.
pub fn trim_at(chars: &[char], from: usize, to: usize) -> (r: (usize, usize))
    requires
        from <= to <= chars@.len(),
    ensures
        from <= r.0 <= r.1 <= to,
        chars@.subrange(r.0 as int, r.1 as int) == trim(chars@.subrange(from as int, to as int)),
{
    let mut e = to;
    while e > from && whitespace(chars[e - 1])
        invariant
            from <= e <= to <= chars@.len(),
            trim_end(chars@.subrange(from as int, e as int)) == trim_end(
                chars@.subrange(from as int, to as int),
            ),
        decreases e,
    {
        assert(chars@.subrange(from as int, e as int).drop_last() =~= chars@.subrange(
            from as int,
            e - 1,
        ));
        e = e - 1;
    }
    let mut b = from;
    while b < e && whitespace(chars[b])
        invariant
            from <= b <= e <= to <= chars@.len(),
            trim_start(chars@.subrange(b as int, e as int)) == trim(
                chars@.subrange(from as int, to as int),
            ),
        decreases e - b,
    {
        assert(chars@.subrange(b as int, e as int).drop_first() =~= chars@.subrange(
            b + 1,
            e as int,
        ));
        b = b + 1;
    }
    (b, e)
}

/// ASCII upper-case letters mapped to lower case; everything else kept.
pub open spec fn ascii_lower(c: char) -> char {
    if 'A' <= c <= 'Z' {
        ((c as u32) + 32) as char
    } else {
        c
    }
}

/// Equal up to ASCII case, as `str::eq_ignore_ascii_case` compares.
pub open spec fn eq_ignore_ascii_case(a: Seq<char>, b: Seq<char>) -> bool {
    a.len() == b.len() && forall|i: int| 0 <= i < a.len() ==> ascii_lower(a[i]) == ascii_lower(b[i])
}

fn lower(c: char) -> (l: char)
    ensures
        l == ascii_lower(c),
{
    if 'A' <= c && c <= 'Z' {
        ((c as u8) + 32) as char
    } else {
        c
    }
}

/// Compares `a[from..to]` with `b` ignoring ASCII case.
pub fn eq_ignore_ascii_case_at(a: &[char], from: usize, to: usize, b: &[char]) -> (r: bool)
    requires
        from <= to <= a@.len(),
    ensures
        r == eq_ignore_ascii_case(a@.subrange(from as int, to as int), b@),
{
    if to - from != b.len() {
        return false;
    }
    let mut i: usize = 0;
    while i < b.len()
        invariant
            from <= to <= a@.len(),
            to - from == b@.len(),
            i <= b@.len(),
            forall|k: int| 0 <= k < i ==> ascii_lower(a@[from + k]) == ascii_lower(b@[k]),
        decreases b@.len() - i,
    {
        if lower(a[from + i]) != lower(b[i]) {
            return false;
        }
        i = i + 1;
    }
    true
}

} // verus!
